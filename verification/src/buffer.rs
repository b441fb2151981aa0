//! Owned pixel buffers: a flat sample array with a shape of rank two
//! (height, width) or rank three (height, width, channels), row-major with the
//! channel axis last.

use vstd::prelude::*;
use vstd::arithmetic::div_mod::{lemma_fundamental_div_mod, lemma_fundamental_div_mod_converse};
use crate::errors::PixelError;

verus! {

/// The mathematical content of a pixel buffer.
pub struct Raster<T> {
    pub samples: Seq<T>,
    pub height: nat,
    pub width: nat,
    /// `None` for a rank-two buffer, the length of the channel axis otherwise.
    pub channels: Option<nat>,
}

impl<T> Raster<T> {
    /// Samples per pixel.
    pub open spec fn depth(self) -> nat {
        match self.channels {
            Some(c) => c,
            None => 1,
        }
    }

    /// The sample array holds exactly one value per element of the shape.
    pub open spec fn wf(self) -> bool {
        self.samples.len() == self.height * self.width * self.depth()
    }

    /// The sample of channel `k` at row `r`, column `q`.
    pub open spec fn at(self, r: int, q: int, k: int) -> T {
        self.samples[(r * self.width + q) * self.depth() + k]
    }

    /// The ordered dimensions.
    pub open spec fn shape(self) -> Seq<nat> {
        match self.channels {
            Some(c) => seq![self.height, self.width, c],
            None => seq![self.height, self.width],
        }
    }

    /// The buffer of the given shape whose sample of channel `k` at row `r`,
    /// column `q` is `f(r, q, k)`.
    pub open spec fn from_fn(
        height: nat,
        width: nat,
        channels: Option<nat>,
        f: spec_fn(int, int, int) -> T,
    ) -> Raster<T> {
        let d = match channels {
            Some(c) => c as int,
            None => 1,
        };
        Raster {
            samples: Seq::new(
                height * width * (d as nat),
                |p: int| f((p / d) / (width as int), (p / d) % (width as int), p % d),
            ),
            height,
            width,
            channels,
        }
    }

    /// The window of `h` rows and `w` columns whose top-left pixel is at row
    /// `r0`, column `c0`.
    pub open spec fn crop(self, r0: nat, c0: nat, h: nat, w: nat) -> Raster<T> {
        Raster::from_fn(h, w, self.channels, |r: int, q: int, k: int| self.at(r0 + r, c0 + q, k))
    }

    /// `self` with `other` to its right, when both have the same rank, depth
    /// and height and the joint width is representable.
    pub open spec fn concat_cols(self, other: Raster<T>) -> Option<Raster<T>> {
        if self.channels == other.channels && self.height == other.height && self.width
            + other.width <= usize::MAX {
            Some(
                Raster::from_fn(
                    self.height,
                    self.width + other.width,
                    self.channels,
                    |r: int, q: int, k: int|
                        if q < self.width {
                            self.at(r, q, k)
                        } else {
                            other.at(r, q - self.width, k)
                        },
                ),
            )
        } else {
            None
        }
    }

    /// `self` with `other` below it, when both have the same rank, depth and
    /// width and the joint height is representable.
    pub open spec fn concat_rows(self, other: Raster<T>) -> Option<Raster<T>> {
        if self.channels == other.channels && self.width == other.width && self.height
            + other.height <= usize::MAX {
            Some(
                Raster::from_fn(
                    self.height + other.height,
                    self.width,
                    self.channels,
                    |r: int, q: int, k: int|
                        if r < self.height {
                            self.at(r, q, k)
                        } else {
                            other.at(r - self.height, q, k)
                        },
                ),
            )
        } else {
            None
        }
    }
}

/// Position of channel `k` of the pixel at row `r`, column `q` in the flat
/// sample array of a buffer `w` pixels wide and `d` samples deep.
pub open spec fn flat_index(r: int, q: int, k: int, w: int, d: int) -> int {
    (r * w + q) * d + k
}

/// A coordinate inside an `h * w * d` buffer has a flat index inside the
/// sample array, from which division recovers the coordinate.
pub proof fn lemma_flat_index(r: int, q: int, k: int, h: int, w: int, d: int)
    requires
        0 <= r < h,
        0 <= q < w,
        0 <= k < d,
    ensures
        0 <= flat_index(r, q, k, w, d) < h * w * d,
        0 <= r * w + q < h * w,
        flat_index(r, q, k, w, d) % d == k,
        flat_index(r, q, k, w, d) / d == r * w + q,
        (flat_index(r, q, k, w, d) / d) % w == q,
        (flat_index(r, q, k, w, d) / d) / w == r,
{
    let pix = r * w + q;
    let p = pix * d + k;
    assert(0 <= pix < h * w) by (nonlinear_arith)
        requires
            pix == r * w + q,
            0 <= r < h,
            0 <= q < w,
    ;
    assert(0 <= p < h * w * d) by (nonlinear_arith)
        requires
            p == pix * d + k,
            0 <= pix < h * w,
            0 <= k < d,
    ;
    assert(p == d * pix + k) by (nonlinear_arith)
        requires
            p == pix * d + k,
    ;
    lemma_fundamental_div_mod_converse(p, d, pix, k);
    assert(pix == w * r + q) by (nonlinear_arith)
        requires
            pix == r * w + q,
    ;
    lemma_fundamental_div_mod_converse(pix, w, r, q);
}

/// A flat index inside an `h * w * d` sample array is the flat index of the
/// coordinate that division recovers from it, which lies inside the buffer.
pub proof fn lemma_unflatten(p: int, h: int, w: int, d: int)
    requires
        0 <= h,
        0 <= w,
        0 <= d,
        0 <= p < h * w * d,
    ensures
        0 <= p % d < d,
        0 <= (p / d) % w < w,
        0 <= (p / d) / w < h,
        p == flat_index((p / d) / w, (p / d) % w, p % d, w, d),
{
    assert(d > 0 && w > 0 && h > 0) by (nonlinear_arith)
        requires
            0 <= h,
            0 <= w,
            0 <= d,
            0 <= p < h * w * d,
    ;
    let pix = p / d;
    let k = p % d;
    lemma_fundamental_div_mod(p, d);
    assert(0 <= pix < h * w) by (nonlinear_arith)
        requires
            p == d * pix + k,
            0 <= k < d,
            0 <= p < h * w * d,
    ;
    let r = pix / w;
    let q = pix % w;
    lemma_fundamental_div_mod(pix, w);
    assert(0 <= r < h) by (nonlinear_arith)
        requires
            pix == w * r + q,
            0 <= q < w,
            0 <= pix < h * w,
    ;
    assert(p == (r * w + q) * d + k) by (nonlinear_arith)
        requires
            p == d * pix + k,
            pix == w * r + q,
    ;
}

/// Inside its shape, a buffer made by `from_fn` holds `f` of the coordinate.
pub proof fn lemma_from_fn_at<T>(
    height: nat,
    width: nat,
    channels: Option<nat>,
    f: spec_fn(int, int, int) -> T,
    r: int,
    q: int,
    k: int,
)
    requires
        0 <= r < height,
        0 <= q < width,
        0 <= k < (Raster::<T> { samples: Seq::empty(), height, width, channels }).depth(),
    ensures
        Raster::from_fn(height, width, channels, f).at(r, q, k) == f(r, q, k),
        Raster::from_fn(height, width, channels, f).wf(),
{
    let out = Raster::from_fn(height, width, channels, f);
    let d = out.depth() as int;
    lemma_flat_index(r, q, k, height as int, width as int, d);
    assert(height * width * out.depth() == (height as int) * (width as int) * d);
}

/// Two functions that agree inside the shape make the same buffer.
pub proof fn lemma_from_fn_ext<T>(
    height: nat,
    width: nat,
    channels: Option<nat>,
    f: spec_fn(int, int, int) -> T,
    g: spec_fn(int, int, int) -> T,
)
    requires
        forall|r: int, q: int, k: int|
            0 <= r < height && 0 <= q < width && 0 <= k < (Raster::<T> {
                samples: Seq::empty(),
                height,
                width,
                channels,
            }).depth() ==> #[trigger] f(r, q, k) == g(r, q, k),
    ensures
        Raster::from_fn(height, width, channels, f) == Raster::from_fn(height, width, channels, g),
{
    let a = Raster::from_fn(height, width, channels, f);
    let b = Raster::from_fn(height, width, channels, g);
    let d = a.depth() as int;
    assert forall|p: int| 0 <= p < a.samples.len() implies a.samples[p] == b.samples[p] by {
        assert(height * width * a.depth() == (height as int) * (width as int) * d);
        lemma_unflatten(p, height as int, width as int, d);
    }
    assert(a.samples =~= b.samples);
}

/// A well-formed buffer is the one `from_fn` makes of its own samples.
pub proof fn lemma_from_fn_self<T>(img: Raster<T>)
    requires
        img.wf(),
    ensures
        img == Raster::from_fn(
            img.height,
            img.width,
            img.channels,
            |r: int, q: int, k: int| img.at(r, q, k),
        ),
{
    let f = |r: int, q: int, k: int| img.at(r, q, k);
    let out = Raster::from_fn(img.height, img.width, img.channels, f);
    let d = img.depth() as int;
    assert forall|p: int| 0 <= p < img.samples.len() implies img.samples[p] == out.samples[p] by {
        assert(img.height * img.width * img.depth() == (img.height as int) * (img.width as int)
            * d);
        lemma_unflatten(p, img.height as int, img.width as int, d);
    }
    assert(img.samples =~= out.samples);
}

/// A pixel buffer that owns its samples.
pub struct PixelBuffer<T> {
    samples: Vec<T>,
    height: usize,
    width: usize,
    channels: Option<usize>,
}

/// The channel axis as a mathematical value.
pub open spec fn channels_view(channels: Option<usize>) -> Option<nat> {
    match channels {
        Some(c) => Some(c as nat),
        None => None,
    }
}

impl<T> View for PixelBuffer<T> {
    type V = Raster<T>;

    closed spec fn view(&self) -> Raster<T> {
        Raster {
            samples: self.samples@,
            height: self.height as nat,
            width: self.width as nat,
            channels: channels_view(self.channels),
        }
    }
}

/// Whether two channel axes are both absent or both present and equal.
fn same_channels(a: Option<usize>, b: Option<usize>) -> (same: bool)
    ensures
        same == (channels_view(a) == channels_view(b)),
{
    match (a, b) {
        (Some(x), Some(y)) => x == y,
        (None, None) => true,
        _ => false,
    }
}

/// `a * b * c` when it fits in `usize`.
fn checked_volume(a: usize, b: usize, c: usize) -> (v: Option<usize>)
    ensures
        match v {
            Some(n) => n == a * b * c,
            None => a * b * c > usize::MAX,
        },
{
    match a.checked_mul(b) {
        Some(ab) => {
            match ab.checked_mul(c) {
                Some(abc) => Some(abc),
                None => None,
            }
        },
        None => {
            if c == 0 {
                Some(0)
            } else {
                assert(a * b * c >= a * b) by (nonlinear_arith)
                    requires
                        c >= 1,
                        a * b >= 0,
                ;
                None
            }
        },
    }
}

impl<T> PixelBuffer<T> {
    /// Every buffer built by this library holds one sample per shape element.
    pub open spec fn wf(&self) -> bool {
        self@.wf()
    }

    /// A rank-two buffer over `samples`; fails when their number is not
    /// `height * width`.
    pub fn from_shape_vec2(height: usize, width: usize, samples: Vec<T>) -> (r: Result<
        Self,
        PixelError,
    >)
        ensures
            samples@.len() == height * width <==> r is Ok,
            r is Err ==> r == Err::<Self, PixelError>(PixelError::ShapeMismatch),
            r is Ok ==> r->Ok_0.wf() && r->Ok_0@ == (Raster {
                samples: samples@,
                height: height as nat,
                width: width as nat,
                channels: None,
            }),
    {
        let len: usize = samples.len();
        assert(height * width * 1 == height * width) by (nonlinear_arith);
        match checked_volume(height, width, 1) {
            Some(n) => {
                if n == len {
                    Ok(PixelBuffer { samples, height, width, channels: None })
                } else {
                    Err(PixelError::ShapeMismatch)
                }
            },
            None => Err(PixelError::ShapeMismatch),
        }
    }

    /// A rank-three buffer over `samples`; fails when their number is not
    /// `height * width * channels`.
    pub fn from_shape_vec3(
        height: usize,
        width: usize,
        channels: usize,
        samples: Vec<T>,
    ) -> (r: Result<Self, PixelError>)
        ensures
            samples@.len() == height * width * channels <==> r is Ok,
            r is Err ==> r == Err::<Self, PixelError>(PixelError::ShapeMismatch),
            r is Ok ==> r->Ok_0.wf() && r->Ok_0@ == (Raster {
                samples: samples@,
                height: height as nat,
                width: width as nat,
                channels: Some(channels as nat),
            }),
    {
        let len: usize = samples.len();
        match checked_volume(height, width, channels) {
            Some(n) => {
                if n == len {
                    Ok(PixelBuffer { samples, height, width, channels: Some(channels) })
                } else {
                    Err(PixelError::ShapeMismatch)
                }
            },
            None => Err(PixelError::ShapeMismatch),
        }
    }

    /// A buffer of the given shape over `samples`; fails when the shape has a
    /// rank other than two or three, or does not hold `samples.len()` elements.
    pub fn from_shape_vec(shape: &[usize], samples: Vec<T>) -> (r: Result<Self, PixelError>)
        ensures
            r is Ok <==> (shape@.len() == 2 && samples@.len() == shape@[0] * shape@[1]) || (
            shape@.len() == 3 && samples@.len() == shape@[0] * shape@[1] * shape@[2]),
            r is Err ==> r == Err::<Self, PixelError>(PixelError::ShapeMismatch),
            r is Ok ==> r->Ok_0.wf() && r->Ok_0@.samples == samples@ && r->Ok_0@.shape()
                == shape@.map_values(|d: usize| d as nat),
    {
        if shape.len() == 2 {
            let r = Self::from_shape_vec2(shape[0], shape[1], samples);
            proof {
                if r is Ok {
                    assert(r->Ok_0@.shape() =~= shape@.map_values(|d: usize| d as nat));
                }
            }
            r
        } else if shape.len() == 3 {
            let r = Self::from_shape_vec3(shape[0], shape[1], shape[2], samples);
            proof {
                if r is Ok {
                    assert(r->Ok_0@.shape() =~= shape@.map_values(|d: usize| d as nat));
                }
            }
            r
        } else {
            Err(PixelError::ShapeMismatch)
        }
    }

    /// Number of rows.
    pub fn height(&self) -> (h: usize)
        ensures
            h == self@.height,
    {
        self.height
    }

    /// Number of columns.
    pub fn width(&self) -> (w: usize)
        ensures
            w == self@.width,
    {
        self.width
    }

    /// Length of the channel axis, `None` for a rank-two buffer.
    pub fn channels(&self) -> (c: Option<usize>)
        ensures
            channels_view(c) == self@.channels,
    {
        self.channels
    }

    /// Samples per pixel: the channel count, or one for a rank-two buffer.
    pub fn depth(&self) -> (d: usize)
        ensures
            d == self@.depth(),
    {
        match self.channels {
            Some(c) => c,
            None => 1,
        }
    }

    /// The ordered dimensions: two entries, or three with a channel axis.
    pub fn shape(&self) -> (s: Vec<usize>)
        ensures
            s@.map_values(|d: usize| d as nat) == self@.shape(),
    {
        let mut s: Vec<usize> = Vec::new();
        s.push(self.height);
        s.push(self.width);
        match self.channels {
            Some(c) => {
                s.push(c);
            },
            None => {},
        }
        assert(s@.map_values(|d: usize| d as nat) =~= self@.shape());
        s
    }

    /// Copies the window of `h` rows and `w` columns whose top-left pixel is at
    /// row `r0`, column `c0`.
    pub fn crop(&self, r0: usize, c0: usize, h: usize, w: usize) -> (out: PixelBuffer<T>) where
        T: Copy,

        requires
            self.wf(),
            r0 + h <= self@.height,
            c0 + w <= self@.width,
        ensures
            out.wf(),
            out@ == self@.crop(r0 as nat, c0 as nat, h as nat, w as nat),
    {
        let d: usize = self.depth();
        let ghost target = self@.crop(r0 as nat, c0 as nat, h as nat, w as nat);
        let ghost hh = self@.height as int;
        let ghost ww = self@.width as int;
        let mut out: Vec<T> = Vec::new();
        let len: usize = self.samples.len();
        assert(target.samples.len() == (h as int) * (w as int) * (d as int));
        assert(self.samples@.len() == hh * ww * (d as int));
        if d > 0 {
            assert(flat_index(0, 0, 0, w as int, d as int) == 0) by (nonlinear_arith);
            let mut r: usize = 0;
            while r < h
                invariant
                    self.wf(),
                    d > 0,
                    d == self@.depth(),
                    hh == self@.height,
                    ww == self@.width,
                    self.samples@.len() == hh * ww * (d as int),
                    self.samples@.len() <= usize::MAX,
                    r0 + h <= self@.height,
                    c0 + w <= self@.width,
                    target == self@.crop(r0 as nat, c0 as nat, h as nat, w as nat),
                    target.samples.len() == (h as int) * (w as int) * (d as int),
                    r <= h,
                    out@.len() == flat_index(r as int, 0, 0, w as int, d as int),
                    forall|p: int| 0 <= p < out@.len() ==> out@[p] == target.samples[p],
                decreases h - r,
            {
                let mut q: usize = 0;
                while q < w
                    invariant
                        self.wf(),
                        d > 0,
                        d == self@.depth(),
                        hh == self@.height,
                        ww == self@.width,
                        self.samples@.len() == hh * ww * (d as int),
                        self.samples@.len() <= usize::MAX,
                        r0 + h <= self@.height,
                        c0 + w <= self@.width,
                        target == self@.crop(r0 as nat, c0 as nat, h as nat, w as nat),
                        target.samples.len() == (h as int) * (w as int) * (d as int),
                        r < h,
                        q <= w,
                        out@.len() == flat_index(r as int, q as int, 0, w as int, d as int),
                        forall|p: int| 0 <= p < out@.len() ==> out@[p] == target.samples[p],
                    decreases w - q,
                {
                    proof {
                        lemma_flat_index((r0 + r) as int, (c0 + q) as int, 0, hh, ww, d as int);
                        lemma_flat_index(
                            (r0 + r) as int,
                            (c0 + q) as int,
                            d as int - 1,
                            hh,
                            ww,
                            d as int,
                        );
                    }
                    let base: usize = ((r0 + r) * self.width + (c0 + q)) * d;
                    let mut k: usize = 0;
                    while k < d
                        invariant
                            self.wf(),
                            d > 0,
                            d == self@.depth(),
                            hh == self@.height,
                            ww == self@.width,
                            self.samples@.len() == hh * ww * (d as int),
                            r0 + h <= self@.height,
                            c0 + w <= self@.width,
                            target == self@.crop(r0 as nat, c0 as nat, h as nat, w as nat),
                            target.samples.len() == (h as int) * (w as int) * (d as int),
                            r < h,
                            q < w,
                            k <= d,
                            base == flat_index((r0 + r) as int, (c0 + q) as int, 0, ww, d as int),
                            base + d <= self.samples@.len() <= usize::MAX,
                            out@.len() == flat_index(r as int, q as int, k as int, w as int, d as int),
                            forall|p: int| 0 <= p < out@.len() ==> out@[p] == target.samples[p],
                        decreases d - k,
                    {
                        proof {
                            lemma_flat_index(
                                r as int,
                                q as int,
                                k as int,
                                h as int,
                                w as int,
                                d as int,
                            );
                        }
                        out.push(self.samples[base + k]);
                        k += 1;
                    }
                    q += 1;
                    assert(flat_index(r as int, q as int - 1, d as int, w as int, d as int)
                        == flat_index(r as int, q as int, 0, w as int, d as int))
                        by (nonlinear_arith);
                }
                r += 1;
                assert(flat_index(r as int - 1, w as int, 0, w as int, d as int) == flat_index(
                    r as int,
                    0,
                    0,
                    w as int,
                    d as int,
                )) by (nonlinear_arith);
            }
            assert(flat_index(h as int, 0, 0, w as int, d as int) == (h as int) * (w as int) * (
            d as int)) by (nonlinear_arith);
        } else {
            assert((h as int) * (w as int) * (d as int) == 0) by (nonlinear_arith)
                requires
                    d == 0,
            ;
        }
        assert(out@ =~= target.samples);
        PixelBuffer { samples: out, height: h, width: w, channels: self.channels }
    }

    /// Joins `other` to the right of `self` (concatenation along the column
    /// axis); fails when ranks, depths or heights differ.
    pub fn concat_cols(&self, other: &PixelBuffer<T>) -> (r: Result<PixelBuffer<T>, PixelError>) where
        T: Copy,

        requires
            self.wf(),
            other.wf(),
        ensures
            match self@.concat_cols(other@) {
                Some(img) => r is Ok && r->Ok_0@ == img && r->Ok_0.wf(),
                None => r == Err::<PixelBuffer<T>, PixelError>(PixelError::ShapeMismatch),
            },
    {
        if !same_channels(self.channels, other.channels) || self.height != other.height {
            return Err(PixelError::ShapeMismatch);
        }
        let width: usize = match self.width.checked_add(other.width) {
            Some(w) => w,
            None => {
                return Err(PixelError::ShapeMismatch);
            },
        };
        let d: usize = self.depth();
        let h: usize = self.height;
        let wa: usize = self.width;
        let wb: usize = other.width;
        let ghost target = self@.concat_cols(other@)->Some_0;
        let mut out: Vec<T> = Vec::new();
        let la: usize = self.samples.len();
        let lb: usize = other.samples.len();
        assert(target.samples.len() == (h as int) * (width as int) * (d as int));
        if d > 0 {
            assert(flat_index(0, 0, 0, width as int, d as int) == 0) by (nonlinear_arith);
            let mut r: usize = 0;
            while r < h
                invariant
                    self.wf(),
                    other.wf(),
                    d > 0,
                    d == self@.depth(),
                    d == other@.depth(),
                    h == self@.height,
                    h == other@.height,
                    wa == self@.width,
                    wb == other@.width,
                    width == wa + wb,
                    self@.concat_cols(other@) == Some(target),
                    self.samples@.len() == (h as int) * (wa as int) * (d as int),
                    other.samples@.len() == (h as int) * (wb as int) * (d as int),
                    self.samples@.len() <= usize::MAX,
                    other.samples@.len() <= usize::MAX,
                    target.samples.len() == (h as int) * (width as int) * (d as int),
                    r <= h,
                    out@.len() == flat_index(r as int, 0, 0, width as int, d as int),
                    forall|p: int| 0 <= p < out@.len() ==> out@[p] == target.samples[p],
                decreases h - r,
            {
                let mut q: usize = 0;
                while q < width
                    invariant
                        self.wf(),
                        other.wf(),
                        d > 0,
                        d == self@.depth(),
                        d == other@.depth(),
                        h == self@.height,
                        h == other@.height,
                        wa == self@.width,
                        wb == other@.width,
                        width == wa + wb,
                        self@.concat_cols(other@) == Some(target),
                        self.samples@.len() == (h as int) * (wa as int) * (d as int),
                        other.samples@.len() == (h as int) * (wb as int) * (d as int),
                        self.samples@.len() <= usize::MAX,
                        other.samples@.len() <= usize::MAX,
                        target.samples.len() == (h as int) * (width as int) * (d as int),
                        r < h,
                        q <= width,
                        out@.len() == flat_index(r as int, q as int, 0, width as int, d as int),
                        forall|p: int| 0 <= p < out@.len() ==> out@[p] == target.samples[p],
                    decreases width - q,
                {
                    let left: bool = q < wa;
                    proof {
                        if left {
                            lemma_flat_index(r as int, q as int, 0, h as int, wa as int, d as int);
                            lemma_flat_index(
                                r as int,
                                q as int,
                                d as int - 1,
                                h as int,
                                wa as int,
                                d as int,
                            );
                        } else {
                            lemma_flat_index(
                                r as int,
                                q as int - wa as int,
                                0,
                                h as int,
                                wb as int,
                                d as int,
                            );
                            lemma_flat_index(
                                r as int,
                                q as int - wa as int,
                                d as int - 1,
                                h as int,
                                wb as int,
                                d as int,
                            );
                        }
                    }
                    let base: usize = if left {
                        (r * wa + q) * d
                    } else {
                        (r * wb + (q - wa)) * d
                    };
                    let mut k: usize = 0;
                    while k < d
                        invariant
                            self.wf(),
                            other.wf(),
                            d > 0,
                            d == self@.depth(),
                            d == other@.depth(),
                            h == self@.height,
                            h == other@.height,
                            wa == self@.width,
                            wb == other@.width,
                            width == wa + wb,
                            self@.concat_cols(other@) == Some(target),
                            target.samples.len() == (h as int) * (width as int) * (d as int),
                            r < h,
                            q < width,
                            k <= d,
                            left == (q < wa),
                            self.samples@.len() <= usize::MAX,
                            other.samples@.len() <= usize::MAX,
                            left ==> base == flat_index(r as int, q as int, 0, wa as int, d as int)
                                && base + d <= self.samples@.len(),
                            !left ==> base == flat_index(
                                r as int,
                                q as int - wa as int,
                                0,
                                wb as int,
                                d as int,
                            ) && base + d <= other.samples@.len(),
                            out@.len() == flat_index(
                                r as int,
                                q as int,
                                k as int,
                                width as int,
                                d as int,
                            ),
                            forall|p: int| 0 <= p < out@.len() ==> out@[p] == target.samples[p],
                        decreases d - k,
                    {
                        proof {
                            lemma_flat_index(
                                r as int,
                                q as int,
                                k as int,
                                h as int,
                                width as int,
                                d as int,
                            );
                        }
                        let v: T = if left {
                            self.samples[base + k]
                        } else {
                            other.samples[base + k]
                        };
                        out.push(v);
                        k += 1;
                    }
                    q += 1;
                    assert(flat_index(r as int, q as int - 1, d as int, width as int, d as int)
                        == flat_index(r as int, q as int, 0, width as int, d as int))
                        by (nonlinear_arith);
                }
                r += 1;
                assert(flat_index(r as int - 1, width as int, 0, width as int, d as int)
                    == flat_index(r as int, 0, 0, width as int, d as int)) by (nonlinear_arith);
            }
            assert(flat_index(h as int, 0, 0, width as int, d as int) == (h as int) * (
            width as int) * (d as int)) by (nonlinear_arith);
        } else {
            assert((h as int) * (width as int) * (d as int) == 0) by (nonlinear_arith)
                requires
                    d == 0,
            ;
        }
        assert(out@ =~= target.samples);
        Ok(PixelBuffer { samples: out, height: h, width, channels: self.channels })
    }

    /// Joins `other` below `self` (concatenation along the row axis); fails
    /// when ranks, depths or widths differ.
    pub fn concat_rows(&self, other: &PixelBuffer<T>) -> (r: Result<PixelBuffer<T>, PixelError>) where
        T: Copy,

        requires
            self.wf(),
            other.wf(),
        ensures
            match self@.concat_rows(other@) {
                Some(img) => r is Ok && r->Ok_0@ == img && r->Ok_0.wf(),
                None => r == Err::<PixelBuffer<T>, PixelError>(PixelError::ShapeMismatch),
            },
    {
        if !same_channels(self.channels, other.channels) || self.width != other.width {
            return Err(PixelError::ShapeMismatch);
        }
        let height: usize = match self.height.checked_add(other.height) {
            Some(h) => h,
            None => {
                return Err(PixelError::ShapeMismatch);
            },
        };
        let ghost target = self@.concat_rows(other@)->Some_0;
        let ghost d = self@.depth() as int;
        let ghost w = self@.width as int;
        let ghost ha = self@.height as int;
        let ghost hb = other@.height as int;
        let la: usize = self.samples.len();
        let lb: usize = other.samples.len();
        let mut out: Vec<T> = Vec::new();
        let mut i: usize = 0;
        while i < la
            invariant
                la == self.samples@.len(),
                i <= la,
                out@.len() == i,
                forall|p: int| 0 <= p < i ==> out@[p] == self.samples@[p],
            decreases la - i,
        {
            out.push(self.samples[i]);
            i += 1;
        }
        let mut j: usize = 0;
        while j < lb
            invariant
                la == self.samples@.len(),
                lb == other.samples@.len(),
                j <= lb,
                out@.len() == la + j,
                forall|p: int| 0 <= p < la ==> out@[p] == self.samples@[p],
                forall|p: int| 0 <= p < j ==> out@[la + p] == other.samples@[p],
            decreases lb - j,
        {
            out.push(other.samples[j]);
            j += 1;
        }
        proof {
            assert(la == ha * w * d);
            assert(lb == hb * w * d);
            assert(target.samples.len() == (ha + hb) * w * d);
            assert((ha + hb) * w * d == ha * w * d + hb * w * d) by (nonlinear_arith);
            assert forall|p: int| 0 <= p < out@.len() implies out@[p] == target.samples[p] by {
                lemma_unflatten(p, ha + hb, w, d);
                let r = (p / d) / w;
                let q = (p / d) % w;
                let k = p % d;
                if r < ha {
                    lemma_flat_index(r, q, k, ha, w, d);
                } else {
                    lemma_flat_index(r - ha, q, k, hb, w, d);
                    assert(flat_index(r - ha, q, k, w, d) == flat_index(r, q, k, w, d) - ha * w
                        * d) by (nonlinear_arith);
                    assert(out@[la + (p - la)] == other.samples@[p - la]);
                }
            }
            assert(out@ =~= target.samples);
        }
        Ok(PixelBuffer { samples: out, height, width: self.width, channels: self.channels })
    }

    /// An independent copy of the buffer.
    pub fn duplicate(&self) -> (out: PixelBuffer<T>) where T: Copy
        ensures
            out@ == self@,
    {
        let mut samples: Vec<T> = Vec::new();
        let n: usize = self.samples.len();
        let mut i: usize = 0;
        while i < n
            invariant
                n == self.samples@.len(),
                i <= n,
                samples@.len() == i,
                forall|p: int| 0 <= p < i ==> samples@[p] == self.samples@[p],
            decreases n - i,
        {
            samples.push(self.samples[i]);
            i += 1;
        }
        assert(samples@ =~= self.samples@);
        PixelBuffer { samples, height: self.height, width: self.width, channels: self.channels }
    }

    /// Overwrites the sample at flat position `index`.
    pub fn set(&mut self, index: usize, value: T)
        requires
            index < old(self)@.samples.len(),
        ensures
            final(self)@ == (Raster {
                samples: old(self)@.samples.update(index as int, value),
                ..old(self)@
            }),
    {
        self.samples.set(index, value);
    }

    /// The sample at flat position `index`.
    pub fn get(&self, index: usize) -> (value: T) where T: Copy
        requires
            index < self@.samples.len(),
        ensures
            value == self@.samples[index as int],
    {
        self.samples[index]
    }

    /// Number of samples.
    pub fn len(&self) -> (n: usize)
        ensures
            n == self@.samples.len(),
    {
        self.samples.len()
    }

    /// The flat sample array.
    pub fn samples(&self) -> (s: &Vec<T>)
        ensures
            s@ == self@.samples,
    {
        &self.samples
    }

    /// Gives up the buffer for its flat sample array.
    pub fn into_raw_vec(self) -> (s: Vec<T>)
        ensures
            s@ == self@.samples,
    {
        self.samples
    }
}

/// A decoded image with its sample type: eight-bit or sixteen-bit unsigned
/// samples, or normalised samples as binary32 bit patterns.
pub enum ArrayDType {
    F32(PixelBuffer<u32>),
    U8(PixelBuffer<u8>),
    U16(PixelBuffer<u16>),
}

/// The mathematical content of a decoded image.
pub enum ArrayView {
    F32(Raster<u32>),
    U8(Raster<u8>),
    U16(Raster<u16>),
}

impl View for ArrayDType {
    type V = ArrayView;

    open spec fn view(&self) -> ArrayView {
        match self {
            ArrayDType::F32(b) => ArrayView::F32(b@),
            ArrayDType::U8(b) => ArrayView::U8(b@),
            ArrayDType::U16(b) => ArrayView::U16(b@),
        }
    }
}

impl ArrayDType {
    /// The buffer inside holds one sample per shape element.
    pub open spec fn wf(&self) -> bool {
        match self {
            ArrayDType::F32(b) => b.wf(),
            ArrayDType::U8(b) => b.wf(),
            ArrayDType::U16(b) => b.wf(),
        }
    }

    /// The ordered dimensions of the buffer inside.
    pub fn shape(&self) -> (s: Vec<usize>)
        ensures
            s@.map_values(|d: usize| d as nat) == match self@ {
                ArrayView::F32(b) => b.shape(),
                ArrayView::U8(b) => b.shape(),
                ArrayView::U16(b) => b.shape(),
            },
    {
        match self {
            ArrayDType::F32(b) => b.shape(),
            ArrayDType::U8(b) => b.shape(),
            ArrayDType::U16(b) => b.shape(),
        }
    }
}

} // verus!
