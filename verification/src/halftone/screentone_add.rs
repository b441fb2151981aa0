//! Screens: thresholding a two-dimensional tone grid against a tiled dot
//! pattern, axis-aligned or rotated.
//!
//! The grid holds normalised samples as binary32 bit patterns. A sample that
//! is exactly `0.0` or `1.0`, or outside that range, is left as it is; every
//! other sample becomes `0.0` where it is below the threshold of its cell and
//! `1.0` elsewhere.

use vstd::prelude::*;
use vstd::arithmetic::div_mod::lemma_fundamental_div_mod_converse;
use crate::arithmetic32::{ONE_BITS, ZERO_BITS};
use crate::buffer::{PixelBuffer, Raster};
use crate::enums::TypeDot;
use crate::errors::PixelError;
use crate::arithmetic32::{from_nat, from_wide_bits, less, less_bits};
use crate::halftone::dot::{
    create_dot,
    rank_table,
    score_table,
    threshold,
    DotPattern,
    DotView,
    MAX_DOT_SIZE,
};
use crate::halftone::sample::{is_midtone, lemma_darker_is_below, sample_is_midtone};
use crate::halftone::utils_halftone::{rotate_pixel_coordinates, rotated_x, rotated_y};

verus! {

/// The dot pattern of a side and a shape.
pub open spec fn dot_of(size: nat, shape: TypeDot) -> DotView {
    DotView { size, shape, ranks: rank_table(score_table(shape, size)) }
}

/// The tone that sample `v` turns into at the pattern-space position
/// `(x2, y2)`. Tiles alternate between the two threshold tables like the
/// squares of a chessboard.
pub open spec fn screen_cell(dot: DotView, v: u32, x2: int, y2: int) -> u32 {
    if is_midtone(v) {
        let size = dot.size as int;
        let inverse = (y2 / size + x2 / size) % 2 == 1;
        let k = dot.rank_at(x2 % size, y2 % size);
        if less(v, threshold(dot.size, k, inverse)) {
            ZERO_BITS
        } else {
            ONE_BITS
        }
    } else {
        v
    }
}

/// The tone of the pixel at row `ly`, column `lx` under an axis-aligned
/// screen, whose tiles are shifted by half a dot along both axes.
pub open spec fn screen_pixel(dot: DotView, v: u32, ly: int, lx: int) -> u32 {
    screen_cell(dot, v, lx + (dot.size / 2) as int, ly + (dot.size / 2) as int)
}

/// A grid after an axis-aligned screen.
pub open spec fn screen(img: Raster<u32>, dot: DotView) -> Raster<u32> {
    Raster {
        samples: Seq::new(
            img.samples.len(),
            |p: int|
                screen_pixel(dot, img.samples[p], p / (img.width as int), p % (img.width as int)),
        ),
        ..img
    }
}

/// The tone of the pixel at row `ly`, column `lx` of a `rows * cols` grid
/// under a screen turned by the angle whose cosine and sine are given as
/// bit patterns. The pixel is shifted by half the grid and turned about the
/// point `(rows, cols)`.
pub open spec fn rotated_pixel(
    dot: DotView,
    v: u32,
    ly: int,
    lx: int,
    rows: int,
    cols: int,
    cos: u32,
    sin: u32,
) -> u32 {
    let x = from_nat((lx + rows / 2) as nat);
    let y = from_nat((ly + cols / 2) as nat);
    let cx = from_nat(rows as nat);
    let cy = from_nat(cols as nat);
    screen_cell(
        dot,
        v,
        rotated_x(x, y, cx, cy, cos, sin) as int,
        rotated_y(x, y, cx, cy, cos, sin) as int,
    )
}

/// A grid after a rotated screen.
pub open spec fn rotated_screen(img: Raster<u32>, dot: DotView, cos: u32, sin: u32) -> Raster<u32> {
    Raster {
        samples: Seq::new(
            img.samples.len(),
            |p: int|
                rotated_pixel(
                    dot,
                    img.samples[p],
                    p / (img.width as int),
                    p % (img.width as int),
                    img.height as int,
                    img.width as int,
                    cos,
                    sin,
                ),
        ),
        ..img
    }
}

/// Number of samples that are exactly `1.0`.
pub open spec fn count_white(samples: Seq<u32>) -> nat
    decreases samples.len(),
{
    if samples.len() == 0 {
        0
    } else {
        count_white(samples.drop_last()) + if samples.last() == ONE_BITS {
            1nat
        } else {
            0nat
        }
    }
}

/// The rank-two grid whose samples all equal `v`.
pub open spec fn flat_tone(height: nat, width: nat, v: u32) -> Raster<u32> {
    Raster { samples: Seq::new(height * width, |p: int| v), height, width, channels: None }
}

/// Pure black and pure white pass through a screen unchanged, wherever they
/// stand and whatever the dot.
pub proof fn lemma_pure_tones_untouched(dot: DotView, v: u32, x2: int, y2: int)
    requires
        v == ZERO_BITS || v == ONE_BITS,
    ensures
        screen_cell(dot, v, x2, y2) == v,
{
}

/// A grid of pure black and pure white samples is the same after an
/// axis-aligned screen and after a rotated one.
pub proof fn lemma_binary_grid_untouched(img: Raster<u32>, dot: DotView, cos: u32, sin: u32)
    requires
        forall|p: int|
            0 <= p < img.samples.len() ==> img.samples[p] == ZERO_BITS || img.samples[p]
                == ONE_BITS,
    ensures
        screen(img, dot) == img,
        rotated_screen(img, dot, cos, sin) == img,
{
    assert(screen(img, dot).samples =~= img.samples);
    assert(rotated_screen(img, dot, cos, sin).samples =~= img.samples);
}

/// At one position, a lighter midtone never turns black where a darker one
/// turns white.
pub proof fn lemma_cell_monotone(dot: DotView, v1: u32, v2: u32, x2: int, y2: int)
    requires
        is_midtone(v1),
        is_midtone(v2),
        v1 <= v2,
        screen_cell(dot, v1, x2, y2) == ONE_BITS,
    ensures
        screen_cell(dot, v2, x2, y2) == ONE_BITS,
{
    let size = dot.size as int;
    let inverse = (y2 / size + x2 / size) % 2 == 1;
    let k = dot.rank_at(x2 % size, y2 % size);
    if less(v2, threshold(dot.size, k, inverse)) {
        lemma_darker_is_below(v1, v2, threshold(dot.size, k, inverse));
    }
}

/// Where every white sample of `a` is matched by a white sample of `b`, `b`
/// has at least as many.
pub proof fn lemma_count_white_monotone(a: Seq<u32>, b: Seq<u32>)
    requires
        a.len() == b.len(),
        forall|p: int| 0 <= p < a.len() ==> a[p] == ONE_BITS ==> b[p] == ONE_BITS,
    ensures
        count_white(a) <= count_white(b),
    decreases a.len(),
{
    if a.len() > 0 {
        lemma_count_white_monotone(a.drop_last(), b.drop_last());
    }
}

/// Screening a grid of one constant midtone, the number of white pixels
/// never falls as the tone rises.
pub proof fn lemma_coverage_monotone(dot: DotView, height: nat, width: nat, v1: u32, v2: u32)
    requires
        is_midtone(v1),
        is_midtone(v2),
        v1 <= v2,
    ensures
        count_white(screen(flat_tone(height, width, v1), dot).samples) <= count_white(
            screen(flat_tone(height, width, v2), dot).samples,
        ),
{
    let a = screen(flat_tone(height, width, v1), dot).samples;
    let b = screen(flat_tone(height, width, v2), dot).samples;
    assert forall|p: int| 0 <= p < a.len() && a[p] == ONE_BITS implies b[p] == ONE_BITS by {
        let half = (dot.size / 2) as int;
        lemma_cell_monotone(dot, v1, v2, p % (width as int) + half, p / (width as int) + half);
    }
    lemma_count_white_monotone(a, b);
}

/// Under a rotated screen too, the number of white pixels of a constant
/// midtone never falls as the tone rises.
pub proof fn lemma_rotated_coverage_monotone(
    dot: DotView,
    height: nat,
    width: nat,
    cos: u32,
    sin: u32,
    v1: u32,
    v2: u32,
)
    requires
        is_midtone(v1),
        is_midtone(v2),
        v1 <= v2,
    ensures
        count_white(rotated_screen(flat_tone(height, width, v1), dot, cos, sin).samples)
            <= count_white(rotated_screen(flat_tone(height, width, v2), dot, cos, sin).samples),
{
    let a = rotated_screen(flat_tone(height, width, v1), dot, cos, sin).samples;
    let b = rotated_screen(flat_tone(height, width, v2), dot, cos, sin).samples;
    assert forall|p: int| 0 <= p < a.len() && a[p] == ONE_BITS implies b[p] == ONE_BITS by {
        let x = from_nat((p % (width as int) + (height as int) / 2) as nat);
        let y = from_nat((p / (width as int) + (width as int) / 2) as nat);
        let cx = from_nat(height);
        let cy = from_nat(width);
        lemma_cell_monotone(
            dot,
            v1,
            v2,
            rotated_x(x, y, cx, cy, cos, sin) as int,
            rotated_y(x, y, cx, cy, cos, sin) as int,
        );
    }
    lemma_count_white_monotone(a, b);
}

/// Thresholds one sample at the pattern-space position `(x2, y2)`.
fn screen_sample(dot: &DotPattern, v: u32, x2: u128, y2: u128) -> (out: u32)
    requires
        dot.wf(),
        x2 < 0x10_0000_0000_0000_0000,
        y2 < 0x10_0000_0000_0000_0000,
    ensures
        out == screen_cell(dot@, v, x2 as int, y2 as int),
{
    if !sample_is_midtone(v) {
        return v;
    }
    proof {
        dot.lemma_view_wf();
    }
    let size: u128 = dot.size() as u128;
    let inverse: bool = (y2 / size + x2 / size) % 2 == 1;
    let row: usize = (x2 % size) as usize;
    let col: usize = (y2 % size) as usize;
    let t: u32 = dot.threshold_at(row, col, inverse);
    if less_bits(v, t) {
        ZERO_BITS
    } else {
        ONE_BITS
    }
}

/// Applies an axis-aligned screen of the given dot to a rank-two grid, in
/// place. A grid with a channel axis is refused and left as it is.
pub fn apply_screen(array: &mut PixelBuffer<u32>, dot: &DotPattern) -> (r: Result<(), PixelError>)
    requires
        old(array).wf(),
        dot.wf(),
    ensures
        r is Ok <==> old(array)@.channels is None,
        r is Ok ==> final(array)@ == screen(old(array)@, dot@),
        r is Err ==> r == Err::<(), PixelError>(PixelError::ShapeMismatch) && final(array)@ == old(
            array,
        )@,
        final(array).wf(),
{
    if array.channels().is_some() {
        return Err(PixelError::ShapeMismatch);
    }
    proof {
        dot.lemma_view_wf();
    }
    let rows: usize = array.height();
    let cols: usize = array.width();
    let bias: u128 = (dot.size() / 2) as u128;
    let ghost before = array@;
    let ghost target = screen(before, dot@);
    let total: usize = array.len();
    assert(total == rows * cols) by (nonlinear_arith)
        requires
            total == rows * cols * 1,
    ;
    let mut ly: usize = 0;
    while ly < rows
        invariant
            dot.wf(),
            dot@.wf(),
            bias == dot@.size / 2,
            before.channels is None,
            before.height == rows,
            before.width == cols,
            before.samples.len() == total,
            total == rows * cols,
            target == screen(before, dot@),
            array@.height == before.height,
            array@.width == before.width,
            array@.channels == before.channels,
            array@.samples.len() == total,
            ly <= rows,
            forall|p: int| 0 <= p < ly * cols ==> array@.samples[p] == target.samples[p],
            forall|p: int| ly * cols <= p < total ==> array@.samples[p] == before.samples[p],
        decreases rows - ly,
    {
        let mut lx: usize = 0;
        assert(ly * cols + cols <= rows * cols && 0 <= ly * cols) by (nonlinear_arith)
            requires
                ly < rows,
                cols >= 0,
        ;
        let start: usize = ly * cols;
        while lx < cols
            invariant
                dot.wf(),
                dot@.wf(),
                bias == dot@.size / 2,
                before.channels is None,
                before.height == rows,
                before.width == cols,
                before.samples.len() == total,
                total == rows * cols,
                target == screen(before, dot@),
                array@.height == before.height,
                array@.width == before.width,
                array@.channels == before.channels,
                array@.samples.len() == total,
                ly < rows,
                lx <= cols,
                start == ly * cols,
                start + cols <= total,
                forall|p: int| 0 <= p < start + lx ==> array@.samples[p] == target.samples[p],
                forall|p: int| start + lx <= p < total ==> array@.samples[p] == before.samples[p],
            decreases cols - lx,
        {
            let p: usize = start + lx;
            proof {
                assert(p == cols * ly + lx) by (nonlinear_arith)
                    requires
                        p == ly * cols + lx,
                ;
                lemma_fundamental_div_mod_converse(p as int, cols as int, ly as int, lx as int);
            }
            let v: u32 = array.get(p);
            let out: u32 = screen_sample(dot, v, lx as u128 + bias, ly as u128 + bias);
            array.set(p, out);
            lx += 1;
        }
        ly += 1;
        assert((ly - 1) * cols + cols == ly * cols) by (nonlinear_arith);
    }
    assert(array@.samples =~= target.samples);
    Ok(())
}

/// Applies a screen turned by the angle whose cosine and sine are given as
/// bit patterns to a rank-two grid, in place. A grid with a channel axis is
/// refused and left as it is.
pub fn apply_rotated_screen(
    array: &mut PixelBuffer<u32>,
    dot: &DotPattern,
    cos_theta: u32,
    sin_theta: u32,
) -> (r: Result<(), PixelError>)
    requires
        old(array).wf(),
        dot.wf(),
    ensures
        r is Ok <==> old(array)@.channels is None,
        r is Ok ==> final(array)@ == rotated_screen(old(array)@, dot@, cos_theta, sin_theta),
        r is Err ==> r == Err::<(), PixelError>(PixelError::ShapeMismatch) && final(array)@ == old(
            array,
        )@,
        final(array).wf(),
{
    if array.channels().is_some() {
        return Err(PixelError::ShapeMismatch);
    }
    let rows: usize = array.height();
    let cols: usize = array.width();
    let lx_bias: u128 = (rows / 2) as u128;
    let ly_bias: u128 = (cols / 2) as u128;
    let ghost before = array@;
    let ghost target = rotated_screen(before, dot@, cos_theta, sin_theta);
    let center_x: u32 = from_wide_bits(rows as u128);
    let center_y: u32 = from_wide_bits(cols as u128);
    let total: usize = array.len();
    assert(total == rows * cols) by (nonlinear_arith)
        requires
            total == rows * cols * 1,
    ;
    let mut ly: usize = 0;
    while ly < rows
        invariant
            dot.wf(),
            lx_bias == rows / 2,
            ly_bias == cols / 2,
            before.channels is None,
            before.height == rows,
            before.width == cols,
            before.samples.len() == total,
            total == rows * cols,
            target == rotated_screen(before, dot@, cos_theta, sin_theta),
            center_x == from_nat(rows as nat),
            center_y == from_nat(cols as nat),
            array@.height == before.height,
            array@.width == before.width,
            array@.channels == before.channels,
            array@.samples.len() == total,
            ly <= rows,
            forall|p: int| 0 <= p < ly * cols ==> array@.samples[p] == target.samples[p],
            forall|p: int| ly * cols <= p < total ==> array@.samples[p] == before.samples[p],
        decreases rows - ly,
    {
        let mut lx: usize = 0;
        assert(ly * cols + cols <= rows * cols && 0 <= ly * cols) by (nonlinear_arith)
            requires
                ly < rows,
                cols >= 0,
        ;
        let start: usize = ly * cols;
        while lx < cols
            invariant
                dot.wf(),
                lx_bias == rows / 2,
                ly_bias == cols / 2,
                before.channels is None,
                before.height == rows,
                before.width == cols,
                before.samples.len() == total,
                total == rows * cols,
                target == rotated_screen(before, dot@, cos_theta, sin_theta),
            center_x == from_nat(rows as nat),
            center_y == from_nat(cols as nat),
                array@.height == before.height,
                array@.width == before.width,
                array@.channels == before.channels,
                array@.samples.len() == total,
                ly < rows,
                lx <= cols,
                start == ly * cols,
                start + cols <= total,
                forall|p: int| 0 <= p < start + lx ==> array@.samples[p] == target.samples[p],
                forall|p: int| start + lx <= p < total ==> array@.samples[p] == before.samples[p],
            decreases cols - lx,
        {
            let p: usize = start + lx;
            proof {
                assert(p == cols * ly + lx) by (nonlinear_arith)
                    requires
                        p == ly * cols + lx,
                ;
                lemma_fundamental_div_mod_converse(p as int, cols as int, ly as int, lx as int);
            }
            let v: u32 = array.get(p);
            let rot = rotate_pixel_coordinates(
                from_wide_bits(lx as u128 + lx_bias),
                from_wide_bits(ly as u128 + ly_bias),
                center_x,
                center_y,
                cos_theta,
                sin_theta,
            );
            let out: u32 = screen_sample(dot, v, rot.0 as u128, rot.1 as u128);
            array.set(p, out);
            lx += 1;
        }
        ly += 1;
        assert((ly - 1) * cols + cols == ly * cols) by (nonlinear_arith);
    }
    assert(array@.samples =~= target.samples);
    Ok(())
}

/// Halftones a rank-two grid in place with an axis-aligned screen of dots of
/// the given side and shape. Fails, leaving the grid as it is, when the side
/// is less than two or more than `MAX_DOT_SIZE`, or when the grid has a
/// channel axis.
pub fn screentone_add(array: &mut PixelBuffer<u32>, dot_size: usize, dot_type: TypeDot) -> (r:
    Result<(), PixelError>)
    requires
        old(array).wf(),
    ensures
        r is Ok <==> 2 <= dot_size <= MAX_DOT_SIZE && old(array)@.channels is None,
        r is Ok ==> final(array)@ == screen(old(array)@, dot_of(dot_size as nat, dot_type)),
        r is Err ==> final(array)@ == old(array)@ && r == Err::<(), PixelError>(
            if 2 <= dot_size <= MAX_DOT_SIZE {
                PixelError::ShapeMismatch
            } else {
                PixelError::InvalidParameter
            },
        ),
        final(array).wf(),
{
    match create_dot(dot_size, dot_type) {
        Ok(dot) => apply_screen(array, &dot),
        Err(e) => Err(e),
    }
}

/// Halftones a rank-two grid in place with a screen of dots of the given
/// side and shape, turned by the angle whose cosine and sine are given as
/// bit patterns. Fails, leaving the grid as it is, when the side is less
/// than two or more than `MAX_DOT_SIZE`, or when the grid has a channel
/// axis.
pub fn screentone_rotate_add(
    array: &mut PixelBuffer<u32>,
    dot_size: usize,
    cos_theta: u32,
    sin_theta: u32,
    dot_type: TypeDot,
) -> (r: Result<(), PixelError>)
    requires
        old(array).wf(),
    ensures
        r is Ok <==> 2 <= dot_size <= MAX_DOT_SIZE && old(array)@.channels is None,
        r is Ok ==> final(array)@ == rotated_screen(
            old(array)@,
            dot_of(dot_size as nat, dot_type),
            cos_theta,
            sin_theta,
        ),
        r is Err ==> final(array)@ == old(array)@ && r == Err::<(), PixelError>(
            if 2 <= dot_size <= MAX_DOT_SIZE {
                PixelError::ShapeMismatch
            } else {
                PixelError::InvalidParameter
            },
        ),
        final(array).wf(),
{
    match create_dot(dot_size, dot_type) {
        Ok(dot) => apply_rotated_screen(array, &dot, cos_theta, sin_theta),
        Err(e) => Err(e),
    }
}

} // verus!
