//! The frame of the colour conversions: how many channels each conversion
//! reads and writes, and the passes that carry a per-pixel function over a
//! flat sample array, group by group.
//!
//! The passes are generic in the sample type and take the per-pixel function
//! from the caller. Conversions that only move samples are complete here.

use vstd::prelude::*;
use crate::enums::CvtType;
use crate::errors::PixelError;
use crate::format_convert::gray_to_rgb_seq;

verus! {

/// Samples per pixel that a conversion reads.
pub open spec fn cvt_in_channels(op: CvtType) -> nat {
    match op {
        CvtType::CMYK2RGB => 4,
        CvtType::GRAY2RGB => 1,
        _ => 3,
    }
}

/// Samples per pixel that a conversion writes.
pub open spec fn cvt_out_channels(op: CvtType) -> nat {
    match op {
        CvtType::RGB2Gray
        | CvtType::RGB2GrayAverage
        | CvtType::RGB2GrayBt709
        | CvtType::RGB2GrayBt2020
        | CvtType::RGB2Luma => 1,
        CvtType::RGB2CMYK => 4,
        _ => 3,
    }
}

/// Samples per pixel that a conversion reads and writes.
pub fn cvt_channels(op: CvtType) -> (io: (usize, usize))
    ensures
        io.0 == cvt_in_channels(op),
        io.1 == cvt_out_channels(op),
{
    match op {
        CvtType::RGB2Gray
        | CvtType::RGB2GrayAverage
        | CvtType::RGB2GrayBt709
        | CvtType::RGB2GrayBt2020
        | CvtType::RGB2Luma => (3, 1),
        CvtType::RGB2CMYK => (3, 4),
        CvtType::CMYK2RGB => (4, 3),
        CvtType::GRAY2RGB => (1, 3),
        CvtType::RGB2YCbCr
        | CvtType::YCbCr2RGB
        | CvtType::RGB2YCvCrBt2020
        | CvtType::YCvCr2RGBBt2020
        | CvtType::RGB2YCvCrBt709
        | CvtType::YCvCr2RGBBt709
        | CvtType::RGB2BGR
        | CvtType::BGR2RGB => (3, 3),
    }
}

/// Number of samples a conversion writes for `len` samples read; fails when
/// `len` is not a whole number of input pixels.
pub fn cvt_output_len(len: usize, op: CvtType) -> (r: Result<usize, PixelError>)
    ensures
        r is Ok <==> (len as nat) % cvt_in_channels(op) == 0 && ((len as nat) / cvt_in_channels(
            op,
        )) * cvt_out_channels(op) <= usize::MAX,
        r is Ok ==> r->Ok_0 == ((len as nat) / cvt_in_channels(op)) * cvt_out_channels(op),
        r is Err ==> r->Err_0 == PixelError::ShapeMismatch,
{
    let (group_in, group_out) = cvt_channels(op);
    if len % group_in != 0 {
        return Err(PixelError::ShapeMismatch);
    }
    match (len / group_in).checked_mul(group_out) {
        Some(n) => Ok(n),
        None => Err(PixelError::ShapeMismatch),
    }
}

/// The channel axis of a conversion's result: none for gray.
pub fn cvt_axis(op: CvtType) -> (axis: Option<usize>)
    ensures
        axis == if cvt_out_channels(op) == 1 {
            None::<usize>
        } else {
            Some(cvt_out_channels(op) as usize)
        },
{
    let (_, group_out) = cvt_channels(op);
    if group_out == 1 {
        None
    } else {
        Some(group_out)
    }
}

/// The pixel with its first and third channel exchanged.
pub fn rgb_to_bgr<T: Copy>(r: T, g: T, b: T) -> (bgr: [T; 3])
    ensures
        bgr@ == seq![b, g, r],
{
    let bgr = [b, g, r];
    assert(bgr@ =~= seq![b, g, r]);
    bgr
}

/// The gray value in all three channels.
pub fn gray_to_rgb<T: Copy>(gray: T) -> (rgb: [T; 3])
    ensures
        rgb@ == seq![gray, gray, gray],
{
    let rgb = [gray, gray, gray];
    assert(rgb@ =~= seq![gray, gray, gray]);
    rgb
}

/// Every RGB triple with its first and third channel exchanged.
pub open spec fn swap_rb_seq<T>(img: Seq<T>) -> Seq<T> {
    Seq::new((img.len() / 3) * 3, |i: int| img[(i / 3) * 3 + (2 - i % 3)])
}

/// RGB to BGR or back; fails when the samples are not whole triples.
pub fn swap_rb<T: Copy>(img: &[T]) -> (r: Result<Vec<T>, PixelError>)
    ensures
        r is Ok <==> img@.len() % 3 == 0,
        r is Ok ==> r->Ok_0@ == swap_rb_seq(img@),
        r is Err ==> r->Err_0 == PixelError::ShapeMismatch,
{
    if img.len() % 3 != 0 {
        return Err(PixelError::ShapeMismatch);
    }
    let n: usize = img.len() / 3;
    let mut out: Vec<T> = Vec::new();
    let mut i: usize = 0;
    while i < n
        invariant
            3 * n == img@.len() <= usize::MAX,
            i <= n,
            out@.len() == 3 * i,
            forall|k: int| 0 <= k < 3 * i ==> out@[k] == swap_rb_seq(img@)[k],
        decreases n - i,
    {
        let bgr = rgb_to_bgr(img[3 * i], img[3 * i + 1], img[3 * i + 2]);
        out.push(bgr[0]);
        out.push(bgr[1]);
        out.push(bgr[2]);
        i += 1;
    }
    Ok(out)
}

/// Gray to RGB by replication.
pub fn gray2rgb<T: Copy>(img: &[T]) -> (rgb: Vec<T>)
    ensures
        rgb@ == gray_to_rgb_seq(img@),
{
    let mut out: Vec<T> = Vec::new();
    let mut i: usize = 0;
    while i < img.len()
        invariant
            i <= img@.len(),
            out@.len() == 3 * i,
            forall|k: int| 0 <= k < 3 * i ==> out@[k] == img@[k / 3],
        decreases img@.len() - i,
    {
        let rgb = gray_to_rgb(img[i]);
        out.push(rgb[0]);
        out.push(rgb[1]);
        out.push(rgb[2]);
        i += 1;
    }
    out
}

/// Carries `func` over every RGB triple and collects one sample per pixel.
/// Fails when the samples are not whole triples.
pub fn rgb2gray<T: Copy, F: Fn(T, T, T) -> T>(img: &[T], func: F) -> (r: Result<Vec<T>, PixelError>)
    requires
        forall|a: T, b: T, c: T| call_requires(func, (a, b, c)),
    ensures
        r is Ok <==> img@.len() % 3 == 0,
        r is Err ==> r->Err_0 == PixelError::ShapeMismatch,
        r is Ok ==> r->Ok_0@.len() == img@.len() / 3 && forall|i: int|
            0 <= i < img@.len() / 3 ==> call_ensures(
                func,
                (img@[3 * i], img@[3 * i + 1], img@[3 * i + 2]),
                #[trigger] r->Ok_0@[i],
            ),
{
    if img.len() % 3 != 0 {
        return Err(PixelError::ShapeMismatch);
    }
    let n: usize = img.len() / 3;
    let mut out: Vec<T> = Vec::new();
    let mut i: usize = 0;
    while i < n
        invariant
            forall|a: T, b: T, c: T| call_requires(func, (a, b, c)),
            3 * n == img@.len() <= usize::MAX,
            i <= n,
            out@.len() == i,
            forall|k: int|
                0 <= k < i ==> call_ensures(
                    func,
                    (img@[3 * k], img@[3 * k + 1], img@[3 * k + 2]),
                    #[trigger] out@[k],
                ),
        decreases n - i,
    {
        out.push(func(img[3 * i], img[3 * i + 1], img[3 * i + 2]));
        i += 1;
    }
    Ok(out)
}

/// The three samples of the `i`-th output pixel are one outcome of `func`
/// on the three samples of the `i`-th input pixel.
pub open spec fn maps_3_to_3<T, F: Fn(T, T, T) -> [T; 3]>(
    func: F,
    img: Seq<T>,
    out: Seq<T>,
    i: int,
) -> bool {
    exists|px: [T; 3]|
        #[trigger] call_ensures(func, (img[3 * i], img[3 * i + 1], img[3 * i + 2]), px) && out[3
            * i] == px@[0] && out[3 * i + 1] == px@[1] && out[3 * i + 2] == px@[2]
}

/// The four samples of the `i`-th output pixel are one outcome of `func` on
/// the three samples of the `i`-th input pixel.
pub open spec fn maps_3_to_4<T, F: Fn(T, T, T) -> [T; 4]>(
    func: F,
    img: Seq<T>,
    out: Seq<T>,
    i: int,
) -> bool {
    exists|px: [T; 4]|
        #[trigger] call_ensures(func, (img[3 * i], img[3 * i + 1], img[3 * i + 2]), px) && out[4
            * i] == px@[0] && out[4 * i + 1] == px@[1] && out[4 * i + 2] == px@[2] && out[4 * i
            + 3] == px@[3]
}

/// The three samples of the `i`-th output pixel are one outcome of `func`
/// on the four samples of the `i`-th input pixel.
pub open spec fn maps_4_to_3<T, F: Fn(T, T, T, T) -> [T; 3]>(
    func: F,
    img: Seq<T>,
    out: Seq<T>,
    i: int,
) -> bool {
    exists|px: [T; 3]|
        #[trigger] call_ensures(
            func,
            (img[4 * i], img[4 * i + 1], img[4 * i + 2], img[4 * i + 3]),
            px,
        ) && out[3 * i] == px@[0] && out[3 * i + 1] == px@[1] && out[3 * i + 2] == px@[2]
}

/// The three samples of the `i`-th output pixel are one outcome of `func`
/// on the `i`-th input sample.
pub open spec fn maps_1_to_3<T, F: Fn(T) -> [T; 3]>(func: F, img: Seq<T>, out: Seq<T>, i: int)
    -> bool {
    exists|px: [T; 3]|
        #[trigger] call_ensures(func, (img[i],), px) && out[3 * i] == px@[0] && out[3 * i + 1]
            == px@[1] && out[3 * i + 2] == px@[2]
}

/// Carries `func` over every RGB triple and collects three samples per
/// pixel. Fails when the samples are not whole triples.
pub fn rgb2_3ch<T: Copy, F: Fn(T, T, T) -> [T; 3]>(img: &[T], func: F) -> (r: Result<
    Vec<T>,
    PixelError,
>)
    requires
        forall|a: T, b: T, c: T| call_requires(func, (a, b, c)),
    ensures
        r is Ok <==> img@.len() % 3 == 0,
        r is Err ==> r->Err_0 == PixelError::ShapeMismatch,
        r is Ok ==> r->Ok_0@.len() == img@.len() && forall|i: int|
            0 <= i < img@.len() / 3 ==> #[trigger] maps_3_to_3(func, img@, r->Ok_0@, i),
{
    if img.len() % 3 != 0 {
        return Err(PixelError::ShapeMismatch);
    }
    let n: usize = img.len() / 3;
    let mut out: Vec<T> = Vec::new();
    let mut i: usize = 0;
    while i < n
        invariant
            forall|a: T, b: T, c: T| call_requires(func, (a, b, c)),
            3 * n == img@.len() <= usize::MAX,
            i <= n,
            out@.len() == 3 * i,
            forall|k: int| 0 <= k < i ==> #[trigger] maps_3_to_3(func, img@, out@, k),
        decreases n - i,
    {
        let px = func(img[3 * i], img[3 * i + 1], img[3 * i + 2]);
        let ghost before = out@;
        out.push(px[0]);
        out.push(px[1]);
        out.push(px[2]);
        proof {
            assert forall|k: int| 0 <= k < i implies #[trigger] maps_3_to_3(
                func,
                img@,
                out@,
                k,
            ) by {
                assert(maps_3_to_3(func, img@, before, k));
            }
        }
        i += 1;
    }
    Ok(out)
}

/// Carries `func` over every RGB triple and collects four samples per pixel.
/// Fails when the samples are not whole triples.
pub fn rgb2_4ch<T: Copy, F: Fn(T, T, T) -> [T; 4]>(img: &[T], func: F) -> (r: Result<
    Vec<T>,
    PixelError,
>)
    requires
        forall|a: T, b: T, c: T| call_requires(func, (a, b, c)),
    ensures
        r is Ok <==> img@.len() % 3 == 0,
        r is Err ==> r->Err_0 == PixelError::ShapeMismatch,
        r is Ok ==> r->Ok_0@.len() == (img@.len() / 3) * 4 && forall|i: int|
            0 <= i < img@.len() / 3 ==> #[trigger] maps_3_to_4(func, img@, r->Ok_0@, i),
{
    if img.len() % 3 != 0 {
        return Err(PixelError::ShapeMismatch);
    }
    let n: usize = img.len() / 3;
    let mut out: Vec<T> = Vec::new();
    let mut i: usize = 0;
    while i < n
        invariant
            forall|a: T, b: T, c: T| call_requires(func, (a, b, c)),
            3 * n == img@.len() <= usize::MAX,
            i <= n,
            out@.len() == 4 * i,
            forall|k: int| 0 <= k < i ==> #[trigger] maps_3_to_4(func, img@, out@, k),
        decreases n - i,
    {
        let px = func(img[3 * i], img[3 * i + 1], img[3 * i + 2]);
        let ghost before = out@;
        out.push(px[0]);
        out.push(px[1]);
        out.push(px[2]);
        out.push(px[3]);
        proof {
            assert forall|k: int| 0 <= k < i implies #[trigger] maps_3_to_4(
                func,
                img@,
                out@,
                k,
            ) by {
                assert(maps_3_to_4(func, img@, before, k));
            }
        }
        i += 1;
    }
    Ok(out)
}

/// Carries `func` over every group of four samples and collects three
/// samples per pixel. Fails when the samples are not whole groups.
pub fn cmyk2_3ch<T: Copy, F: Fn(T, T, T, T) -> [T; 3]>(img: &[T], func: F) -> (r: Result<
    Vec<T>,
    PixelError,
>)
    requires
        forall|a: T, b: T, c: T, d: T| call_requires(func, (a, b, c, d)),
    ensures
        r is Ok <==> img@.len() % 4 == 0,
        r is Err ==> r->Err_0 == PixelError::ShapeMismatch,
        r is Ok ==> r->Ok_0@.len() == (img@.len() / 4) * 3 && forall|i: int|
            0 <= i < img@.len() / 4 ==> #[trigger] maps_4_to_3(func, img@, r->Ok_0@, i),
{
    if img.len() % 4 != 0 {
        return Err(PixelError::ShapeMismatch);
    }
    let n: usize = img.len() / 4;
    let mut out: Vec<T> = Vec::new();
    let mut i: usize = 0;
    while i < n
        invariant
            forall|a: T, b: T, c: T, d: T| call_requires(func, (a, b, c, d)),
            4 * n == img@.len() <= usize::MAX,
            i <= n,
            out@.len() == 3 * i,
            forall|k: int| 0 <= k < i ==> #[trigger] maps_4_to_3(func, img@, out@, k),
        decreases n - i,
    {
        let px = func(img[4 * i], img[4 * i + 1], img[4 * i + 2], img[4 * i + 3]);
        let ghost before = out@;
        out.push(px[0]);
        out.push(px[1]);
        out.push(px[2]);
        proof {
            assert forall|k: int| 0 <= k < i implies #[trigger] maps_4_to_3(
                func,
                img@,
                out@,
                k,
            ) by {
                assert(maps_4_to_3(func, img@, before, k));
            }
        }
        i += 1;
    }
    Ok(out)
}

/// Carries `func` over every sample and collects three samples per pixel.
pub fn gray2_3ch<T: Copy, F: Fn(T) -> [T; 3]>(img: &[T], func: F) -> (out: Vec<T>)
    requires
        forall|a: T| call_requires(func, (a,)),
    ensures
        out@.len() == img@.len() * 3,
        forall|i: int| 0 <= i < img@.len() ==> #[trigger] maps_1_to_3(func, img@, out@, i),
{
    let n: usize = img.len();
    let mut out: Vec<T> = Vec::new();
    let mut i: usize = 0;
    while i < n
        invariant
            forall|a: T| call_requires(func, (a,)),
            n == img@.len(),
            i <= n,
            out@.len() == 3 * i,
            forall|k: int| 0 <= k < i ==> #[trigger] maps_1_to_3(func, img@, out@, k),
        decreases n - i,
    {
        let px = func(img[i]);
        let ghost before = out@;
        out.push(px[0]);
        out.push(px[1]);
        out.push(px[2]);
        proof {
            assert forall|k: int| 0 <= k < i implies #[trigger] maps_1_to_3(
                func,
                img@,
                out@,
                k,
            ) by {
                assert(maps_1_to_3(func, img@, before, k));
            }
        }
        i += 1;
    }
    out
}

} // verus!
