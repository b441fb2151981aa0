//! The resize engine: choosing the pixel format and the resampling
//! algorithm, and shaping the result. The resampling itself is done by the
//! resize library on normalised samples held as binary32 bit patterns.

use vstd::prelude::*;
use fast_image_resize::images::{Image, ImageRef};
use fast_image_resize::{PixelType, ResizeOptions, Resizer};
use crate::buffer::PixelBuffer;
use crate::enums::ResizeFilters;
use crate::errors::PixelError;

verus! {

/// A resampling kernel with parameters.
#[derive(Clone, Copy, Debug, PartialEq, Eq, Structural)]
pub enum Kernel {
    Box,
    Bilinear,
    Gaussian,
    CatmullRom,
    Lanczos3,
    Hamming,
    Mitchell,
}

/// A way to resample.
#[derive(Clone, Copy, Debug, PartialEq, Eq, Structural)]
pub enum ResizeMode {
    /// Nearest neighbour; takes no kernel.
    Nearest,
    /// Convolution with a kernel whose size adapts to the scale.
    Convolution(Kernel),
    /// Convolution with a kernel of fixed size.
    Interpolation(Kernel),
    /// Nearest neighbour down to a multiple of the target, then convolution.
    SuperSampling(Kernel, u8),
}

/// Floats per pixel of the resize library's pixel formats.
#[derive(Clone, Copy, Debug, PartialEq, Eq, Structural)]
pub enum PixelKind {
    One,
    Two,
    Three,
    Four,
}

/// The kernel behind a filter; nearest neighbour has none.
pub open spec fn filter_kernel(filter: ResizeFilters) -> Option<Kernel> {
    match filter {
        ResizeFilters::Nearest => None,
        ResizeFilters::Box => Some(Kernel::Box),
        ResizeFilters::Bilinear => Some(Kernel::Bilinear),
        ResizeFilters::Gaussian => Some(Kernel::Gaussian),
        ResizeFilters::CatmullRom => Some(Kernel::CatmullRom),
        ResizeFilters::Lanczos3 => Some(Kernel::Lanczos3),
        ResizeFilters::Hamming => Some(Kernel::Hamming),
        ResizeFilters::Mitchell => Some(Kernel::Mitchell),
    }
}

/// The kernel behind a filter; fails for nearest neighbour, which has none.
pub fn get_filter_type(filter: &ResizeFilters) -> (r: Result<Kernel, PixelError>)
    ensures
        match filter_kernel(*filter) {
            Some(k) => r == Ok::<Kernel, PixelError>(k),
            None => r == Err::<Kernel, PixelError>(PixelError::InvalidParameter),
        },
{
    match filter {
        ResizeFilters::Box => Ok(Kernel::Box),
        ResizeFilters::Lanczos3 => Ok(Kernel::Lanczos3),
        ResizeFilters::Bilinear => Ok(Kernel::Bilinear),
        ResizeFilters::Gaussian => Ok(Kernel::Gaussian),
        ResizeFilters::CatmullRom => Ok(Kernel::CatmullRom),
        ResizeFilters::Hamming => Ok(Kernel::Hamming),
        ResizeFilters::Mitchell => Ok(Kernel::Mitchell),
        ResizeFilters::Nearest => Err(PixelError::InvalidParameter),
    }
}

/// The way to resample for a filter and its options. Nearest neighbour takes
/// neither convolution nor a sampling factor. With a kernel, convolution
/// goes before super-sampling, whose factor must not be zero, and
/// interpolation is what is left.
pub open spec fn resize_mode(filter: ResizeFilters, conv: bool, sampling: Option<u8>) -> Result<
    ResizeMode,
    PixelError,
> {
    match filter_kernel(filter) {
        None => if conv || sampling is Some {
            Err(PixelError::InvalidParameter)
        } else {
            Ok(ResizeMode::Nearest)
        },
        Some(k) => if conv {
            Ok(ResizeMode::Convolution(k))
        } else {
            match sampling {
                Some(factor) => if factor == 0 {
                    Err(PixelError::InvalidParameter)
                } else {
                    Ok(ResizeMode::SuperSampling(k, factor))
                },
                None => Ok(ResizeMode::Interpolation(k)),
            }
        },
    }
}

/// Chooses the way to resample.
pub fn get_res_opt(filter: &ResizeFilters, conv: bool, sampling: Option<u8>) -> (r: Result<
    ResizeMode,
    PixelError,
>)
    ensures
        r == resize_mode(*filter, conv, sampling),
{
    match filter {
        ResizeFilters::Nearest => {
            if conv || sampling.is_some() {
                Err(PixelError::InvalidParameter)
            } else {
                Ok(ResizeMode::Nearest)
            }
        },
        _ => {
            let alg = get_filter_type(filter)?;
            if conv {
                Ok(ResizeMode::Convolution(alg))
            } else {
                match sampling {
                    Some(factor) => if factor == 0 {
                        Err(PixelError::InvalidParameter)
                    } else {
                        Ok(ResizeMode::SuperSampling(alg, factor))
                    },
                    None => Ok(ResizeMode::Interpolation(alg)),
                }
            }
        },
    }
}

/// The pixel format for a shape: one float for rank two, and for rank three
/// as many as the channel axis is long, up to four.
pub open spec fn shape_pixel_kind(img_shape: Seq<usize>) -> Option<PixelKind> {
    if img_shape.len() == 2 {
        Some(PixelKind::One)
    } else if img_shape.len() == 3 {
        if img_shape[2] == 1 {
            Some(PixelKind::One)
        } else if img_shape[2] == 2 {
            Some(PixelKind::Two)
        } else if img_shape[2] == 3 {
            Some(PixelKind::Three)
        } else if img_shape[2] == 4 {
            Some(PixelKind::Four)
        } else {
            None
        }
    } else {
        None
    }
}

/// Chooses the pixel format for a shape; fails for a shape that has none.
pub fn img_shape_to_pixel_type(img_shape: &[usize]) -> (r: Result<PixelKind, PixelError>)
    ensures
        match shape_pixel_kind(img_shape@) {
            Some(k) => r == Ok::<PixelKind, PixelError>(k),
            None => r == Err::<PixelKind, PixelError>(PixelError::ShapeMismatch),
        },
{
    if img_shape.len() == 2 {
        Ok(PixelKind::One)
    } else if img_shape.len() == 3 {
        let c: usize = img_shape[2];
        if c == 1 {
            Ok(PixelKind::One)
        } else if c == 2 {
            Ok(PixelKind::Two)
        } else if c == 3 {
            Ok(PixelKind::Three)
        } else if c == 4 {
            Ok(PixelKind::Four)
        } else {
            Err(PixelError::ShapeMismatch)
        }
    } else {
        Err(PixelError::ShapeMismatch)
    }
}

/// A filter of the resize library.
#[verifier::external_type_specification]
#[verifier::external_body]
pub struct ExFilterType(fast_image_resize::FilterType);

/// An algorithm of the resize library.
#[verifier::external_type_specification]
#[verifier::external_body]
pub struct ExResizeAlg(fast_image_resize::ResizeAlg);

/// A pixel format of the resize library.
#[verifier::external_type_specification]
#[verifier::external_body]
pub struct ExPixelType(fast_image_resize::PixelType);

/// Names the `fast_image_resize::FilterType` of a kernel.
#[verifier::external_body]
fn fir_filter(kernel: Kernel) -> (filter: fast_image_resize::FilterType) {
    match kernel {
        Kernel::Box => fast_image_resize::FilterType::Box,
        Kernel::Bilinear => fast_image_resize::FilterType::Bilinear,
        Kernel::Gaussian => fast_image_resize::FilterType::Gaussian,
        Kernel::CatmullRom => fast_image_resize::FilterType::CatmullRom,
        Kernel::Lanczos3 => fast_image_resize::FilterType::Lanczos3,
        Kernel::Hamming => fast_image_resize::FilterType::Hamming,
        Kernel::Mitchell => fast_image_resize::FilterType::Mitchell,
    }
}

/// `fast_image_resize::ResizeAlg::Nearest`.
#[verifier::external_body]
fn fir_nearest() -> (alg: fast_image_resize::ResizeAlg) {
    fast_image_resize::ResizeAlg::Nearest
}

/// `fast_image_resize::ResizeAlg::Convolution` of a filter.
#[verifier::external_body]
fn fir_convolution(filter: fast_image_resize::FilterType) -> (alg: fast_image_resize::ResizeAlg) {
    fast_image_resize::ResizeAlg::Convolution(filter)
}

/// `fast_image_resize::ResizeAlg::Interpolation` of a filter.
#[verifier::external_body]
fn fir_interpolation(filter: fast_image_resize::FilterType) -> (alg: fast_image_resize::ResizeAlg) {
    fast_image_resize::ResizeAlg::Interpolation(filter)
}

/// `fast_image_resize::ResizeAlg::SuperSampling` of a filter and a factor.
#[verifier::external_body]
fn fir_super_sampling(filter: fast_image_resize::FilterType, factor: u8) -> (alg:
    fast_image_resize::ResizeAlg) {
    fast_image_resize::ResizeAlg::SuperSampling(filter, factor)
}

/// Samples per pixel of a pixel kind.
pub open spec fn kind_channels(kind: PixelKind) -> nat {
    match kind {
        PixelKind::One => 1,
        PixelKind::Two => 2,
        PixelKind::Three => 3,
        PixelKind::Four => 4,
    }
}

/// Resamples with `fast_image_resize::Resizer::resize`, from an `ImageRef`
/// over the bytes of `samples` into an `Image` over the bytes of `out`, both
/// views made by `bytemuck`, in the float `PixelType` of as many samples as
/// `kind` has. Both images are as large as their sizes say, and their bytes
/// can be counted. Reports whether the library accepted both images and the
/// job, which it does: it turns down only a buffer that is too short or not
/// aligned for its pixels, two images of different pixel types, and a crop
/// box, of which none is asked for. The number of samples in `out` stays as
/// it was.
#[verifier::external_body]
fn fir_resize(
    samples: &[u32],
    src_size: (u32, u32),
    out: &mut Vec<u32>,
    dst_size: (u32, u32),
    kind: PixelKind,
    alg: fast_image_resize::ResizeAlg,
) -> (done: bool)
    requires
        src_size.0 * src_size.1 * kind_channels(kind) == samples@.len(),
        dst_size.0 * dst_size.1 * kind_channels(kind) == old(out)@.len(),
        samples@.len() * 4 <= usize::MAX,
        old(out)@.len() * 4 <= usize::MAX,
    ensures
        done,
        final(out)@.len() == old(out)@.len(),
{
    let pixel = match kind {
        PixelKind::One => PixelType::F32,
        PixelKind::Two => PixelType::F32x2,
        PixelKind::Three => PixelType::F32x3,
        PixelKind::Four => PixelType::F32x4,
    };
    let target: &mut [u8] = bytemuck::cast_slice_mut(out.as_mut_slice());
    let src = ImageRef::new(src_size.0, src_size.1, bytemuck::cast_slice(samples), pixel);
    let dst = Image::from_slice_u8(dst_size.0, dst_size.1, target, pixel);
    match (src, dst) {
        (Ok(src), Ok(mut dst)) => Resizer::new()
            .resize(&src, &mut dst, &ResizeOptions::new().resize_alg(alg))
            .is_ok(),
        _ => false,
    }
}

/// The pixel format for a channel axis: one float without an axis, and as
/// many as the axis is long, up to four.
pub open spec fn channel_kind(channels: Option<nat>) -> Option<PixelKind> {
    match channels {
        None => Some(PixelKind::One),
        Some(c) => if c == 1 {
            Some(PixelKind::One)
        } else if c == 2 {
            Some(PixelKind::Two)
        } else if c == 3 {
            Some(PixelKind::Three)
        } else if c == 4 {
            Some(PixelKind::Four)
        } else {
            None
        },
    }
}

/// What stands in the way of resizing a buffer of the given shape to
/// `size`, if anything: options that do not go together, a shape without
/// pixel format, a source with a side that does not fit in 32 bits or with
/// more bytes than can be addressed, or a target too large to address.
pub open spec fn resize_refusal(
    height: nat,
    width: nat,
    channels: Option<nat>,
    size: (u32, u32),
    filter: Option<ResizeFilters>,
    conv: Option<bool>,
    sampling: Option<u8>,
) -> Option<PixelError> {
    let filter = match filter {
        Some(f) => f,
        None => ResizeFilters::Nearest,
    };
    let conv = match conv {
        Some(c) => c,
        None => false,
    };
    match resize_mode(filter, conv, sampling) {
        Err(e) => Some(e),
        Ok(_) => match channel_kind(channels) {
            None => Some(PixelError::ShapeMismatch),
            Some(kind) => if height > u32::MAX || width > u32::MAX {
                Some(PixelError::ShapeMismatch)
            } else if height * width * kind_channels(kind) * 4 > usize::MAX {
                Some(PixelError::ShapeMismatch)
            } else if size.0 * size.1 * kind_channels(kind) * 4 > usize::MAX {
                Some(PixelError::InvalidParameter)
            } else {
                None
            },
        },
    }
}

/// Resizes a buffer of normalised samples, held as binary32 bit patterns, to
/// `size`, given as width and height. The filter defaults to nearest
/// neighbour and convolution to off. The result has the rank and the
/// channels of the input; its samples are those that the resize library
/// computes. Unless something stands in the way, the resize succeeds.
pub fn resize_img(
    input: &PixelBuffer<u32>,
    size: (u32, u32),
    filter: Option<ResizeFilters>,
    conv: Option<bool>,
    sampling: Option<u8>,
) -> (r: Result<PixelBuffer<u32>, PixelError>)
    requires
        input.wf(),
    ensures
        match resize_refusal(
            input@.height,
            input@.width,
            input@.channels,
            size,
            filter,
            conv,
            sampling,
        ) {
            Some(e) => r == Err::<PixelBuffer<u32>, PixelError>(e),
            None => r is Ok && r->Ok_0.wf() && r->Ok_0@.height == size.1 && r->Ok_0@.width
                == size.0 && r->Ok_0@.channels == input@.channels,
        },
{
    let filter: ResizeFilters = match filter {
        Some(f) => f,
        None => ResizeFilters::Nearest,
    };
    let conv: bool = match conv {
        Some(c) => c,
        None => false,
    };
    let mode: ResizeMode = get_res_opt(&filter, conv, sampling)?;
    let shape: Vec<usize> = input.shape();
    proof {
        let dims = shape@.map_values(|d: usize| d as nat);
        assert(dims.len() == shape@.len());
        if shape@.len() == 3 {
            assert(dims[2] == shape@[2] as nat);
        }
        assert(shape_pixel_kind(shape@) == channel_kind(input@.channels));
    }
    let kind: PixelKind = img_shape_to_pixel_type(shape.as_slice())?;
    let channels: usize = match kind {
        PixelKind::One => 1,
        PixelKind::Two => 2,
        PixelKind::Three => 3,
        PixelKind::Four => 4,
    };
    let height: usize = input.height();
    let width: usize = input.width();
    if height > u32::MAX as usize || width > u32::MAX as usize {
        return Err(PixelError::ShapeMismatch);
    }
    let held: usize = input.len();
    assert(held == height * width * kind_channels(kind)) by {
        if input@.channels is None {
            assert(height * width * 1 == height * width) by (nonlinear_arith);
        }
    }
    if held > usize::MAX / 4 {
        return Err(PixelError::ShapeMismatch);
    }
    assert(size.0 * size.1 <= 0xFFFF_FFFF * 0xFFFF_FFFF) by (nonlinear_arith)
        requires
            size.0 <= 0xFFFF_FFFF,
            size.1 <= 0xFFFF_FFFF,
    ;
    let pixels: u64 = (size.0 as u64) * (size.1 as u64);
    let count: u128 = (pixels as u128) * (channels as u128);
    if count > (usize::MAX / 4) as u128 {
        return Err(PixelError::InvalidParameter);
    }
    let count: usize = count as usize;
    let mut out: Vec<u32> = vec![0u32; count];
    let alg = match mode {
        ResizeMode::Nearest => fir_nearest(),
        ResizeMode::Convolution(k) => fir_convolution(fir_filter(k)),
        ResizeMode::Interpolation(k) => fir_interpolation(fir_filter(k)),
        ResizeMode::SuperSampling(k, factor) => fir_super_sampling(fir_filter(k), factor),
    };
    assert(width * height * kind_channels(kind) == height * width * kind_channels(kind))
        by (nonlinear_arith);
    let done: bool = fir_resize(
        input.samples().as_slice(),
        (width as u32, height as u32),
        &mut out,
        size,
        kind,
        alg,
    );
    if !done {
        return Err(PixelError::UnsupportedConversion);
    }
    let shaped = match input.channels() {
        Some(c) => PixelBuffer::from_shape_vec3(size.1 as usize, size.0 as usize, c, out),
        None => {
            assert(size.1 * size.0 * 1 == size.1 * size.0) by (nonlinear_arith);
            PixelBuffer::from_shape_vec2(size.1 as usize, size.0 as usize, out)
        },
    };
    assert(size.1 * size.0 * channels == size.0 * size.1 * channels) by (nonlinear_arith);
    shaped
}

} // verus!
