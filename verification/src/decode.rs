//! Decoding image files: picking the decoder from the leading bytes, and
//! projecting what the generic raster decoder yields onto the requested
//! channel layout and sample format.

use vstd::prelude::*;
use crate::binary32::{byte_to_unit, unit_to_byte, unit_to_word, word_to_unit};
use crate::buffer::{ArrayDType, ArrayView, PixelBuffer, Raster};
use crate::enums::{ImgColor, ImgFormat};
use crate::errors::PixelError;
use crate::format_convert::{
    f32_to_u16,
    f32_to_u8,
    scale16_to_8,
    scale8_to_16,
    u16_to_f32,
    u16_to_u8,
    u8_to_f32,
    u8_to_u16,
};
use crate::psd::{decoded_as, psd_decode, psd_image, shaped};

verus! {

/// The family of a file, told from its leading bytes.
#[derive(Clone, Copy, Debug, PartialEq, Eq, Structural)]
pub enum Container {
    /// `8BPS`.
    Psd,
    /// A JPEG whose first segment carries a `JF` (JFIF) or `Ex` (Exif) tag.
    JpegTagged,
    /// Any other JPEG that starts with an APP0 or APP1 segment.
    JpegBare,
    /// Everything else: left to the generic raster decoder to probe.
    Raster,
}

/// The file starts with the PSD signature `8BPS`.
pub open spec fn is_psd(bytes: Seq<u8>) -> bool {
    bytes.len() >= 4 && bytes[0] == 56 && bytes[1] == 66 && bytes[2] == 80 && bytes[3] == 83
}

/// The file starts with `FF D8 FF E0` or `FF D8 FF E1`.
pub open spec fn is_jpeg(bytes: Seq<u8>) -> bool {
    bytes.len() >= 4 && bytes[0] == 255 && bytes[1] == 216 && bytes[2] == 255 && (bytes[3] == 224
        || bytes[3] == 225)
}

/// Bytes 6 and 7 spell `JF` or `Ex`.
pub open spec fn has_jpeg_tag(bytes: Seq<u8>) -> bool {
    bytes.len() >= 8 && ((bytes[6] == 74 && bytes[7] == 70) || (bytes[6] == 69 && bytes[7] == 120))
}

/// The family of a file, or the failure to tell it: fewer than four bytes,
/// or a JPEG cut off before its tag.
pub open spec fn container_of(bytes: Seq<u8>) -> Result<Container, PixelError> {
    if bytes.len() < 4 {
        Err(PixelError::FormatDetection)
    } else if is_jpeg(bytes) {
        if bytes.len() < 8 {
            Err(PixelError::FormatDetection)
        } else if has_jpeg_tag(bytes) {
            Ok(Container::JpegTagged)
        } else {
            Ok(Container::JpegBare)
        }
    } else if is_psd(bytes) {
        Ok(Container::Psd)
    } else {
        Ok(Container::Raster)
    }
}

/// Tells the family of a file from its leading bytes.
pub fn sniff_format(bytes: &[u8]) -> (r: Result<Container, PixelError>)
    ensures
        r == container_of(bytes@),
{
    if bytes.len() < 4 {
        return Err(PixelError::FormatDetection);
    }
    if bytes[0] == 255 && bytes[1] == 216 && bytes[2] == 255 && (bytes[3] == 224 || bytes[3]
        == 225) {
        if bytes.len() < 8 {
            Err(PixelError::FormatDetection)
        } else if (bytes[6] == 74 && bytes[7] == 70) || (bytes[6] == 69 && bytes[7] == 120) {
            Ok(Container::JpegTagged)
        } else {
            Ok(Container::JpegBare)
        }
    } else if bytes[0] == 56 && bytes[1] == 66 && bytes[2] == 80 && bytes[3] == 83 {
        Ok(Container::Psd)
    } else {
        Ok(Container::Raster)
    }
}

/// The pixel layouts that the generic raster decoder yields.
#[derive(Clone, Copy, Debug, PartialEq, Eq, Structural)]
pub enum NativeLayout {
    Luma8,
    LumaA8,
    Rgb8,
    Rgba8,
    Luma16,
    LumaA16,
    Rgb16,
    Rgba16,
    Rgb32F,
    Rgba32F,
}

/// Width of a sample.
#[derive(Clone, Copy, Debug, PartialEq, Eq, Structural)]
pub enum Depth {
    Eight,
    Sixteen,
    /// Thirty-two-bit float, normalised.
    Float,
}

/// How a decoded raster is read and what is made of it.
#[derive(Clone, Copy, Debug, PartialEq, Eq, Structural)]
pub struct ReadPlan {
    /// Channel layout to read; never `DYNAMIC`.
    pub layout: ImgColor,
    /// Sample width to read the layout in.
    pub read: Depth,
    /// Sample width to hand out.
    pub out: Depth,
}

/// The channel layout that a native layout naturally decodes to.
pub open spec fn natural_color(native: NativeLayout) -> ImgColor {
    match native {
        NativeLayout::Luma8 | NativeLayout::Luma16 => ImgColor::GRAY,
        NativeLayout::LumaA8 | NativeLayout::LumaA16 => ImgColor::AGRAY,
        NativeLayout::Rgb8 | NativeLayout::Rgb16 | NativeLayout::Rgb32F => ImgColor::RGB,
        NativeLayout::Rgba8 | NativeLayout::Rgba16 | NativeLayout::Rgba32F => ImgColor::RGBA,
    }
}

/// The sample width of a native layout.
pub open spec fn native_depth(native: NativeLayout) -> Depth {
    match native {
        NativeLayout::Luma8 | NativeLayout::LumaA8 | NativeLayout::Rgb8 | NativeLayout::Rgba8 =>
            Depth::Eight,
        NativeLayout::Luma16
        | NativeLayout::LumaA16
        | NativeLayout::Rgb16
        | NativeLayout::Rgba16 => Depth::Sixteen,
        NativeLayout::Rgb32F | NativeLayout::Rgba32F => Depth::Float,
    }
}

/// The plan for a native layout and a request. Colour layouts are read at the
/// native width; gray layouts are read in eight bits unless the source has
/// sixteen. The sample format handed out is the requested one, or the one
/// read when the request leaves it open.
pub open spec fn read_plan(native: NativeLayout, color: ImgColor, format: ImgFormat) -> ReadPlan {
    let layout = if color == ImgColor::DYNAMIC {
        natural_color(native)
    } else {
        color
    };
    let read = if (layout == ImgColor::GRAY || layout == ImgColor::AGRAY) && native_depth(native)
        == Depth::Float {
        Depth::Eight
    } else {
        native_depth(native)
    };
    let out = match format {
        ImgFormat::DYNAMIC => read,
        ImgFormat::U8 => Depth::Eight,
        ImgFormat::U16 => Depth::Sixteen,
        ImgFormat::F32 => Depth::Float,
    };
    ReadPlan { layout, read, out }
}

/// Plans the read of a decoded raster.
pub fn plan_read(native: NativeLayout, color: ImgColor, format: ImgFormat) -> (plan: ReadPlan)
    ensures
        plan == read_plan(native, color, format),
        plan.layout != ImgColor::DYNAMIC,
{
    let natural: ImgColor = match native {
        NativeLayout::Luma8 | NativeLayout::Luma16 => ImgColor::GRAY,
        NativeLayout::LumaA8 | NativeLayout::LumaA16 => ImgColor::AGRAY,
        NativeLayout::Rgb8 | NativeLayout::Rgb16 | NativeLayout::Rgb32F => ImgColor::RGB,
        NativeLayout::Rgba8 | NativeLayout::Rgba16 | NativeLayout::Rgba32F => ImgColor::RGBA,
    };
    let depth: Depth = match native {
        NativeLayout::Luma8 | NativeLayout::LumaA8 | NativeLayout::Rgb8 | NativeLayout::Rgba8 =>
            Depth::Eight,
        NativeLayout::Luma16
        | NativeLayout::LumaA16
        | NativeLayout::Rgb16
        | NativeLayout::Rgba16 => Depth::Sixteen,
        NativeLayout::Rgb32F | NativeLayout::Rgba32F => Depth::Float,
    };
    let layout: ImgColor = match color {
        ImgColor::DYNAMIC => natural,
        _ => color,
    };
    let gray: bool = match layout {
        ImgColor::GRAY | ImgColor::AGRAY => true,
        _ => false,
    };
    let read: Depth = match depth {
        Depth::Float => if gray {
            Depth::Eight
        } else {
            Depth::Float
        },
        _ => depth,
    };
    let out: Depth = match format {
        ImgFormat::DYNAMIC => read,
        ImgFormat::U8 => Depth::Eight,
        ImgFormat::U16 => Depth::Sixteen,
        ImgFormat::F32 => Depth::Float,
    };
    ReadPlan { layout, read, out }
}

/// The channel axis of a layout: `None` for gray, which is rank two.
pub open spec fn layout_axis(layout: ImgColor) -> Option<nat> {
    match layout {
        ImgColor::GRAY => None,
        ImgColor::AGRAY => Some(2),
        ImgColor::RGB => Some(3),
        ImgColor::RGBA => Some(4),
        ImgColor::DYNAMIC => None,
    }
}

/// The image made of samples read in eight bits.
pub open spec fn raster_of_u8(raw: Seq<u8>, height: nat, width: nat, layout: ImgColor, out: Depth)
    -> Result<ArrayView, PixelError> {
    if layout == ImgColor::DYNAMIC {
        Err(PixelError::UnsupportedConversion)
    } else if out == Depth::Float {
        match shaped(
            raw.map_values(|x: u8| byte_to_unit(x)),
            height,
            width,
            layout_axis(layout),
        ) {
            Some(img) => Ok(ArrayView::F32(img)),
            None => Err(PixelError::ShapeMismatch),
        }
    } else if out == Depth::Sixteen {
        match shaped(
            raw.map_values(|x: u8| scale8_to_16(x)),
            height,
            width,
            layout_axis(layout),
        ) {
            Some(img) => Ok(ArrayView::U16(img)),
            None => Err(PixelError::ShapeMismatch),
        }
    } else {
        match shaped(raw, height, width, layout_axis(layout)) {
            Some(img) => Ok(ArrayView::U8(img)),
            None => Err(PixelError::ShapeMismatch),
        }
    }
}

/// The image made of samples read in sixteen bits.
pub open spec fn raster_of_u16(
    raw: Seq<u16>,
    height: nat,
    width: nat,
    layout: ImgColor,
    out: Depth,
) -> Result<ArrayView, PixelError> {
    if layout == ImgColor::DYNAMIC {
        Err(PixelError::UnsupportedConversion)
    } else if out == Depth::Float {
        match shaped(
            raw.map_values(|x: u16| word_to_unit(x)),
            height,
            width,
            layout_axis(layout),
        ) {
            Some(img) => Ok(ArrayView::F32(img)),
            None => Err(PixelError::ShapeMismatch),
        }
    } else if out == Depth::Eight {
        match shaped(
            raw.map_values(|x: u16| scale16_to_8(x)),
            height,
            width,
            layout_axis(layout),
        ) {
            Some(img) => Ok(ArrayView::U8(img)),
            None => Err(PixelError::ShapeMismatch),
        }
    } else {
        match shaped(raw, height, width, layout_axis(layout)) {
            Some(img) => Ok(ArrayView::U16(img)),
            None => Err(PixelError::ShapeMismatch),
        }
    }
}

/// The image made of normalised samples read as binary32 bit patterns.
pub open spec fn raster_of_f32(
    raw: Seq<u32>,
    height: nat,
    width: nat,
    layout: ImgColor,
    out: Depth,
) -> Result<ArrayView, PixelError> {
    if layout == ImgColor::DYNAMIC {
        Err(PixelError::UnsupportedConversion)
    } else if out == Depth::Eight {
        match shaped(
            raw.map_values(|x: u32| unit_to_byte(x)),
            height,
            width,
            layout_axis(layout),
        ) {
            Some(img) => Ok(ArrayView::U8(img)),
            None => Err(PixelError::ShapeMismatch),
        }
    } else if out == Depth::Sixteen {
        match shaped(
            raw.map_values(|x: u32| unit_to_word(x)),
            height,
            width,
            layout_axis(layout),
        ) {
            Some(img) => Ok(ArrayView::U16(img)),
            None => Err(PixelError::ShapeMismatch),
        }
    } else {
        match shaped(raw, height, width, layout_axis(layout)) {
            Some(img) => Ok(ArrayView::F32(img)),
            None => Err(PixelError::ShapeMismatch),
        }
    }
}

/// Gives samples the shape of `layout`.
fn shape_layout<T>(samples: Vec<T>, height: u32, width: u32, layout: ImgColor) -> (r: Result<
    PixelBuffer<T>,
    PixelError,
>)
    ensures
        match shaped(samples@, height as nat, width as nat, layout_axis(layout)) {
            Some(img) => r is Ok && r->Ok_0@ == img && r->Ok_0.wf(),
            None => r == Err::<PixelBuffer<T>, PixelError>(PixelError::ShapeMismatch),
        },
{
    let axis: Option<usize> = match layout {
        ImgColor::GRAY | ImgColor::DYNAMIC => None,
        ImgColor::AGRAY => Some(2),
        ImgColor::RGB => Some(3),
        ImgColor::RGBA => Some(4),
    };
    match axis {
        Some(c) => PixelBuffer::from_shape_vec3(height as usize, width as usize, c, samples),
        None => {
            assert(height * width * 1 == height * width) by (nonlinear_arith);
            PixelBuffer::from_shape_vec2(height as usize, width as usize, samples)
        },
    }
}

/// Builds the image from samples that were read in eight bits: rescales or
/// normalises them where another sample format is asked for, and gives them
/// their shape.
pub fn raster_from_u8(raw: Vec<u8>, height: u32, width: u32, layout: ImgColor, out: Depth) -> (r:
    Result<ArrayDType, PixelError>)
    ensures
        decoded_as(r, raster_of_u8(raw@, height as nat, width as nat, layout, out)),
{
    match layout {
        ImgColor::DYNAMIC => {
            return Err(PixelError::UnsupportedConversion);
        },
        _ => {},
    }
    match out {
        Depth::Float => {
            let floats = u8_to_f32(raw.as_slice());
            match shape_layout(floats, height, width, layout) {
                Ok(b) => Ok(ArrayDType::F32(b)),
                Err(e) => Err(e),
            }
        },
        Depth::Sixteen => {
            let wide = u8_to_u16(raw.as_slice());
            match shape_layout(wide, height, width, layout) {
                Ok(b) => Ok(ArrayDType::U16(b)),
                Err(e) => Err(e),
            }
        },
        Depth::Eight => {
            match shape_layout(raw, height, width, layout) {
                Ok(b) => Ok(ArrayDType::U8(b)),
                Err(e) => Err(e),
            }
        },
    }
}

/// Builds the image from samples that were read in sixteen bits: rescales
/// or normalises them where another sample format is asked for, and gives
/// them their shape.
pub fn raster_from_u16(raw: Vec<u16>, height: u32, width: u32, layout: ImgColor, out: Depth) -> (r:
    Result<ArrayDType, PixelError>)
    ensures
        decoded_as(r, raster_of_u16(raw@, height as nat, width as nat, layout, out)),
{
    match layout {
        ImgColor::DYNAMIC => {
            return Err(PixelError::UnsupportedConversion);
        },
        _ => {},
    }
    match out {
        Depth::Float => {
            let floats = u16_to_f32(raw.as_slice());
            match shape_layout(floats, height, width, layout) {
                Ok(b) => Ok(ArrayDType::F32(b)),
                Err(e) => Err(e),
            }
        },
        Depth::Eight => {
            let narrow = u16_to_u8(raw.as_slice());
            match shape_layout(narrow, height, width, layout) {
                Ok(b) => Ok(ArrayDType::U8(b)),
                Err(e) => Err(e),
            }
        },
        Depth::Sixteen => {
            match shape_layout(raw, height, width, layout) {
                Ok(b) => Ok(ArrayDType::U16(b)),
                Err(e) => Err(e),
            }
        },
    }
}

/// Builds the image from normalised samples that were read as binary32 bit
/// patterns: converts them where integer samples are asked for, and gives
/// them their shape.
pub fn raster_from_f32(raw: Vec<u32>, height: u32, width: u32, layout: ImgColor, out: Depth) -> (r:
    Result<ArrayDType, PixelError>)
    ensures
        decoded_as(r, raster_of_f32(raw@, height as nat, width as nat, layout, out)),
{
    match layout {
        ImgColor::DYNAMIC => {
            return Err(PixelError::UnsupportedConversion);
        },
        _ => {},
    }
    match out {
        Depth::Eight => {
            let narrow = f32_to_u8(raw.as_slice());
            match shape_layout(narrow, height, width, layout) {
                Ok(b) => Ok(ArrayDType::U8(b)),
                Err(e) => Err(e),
            }
        },
        Depth::Sixteen => {
            let wide = f32_to_u16(raw.as_slice());
            match shape_layout(wide, height, width, layout) {
                Ok(b) => Ok(ArrayDType::U16(b)),
                Err(e) => Err(e),
            }
        },
        Depth::Float => {
            match shape_layout(raw, height, width, layout) {
                Ok(b) => Ok(ArrayDType::F32(b)),
                Err(e) => Err(e),
            }
        },
    }
}

/// A decoded raster image of the generic decoder.
#[verifier::external_type_specification]
#[verifier::external_body]
pub struct ExDynamicImage(image::DynamicImage);

/// The error type of the generic decoder.
#[verifier::external_type_specification]
#[verifier::external_body]
pub struct ExImageError(image::ImageError);

/// Decodes a file with `image::ImageReader`: `new` over the bytes,
/// `with_guessed_format`, then `decode`. Nothing is claimed of the outcome.
#[verifier::external_body]
pub(crate) fn raster_open(bytes: &[u8]) -> (r: Result<image::DynamicImage, image::ImageError>) {
    image::ImageReader::new(std::io::Cursor::new(bytes))
        .with_guessed_format()
        .map_err(image::ImageError::IoError)?
        .decode()
}

/// Names the variant of an `image::DynamicImage`; `None` for a variant that
/// this library does not know.
#[verifier::external_body]
fn raster_layout(img: &image::DynamicImage) -> (layout: Option<NativeLayout>) {
    match img {
        image::DynamicImage::ImageLuma8(_) => Some(NativeLayout::Luma8),
        image::DynamicImage::ImageLumaA8(_) => Some(NativeLayout::LumaA8),
        image::DynamicImage::ImageRgb8(_) => Some(NativeLayout::Rgb8),
        image::DynamicImage::ImageRgba8(_) => Some(NativeLayout::Rgba8),
        image::DynamicImage::ImageLuma16(_) => Some(NativeLayout::Luma16),
        image::DynamicImage::ImageLumaA16(_) => Some(NativeLayout::LumaA16),
        image::DynamicImage::ImageRgb16(_) => Some(NativeLayout::Rgb16),
        image::DynamicImage::ImageRgba16(_) => Some(NativeLayout::Rgba16),
        image::DynamicImage::ImageRgb32F(_) => Some(NativeLayout::Rgb32F),
        image::DynamicImage::ImageRgba32F(_) => Some(NativeLayout::Rgba32F),
        _ => None,
    }
}

/// Height, width and raw samples of `image::DynamicImage::to_luma8`. The
/// buffer holds a sample for each of the 1 channels of every pixel; it
/// may hold more after them.
#[verifier::external_body]
pub(crate) fn raster_to_luma8(img: &image::DynamicImage) -> (out: (u32, u32, Vec<u8>))
    ensures
        out.2@.len() >= out.0 * out.1 * 1,
{
    let buffer = img.to_luma8();
    (buffer.height(), buffer.width(), buffer.into_raw())
}

/// Height, width and raw samples of `image::DynamicImage::to_luma_alpha8`. The
/// buffer holds a sample for each of the 2 channels of every pixel; it
/// may hold more after them.
#[verifier::external_body]
fn raster_to_luma_alpha8(img: &image::DynamicImage) -> (out: (u32, u32, Vec<u8>))
    ensures
        out.2@.len() >= out.0 * out.1 * 2,
{
    let buffer = img.to_luma_alpha8();
    (buffer.height(), buffer.width(), buffer.into_raw())
}

/// Height, width and raw samples of `image::DynamicImage::to_rgb8`. The
/// buffer holds a sample for each of the 3 channels of every pixel; it
/// may hold more after them.
#[verifier::external_body]
pub(crate) fn raster_to_rgb8(img: &image::DynamicImage) -> (out: (u32, u32, Vec<u8>))
    ensures
        out.2@.len() >= out.0 * out.1 * 3,
{
    let buffer = img.to_rgb8();
    (buffer.height(), buffer.width(), buffer.into_raw())
}

/// Height, width and raw samples of `image::DynamicImage::to_rgba8`. The
/// buffer holds a sample for each of the 4 channels of every pixel; it
/// may hold more after them.
#[verifier::external_body]
fn raster_to_rgba8(img: &image::DynamicImage) -> (out: (u32, u32, Vec<u8>))
    ensures
        out.2@.len() >= out.0 * out.1 * 4,
{
    let buffer = img.to_rgba8();
    (buffer.height(), buffer.width(), buffer.into_raw())
}

/// Height, width and raw samples of `image::DynamicImage::to_luma16`. The
/// buffer holds a sample for each of the 1 channels of every pixel; it
/// may hold more after them.
#[verifier::external_body]
fn raster_to_luma16(img: &image::DynamicImage) -> (out: (u32, u32, Vec<u16>))
    ensures
        out.2@.len() >= out.0 * out.1 * 1,
{
    let buffer = img.to_luma16();
    (buffer.height(), buffer.width(), buffer.into_raw())
}

/// Height, width and raw samples of `image::DynamicImage::to_luma_alpha16`. The
/// buffer holds a sample for each of the 2 channels of every pixel; it
/// may hold more after them.
#[verifier::external_body]
fn raster_to_luma_alpha16(img: &image::DynamicImage) -> (out: (u32, u32, Vec<u16>))
    ensures
        out.2@.len() >= out.0 * out.1 * 2,
{
    let buffer = img.to_luma_alpha16();
    (buffer.height(), buffer.width(), buffer.into_raw())
}

/// Height, width and raw samples of `image::DynamicImage::to_rgb16`. The
/// buffer holds a sample for each of the 3 channels of every pixel; it
/// may hold more after them.
#[verifier::external_body]
fn raster_to_rgb16(img: &image::DynamicImage) -> (out: (u32, u32, Vec<u16>))
    ensures
        out.2@.len() >= out.0 * out.1 * 3,
{
    let buffer = img.to_rgb16();
    (buffer.height(), buffer.width(), buffer.into_raw())
}

/// Height, width and raw samples of `image::DynamicImage::to_rgba16`. The
/// buffer holds a sample for each of the 4 channels of every pixel; it
/// may hold more after them.
#[verifier::external_body]
fn raster_to_rgba16(img: &image::DynamicImage) -> (out: (u32, u32, Vec<u16>))
    ensures
        out.2@.len() >= out.0 * out.1 * 4,
{
    let buffer = img.to_rgba16();
    (buffer.height(), buffer.width(), buffer.into_raw())
}

/// Height, width and raw samples of `image::DynamicImage::to_rgb32f`, each
/// sample as its bit pattern. The buffer holds a sample for each of the 3
/// channels of every pixel; it may hold more after them.
#[verifier::external_body]
fn raster_to_rgb32(img: &image::DynamicImage) -> (out: (u32, u32, Vec<u32>))
    ensures
        out.2@.len() >= out.0 * out.1 * 3,
{
    let buffer = img.to_rgb32f();
    (buffer.height(), buffer.width(), buffer.into_raw().into_iter().map(|v| v.to_bits()).collect())
}

/// Height, width and raw samples of `image::DynamicImage::to_rgba32f`, each
/// sample as its bit pattern. The buffer holds a sample for each of the 4
/// channels of every pixel; it may hold more after them.
#[verifier::external_body]
fn raster_to_rgba32(img: &image::DynamicImage) -> (out: (u32, u32, Vec<u32>))
    ensures
        out.2@.len() >= out.0 * out.1 * 4,
{
    let buffer = img.to_rgba32f();
    (buffer.height(), buffer.width(), buffer.into_raw().into_iter().map(|v| v.to_bits()).collect())
}

/// The samples of the pixels of a raw buffer: the leading `height * width *
/// channels` of them.
pub(crate) fn pixel_samples<T>(raw: Vec<T>, height: u32, width: u32, channels: usize) -> (out: Vec<T>)
    requires
        channels >= 1,
        raw@.len() >= height * width * channels,
    ensures
        out@ == raw@.subrange(0, height * width * channels),
        out@.len() == height * width * channels,
{
    let held: usize = raw.len();
    assert(height * width <= height * width * channels) by (nonlinear_arith)
        requires
            channels >= 1,
    ;
    assert(height * width * channels <= held);
    let pixels: usize = height as usize * width as usize;
    let needed: usize = pixels * channels;
    let mut raw = raw;
    raw.truncate(needed);
    raw
}

/// The samples per pixel of a layout.
pub open spec fn layout_channels(layout: ImgColor) -> nat {
    match layout_axis(layout) {
        Some(c) => c,
        None => 1,
    }
}

/// How many samples the generic decoder handed out.
pub open spec fn raw_count(raw: RawSamples) -> nat {
    match raw {
        RawSamples::Eight(samples) => samples.len(),
        RawSamples::Sixteen(samples) => samples.len(),
        RawSamples::Float(samples) => samples.len(),
    }
}

/// The samples that the generic decoder hands out for the planned layout,
/// in the sample width that the plan reads.
pub enum RawSamples {
    Eight(Seq<u8>),
    Sixteen(Seq<u16>),
    Float(Seq<u32>),
}

/// What a raster file decodes to, given what the generic decoder made of it:
/// its native layout (`None` for one unknown to this library), its height and
/// width, and the samples it hands out for the planned layout.
pub open spec fn raster_image(
    native: Option<NativeLayout>,
    height: nat,
    width: nat,
    raw: RawSamples,
    color: ImgColor,
    format: ImgFormat,
) -> Result<ArrayView, PixelError> {
    match native {
        None => Err(PixelError::UnsupportedConversion),
        Some(n) => {
            let plan = read_plan(n, color, format);
            match raw {
                RawSamples::Eight(samples) => if plan.read == Depth::Eight {
                    raster_of_u8(samples, height, width, plan.layout, plan.out)
                } else {
                    Err(PixelError::UnsupportedConversion)
                },
                RawSamples::Sixteen(samples) => if plan.read == Depth::Sixteen {
                    raster_of_u16(samples, height, width, plan.layout, plan.out)
                } else {
                    Err(PixelError::UnsupportedConversion)
                },
                RawSamples::Float(samples) => if plan.read == Depth::Float {
                    raster_of_f32(samples, height, width, plan.layout, plan.out)
                } else {
                    Err(PixelError::UnsupportedConversion)
                },
            }
        },
    }
}

/// Whether the generic decoder handed out one sample for each channel of
/// every pixel in the planned layout.
pub open spec fn raster_complete(
    native: Option<NativeLayout>,
    height: nat,
    width: nat,
    raw: RawSamples,
    color: ImgColor,
    format: ImgFormat,
) -> bool {
    match native {
        None => true,
        Some(n) => raw_count(raw) == height * width * layout_channels(
            read_plan(n, color, format).layout,
        ),
    }
}

/// Whether an outcome is one that decoding a raster file can have: a decode
/// error where the generic decoder refuses the file; otherwise the image
/// that `raster_image` gives for what the decoder made of it, which is one
/// sample for each channel of every pixel.
pub open spec fn raster_outcome(
    r: Result<ArrayDType, PixelError>,
    color: ImgColor,
    format: ImgFormat,
) -> bool {
    (r is Err && r->Err_0 == PixelError::Decode) || exists|
        native: Option<NativeLayout>,
        height: nat,
        width: nat,
        raw: RawSamples,
    |
        raster_complete(native, height, width, raw, color, format) && decoded_as(
            r,
            #[trigger] raster_image(native, height, width, raw, color, format),
        )
}

/// Decodes a raster file with the generic decoder and projects it onto the
/// requested channel layout and sample format. A file that the decoder
/// refuses is a decode error; whatever it yields otherwise, the image is the
/// one `raster_image` gives for it, and its samples fill its shape.
pub fn image_decode(bytes: &[u8], color_mode: ImgColor, color_format: ImgFormat) -> (r: Result<
    ArrayDType,
    PixelError,
>)
    ensures
        raster_outcome(r, color_mode, color_format),
        r is Err ==> r->Err_0 == PixelError::Decode || r->Err_0
            == PixelError::UnsupportedConversion,
{
    let img = match raster_open(bytes) {
        Ok(img) => img,
        Err(_) => {
            return Err(PixelError::Decode);
        },
    };
    let native = match raster_layout(&img) {
        Some(n) => n,
        None => {
            assert(decoded_as(
                Err::<ArrayDType, PixelError>(PixelError::UnsupportedConversion),
                raster_image(
                    None,
                    0,
                    0,
                    RawSamples::Eight(Seq::<u8>::empty()),
                    color_mode,
                    color_format,
                ),
            ));
            return Err(PixelError::UnsupportedConversion);
        },
    };
    let plan = plan_read(native, color_mode, color_format);
    assert(plan.layout != ImgColor::DYNAMIC);
    match plan.read {
        Depth::Float => {
            let (height, width, raw): (u32, u32, Vec<u32>) = match plan.layout {
                ImgColor::RGB => raster_to_rgb32(&img),
                _ => raster_to_rgba32(&img),
            };
            let channels: usize = match plan.layout {
                ImgColor::RGB => 3,
                _ => 4,
            };
            let raw = pixel_samples(raw, height, width, channels);
            let ghost seen = RawSamples::Float(raw@);
            let r = raster_from_f32(raw, height, width, plan.layout, plan.out);
            assert(raster_complete(
                Some(native),
                height as nat,
                width as nat,
                seen,
                color_mode,
                color_format,
            ));
            assert(decoded_as(
                r,
                raster_image(
                    Some(native),
                    height as nat,
                    width as nat,
                    seen,
                    color_mode,
                    color_format,
                ),
            ));
            r
        },
        Depth::Eight => {
            let (height, width, raw): (u32, u32, Vec<u8>) = match plan.layout {
                ImgColor::GRAY => raster_to_luma8(&img),
                ImgColor::AGRAY => raster_to_luma_alpha8(&img),
                ImgColor::RGB => raster_to_rgb8(&img),
                _ => raster_to_rgba8(&img),
            };
            let channels: usize = match plan.layout {
                ImgColor::GRAY => 1,
                ImgColor::AGRAY => 2,
                ImgColor::RGB => 3,
                _ => 4,
            };
            let raw = pixel_samples(raw, height, width, channels);
            let ghost seen = RawSamples::Eight(raw@);
            let r = raster_from_u8(raw, height, width, plan.layout, plan.out);
            assert(raster_complete(
                Some(native),
                height as nat,
                width as nat,
                seen,
                color_mode,
                color_format,
            ));
            assert(decoded_as(
                r,
                raster_image(
                    Some(native),
                    height as nat,
                    width as nat,
                    seen,
                    color_mode,
                    color_format,
                ),
            ));
            r
        },
        Depth::Sixteen => {
            let (height, width, raw): (u32, u32, Vec<u16>) = match plan.layout {
                ImgColor::GRAY => raster_to_luma16(&img),
                ImgColor::AGRAY => raster_to_luma_alpha16(&img),
                ImgColor::RGB => raster_to_rgb16(&img),
                _ => raster_to_rgba16(&img),
            };
            let channels: usize = match plan.layout {
                ImgColor::GRAY => 1,
                ImgColor::AGRAY => 2,
                ImgColor::RGB => 3,
                _ => 4,
            };
            let raw = pixel_samples(raw, height, width, channels);
            let ghost seen = RawSamples::Sixteen(raw@);
            let r = raster_from_u16(raw, height, width, plan.layout, plan.out);
            assert(raster_complete(
                Some(native),
                height as nat,
                width as nat,
                seen,
                color_mode,
                color_format,
            ));
            assert(decoded_as(
                r,
                raster_image(
                    Some(native),
                    height as nat,
                    width as nat,
                    seen,
                    color_mode,
                    color_format,
                ),
            ));
            r
        },
    }
}

/// Decodes a file into the requested channel layout and sample format. A PSD
/// goes to the PSD reader, which keeps the bit depth of the file; anything
/// else goes to the generic raster decoder. Fewer than four bytes cannot be
/// told apart and are refused.
pub fn decoder(bytes: &[u8], color_mode: ImgColor, color_format: ImgFormat) -> (r: Result<
    ArrayDType,
    PixelError,
>)
    ensures
        bytes@.len() < 4 ==> r is Err && r->Err_0 == PixelError::FormatDetection,
        is_psd(bytes@) ==> exists|raw: Option<Seq<u8>>|
            decoded_as(r, #[trigger] psd_image(bytes@, raw, color_mode)),
        bytes@.len() >= 4 && !is_psd(bytes@) ==> raster_outcome(r, color_mode, color_format) && (r
            is Err ==> r->Err_0 == PixelError::Decode || r->Err_0
            == PixelError::UnsupportedConversion),
{
    if bytes.len() < 4 {
        return Err(PixelError::FormatDetection);
    }
    if bytes[0] == 56 && bytes[1] == 66 && bytes[2] == 80 && bytes[3] == 83 {
        psd_decode(bytes, color_mode)
    } else {
        image_decode(bytes, color_mode, color_format)
    }
}

} // verus!
