//! The byte-oriented readers: every file is read into eight-bit samples or
//! into normalised samples, as gray, as RGB or, for PSD, in the layout of the
//! file.
//!
//! `mode` 0 asks for gray and 1 for RGB; any other value asks for RGB, or for
//! the layout of the file where it is a PSD.

use vstd::prelude::*;
use vstd::slice::slice_subrange;
use crate::buffer::{PixelBuffer, Raster};
use crate::binary32::byte_to_unit;
use crate::convert::{
    pairs_to_u8_seq,
    pairs_to_unit_seq,
    rgb8_luma_unit_seq,
    rgb8_to_gray32,
    u16_to_f32,
    u16_to_u8,
};
use crate::decode::{
    container_of,
    pixel_samples,
    raster_open,
    raster_to_luma8,
    raster_to_rgb8,
    sniff_format,
    Container,
};
use crate::errors::PixelError;
use crate::format_convert::{
    gray8_to_rgb8,
    gray_to_rgb_seq,
    rgb8_luma_seq,
    rgb8_to_gray8,
    u8_to_f32,
};
use crate::psd::{decode_size_psd, psd_raw_samples, psd_size, shaped, PSD_HEADER_LEN};

verus! {

/// Whether an outcome is the buffer a specification asks for.
pub open spec fn read_as(r: Result<PixelBuffer<u8>, PixelError>, expected: Result<
    Raster<u8>,
    PixelError,
>) -> bool {
    match r {
        Ok(b) => b.wf() && expected == Ok::<Raster<u8>, PixelError>(b@),
        Err(e) => expected == Err::<Raster<u8>, PixelError>(e),
    }
}

/// The buffer of the given shape over `samples`, or a shape mismatch.
pub open spec fn shaped_or_mismatch(
    samples: Seq<u8>,
    height: nat,
    width: nat,
    axis: Option<nat>,
) -> Result<Raster<u8>, PixelError> {
    match shaped(samples, height, width, axis) {
        Some(img) => Ok(img),
        None => Err(PixelError::ShapeMismatch),
    }
}

/// Gives samples their shape.
fn shape_u8(samples: Vec<u8>, height: usize, width: usize, axis: Option<usize>) -> (r: Result<
    PixelBuffer<u8>,
    PixelError,
>)
    ensures
        read_as(
            r,
            shaped_or_mismatch(
                samples@,
                height as nat,
                width as nat,
                crate::buffer::channels_view(axis),
            ),
        ),
{
    match axis {
        Some(c) => PixelBuffer::from_shape_vec3(height, width, c, samples),
        None => {
            assert(height * width * 1 == height * width) by (nonlinear_arith);
            PixelBuffer::from_shape_vec2(height, width, samples)
        },
    }
}

/// What a raster decodes to in the byte-oriented readers, given its height,
/// its width and the samples that the generic decoder hands out for the
/// layout: gray for mode 0, RGB otherwise.
pub open spec fn raster_read(raw: Seq<u8>, height: nat, width: nat, mode: u8) -> Result<
    Raster<u8>,
    PixelError,
> {
    shaped_or_mismatch(
        raw,
        height,
        width,
        if mode == 0 {
            None
        } else {
            Some(3nat)
        },
    )
}

/// Whether the samples are one for each channel of every pixel: one channel
/// for mode 0, three otherwise.
pub open spec fn raster_fits(raw: Seq<u8>, height: nat, width: nat, mode: u8) -> bool {
    raw.len() == height * width * (if mode == 0 {
        1nat
    } else {
        3nat
    })
}

/// Whether an outcome is one that reading a raster file in the given mode
/// can have: a decode error where the generic decoder refuses the file;
/// otherwise the buffer over the samples it hands out, which are one for
/// each channel of every pixel.
pub open spec fn raster_read_outcome(r: Result<PixelBuffer<u8>, PixelError>, mode: u8) -> bool {
    (r is Err && r->Err_0 == PixelError::Decode) || exists|
        raw: Seq<u8>,
        height: nat,
        width: nat,
    |
        raster_fits(raw, height, width, mode) && read_as(
            r,
            #[trigger] raster_read(raw, height, width, mode),
        )
}

/// Shapes the gray samples of a raster: rank two.
pub fn luma2array(raw: Vec<u8>, height: u32, width: u32) -> (r: Result<PixelBuffer<u8>, PixelError>)
    ensures
        read_as(r, raster_read(raw@, height as nat, width as nat, 0)),
{
    shape_u8(raw, height as usize, width as usize, None)
}

/// Shapes the RGB samples of a raster: three channels.
pub fn rgb2array(raw: Vec<u8>, height: u32, width: u32) -> (r: Result<PixelBuffer<u8>, PixelError>)
    ensures
        read_as(r, raster_read(raw@, height as nat, width as nat, 1)),
{
    shape_u8(raw, height as usize, width as usize, Some(3))
}

/// Reads a raster file as gray with the generic decoder. A file that the
/// decoder refuses is a decode error.
pub fn gray_img_open(bytes: &[u8]) -> (r: Result<PixelBuffer<u8>, PixelError>)
    ensures
        raster_read_outcome(r, 0),
        r is Err ==> r->Err_0 == PixelError::Decode,
{
    let img = match raster_open(bytes) {
        Ok(img) => img,
        Err(_) => {
            return Err(PixelError::Decode);
        },
    };
    let (height, width, raw): (u32, u32, Vec<u8>) = raster_to_luma8(&img);
    let raw = pixel_samples(raw, height, width, 1);
    let ghost seen = raw@;
    let r = luma2array(raw, height, width);
    assert(raster_fits(seen, height as nat, width as nat, 0));
    assert(read_as(r, raster_read(seen, height as nat, width as nat, 0)));
    r
}

/// Reads a raster file as RGB with the generic decoder. A file that the
/// decoder refuses is a decode error.
pub fn rgb_img_open(bytes: &[u8]) -> (r: Result<PixelBuffer<u8>, PixelError>)
    ensures
        raster_read_outcome(r, 1),
        r is Err ==> r->Err_0 == PixelError::Decode,
{
    let img = match raster_open(bytes) {
        Ok(img) => img,
        Err(_) => {
            return Err(PixelError::Decode);
        },
    };
    let (height, width, raw): (u32, u32, Vec<u8>) = raster_to_rgb8(&img);
    let raw = pixel_samples(raw, height, width, 3);
    let ghost seen = raw@;
    let r = rgb2array(raw, height, width);
    assert(raster_fits(seen, height as nat, width as nat, 1));
    assert(read_as(r, raster_read(seen, height as nat, width as nat, 1)));
    r
}

/// The error type of the JPEG decoder.
#[verifier::external_type_specification]
#[verifier::external_body]
pub struct ExJpegDecodeErrors(zune_jpeg::errors::DecodeErrors);

/// What `zune_jpeg::JpegDecoder` makes of a file when asked for gray: the
/// samples and, where the headers gave them, height and width; `None` where
/// it refuses the file. The decoder works on integers alone and its
/// vectorised routines are written to agree with its portable ones.
pub uninterp spec fn jpeg_luma(file: Seq<u8>) -> Option<(Seq<u8>, Option<(u16, u16)>)>;

/// What `zune_jpeg::JpegDecoder` makes of a file when asked for RGB; see
/// `jpeg_luma`.
pub uninterp spec fn jpeg_rgb(file: Seq<u8>) -> Option<(Seq<u8>, Option<(u16, u16)>)>;

/// Decodes a JPEG to gray with `zune_jpeg::JpegDecoder`: `new_with_options`
/// with the output colour space set to luma, `decode_headers`, `info` for
/// height and width, then `decode`. The contract only names the outcome:
/// it is `jpeg_luma` of the file, an error standing for `None`.
#[verifier::external_body]
fn jpeg_decode_luma(file: &[u8]) -> (r: Result<
    (Vec<u8>, Option<(u16, u16)>),
    zune_jpeg::errors::DecodeErrors,
>)
    ensures
        match r {
            Ok((raw, size)) => jpeg_luma(file@) == Some((raw@, size)),
            Err(_) => jpeg_luma(file@) is None,
        },
{
    let options = zune_jpeg::zune_core::options::DecoderOptions::default()
        .jpeg_set_out_colorspace(zune_jpeg::zune_core::colorspace::ColorSpace::Luma);
    let mut decoder = zune_jpeg::JpegDecoder::new_with_options(file, options);
    decoder.decode_headers()?;
    let size = decoder.info().map(|info| (info.height, info.width));
    let pixels = decoder.decode()?;
    Ok((pixels, size))
}

/// Decodes a JPEG to RGB with `zune_jpeg::JpegDecoder`: `new_with_options`
/// with the output colour space set to RGB, `decode_headers`, `info` for
/// height and width, then `decode`. The contract only names the outcome:
/// it is `jpeg_rgb` of the file, an error standing for `None`.
#[verifier::external_body]
fn jpeg_decode_rgb(file: &[u8]) -> (r: Result<
    (Vec<u8>, Option<(u16, u16)>),
    zune_jpeg::errors::DecodeErrors,
>)
    ensures
        match r {
            Ok((raw, size)) => jpeg_rgb(file@) == Some((raw@, size)),
            Err(_) => jpeg_rgb(file@) is None,
        },
{
    let options = zune_jpeg::zune_core::options::DecoderOptions::default()
        .jpeg_set_out_colorspace(zune_jpeg::zune_core::colorspace::ColorSpace::RGB);
    let mut decoder = zune_jpeg::JpegDecoder::new_with_options(file, options);
    decoder.decode_headers()?;
    let size = decoder.info().map(|info| (info.height, info.width));
    let pixels = decoder.decode()?;
    Ok((pixels, size))
}

/// What a JPEG decodes to, given what the JPEG decoder made of it: the
/// samples and, where the headers gave them, height and width.
pub open spec fn jpeg_read(raw: Seq<u8>, size: Option<(u16, u16)>, mode: u8) -> Result<
    Raster<u8>,
    PixelError,
> {
    match size {
        None => Err(PixelError::Decode),
        Some((height, width)) => raster_read(raw, height as nat, width as nat, mode),
    }
}

/// Shapes what the JPEG decoder made of a file.
pub fn jpg_to_array(raw: Vec<u8>, size: Option<(u16, u16)>, mode: u8) -> (r: Result<
    PixelBuffer<u8>,
    PixelError,
>)
    ensures
        read_as(r, jpeg_read(raw@, size, mode)),
{
    match size {
        None => Err(PixelError::Decode),
        Some((height, width)) => {
            if mode == 0 {
                luma2array(raw, height as u32, width as u32)
            } else {
                let r = rgb2array(raw, height as u32, width as u32);
                r
            }
        },
    }
}

/// What the JPEG decoder makes of a file in the given mode: its gray
/// decoding for mode 0, its RGB decoding for every other mode.
pub open spec fn jpeg_decoded(file: Seq<u8>, mode: u8) -> Option<(Seq<u8>, Option<(u16, u16)>)> {
    if mode == 0 {
        jpeg_luma(file)
    } else {
        jpeg_rgb(file)
    }
}

/// What reading a JPEG gives, from what the decoder made of the file: a
/// decode error where it refused the file, else the samples in their shape.
pub open spec fn jpeg_outcome(decoded: Option<(Seq<u8>, Option<(u16, u16)>)>, mode: u8) -> Result<
    Raster<u8>,
    PixelError,
> {
    match decoded {
        None => Err(PixelError::Decode),
        Some((raw, size)) => jpeg_read(raw, size, mode),
    }
}

/// Reads a JPEG as gray with the JPEG decoder. A file that the decoder
/// refuses is a decode error.
pub fn jpg_gray_img_open(file: &[u8]) -> (r: Result<PixelBuffer<u8>, PixelError>)
    ensures
        read_as(r, jpeg_outcome(jpeg_luma(file@), 0)),
{
    match jpeg_decode_luma(file) {
        Ok((raw, size)) => jpg_to_array(raw, size, 0),
        Err(_) => Err(PixelError::Decode),
    }
}

/// Reads a JPEG as RGB with the JPEG decoder. A file that the decoder
/// refuses is a decode error.
pub fn jpg_rgb_img_open(file: &[u8]) -> (r: Result<PixelBuffer<u8>, PixelError>)
    ensures
        read_as(r, jpeg_outcome(jpeg_rgb(file@), 1)),
{
    match jpeg_decode_rgb(file) {
        Ok((raw, size)) => jpg_to_array(raw, size, 1),
        Err(_) => Err(PixelError::Decode),
    }
}

/// The eight-bit samples of a PSD payload: sixteen-bit samples are reduced
/// pair by pair, and an odd number of bytes cannot be paired.
pub open spec fn psd_eight_bit(px: Seq<u8>, depth: u8) -> Option<Seq<u8>> {
    if depth == 16 {
        if px.len() % 2 == 0 {
            Some(pairs_to_u8_seq(px))
        } else {
            None
        }
    } else {
        Some(px)
    }
}

/// What a PSD file reads as, given the raw samples that the payload decoder
/// made of it (`None` where it failed). Mode 0 gives gray, by luma unless the
/// colour mode of the file is grayscale; mode 1 gives RGB, by replication
/// where it is; any other mode keeps the channels of the file.
pub open spec fn psd_read(bytes: Seq<u8>, raw: Option<Seq<u8>>, mode: u8) -> Result<
    Raster<u8>,
    PixelError,
> {
    if bytes.len() < PSD_HEADER_LEN {
        Err(PixelError::Decode)
    } else {
        match raw {
            None => Err(PixelError::Decode),
            Some(px) => match psd_eight_bit(px, bytes[23]) {
                None => Err(PixelError::ShapeMismatch),
                Some(samples) => {
                    let size = psd_size(bytes.subrange(14, 22));
                    let height = size.0 as nat;
                    let width = size.1 as nat;
                    let gray = bytes[25] == 1;
                    if mode == 0 {
                        if gray {
                            shaped_or_mismatch(samples, height, width, None)
                        } else if samples.len() % 3 != 0 {
                            Err(PixelError::ShapeMismatch)
                        } else {
                            shaped_or_mismatch(rgb8_luma_seq(samples), height, width, None)
                        }
                    } else if mode == 1 {
                        if gray {
                            shaped_or_mismatch(gray_to_rgb_seq(samples), height, width, Some(3))
                        } else {
                            shaped_or_mismatch(samples, height, width, Some(3))
                        }
                    } else if bytes[13] == 1 {
                        shaped_or_mismatch(samples, height, width, None)
                    } else {
                        shaped_or_mismatch(samples, height, width, Some(bytes[13] as nat))
                    }
                },
            },
        }
    }
}

/// The raw samples as a mathematical value.
pub open spec fn raw_seq(raw: Option<Vec<u8>>) -> Option<Seq<u8>> {
    match raw {
        Some(px) => Some(px@),
        None => None,
    }
}

/// Builds the eight-bit image of a PSD file from its header and the raw
/// samples that the payload decoder made.
pub fn psd_to_array(img: &[u8], raw: Option<Vec<u8>>, mode: u8) -> (r: Result<
    PixelBuffer<u8>,
    PixelError,
>)
    ensures
        read_as(r, psd_read(img@, raw_seq(raw), mode)),
{
    if img.len() < PSD_HEADER_LEN {
        return Err(PixelError::Decode);
    }
    let mut px: Vec<u8> = match raw {
        Some(px) => px,
        None => {
            return Err(PixelError::Decode);
        },
    };
    if img[23] == 16 {
        if px.len() % 2 != 0 {
            return Err(PixelError::ShapeMismatch);
        }
        px = u16_to_u8(px.as_slice());
    }
    let (height, width) = decode_size_psd(slice_subrange(img, 14, 22));
    let color_mode: u8 = img[25];
    let channels: usize = img[13] as usize;
    if mode == 0 {
        if color_mode == 1 {
            shape_u8(px, height as usize, width as usize, None)
        } else if px.len() % 3 != 0 {
            Err(PixelError::ShapeMismatch)
        } else {
            let gray = rgb8_to_gray8(px.as_slice());
            shape_u8(gray, height as usize, width as usize, None)
        }
    } else if mode == 1 {
        if color_mode == 1 {
            let rgb_values = gray8_to_rgb8(px.as_slice());
            shape_u8(rgb_values, height as usize, width as usize, Some(3))
        } else {
            shape_u8(px, height as usize, width as usize, Some(3))
        }
    } else if channels == 1 {
        shape_u8(px, height as usize, width as usize, None)
    } else {
        shape_u8(px, height as usize, width as usize, Some(channels))
    }
}

/// Runs the payload decoder on a PSD file and builds the image for `mode`.
fn psd_open(img: &[u8], mode: u8) -> (r: Result<PixelBuffer<u8>, PixelError>)
    ensures
        exists|raw: Option<Seq<u8>>| read_as(r, #[trigger] psd_read(img@, raw, mode)),
{
    if img.len() < PSD_HEADER_LEN {
        assert(read_as(
            Err::<PixelBuffer<u8>, PixelError>(PixelError::Decode),
            psd_read(img@, None, mode),
        ));
        return Err(PixelError::Decode);
    }
    let raw: Option<Vec<u8>> = psd_raw_samples(img);
    let ghost seen = raw_seq(raw);
    let r = psd_to_array(img, raw, mode);
    assert(read_as(r, psd_read(img@, seen, mode)));
    r
}

/// Reads a PSD file as gray.
pub fn psd_gray_decode(img: &[u8]) -> (r: Result<PixelBuffer<u8>, PixelError>)
    ensures
        exists|raw: Option<Seq<u8>>| read_as(r, #[trigger] psd_read(img@, raw, 0)),
{
    psd_open(img, 0)
}

/// Reads a PSD file as RGB.
pub fn psd_rgb_decode(img: &[u8]) -> (r: Result<PixelBuffer<u8>, PixelError>)
    ensures
        exists|raw: Option<Seq<u8>>| read_as(r, #[trigger] psd_read(img@, raw, 1)),
{
    psd_open(img, 1)
}

/// Reads a PSD file in the layout of the file.
pub fn psd_din_decode(img: &[u8]) -> (r: Result<PixelBuffer<u8>, PixelError>)
    ensures
        exists|raw: Option<Seq<u8>>| read_as(r, #[trigger] psd_read(img@, raw, 2)),
{
    psd_open(img, 2)
}

/// The mode that the raster and JPEG readers act on: gray for 0, RGB for
/// everything else.
pub open spec fn gray_or_rgb(mode: u8) -> u8 {
    if mode == 0 {
        0
    } else {
        1
    }
}

/// The mode that the PSD reader acts on: gray for 0, RGB for 1, the layout
/// of the file for everything else.
pub open spec fn psd_mode(mode: u8) -> u8 {
    if mode == 0 || mode == 1 {
        mode
    } else {
        2
    }
}

/// Whether an outcome is one that reading a file of the given family in the
/// given mode can have.
pub open spec fn read_outcome(
    r: Result<PixelBuffer<u8>, PixelError>,
    bytes: Seq<u8>,
    family: Container,
    mode: u8,
) -> bool {
    match family {
        Container::Psd => exists|raw: Option<Seq<u8>>|
            read_as(r, #[trigger] psd_read(bytes, raw, psd_mode(mode))),
        Container::JpegBare => read_as(
            r,
            jpeg_outcome(jpeg_decoded(bytes, gray_or_rgb(mode)), gray_or_rgb(mode)),
        ),
        _ => raster_read_outcome(r, gray_or_rgb(mode)),
    }
}

/// Reads a file into eight-bit samples. The leading bytes pick the reader:
/// the PSD reader for a PSD, the JPEG decoder for a JPEG without JFIF or
/// Exif tag, the generic decoder for everything else. A file whose family
/// cannot be told is refused.
pub fn all_read_u8(img: &[u8], mode: u8) -> (r: Result<PixelBuffer<u8>, PixelError>)
    ensures
        match container_of(img@) {
            Err(e) => r is Err && r->Err_0 == e,
            Ok(family) => read_outcome(r, img@, family, mode),
        },
{
    let family = match sniff_format(img) {
        Ok(f) => f,
        Err(e) => {
            return Err(e);
        },
    };
    match family {
        Container::JpegTagged | Container::Raster => {
            if mode == 0 {
                gray_img_open(img)
            } else {
                rgb_img_open(img)
            }
        },
        Container::JpegBare => {
            if mode == 0 {
                jpg_gray_img_open(img)
            } else {
                jpg_rgb_img_open(img)
            }
        },
        Container::Psd => {
            if mode == 0 {
                psd_gray_decode(img)
            } else if mode == 1 {
                psd_rgb_decode(img)
            } else {
                psd_din_decode(img)
            }
        },
    }
}

/// Whether an outcome is the buffer of normalised samples that a
/// specification asks for.
pub open spec fn read_float_as(r: Result<PixelBuffer<u32>, PixelError>, expected: Result<
    Raster<u32>,
    PixelError,
>) -> bool {
    match r {
        Ok(b) => b.wf() && expected == Ok::<Raster<u32>, PixelError>(b@),
        Err(e) => expected == Err::<Raster<u32>, PixelError>(e),
    }
}

/// An eight-bit image with every sample normalised.
pub open spec fn normalised(img: Raster<u8>) -> Raster<u32> {
    Raster {
        samples: img.samples.map_values(|b: u8| byte_to_unit(b)),
        height: img.height,
        width: img.width,
        channels: img.channels,
    }
}

/// What is read in eight bits, normalised.
pub open spec fn normalised_read(read: Result<Raster<u8>, PixelError>) -> Result<
    Raster<u32>,
    PixelError,
> {
    match read {
        Ok(img) => Ok(normalised(img)),
        Err(e) => Err(e),
    }
}

/// Normalises what was read in eight bits.
pub fn normalise(read: Result<PixelBuffer<u8>, PixelError>) -> (r: Result<
    PixelBuffer<u32>,
    PixelError,
>)
    requires
        read is Ok ==> read->Ok_0.wf(),
    ensures
        match read {
            Ok(img) => r is Ok && r->Ok_0.wf() && r->Ok_0@ == normalised(img@),
            Err(e) => r == Err::<PixelBuffer<u32>, PixelError>(e),
        },
{
    match read {
        Ok(img) => {
            let height: usize = img.height();
            let width: usize = img.width();
            let channels: Option<usize> = img.channels();
            let floats: Vec<u32> = u8_to_f32(img.samples().as_slice());
            let shaped = match channels {
                Some(c) => PixelBuffer::from_shape_vec3(height, width, c, floats),
                None => {
                    assert(height * width * 1 == height * width) by (nonlinear_arith);
                    PixelBuffer::from_shape_vec2(height, width, floats)
                },
            };
            shaped
        },
        Err(e) => Err(e),
    }
}

/// Gives normalised samples their shape.
fn shape_floats(samples: Vec<u32>, height: usize, width: usize, axis: Option<usize>) -> (r: Result<
    PixelBuffer<u32>,
    PixelError,
>)
    ensures
        match shaped(
            samples@,
            height as nat,
            width as nat,
            crate::buffer::channels_view(axis),
        ) {
            Some(img) => r is Ok && r->Ok_0@ == img && r->Ok_0.wf(),
            None => r == Err::<PixelBuffer<u32>, PixelError>(PixelError::ShapeMismatch),
        },
{
    match axis {
        Some(c) => PixelBuffer::from_shape_vec3(height, width, c, samples),
        None => {
            assert(height * width * 1 == height * width) by (nonlinear_arith);
            PixelBuffer::from_shape_vec2(height, width, samples)
        },
    }
}

/// The image of the given shape over normalised samples, or a shape
/// mismatch.
pub open spec fn floats_or_mismatch(
    samples: Seq<u32>,
    height: nat,
    width: nat,
    axis: Option<nat>,
) -> Result<Raster<u32>, PixelError> {
    match shaped(samples, height, width, axis) {
        Some(img) => Ok(img),
        None => Err(PixelError::ShapeMismatch),
    }
}

/// What a PSD file reads as in normalised samples, given the raw samples
/// that the payload decoder made of it (`None` where it failed). Mode 0
/// gives gray: the samples of a grayscale file, the luma of any other, kept
/// as a fraction. Mode 1 gives RGB. Any other mode keeps the channels of the
/// file, takes sixteen-bit samples pair by pair, and refuses a depth that is
/// neither eight nor sixteen.
pub open spec fn psd_read_float(bytes: Seq<u8>, raw: Option<Seq<u8>>, mode: u8) -> Result<
    Raster<u32>,
    PixelError,
> {
    if mode == 1 {
        normalised_read(psd_read(bytes, raw, 1))
    } else if bytes.len() < PSD_HEADER_LEN {
        Err(PixelError::Decode)
    } else {
        match raw {
            None => Err(PixelError::Decode),
            Some(px) => {
                let size = psd_size(bytes.subrange(14, 22));
                let height = size.0 as nat;
                let width = size.1 as nat;
                if mode == 0 {
                    if bytes[25] == 1 {
                        normalised_read(psd_read(bytes, raw, 0))
                    } else {
                        match psd_eight_bit(px, bytes[23]) {
                            None => Err(PixelError::ShapeMismatch),
                            Some(samples) => if samples.len() % 3 != 0 {
                                Err(PixelError::ShapeMismatch)
                            } else {
                                floats_or_mismatch(
                                    rgb8_luma_unit_seq(samples),
                                    height,
                                    width,
                                    None,
                                )
                            },
                        }
                    }
                } else if bytes[23] == 8 {
                    normalised_read(psd_read(bytes, raw, 2))
                } else if bytes[23] == 16 {
                    if px.len() % 2 != 0 {
                        Err(PixelError::ShapeMismatch)
                    } else if bytes[13] == 1 {
                        floats_or_mismatch(pairs_to_unit_seq(px), height, width, None)
                    } else {
                        floats_or_mismatch(
                            pairs_to_unit_seq(px),
                            height,
                            width,
                            Some(bytes[13] as nat),
                        )
                    }
                } else {
                    Err(PixelError::Decode)
                }
            },
        }
    }
}

/// Builds the image of normalised samples of a PSD file from its header and
/// the raw samples that the payload decoder made.
pub fn psd_to_float_array(img: &[u8], raw: Option<Vec<u8>>, mode: u8) -> (r: Result<
    PixelBuffer<u32>,
    PixelError,
>)
    ensures
        read_float_as(r, psd_read_float(img@, raw_seq(raw), mode)),
{
    if mode == 1 {
        return normalise(psd_to_array(img, raw, 1));
    }
    if img.len() < PSD_HEADER_LEN {
        return Err(PixelError::Decode);
    }
    let px: Vec<u8> = match raw {
        Some(px) => px,
        None => {
            return Err(PixelError::Decode);
        },
    };
    let (height, width) = decode_size_psd(slice_subrange(img, 14, 22));
    let depth: u8 = img[23];
    let channels: usize = img[13] as usize;
    if mode == 0 {
        if img[25] == 1 {
            normalise(psd_to_array(img, Some(px), 0))
        } else {
            let eight: Vec<u8> = if depth == 16 {
                if px.len() % 2 != 0 {
                    return Err(PixelError::ShapeMismatch);
                }
                u16_to_u8(px.as_slice())
            } else {
                px
            };
            if eight.len() % 3 != 0 {
                return Err(PixelError::ShapeMismatch);
            }
            let gray: Vec<u32> = rgb8_to_gray32(eight.as_slice());
            shape_floats(gray, height as usize, width as usize, None)
        }
    } else if depth == 8 {
        normalise(psd_to_array(img, Some(px), 2))
    } else if depth == 16 {
        if px.len() % 2 != 0 {
            return Err(PixelError::ShapeMismatch);
        }
        let floats: Vec<u32> = u16_to_f32(px.as_slice());
        if channels == 1 {
            shape_floats(floats, height as usize, width as usize, None)
        } else {
            shape_floats(floats, height as usize, width as usize, Some(channels))
        }
    } else {
        Err(PixelError::Decode)
    }
}

/// Runs the payload decoder on a PSD file and builds the image of
/// normalised samples for `mode`.
fn psd_open_float(img: &[u8], mode: u8) -> (r: Result<PixelBuffer<u32>, PixelError>)
    ensures
        exists|raw: Option<Seq<u8>>| read_float_as(r, #[trigger] psd_read_float(img@, raw, mode)),
{
    if img.len() < PSD_HEADER_LEN {
        assert(read_float_as(
            Err::<PixelBuffer<u32>, PixelError>(PixelError::Decode),
            psd_read_float(img@, None, mode),
        ));
        return Err(PixelError::Decode);
    }
    let raw: Option<Vec<u8>> = psd_raw_samples(img);
    let ghost seen = raw_seq(raw);
    let r = psd_to_float_array(img, raw, mode);
    assert(read_float_as(r, psd_read_float(img@, seen, mode)));
    r
}

/// Reads a PSD file as gray in normalised samples.
pub fn psd_gray32_decode(img: &[u8]) -> (r: Result<PixelBuffer<u32>, PixelError>)
    ensures
        exists|raw: Option<Seq<u8>>| read_float_as(r, #[trigger] psd_read_float(img@, raw, 0)),
{
    psd_open_float(img, 0)
}

/// Reads a PSD file as RGB in normalised samples.
pub fn psd_rgb32_decode(img: &[u8]) -> (r: Result<PixelBuffer<u32>, PixelError>)
    ensures
        exists|raw: Option<Seq<u8>>| read_float_as(r, #[trigger] psd_read_float(img@, raw, 1)),
{
    psd_open_float(img, 1)
}

/// Reads a PSD file in the layout of the file, in normalised samples.
pub fn psd_din32_decode(img: &[u8]) -> (r: Result<PixelBuffer<u32>, PixelError>)
    ensures
        exists|raw: Option<Seq<u8>>| read_float_as(r, #[trigger] psd_read_float(img@, raw, 2)),
{
    psd_open_float(img, 2)
}

/// Whether an outcome is one that reading a raster file into normalised
/// samples can have: the eight-bit reading, normalised.
pub open spec fn raster_float_outcome(r: Result<PixelBuffer<u32>, PixelError>, mode: u8) -> bool {
    (r is Err && r->Err_0 == PixelError::Decode) || exists|
        raw: Seq<u8>,
        height: nat,
        width: nat,
    |
        raster_fits(raw, height, width, mode) && read_float_as(
            r,
            normalised_read(#[trigger] raster_read(raw, height, width, mode)),
        )
}

/// Whether an outcome is one that reading a file of the given family into
/// normalised samples in the given mode can have: for a PSD what
/// `psd_read_float` gives, for everything else the eight-bit reading,
/// normalised.
pub open spec fn read_float_outcome(
    r: Result<PixelBuffer<u32>, PixelError>,
    bytes: Seq<u8>,
    family: Container,
    mode: u8,
) -> bool {
    match family {
        Container::Psd => exists|raw: Option<Seq<u8>>|
            read_float_as(r, #[trigger] psd_read_float(bytes, raw, psd_mode(mode))),
        Container::JpegBare => read_float_as(
            r,
            normalised_read(
                jpeg_outcome(jpeg_decoded(bytes, gray_or_rgb(mode)), gray_or_rgb(mode)),
            ),
        ),
        _ => raster_float_outcome(r, gray_or_rgb(mode)),
    }
}

/// Reads a raster file as gray in normalised samples with the generic
/// decoder.
pub fn gray_img_openf32(bytes: &[u8]) -> (r: Result<PixelBuffer<u32>, PixelError>)
    ensures
        raster_float_outcome(r, 0),
        r is Err ==> r->Err_0 == PixelError::Decode,
{
    let read = gray_img_open(bytes);
    normalise(read)
}

/// Reads a raster file as RGB in normalised samples with the generic
/// decoder.
pub fn rgb_img_openf32(bytes: &[u8]) -> (r: Result<PixelBuffer<u32>, PixelError>)
    ensures
        raster_float_outcome(r, 1),
        r is Err ==> r->Err_0 == PixelError::Decode,
{
    let read = rgb_img_open(bytes);
    normalise(read)
}

/// Reads a JPEG as gray in normalised samples with the JPEG decoder.
pub fn jpg_gray_img_openf32(file: &[u8]) -> (r: Result<PixelBuffer<u32>, PixelError>)
    ensures
        read_float_as(r, normalised_read(jpeg_outcome(jpeg_luma(file@), 0))),
{
    let read = jpg_gray_img_open(file);
    normalise(read)
}

/// Reads a JPEG as RGB in normalised samples with the JPEG decoder.
pub fn jpg_rgb_img_openf32(file: &[u8]) -> (r: Result<PixelBuffer<u32>, PixelError>)
    ensures
        read_float_as(r, normalised_read(jpeg_outcome(jpeg_rgb(file@), 1))),
{
    let read = jpg_rgb_img_open(file);
    normalise(read)
}

/// Reads a file into normalised samples. The leading bytes pick the reader
/// as for eight-bit samples; a file whose family cannot be told is refused.
pub fn all_read_f32(img: &[u8], mode: u8) -> (r: Result<PixelBuffer<u32>, PixelError>)
    ensures
        match container_of(img@) {
            Err(e) => r is Err && r->Err_0 == e,
            Ok(family) => read_float_outcome(r, img@, family, mode),
        },
{
    let family = match sniff_format(img) {
        Ok(f) => f,
        Err(e) => {
            return Err(e);
        },
    };
    match family {
        Container::JpegTagged | Container::Raster => {
            if mode == 0 {
                gray_img_openf32(img)
            } else {
                rgb_img_openf32(img)
            }
        },
        Container::JpegBare => {
            if mode == 0 {
                jpg_gray_img_openf32(img)
            } else {
                jpg_rgb_img_openf32(img)
            }
        },
        Container::Psd => {
            if mode == 0 {
                psd_gray32_decode(img)
            } else if mode == 1 {
                psd_rgb32_decode(img)
            } else {
                psd_din32_decode(img)
            }
        },
    }
}

} // verus!
