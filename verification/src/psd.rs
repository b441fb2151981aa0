//! Reading PSD images: the fixed header, and the projection of the raw
//! interleaved samples onto the requested channel layout. The payload is
//! decoded by the PSD decoder.
//!
//! Header layout: channel count in byte 13, height and width as big-endian
//! 32-bit fields in bytes 14..18 and 18..22, bits per channel in byte 23,
//! colour mode in byte 25.

use vstd::prelude::*;
use vstd::slice::{slice_subrange, slice_to_vec};
use crate::buffer::{ArrayDType, ArrayView, PixelBuffer, Raster};
use crate::byte_decode::{be32, read_u32};
use crate::enums::ImgColor;
use crate::errors::PixelError;
use crate::format_convert::{
    be16_samples,
    be16_to_vec,
    vec_to_be16,
    gray16u8_to_rgb16,
    gray16u8_to_rgba16,
    gray8_to_rgb8,
    gray8_to_rgba8,
    gray_to_rgb_seq,
    gray_to_rgba_seq,
    rgb16_luma_seq,
    rgb16u8_to_agray16,
    rgb16u8_to_gray16,
    rgb8_luma_seq,
    rgb8_to_agray8,
    rgb8_to_gray8,
    rgb_to_rgba_seq,
    with_alpha_seq,
};

verus! {

/// Length of the fixed part of a PSD header that this module reads.
pub const PSD_HEADER_LEN: usize = 26;

/// The fields of a PSD header that decide the shape of the image.
#[derive(Clone, Copy, Debug, PartialEq, Eq, Structural)]
pub struct PsdHeader {
    pub channels: u8,
    pub height: u32,
    pub width: u32,
    /// Bits per channel.
    pub depth: u8,
    /// `1` for grayscale.
    pub color_mode: u8,
}

/// The header fields of a file of at least `PSD_HEADER_LEN` bytes.
pub open spec fn psd_header(bytes: Seq<u8>) -> PsdHeader {
    PsdHeader {
        channels: bytes[13],
        height: be32(bytes[14], bytes[15], bytes[16], bytes[17]) as u32,
        width: be32(bytes[18], bytes[19], bytes[20], bytes[21]) as u32,
        depth: bytes[23],
        color_mode: bytes[25],
    }
}

/// Reads the header fields; fails when the file is too short to hold them.
pub fn read_psd_header(bytes: &[u8]) -> (r: Result<PsdHeader, PixelError>)
    ensures
        r is Ok <==> bytes@.len() >= PSD_HEADER_LEN,
        r is Ok ==> r->Ok_0 == psd_header(bytes@),
        r is Err ==> r == Err::<PsdHeader, PixelError>(PixelError::Decode),
{
    if bytes.len() < PSD_HEADER_LEN {
        return Err(PixelError::Decode);
    }
    let height: u32 = read_u32(slice_subrange(bytes, 14, 18));
    let width: u32 = read_u32(slice_subrange(bytes, 18, 22));
    Ok(PsdHeader { channels: bytes[13], height, width, depth: bytes[23], color_mode: bytes[25] })
}

/// Height and width from the eight size bytes of a header: two big-endian
/// 32-bit fields.
pub open spec fn psd_size(bytes: Seq<u8>) -> (int, int) {
    (
        be32(bytes[0], bytes[1], bytes[2], bytes[3]),
        be32(bytes[4], bytes[5], bytes[6], bytes[7]),
    )
}

/// Reads height and width from the eight size bytes of a header.
pub fn decode_size_psd(bytes: &[u8]) -> (size: (u32, u32))
    requires
        bytes@.len() >= 8,
    ensures
        size.0 == psd_size(bytes@).0,
        size.1 == psd_size(bytes@).1,
{
    let height: u32 = read_u32(slice_subrange(bytes, 0, 4));
    let width: u32 = read_u32(slice_subrange(bytes, 4, 8));
    (height, width)
}

/// Whether a source of `channels` channels can be projected onto `color`:
/// the natural layout always, any other from gray or RGB only.
pub open spec fn psd_reachable(channels: nat, color: ImgColor) -> bool {
    color == ImgColor::DYNAMIC || channels == 1 || channels == 3
}

/// Bytes that make one group the projection works on: a sample, or an RGB
/// triple where luma or alpha is computed per pixel.
pub open spec fn psd_group(channels: nat, sixteen: bool, color: ImgColor) -> nat {
    let per_sample: nat = if sixteen {
        2
    } else {
        1
    };
    if channels != 1 && (color == ImgColor::RGBA || color == ImgColor::GRAY || color
        == ImgColor::AGRAY) {
        3 * per_sample
    } else {
        per_sample
    }
}

/// The channel axis of the projected image: `None` for rank two.
pub open spec fn psd_axis(channels: nat, color: ImgColor) -> Option<nat> {
    match color {
        ImgColor::DYNAMIC => if channels == 1 {
            None
        } else {
            Some(channels)
        },
        ImgColor::RGB => Some(3),
        ImgColor::RGBA => Some(4),
        ImgColor::GRAY => None,
        ImgColor::AGRAY => Some(2),
    }
}

/// The samples of the projected image: gray is replicated into RGB, luma is
/// taken of RGB, and an added alpha channel is full.
pub open spec fn psd_project<T>(
    samples: Seq<T>,
    luma: Seq<T>,
    full: T,
    channels: nat,
    color: ImgColor,
) -> Seq<T> {
    match color {
        ImgColor::DYNAMIC => samples,
        ImgColor::RGB => if channels == 1 {
            gray_to_rgb_seq(samples)
        } else {
            samples
        },
        ImgColor::RGBA => if channels == 1 {
            gray_to_rgba_seq(samples, full)
        } else {
            rgb_to_rgba_seq(samples, full)
        },
        ImgColor::GRAY => if channels == 1 {
            samples
        } else {
            luma
        },
        ImgColor::AGRAY => if channels == 1 {
            with_alpha_seq(samples, full)
        } else {
            with_alpha_seq(luma, full)
        },
    }
}

/// The image of the given shape over `samples`, when they fill it.
pub open spec fn shaped<T>(samples: Seq<T>, height: nat, width: nat, axis: Option<nat>) -> Option<
    Raster<T>,
> {
    let img = Raster { samples, height, width, channels: axis };
    if img.wf() {
        Some(img)
    } else {
        None
    }
}

/// The image that raw interleaved PSD samples make when projected onto
/// `color`. Sixteen-bit samples are read as big-endian pairs when
/// `format_type` is 16; every other value means eight-bit samples.
pub open spec fn psd_to_dtype(
    px: Seq<u8>,
    channels: nat,
    format_type: u8,
    height: nat,
    width: nat,
    color: ImgColor,
) -> Result<ArrayView, PixelError> {
    let sixteen = format_type == 16;
    let axis = psd_axis(channels, color);
    if !psd_reachable(channels, color) {
        Err(PixelError::UnsupportedConversion)
    } else if px.len() % psd_group(channels, sixteen, color) != 0 {
        Err(PixelError::ShapeMismatch)
    } else if sixteen {
        let wide = be16_samples(px);
        match shaped(
            psd_project(wide, rgb16_luma_seq(wide), u16::MAX, channels, color),
            height,
            width,
            axis,
        ) {
            Some(img) => Ok(ArrayView::U16(img)),
            None => Err(PixelError::ShapeMismatch),
        }
    } else {
        match shaped(
            psd_project(px, rgb8_luma_seq(px), u8::MAX, channels, color),
            height,
            width,
            axis,
        ) {
            Some(img) => Ok(ArrayView::U8(img)),
            None => Err(PixelError::ShapeMismatch),
        }
    }
}

/// Each sample followed by `alpha`.
fn gray_to_agray<T: Copy>(gray: &[T], alpha: T) -> (out: Vec<T>)
    ensures
        out@ == with_alpha_seq(gray@, alpha),
{
    let mut out: Vec<T> = Vec::new();
    let mut i: usize = 0;
    while i < gray.len()
        invariant
            i <= gray@.len(),
            out@.len() == 2 * i,
            forall|k: int| 0 <= k < 2 * i ==> out@[k] == with_alpha_seq(gray@, alpha)[k],
        decreases gray@.len() - i,
    {
        out.push(gray[i]);
        out.push(alpha);
        i += 1;
    }
    out
}

/// Each RGB triple followed by `alpha`.
fn rgb_to_rgba<T: Copy>(rgb: &[T], alpha: T) -> (out: Vec<T>)
    requires
        rgb@.len() % 3 == 0,
    ensures
        out@ == rgb_to_rgba_seq(rgb@, alpha),
{
    let n: usize = rgb.len() / 3;
    let mut out: Vec<T> = Vec::new();
    let mut i: usize = 0;
    while i < n
        invariant
            3 * n == rgb@.len() <= usize::MAX,
            i <= n,
            out@.len() == 4 * i,
            forall|k: int| 0 <= k < 4 * i ==> out@[k] == rgb_to_rgba_seq(rgb@, alpha)[k],
        decreases n - i,
    {
        out.push(rgb[3 * i]);
        out.push(rgb[3 * i + 1]);
        out.push(rgb[3 * i + 2]);
        out.push(alpha);
        i += 1;
    }
    out
}

/// Gives samples the shape `height * width` with the channel axis `axis`.
fn shape_samples<T>(samples: Vec<T>, height: u32, width: u32, axis: Option<usize>) -> (r: Result<
    PixelBuffer<T>,
    PixelError,
>)
    ensures
        match shaped(
            samples@,
            height as nat,
            width as nat,
            crate::buffer::channels_view(axis),
        ) {
            Some(img) => r is Ok && r->Ok_0@ == img && r->Ok_0.wf(),
            None => r == Err::<PixelBuffer<T>, PixelError>(PixelError::ShapeMismatch),
        },
{
    match axis {
        Some(c) => {
            PixelBuffer::from_shape_vec3(height as usize, width as usize, c, samples)
        },
        None => {
            assert(height * width * 1 == height * width) by (nonlinear_arith);
            PixelBuffer::from_shape_vec2(height as usize, width as usize, samples)
        },
    }
}

/// Projects raw interleaved PSD samples onto `color`.
fn psd_convert(
    px: &[u8],
    channels: usize,
    format_type: u8,
    height: u32,
    width: u32,
    color: ImgColor,
) -> (r: Result<ArrayDType, PixelError>)
    ensures
        match r {
            Ok(a) => a.wf() && psd_to_dtype(
                px@,
                channels as nat,
                format_type,
                height as nat,
                width as nat,
                color,
            ) == Ok::<ArrayView, PixelError>(a@),
            Err(e) => psd_to_dtype(
                px@,
                channels as nat,
                format_type,
                height as nat,
                width as nat,
                color,
            ) == Err::<ArrayView, PixelError>(e),
        },
{
    let gray: bool = channels == 1;
    let natural: bool = match color {
        ImgColor::DYNAMIC => true,
        _ => false,
    };
    if !natural && !gray && channels != 3 {
        return Err(PixelError::UnsupportedConversion);
    }
    let sixteen: bool = format_type == 16;
    let triples: bool = !gray && match color {
        ImgColor::RGBA | ImgColor::GRAY | ImgColor::AGRAY => true,
        _ => false,
    };
    let per_sample: usize = if sixteen { 2 } else { 1 };
    let group: usize = if triples { 3 * per_sample } else { per_sample };
    if px.len() % group != 0 {
        return Err(PixelError::ShapeMismatch);
    }
    let axis: Option<usize> = match color {
        ImgColor::DYNAMIC => if gray { None } else { Some(channels) },
        ImgColor::RGB => Some(3),
        ImgColor::RGBA => Some(4),
        ImgColor::GRAY => None,
        ImgColor::AGRAY => Some(2),
    };
    if sixteen {
        let samples: Vec<u16> = match color {
            ImgColor::DYNAMIC => be16_to_vec(px),
            ImgColor::RGB => if gray { gray16u8_to_rgb16(px) } else { be16_to_vec(px) },
            ImgColor::RGBA => if gray {
                gray16u8_to_rgba16(px)
            } else {
                let wide = be16_to_vec(px);
                rgb_to_rgba(wide.as_slice(), u16::MAX)
            },
            ImgColor::GRAY => if gray { be16_to_vec(px) } else { rgb16u8_to_gray16(px) },
            ImgColor::AGRAY => if gray {
                let wide = be16_to_vec(px);
                gray_to_agray(wide.as_slice(), u16::MAX)
            } else {
                rgb16u8_to_agray16(px)
            },
        };
        match shape_samples(samples, height, width, axis) {
            Ok(b) => Ok(ArrayDType::U16(b)),
            Err(e) => Err(e),
        }
    } else {
        let samples: Vec<u8> = match color {
            ImgColor::DYNAMIC => slice_to_vec(px),
            ImgColor::RGB => if gray { gray8_to_rgb8(px) } else { slice_to_vec(px) },
            ImgColor::RGBA => if gray { gray8_to_rgba8(px) } else { rgb_to_rgba(px, u8::MAX) },
            ImgColor::GRAY => if gray { slice_to_vec(px) } else { rgb8_to_gray8(px) },
            ImgColor::AGRAY => if gray {
                gray_to_agray(px, u8::MAX)
            } else {
                rgb8_to_agray8(px)
            },
        };
        match shape_samples(samples, height, width, axis) {
            Ok(b) => Ok(ArrayDType::U8(b)),
            Err(e) => Err(e),
        }
    }
}

/// Raw PSD samples in their natural layout: rank two for one channel, a
/// channel axis otherwise.
pub fn psd_dynamic2dtype(px: &[u8], channels: usize, format_type: &u8, height: u32, width: u32) -> (r:
    Result<ArrayDType, PixelError>)
    ensures
        match r {
            Ok(a) => a.wf() && psd_to_dtype(
                px@,
                channels as nat,
                *format_type,
                height as nat,
                width as nat,
                ImgColor::DYNAMIC,
            ) == Ok::<ArrayView, PixelError>(a@),
            Err(e) => psd_to_dtype(
                px@,
                channels as nat,
                *format_type,
                height as nat,
                width as nat,
                ImgColor::DYNAMIC,
            ) == Err::<ArrayView, PixelError>(e),
        },
{
    psd_convert(px, channels, *format_type, height, width, ImgColor::DYNAMIC)
}

/// Raw PSD samples as RGB: gray is written to all three channels.
pub fn psd_rgb2dtype(px: &[u8], channels: usize, format_type: &u8, height: u32, width: u32) -> (r:
    Result<ArrayDType, PixelError>)
    ensures
        match r {
            Ok(a) => a.wf() && psd_to_dtype(
                px@,
                channels as nat,
                *format_type,
                height as nat,
                width as nat,
                ImgColor::RGB,
            ) == Ok::<ArrayView, PixelError>(a@),
            Err(e) => psd_to_dtype(
                px@,
                channels as nat,
                *format_type,
                height as nat,
                width as nat,
                ImgColor::RGB,
            ) == Err::<ArrayView, PixelError>(e),
        },
{
    psd_convert(px, channels, *format_type, height, width, ImgColor::RGB)
}

/// Raw PSD samples as RGBA: gray is written to the three colour channels,
/// and alpha is full.
pub fn psd_rgba2dtype(px: &[u8], channels: usize, format_type: &u8, height: u32, width: u32) -> (r:
    Result<ArrayDType, PixelError>)
    ensures
        match r {
            Ok(a) => a.wf() && psd_to_dtype(
                px@,
                channels as nat,
                *format_type,
                height as nat,
                width as nat,
                ImgColor::RGBA,
            ) == Ok::<ArrayView, PixelError>(a@),
            Err(e) => psd_to_dtype(
                px@,
                channels as nat,
                *format_type,
                height as nat,
                width as nat,
                ImgColor::RGBA,
            ) == Err::<ArrayView, PixelError>(e),
        },
{
    psd_convert(px, channels, *format_type, height, width, ImgColor::RGBA)
}

/// Raw PSD samples as gray: RGB is reduced to its BT.709 luma.
pub fn psd_luma2dtype(px: &[u8], channels: usize, format_type: &u8, height: u32, width: u32) -> (r:
    Result<ArrayDType, PixelError>)
    ensures
        match r {
            Ok(a) => a.wf() && psd_to_dtype(
                px@,
                channels as nat,
                *format_type,
                height as nat,
                width as nat,
                ImgColor::GRAY,
            ) == Ok::<ArrayView, PixelError>(a@),
            Err(e) => psd_to_dtype(
                px@,
                channels as nat,
                *format_type,
                height as nat,
                width as nat,
                ImgColor::GRAY,
            ) == Err::<ArrayView, PixelError>(e),
        },
{
    psd_convert(px, channels, *format_type, height, width, ImgColor::GRAY)
}

/// Raw PSD samples as gray with alpha: RGB is reduced to its BT.709 luma,
/// and alpha is full.
pub fn psd_aluma2dtype(px: &[u8], channels: usize, format_type: &u8, height: u32, width: u32) -> (r:
    Result<ArrayDType, PixelError>)
    ensures
        match r {
            Ok(a) => a.wf() && psd_to_dtype(
                px@,
                channels as nat,
                *format_type,
                height as nat,
                width as nat,
                ImgColor::AGRAY,
            ) == Ok::<ArrayView, PixelError>(a@),
            Err(e) => psd_to_dtype(
                px@,
                channels as nat,
                *format_type,
                height as nat,
                width as nat,
                ImgColor::AGRAY,
            ) == Err::<ArrayView, PixelError>(e),
        },
{
    psd_convert(px, channels, *format_type, height, width, ImgColor::AGRAY)
}

/// The error type of the PSD decoder.
#[verifier::external_type_specification]
#[verifier::external_body]
pub struct ExPsdDecodeErrors(zune_psd::errors::PSDDecodeErrors);

/// Runs `zune_psd::PSDDecoder::decode_raw` on a decoder that `PSDDecoder::new`
/// makes over the bytes of a file, and hands out the raw bytes together with
/// the sixteen-bit values that `u16::from_ne_bytes` reads from their pairs:
/// the decoder writes sixteen-bit samples in the byte order of the machine.
/// Nothing is claimed of the outcome.
#[verifier::external_body]
fn psd_decode_raw(bytes: &[u8]) -> (r: Result<(Vec<u8>, Vec<u16>), zune_psd::errors::PSDDecodeErrors>) {
    let raw = zune_psd::PSDDecoder::new(bytes).decode_raw()?;
    let words = raw.chunks_exact(2).map(|pair| u16::from_ne_bytes([pair[0], pair[1]])).collect();
    Ok((raw, words))
}

/// The raw samples that the payload decoder makes of a PSD file, or `None`
/// where it refuses the file: bytes for eight-bit samples, big-endian pairs
/// for sixteen-bit ones. The decoder decides what they are.
pub(crate) fn psd_raw_samples(bytes: &[u8]) -> (raw: Option<Vec<u8>>)
    requires
        bytes@.len() >= PSD_HEADER_LEN,
{
    match psd_decode_raw(bytes) {
        Ok((raw, words)) => {
            if bytes[23] == 16 {
                Some(vec_to_be16(words.as_slice()))
            } else {
                Some(raw)
            }
        },
        Err(_) => None,
    }
}

/// The number of interleaved channels in the raw samples of a file: one for
/// a grayscale file, whatever its header counts, and the count of the header
/// otherwise.
pub open spec fn psd_channels(header: PsdHeader) -> nat {
    if header.color_mode == 1 {
        1
    } else {
        header.channels as nat
    }
}

/// What a PSD file decodes to, given the raw samples that the payload
/// decoder made of it, or `None` where that decoder failed. Sixteen-bit
/// samples stand in the raw bytes as big-endian pairs.
pub open spec fn psd_image(bytes: Seq<u8>, raw: Option<Seq<u8>>, color: ImgColor) -> Result<
    ArrayView,
    PixelError,
> {
    if bytes.len() < PSD_HEADER_LEN {
        Err(PixelError::Decode)
    } else {
        match raw {
            None => Err(PixelError::Decode),
            Some(px) => {
                let header = psd_header(bytes);
                psd_to_dtype(
                    px,
                    psd_channels(header),
                    header.depth,
                    header.height as nat,
                    header.width as nat,
                    color,
                )
            },
        }
    }
}

/// Whether an outcome is the one a specification asks for.
pub open spec fn decoded_as(r: Result<ArrayDType, PixelError>, expected: Result<
    ArrayView,
    PixelError,
>) -> bool {
    match r {
        Ok(a) => a.wf() && expected == Ok::<ArrayView, PixelError>(a@),
        Err(e) => expected == Err::<ArrayView, PixelError>(e),
    }
}

/// The raw samples as a mathematical value.
pub open spec fn raw_view(raw: Option<Vec<u8>>) -> Option<Seq<u8>> {
    match raw {
        Some(px) => Some(px@),
        None => None,
    }
}

/// Builds the image of a PSD file from its header and the raw samples that
/// the payload decoder made, projected onto `color_mode`.
pub fn psd_from_raw(bytes: &[u8], raw: Option<Vec<u8>>, color_mode: ImgColor) -> (r: Result<
    ArrayDType,
    PixelError,
>)
    ensures
        decoded_as(r, psd_image(bytes@, raw_view(raw), color_mode)),
{
    let header = match read_psd_header(bytes) {
        Ok(h) => h,
        Err(e) => {
            return Err(e);
        },
    };
    let px = match raw {
        Some(px) => px,
        None => {
            return Err(PixelError::Decode);
        },
    };
    let channels: usize = if header.color_mode == 1 {
        1
    } else {
        header.channels as usize
    };
    let format_type: u8 = header.depth;
    match color_mode {
        ImgColor::DYNAMIC => psd_dynamic2dtype(
            px.as_slice(),
            channels,
            &format_type,
            header.height,
            header.width,
        ),
        ImgColor::RGB => psd_rgb2dtype(
            px.as_slice(),
            channels,
            &format_type,
            header.height,
            header.width,
        ),
        ImgColor::RGBA => psd_rgba2dtype(
            px.as_slice(),
            channels,
            &format_type,
            header.height,
            header.width,
        ),
        ImgColor::GRAY => psd_luma2dtype(
            px.as_slice(),
            channels,
            &format_type,
            header.height,
            header.width,
        ),
        ImgColor::AGRAY => psd_aluma2dtype(
            px.as_slice(),
            channels,
            &format_type,
            header.height,
            header.width,
        ),
    }
}

/// Decodes a PSD file into the requested channel layout. The payload goes
/// through the PSD decoder; whatever samples it makes, the image is the one
/// `psd_image` gives for them, and a payload it refuses is a decode error.
pub fn psd_decode(bytes: &[u8], color_mode: ImgColor) -> (r: Result<ArrayDType, PixelError>)
    ensures
        exists|raw: Option<Seq<u8>>| decoded_as(r, #[trigger] psd_image(bytes@, raw, color_mode)),
        bytes@.len() < PSD_HEADER_LEN ==> r is Err && r->Err_0 == PixelError::Decode,
{
    if bytes.len() < PSD_HEADER_LEN {
        assert(decoded_as(
            Err::<ArrayDType, PixelError>(PixelError::Decode),
            psd_image(bytes@, None, color_mode),
        ));
        return Err(PixelError::Decode);
    }
    let raw: Option<Vec<u8>> = psd_raw_samples(bytes);
    let ghost seen = raw_view(raw);
    let r = psd_from_raw(bytes, raw, color_mode);
    assert(decoded_as(r, psd_image(bytes@, seen, color_mode)));
    r
}

} // verus!
