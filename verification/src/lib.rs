//! Pixel-buffer toolkit: sample codecs, PSD and raster decoding, colour
//! conversion, tone levels, halftone screens, tiling and resizing, with
//! machine-checked contracts.
//!
//! Normalised samples are handled as IEEE-754 binary32 bit patterns, and
//! their arithmetic is done in integers, exactly as the format prescribes.

pub mod arithmetic32;
pub mod binary32;
pub mod buffer;
pub mod byte_decode;
pub mod color_levels;
pub mod convert;
pub mod crop;
pub mod cvt_color;
pub mod cvt_color_float;
pub mod cvt_constants;
pub mod decode;
pub mod enums;
pub mod errors;
pub mod format_convert;
pub mod halftone;
pub mod psd;
pub mod reader;
pub mod resize;
pub mod sample_codec;
pub mod save;
pub mod tiles;
pub mod tolerance;
