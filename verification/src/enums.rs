//! The closed sets of options that select a decoder branch, a colour
//! conversion, a dot shape, a noise source or a resampling kernel.

use vstd::prelude::*;

verus! {

/// Channel layout requested from a decoder.
#[derive(Clone, Copy, Debug, PartialEq, Eq, Structural)]
pub enum ImgColor {
    GRAY,
    AGRAY,
    RGB,
    RGBA,
    /// Whatever the source format naturally decodes to.
    DYNAMIC,
}

/// Sample format requested from a decoder.
#[derive(Clone, Copy, Debug, PartialEq, Eq, Structural)]
pub enum ImgFormat {
    U8,
    F32,
    U16,
    /// Preserve the bit depth of the source.
    DYNAMIC,
}

/// Gradient-noise generators.
#[derive(Clone, Copy, Debug, PartialEq, Eq, Structural)]
pub enum TypeNoise {
    PERLIN,
    SIMPLEX,
    OPENSIMPLEX,
    SUPERSIMPLEX,
    PERLINSURFLET,
}

/// Colour-space conversions.
#[derive(Clone, Copy, Debug, PartialEq, Eq, Structural)]
pub enum CvtType {
    /// Gray from RGB with the NTSC weights.
    RGB2Gray,
    RGB2GrayAverage,
    RGB2GrayBt709,
    RGB2GrayBt2020,
    RGB2CMYK,
    CMYK2RGB,
    /// BT.601.
    RGB2YCbCr,
    /// BT.601.
    YCbCr2RGB,
    RGB2YCvCrBt2020,
    YCvCr2RGBBt2020,
    RGB2YCvCrBt709,
    YCvCr2RGBBt709,
    RGB2BGR,
    BGR2RGB,
    GRAY2RGB,
    RGB2Luma,
}

/// Halftone dot shapes.
#[derive(Clone, Copy, Debug, PartialEq, Eq, Structural)]
pub enum TypeDot {
    CIRCLE,
    CROSS,
    ELLIPSE,
    LINE,
    INVLINE,
}

/// Resampling kernels.
#[derive(Clone, Copy, Debug, PartialEq, Eq, Structural)]
pub enum ResizeFilters {
    Nearest,
    Box,
    Bilinear,
    Gaussian,
    CatmullRom,
    Lanczos3,
    Hamming,
    Mitchell,
}

} // verus!
