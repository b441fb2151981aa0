//! Preparing a sample array for an encoder: from its shape, the pixel layout
//! and the dimensions of the image to write, and the samples that fill it.

use vstd::prelude::*;
use vstd::slice::slice_subrange;
use crate::buffer::{ArrayDType, ArrayView, Raster};
use crate::enums::ImgColor;
use crate::errors::PixelError;
use crate::binary32::unit_to_byte;
use crate::format_convert::f32_to_u8;

verus! {

/// An image ready for an encoder: interleaved samples, row by row.
pub struct Canvas<T> {
    /// `GRAY`, `AGRAY`, `RGB` or `RGBA`.
    pub layout: ImgColor,
    pub width: u32,
    pub height: u32,
    pub samples: Vec<T>,
}

/// The mathematical content of a canvas.
pub struct CanvasView<T> {
    pub layout: ImgColor,
    pub width: nat,
    pub height: nat,
    pub samples: Seq<T>,
}

impl<T> View for Canvas<T> {
    type V = CanvasView<T>;

    open spec fn view(&self) -> CanvasView<T> {
        CanvasView {
            layout: self.layout,
            width: self.width as nat,
            height: self.height as nat,
            samples: self.samples@,
        }
    }
}

/// Samples per pixel of a layout.
pub open spec fn layout_channels(layout: ImgColor) -> nat {
    match layout {
        ImgColor::GRAY | ImgColor::DYNAMIC => 1,
        ImgColor::AGRAY => 2,
        ImgColor::RGB => 3,
        ImgColor::RGBA => 4,
    }
}

/// The pixel layout that a shape stands for: gray for rank two, and for rank
/// three by the length of the channel axis. Layouts with alpha are known
/// only where `with_alpha` is set.
pub open spec fn shape_layout(shape: Seq<usize>, with_alpha: bool) -> Option<ImgColor> {
    if shape.len() == 2 {
        Some(ImgColor::GRAY)
    } else if shape.len() == 3 {
        if shape[2] == 1 {
            Some(ImgColor::GRAY)
        } else if shape[2] == 3 {
            Some(ImgColor::RGB)
        } else if shape[2] == 2 && with_alpha {
            Some(ImgColor::AGRAY)
        } else if shape[2] == 4 && with_alpha {
            Some(ImgColor::RGBA)
        } else {
            None
        }
    } else {
        None
    }
}

/// The canvas for samples of a shape: refused when the shape stands for no
/// layout, when a side does not fit in 32 bits, or when there are fewer
/// samples than the shape holds. Samples beyond the shape are left out.
pub open spec fn canvas_of<T>(samples: Seq<T>, shape: Seq<usize>, with_alpha: bool) -> Option<
    CanvasView<T>,
> {
    match shape_layout(shape, with_alpha) {
        None => None,
        Some(layout) => {
            let count = shape[0] * shape[1] * layout_channels(layout);
            if shape[0] <= u32::MAX && shape[1] <= u32::MAX && count <= samples.len() {
                Some(
                    CanvasView {
                        layout,
                        width: shape[1] as nat,
                        height: shape[0] as nat,
                        samples: samples.take(count),
                    },
                )
            } else {
                None
            }
        },
    }
}

/// Whether an outcome is the canvas a specification asks for.
pub open spec fn canvas_is<T>(r: Result<Canvas<T>, PixelError>, expected: Option<CanvasView<T>>)
    -> bool {
    match expected {
        Some(c) => r is Ok && r->Ok_0@ == c,
        None => r == Err::<Canvas<T>, PixelError>(PixelError::ShapeMismatch),
    }
}

/// Lays samples out for an encoder.
fn lay_out<T: Copy>(vec_img: &[T], shape: &[usize], with_alpha: bool) -> (r: Result<
    Canvas<T>,
    PixelError,
>)
    ensures
        canvas_is(r, canvas_of(vec_img@, shape@, with_alpha)),
{
    let layout: ImgColor = if shape.len() == 2 {
        ImgColor::GRAY
    } else if shape.len() == 3 {
        let c: usize = shape[2];
        if c == 1 {
            ImgColor::GRAY
        } else if c == 3 {
            ImgColor::RGB
        } else if c == 2 && with_alpha {
            ImgColor::AGRAY
        } else if c == 4 && with_alpha {
            ImgColor::RGBA
        } else {
            return Err(PixelError::ShapeMismatch);
        }
    } else {
        return Err(PixelError::ShapeMismatch);
    };
    let channels: usize = match layout {
        ImgColor::GRAY | ImgColor::DYNAMIC => 1,
        ImgColor::AGRAY => 2,
        ImgColor::RGB => 3,
        ImgColor::RGBA => 4,
    };
    let height: usize = shape[0];
    let width: usize = shape[1];
    if height > u32::MAX as usize || width > u32::MAX as usize {
        return Err(PixelError::ShapeMismatch);
    }
    let len: usize = vec_img.len();
    let count: usize = match height.checked_mul(width) {
        Some(pixels) => match pixels.checked_mul(channels) {
            Some(count) => count,
            None => {
                return Err(PixelError::ShapeMismatch);
            },
        },
        None => {
            assert(height * width * channels >= height * width) by (nonlinear_arith)
                requires
                    channels >= 1,
                    height * width >= 0,
            ;
            return Err(PixelError::ShapeMismatch);
        },
    };
    if count > len {
        return Err(PixelError::ShapeMismatch);
    }
    let samples: Vec<T> = vstd::slice::slice_to_vec(slice_subrange(vec_img, 0, count));
    assert(samples@ =~= vec_img@.take(count as int));
    Ok(Canvas { layout, width: width as u32, height: height as u32, samples })
}

/// Lays eight-bit samples out as a gray or RGB image.
pub fn save_img_vec(vec_img: &[u8], shape: &[usize]) -> (r: Result<Canvas<u8>, PixelError>)
    ensures
        canvas_is(r, canvas_of(vec_img@, shape@, false)),
{
    lay_out(vec_img, shape, false)
}

/// Lays eight-bit samples out as a gray, gray-alpha, RGB or RGBA image.
pub fn vec_shape_save(vec_img: &[u8], shape: Vec<usize>) -> (r: Result<Canvas<u8>, PixelError>)
    ensures
        canvas_is(r, canvas_of(vec_img@, shape@, true)),
{
    lay_out(vec_img, shape.as_slice(), true)
}

/// Lays sixteen-bit samples out as a gray, gray-alpha, RGB or RGBA image.
pub fn vec_shape_saveu16(vec_img: &[u16], shape: Vec<usize>) -> (r: Result<Canvas<u16>, PixelError>)
    ensures
        canvas_is(r, canvas_of(vec_img@, shape@, true)),
{
    lay_out(vec_img, shape.as_slice(), true)
}

/// A canvas with its sample type.
pub enum CanvasDType {
    U8(Canvas<u8>),
    U16(Canvas<u16>),
}

/// The shape of a buffer as the lengths of its axes.
pub open spec fn raster_shape<T>(img: Raster<T>) -> Seq<usize> {
    img.shape().map_values(|d: nat| d as usize)
}

/// Lays a decoded image out for an encoder. Integer samples keep their type;
/// normalised samples are written in eight bits.
pub fn save_img_ndarray(vec_img: ArrayDType) -> (r: Result<CanvasDType, PixelError>)
    ensures
        match vec_img@ {
            ArrayView::F32(img) => match canvas_of(
                img.samples.map_values(|x: u32| unit_to_byte(x)),
                raster_shape(img),
                true,
            ) {
                Some(c) => r is Ok && r->Ok_0 is U8 && r->Ok_0->U8_0@ == c,
                None => r is Err && r->Err_0 == PixelError::ShapeMismatch,
            },
            ArrayView::U8(img) => match canvas_of(img.samples, raster_shape(img), true) {
                Some(c) => r is Ok && r->Ok_0 is U8 && r->Ok_0->U8_0@ == c,
                None => r is Err && r->Err_0 == PixelError::ShapeMismatch,
            },
            ArrayView::U16(img) => match canvas_of(img.samples, raster_shape(img), true) {
                Some(c) => r is Ok && r->Ok_0 is U16 && r->Ok_0->U16_0@ == c,
                None => r is Err && r->Err_0 == PixelError::ShapeMismatch,
            },
        },
{
    match vec_img {
        ArrayDType::F32(value) => {
            let img_shape = value.shape();
            assert(img_shape@ =~= raster_shape(value@));
            let vec = value.into_raw_vec();
            match vec_shape_save(f32_to_u8(vec.as_slice()).as_slice(), img_shape) {
                Ok(c) => Ok(CanvasDType::U8(c)),
                Err(e) => Err(e),
            }
        },
        ArrayDType::U8(value) => {
            let img_shape = value.shape();
            assert(img_shape@ =~= raster_shape(value@));
            let vec = value.into_raw_vec();
            match vec_shape_save(vec.as_slice(), img_shape) {
                Ok(c) => Ok(CanvasDType::U8(c)),
                Err(e) => Err(e),
            }
        },
        ArrayDType::U16(value) => {
            let img_shape = value.shape();
            assert(img_shape@ =~= raster_shape(value@));
            let vec = value.into_raw_vec();
            match vec_shape_saveu16(vec.as_slice(), img_shape) {
                Ok(c) => Ok(CanvasDType::U16(c)),
                Err(e) => Err(e),
            }
        },
    }
}

} // verus!
