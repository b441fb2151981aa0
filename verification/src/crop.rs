//! The bounding box of the content of an image: the rows and columns that
//! hold a sample other than zero.
//!
//! Samples are normalised tones as binary32 bit patterns; both signed zeros
//! count as zero.

use vstd::prelude::*;
use crate::arithmetic32::NEGATIVE_ZERO_BITS;
use crate::buffer::{lemma_flat_index, PixelBuffer, Raster};

verus! {

/// The sample is `0.0` or `-0.0`.
pub open spec fn is_zero(bits: u32) -> bool {
    bits == 0 || bits == NEGATIVE_ZERO_BITS
}

/// One of the first `upto` channels of the pixel at row `r`, column `q` is
/// not zero.
pub open spec fn lit_upto(img: Raster<u32>, r: int, q: int, upto: int) -> bool {
    exists|k: int| 0 <= k < upto && !is_zero(#[trigger] img.at(r, q, k))
}

/// The pixel at row `r`, column `q` holds a sample that is not zero.
pub open spec fn lit(img: Raster<u32>, r: int, q: int) -> bool {
    lit_upto(img, r, q, img.depth() as int)
}

/// The pixel at row `r`, column `q` comes before row `row`, column `col` in
/// row-major order.
pub open spec fn before(r: int, q: int, row: int, col: int) -> bool {
    r < row || (r == row && q < col)
}

/// Some pixel of the image holds a sample that is not zero.
pub open spec fn any_lit(img: Raster<u32>) -> bool {
    exists|r: int, q: int| 0 <= r < img.height && 0 <= q < img.width && lit(img, r, q)
}

/// Every lit pixel lies inside `bounds`.
pub open spec fn encloses(img: Raster<u32>, bounds: (usize, usize, usize, usize)) -> bool {
    forall|r: int, q: int|
        0 <= r < img.height && 0 <= q < img.width && lit(img, r, q) ==> bounds.0 <= r <= bounds.1
            && bounds.2 <= q <= bounds.3
}

/// Each of the four sides of `bounds` holds a lit pixel.
pub open spec fn touches(img: Raster<u32>, bounds: (usize, usize, usize, usize)) -> bool {
    &&& bounds.1 < img.height
    &&& bounds.3 < img.width
    &&& exists|q: int| 0 <= q < img.width && lit(img, bounds.0 as int, q)
    &&& exists|q: int| 0 <= q < img.width && lit(img, bounds.1 as int, q)
    &&& exists|r: int| 0 <= r < img.height && lit(img, r, bounds.2 as int)
    &&& exists|r: int| 0 <= r < img.height && lit(img, r, bounds.3 as int)
}

/// `bounds` is the bounding box `(first row, last row, first column, last
/// column)` of the lit pixels of `img`: every lit pixel lies inside it, and
/// each of its four sides holds one. Without a lit pixel it is `(height, 0,
/// width, 0)`.
pub open spec fn is_bounding_box(img: Raster<u32>, bounds: (usize, usize, usize, usize)) -> bool {
    if any_lit(img) {
        encloses(img, bounds) && touches(img, bounds)
    } else {
        bounds == (img.height as usize, 0usize, img.width as usize, 0usize)
    }
}

/// Finds the bounding box of the samples that are not zero.
pub fn crop_cord(input: &PixelBuffer<u32>) -> (bounds: (usize, usize, usize, usize))
    requires
        input.wf(),
    ensures
        is_bounding_box(input@, bounds),
{
    let height: usize = input.height();
    let width: usize = input.width();
    let depth: usize = input.depth();
    let ghost img = input@;
    let mut x_min: usize = height;
    let mut x_max: usize = 0;
    let mut y_min: usize = width;
    let mut y_max: usize = 0;
    let ghost mut found: bool = false;
    let ghost mut q_top: int = 0;
    let ghost mut q_bottom: int = 0;
    let ghost mut r_left: int = 0;
    let ghost mut r_right: int = 0;
    let total: usize = input.len();
    let mut x: usize = 0;
    while x < height
        invariant
            input.wf(),
            img == input@,
            height == img.height,
            width == img.width,
            depth == img.depth(),
            total == img.samples.len(),
            x <= height,
            forall|r: int, q: int|
                0 <= r < x && 0 <= q < width && lit(img, r, q) ==> found && x_min <= r <= x_max
                    && y_min <= q <= y_max,
            !found ==> x_min == height && x_max == 0 && y_min == width && y_max == 0,
            found ==> x_min <= x_max && y_min <= y_max,
            found ==> x_max < height && y_max < width && 0 <= q_top < width && 0 <= q_bottom < width
                && 0 <= r_left < height && 0 <= r_right < height && lit(img, x_min as int, q_top)
                && lit(img, x_max as int, q_bottom) && lit(img, r_left, y_min as int) && lit(
                img,
                r_right,
                y_max as int,
            ),
        decreases height - x,
    {
        let mut y: usize = 0;
        while y < width
            invariant
                input.wf(),
                img == input@,
                height == img.height,
                width == img.width,
                depth == img.depth(),
                total == img.samples.len(),
                x < height,
                y <= width,
                forall|r: int, q: int|
                    0 <= r < height && 0 <= q < width && before(r, q, x as int, y as int) && lit(
                        img,
                        r,
                        q,
                    ) ==> found && x_min <= r <= x_max && y_min <= q <= y_max,
                !found ==> x_min == height && x_max == 0 && y_min == width && y_max == 0,
                found ==> x_min <= x_max && y_min <= y_max,
                found ==> x_max < height && y_max < width && 0 <= q_top < width && 0 <= q_bottom
                    < width && 0 <= r_left < height && 0 <= r_right < height && lit(
                    img,
                    x_min as int,
                    q_top,
                ) && lit(img, x_max as int, q_bottom) && lit(img, r_left, y_min as int) && lit(
                    img,
                    r_right,
                    y_max as int,
                ),
            decreases width - y,
        {
            let mut hit: bool = false;
            let mut c: usize = 0;
            proof {
                if depth > 0 {
                    lemma_flat_index(
                        x as int,
                        y as int,
                        0,
                        height as int,
                        width as int,
                        depth as int,
                    );
                    lemma_flat_index(
                        x as int,
                        y as int,
                        depth as int - 1,
                        height as int,
                        width as int,
                        depth as int,
                    );
                    assert(0 <= x * width <= x * width + y < height * width <= height * width
                        * depth) by (nonlinear_arith)
                        requires
                            0 <= x,
                            0 <= y,
                            0 <= width,
                            depth >= 1,
                            x * width + y < height * width,
                    ;
                }
            }
            let base: usize = if depth > 0 {
                (x * width + y) * depth
            } else {
                0
            };
            while c < depth
                invariant
                    input.wf(),
                    img == input@,
                    height == img.height,
                    width == img.width,
                    depth == img.depth(),
                    total == img.samples.len(),
                    total <= usize::MAX,
                    x < height,
                    y < width,
                    c <= depth,
                    depth > 0 ==> base == (x * width + y) * depth && base + depth <= total,
                    hit == lit_upto(img, x as int, y as int, c as int),
                decreases depth - c,
            {
                let v: u32 = input.get(base + c);
                assert(v == img.at(x as int, y as int, c as int));
                if !(v == 0 || v == NEGATIVE_ZERO_BITS) {
                    hit = true;
                }
                c += 1;
            }
            if hit {
                proof {
                    if !found || x < x_min {
                        q_top = y as int;
                    }
                    if !found || x >= x_max {
                        q_bottom = y as int;
                    }
                    if !found || y < y_min {
                        r_left = x as int;
                    }
                    if !found || y >= y_max {
                        r_right = x as int;
                    }
                    found = true;
                }
                if x < x_min {
                    x_min = x;
                }
                if x > x_max {
                    x_max = x;
                }
                if y < y_min {
                    y_min = y;
                }
                if y > y_max {
                    y_max = y;
                }
            }
            y += 1;
        }
        x += 1;
    }
    proof {
        if found {
            assert(0 <= x_min < height && 0 <= q_top < width && lit(img, x_min as int, q_top));
            assert(0 <= r_left < height && lit(img, r_left, y_min as int));
            assert(0 <= r_right < height && lit(img, r_right, y_max as int));
            assert(0 <= q_bottom < width && lit(img, x_max as int, q_bottom));
            assert(any_lit(img));
            assert(encloses(img, (x_min, x_max, y_min, y_max)));
            assert(touches(img, (x_min, x_max, y_min, y_max)));
        } else {
            assert(!any_lit(img));
        }
        assert(is_bounding_box(img, (x_min, x_max, y_min, y_max)));
    }
    (x_min, x_max, y_min, y_max)
}

} // verus!
