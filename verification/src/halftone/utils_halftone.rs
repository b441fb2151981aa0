//! Rotation of pixel coordinates for rotated screens, in binary32
//! arithmetic on bit patterns.

use vstd::prelude::*;
use crate::arithmetic32::{
    difference,
    difference_bits,
    product,
    product_bits,
    sum,
    sum_bits,
    to_index,
    to_index_bits,
};

verus! {

/// The first coordinate of `(x, y)` turned about `(cx, cy)`:
/// `cos * (x - cx) - sin * (y - cy) + cx`, cut down to a whole index.
pub open spec fn rotated_x(x: u32, y: u32, cx: u32, cy: u32, cos: u32, sin: u32) -> usize {
    to_index(
        sum(
            difference(product(cos, difference(x, cx)), product(sin, difference(y, cy))),
            cx,
        ),
    )
}

/// The second coordinate of `(x, y)` turned about `(cx, cy)`:
/// `sin * (x - cx) + cos * (y - cy) + cy`, cut down to a whole index.
pub open spec fn rotated_y(x: u32, y: u32, cx: u32, cy: u32, cos: u32, sin: u32) -> usize {
    to_index(
        sum(sum(product(sin, difference(x, cx)), product(cos, difference(y, cy))), cy),
    )
}

/// Turns `(x, y)` about `(center_x, center_y)` by the angle whose cosine and
/// sine are given. All six are binary32 bit patterns.
pub fn rotate_pixel_coordinates(
    x: u32,
    y: u32,
    center_x: u32,
    center_y: u32,
    cos_theta: u32,
    sin_theta: u32,
) -> (rot: (usize, usize))
    ensures
        rot.0 == rotated_x(x, y, center_x, center_y, cos_theta, sin_theta),
        rot.1 == rotated_y(x, y, center_x, center_y, cos_theta, sin_theta),
{
    let x_rel: u32 = difference_bits(x, center_x);
    let y_rel: u32 = difference_bits(y, center_y);
    let rotated_x: usize = to_index_bits(
        sum_bits(
            difference_bits(product_bits(cos_theta, x_rel), product_bits(sin_theta, y_rel)),
            center_x,
        ),
    );
    let rotated_y: usize = to_index_bits(
        sum_bits(
            sum_bits(product_bits(sin_theta, x_rel), product_bits(cos_theta, y_rel)),
            center_y,
        ),
    );
    (rotated_x, rotated_y)
}

} // verus!
