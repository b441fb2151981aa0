//! The tone engine: moving the range of normalised samples, in binary32
//! arithmetic on bit patterns.
//!
//! With the four bounds given on the byte scale and divided by `255`, a
//! sample `x` becomes `(x - in_low) / (in_high - in_low) * (out_high -
//! out_low) + out_low`, limited to the range from zero to one. A power of
//! gamma, where one is wanted, is applied to the result by the caller.

use vstd::prelude::*;
use crate::arithmetic32::{
    difference,
    difference_bits,
    from_nat,
    from_nat_bits,
    in_unit_range,
    lemma_pattern_of_255,
    lemma_product_by_one,
    lemma_quotient_by_one,
    lemma_quotient_of_equals,
    lemma_zero_changes_nothing,
    lemma_zero_over,
    maximum,
    maximum_bits,
    minimum,
    minimum_bits,
    product,
    product_bits,
    quotient,
    quotient_bits,
    sum,
    sum_bits,
    ONE_BITS,
    ZERO_BITS,
};
use crate::convert::BYTE_SCALE_BITS;
use crate::errors::PixelError;

verus! {

/// A bound on the byte scale as a normalised number: `b / 255`.
pub open spec fn byte_fraction(b: u8) -> u32 {
    quotient(from_nat(b as nat), BYTE_SCALE_BITS)
}

/// The sample that a levels adjustment makes of `x`.
pub open spec fn level_sample(x: u32, in_low: u8, in_high: u8, out_low: u8, out_high: u8) -> u32 {
    let low = byte_fraction(in_low);
    let in_range = difference(byte_fraction(in_high), low);
    let base = byte_fraction(out_low);
    let out_range = difference(byte_fraction(out_high), base);
    let scaled = quotient(difference(x, low), in_range);
    let moved = sum(product(scaled, out_range), base);
    minimum(maximum(moved, ZERO_BITS), ONE_BITS)
}

/// Whatever the sample and the bounds, the adjusted sample is a number from
/// zero to one.
pub proof fn lemma_levels_stay_in_range(x: u32, in_low: u8, in_high: u8, out_low: u8, out_high: u8)
    ensures
        in_unit_range(level_sample(x, in_low, in_high, out_low, out_high)),
{
}

/// With the full range on both sides, every sample from zero to one stays
/// as it is.
pub proof fn lemma_full_levels_change_nothing(x: u32)
    requires
        x <= ONE_BITS,
    ensures
        level_sample(x, 0, 255, 0, 255) == x,
{
    lemma_zero_over(BYTE_SCALE_BITS);
    lemma_pattern_of_255();
    lemma_quotient_of_equals(BYTE_SCALE_BITS);
    assert(byte_fraction(0) == 0);
    assert(byte_fraction(255) == ONE_BITS);
    lemma_zero_changes_nothing(ONE_BITS);
    lemma_zero_changes_nothing(x);
    lemma_quotient_by_one(x);
    lemma_product_by_one(x);
}

/// Adjusts the levels of normalised samples in place. An empty input range
/// has no scale and is refused, with the samples left as they are.
pub fn levels(vec_img: &mut Vec<u32>, in_low: u8, in_high: u8, out_low: u8, out_high: u8) -> (r:
    Result<(), PixelError>)
    ensures
        r is Ok <==> in_low != in_high,
        r is Err ==> r->Err_0 == PixelError::InvalidParameter && final(vec_img)@ == old(vec_img)@,
        r is Ok ==> final(vec_img)@ == old(vec_img)@.map_values(
            |x: u32| level_sample(x, in_low, in_high, out_low, out_high),
        ),
{
    if in_low == in_high {
        return Err(PixelError::InvalidParameter);
    }
    let low: u32 = quotient_bits(from_nat_bits(in_low as u64), BYTE_SCALE_BITS);
    let high: u32 = quotient_bits(from_nat_bits(in_high as u64), BYTE_SCALE_BITS);
    let in_range: u32 = difference_bits(high, low);
    let base: u32 = quotient_bits(from_nat_bits(out_low as u64), BYTE_SCALE_BITS);
    let top: u32 = quotient_bits(from_nat_bits(out_high as u64), BYTE_SCALE_BITS);
    let out_range: u32 = difference_bits(top, base);
    let ghost before = vec_img@;
    let n: usize = vec_img.len();
    let mut i: usize = 0;
    while i < n
        invariant
            low == byte_fraction(in_low),
            in_range == difference(byte_fraction(in_high), low),
            base == byte_fraction(out_low),
            out_range == difference(byte_fraction(out_high), base),
            vec_img@.len() == n,
            before.len() == n,
            i <= n,
            forall|k: int|
                0 <= k < i ==> vec_img@[k] == level_sample(
                    before[k],
                    in_low,
                    in_high,
                    out_low,
                    out_high,
                ),
            forall|k: int| i <= k < n ==> vec_img@[k] == before[k],
        decreases n - i,
    {
        let x: u32 = vec_img[i];
        let scaled: u32 = quotient_bits(difference_bits(x, low), in_range);
        let moved: u32 = sum_bits(product_bits(scaled, out_range), base);
        vec_img.set(i, minimum_bits(maximum_bits(moved, ZERO_BITS), ONE_BITS));
        i += 1;
    }
    assert(vec_img@ =~= before.map_values(
        |x: u32| level_sample(x, in_low, in_high, out_low, out_high),
    ));
    Ok(())
}

} // verus!
