//! Tones between black and white.
//!
//! The grid of a screen holds normalised samples as binary32 bit patterns.
//! Only samples strictly between `0.0` and `1.0` are halftoned. They are
//! positive numbers, whose order is the order of their bit patterns.

use vstd::prelude::*;
use crate::arithmetic32::{lemma_smaller_is_below, less};
use crate::arithmetic32::ONE_BITS;

verus! {

/// A sample strictly between `0.0` and `1.0`.
pub open spec fn is_midtone(bits: u32) -> bool {
    0 < bits < ONE_BITS
}

/// Whether a sample lies strictly between `0.0` and `1.0`.
pub fn sample_is_midtone(bits: u32) -> (mid: bool)
    ensures
        mid == is_midtone(bits),
{
    0 < bits && bits < ONE_BITS
}

/// A darker midtone is below every threshold that a lighter one is below.
pub proof fn lemma_darker_is_below(darker: u32, lighter: u32, threshold: u32)
    requires
        is_midtone(darker),
        is_midtone(lighter),
        darker <= lighter,
        less(lighter, threshold),
    ensures
        less(darker, threshold),
{
    lemma_smaller_is_below(darker, lighter, threshold);
}

} // verus!
