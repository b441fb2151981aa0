//! The luma weights of the colour standards and what follows from them, as
//! binary32 numbers.

use vstd::prelude::*;
use crate::arithmetic32::{
    difference,
    difference_bits,
    product,
    product_bits,
    quotient,
    quotient_bits,
    HALF_BITS,
    ONE_BITS,
};

verus! {

/// Bit pattern of `0.0593`: the weight of blue in Rec. 2020.
pub const KB_2020: u32 = 0x3D72_E48F;

/// Bit pattern of `0.2627`: the weight of red in Rec. 2020.
pub const KR_2020: u32 = 0x3E86_809D;

/// Bit pattern of `0.114`: the weight of blue in Rec. 601.
pub const KB_601: u32 = 0x3DE9_78D5;

/// Bit pattern of `0.299`: the weight of red in Rec. 601.
pub const KR_601: u32 = 0x3E99_1687;

/// Bit pattern of `0.0722`: the weight of blue in Rec. 709.
pub const KB_709: u32 = 0x3D93_DD98;

/// Bit pattern of `0.2126`: the weight of red in Rec. 709.
pub const KR_709: u32 = 0x3E59_B3D0;

/// Bit pattern of `3.0`.
pub const THREE_BITS: u32 = 0x4040_0000;

/// The coefficients of a colour standard.
#[derive(Clone, Copy, Debug, PartialEq, Eq, Structural)]
pub struct Coefficients {
    /// Weight of red in luma.
    pub kr: u32,
    /// Weight of green in luma.
    pub kg: u32,
    /// Weight of blue in luma.
    pub kb: u32,
    /// Range of the blue difference: `(1 - kb) / 0.5`.
    pub kd: u32,
    /// Range of the red difference: `(1 - kr) / 0.5`.
    pub ke: u32,
    /// Share of the red difference in green: `kr * ke / kg`.
    pub crg: u32,
    /// Share of the blue difference in green: `kb * kd / kg`.
    pub cbg: u32,
}

/// The coefficients that follow from the weights of red and blue.
pub open spec fn coefficients(kr: u32, kb: u32) -> Coefficients {
    let kg = difference(difference(ONE_BITS, kr), kb);
    let ke = quotient(difference(ONE_BITS, kr), HALF_BITS);
    let kd = quotient(difference(ONE_BITS, kb), HALF_BITS);
    Coefficients {
        kr,
        kg,
        kb,
        kd,
        ke,
        crg: quotient(product(kr, ke), kg),
        cbg: quotient(product(kb, kd), kg),
    }
}

/// The weight of each channel in the plain average: `1 / 3`.
pub open spec fn average() -> u32 {
    quotient(ONE_BITS, THREE_BITS)
}

/// Computes the coefficients that follow from the weights of red and blue.
pub fn coefficients_of(kr: u32, kb: u32) -> (c: Coefficients)
    ensures
        c == coefficients(kr, kb),
{
    let kg: u32 = difference_bits(difference_bits(ONE_BITS, kr), kb);
    let ke: u32 = quotient_bits(difference_bits(ONE_BITS, kr), HALF_BITS);
    let kd: u32 = quotient_bits(difference_bits(ONE_BITS, kb), HALF_BITS);
    Coefficients {
        kr,
        kg,
        kb,
        kd,
        ke,
        crg: quotient_bits(product_bits(kr, ke), kg),
        cbg: quotient_bits(product_bits(kb, kd), kg),
    }
}

/// Computes the weight of each channel in the plain average.
pub fn average_weight() -> (w: u32)
    ensures
        w == average(),
{
    quotient_bits(ONE_BITS, THREE_BITS)
}

} // verus!
