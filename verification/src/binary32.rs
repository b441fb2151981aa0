//! Normalised samples as IEEE-754 binary32 bit patterns: conversion from and
//! to eight-bit and sixteen-bit samples in integer arithmetic.
//!
//! A sample `b` of eight bits becomes the binary32 product of `b` and the
//! binary32 nearest to `1/255`, which is `8421505 / 2^31`. A sample `x` of
//! sixteen bits becomes the binary32 quotient of `x` and `65535`. On the way
//! back a binary32 sample is multiplied by the full scale in binary32,
//! rounded to the nearest integer with halves away from zero, and limited to
//! the range of the target. Every binary32 result is rounded to nearest, ties
//! to even, as the arithmetic of the format prescribes.
//!
//! The functions are stated over machine words, which is what proofs by bit
//! vectors take. That they are the products and the quotient just named, in
//! the arithmetic of `arithmetic32`, is proved in `sample_codec`.

use vstd::prelude::*;
use crate::arithmetic32::{ONE_BITS, ZERO_BITS};

verus! {

/// Mantissa of the binary32 nearest to `1/255`, whose value is
/// `UNIT_STEP / 2^31`.
pub const UNIT_STEP: u64 = 8421505;

/// The implicit leading bit of a normal mantissa: `2^23`.
pub const HIDDEN_BIT: u64 = 0x80_0000;

/// `p / 2^drop` rounded to the nearest integer, ties to even.
pub open spec fn round_even(p: u64, drop: u64) -> u64 {
    if drop == 0 {
        p
    } else {
        let q = p >> drop;
        let r = p & (((1u64 << drop) - 1) as u64);
        let half = 1u64 << ((drop - 1) as u64);
        if r > half || (r == half && q & 1 == 1) {
            (q + 1) as u64
        } else {
            q
        }
    }
}

/// By how many bits `p`, below `2^41`, is longer than a mantissa of 24 bits.
pub open spec fn excess_bits(p: u64) -> u64 {
    if p < 0x100_0000 {
        0
    } else if p < 0x200_0000 {
        1
    } else if p < 0x400_0000 {
        2
    } else if p < 0x800_0000 {
        3
    } else if p < 0x1000_0000 {
        4
    } else if p < 0x2000_0000 {
        5
    } else if p < 0x4000_0000 {
        6
    } else if p < 0x8000_0000 {
        7
    } else if p < 0x1_0000_0000 {
        8
    } else if p < 0x2_0000_0000 {
        9
    } else if p < 0x4_0000_0000 {
        10
    } else if p < 0x8_0000_0000 {
        11
    } else if p < 0x10_0000_0000 {
        12
    } else if p < 0x20_0000_0000 {
        13
    } else if p < 0x40_0000_0000 {
        14
    } else if p < 0x80_0000_0000 {
        15
    } else if p < 0x100_0000_0000 {
        16
    } else {
        17
    }
}

/// The bit pattern of the normal number `q * 2^(exponent - 150)` for a
/// mantissa `q` from `2^23` to `2^24`, the upper end standing for the
/// smallest mantissa of the next exponent.
pub open spec fn pack(q: u64, exponent: u64) -> u32 {
    if q == 0x100_0000 {
        (((exponent + 1) as u64) << 23) as u32
    } else {
        ((exponent << 23) + q - HIDDEN_BIT) as u32
    }
}

/// The normalised sample of an eight-bit sample: zero for zero, else the
/// binary32 product of the sample and the binary32 nearest to `1/255`.
pub open spec fn byte_to_unit(b: u8) -> u32 {
    if b == 0 {
        0
    } else {
        let p = (b as u64 * UNIT_STEP) as u64;
        let drop = excess_bits(p);
        pack(round_even(p, drop), (119 + drop) as u64)
    }
}

/// How far a sixteen-bit sample other than zero must be shifted left to
/// reach sixteen bits; full scale needs no shift and counts as zero.
pub open spec fn word_shift(x: u16) -> u64 {
    if x == 0xFFFF {
        0
    } else if x >= 0x8000 {
        1
    } else if x >= 0x4000 {
        2
    } else if x >= 0x2000 {
        3
    } else if x >= 0x1000 {
        4
    } else if x >= 0x800 {
        5
    } else if x >= 0x400 {
        6
    } else if x >= 0x200 {
        7
    } else if x >= 0x100 {
        8
    } else if x >= 0x80 {
        9
    } else if x >= 0x40 {
        10
    } else if x >= 0x20 {
        11
    } else if x >= 0x10 {
        12
    } else if x >= 0x8 {
        13
    } else if x >= 0x4 {
        14
    } else if x >= 0x2 {
        15
    } else {
        16
    }
}

/// The normalised sample of a sixteen-bit sample: the binary32 quotient of
/// the sample and `65535`.
pub open spec fn word_to_unit(x: u16) -> u32 {
    if x == 0 {
        0
    } else {
        let k = word_shift(x);
        let n = (x as u64) << ((k + 23) as u64);
        let q0 = n / 65535;
        let r = n % 65535;
        let q = if 2 * r > 65535 {
            (q0 + 1) as u64
        } else {
            q0
        };
        pack(q, (127 - k) as u64)
    }
}

/// The integer sample of a normalised sample for a full scale of `scale`:
/// the binary32 product of the two, rounded to the nearest integer with
/// halves away from zero, and limited to `0 ..= scale`. Exponent fields
/// below `floor_exponent` stand for products below one half. A sample that
/// is not a number gives zero.
pub open spec fn unit_to_scale(bits: u32, scale: u64, floor_exponent: u64) -> u64 {
    let e = (bits >> 23) as u64;
    let m = (bits & 0x7F_FFFF) as u64;
    if bits >= 0x8000_0000 {
        0
    } else if e == 255 {
        if m == 0 {
            scale
        } else {
            0
        }
    } else if e >= 128 {
        scale
    } else if e < floor_exponent {
        0
    } else {
        let p = ((HIDDEN_BIT + m) * scale) as u64;
        let drop = excess_bits(p);
        let q = round_even(p, drop);
        let s = (150 - e - drop) as u64;
        let n = ((q + (1u64 << ((s - 1) as u64))) as u64) >> s;
        if n > scale {
            scale
        } else {
            n
        }
    }
}

/// The eight-bit sample of a normalised sample.
pub open spec fn unit_to_byte(bits: u32) -> u8 {
    unit_to_scale(bits, 255, 118) as u8
}

/// The sixteen-bit sample of a normalised sample.
pub open spec fn unit_to_word(bits: u32) -> u16 {
    unit_to_scale(bits, 65535, 109) as u16
}

/// Every eight-bit sample comes back unchanged from its normalised sample.
pub proof fn lemma_byte_round_trip(b: u8)
    by (bit_vector)
    ensures
        unit_to_byte(byte_to_unit(b)) == b,
{
}

/// The normalised sample of an eight-bit sample other than zero is the
/// binary32 nearest to the product of the sample and `UNIT_STEP / 2^31`:
/// with mantissa `2^23 + m` and exponent field `e`, its distance from the
/// product is at most half a unit of its last place, and exactly half only
/// where the mantissa is even.
pub proof fn lemma_byte_to_unit_is_nearest(b: u8)
    by (bit_vector)
    requires
        b != 0,
    ensures
        ({
            let bits = byte_to_unit(b);
            let e = (bits >> 23) as u64;
            let m = (bits & 0x7F_FFFF) as u64;
            let unit = 1u64 << ((e - 119) as u64);
            let scaled = ((HIDDEN_BIT + m) as u64) << ((e - 119) as u64);
            let exact = (b as u64 * UNIT_STEP) as u64;
            let gap = if scaled >= exact {
                (scaled - exact) as u64
            } else {
                (exact - scaled) as u64
            };
            119 <= e <= 127 && 2 * gap <= unit && (2 * gap == unit ==> m & 1 == 0)
        }),
{
}

/// A brighter eight-bit sample normalises to a larger bit pattern, and the
/// samples between black and white to patterns between `0.0` and `1.0`.
pub proof fn lemma_byte_to_unit_monotone(a: u8, b: u8)
    by (bit_vector)
    requires
        a < b,
    ensures
        byte_to_unit(a) < byte_to_unit(b),
        byte_to_unit(b) <= 0x3F80_0000,
{
}

/// Black and white keep their meaning: zero normalises to `0.0` and full
/// scale to `1.0`, and both come back.
pub proof fn lemma_end_points()
    ensures
        byte_to_unit(0) == ZERO_BITS,
        byte_to_unit(255) == ONE_BITS,
        word_to_unit(0) == ZERO_BITS,
        word_to_unit(65535) == ONE_BITS,
        unit_to_byte(ZERO_BITS) == 0,
        unit_to_byte(ONE_BITS) == 255,
        unit_to_word(ZERO_BITS) == 0,
        unit_to_word(ONE_BITS) == 65535,
{
    assert(byte_to_unit(255) == 0x3F80_0000) by (bit_vector);
    assert(word_to_unit(65535) == 0x3F80_0000) by (bit_vector);
    assert(unit_to_byte(0) == 0) by (bit_vector);
    assert(unit_to_byte(0x3F80_0000) == 255) by (bit_vector);
    assert(unit_to_word(0) == 0) by (bit_vector);
    assert(unit_to_word(0x3F80_0000) == 65535) by (bit_vector);
}

/// Rounds `p / 2^drop` to the nearest integer, ties to even.
fn round_half_even(p: u64, drop: u64) -> (q: u64)
    requires
        drop <= 17,
        p < 0x200_0000_0000,
    ensures
        q == round_even(p, drop),
        q <= 0x200_0000_0000,
{
    if drop == 0 {
        p
    } else {
        assert((p >> drop) < 0x200_0000_0000 && (1u64 << drop) >= 1) by (bit_vector)
            requires
                1 <= drop <= 17,
                p < 0x200_0000_0000,
        ;
        let q: u64 = p >> drop;
        let r: u64 = p & ((1u64 << drop) - 1);
        let half: u64 = 1u64 << (drop - 1);
        if r > half || (r == half && q & 1 == 1) {
            q + 1
        } else {
            q
        }
    }
}

/// Counts the bits by which `p` is longer than a mantissa.
fn excess(p: u64) -> (drop: u64)
    ensures
        drop == excess_bits(p),
        drop <= 17,
{
    if p < 0x100_0000 {
        0
    } else if p < 0x200_0000 {
        1
    } else if p < 0x400_0000 {
        2
    } else if p < 0x800_0000 {
        3
    } else if p < 0x1000_0000 {
        4
    } else if p < 0x2000_0000 {
        5
    } else if p < 0x4000_0000 {
        6
    } else if p < 0x8000_0000 {
        7
    } else if p < 0x1_0000_0000 {
        8
    } else if p < 0x2_0000_0000 {
        9
    } else if p < 0x4_0000_0000 {
        10
    } else if p < 0x8_0000_0000 {
        11
    } else if p < 0x10_0000_0000 {
        12
    } else if p < 0x20_0000_0000 {
        13
    } else if p < 0x40_0000_0000 {
        14
    } else if p < 0x80_0000_0000 {
        15
    } else if p < 0x100_0000_0000 {
        16
    } else {
        17
    }
}

/// Packs a mantissa and an exponent field into a bit pattern.
fn pack_bits(q: u64, exponent: u64) -> (bits: u32)
    requires
        HIDDEN_BIT <= q <= 0x100_0000,
        exponent <= 253,
    ensures
        bits == pack(q, exponent),
{
    if q == 0x100_0000 {
        assert(((exponent + 1) as u64) << 23 <= 0x7F00_0000) by (bit_vector)
            requires
                exponent <= 253,
        ;
        ((exponent + 1) << 23) as u32
    } else {
        assert(exponent << 23 <= 0x7E80_0000) by (bit_vector)
            requires
                exponent <= 253,
        ;
        ((exponent << 23) + q - HIDDEN_BIT) as u32
    }
}

/// Normalises one eight-bit sample.
pub fn byte_to_unit_bits(b: u8) -> (bits: u32)
    ensures
        bits == byte_to_unit(b),
{
    if b == 0 {
        0
    } else {
        let p: u64 = b as u64 * UNIT_STEP;
        let drop: u64 = excess(p);
        let q: u64 = round_half_even(p, drop);
        assert(HIDDEN_BIT <= round_even(p, excess_bits(p)) <= 0x100_0000) by (bit_vector)
            requires
                0x80_0000 <= p < 0x1_0000_0000,
        ;
        pack_bits(q, 119 + drop)
    }
}

/// Normalises one sixteen-bit sample.
pub fn word_to_unit_bits(x: u16) -> (bits: u32)
    ensures
        bits == word_to_unit(x),
{
    if x == 0 {
        0
    } else {
        let k: u64 = if x == 0xFFFF {
            0
        } else if x >= 0x8000 {
            1
        } else if x >= 0x4000 {
            2
        } else if x >= 0x2000 {
            3
        } else if x >= 0x1000 {
            4
        } else if x >= 0x800 {
            5
        } else if x >= 0x400 {
            6
        } else if x >= 0x200 {
            7
        } else if x >= 0x100 {
            8
        } else if x >= 0x80 {
            9
        } else if x >= 0x40 {
            10
        } else if x >= 0x20 {
            11
        } else if x >= 0x10 {
            12
        } else if x >= 0x8 {
            13
        } else if x >= 0x4 {
            14
        } else if x >= 0x2 {
            15
        } else {
            16
        };
        let wide: u64 = x as u64;
        assert(0x80_0000u64 * 65535 <= (wide << ((word_shift(x) + 23) as u64)) < 0x100_0000u64
            * 65535) by (bit_vector)
            requires
                wide == x as u64,
                x != 0,
        ;
        let n: u64 = wide << (k + 23);
        let q0: u64 = n / 65535;
        let r: u64 = n % 65535;
        let q: u64 = if 2 * r > 65535 {
            q0 + 1
        } else {
            q0
        };
        pack_bits(q, 127 - k)
    }
}

/// The integer sample of one normalised sample for the given full scale.
fn unit_to_scale_bits(bits: u32, scale: u64, floor_exponent: u64) -> (n: u64)
    requires
        scale == 255 && floor_exponent == 118 || scale == 65535 && floor_exponent == 109,
    ensures
        n == unit_to_scale(bits, scale, floor_exponent),
        n <= scale,
{
    let e: u64 = (bits >> 23) as u64;
    let m: u64 = (bits & 0x7F_FFFF) as u64;
    assert((bits >> 23) <= 511 && (bits & 0x7F_FFFF) < 0x80_0000) by (bit_vector);
    if bits >= 0x8000_0000 {
        0
    } else if e == 255 {
        if m == 0 {
            scale
        } else {
            0
        }
    } else if e >= 128 {
        scale
    } else if e < floor_exponent {
        0
    } else {
        assert((HIDDEN_BIT + m) * scale < 0x100_0000 * 0x1_0000) by (nonlinear_arith)
            requires
                HIDDEN_BIT + m < 0x100_0000,
                scale < 0x1_0000,
        ;
        let p: u64 = (HIDDEN_BIT + m) * scale;
        let drop: u64 = excess(p);
        let q: u64 = round_half_even(p, drop);
        assert(0x80_0000u64 * 255 <= p) by (nonlinear_arith)
            requires
                p == (HIDDEN_BIT + m) * scale,
                scale >= 255,
                m >= 0,
        ;
        assert(7 <= excess_bits(p) <= 16 && round_even(p, excess_bits(p)) <= 0x100_0000)
            by (bit_vector)
            requires
                0x80_0000u64 * 255 <= p < 0x100_0000u64 * 0x1_0000,
        ;
        let s: u64 = 150 - e - drop;
        assert(((1u64 << ((s - 1) as u64)) <= 0x4000_0000) && ((q + (1u64 << ((s - 1) as u64)))
            as u64 >> s) <= 0x200_0000) by (bit_vector)
            requires
                1 <= s <= 31,
                q <= 0x100_0000,
        ;
        let n: u64 = (q + (1u64 << (s - 1))) >> s;
        if n > scale {
            scale
        } else {
            n
        }
    }
}

/// The eight-bit sample of one normalised sample.
pub fn unit_to_byte_bits(bits: u32) -> (b: u8)
    ensures
        b == unit_to_byte(bits),
{
    unit_to_scale_bits(bits, 255, 118) as u8
}

/// The sixteen-bit sample of one normalised sample.
pub fn unit_to_word_bits(bits: u32) -> (x: u16)
    ensures
        x == unit_to_word(bits),
{
    unit_to_scale_bits(bits, 65535, 109) as u16
}

} // verus!
