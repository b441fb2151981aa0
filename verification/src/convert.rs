//! Conversions of the byte-oriented readers and writers: sixteen-bit samples
//! taken from byte pairs and reduced to eight bits or normalised, luma of a
//! pixel, and normalised samples rounded to bytes.

use vstd::prelude::*;
use crate::arithmetic32::{quotient, quotient_bits};
use crate::binary32::{unit_to_byte, unit_to_byte_bits, word_to_unit, word_to_unit_bits};
use crate::byte_decode::be16;
use crate::format_convert::{luma709, luma709_exact, luma8, luma_exact, scale16_to_8};

verus! {

/// A big-endian byte pair reduced to one eight-bit sample: the sixteen-bit
/// sample it holds, rescaled through its normalised sample.
pub open spec fn pair_to_u8(first: u8, second: u8) -> u8 {
    scale16_to_8(be16(first, second) as u16)
}

/// Every byte pair reduced to one sample.
pub open spec fn pairs_to_u8_seq(bytes: Seq<u8>) -> Seq<u8> {
    Seq::new(bytes.len() / 2, |i: int| pair_to_u8(bytes[2 * i], bytes[2 * i + 1]))
}

/// Reduces sixteen-bit samples, given as byte pairs, to eight bits.
pub fn u16_to_u8(bytes: &[u8]) -> (out: Vec<u8>)
    requires
        bytes@.len() % 2 == 0,
    ensures
        out@ == pairs_to_u8_seq(bytes@),
{
    let n: usize = bytes.len() / 2;
    let mut out: Vec<u8> = Vec::new();
    let mut i: usize = 0;
    while i < n
        invariant
            2 * n == bytes@.len() <= usize::MAX,
            i <= n,
            out@.len() == i,
            forall|k: int| 0 <= k < i ==> out@[k] == pairs_to_u8_seq(bytes@)[k],
        decreases n - i,
    {
        let x: u16 = bytes[2 * i] as u16 * 256 + bytes[2 * i + 1] as u16;
        out.push(unit_to_byte_bits(word_to_unit_bits(x)));
        i += 1;
    }
    out
}

/// Bit pattern of `255.0`.
pub const BYTE_SCALE_BITS: u32 = 0x437F_0000;

/// A big-endian byte pair normalised: the normalised sample of the
/// sixteen-bit sample it holds.
pub open spec fn pair_to_unit(first: u8, second: u8) -> u32 {
    word_to_unit(be16(first, second) as u16)
}

/// Every byte pair reduced to one normalised sample.
pub open spec fn pairs_to_unit_seq(bytes: Seq<u8>) -> Seq<u32> {
    Seq::new(bytes.len() / 2, |i: int| pair_to_unit(bytes[2 * i], bytes[2 * i + 1]))
}

/// Reduces sixteen-bit samples, given as byte pairs, to normalised samples.
pub fn u16_to_f32(bytes: &[u8]) -> (out: Vec<u32>)
    requires
        bytes@.len() % 2 == 0,
    ensures
        out@ == pairs_to_unit_seq(bytes@),
{
    let n: usize = bytes.len() / 2;
    let mut out: Vec<u32> = Vec::new();
    let mut i: usize = 0;
    while i < n
        invariant
            2 * n == bytes@.len() <= usize::MAX,
            i <= n,
            out@.len() == i,
            forall|k: int| 0 <= k < i ==> out@[k] == pairs_to_unit_seq(bytes@)[k],
        decreases n - i,
    {
        let x: u16 = bytes[2 * i] as u16 * 256 + bytes[2 * i + 1] as u16;
        out.push(word_to_unit_bits(x));
        i += 1;
    }
    out
}

/// Normalised BT.709 luma of each eight-bit RGB triple: the luma as a
/// binary32 number, divided by `255`.
pub open spec fn rgb8_luma_unit_seq(rgb: Seq<u8>) -> Seq<u32> {
    Seq::new(
        rgb.len() / 3,
        |i: int|
            quotient(
                luma709_exact(rgb[3 * i] as nat, rgb[3 * i + 1] as nat, rgb[3 * i + 2] as nat),
                BYTE_SCALE_BITS,
            ),
    )
}

/// RGB to normalised gray by BT.709 luma.
pub fn rgb8_to_gray32(rgb: &[u8]) -> (gray: Vec<u32>)
    requires
        rgb@.len() % 3 == 0,
    ensures
        gray@ == rgb8_luma_unit_seq(rgb@),
{
    let n: usize = rgb.len() / 3;
    let mut gray: Vec<u32> = Vec::new();
    let mut i: usize = 0;
    while i < n
        invariant
            3 * n == rgb@.len() <= usize::MAX,
            i <= n,
            gray@.len() == i,
            forall|k: int| 0 <= k < i ==> gray@[k] == rgb8_luma_unit_seq(rgb@)[k],
        decreases n - i,
    {
        let y: u32 = luma_exact(rgb[3 * i] as u16, rgb[3 * i + 1] as u16, rgb[3 * i + 2] as u16);
        gray.push(quotient_bits(y, BYTE_SCALE_BITS));
        i += 1;
    }
    gray
}

/// Normalised samples as eight-bit samples: scaled to the byte range and
/// rounded to the nearest integer.
pub fn f32_to_u8(bytes: &[u32]) -> (out: Vec<u8>)
    ensures
        out@ == bytes@.map_values(|x: u32| unit_to_byte(x)),
{
    crate::format_convert::f32_to_u8(bytes)
}

/// BT.709 luma of one pixel given as red, green and blue.
pub fn rgb8_to_gray8(rgb: (u8, u8, u8)) -> (gray: u8)
    ensures
        gray as nat == luma709(rgb.0 as nat, rgb.1 as nat, rgb.2 as nat, 255),
{
    luma8(rgb.0, rgb.1, rgb.2)
}

} // verus!
