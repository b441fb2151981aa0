//! Fixed-width integer reads from raw byte streams.

use vstd::prelude::*;

verus! {

/// The big-endian value of two bytes.
pub open spec fn be16(hi: u8, lo: u8) -> int {
    hi as int * 256 + lo as int
}

/// The big-endian value of four bytes, most significant first.
pub open spec fn be32(b0: u8, b1: u8, b2: u8, b3: u8) -> int {
    b0 as int * 16777216 + b1 as int * 65536 + b2 as int * 256 + b3 as int
}

/// Reads a big-endian `u32` from the first four bytes of `bytes`.
pub fn read_u32(bytes: &[u8]) -> (value: u32)
    requires
        bytes@.len() >= 4,
    ensures
        value as int == be32(bytes@[0], bytes@[1], bytes@[2], bytes@[3]),
{
    let b0: u32 = bytes[0] as u32;
    let b1: u32 = bytes[1] as u32;
    let b2: u32 = bytes[2] as u32;
    let b3: u32 = bytes[3] as u32;
    b0 * 16777216 + b1 * 65536 + b2 * 256 + b3
}

/// Reads a big-endian `u16` from the first two bytes of `bytes`.
pub fn read_u16(bytes: &[u8]) -> (value: u16)
    requires
        bytes@.len() >= 2,
    ensures
        value as int == be16(bytes@[0], bytes@[1]),
{
    let hi: u16 = bytes[0] as u16;
    let lo: u16 = bytes[1] as u16;
    hi * 256 + lo
}

/// Reads a little-endian `u16` from the first two bytes of `bytes`.
pub fn read_le_u16(bytes: &[u8]) -> (value: u16)
    requires
        bytes@.len() >= 2,
    ensures
        value as int == be16(bytes@[1], bytes@[0]),
{
    let lo: u16 = bytes[0] as u16;
    let hi: u16 = bytes[1] as u16;
    hi * 256 + lo
}

/// Reads a little-endian `u32` from the first four bytes of `bytes`.
pub fn read_le_u32(bytes: &[u8]) -> (value: u32)
    requires
        bytes@.len() >= 4,
    ensures
        value as int == be32(bytes@[3], bytes@[2], bytes@[1], bytes@[0]),
{
    let b0: u32 = bytes[0] as u32;
    let b1: u32 = bytes[1] as u32;
    let b2: u32 = bytes[2] as u32;
    let b3: u32 = bytes[3] as u32;
    b3 * 16777216 + b2 * 65536 + b1 * 256 + b0
}

} // verus!
