//! Channel-count and bit-depth conversions on raw interleaved samples.
//!
//! Eight-bit samples are bytes; sixteen-bit samples arrive as big-endian byte
//! pairs. Luma is the BT.709 weighting, computed in binary32 arithmetic and
//! cut down to a whole sample.

use vstd::prelude::*;
use vstd::slice::slice_subrange;
use crate::arithmetic32::{
    from_nat,
    from_nat_bits,
    product,
    product_bits,
    sum,
    sum_bits,
    to_index,
    to_index_bits,
};
use crate::binary32::{
    byte_to_unit,
    byte_to_unit_bits,
    lemma_byte_round_trip,
    unit_to_byte,
    unit_to_byte_bits,
    unit_to_word,
    unit_to_word_bits,
    word_to_unit,
    word_to_unit_bits,
};
use crate::byte_decode::{be16, read_u16};

verus! {

/// Bit pattern of `0.2126`: the weight of red in luma.
pub const LUMA_RED_BITS: u32 = 0x3E59_B3D0;

/// Bit pattern of `0.7152`: the weight of green in luma.
pub const LUMA_GREEN_BITS: u32 = 0x3F37_1759;

/// Bit pattern of `0.0722`: the weight of blue in luma.
pub const LUMA_BLUE_BITS: u32 = 0x3D93_DD98;

/// BT.709 luma of one pixel as a binary32 number:
/// `r * 0.2126 + g * 0.7152 + b * 0.0722`.
pub open spec fn luma709_exact(r: nat, g: nat, b: nat) -> u32 {
    sum(
        sum(product(from_nat(r), LUMA_RED_BITS), product(from_nat(g), LUMA_GREEN_BITS)),
        product(from_nat(b), LUMA_BLUE_BITS),
    )
}

/// BT.709 luma of one pixel, cut down to a whole sample of at most `max`.
pub open spec fn luma709(r: nat, g: nat, b: nat, max: nat) -> nat {
    let whole = to_index(luma709_exact(r, g, b));
    if whole > max {
        max
    } else {
        whole as nat
    }
}

/// Each gray sample written three times.
pub open spec fn gray_to_rgb_seq<T>(gray: Seq<T>) -> Seq<T> {
    Seq::new(gray.len() * 3, |i: int| gray[i / 3])
}

/// Each gray sample written three times and followed by `alpha`.
pub open spec fn gray_to_rgba_seq<T>(gray: Seq<T>, alpha: T) -> Seq<T> {
    Seq::new(gray.len() * 4, |i: int| if i % 4 == 3 { alpha } else { gray[i / 4] })
}

/// Each sample followed by `alpha`.
pub open spec fn with_alpha_seq<T>(gray: Seq<T>, alpha: T) -> Seq<T> {
    Seq::new(gray.len() * 2, |i: int| if i % 2 == 1 { alpha } else { gray[i / 2] })
}

/// Each RGB triple followed by `alpha`.
pub open spec fn rgb_to_rgba_seq<T>(rgb: Seq<T>, alpha: T) -> Seq<T> {
    Seq::new(
        (rgb.len() / 3) * 4,
        |i: int| if i % 4 == 3 { alpha } else { rgb[(i / 4) * 3 + i % 4] },
    )
}

/// The sixteen-bit samples held by big-endian byte pairs.
pub open spec fn be16_samples(bytes: Seq<u8>) -> Seq<u16> {
    Seq::new(bytes.len() / 2, |i: int| be16(bytes[2 * i], bytes[2 * i + 1]) as u16)
}

/// Luma of each eight-bit RGB triple.
pub open spec fn rgb8_luma_seq(rgb: Seq<u8>) -> Seq<u8> {
    Seq::new(
        rgb.len() / 3,
        |i: int| luma709(rgb[3 * i] as nat, rgb[3 * i + 1] as nat, rgb[3 * i + 2] as nat, 255) as u8,
    )
}

/// Luma of each sixteen-bit RGB triple.
pub open spec fn rgb16_luma_seq(rgb: Seq<u16>) -> Seq<u16> {
    Seq::new(
        rgb.len() / 3,
        |i: int|
            luma709(rgb[3 * i] as nat, rgb[3 * i + 1] as nat, rgb[3 * i + 2] as nat, 65535) as u16,
    )
}

/// A sixteen-bit sample rescaled to eight bits through its normalised
/// sample: `x / 65535 * 255`, rounded to the nearest integer.
pub open spec fn scale16_to_8(x: u16) -> u8 {
    unit_to_byte(word_to_unit(x))
}

/// An eight-bit sample rescaled to sixteen bits: `x / 255 * 65535`, which
/// repeats the byte.
pub open spec fn scale8_to_16(x: u8) -> u16 {
    (x as int * 257) as u16
}

/// Luma of one pixel as a binary32 number.
pub fn luma_exact(r: u16, g: u16, b: u16) -> (y: u32)
    ensures
        y == luma709_exact(r as nat, g as nat, b as nat),
{
    sum_bits(
        sum_bits(
            product_bits(from_nat_bits(r as u64), LUMA_RED_BITS),
            product_bits(from_nat_bits(g as u64), LUMA_GREEN_BITS),
        ),
        product_bits(from_nat_bits(b as u64), LUMA_BLUE_BITS),
    )
}

/// BT.709 luma of one eight-bit pixel.
pub fn luma8(r: u8, g: u8, b: u8) -> (y: u8)
    ensures
        y as nat == luma709(r as nat, g as nat, b as nat, 255),
{
    let whole: usize = to_index_bits(luma_exact(r as u16, g as u16, b as u16));
    if whole > 255 {
        255
    } else {
        whole as u8
    }
}

fn luma16(r: u16, g: u16, b: u16) -> (y: u16)
    ensures
        y as nat == luma709(r as nat, g as nat, b as nat, 65535),
{
    let whole: usize = to_index_bits(luma_exact(r, g, b));
    if whole > 65535 {
        65535
    } else {
        whole as u16
    }
}

/// Decodes big-endian byte pairs into sixteen-bit samples.
pub fn be16_to_vec(bytes: &[u8]) -> (samples: Vec<u16>)
    requires
        bytes@.len() % 2 == 0,
    ensures
        samples@ == be16_samples(bytes@),
{
    let n: usize = bytes.len() / 2;
    let mut samples: Vec<u16> = Vec::new();
    let mut i: usize = 0;
    while i < n
        invariant
            2 * n == bytes@.len() <= usize::MAX,
            i <= n,
            samples@.len() == i,
            forall|k: int| 0 <= k < i ==> samples@[k] == be16_samples(bytes@)[k],
        decreases n - i,
    {
        let hi: u16 = bytes[2 * i] as u16;
        let lo: u16 = bytes[2 * i + 1] as u16;
        samples.push(hi * 256 + lo);
        i += 1;
    }
    samples
}

/// Writes sixteen-bit samples as big-endian byte pairs.
pub fn vec_to_be16(samples: &[u16]) -> (bytes: Vec<u8>)
    ensures
        bytes@.len() == 2 * samples@.len(),
        be16_samples(bytes@) == samples@,
{
    let n: usize = samples.len();
    let mut bytes: Vec<u8> = Vec::new();
    let mut i: usize = 0;
    while i < n
        invariant
            n == samples@.len(),
            i <= n,
            bytes@.len() == 2 * i,
            forall|k: int|
                0 <= k < i ==> be16(#[trigger] bytes@[2 * k], bytes@[2 * k + 1]) == samples@[k],
        decreases n - i,
    {
        let x: u16 = samples[i];
        let ghost before = bytes@;
        bytes.push((x / 256) as u8);
        bytes.push((x % 256) as u8);
        assert(forall|k: int| 0 <= k < 2 * i ==> bytes@[k] == before[k]);
        i += 1;
    }
    assert(be16_samples(bytes@) =~= samples@);
    bytes
}

/// Gray to RGB by replication, eight-bit.
pub fn gray8_to_rgb8(gray: &[u8]) -> (rgb: Vec<u8>)
    ensures
        rgb@ == gray_to_rgb_seq(gray@),
{
    let mut rgb: Vec<u8> = Vec::new();
    let mut i: usize = 0;
    while i < gray.len()
        invariant
            i <= gray@.len(),
            rgb@.len() == 3 * i,
            forall|k: int| 0 <= k < 3 * i ==> rgb@[k] == gray@[k / 3],
        decreases gray@.len() - i,
    {
        let g: u8 = gray[i];
        rgb.push(g);
        rgb.push(g);
        rgb.push(g);
        i += 1;
    }
    rgb
}

/// Gray to RGB by replication, sixteen-bit samples given as big-endian pairs.
pub fn gray16u8_to_rgb16(gray: &[u8]) -> (rgb: Vec<u16>)
    requires
        gray@.len() % 2 == 0,
    ensures
        rgb@ == gray_to_rgb_seq(be16_samples(gray@)),
{
    let n: usize = gray.len() / 2;
    let mut rgb: Vec<u16> = Vec::new();
    let mut i: usize = 0;
    while i < n
        invariant
            2 * n == gray@.len() <= usize::MAX,
            i <= n,
            rgb@.len() == 3 * i,
            forall|k: int| 0 <= k < 3 * i ==> rgb@[k] == be16_samples(gray@)[k / 3],
        decreases n - i,
    {
        let v: u16 = read_u16(slice_subrange(gray, 2 * i, 2 * i + 2));
        rgb.push(v);
        rgb.push(v);
        rgb.push(v);
        i += 1;
    }
    rgb
}

/// Gray to RGBA by replication with full alpha, sixteen-bit samples given as
/// big-endian pairs.
pub fn gray16u8_to_rgba16(gray: &[u8]) -> (rgba: Vec<u16>)
    requires
        gray@.len() % 2 == 0,
    ensures
        rgba@ == gray_to_rgba_seq(be16_samples(gray@), u16::MAX),
{
    let n: usize = gray.len() / 2;
    let mut rgba: Vec<u16> = Vec::new();
    let mut i: usize = 0;
    while i < n
        invariant
            2 * n == gray@.len() <= usize::MAX,
            i <= n,
            rgba@.len() == 4 * i,
            forall|k: int|
                0 <= k < 4 * i ==> rgba@[k] == gray_to_rgba_seq(
                    be16_samples(gray@),
                    u16::MAX,
                )[k],
        decreases n - i,
    {
        let v: u16 = read_u16(slice_subrange(gray, 2 * i, 2 * i + 2));
        rgba.push(v);
        rgba.push(v);
        rgba.push(v);
        rgba.push(u16::MAX);
        i += 1;
    }
    rgba
}

/// Gray to RGBA by replication with full alpha, eight-bit.
pub fn gray8_to_rgba8(gray: &[u8]) -> (rgba: Vec<u8>)
    ensures
        rgba@ == gray_to_rgba_seq(gray@, u8::MAX),
{
    let mut rgba: Vec<u8> = Vec::new();
    let mut i: usize = 0;
    while i < gray.len()
        invariant
            i <= gray@.len(),
            rgba@.len() == 4 * i,
            forall|k: int| 0 <= k < 4 * i ==> rgba@[k] == gray_to_rgba_seq(gray@, u8::MAX)[k],
        decreases gray@.len() - i,
    {
        let g: u8 = gray[i];
        rgba.push(g);
        rgba.push(g);
        rgba.push(g);
        rgba.push(u8::MAX);
        i += 1;
    }
    rgba
}

/// RGB to gray by BT.709 luma, eight-bit.
pub fn rgb8_to_gray8(rgb: &[u8]) -> (gray: Vec<u8>)
    requires
        rgb@.len() % 3 == 0,
    ensures
        gray@ == rgb8_luma_seq(rgb@),
{
    let n: usize = rgb.len() / 3;
    let mut gray: Vec<u8> = Vec::new();
    let mut i: usize = 0;
    while i < n
        invariant
            3 * n == rgb@.len() <= usize::MAX,
            i <= n,
            gray@.len() == i,
            forall|k: int| 0 <= k < i ==> gray@[k] == rgb8_luma_seq(rgb@)[k],
        decreases n - i,
    {
        gray.push(luma8(rgb[3 * i], rgb[3 * i + 1], rgb[3 * i + 2]));
        i += 1;
    }
    gray
}

/// RGB to gray by BT.709 luma, sixteen-bit samples given as big-endian pairs.
pub fn rgb16u8_to_gray16(rgb: &[u8]) -> (gray: Vec<u16>)
    requires
        rgb@.len() % 6 == 0,
    ensures
        gray@ == rgb16_luma_seq(be16_samples(rgb@)),
{
    let n: usize = rgb.len() / 6;
    let mut gray: Vec<u16> = Vec::new();
    let mut i: usize = 0;
    while i < n
        invariant
            6 * n == rgb@.len() <= usize::MAX,
            i <= n,
            gray@.len() == i,
            forall|k: int| 0 <= k < i ==> gray@[k] == rgb16_luma_seq(be16_samples(rgb@))[k],
        decreases n - i,
    {
        let r: u16 = read_u16(slice_subrange(rgb, 6 * i, 6 * i + 2));
        let g: u16 = read_u16(slice_subrange(rgb, 6 * i + 2, 6 * i + 4));
        let b: u16 = read_u16(slice_subrange(rgb, 6 * i + 4, 6 * i + 6));
        gray.push(luma16(r, g, b));
        i += 1;
    }
    gray
}

/// RGB to gray plus full alpha, sixteen-bit samples given as big-endian pairs.
pub fn rgb16u8_to_agray16(rgb: &[u8]) -> (gray: Vec<u16>)
    requires
        rgb@.len() % 6 == 0,
    ensures
        gray@ == with_alpha_seq(rgb16_luma_seq(be16_samples(rgb@)), u16::MAX),
{
    let n: usize = rgb.len() / 6;
    let mut gray: Vec<u16> = Vec::new();
    let mut i: usize = 0;
    while i < n
        invariant
            6 * n == rgb@.len() <= usize::MAX,
            i <= n,
            gray@.len() == 2 * i,
            forall|k: int|
                0 <= k < 2 * i ==> gray@[k] == with_alpha_seq(
                    rgb16_luma_seq(be16_samples(rgb@)),
                    u16::MAX,
                )[k],
        decreases n - i,
    {
        let r: u16 = read_u16(slice_subrange(rgb, 6 * i, 6 * i + 2));
        let g: u16 = read_u16(slice_subrange(rgb, 6 * i + 2, 6 * i + 4));
        let b: u16 = read_u16(slice_subrange(rgb, 6 * i + 4, 6 * i + 6));
        gray.push(luma16(r, g, b));
        gray.push(u16::MAX);
        i += 1;
    }
    gray
}

/// RGB to gray plus full alpha, eight-bit.
pub fn rgb8_to_agray8(rgb: &[u8]) -> (gray: Vec<u8>)
    requires
        rgb@.len() % 3 == 0,
    ensures
        gray@ == with_alpha_seq(rgb8_luma_seq(rgb@), u8::MAX),
{
    let n: usize = rgb.len() / 3;
    let mut gray: Vec<u8> = Vec::new();
    let mut i: usize = 0;
    while i < n
        invariant
            3 * n == rgb@.len() <= usize::MAX,
            i <= n,
            gray@.len() == 2 * i,
            forall|k: int|
                0 <= k < 2 * i ==> gray@[k] == with_alpha_seq(rgb8_luma_seq(rgb@), u8::MAX)[k],
        decreases n - i,
    {
        gray.push(luma8(rgb[3 * i], rgb[3 * i + 1], rgb[3 * i + 2]));
        gray.push(u8::MAX);
        i += 1;
    }
    gray
}

/// Sixteen-bit samples rescaled to eight bits.
pub fn u16_to_u8(samples: &[u16]) -> (out: Vec<u8>)
    ensures
        out@ == samples@.map_values(|x: u16| scale16_to_8(x)),
{
    let mut out: Vec<u8> = Vec::new();
    let mut i: usize = 0;
    while i < samples.len()
        invariant
            i <= samples@.len(),
            out@.len() == i,
            forall|k: int| 0 <= k < i ==> out@[k] == scale16_to_8(samples@[k]),
        decreases samples@.len() - i,
    {
        out.push(unit_to_byte_bits(word_to_unit_bits(samples[i])));
        i += 1;
    }
    out
}

/// Eight-bit samples rescaled to sixteen bits.
pub fn u8_to_u16(samples: &[u8]) -> (out: Vec<u16>)
    ensures
        out@ == samples@.map_values(|x: u8| scale8_to_16(x)),
{
    let mut out: Vec<u16> = Vec::new();
    let mut i: usize = 0;
    while i < samples.len()
        invariant
            i <= samples@.len(),
            out@.len() == i,
            forall|k: int| 0 <= k < i ==> out@[k] == scale8_to_16(samples@[k]),
        decreases samples@.len() - i,
    {
        out.push(samples[i] as u16 * 257);
        i += 1;
    }
    out
}

/// Rescaling eight-bit samples to sixteen bits and back returns them unchanged.
pub proof fn lemma_scale_round_trip(x: u8)
    by (bit_vector)
    ensures
        scale16_to_8(scale8_to_16(x)) == x,
{
}

/// Eight-bit samples normalised, as binary32 bit patterns.
pub fn u8_to_f32(bytes: &[u8]) -> (floats: Vec<u32>)
    ensures
        floats@ == bytes@.map_values(|b: u8| byte_to_unit(b)),
{
    let mut floats: Vec<u32> = Vec::new();
    let mut i: usize = 0;
    while i < bytes.len()
        invariant
            i <= bytes@.len(),
            floats@.len() == i,
            forall|k: int| 0 <= k < i ==> floats@[k] == byte_to_unit(bytes@[k]),
        decreases bytes@.len() - i,
    {
        floats.push(byte_to_unit_bits(bytes[i]));
        i += 1;
    }
    floats
}

/// Normalised samples, given as binary32 bit patterns, as eight-bit samples.
pub fn f32_to_u8(bytes: &[u32]) -> (out: Vec<u8>)
    ensures
        out@ == bytes@.map_values(|x: u32| unit_to_byte(x)),
{
    let mut out: Vec<u8> = Vec::new();
    let mut i: usize = 0;
    while i < bytes.len()
        invariant
            i <= bytes@.len(),
            out@.len() == i,
            forall|k: int| 0 <= k < i ==> out@[k] == unit_to_byte(bytes@[k]),
        decreases bytes@.len() - i,
    {
        out.push(unit_to_byte_bits(bytes[i]));
        i += 1;
    }
    out
}

/// Normalised samples, given as binary32 bit patterns, as sixteen-bit
/// samples.
pub fn f32_to_u16(bytes: &[u32]) -> (out: Vec<u16>)
    ensures
        out@ == bytes@.map_values(|x: u32| unit_to_word(x)),
{
    let mut out: Vec<u16> = Vec::new();
    let mut i: usize = 0;
    while i < bytes.len()
        invariant
            i <= bytes@.len(),
            out@.len() == i,
            forall|k: int| 0 <= k < i ==> out@[k] == unit_to_word(bytes@[k]),
        decreases bytes@.len() - i,
    {
        out.push(unit_to_word_bits(bytes[i]));
        i += 1;
    }
    out
}

/// Sixteen-bit samples normalised, as binary32 bit patterns.
pub fn u16_to_f32(bytes: &[u16]) -> (floats: Vec<u32>)
    ensures
        floats@ == bytes@.map_values(|x: u16| word_to_unit(x)),
{
    let mut floats: Vec<u32> = Vec::new();
    let mut i: usize = 0;
    while i < bytes.len()
        invariant
            i <= bytes@.len(),
            floats@.len() == i,
            forall|k: int| 0 <= k < i ==> floats@[k] == word_to_unit(bytes@[k]),
        decreases bytes@.len() - i,
    {
        floats.push(word_to_unit_bits(bytes[i]));
        i += 1;
    }
    floats
}

/// Normalising eight-bit samples and converting back returns them unchanged.
pub proof fn lemma_normalise_round_trip(bytes: Seq<u8>)
    ensures
        bytes.map_values(|b: u8| byte_to_unit(b)).map_values(|x: u32| unit_to_byte(x)) == bytes,
{
    let there = bytes.map_values(|b: u8| byte_to_unit(b));
    let back = there.map_values(|x: u32| unit_to_byte(x));
    assert forall|i: int| 0 <= i < bytes.len() implies back[i] == bytes[i] by {
        lemma_byte_round_trip(bytes[i]);
    }
    assert(back =~= bytes);
}

} // verus!
