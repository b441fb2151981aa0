use pepeline::arithmetic32::{NEGATIVE_ZERO_BITS, ONE_BITS, ZERO_BITS};
use pepeline::binary32::{
    byte_to_unit_bits, unit_to_byte_bits, unit_to_word_bits, word_to_unit_bits,
};
use pepeline::format_convert::{f32_to_u16, f32_to_u8, u16_to_f32, u8_to_f32};

/// A small generator of bit patterns, the same on every run.
fn patterns(count: usize, mut state: u64) -> Vec<u32> {
    let mut out = Vec::with_capacity(count);
    for _ in 0..count {
        state = state
            .wrapping_mul(6364136223846793005)
            .wrapping_add(1442695040888963407);
        out.push((state >> 32) as u32);
    }
    out
}

#[test]
fn named_bit_patterns() {
    assert_eq!(ZERO_BITS, 0.0f32.to_bits());
    assert_eq!(ONE_BITS, 1.0f32.to_bits());
    assert_eq!(NEGATIVE_ZERO_BITS, (-0.0f32).to_bits());
}

#[test]
fn bytes_normalise_as_the_float_product() {
    for b in 0..=255u8 {
        let expected = if b == 0 { 0.0 } else { b as f32 * 0.00392156862745f32 };
        assert_eq!(byte_to_unit_bits(b), expected.to_bits());
    }
    assert_eq!(byte_to_unit_bits(0), ZERO_BITS);
    assert_eq!(byte_to_unit_bits(255), ONE_BITS);
    // one step above the nearest value to one fifth: the product is rounded, not the quotient
    assert_eq!(f32::from_bits(byte_to_unit_bits(51)), 0.20000002);
}

#[test]
fn words_normalise_as_the_float_quotient() {
    for x in 0..=65535u16 {
        let expected = x as f32 / 65535.0;
        assert_eq!(word_to_unit_bits(x), expected.to_bits());
    }
}

#[test]
fn bytes_come_back_from_their_normalised_samples() {
    let all: Vec<u8> = (0..=255u8).collect();
    assert_eq!(f32_to_u8(&u8_to_f32(&all)), all);
    for b in 0..=255u8 {
        let there = f32::from_bits(byte_to_unit_bits(b));
        let back = unit_to_byte_bits(there.to_bits());
        assert!((back as i32 - b as i32).abs() <= 1);
        assert_eq!(back, b);
    }
}

#[test]
fn words_come_back_from_their_normalised_samples() {
    let all: Vec<u16> = (0..=65535u16).collect();
    assert_eq!(f32_to_u16(&u16_to_f32(&all)), all);
}

#[test]
fn normalised_samples_round_to_integers_as_the_float_rule() {
    let mut tried: Vec<u32> = vec![
        0,
        1,
        ONE_BITS,
        ONE_BITS - 1,
        ONE_BITS + 1,
        NEGATIVE_ZERO_BITS,
        0.5f32.to_bits(),
        2.0f32.to_bits(),
        1.9999999f32.to_bits(),
        f32::INFINITY.to_bits(),
        f32::NEG_INFINITY.to_bits(),
        f32::NAN.to_bits(),
        f32::MAX.to_bits(),
        f32::MIN.to_bits(),
        f32::MIN_POSITIVE.to_bits(),
        (-1.0f32).to_bits(),
        (-0.3f32).to_bits(),
        0.001953125f32.to_bits(),
        0.0019607844f32.to_bits(),
        0.0000076295f32.to_bits(),
    ];
    for n in 0..=255u32 {
        // around every rounding boundary of the eight-bit scale
        let edge = ((n as f32 + 0.5) / 255.0).to_bits();
        for d in 0..8 {
            tried.push(edge + d);
            tried.push(edge - d);
        }
    }
    for n in (0..=65535u32).step_by(7) {
        let edge = ((n as f32 + 0.5) / 65535.0).to_bits();
        for d in 0..4 {
            tried.push(edge + d);
            tried.push(edge - d);
        }
    }
    tried.extend(patterns(200_000, 7));
    // patterns between 2^-20 and 4
    tried.extend(
        patterns(400_000, 11)
            .into_iter()
            .map(|p| 0x3580_0000 + p % (0x4080_0000 - 0x3580_0000)),
    );
    for bits in tried {
        let x = f32::from_bits(bits);
        assert_eq!(unit_to_byte_bits(bits), (x * 255.0).round() as u8);
        assert_eq!(unit_to_word_bits(bits), (x * 65535.0).round() as u16);
    }
}

#[test]
fn slices_convert_sample_by_sample() {
    assert_eq!(
        u8_to_f32(&[0, 255, 51]),
        vec![0.0f32.to_bits(), 1.0f32.to_bits(), 0.20000002f32.to_bits()]
    );
    assert_eq!(
        u16_to_f32(&[0, 65535, 13107]),
        vec![0.0f32.to_bits(), 1.0f32.to_bits(), 0.2f32.to_bits()]
    );
    let floats: Vec<u32> = [0.0f32, 0.25, 0.5, 1.0, 7.0, -3.0]
        .iter()
        .map(|t| t.to_bits())
        .collect();
    assert_eq!(f32_to_u8(&floats), vec![0, 64, 128, 255, 255, 0]);
    assert_eq!(f32_to_u16(&floats), vec![0, 16384, 32768, 65535, 65535, 0]);
    assert_eq!(u8_to_f32(&[]), Vec::<u32>::new());
}
