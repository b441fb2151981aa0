use pepeline::byte_decode::{read_le_u16, read_le_u32, read_u16, read_u32};
use pepeline::format_convert::{
    be16_to_vec, gray16u8_to_rgb16, gray16u8_to_rgba16, gray8_to_rgb8, gray8_to_rgba8,
    rgb16u8_to_agray16, rgb16u8_to_gray16, rgb8_to_agray8, rgb8_to_gray8, u16_to_u8, u8_to_u16,
    LUMA_BLUE_BITS, LUMA_GREEN_BITS, LUMA_RED_BITS,
};

/// Luma of an eight-bit pixel by the float rule.
fn float_luma8(r: u8, g: u8, b: u8) -> u8 {
    (r as f32 * 0.2126 + g as f32 * 0.7152 + b as f32 * 0.0722) as u8
}

/// Luma of a sixteen-bit pixel by the float rule.
fn float_luma16(r: u16, g: u16, b: u16) -> u16 {
    (r as f32 * 0.2126 + g as f32 * 0.7152 + b as f32 * 0.0722) as u16
}

#[test]
fn big_endian_reads() {
    assert_eq!(read_u16(&[0x12, 0x34]), 0x1234);
    assert_eq!(read_u32(&[0x12, 0x34, 0x56, 0x78]), 0x1234_5678);
    assert_eq!(read_u32(&[0xFF, 0xFF, 0xFF, 0xFF, 0x00]), u32::MAX);
}

#[test]
fn little_endian_reads() {
    assert_eq!(read_le_u16(&[0x12, 0x34]), 0x3412);
    assert_eq!(read_le_u32(&[0x12, 0x34, 0x56, 0x78]), 0x7856_3412);
}

#[test]
fn byte_pairs_become_samples() {
    assert_eq!(be16_to_vec(&[0x00, 0x01, 0xFF, 0xFE]), vec![1u16, 0xFFFE]);
    assert_eq!(be16_to_vec(&[]), Vec::<u16>::new());
}

#[test]
fn gray_replicates_into_rgb() {
    assert_eq!(gray8_to_rgb8(&[7, 200]), vec![7, 7, 7, 200, 200, 200]);
    assert_eq!(gray8_to_rgb8(&[]), Vec::<u8>::new());
    assert_eq!(
        gray16u8_to_rgb16(&[0x01, 0x02, 0xFF, 0xFF]),
        vec![0x0102, 0x0102, 0x0102, 0xFFFF, 0xFFFF, 0xFFFF]
    );
}

#[test]
fn gray_replicates_into_rgba_with_full_alpha() {
    assert_eq!(gray8_to_rgba8(&[7, 200]), vec![7, 7, 7, 255, 200, 200, 200, 255]);
    assert_eq!(
        gray16u8_to_rgba16(&[0x01, 0x02]),
        vec![0x0102, 0x0102, 0x0102, 0xFFFF]
    );
}

#[test]
fn luma_weights() {
    assert_eq!(LUMA_RED_BITS, 0.2126f32.to_bits());
    assert_eq!(LUMA_GREEN_BITS, 0.7152f32.to_bits());
    assert_eq!(LUMA_BLUE_BITS, 0.0722f32.to_bits());
}

#[test]
fn luma_uses_bt709_weights() {
    // 0.2126 * 255 = 54.213, 0.7152 * 255 = 182.376, 0.0722 * 255 = 18.411
    assert_eq!(rgb8_to_gray8(&[255, 0, 0, 0, 255, 0, 0, 0, 255]), vec![54, 182, 18]);
    assert_eq!(rgb8_to_gray8(&[0, 0, 0]), vec![0]);
    assert_eq!(rgb8_to_gray8(&[10, 20, 30]), vec![18]);
    assert_eq!(rgb8_to_agray8(&[255, 0, 0, 10, 20, 30]), vec![54, 255, 18, 255]);
    // the three products are rounded, so a sum of exactly 13 comes out just below
    assert_eq!(rgb8_to_gray8(&[13, 13, 13]), vec![12]);
}

#[test]
fn eight_bit_luma_as_the_float_rule() {
    let mut rgb: Vec<u8> = Vec::new();
    let mut expected: Vec<u8> = Vec::new();
    for r in (0..=255u16).step_by(3) {
        for g in (0..=255u16).step_by(5) {
            for b in (0..=255u16).step_by(7) {
                rgb.extend([r as u8, g as u8, b as u8]);
                expected.push(float_luma8(r as u8, g as u8, b as u8));
            }
        }
    }
    for v in 0..=255u8 {
        rgb.extend([v, v, v]);
        expected.push(float_luma8(v, v, v));
    }
    assert_eq!(rgb8_to_gray8(&rgb), expected);
}

#[test]
fn sixteen_bit_luma() {
    // 0.2126 * 65535 = 13932.741
    assert_eq!(rgb16u8_to_gray16(&[0xFF, 0xFF, 0, 0, 0, 0]), vec![13932]);
    assert_eq!(
        rgb16u8_to_agray16(&[0, 0, 0xFF, 0xFF, 0, 0]),
        vec![46870, 65535]
    );
}

#[test]
fn sixteen_bit_luma_as_the_float_rule() {
    let mut rgb: Vec<u8> = Vec::new();
    let mut expected: Vec<u16> = Vec::new();
    let mut state: u64 = 5;
    for _ in 0..200_000 {
        state = state
            .wrapping_mul(6364136223846793005)
            .wrapping_add(1442695040888963407);
        let (r, g, b) = ((state >> 16) as u16, (state >> 32) as u16, (state >> 48) as u16);
        rgb.extend(r.to_be_bytes());
        rgb.extend(g.to_be_bytes());
        rgb.extend(b.to_be_bytes());
        expected.push(float_luma16(r, g, b));
    }
    for v in [0u16, 1, 255, 256, 32768, 65534, 65535] {
        rgb.extend(v.to_be_bytes());
        rgb.extend(v.to_be_bytes());
        rgb.extend(v.to_be_bytes());
        expected.push(float_luma16(v, v, v));
    }
    assert_eq!(rgb16u8_to_gray16(&rgb), expected);
}

#[test]
fn depth_rescaling_matches_the_float_rule() {
    assert_eq!(u8_to_u16(&[0, 1, 128, 255]), vec![0, 257, 32896, 65535]);
    assert_eq!(u16_to_u8(&[0, 32768, 65535]), vec![0, 128, 255]);
    assert_eq!(
        u16_to_u8(&[128, 129, 256, 257, 385, 386, 32896, 65406, 65407, 65534]),
        vec![0, 1, 1, 1, 1, 2, 128, 254, 255, 255]
    );
    for x in 0..=255u8 {
        let wide = (x as f32 / 255.0 * 65535.0) as u16;
        assert_eq!(u8_to_u16(&[x]), vec![wide]);
    }
    let every: Vec<u16> = (0..=65535u16).collect();
    let narrow: Vec<u8> =
        every.iter().map(|x| (*x as f32 / 65535.0 * 255.0).round() as u8).collect();
    assert_eq!(u16_to_u8(&every), narrow);
}

#[test]
fn widening_then_narrowing_is_identity() {
    let all: Vec<u8> = (0..=255u8).collect();
    assert_eq!(u16_to_u8(&u8_to_u16(&all)), all);
}

#[test]
fn sixteen_bit_samples_written_as_big_endian_pairs() {
    assert_eq!(
        pepeline::format_convert::vec_to_be16(&[0, 1, 258, 0xABCD, 65535]),
        vec![0, 0, 0, 1, 1, 2, 0xAB, 0xCD, 255, 255]
    );
    assert_eq!(pepeline::format_convert::vec_to_be16(&[]), Vec::<u8>::new());
    let every: Vec<u16> = (0..=65535u16).collect();
    let pairs = pepeline::format_convert::vec_to_be16(&every);
    let back: Vec<u16> = pairs.chunks(2).map(|p| u16::from_be_bytes([p[0], p[1]])).collect();
    assert_eq!(back, every);
    assert_eq!(pepeline::format_convert::luma8(0, 255, 0), 182);
}
