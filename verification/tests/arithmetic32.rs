use pepeline::arithmetic32::{
    difference_bits, from_int_bits, from_nat_bits, less_bits, maximum_bits, minimum_bits,
    negated_bits, product_bits, quotient_bits, root_bits, round_pack_bits, sum_bits,
    to_index_bits, HALF_BITS, INFINITY_BITS, NAN_BITS, SIGN_BIT, TWO_BITS,
};

/// A small generator of bit patterns, the same on every run: a mix of any
/// pattern, of everyday magnitudes, of the smallest magnitudes and of
/// special values.
fn patterns(count: usize, mut state: u64) -> Vec<u32> {
    let special = [
        0u32,
        SIGN_BIT,
        INFINITY_BITS,
        SIGN_BIT | INFINITY_BITS,
        NAN_BITS,
        1,
        0x007F_FFFF,
        0x0080_0000,
        0x7F7F_FFFF,
        0x3F80_0000,
        0xBF80_0000,
        0x3F00_0000,
        0x4B80_0000,
        0x4B7F_FFFF,
    ];
    let mut out = Vec::with_capacity(count);
    for _ in 0..count {
        state = state
            .wrapping_mul(6364136223846793005)
            .wrapping_add(1442695040888963407);
        let r = (state >> 24) as u32;
        let kind = (state >> 58) as u32;
        out.push(match kind {
            0..=5 => special[(r % special.len() as u32) as usize],
            6..=30 => r,
            31..=50 => (r & SIGN_BIT) | (0x3000_0000 + r % 0x2000_0000),
            51..=57 => (r & SIGN_BIT) | (r % 0x0180_0000),
            _ => (r & SIGN_BIT) | (0x3A00_0000 + r % 0x0C00_0000),
        });
    }
    out
}

fn same(got: u32, expected: f32) -> bool {
    if expected.is_nan() {
        f32::from_bits(got).is_nan()
    } else {
        got == expected.to_bits()
    }
}

#[test]
fn named_patterns() {
    assert_eq!(HALF_BITS, 0.5f32.to_bits());
    assert_eq!(TWO_BITS, 2.0f32.to_bits());
    assert_eq!(INFINITY_BITS, f32::INFINITY.to_bits());
    assert_eq!(SIGN_BIT, (-0.0f32).to_bits());
    assert!(f32::from_bits(NAN_BITS).is_nan());
    assert_eq!(negated_bits(1.5f32.to_bits()), (-1.5f32).to_bits());
    assert_eq!(negated_bits((-0.0f32).to_bits()), 0.0f32.to_bits());
}

#[test]
fn rounding_of_exact_values() {
    assert_eq!(round_pack_bits(false, 1, 0), 1.0f32.to_bits());
    assert_eq!(round_pack_bits(true, 3, -1), (-1.5f32).to_bits());
    assert_eq!(round_pack_bits(false, 0, 17), 0.0f32.to_bits());
    assert_eq!(round_pack_bits(true, 0, 17), (-0.0f32).to_bits());
    // 2^24 + 1 lies between two patterns: to the even one
    assert_eq!(round_pack_bits(false, 16777217, 0), 16777216.0f32.to_bits());
    assert_eq!(round_pack_bits(false, 16777219, 0), 16777220.0f32.to_bits());
    assert_eq!(round_pack_bits(false, 16777218, 0), 16777218.0f32.to_bits());
    // the smallest pattern, and what rounds to it and to zero
    assert_eq!(round_pack_bits(false, 1, -149), 1);
    assert_eq!(round_pack_bits(false, 3, -151), 1);
    assert_eq!(round_pack_bits(false, 1, -150), 0);
    assert_eq!(round_pack_bits(false, 1, -400), 0);
    // the largest pattern, and beyond
    assert_eq!(round_pack_bits(false, 0xFF_FFFF, 104), f32::MAX.to_bits());
    assert_eq!(round_pack_bits(false, 0x1FF_FFFF, 103), INFINITY_BITS);
    assert_eq!(round_pack_bits(true, 1, 128), SIGN_BIT | INFINITY_BITS);
    assert_eq!(round_pack_bits(false, 1, 1000), INFINITY_BITS);
}

#[test]
fn products_sums_and_differences_as_the_hardware() {
    let a = patterns(300_000, 17);
    let b = patterns(300_000, 29);
    for (x, y) in a.iter().zip(b.iter()) {
        let (fx, fy) = (f32::from_bits(*x), f32::from_bits(*y));
        assert!(same(product_bits(*x, *y), fx * fy), "{:#x} * {:#x}", x, y);
        assert!(same(sum_bits(*x, *y), fx + fy), "{:#x} + {:#x}", x, y);
        assert!(same(difference_bits(*x, *y), fx - fy), "{:#x} - {:#x}", x, y);
    }
}

#[test]
fn quotients_and_roots_as_the_hardware() {
    let a = patterns(300_000, 41);
    let b = patterns(300_000, 53);
    for (x, y) in a.iter().zip(b.iter()) {
        let (fx, fy) = (f32::from_bits(*x), f32::from_bits(*y));
        assert!(same(quotient_bits(*x, *y), fx / fy), "{:#x} / {:#x}", x, y);
        assert!(same(root_bits(*x), fx.sqrt()), "sqrt {:#x}", x);
    }
}

#[test]
fn order_as_the_hardware() {
    let a = patterns(300_000, 61);
    let b = patterns(300_000, 67);
    for (x, y) in a.iter().zip(b.iter()) {
        let (fx, fy) = (f32::from_bits(*x), f32::from_bits(*y));
        assert_eq!(less_bits(*x, *y), fx < fy, "{:#x} < {:#x}", x, y);
        if !(fx == 0.0 && fy == 0.0) {
            assert!(same(maximum_bits(*x, *y), fx.max(fy)), "max {:#x} {:#x}", x, y);
            assert!(same(minimum_bits(*x, *y), fx.min(fy)), "min {:#x} {:#x}", x, y);
        }
    }
    assert!(!less_bits(0, SIGN_BIT));
    assert!(!less_bits(SIGN_BIT, 0));
    assert!(!less_bits(NAN_BITS, 0));
    assert!(!less_bits(0, NAN_BITS));
}

#[test]
fn integers_as_the_hardware() {
    let a = patterns(200_000, 71);
    let b = patterns(200_000, 73);
    for (x, y) in a.iter().zip(b.iter()) {
        assert_eq!(to_index_bits(*x), f32::from_bits(*x) as usize, "{:#x}", x);
        let wide = ((*x as u64) << 32) | *y as u64;
        for n in [wide, wide >> 20, wide >> 40, *x as u64, (*y % 70000) as u64] {
            assert_eq!(from_nat_bits(n), (n as f32).to_bits(), "{}", n);
            let v = n as i64;
            assert_eq!(from_int_bits(v), (v as f32).to_bits(), "{}", v);
        }
    }
    assert_eq!(to_index_bits(3.99f32.to_bits()), 3);
    assert_eq!(to_index_bits((-3.99f32).to_bits()), 0);
    assert_eq!(to_index_bits(0.99f32.to_bits()), 0);
    assert_eq!(to_index_bits(f32::MAX.to_bits()), usize::MAX);
    assert_eq!(to_index_bits(INFINITY_BITS), usize::MAX);
    assert_eq!(to_index_bits(NAN_BITS), 0);
    assert_eq!(from_int_bits(i64::MIN), (i64::MIN as f32).to_bits());
    assert_eq!(from_nat_bits(u64::MAX), (u64::MAX as f32).to_bits());
    assert_eq!(from_nat_bits(0), 0);
}
