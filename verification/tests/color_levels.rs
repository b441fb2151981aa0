use pepeline::color_levels::levels;
use pepeline::convert::BYTE_SCALE_BITS;
use pepeline::errors::PixelError;

/// A small generator of tones, the same on every run; some lie outside the
/// range from zero to one.
fn tones(count: usize, mut state: u64) -> Vec<f32> {
    let mut out = Vec::with_capacity(count);
    for _ in 0..count {
        state = state
            .wrapping_mul(6364136223846793005)
            .wrapping_add(1442695040888963407);
        out.push(((state >> 40) as f32) / 16777216.0 * 1.5 - 0.25);
    }
    out
}

/// The adjustment computed in floats.
fn float_levels(x: f32, in_low: u8, in_high: u8, out_low: u8, out_high: u8) -> f32 {
    let in_low = in_low as f32 / 255.0;
    let in_high = in_high as f32 / 255.0;
    let out_low = out_low as f32 / 255.0;
    let out_high = out_high as f32 / 255.0;
    let in_range = in_high - in_low;
    let out_range = out_high - out_low;
    ((x - in_low) / in_range * out_range + out_low).max(0.0).min(1.0)
}

fn adjusted(input: &[f32], bounds: (u8, u8, u8, u8)) -> Vec<f32> {
    let mut bits: Vec<u32> = input.iter().map(|t| t.to_bits()).collect();
    levels(&mut bits, bounds.0, bounds.1, bounds.2, bounds.3).unwrap();
    bits.into_iter().map(f32::from_bits).collect()
}

#[test]
fn byte_scale() {
    assert_eq!(BYTE_SCALE_BITS, 255.0f32.to_bits());
}

#[test]
fn empty_input_range_is_refused() {
    let mut bits = vec![0.5f32.to_bits(); 3];
    assert_eq!(levels(&mut bits, 7, 7, 0, 255), Err(PixelError::InvalidParameter));
    assert_eq!(levels(&mut bits, 0, 0, 10, 20), Err(PixelError::InvalidParameter));
    assert_eq!(bits, vec![0.5f32.to_bits(); 3]);
}

#[test]
fn full_ranges_change_nothing() {
    let input: Vec<f32> = (0..=1000).map(|i| i as f32 / 1000.0).collect();
    assert_eq!(adjusted(&input, (0, 255, 0, 255)), input);
    let fine: Vec<f32> = tones(5000, 3).into_iter().filter(|t| (0.0..=1.0).contains(t)).collect();
    assert_eq!(adjusted(&fine, (0, 255, 0, 255)), fine);
}

#[test]
fn full_ranges_limit_what_lies_outside() {
    assert_eq!(
        adjusted(&[-0.5, 1.5, 2.0, f32::INFINITY, f32::NEG_INFINITY], (0, 255, 0, 255)),
        vec![0.0, 1.0, 1.0, 1.0, 0.0]
    );
}

#[test]
fn gamma_of_two_on_full_ranges() {
    let moved = adjusted(&[0.0, 0.5, 1.0], (0, 255, 0, 255));
    let lit: Vec<f32> = moved.into_iter().map(|x| x.powf(2.0)).collect();
    assert_eq!(lit, vec![0.0, 0.25, 1.0]);
}

#[test]
fn input_range_stretches_and_output_range_squeezes() {
    // (x - 0.2) / 0.6 for the input range 51..204
    let out = adjusted(&[0.2, 0.5, 0.8, 0.1, 0.9], (51, 204, 0, 255));
    assert!((out[0] - 0.0).abs() < 1e-6);
    assert!((out[1] - 0.5).abs() < 1e-6);
    assert!((out[2] - 1.0).abs() < 1e-6);
    assert_eq!(out[3], 0.0);
    assert_eq!(out[4], 1.0);
    // x * 0.6 + 0.2 for the output range 51..204
    let out = adjusted(&[0.0, 0.5, 1.0], (0, 255, 51, 204));
    assert!((out[0] - 0.2).abs() < 1e-6);
    assert!((out[1] - 0.5).abs() < 1e-6);
    assert!((out[2] - 0.8).abs() < 1e-6);
    // an inverted output range inverts the tones
    let out = adjusted(&[0.0, 0.25, 1.0], (0, 255, 255, 0));
    assert_eq!(out, vec![1.0, 0.75, 0.0]);
}

#[test]
fn levels_as_the_float_rule() {
    let input = tones(20_000, 9);
    for bounds in [
        (0u8, 255u8, 0u8, 255u8),
        (10, 240, 0, 255),
        (0, 255, 20, 230),
        (30, 200, 40, 180),
        (200, 30, 0, 255),
        (0, 255, 255, 0),
        (1, 2, 3, 4),
        (0, 1, 254, 255),
    ] {
        let got = adjusted(&input, bounds);
        for (x, y) in input.iter().zip(got.iter()) {
            let expected = float_levels(*x, bounds.0, bounds.1, bounds.2, bounds.3);
            assert_eq!(*y, expected, "{} with {:?}", x, bounds);
        }
    }
}

#[test]
fn adjusted_samples_stay_in_range() {
    let wild = [
        0.0f32, -0.0, 1.0, -1.0, 0.5, 2.5, -7.0, 1e30, -1e30, 1e-40,
        f32::INFINITY, f32::NEG_INFINITY, f32::NAN, f32::MAX, f32::MIN_POSITIVE,
    ];
    for bounds in [(0u8, 255u8, 0u8, 255u8), (10, 200, 30, 90), (200, 10, 90, 30), (0, 1, 255, 0)] {
        for v in adjusted(&wild, bounds) {
            assert!((0.0..=1.0).contains(&v), "{} with {:?}", v, bounds);
        }
    }
}
