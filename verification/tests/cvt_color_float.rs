use pepeline::cvt_color_float::{cmyk2rgb, cvt_color_float, rgb2cmyk};
use pepeline::cvt_constants::{
    average_weight, coefficients_of, KB_2020, KB_601, KB_709, KR_2020, KR_601, KR_709, THREE_BITS,
};
use pepeline::enums::CvtType;
use pepeline::errors::PixelError;

const FLOAT_BIAS: f32 = 0.5;

/// A small generator of tones from zero to one, the same on every run.
fn tones(count: usize, mut state: u64) -> Vec<f32> {
    let mut out = Vec::with_capacity(count);
    for _ in 0..count {
        state = state
            .wrapping_mul(6364136223846793005)
            .wrapping_add(1442695040888963407);
        out.push(((state >> 40) as f32) / 16777215.0);
    }
    out
}

fn convert(img: &[f32], op: CvtType) -> Vec<f32> {
    let bits: Vec<u32> = img.iter().map(|t| t.to_bits()).collect();
    cvt_color_float(&bits, op)
        .unwrap()
        .into_iter()
        .map(f32::from_bits)
        .collect()
}

struct Standard {
    kr: f32,
    kg: f32,
    kb: f32,
    kd: f32,
    ke: f32,
    crg: f32,
    cbg: f32,
}

fn standard(kr: f32, kb: f32) -> Standard {
    let kg = 1f32 - kr - kb;
    let ke = (1_f32 - kr) / 0.5;
    let kd = (1_f32 - kb) / 0.5;
    Standard { kr, kg, kb, kd, ke, crg: kr * ke / kg, cbg: kb * kd / kg }
}

fn rgb_to_gray(rgb: &[f32], kr: f32, kg: f32, kb: f32) -> f32 {
    rgb[0] * kr + rgb[1] * kg + rgb[2] * kb
}

fn rgb_to_ycbcr(rgb: &[f32], s: &Standard) -> [f32; 3] {
    let y = rgb_to_gray(rgb, s.kr, s.kg, s.kb);
    [y, ((rgb[2] - y) / s.kd) + FLOAT_BIAS, ((rgb[0] - y) / s.ke) + FLOAT_BIAS]
}

fn ycbcr_to_rgb(ycbcr: &[f32], s: &Standard) -> [f32; 3] {
    let cb = ycbcr[1] - FLOAT_BIAS;
    let cr = ycbcr[2] - FLOAT_BIAS;
    let y = ycbcr[0];
    [
        (y + s.ke * cr).max(0f32).min(1f32),
        (y - s.crg * cr - s.cbg * cb).max(0f32).min(1f32),
        (y + s.kd * cb).max(0f32).min(1f32),
    ]
}

fn cmyk_to_rgb(cmyk: &[f32]) -> [f32; 3] {
    let k = 1.0 - cmyk[3];
    [(1.0 - cmyk[0]) * k, (1.0 - cmyk[1]) * k, (1.0 - cmyk[2]) * k]
}

fn rgb_to_cmyk(rgb: &[f32]) -> [f32; 4] {
    if rgb == [0.0, 0.0, 0.0] {
        return [0_f32, 0_f32, 0_f32, 1_f32];
    }
    let c = 1.0 - rgb[0];
    let m = 1.0 - rgb[1];
    let y = 1.0 - rgb[2];
    let min_cmy = c.min(m).min(y);
    [
        (c - min_cmy) / (1.0 - min_cmy),
        (m - min_cmy) / (1.0 - min_cmy),
        (y - min_cmy) / (1.0 - min_cmy),
        min_cmy,
    ]
}

/// The conversion computed in floats.
fn float_convert(img: &[f32], op: CvtType) -> Vec<f32> {
    let s601 = standard(0.299, 0.114);
    let s709 = standard(0.2126, 0.0722);
    let s2020 = standard(0.2627, 0.0593);
    let third = 1_f32 / 3_f32;
    let group = if op == CvtType::CMYK2RGB { 4 } else if op == CvtType::GRAY2RGB { 1 } else { 3 };
    let mut out = Vec::new();
    for px in img.chunks(group) {
        match op {
            CvtType::RGB2GrayBt2020 => out.push(rgb_to_gray(px, s2020.kr, s2020.kg, s2020.kb)),
            CvtType::RGB2GrayAverage => out.push(rgb_to_gray(px, third, third, third)),
            CvtType::RGB2GrayBt709 => out.push(rgb_to_gray(px, s709.kr, s709.kg, s709.kb)),
            CvtType::RGB2Gray => out.push(rgb_to_gray(px, s601.kr, s601.kg, s601.kb)),
            CvtType::RGB2CMYK => out.extend(rgb_to_cmyk(px)),
            CvtType::CMYK2RGB => out.extend(cmyk_to_rgb(px)),
            CvtType::RGB2YCbCr => out.extend(rgb_to_ycbcr(px, &s601)),
            CvtType::YCbCr2RGB => out.extend(ycbcr_to_rgb(px, &s601)),
            CvtType::RGB2YCvCrBt2020 => out.extend(rgb_to_ycbcr(px, &s2020)),
            CvtType::YCvCr2RGBBt2020 => out.extend(ycbcr_to_rgb(px, &s2020)),
            CvtType::RGB2YCvCrBt709 => out.extend(rgb_to_ycbcr(px, &s709)),
            CvtType::YCvCr2RGBBt709 => out.extend(ycbcr_to_rgb(px, &s709)),
            CvtType::RGB2BGR | CvtType::BGR2RGB => out.extend([px[2], px[1], px[0]]),
            CvtType::GRAY2RGB => out.extend([px[0], px[0], px[0]]),
            CvtType::RGB2Luma => unreachable!(),
        }
    }
    out
}

fn same(got: f32, expected: f32) -> bool {
    (got.is_nan() && expected.is_nan()) || got == expected
}

#[test]
fn weights_of_the_standards() {
    assert_eq!(KR_601, 0.299f32.to_bits());
    assert_eq!(KB_601, 0.114f32.to_bits());
    assert_eq!(KR_709, 0.2126f32.to_bits());
    assert_eq!(KB_709, 0.0722f32.to_bits());
    assert_eq!(KR_2020, 0.2627f32.to_bits());
    assert_eq!(KB_2020, 0.0593f32.to_bits());
    assert_eq!(THREE_BITS, 3.0f32.to_bits());
    assert_eq!(average_weight(), (1_f32 / 3_f32).to_bits());
    for (kr, kb) in [(0.299f32, 0.114f32), (0.2126, 0.0722), (0.2627, 0.0593)] {
        let expected = standard(kr, kb);
        let got = coefficients_of(kr.to_bits(), kb.to_bits());
        assert_eq!(got.kr, expected.kr.to_bits());
        assert_eq!(got.kg, expected.kg.to_bits());
        assert_eq!(got.kb, expected.kb.to_bits());
        assert_eq!(got.kd, expected.kd.to_bits());
        assert_eq!(got.ke, expected.ke.to_bits());
        assert_eq!(got.crg, expected.crg.to_bits());
        assert_eq!(got.cbg, expected.cbg.to_bits());
    }
}

#[test]
fn conversions_as_the_float_rules() {
    let mut img = tones(12 * 4000, 5);
    // some samples outside the range, and the special values
    img[1] = -0.25;
    img[7] = 1.75;
    img[13] = f32::NAN;
    img[20] = f32::INFINITY;
    img[31] = -0.0;
    for k in 36..48 {
        img[k] = 0.0;
    }
    for op in [
        CvtType::RGB2Gray,
        CvtType::RGB2GrayAverage,
        CvtType::RGB2GrayBt709,
        CvtType::RGB2GrayBt2020,
        CvtType::RGB2CMYK,
        CvtType::CMYK2RGB,
        CvtType::RGB2YCbCr,
        CvtType::YCbCr2RGB,
        CvtType::RGB2YCvCrBt2020,
        CvtType::YCvCr2RGBBt2020,
        CvtType::RGB2YCvCrBt709,
        CvtType::YCvCr2RGBBt709,
        CvtType::RGB2BGR,
        CvtType::BGR2RGB,
        CvtType::GRAY2RGB,
    ] {
        let got = convert(&img, op);
        let expected = float_convert(&img, op);
        assert_eq!(got.len(), expected.len());
        for (i, (g, e)) in got.iter().zip(expected.iter()).enumerate() {
            assert!(same(*g, *e), "{:?} sample {}: {} and {}", op, i, g, e);
        }
    }
}

#[test]
fn gray_values() {
    assert_eq!(convert(&[1.0, 1.0, 1.0], CvtType::RGB2GrayAverage), vec![1.0]);
    assert_eq!(convert(&[1.0, 0.0, 0.0], CvtType::RGB2Gray), vec![0.299]);
    assert_eq!(convert(&[0.0, 0.0, 1.0], CvtType::RGB2GrayBt709), vec![0.0722]);
    assert_eq!(convert(&[0.0, 1.0, 0.0], CvtType::RGB2GrayBt2020), vec![1.0f32 - 0.2627 - 0.0593]);
    assert_eq!(convert(&[0.25], CvtType::GRAY2RGB), vec![0.25, 0.25, 0.25]);
    assert_eq!(convert(&[0.1, 0.2, 0.3], CvtType::RGB2BGR), vec![0.3, 0.2, 0.1]);
}

#[test]
fn cmyk_by_name() {
    let rgb: Vec<u32> = [1.0f32, 0.5, 0.0].iter().map(|t| t.to_bits()).collect();
    let cmyk = rgb2cmyk(&rgb).unwrap();
    assert_eq!(cmyk, cvt_color_float(&rgb, CvtType::RGB2CMYK).unwrap());
    assert_eq!(cmyk2rgb(&cmyk).unwrap(), rgb);
    assert_eq!(rgb2cmyk(&rgb[..2]), Err(PixelError::ShapeMismatch));
    assert_eq!(cmyk2rgb(&cmyk[..3]), Err(PixelError::ShapeMismatch));
}

#[test]
fn black_is_pure_key() {
    assert_eq!(convert(&[0.0, 0.0, 0.0], CvtType::RGB2CMYK), vec![0.0, 0.0, 0.0, 1.0]);
    assert_eq!(convert(&[0.0, 0.0, 0.0, 1.0], CvtType::CMYK2RGB), vec![0.0, 0.0, 0.0]);
    assert_eq!(convert(&[-0.0, 0.0, -0.0], CvtType::RGB2CMYK), vec![0.0, 0.0, 0.0, 1.0]);
    assert_eq!(convert(&[1.0, 0.5, 0.0], CvtType::RGB2CMYK), vec![0.0, 0.5, 1.0, 0.0]);
}

#[test]
fn cmyk_round_trip() {
    let mut img: Vec<f32> = Vec::new();
    for r in 0..=20 {
        for g in 0..=20 {
            for b in 0..=20 {
                img.extend([r as f32 / 20.0, g as f32 / 20.0, b as f32 / 20.0]);
            }
        }
    }
    img.extend(tones(3 * 20_000, 77));
    let back = convert(&convert(&img, CvtType::RGB2CMYK), CvtType::CMYK2RGB);
    assert_eq!(back.len(), img.len());
    for (a, b) in img.iter().zip(back.iter()) {
        assert!((a - b).abs() <= 1e-5, "{} and {}", a, b);
    }
}

#[test]
fn ycbcr_round_trip() {
    let mut img: Vec<f32> = Vec::new();
    for r in 0..=20 {
        for g in 0..=20 {
            for b in 0..=20 {
                img.extend([r as f32 / 20.0, g as f32 / 20.0, b as f32 / 20.0]);
            }
        }
    }
    img.extend(tones(3 * 20_000, 78));
    for (there, back) in [
        (CvtType::RGB2YCbCr, CvtType::YCbCr2RGB),
        (CvtType::RGB2YCvCrBt709, CvtType::YCvCr2RGBBt709),
        (CvtType::RGB2YCvCrBt2020, CvtType::YCvCr2RGBBt2020),
    ] {
        let round = convert(&convert(&img, there), back);
        for (a, b) in img.iter().zip(round.iter()) {
            assert!((a - b).abs() <= 1e-4, "{} and {}", a, b);
        }
    }
}

#[test]
fn broken_pixels_and_powers_are_refused() {
    assert_eq!(
        cvt_color_float(&[0, 0], CvtType::RGB2Gray),
        Err(PixelError::ShapeMismatch)
    );
    assert_eq!(
        cvt_color_float(&[0, 0, 0, 0, 0], CvtType::CMYK2RGB),
        Err(PixelError::ShapeMismatch)
    );
    assert_eq!(
        cvt_color_float(&[0, 0, 0, 0], CvtType::RGB2YCbCr),
        Err(PixelError::ShapeMismatch)
    );
    assert_eq!(
        cvt_color_float(&[0, 0, 0], CvtType::RGB2Luma),
        Err(PixelError::UnsupportedConversion)
    );
    assert_eq!(cvt_color_float(&[], CvtType::RGB2CMYK), Ok(vec![]));
}

#[test]
fn rgb_from_ycbcr_stays_in_range() {
    let wild = [
        0.0f32, -0.0, 1.0, -1.0, 0.5, 2.5, -7.0, 1e30, -1e30, 1e-40,
        f32::INFINITY, f32::NEG_INFINITY, f32::NAN, f32::MAX, f32::MIN_POSITIVE,
    ];
    let mut img: Vec<f32> = Vec::new();
    for y in wild {
        for cb in wild {
            for cr in wild {
                img.extend([y, cb, cr]);
            }
        }
    }
    for op in [CvtType::YCbCr2RGB, CvtType::YCvCr2RGBBt709, CvtType::YCvCr2RGBBt2020] {
        for v in convert(&img, op) {
            assert!((0.0..=1.0).contains(&v), "{}", v);
        }
    }
}

#[test]
fn colours_too_dark_for_a_key_below_one() {
    // The complement of a tone of at most 2^-25 rounds to one: nothing is
    // left beside the key to take shares of.
    let edge = 2.0f32.powi(-25);
    let cmyk = convert(&[edge, edge / 2.0, 0.0], CvtType::RGB2CMYK);
    assert!(cmyk[0].is_nan() && cmyk[1].is_nan() && cmyk[2].is_nan());
    assert_eq!(cmyk[3], 1.0);
    let above = f32::from_bits(edge.to_bits() + 1);
    let cmyk = convert(&[above, above, above], CvtType::RGB2CMYK);
    assert_eq!(cmyk, vec![0.0, 0.0, 0.0, 1.0 - 2.0f32.powi(-24)]);
    let back = convert(&cmyk, CvtType::CMYK2RGB);
    for v in back {
        assert!((v - above).abs() <= 1e-5);
    }
}

#[test]
fn zeros_with_a_sign_round_trip_like_zero() {
    let img = [-0.0f32, 0.5, 1.0, 0.25, -0.0, -0.0, -0.0, -0.0, 0.75];
    let back = convert(&convert(&img, CvtType::RGB2CMYK), CvtType::CMYK2RGB);
    for (a, b) in img.iter().zip(back.iter()) {
        assert!((a - b).abs() <= 1e-5, "{} and {}", a, b);
    }
    for (there, home) in [
        (CvtType::RGB2YCbCr, CvtType::YCbCr2RGB),
        (CvtType::RGB2YCvCrBt709, CvtType::YCvCr2RGBBt709),
        (CvtType::RGB2YCvCrBt2020, CvtType::YCvCr2RGBBt2020),
    ] {
        let round = convert(&convert(&img, there), home);
        for (a, b) in img.iter().zip(round.iter()) {
            assert!((a - b).abs() <= 1e-4, "{} and {}", a, b);
            assert!((0.0..=1.0).contains(b));
        }
    }
    assert_eq!(convert(&[-0.0, -0.0, -0.0], CvtType::RGB2CMYK), vec![0.0, 0.0, 0.0, 1.0]);
}
