use pepeline::cvt_color::{
    cmyk2_3ch, cvt_axis, cvt_channels, cvt_output_len, gray2_3ch, gray2rgb, gray_to_rgb, rgb2_3ch,
    rgb2_4ch, rgb2gray, rgb_to_bgr, swap_rb,
};
use pepeline::enums::CvtType;
use pepeline::errors::PixelError;

const ALL: [CvtType; 16] = [
    CvtType::RGB2Gray,
    CvtType::RGB2GrayAverage,
    CvtType::RGB2GrayBt709,
    CvtType::RGB2GrayBt2020,
    CvtType::RGB2CMYK,
    CvtType::CMYK2RGB,
    CvtType::RGB2YCbCr,
    CvtType::YCbCr2RGB,
    CvtType::RGB2YCvCrBt2020,
    CvtType::YCvCr2RGBBt2020,
    CvtType::RGB2YCvCrBt709,
    CvtType::YCvCr2RGBBt709,
    CvtType::RGB2BGR,
    CvtType::BGR2RGB,
    CvtType::GRAY2RGB,
    CvtType::RGB2Luma,
];

fn rgb_to_cmyk(r: f32, g: f32, b: f32) -> [f32; 4] {
    if r == 0.0 && g == 0.0 && b == 0.0 {
        return [0.0, 0.0, 0.0, 1.0];
    }
    let (c, m, y) = (1.0 - r, 1.0 - g, 1.0 - b);
    let k = c.min(m).min(y);
    [(c - k) / (1.0 - k), (m - k) / (1.0 - k), (y - k) / (1.0 - k), k]
}

fn cmyk_to_rgb(c: f32, m: f32, y: f32, k: f32) -> [f32; 3] {
    let w = 1.0 - k;
    [(1.0 - c) * w, (1.0 - m) * w, (1.0 - y) * w]
}

#[test]
fn channel_counts_of_every_conversion() {
    for op in ALL {
        let expected = match op {
            CvtType::RGB2Gray
            | CvtType::RGB2GrayAverage
            | CvtType::RGB2GrayBt709
            | CvtType::RGB2GrayBt2020
            | CvtType::RGB2Luma => (3, 1),
            CvtType::RGB2CMYK => (3, 4),
            CvtType::CMYK2RGB => (4, 3),
            CvtType::GRAY2RGB => (1, 3),
            _ => (3, 3),
        };
        assert_eq!(cvt_channels(op), expected);
        let axis = if expected.1 == 1 { None } else { Some(expected.1) };
        assert_eq!(cvt_axis(op), axis);
    }
}

#[test]
fn output_length_needs_whole_pixels() {
    assert_eq!(cvt_output_len(12, CvtType::RGB2Gray), Ok(4));
    assert_eq!(cvt_output_len(12, CvtType::RGB2CMYK), Ok(16));
    assert_eq!(cvt_output_len(12, CvtType::CMYK2RGB), Ok(9));
    assert_eq!(cvt_output_len(12, CvtType::RGB2YCbCr), Ok(12));
    assert_eq!(cvt_output_len(5, CvtType::GRAY2RGB), Ok(15));
    assert_eq!(cvt_output_len(0, CvtType::RGB2BGR), Ok(0));
    assert_eq!(cvt_output_len(13, CvtType::RGB2Gray), Err(PixelError::ShapeMismatch));
    assert_eq!(cvt_output_len(10, CvtType::CMYK2RGB), Err(PixelError::ShapeMismatch));
    assert_eq!(
        cvt_output_len(usize::MAX, CvtType::GRAY2RGB),
        Err(PixelError::ShapeMismatch)
    );
}

#[test]
fn channel_swap_and_replication() {
    assert_eq!(rgb_to_bgr(1.0f32, 2.0, 3.0), [3.0, 2.0, 1.0]);
    assert_eq!(gray_to_rgb(0.5f32), [0.5, 0.5, 0.5]);
    assert_eq!(
        swap_rb(&[1u8, 2, 3, 4, 5, 6]),
        Ok(vec![3, 2, 1, 6, 5, 4])
    );
    assert_eq!(swap_rb(&[1u8, 2, 3, 4]), Err(PixelError::ShapeMismatch));
    assert_eq!(gray2rgb(&[0.25f32, 0.5]), vec![0.25, 0.25, 0.25, 0.5, 0.5, 0.5]);
    let back = swap_rb(&swap_rb(&[0.1f32, 0.2, 0.3]).unwrap()).unwrap();
    assert_eq!(back, vec![0.1, 0.2, 0.3]);
}

#[test]
fn gray_pass_applies_the_function_to_each_triple() {
    let avg = |r: f32, g: f32, b: f32| (r + g + b) / 3.0;
    assert_eq!(
        rgb2gray(&[0.0f32, 0.5, 1.0, 0.3, 0.3, 0.3], avg),
        Ok(vec![0.5, 0.3])
    );
    assert_eq!(rgb2gray(&[0.0f32, 0.5], avg), Err(PixelError::ShapeMismatch));
    assert_eq!(rgb2gray(&[], avg), Ok(vec![]));
}

#[test]
fn three_channel_passes() {
    let id = |r: f32, g: f32, b: f32| [r, g, b];
    assert_eq!(rgb2_3ch(&[0.1f32, 0.2, 0.3], id), Ok(vec![0.1, 0.2, 0.3]));
    assert_eq!(rgb2_3ch(&[0.1f32, 0.2, 0.3, 0.4], id), Err(PixelError::ShapeMismatch));
    let rep = |g: u8| [g, g + 1, g + 2];
    assert_eq!(gray2_3ch(&[10u8, 20], rep), vec![10, 11, 12, 20, 21, 22]);
}

#[test]
fn black_maps_to_pure_key_and_back() {
    let cmyk = rgb2_4ch(&[0.0f32, 0.0, 0.0], rgb_to_cmyk).unwrap();
    assert_eq!(cmyk, vec![0.0, 0.0, 0.0, 1.0]);
    let rgb = cmyk2_3ch(&cmyk, cmyk_to_rgb).unwrap();
    assert_eq!(rgb, vec![0.0, 0.0, 0.0]);
}

#[test]
fn cmyk_round_trip_through_the_passes() {
    let mut img: Vec<f32> = Vec::new();
    for r in 0..=10 {
        for g in 0..=10 {
            for b in 0..=10 {
                img.extend([r as f32 / 10.0, g as f32 / 10.0, b as f32 / 10.0]);
            }
        }
    }
    let cmyk = rgb2_4ch(&img, rgb_to_cmyk).unwrap();
    assert_eq!(cmyk.len(), img.len() / 3 * 4);
    let back = cmyk2_3ch(&cmyk, cmyk_to_rgb).unwrap();
    assert_eq!(back.len(), img.len());
    for (a, b) in img.iter().zip(back.iter()) {
        assert!((a - b).abs() <= 1e-5);
    }
    assert_eq!(
        rgb2_4ch(&img[..4], rgb_to_cmyk),
        Err(PixelError::ShapeMismatch)
    );
    assert_eq!(
        cmyk2_3ch(&cmyk[..6], cmyk_to_rgb),
        Err(PixelError::ShapeMismatch)
    );
}
