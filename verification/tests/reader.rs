use pepeline::convert::{
    f32_to_u8, rgb8_to_gray32, rgb8_to_gray8, u16_to_f32, u16_to_u8, BYTE_SCALE_BITS,
};
use pepeline::errors::PixelError;
use pepeline::reader::{
    all_read_f32, normalise, psd_din32_decode, psd_gray32_decode, psd_rgb32_decode,
    psd_to_float_array, all_read_u8, gray_img_open, jpg_gray_img_open, jpg_rgb_img_open, jpg_to_array, luma2array,
    psd_din_decode, psd_gray_decode, psd_rgb_decode, psd_to_array, rgb2array, rgb_img_open,
};

fn png(img: image::DynamicImage) -> Vec<u8> {
    let mut out = std::io::Cursor::new(Vec::new());
    img.write_to(&mut out, image::ImageFormat::Png).unwrap();
    out.into_inner()
}

fn jpeg(img: image::DynamicImage) -> Vec<u8> {
    let mut out = std::io::Cursor::new(Vec::new());
    img.write_to(&mut out, image::ImageFormat::Jpeg).unwrap();
    out.into_inner()
}

fn gray_image(width: u32, height: u32, tone: u8) -> image::DynamicImage {
    let img = image::GrayImage::from_raw(width, height, vec![tone; (width * height) as usize]);
    image::DynamicImage::ImageLuma8(img.unwrap())
}

fn rgb_image(width: u32, height: u32, tone: u8) -> image::DynamicImage {
    let img = image::RgbImage::from_raw(width, height, vec![tone; (width * height * 3) as usize]);
    image::DynamicImage::ImageRgb8(img.unwrap())
}

fn psd_file(channels: u16, height: u32, width: u32, depth: u16, mode: u16, payload: &[u8]) -> Vec<u8> {
    let mut f: Vec<u8> = Vec::new();
    f.extend_from_slice(b"8BPS");
    f.extend_from_slice(&1u16.to_be_bytes());
    f.extend_from_slice(&[0u8; 6]);
    f.extend_from_slice(&channels.to_be_bytes());
    f.extend_from_slice(&height.to_be_bytes());
    f.extend_from_slice(&width.to_be_bytes());
    f.extend_from_slice(&depth.to_be_bytes());
    f.extend_from_slice(&mode.to_be_bytes());
    f.extend_from_slice(&[0u8; 12]);
    f.extend_from_slice(&0u16.to_be_bytes());
    f.extend_from_slice(payload);
    f
}

#[test]
fn byte_pairs_reduce_to_eight_bits() {
    // The pairs hold 0, 65280, 1, 65535 and 2760.
    assert_eq!(u16_to_u8(&[0, 0, 255, 0, 0, 1, 255, 255, 10, 200]), vec![0, 254, 0, 255, 11]);
    assert_eq!(u16_to_u8(&[]), Vec::<u8>::new());
    let mut pairs: Vec<u8> = Vec::new();
    let mut expected: Vec<u8> = Vec::new();
    for x in 0..=65535u16 {
        pairs.extend(x.to_be_bytes());
        expected.push((x as f32 / 65535.0 * 255.0).round() as u8);
    }
    assert_eq!(u16_to_u8(&pairs), expected);
}

#[test]
fn single_pixel_luma() {
    // 0.2126 * 255 = 54.213, 0.7152 * 255 = 182.376, 0.0722 * 255 = 18.411
    assert_eq!(rgb8_to_gray8((255, 0, 0)), 54);
    assert_eq!(rgb8_to_gray8((0, 255, 0)), 182);
    assert_eq!(rgb8_to_gray8((0, 0, 255)), 18);
    assert_eq!(rgb8_to_gray8((10, 20, 30)), 18);
    for r in (0..=255u16).step_by(5) {
        for g in (0..=255u16).step_by(3) {
            for b in (0..=255u16).step_by(11) {
                let (r, g, b) = (r as u8, g as u8, b as u8);
                let expected = (r as f32 * 0.2126 + g as f32 * 0.7152 + b as f32 * 0.0722) as u8;
                assert_eq!(rgb8_to_gray8((r, g, b)), expected);
                assert_eq!(pepeline::format_convert::rgb8_to_gray8(&[r, g, b]), vec![expected]);
            }
        }
    }
}

#[test]
fn raster_samples_get_rank_two_or_three_channels() {
    let g = luma2array(vec![1, 2, 3, 4, 5, 6], 2, 3).unwrap();
    assert_eq!(g.shape(), vec![2, 3]);
    let c = rgb2array(vec![1, 2, 3, 4, 5, 6], 1, 2).unwrap();
    assert_eq!(c.shape(), vec![1, 2, 3]);
    assert_eq!(luma2array(vec![1, 2, 3], 2, 2).err(), Some(PixelError::ShapeMismatch));
    assert_eq!(rgb2array(vec![1, 2, 3], 2, 2).err(), Some(PixelError::ShapeMismatch));
}

#[test]
fn png_through_the_generic_decoder() {
    let img = image::RgbImage::from_raw(2, 1, vec![255, 255, 255, 0, 0, 0]).unwrap();
    let file = png(image::DynamicImage::ImageRgb8(img));
    let rgb = rgb_img_open(&file).unwrap();
    assert_eq!(rgb.shape(), vec![1, 2, 3]);
    assert_eq!(rgb.samples(), &vec![255, 255, 255, 0, 0, 0]);
    let gray = gray_img_open(&file).unwrap();
    assert_eq!(gray.shape(), vec![1, 2]);
    assert_eq!(gray.samples(), &vec![255, 0]);
    assert_eq!(all_read_u8(&file, 0).unwrap().shape(), vec![1, 2]);
    assert_eq!(all_read_u8(&file, 1).unwrap().shape(), vec![1, 2, 3]);
    assert_eq!(all_read_u8(&file, 7).unwrap().shape(), vec![1, 2, 3]);
    assert_eq!(gray_img_open(b"no image").err(), Some(PixelError::Decode));
    assert_eq!(rgb_img_open(b"no image").err(), Some(PixelError::Decode));
}

#[test]
fn jpeg_through_the_jpeg_decoder() {
    let file = jpeg(gray_image(16, 8, 200));
    let gray = jpg_gray_img_open(&file).unwrap();
    assert_eq!(gray.shape(), vec![8, 16]);
    for s in gray.samples() {
        assert!((*s as i32 - 200).abs() <= 2);
    }
    // A gray file yields one sample per pixel whatever is asked for.
    assert_eq!(jpg_rgb_img_open(&file).err(), Some(PixelError::ShapeMismatch));
    let file = jpeg(rgb_image(16, 8, 200));
    let rgb = jpg_rgb_img_open(&file).unwrap();
    assert_eq!(rgb.shape(), vec![8, 16, 3]);
    for s in rgb.samples() {
        assert!((*s as i32 - 200).abs() <= 2);
    }
    let gray = jpg_gray_img_open(&file).unwrap();
    assert_eq!(gray.shape(), vec![8, 16]);
    assert_eq!(jpg_gray_img_open(&file[..40]).err(), Some(PixelError::Decode));
    assert_eq!(jpg_rgb_img_open(b"\xFF\xD8\xFF\xE0 nothing").err(), Some(PixelError::Decode));
}

#[test]
fn jpeg_family_dispatch() {
    // The encoder writes a JFIF header, so the file goes to the generic decoder.
    let file = jpeg(rgb_image(8, 8, 100));
    assert_eq!(&file[6..8], b"JF");
    assert_eq!(all_read_u8(&file, 0).unwrap().shape(), vec![8, 8]);
    assert_eq!(all_read_u8(&file, 3).unwrap().shape(), vec![8, 8, 3]);
    // With another tag it goes to the JPEG decoder.
    let mut bare = file.clone();
    bare[6] = b'X';
    bare[7] = b'X';
    assert_eq!(all_read_u8(&bare, 0).unwrap().shape(), vec![8, 8]);
    assert_eq!(all_read_u8(&bare, 1).unwrap().shape(), vec![8, 8, 3]);
}

#[test]
fn jpeg_without_size_is_a_decode_error() {
    assert_eq!(jpg_to_array(vec![1, 2], None, 0).err(), Some(PixelError::Decode));
    let g = jpg_to_array(vec![1, 2], Some((1, 2)), 0).unwrap();
    assert_eq!(g.shape(), vec![1, 2]);
    let c = jpg_to_array(vec![1, 2, 3], Some((1, 1)), 1).unwrap();
    assert_eq!(c.shape(), vec![1, 1, 3]);
    assert_eq!(
        jpg_to_array(vec![1, 2, 3], Some((1, 2)), 5).err(),
        Some(PixelError::ShapeMismatch)
    );
}

#[test]
fn unknown_family_is_refused() {
    assert_eq!(all_read_u8(&[], 0).err(), Some(PixelError::FormatDetection));
    assert_eq!(all_read_u8(&[1, 2, 3], 1).err(), Some(PixelError::FormatDetection));
    assert_eq!(
        all_read_u8(&[0xFF, 0xD8, 0xFF, 0xE1, 0], 1).err(),
        Some(PixelError::FormatDetection)
    );
}

#[test]
fn gray_psd_in_each_mode() {
    let file = psd_file(1, 2, 2, 8, 1, &[10, 20, 30, 40]);
    let g = psd_gray_decode(&file).unwrap();
    assert_eq!((g.shape(), g.samples().clone()), (vec![2, 2], vec![10, 20, 30, 40]));
    let c = psd_rgb_decode(&file).unwrap();
    assert_eq!(c.shape(), vec![2, 2, 3]);
    assert_eq!(c.samples(), &vec![10, 10, 10, 20, 20, 20, 30, 30, 30, 40, 40, 40]);
    let d = psd_din_decode(&file).unwrap();
    assert_eq!((d.shape(), d.samples().clone()), (vec![2, 2], vec![10, 20, 30, 40]));
    assert_eq!(all_read_u8(&file, 0).unwrap().shape(), vec![2, 2]);
    assert_eq!(all_read_u8(&file, 1).unwrap().shape(), vec![2, 2, 3]);
    assert_eq!(all_read_u8(&file, 2).unwrap().shape(), vec![2, 2]);
    assert_eq!(all_read_u8(&file, 200).unwrap().shape(), vec![2, 2]);
}

#[test]
fn psd_from_given_raw_samples() {
    let rgb = psd_file(3, 1, 2, 8, 3, &[]);
    let g = psd_to_array(&rgb, Some(vec![255, 0, 0, 10, 20, 30]), 0).unwrap();
    assert_eq!((g.shape(), g.samples().clone()), (vec![1, 2], vec![54, 18]));
    let c = psd_to_array(&rgb, Some(vec![255, 0, 0, 10, 20, 30]), 1).unwrap();
    assert_eq!(c.shape(), vec![1, 2, 3]);
    let d = psd_to_array(&rgb, Some(vec![255, 0, 0, 10, 20, 30]), 2).unwrap();
    assert_eq!(d.shape(), vec![1, 2, 3]);
    assert_eq!(
        psd_to_array(&rgb, Some(vec![255, 0, 0, 10, 20]), 0).err(),
        Some(PixelError::ShapeMismatch)
    );
    assert_eq!(psd_to_array(&rgb, None, 0).err(), Some(PixelError::Decode));
    assert_eq!(psd_to_array(&rgb[..20], Some(vec![]), 0).err(), Some(PixelError::Decode));
    let deep = psd_file(1, 1, 2, 16, 1, &[]);
    let g = psd_to_array(&deep, Some(vec![1, 2, 255, 255]), 2).unwrap();
    assert_eq!((g.shape(), g.samples().clone()), (vec![1, 2], vec![1, 255]));
    let g = psd_to_array(&deep, Some(vec![0, 128, 0, 129]), 2).unwrap();
    assert_eq!((g.shape(), g.samples().clone()), (vec![1, 2], vec![0, 1]));
    assert_eq!(
        psd_to_array(&deep, Some(vec![0, 1, 255]), 2).err(),
        Some(PixelError::ShapeMismatch)
    );
    let four = psd_file(4, 1, 1, 8, 3, &[]);
    let d = psd_to_array(&four, Some(vec![1, 2, 3, 4]), 9).unwrap();
    assert_eq!(d.shape(), vec![1, 1, 4]);
}

#[test]
fn broken_psd_is_a_decode_error() {
    let file = psd_file(1, 2, 2, 8, 1, &[10]);
    assert_eq!(psd_gray_decode(&file).err(), Some(PixelError::Decode));
    assert_eq!(psd_rgb_decode(b"8BPS").err(), Some(PixelError::Decode));
    assert_eq!(psd_din_decode(&file[..30]).err(), Some(PixelError::Decode));
}

fn floats(buffer: &pepeline::buffer::PixelBuffer<u32>) -> Vec<f32> {
    buffer.samples().iter().map(|b| f32::from_bits(*b)).collect()
}

fn unit(b: u8) -> f32 {
    if b == 0 {
        0.0
    } else {
        b as f32 * 0.00392156862745f32
    }
}

#[test]
fn byte_scale_of_the_readers() {
    assert_eq!(BYTE_SCALE_BITS, 255.0f32.to_bits());
}

#[test]
fn byte_pairs_normalise_by_division() {
    let out: Vec<f32> = u16_to_f32(&[0, 0, 255, 0, 0, 1, 255, 255, 10, 200])
        .into_iter()
        .map(f32::from_bits)
        .collect();
    let expected: Vec<f32> =
        [0u16, 65280, 1, 65535, 2760].iter().map(|v| *v as f32 / 65535.0).collect();
    assert_eq!(out, expected);
    for x in (0..=65535u16).step_by(7) {
        assert_eq!(u16_to_f32(&x.to_be_bytes()), vec![(x as f32 / 65535.0).to_bits()]);
    }
}

#[test]
fn normalised_luma_keeps_its_fraction() {
    let mut rgb: Vec<u8> = Vec::new();
    let mut expected: Vec<u32> = Vec::new();
    for r in (0..=255u16).step_by(5) {
        for g in (0..=255u16).step_by(7) {
            for b in (0..=255u16).step_by(11) {
                let (r, g, b) = (r as u8, g as u8, b as u8);
                rgb.extend([r, g, b]);
                let y = (r as f32 * 0.2126 + g as f32 * 0.7152 + b as f32 * 0.0722) / 255.0;
                expected.push(y.to_bits());
            }
        }
    }
    assert_eq!(rgb8_to_gray32(&rgb), expected);
}

#[test]
fn normalised_samples_rounded_to_bytes() {
    let tones = [0.0f32, 0.5, 0.999, 1.0, 1.5, -0.5, f32::NAN, 0.2, 300.0, 0.25];
    let bits: Vec<u32> = tones.iter().map(|t| t.to_bits()).collect();
    let expected: Vec<u8> = tones.iter().map(|x| (x * 255.0).round() as u8).collect();
    assert_eq!(f32_to_u8(&bits), expected);
    assert_eq!(f32_to_u8(&bits), [0, 128, 255, 255, 255, 0, 0, 51, 255, 64]);
    let mut state: u64 = 21;
    for _ in 0..100_000 {
        state = state
            .wrapping_mul(6364136223846793005)
            .wrapping_add(1442695040888963407);
        let x = f32::from_bits((state >> 32) as u32);
        assert_eq!(f32_to_u8(&[x.to_bits()]), vec![(x * 255.0).round() as u8]);
    }
}

#[test]
fn eight_bit_reading_normalised() {
    let img = image::RgbImage::from_raw(2, 1, vec![255, 128, 0, 10, 20, 30]).unwrap();
    let file = png(image::DynamicImage::ImageRgb8(img));
    let rgb = all_read_f32(&file, 1).unwrap();
    assert_eq!(rgb.shape(), vec![1, 2, 3]);
    let expected: Vec<f32> = [255u8, 128, 0, 10, 20, 30].iter().map(|b| unit(*b)).collect();
    assert_eq!(floats(&rgb), expected);
    let gray = all_read_f32(&file, 0).unwrap();
    assert_eq!(gray.shape(), vec![1, 2]);
    let eight = all_read_u8(&file, 0).unwrap();
    let expected: Vec<f32> = eight.samples().iter().map(|b| unit(*b)).collect();
    assert_eq!(floats(&gray), expected);
    assert_eq!(all_read_f32(&[1, 2], 0).err(), Some(PixelError::FormatDetection));
    assert_eq!(all_read_f32(b"no image here", 1).err(), Some(PixelError::Decode));
    let passed = normalise(Err(PixelError::ShapeMismatch));
    assert_eq!(passed.err(), Some(PixelError::ShapeMismatch));
}

#[test]
fn gray_psd_in_normalised_samples() {
    let file = psd_file(1, 2, 2, 8, 1, &[0, 51, 102, 255]);
    let expected: Vec<f32> = [0u8, 51, 102, 255].iter().map(|b| unit(*b)).collect();
    let g = psd_gray32_decode(&file).unwrap();
    assert_eq!((g.shape(), floats(&g)), (vec![2, 2], expected.clone()));
    let d = psd_din32_decode(&file).unwrap();
    assert_eq!((d.shape(), floats(&d)), (vec![2, 2], expected.clone()));
    let c = psd_rgb32_decode(&file).unwrap();
    assert_eq!(c.shape(), vec![2, 2, 3]);
    assert_eq!(floats(&c)[3..6], [expected[1]; 3]);
    assert_eq!(all_read_f32(&file, 0).unwrap().shape(), vec![2, 2]);
    assert_eq!(all_read_f32(&file, 1).unwrap().shape(), vec![2, 2, 3]);
    assert_eq!(all_read_f32(&file, 9).unwrap().shape(), vec![2, 2]);
}

#[test]
fn colour_psd_in_normalised_samples() {
    let rgb = psd_file(3, 1, 2, 8, 3, &[]);
    let raw = vec![255u8, 0, 0, 10, 20, 30];
    let g = psd_to_float_array(&rgb, Some(raw.clone()), 0).unwrap();
    let luma = |r: u8, g: u8, b: u8| (r as f32 * 0.2126 + g as f32 * 0.7152 + b as f32 * 0.0722) / 255.0;
    assert_eq!((g.shape(), floats(&g)), (vec![1, 2], vec![luma(255, 0, 0), luma(10, 20, 30)]));
    let c = psd_to_float_array(&rgb, Some(raw.clone()), 1).unwrap();
    let expected: Vec<f32> = raw.iter().map(|b| unit(*b)).collect();
    assert_eq!((c.shape(), floats(&c)), (vec![1, 2, 3], expected.clone()));
    let d = psd_to_float_array(&rgb, Some(raw.clone()), 2).unwrap();
    assert_eq!((d.shape(), floats(&d)), (vec![1, 2, 3], expected));
    assert_eq!(
        psd_to_float_array(&rgb, Some(vec![1, 2, 3, 4]), 0).err(),
        Some(PixelError::ShapeMismatch)
    );
    assert_eq!(psd_to_float_array(&rgb, None, 2).err(), Some(PixelError::Decode));
}

#[test]
fn deep_psd_in_normalised_samples() {
    let deep = psd_file(1, 1, 2, 16, 1, &[]);
    let d = psd_to_float_array(&deep, Some(vec![0, 1, 255, 255]), 2).unwrap();
    assert_eq!((d.shape(), floats(&d)), (vec![1, 2], vec![1.0 / 65535.0, 1.0]));
    assert_eq!(
        psd_to_float_array(&deep, Some(vec![0, 1, 255]), 2).err(),
        Some(PixelError::ShapeMismatch)
    );
    let g = psd_to_float_array(&deep, Some(vec![1, 2, 255, 255]), 0).unwrap();
    assert_eq!((g.shape(), floats(&g)), (vec![1, 2], vec![unit(1), 1.0]));
    let odd = psd_file(1, 1, 1, 32, 1, &[]);
    assert_eq!(
        psd_to_float_array(&odd, Some(vec![7]), 2).err(),
        Some(PixelError::Decode)
    );
    let g = psd_to_float_array(&odd, Some(vec![7]), 0).unwrap();
    assert_eq!(floats(&g), vec![unit(7)]);
}

#[test]
fn deep_psd_files_keep_the_values_of_the_file() {
    // One gray channel of sixteen bits: 258 and 65534, as the file writes
    // them, most significant byte first.
    let gray = psd_file(1, 1, 2, 16, 1, &[1, 2, 255, 254]);
    let d = psd_din_decode(&gray).unwrap();
    assert_eq!((d.shape(), d.samples().clone()), (vec![1, 2], vec![1, 255]));
    let f = psd_din32_decode(&gray).unwrap();
    assert_eq!(
        (f.shape(), floats(&f)),
        (vec![1, 2], vec![258.0 / 65535.0, 65534.0 / 65535.0])
    );
    // Three channels, one pixel: 128, 129 and 32768.
    let rgb = psd_file(3, 1, 1, 16, 3, &[0, 128, 0, 129, 128, 0]);
    let d = psd_rgb_decode(&rgb).unwrap();
    assert_eq!((d.shape(), d.samples().clone()), (vec![1, 1, 3], vec![0, 1, 128]));
}
