use pepeline::buffer::PixelBuffer;
use pepeline::enums::ResizeFilters;
use pepeline::errors::PixelError;
use pepeline::resize::{
    get_filter_type, get_res_opt, img_shape_to_pixel_type, resize_img, Kernel, PixelKind,
    ResizeMode,
};

fn grid(height: usize, width: usize, tones: &[f32]) -> PixelBuffer<u32> {
    let bits: Vec<u32> = tones.iter().map(|t| t.to_bits()).collect();
    PixelBuffer::from_shape_vec2(height, width, bits).unwrap()
}

fn tones(buffer: &PixelBuffer<u32>) -> Vec<f32> {
    buffer.samples().iter().map(|b| f32::from_bits(*b)).collect()
}

#[test]
fn nearest_has_no_kernel() {
    assert_eq!(
        get_filter_type(&ResizeFilters::Nearest),
        Err(PixelError::InvalidParameter)
    );
    assert_eq!(get_filter_type(&ResizeFilters::Box), Ok(Kernel::Box));
    assert_eq!(get_filter_type(&ResizeFilters::Lanczos3), Ok(Kernel::Lanczos3));
    assert_eq!(get_filter_type(&ResizeFilters::Bilinear), Ok(Kernel::Bilinear));
    assert_eq!(get_filter_type(&ResizeFilters::Gaussian), Ok(Kernel::Gaussian));
    assert_eq!(get_filter_type(&ResizeFilters::CatmullRom), Ok(Kernel::CatmullRom));
    assert_eq!(get_filter_type(&ResizeFilters::Hamming), Ok(Kernel::Hamming));
    assert_eq!(get_filter_type(&ResizeFilters::Mitchell), Ok(Kernel::Mitchell));
}

#[test]
fn options_pick_the_mode() {
    assert_eq!(
        get_res_opt(&ResizeFilters::Nearest, false, None),
        Ok(ResizeMode::Nearest)
    );
    assert_eq!(
        get_res_opt(&ResizeFilters::Box, true, None),
        Ok(ResizeMode::Convolution(Kernel::Box))
    );
    assert_eq!(
        get_res_opt(&ResizeFilters::Box, true, Some(3)),
        Ok(ResizeMode::Convolution(Kernel::Box))
    );
    assert_eq!(
        get_res_opt(&ResizeFilters::Hamming, false, Some(3)),
        Ok(ResizeMode::SuperSampling(Kernel::Hamming, 3))
    );
    assert_eq!(
        get_res_opt(&ResizeFilters::Mitchell, false, None),
        Ok(ResizeMode::Interpolation(Kernel::Mitchell))
    );
}

#[test]
fn nearest_with_kernel_options_is_refused() {
    assert_eq!(
        get_res_opt(&ResizeFilters::Nearest, true, None),
        Err(PixelError::InvalidParameter)
    );
    assert_eq!(
        get_res_opt(&ResizeFilters::Nearest, false, Some(2)),
        Err(PixelError::InvalidParameter)
    );
    assert_eq!(
        get_res_opt(&ResizeFilters::Gaussian, false, Some(0)),
        Err(PixelError::InvalidParameter)
    );
    let img = grid(1, 1, &[0.5]);
    assert_eq!(
        resize_img(&img, (2, 2), None, Some(true), None).err(),
        Some(PixelError::InvalidParameter)
    );
    assert_eq!(
        resize_img(&img, (2, 2), Some(ResizeFilters::Nearest), None, Some(2)).err(),
        Some(PixelError::InvalidParameter)
    );
}

#[test]
fn pixel_kind_follows_the_channel_axis() {
    assert_eq!(img_shape_to_pixel_type(&[4, 5]), Ok(PixelKind::One));
    assert_eq!(img_shape_to_pixel_type(&[4, 5, 1]), Ok(PixelKind::One));
    assert_eq!(img_shape_to_pixel_type(&[4, 5, 2]), Ok(PixelKind::Two));
    assert_eq!(img_shape_to_pixel_type(&[4, 5, 3]), Ok(PixelKind::Three));
    assert_eq!(img_shape_to_pixel_type(&[4, 5, 4]), Ok(PixelKind::Four));
    assert_eq!(img_shape_to_pixel_type(&[4, 5, 5]), Err(PixelError::ShapeMismatch));
    assert_eq!(img_shape_to_pixel_type(&[4, 5, 0]), Err(PixelError::ShapeMismatch));
    assert_eq!(img_shape_to_pixel_type(&[4]), Err(PixelError::ShapeMismatch));
    assert_eq!(img_shape_to_pixel_type(&[1, 2, 3, 4]), Err(PixelError::ShapeMismatch));
}

#[test]
fn nearest_doubles_a_grid() {
    let img = grid(1, 2, &[0.25, 0.75]);
    let out = resize_img(&img, (4, 2), None, None, None).unwrap();
    assert_eq!(out.shape(), vec![2, 4]);
    assert_eq!(tones(&out), vec![0.25, 0.25, 0.75, 0.75, 0.25, 0.25, 0.75, 0.75]);
}

#[test]
fn same_size_is_a_copy() {
    let img = grid(2, 2, &[0.0, 0.25, 0.5, 1.0]);
    for filter in [ResizeFilters::Nearest, ResizeFilters::Lanczos3, ResizeFilters::Box] {
        let out = resize_img(&img, (2, 2), Some(filter), None, None).unwrap();
        assert_eq!(out.shape(), vec![2, 2]);
        assert_eq!(tones(&out), vec![0.0, 0.25, 0.5, 1.0]);
    }
}

#[test]
fn constant_image_stays_constant_under_every_kernel() {
    let img = grid(4, 4, &[0.5; 16]);
    for filter in [
        ResizeFilters::Box,
        ResizeFilters::Bilinear,
        ResizeFilters::Gaussian,
        ResizeFilters::CatmullRom,
        ResizeFilters::Lanczos3,
        ResizeFilters::Hamming,
        ResizeFilters::Mitchell,
    ] {
        for (conv, sampling) in [(Some(true), None), (None, None), (None, Some(2u8))] {
            let out = resize_img(&img, (2, 3), Some(filter), conv, sampling).unwrap();
            assert_eq!(out.shape(), vec![3, 2]);
            for t in tones(&out) {
                assert!((t - 0.5).abs() < 1e-5);
            }
        }
    }
}

#[test]
fn channels_are_kept() {
    let bits: Vec<u32> = (0..2 * 2 * 3).map(|i| (i as f32 / 12.0).to_bits()).collect();
    let img = PixelBuffer::from_shape_vec3(2, 2, 3, bits).unwrap();
    let out = resize_img(&img, (4, 4), Some(ResizeFilters::Bilinear), Some(true), None).unwrap();
    assert_eq!(out.shape(), vec![4, 4, 3]);
    let img = PixelBuffer::from_shape_vec3(1, 1, 1, vec![0.5f32.to_bits()]).unwrap();
    let out = resize_img(&img, (3, 2), None, None, None).unwrap();
    assert_eq!(out.shape(), vec![2, 3, 1]);
    assert_eq!(tones(&out), vec![0.5; 6]);
}

#[test]
fn shapes_without_pixel_format_are_refused() {
    let img = PixelBuffer::from_shape_vec3(1, 1, 5, vec![0u32; 5]).unwrap();
    assert_eq!(
        resize_img(&img, (2, 2), None, None, None).err(),
        Some(PixelError::ShapeMismatch)
    );
}

#[test]
fn empty_target() {
    let img = grid(2, 2, &[0.5; 4]);
    let out = resize_img(&img, (0, 3), None, None, None).unwrap();
    assert_eq!(out.shape(), vec![3, 0]);
    assert_eq!(out.len(), 0);
}

#[test]
fn every_job_that_is_not_refused_succeeds() {
    let modes = [
        (None, None, None),
        (Some(ResizeFilters::Nearest), Some(false), None),
        (Some(ResizeFilters::Lanczos3), Some(true), None),
        (Some(ResizeFilters::Bilinear), None, None),
        (Some(ResizeFilters::Box), None, Some(3u8)),
        (Some(ResizeFilters::Mitchell), None, Some(255u8)),
    ];
    let shapes: [(usize, usize, Option<usize>); 9] = [
        (3, 5, None),
        (3, 5, Some(1)),
        (3, 5, Some(2)),
        (3, 5, Some(3)),
        (3, 5, Some(4)),
        (1, 1, Some(4)),
        (0, 5, Some(3)),
        (4, 0, None),
        (0, 0, Some(2)),
    ];
    for (height, width, channels) in shapes {
        let count = height * width * channels.unwrap_or(1);
        let bits: Vec<u32> = (0..count).map(|i| (i as f32 / 64.0).to_bits()).collect();
        let img = match channels {
            Some(c) => PixelBuffer::from_shape_vec3(height, width, c, bits).unwrap(),
            None => PixelBuffer::from_shape_vec2(height, width, bits).unwrap(),
        };
        for size in [(7u32, 2u32), (1, 1), (5, 3), (0, 4), (4, 0), (0, 0), (64, 48)] {
            for (filter, conv, sampling) in modes {
                let out = resize_img(&img, size, filter, conv, sampling).unwrap();
                let mut shape = vec![size.1 as usize, size.0 as usize];
                shape.extend(channels);
                assert_eq!(out.shape(), shape);
            }
        }
    }
}
