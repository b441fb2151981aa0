use pepeline::buffer::{ArrayDType, PixelBuffer};
use pepeline::enums::ImgColor;
use pepeline::errors::PixelError;
use pepeline::save::{save_img_ndarray, save_img_vec, vec_shape_save, vec_shape_saveu16, CanvasDType};

#[test]
fn rank_two_is_gray() {
    let c = save_img_vec(&[1, 2, 3, 4, 5, 6], &[2, 3]).unwrap();
    assert_eq!(c.layout, ImgColor::GRAY);
    assert_eq!((c.width, c.height), (3, 2));
    assert_eq!(c.samples, vec![1, 2, 3, 4, 5, 6]);
}

#[test]
fn channel_axis_picks_the_layout() {
    let c = save_img_vec(&[1, 2, 3, 4, 5, 6], &[1, 2, 3]).unwrap();
    assert_eq!(c.layout, ImgColor::RGB);
    assert_eq!((c.width, c.height), (2, 1));
    let c = save_img_vec(&[1, 2], &[1, 2, 1]).unwrap();
    assert_eq!(c.layout, ImgColor::GRAY);
    let c = vec_shape_save(&[1, 2, 3, 4], vec![1, 2, 2]).unwrap();
    assert_eq!(c.layout, ImgColor::AGRAY);
    let c = vec_shape_save(&[1, 2, 3, 4], vec![1, 1, 4]).unwrap();
    assert_eq!(c.layout, ImgColor::RGBA);
    let c = vec_shape_saveu16(&[1000, 2000, 3000], vec![1, 1, 3]).unwrap();
    assert_eq!(c.layout, ImgColor::RGB);
    assert_eq!(c.samples, vec![1000, 2000, 3000]);
}

#[test]
fn alpha_layouts_need_the_full_set() {
    assert_eq!(
        save_img_vec(&[1, 2, 3, 4], &[1, 2, 2]).err(),
        Some(PixelError::ShapeMismatch)
    );
    assert_eq!(
        save_img_vec(&[1, 2, 3, 4], &[1, 1, 4]).err(),
        Some(PixelError::ShapeMismatch)
    );
}

#[test]
fn shapes_that_are_no_image_are_refused() {
    assert_eq!(
        vec_shape_save(&[1, 2, 3, 4, 5], vec![1, 1, 5]).err(),
        Some(PixelError::ShapeMismatch)
    );
    assert_eq!(
        vec_shape_save(&[1, 2, 3, 4], vec![4]).err(),
        Some(PixelError::ShapeMismatch)
    );
    assert_eq!(
        vec_shape_save(&[1, 2, 3, 4], vec![1, 2, 2, 1]).err(),
        Some(PixelError::ShapeMismatch)
    );
    assert_eq!(
        vec_shape_saveu16(&[], vec![]).err(),
        Some(PixelError::ShapeMismatch)
    );
}

#[test]
fn too_few_samples_are_refused_and_spare_ones_dropped() {
    assert_eq!(
        save_img_vec(&[1, 2, 3], &[2, 2]).err(),
        Some(PixelError::ShapeMismatch)
    );
    assert_eq!(
        vec_shape_save(&[1, 2, 3, 4, 5], vec![1, 2, 3]).err(),
        Some(PixelError::ShapeMismatch)
    );
    let c = save_img_vec(&[1, 2, 3, 4, 5], &[2, 2]).unwrap();
    assert_eq!(c.samples, vec![1, 2, 3, 4]);
    assert_eq!(
        save_img_vec(&[1, 2, 3], &[usize::MAX, usize::MAX]).err(),
        Some(PixelError::ShapeMismatch)
    );
}

#[test]
fn decoded_images_keep_their_sample_type() {
    let b = PixelBuffer::from_shape_vec3(1, 2, 3, vec![1u8, 2, 3, 4, 5, 6]).unwrap();
    match save_img_ndarray(ArrayDType::U8(b)).unwrap() {
        CanvasDType::U8(c) => {
            assert_eq!(c.layout, ImgColor::RGB);
            assert_eq!((c.width, c.height), (2, 1));
            assert_eq!(c.samples, vec![1, 2, 3, 4, 5, 6]);
        }
        CanvasDType::U16(_) => panic!("expected eight-bit samples"),
    }
    let b = PixelBuffer::from_shape_vec2(2, 1, vec![7u16, 8]).unwrap();
    match save_img_ndarray(ArrayDType::U16(b)).unwrap() {
        CanvasDType::U16(c) => {
            assert_eq!(c.layout, ImgColor::GRAY);
            assert_eq!((c.width, c.height), (1, 2));
            assert_eq!(c.samples, vec![7, 8]);
        }
        CanvasDType::U8(_) => panic!("expected sixteen-bit samples"),
    }
    let bits: Vec<u32> = [0.0f32, 0.5, 1.0, 0.2].iter().map(|t| t.to_bits()).collect();
    let b = PixelBuffer::from_shape_vec2(2, 2, bits).unwrap();
    match save_img_ndarray(ArrayDType::F32(b)).unwrap() {
        CanvasDType::U8(c) => {
            assert_eq!(c.layout, ImgColor::GRAY);
            assert_eq!((c.width, c.height), (2, 2));
            assert_eq!(c.samples, vec![0, 128, 255, 51]);
        }
        CanvasDType::U16(_) => panic!("expected eight-bit samples"),
    }
    let b = PixelBuffer::from_shape_vec3(1, 1, 6, vec![0u8; 6]).unwrap();
    assert_eq!(
        save_img_ndarray(ArrayDType::U8(b)).err(),
        Some(PixelError::ShapeMismatch)
    );
}
