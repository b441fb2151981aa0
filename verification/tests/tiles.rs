use pepeline::buffer::PixelBuffer;
use pepeline::errors::PixelError;
use pepeline::tiles::{img2tiles, Tiles};

fn ramp(height: usize, width: usize) -> PixelBuffer<f32> {
    let samples: Vec<f32> = (0..height * width).map(|i| i as f32).collect();
    PixelBuffer::from_shape_vec2(height, width, samples).unwrap()
}

#[test]
fn shape_must_hold_the_samples() {
    assert!(PixelBuffer::from_shape_vec2(2, 3, vec![0u8; 6]).is_ok());
    assert_eq!(
        PixelBuffer::from_shape_vec2(2, 3, vec![0u8; 5]).err(),
        Some(PixelError::ShapeMismatch)
    );
    assert!(PixelBuffer::from_shape_vec3(2, 3, 4, vec![0u8; 24]).is_ok());
    assert_eq!(
        PixelBuffer::from_shape_vec3(2, 3, 4, vec![0u8; 23]).err(),
        Some(PixelError::ShapeMismatch)
    );
    assert_eq!(
        PixelBuffer::from_shape_vec3(usize::MAX, usize::MAX, 2, vec![0u8; 1]).err(),
        Some(PixelError::ShapeMismatch)
    );
    assert!(PixelBuffer::from_shape_vec(&[2, 2], vec![1u16; 4]).is_ok());
    assert_eq!(
        PixelBuffer::from_shape_vec(&[4], vec![1u16; 4]).err(),
        Some(PixelError::ShapeMismatch)
    );
    assert_eq!(
        PixelBuffer::from_shape_vec(&[1, 2, 2, 1], vec![1u16; 4]).err(),
        Some(PixelError::ShapeMismatch)
    );
    let b = PixelBuffer::from_shape_vec(&[1, 2, 3], vec![1u16; 6]).unwrap();
    assert_eq!(b.shape(), vec![1, 2, 3]);
    assert_eq!(b.channels(), Some(3));
    assert_eq!(b.depth(), 3);
}

#[test]
fn crop_takes_a_window() {
    let img = ramp(3, 4);
    let win = img.crop(1, 2, 2, 2);
    assert_eq!(win.shape(), vec![2, 2]);
    assert_eq!(win.samples(), &vec![6.0, 7.0, 10.0, 11.0]);
}

#[test]
fn split_into_even_tiles() {
    let img = ramp(4, 4);
    let (tiles, grid) = img2tiles(&img, 2);
    assert_eq!(grid, [2, 2]);
    assert_eq!(tiles.len(), 4);
    assert_eq!(tiles[0].samples(), &vec![0.0, 1.0, 4.0, 5.0]);
    assert_eq!(tiles[1].samples(), &vec![2.0, 3.0, 6.0, 7.0]);
    assert_eq!(tiles[2].samples(), &vec![8.0, 9.0, 12.0, 13.0]);
    assert_eq!(tiles[3].samples(), &vec![10.0, 11.0, 14.0, 15.0]);
}

#[test]
fn remainder_is_dropped() {
    let img = ramp(5, 7);
    let (tiles, grid) = img2tiles(&img, 2);
    assert_eq!(grid, [2, 3]);
    assert_eq!(tiles.len(), 6);
    for t in &tiles {
        assert_eq!(t.shape(), vec![2, 2]);
    }
    assert_eq!(tiles[5].samples(), &vec![18.0, 19.0, 25.0, 26.0]);
}

#[test]
fn short_axis_is_one_tile() {
    let img = ramp(2, 6);
    let (tiles, grid) = img2tiles(&img, 3);
    assert_eq!(grid, [1, 2]);
    assert_eq!(tiles[0].shape(), vec![2, 3]);
    assert_eq!(tiles[1].samples(), &vec![3.0, 4.0, 5.0, 9.0, 10.0, 11.0]);

    let img = ramp(6, 2);
    let (tiles, grid) = img2tiles(&img, 3);
    assert_eq!(grid, [2, 1]);
    assert_eq!(tiles[0].shape(), vec![3, 2]);
    assert_eq!(tiles[1].samples(), &vec![6.0, 7.0, 8.0, 9.0, 10.0, 11.0]);

    let img = ramp(2, 2);
    let (tiles, grid) = img2tiles(&img, 5);
    assert_eq!(grid, [1, 1]);
    assert_eq!(tiles[0].samples(), img.samples());
}

#[test]
fn split_then_join_is_identity() {
    for (h, w, ts) in [(4, 4, 2), (6, 9, 3), (8, 2, 2), (5, 5, 5), (3, 12, 1)] {
        let img = ramp(h, w);
        let tiles = Tiles::new(&img, ts);
        let back = tiles.to_img().unwrap();
        assert_eq!(back.shape(), img.shape());
        assert_eq!(back.samples(), img.samples());
    }
}

#[test]
fn split_then_join_keeps_channels() {
    let samples: Vec<u16> = (0..4 * 6 * 3).map(|i| i as u16).collect();
    let img = PixelBuffer::from_shape_vec3(4, 6, 3, samples).unwrap();
    let tiles = Tiles::new(&img, 2);
    assert_eq!(tiles.len(), 6);
    assert_eq!(tiles.shape(), [2, 3]);
    assert_eq!(tiles.get().shape(), vec![2, 2, 3]);
    let back = tiles.to_img().unwrap();
    assert_eq!(back.shape(), vec![4, 6, 3]);
    assert_eq!(back.samples(), img.samples());
}

#[test]
fn cursor_saturates_at_both_ends() {
    let img = ramp(2, 6);
    let mut tiles = Tiles::new(&img, 2);
    assert_eq!(tiles.len(), 3);
    assert_eq!(tiles.position(), 0);
    tiles.left();
    assert_eq!(tiles.position(), 0);
    tiles.right();
    assert_eq!(tiles.position(), 1);
    assert_eq!(tiles.get().samples(), &vec![2.0, 3.0, 8.0, 9.0]);
    tiles.right();
    tiles.right();
    tiles.right();
    assert_eq!(tiles.position(), 2);
    tiles.left();
    assert_eq!(tiles.position(), 1);
}

#[test]
fn update_shows_only_after_joining() {
    let img = ramp(2, 4);
    let mut tiles = Tiles::new(&img, 2);
    tiles.right();
    let patch = PixelBuffer::from_shape_vec2(2, 2, vec![-1.0f32; 4]).unwrap();
    assert!(tiles.update(patch));
    assert_eq!(img.samples()[2], 2.0);
    let back = tiles.to_img().unwrap();
    assert_eq!(
        back.samples(),
        &vec![0.0, 1.0, -1.0, -1.0, 4.0, 5.0, -1.0, -1.0]
    );
}

#[test]
fn joining_mismatched_tiles_fails() {
    let img = ramp(4, 4);
    let mut tiles = Tiles::new(&img, 2);
    let odd = PixelBuffer::from_shape_vec2(3, 2, vec![0.0f32; 6]).unwrap();
    tiles.update(odd);
    assert_eq!(tiles.to_img().err(), Some(PixelError::ShapeMismatch));

    let mut tiles = Tiles::new(&img, 2);
    let deep = PixelBuffer::from_shape_vec3(2, 2, 1, vec![0.0f32; 4]).unwrap();
    tiles.update(deep);
    assert_eq!(tiles.to_img().err(), Some(PixelError::ShapeMismatch));
}

#[test]
fn concatenation_along_both_axes() {
    let a = PixelBuffer::from_shape_vec2(2, 1, vec![1u8, 2]).unwrap();
    let b = PixelBuffer::from_shape_vec2(2, 2, vec![3u8, 4, 5, 6]).unwrap();
    let ab = a.concat_cols(&b).unwrap();
    assert_eq!(ab.shape(), vec![2, 3]);
    assert_eq!(ab.samples(), &vec![1, 3, 4, 2, 5, 6]);
    assert_eq!(a.concat_rows(&b).err(), Some(PixelError::ShapeMismatch));
    let c = PixelBuffer::from_shape_vec2(1, 2, vec![7u8, 8]).unwrap();
    let bc = b.concat_rows(&c).unwrap();
    assert_eq!(bc.shape(), vec![3, 2]);
    assert_eq!(bc.samples(), &vec![3, 4, 5, 6, 7, 8]);
    assert_eq!(b.concat_cols(&c).err(), Some(PixelError::ShapeMismatch));
}

fn counted(height: usize, width: usize, depth: usize, start: u16) -> Vec<u16> {
    (0..height * width * depth).map(|i| start.wrapping_add(i as u16)).collect()
}

#[test]
fn windows_agree_with_array_slices() {
    let (height, width, depth) = (5usize, 7usize, 3usize);
    let samples = counted(height, width, depth, 0);
    let flat = PixelBuffer::from_shape_vec2(height, width * depth, samples.clone()).unwrap();
    let deep = PixelBuffer::from_shape_vec3(height, width, depth, samples.clone()).unwrap();
    let flat_nd = ndarray::Array2::from_shape_vec((height, width * depth), samples.clone()).unwrap();
    let deep_nd = ndarray::Array3::from_shape_vec((height, width, depth), samples).unwrap();
    for (r0, c0, h, w) in [(0usize, 0usize, 5usize, 7usize), (1, 2, 3, 4), (4, 6, 1, 1), (2, 3, 0, 2)] {
        let rows = ndarray::Slice::from(r0..r0 + h);
        let cols = ndarray::Slice::from(c0..c0 + w);
        let window = flat.crop(r0, c0, h, w);
        let expected = flat_nd.slice_axis(ndarray::Axis(0), rows);
        let expected = expected.slice_axis(ndarray::Axis(1), cols);
        assert_eq!(window.shape(), expected.shape().to_vec());
        assert_eq!(window.into_raw_vec(), expected.iter().copied().collect::<Vec<u16>>());
        let window = deep.crop(r0, c0, h, w);
        let expected = deep_nd.slice_axis(ndarray::Axis(0), rows);
        let expected = expected.slice_axis(ndarray::Axis(1), cols);
        assert_eq!(window.shape(), expected.shape().to_vec());
        assert_eq!(window.into_raw_vec(), expected.iter().copied().collect::<Vec<u16>>());
    }
}

#[test]
fn joins_agree_with_array_concatenation() {
    let shapes = [(2usize, 3usize), (2, 5), (4, 3), (1, 1), (0, 3), (2, 0)];
    for (lh, lw) in shapes {
        for (rh, rw) in shapes {
            let left = counted(lh, lw, 1, 0);
            let right = counted(rh, rw, 1, 1000);
            let a = PixelBuffer::from_shape_vec2(lh, lw, left.clone()).unwrap();
            let b = PixelBuffer::from_shape_vec2(rh, rw, right.clone()).unwrap();
            let a_nd = ndarray::Array2::from_shape_vec((lh, lw), left).unwrap();
            let b_nd = ndarray::Array2::from_shape_vec((rh, rw), right).unwrap();
            for axis in [0usize, 1] {
                let joined = if axis == 0 { a.concat_rows(&b) } else { a.concat_cols(&b) };
                let expected = ndarray::concatenate(ndarray::Axis(axis), &[a_nd.view(), b_nd.view()]);
                match (joined, expected) {
                    (Ok(j), Ok(e)) => {
                        assert_eq!(j.shape(), e.shape().to_vec());
                        assert_eq!(j.into_raw_vec(), e.iter().copied().collect::<Vec<u16>>());
                    },
                    (Err(e), Err(_)) => assert_eq!(e, PixelError::ShapeMismatch),
                    _ => panic!("one join succeeded where the other failed"),
                }
            }
        }
    }
    for (ld, rd) in [(3usize, 3usize), (3, 4), (1, 1)] {
        let left = counted(2, 3, ld, 0);
        let right = counted(2, 2, rd, 500);
        let a = PixelBuffer::from_shape_vec3(2, 3, ld, left.clone()).unwrap();
        let b = PixelBuffer::from_shape_vec3(2, 2, rd, right.clone()).unwrap();
        let a_nd = ndarray::Array3::from_shape_vec((2, 3, ld), left).unwrap();
        let b_nd = ndarray::Array3::from_shape_vec((2, 2, rd), right).unwrap();
        let expected = ndarray::concatenate(ndarray::Axis(1), &[a_nd.view(), b_nd.view()]);
        match (a.concat_cols(&b), expected) {
            (Ok(j), Ok(e)) => {
                assert_eq!(j.shape(), e.shape().to_vec());
                assert_eq!(j.into_raw_vec(), e.iter().copied().collect::<Vec<u16>>());
            },
            (Err(e), Err(_)) => assert_eq!(e, PixelError::ShapeMismatch),
            _ => panic!("one join succeeded where the other failed"),
        }
    }
}
