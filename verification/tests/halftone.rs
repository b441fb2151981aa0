use pepeline::buffer::PixelBuffer;
use pepeline::enums::TypeDot;
use pepeline::errors::PixelError;
use pepeline::halftone::dot::create_dot;
use pepeline::arithmetic32::{ONE_BITS, ZERO_BITS};
use pepeline::halftone::dot::{
    CENTRE_COLUMN_BITS, CENTRE_ROW_BITS, COS_SIXTY_BITS, EPSILON_BITS, SIN_SIXTY_BITS,
};
use pepeline::halftone::sample::sample_is_midtone;
use pepeline::halftone::screentone_add::{screentone_add, screentone_rotate_add};
use pepeline::halftone::utils_halftone::rotate_pixel_coordinates;

const SHAPES: [TypeDot; 5] = [
    TypeDot::CIRCLE,
    TypeDot::CROSS,
    TypeDot::ELLIPSE,
    TypeDot::LINE,
    TypeDot::INVLINE,
];

fn grid(height: usize, width: usize, tones: &[f32]) -> PixelBuffer<u32> {
    let bits: Vec<u32> = tones.iter().map(|t| t.to_bits()).collect();
    PixelBuffer::from_shape_vec2(height, width, bits).unwrap()
}

fn tones(buffer: &PixelBuffer<u32>) -> Vec<f32> {
    buffer.samples().iter().map(|b| f32::from_bits(*b)).collect()
}

fn whites(buffer: &PixelBuffer<u32>) -> usize {
    buffer.samples().iter().filter(|b| **b == ONE_BITS).count()
}

#[test]
fn bit_patterns_of_black_and_white() {
    assert_eq!(ZERO_BITS, 0.0f32.to_bits());
    assert_eq!(ONE_BITS, 1.0f32.to_bits());
}

#[test]
fn midtones_are_strictly_between_black_and_white() {
    assert!(!sample_is_midtone(0.0f32.to_bits()));
    assert!(!sample_is_midtone(1.0f32.to_bits()));
    assert!(!sample_is_midtone((-0.0f32).to_bits()));
    assert!(!sample_is_midtone((-0.5f32).to_bits()));
    assert!(!sample_is_midtone(1.5f32.to_bits()));
    assert!(!sample_is_midtone(f32::NAN.to_bits()));
    assert!(!sample_is_midtone(f32::INFINITY.to_bits()));
    assert!(sample_is_midtone(0.5f32.to_bits()));
    assert!(sample_is_midtone(f32::MIN_POSITIVE.to_bits()));
    assert!(sample_is_midtone(1.0e-45f32.to_bits()));
    assert!(sample_is_midtone(0.99999994f32.to_bits()));
}

#[test]
fn constants_of_the_dot_shapes() {
    assert_eq!(CENTRE_ROW_BITS, 0.1f32.to_bits());
    assert_eq!(CENTRE_COLUMN_BITS, 0.15f32.to_bits());
    assert_eq!(EPSILON_BITS, 0.003f32.to_bits());
    let fi = 60.0_f32.to_radians();
    assert_eq!(COS_SIXTY_BITS, fi.cos().to_bits());
    assert_eq!(SIN_SIXTY_BITS, fi.sin().to_bits());
}

/// Cosine and sine of an angle in degrees, as bit patterns.
fn turn(degrees: f32) -> (u32, u32) {
    let theta = degrees.to_radians();
    (theta.cos().to_bits(), theta.sin().to_bits())
}

#[test]
fn dot_size_below_two_is_refused() {
    for shape in SHAPES {
        assert_eq!(create_dot(0, shape).err(), Some(PixelError::InvalidParameter));
        assert_eq!(create_dot(1, shape).err(), Some(PixelError::InvalidParameter));
        assert_eq!(create_dot(65536, shape).err(), Some(PixelError::InvalidParameter));
        assert!(create_dot(2, shape).is_ok());
    }
    let mut g = grid(1, 2, &[0.25, 0.75]);
    assert_eq!(
        screentone_add(&mut g, 1, TypeDot::CIRCLE).err(),
        Some(PixelError::InvalidParameter)
    );
    assert_eq!(tones(&g), vec![0.25, 0.75]);
    assert_eq!(
        screentone_rotate_add(&mut g, 0, 1.0f32.to_bits(), 0, TypeDot::LINE).err(),
        Some(PixelError::InvalidParameter)
    );
    assert_eq!(tones(&g), vec![0.25, 0.75]);
}

#[test]
fn grid_with_channel_axis_is_refused() {
    let mut g = PixelBuffer::from_shape_vec3(1, 2, 1, vec![0.5f32.to_bits(); 2]).unwrap();
    assert_eq!(
        screentone_add(&mut g, 4, TypeDot::CIRCLE).err(),
        Some(PixelError::ShapeMismatch)
    );
    assert_eq!(g.samples(), &vec![0.5f32.to_bits(); 2]);
}

#[test]
fn ranks_are_a_permutation() {
    for shape in SHAPES {
        for size in [2usize, 3, 4, 5, 8, 13] {
            let dot = create_dot(size, shape).unwrap();
            assert_eq!(dot.size(), size);
            assert_eq!(dot.shape(), shape);
            let mut seen = vec![false; size * size];
            for row in 0..size {
                for col in 0..size {
                    let k = dot.rank_at(row, col);
                    assert!(!seen[k]);
                    seen[k] = true;
                }
            }
            assert!(seen.iter().all(|s| *s));
        }
    }
}

#[test]
fn circle_ranks_by_distance_from_the_offset_centre() {
    // side 2, centre (1.1, 1.15): the farthest cell is (0, 0), the nearest (1, 1)
    let dot = create_dot(2, TypeDot::CIRCLE).unwrap();
    assert_eq!(dot.rank_at(0, 0), 0);
    assert_eq!(dot.rank_at(0, 1), 2);
    assert_eq!(dot.rank_at(1, 0), 1);
    assert_eq!(dot.rank_at(1, 1), 3);
    // side 3, centre (1.6, 1.65): squared distances, row by row,
    // 5.2825 2.9825 2.6825 / 3.0825 0.7825 0.4825 / 2.8825 0.5825 0.2825
    let dot = create_dot(3, TypeDot::CIRCLE).unwrap();
    let ranks: Vec<usize> = (0..9).map(|c| dot.rank_at(c / 3, c % 3)).collect();
    assert_eq!(ranks, vec![0, 2, 4, 1, 5, 7, 3, 6, 8]);
}

#[test]
fn line_ranks_by_distance_from_the_diagonal() {
    // side 2: scores |i - b| are 0, 1, 1, 0; equal scores keep row-major order
    let dot = create_dot(2, TypeDot::LINE).unwrap();
    assert_eq!(dot.rank_at(0, 1), 0);
    assert_eq!(dot.rank_at(1, 0), 1);
    assert_eq!(dot.rank_at(0, 0), 2);
    assert_eq!(dot.rank_at(1, 1), 3);
}

#[test]
fn invline_ranks_by_distance_from_the_antidiagonal() {
    // side 2, x = i - 1, y = b - 1: scores |x + y| are 2, 1, 1, 0
    let dot = create_dot(2, TypeDot::INVLINE).unwrap();
    assert_eq!(dot.rank_at(0, 0), 0);
    assert_eq!(dot.rank_at(0, 1), 1);
    assert_eq!(dot.rank_at(1, 0), 2);
    assert_eq!(dot.rank_at(1, 1), 3);
}

#[test]
fn cross_scores() {
    // side 3, x = i - 1, y = b - 1, half-widths 1..=3 for the cross.
    // Outside counts of the cross: min(|x + y|, |x - y|) limited to 3.
    let dot = create_dot(3, TypeDot::CROSS).unwrap();
    let ranks: Vec<usize> = (0..9).map(|c| dot.rank_at(c / 3, c % 3)).collect();
    // scores: (0,0)->0 (0,1)->1 (0,2)->0 (1,0)->1 (1,1)->0 (1,2)->1 (2,0)->0 (2,1)->1 (2,2)->0
    assert_eq!(ranks, vec![4, 0, 5, 1, 6, 2, 7, 3, 8]);
}

#[test]
fn thresholds_follow_the_ladder() {
    let dot = create_dot(2, TypeDot::CIRCLE).unwrap();
    let step = (1.0f32 - 0.5) / (2.0f32.powi(2) - 1.0);
    for (row, col) in [(0usize, 0usize), (0, 1), (1, 0), (1, 1)] {
        let base = 0.5 - step * dot.rank_at(row, col) as f32;
        assert_eq!(dot.threshold_at(row, col, false), (1.0 - base).to_bits());
        assert_eq!(dot.threshold_at(row, col, true), (base + 0.003).to_bits());
    }
    // rank 0: base 1/2
    assert_eq!(f32::from_bits(dot.threshold_at(0, 0, false)), 0.5);
    assert_eq!(f32::from_bits(dot.threshold_at(0, 0, true)), 0.503);
    // rank 3: base 0 -> 1 on even tiles, 0.003 on odd tiles
    assert_eq!(f32::from_bits(dot.threshold_at(1, 1, false)), 1.0);
    assert_eq!(f32::from_bits(dot.threshold_at(1, 1, true)), 0.003);
}

#[test]
fn pure_black_and_white_are_untouched() {
    for shape in SHAPES {
        for size in [2usize, 3, 4, 7] {
            let input: Vec<f32> = (0..35).map(|i| if i % 3 == 0 { 1.0 } else { 0.0 }).collect();
            let mut g = grid(5, 7, &input);
            screentone_add(&mut g, size, shape).unwrap();
            assert_eq!(tones(&g), input);
            let mut g = grid(5, 7, &input);
            let (cos, sin) = turn(45.0);
            screentone_rotate_add(&mut g, size, cos, sin, shape).unwrap();
            assert_eq!(tones(&g), input);
        }
    }
}

#[test]
fn out_of_range_samples_are_untouched() {
    let input = [-0.5f32, 1.5, -0.0, 2.0];
    let mut g = grid(2, 2, &input);
    screentone_add(&mut g, 2, TypeDot::CIRCLE).unwrap();
    assert_eq!(g.samples(), &input.iter().map(|t| t.to_bits()).collect::<Vec<u32>>());
}

#[test]
fn output_is_binary() {
    for shape in SHAPES {
        let input: Vec<f32> = (0..64).map(|i| (i as f32 + 0.5) / 64.0).collect();
        let mut g = grid(8, 8, &input);
        screentone_add(&mut g, 4, shape).unwrap();
        assert!(tones(&g).iter().all(|t| *t == 0.0 || *t == 1.0));
    }
}

#[test]
fn screen_of_side_two_on_a_constant_tone() {
    // Bias 1: pixel (ly, lx) reads cell (lx2 % 2, ly2 % 2) with lx2 = lx + 1, ly2 = ly + 1,
    // from the odd table when ly2 / 2 + lx2 / 2 is odd.
    // Circle ranks of side 2: (0,0)->0 (0,1)->2 (1,0)->1 (1,1)->3.
    // Even thresholds 1/2 + rank/6, odd thresholds 1/2 - rank/6 + 0.003.
    let mut g = grid(2, 2, &[0.6; 4]);
    screentone_add(&mut g, 2, TypeDot::CIRCLE).unwrap();
    // (0,0): cell (1,1), tiles 0+0 even, threshold 1       -> black
    // (0,1): cell (0,1), tiles 0+1 odd, threshold 0.1697   -> white
    // (1,0): cell (1,0), tiles 1+0 odd, threshold 0.3363   -> white
    // (1,1): cell (0,0), tiles 1+1 even, threshold 0.5     -> white
    assert_eq!(tones(&g), vec![0.0, 1.0, 1.0, 1.0]);
    let mut g = grid(2, 2, &[0.2; 4]);
    screentone_add(&mut g, 2, TypeDot::CIRCLE).unwrap();
    assert_eq!(tones(&g), vec![0.0, 1.0, 0.0, 0.0]);
    let mut g = grid(2, 2, &[0.1; 4]);
    screentone_add(&mut g, 2, TypeDot::CIRCLE).unwrap();
    assert_eq!(tones(&g), vec![0.0, 0.0, 0.0, 0.0]);
}

#[test]
fn same_input_gives_same_output() {
    for shape in SHAPES {
        let input: Vec<f32> = (0..120).map(|i| ((i * 37) % 101) as f32 / 101.0).collect();
        let mut a = grid(10, 12, &input);
        let mut b = grid(10, 12, &input);
        screentone_add(&mut a, 5, shape).unwrap();
        screentone_add(&mut b, 5, shape).unwrap();
        assert_eq!(a.samples(), b.samples());
        let mut a = grid(10, 12, &input);
        let mut b = grid(10, 12, &input);
        let (cos, sin) = turn(30.0);
        screentone_rotate_add(&mut a, 5, cos, sin, shape).unwrap();
        screentone_rotate_add(&mut b, 5, cos, sin, shape).unwrap();
        assert_eq!(a.samples(), b.samples());
    }
}

#[test]
fn coverage_grows_with_the_tone() {
    for shape in SHAPES {
        for size in [4usize, 6, 9] {
            let mut last = 0usize;
            for step in 1..40 {
                let tone = step as f32 / 40.0;
                let mut g = grid(18, 18, &vec![tone; 18 * 18]);
                screentone_add(&mut g, size, shape).unwrap();
                let w = whites(&g);
                assert!(w >= last);
                last = w;
            }
            assert!(last > 0);
        }
    }
}

#[test]
fn rotated_coverage_grows_with_the_tone() {
    let mut last = 0usize;
    for step in 1..40 {
        let tone = step as f32 / 40.0;
        let mut g = grid(16, 20, &vec![tone; 320]);
        let (cos, sin) = turn(30.0);
        screentone_rotate_add(&mut g, 5, cos, sin, TypeDot::CIRCLE).unwrap();
        let w = whites(&g);
        assert!(w >= last);
        last = w;
    }
}

fn rotate(x: f32, y: f32, cx: f32, cy: f32, cos: f32, sin: f32) -> (usize, usize) {
    rotate_pixel_coordinates(
        x.to_bits(),
        y.to_bits(),
        cx.to_bits(),
        cy.to_bits(),
        cos.to_bits(),
        sin.to_bits(),
    )
}

#[test]
fn rotation_by_zero_keeps_coordinates() {
    assert_eq!(rotate(7.0, 9.0, 4.0, 5.0, 1.0, 0.0), (7, 9));
    assert_eq!(rotate(0.0, 0.0, 4.0, 5.0, 1.0, 0.0), (0, 0));
}

#[test]
fn rotation_by_a_quarter_turn() {
    // cos = 0, sin = 1: (x, y) -> (cx - (y - cy), cy + (x - cx))
    assert_eq!(rotate(7.0, 9.0, 4.0, 5.0, 0.0, 1.0), (0, 8));
    assert_eq!(rotate(7.0, 3.0, 4.0, 5.0, 0.0, 1.0), (6, 8));
    // negative results stop at zero
    assert_eq!(rotate(0.0, 0.0, 4.0, 5.0, 0.0, 1.0), (9, 1));
    assert_eq!(rotate(0.0, 20.0, 4.0, 5.0, 0.0, 1.0), (0, 1));
}

#[test]
fn rotation_cuts_off_the_fraction() {
    // cos = sin = 1/2: x' = (3 - 1) / 2 + 10 = 11, y' = (3 + 1) / 2 + 10 = 12
    assert_eq!(rotate(13.0, 11.0, 10.0, 10.0, 0.5, 0.5), (11, 12));
    // x' = (2 - 3) / 2 + 10 = 9.5, y' = (2 + 3) / 2 + 10 = 12.5
    assert_eq!(rotate(12.0, 13.0, 10.0, 10.0, 0.5, 0.5), (9, 12));
}

#[test]
fn rotated_screen_with_zero_angle_on_a_small_grid() {
    // rows = cols = 2: pattern position (lx + 1, ly + 1) as in the axis-aligned screen of side 2
    let mut a = grid(2, 2, &[0.6; 4]);
    screentone_rotate_add(&mut a, 2, 1.0f32.to_bits(), 0.0f32.to_bits(), TypeDot::CIRCLE).unwrap();
    assert_eq!(tones(&a), vec![0.0, 1.0, 1.0, 1.0]);
}
