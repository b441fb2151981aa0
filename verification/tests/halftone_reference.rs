use pepeline::buffer::PixelBuffer;
use pepeline::enums::TypeDot;
use pepeline::halftone::dot::create_dot;
use pepeline::halftone::screentone_add::{screentone_add, screentone_rotate_add};

/// A small generator of tones, the same on every run.
fn tones(count: usize, mut state: u64) -> Vec<f32> {
    let mut out = Vec::with_capacity(count);
    for _ in 0..count {
        state = state
            .wrapping_mul(6364136223846793005)
            .wrapping_add(1442695040888963407);
        out.push(((state >> 40) as f32) / 16777216.0);
    }
    out
}

fn line(x: f32, y: f32, h: f32) -> bool {
    x - h < y && x + h > y
}

fn invline(x: f32, y: f32, h: f32) -> bool {
    -x - h < y && -x + h > y
}

fn ellipse(x: f32, y: f32, h: f32) -> bool {
    let fi = 60.0_f32.to_radians();
    x * x + y * y - 2.0 * x * y * fi.cos() < fi.sin() * fi.sin() * h * h
}

fn cross(x: f32, y: f32, b: f32) -> bool {
    let mut jj = false;
    if y > -x - b {
        jj = -x + b > y;
    }
    if y > x - b && !jj {
        jj = x + b > y;
    }
    jj
}

/// The scores of a dot computed in floats, row by row.
fn float_scores(size: usize, shape: TypeDot) -> Vec<f32> {
    let mut scores = vec![0.0f32; size * size];
    match shape {
        TypeDot::CIRCLE => {
            let point = (size as f32 / 2.0 + 0.1, size as f32 / 2.0 + 0.15);
            for i in 0..size {
                for b in 0..size {
                    scores[i * size + b] =
                        ((i as f32 - point.0).powi(2) + (b as f32 - point.1).powi(2)).sqrt();
                }
            }
        }
        _ => {
            let sweep = if shape == TypeDot::CROSS { size } else { size * 2 };
            for ii in 0..sweep {
                for i in 0..size {
                    for b in 0..size {
                        let x = i as f32 - (size / 2) as f32;
                        let y = b as f32 - (size / 2) as f32;
                        let h = ii as f32 + 1.0;
                        let inside = match shape {
                            TypeDot::CROSS => cross(x, y, h),
                            TypeDot::ELLIPSE => ellipse(x, y, h),
                            TypeDot::LINE => line(x, y, h),
                            _ => invline(x, y, h),
                        };
                        if !inside {
                            scores[i * size + b] += 1.0;
                        }
                    }
                }
            }
        }
    }
    scores
}

/// The two threshold tables of a dot computed in floats.
fn float_tables(size: usize, shape: TypeDot) -> (Vec<f32>, Vec<f32>) {
    let scores = float_scores(size, shape);
    let mut order: Vec<usize> = (0..size * size).collect();
    order.sort_by(|a, b| {
        scores[*b]
            .partial_cmp(&scores[*a])
            .unwrap_or(std::cmp::Ordering::Equal)
    });
    let step = (1.0 - 0.5) / ((size as f32).powi(2) - 1.0);
    let mut base = vec![0.0f32; size * size];
    for (n, cell) in order.iter().enumerate() {
        base[*cell] = 0.5 - (step * n as f32);
    }
    let dot: Vec<f32> = base.iter().map(|t| 1.0 - t).collect();
    let dot_inv: Vec<f32> = base.iter().map(|t| t + 0.003).collect();
    (dot, dot_inv)
}

/// The axis-aligned screen computed in floats.
fn float_screen(grid: &mut [f32], rows: usize, cols: usize, size: usize, shape: TypeDot) {
    let (dot, dot_inv) = float_tables(size, shape);
    let bias = size / 2;
    for ly in 0..rows {
        let ly2 = ly + bias;
        for lx in 0..cols {
            let value = &mut grid[ly * cols + lx];
            if *value > 0.0 && *value < 1.0 {
                let lx2 = lx + bias;
                let cell = (lx2 % size) * size + ly2 % size;
                let threshold = if (ly2 / size + lx2 / size) % 2 == 1 {
                    dot_inv[cell]
                } else {
                    dot[cell]
                };
                *value = if *value < threshold { 0.0 } else { 1.0 };
            }
        }
    }
}

/// The rotated screen computed in floats.
fn float_rotated_screen(
    grid: &mut [f32],
    rows: usize,
    cols: usize,
    size: usize,
    angle: f32,
    shape: TypeDot,
) {
    let (dot, dot_inv) = float_tables(size, shape);
    let (w, h) = (rows, cols);
    let lx_bias = w / 2;
    let ly_bias = h / 2;
    let (cos_theta, sin_theta) = (angle.cos(), angle.sin());
    for ly in 0..w {
        let ly2 = ly + ly_bias;
        for lx in 0..h {
            let value = &mut grid[ly * cols + lx];
            if *value > 0.0 && *value < 1.0 {
                let lx2 = lx + lx_bias;
                let x_rel = lx2 as f32 - w as f32;
                let y_rel = ly2 as f32 - h as f32;
                let rx = (cos_theta * x_rel - sin_theta * y_rel + w as f32) as usize;
                let ry = (sin_theta * x_rel + cos_theta * y_rel + h as f32) as usize;
                let cell = (rx % size) * size + ry % size;
                let threshold = if (ry / size + rx / size) % 2 == 1 {
                    dot_inv[cell]
                } else {
                    dot[cell]
                };
                *value = if *value < threshold { 0.0 } else { 1.0 };
            }
        }
    }
}

const SHAPES: [TypeDot; 5] = [
    TypeDot::CIRCLE,
    TypeDot::CROSS,
    TypeDot::LINE,
    TypeDot::INVLINE,
    TypeDot::ELLIPSE,
];

#[test]
fn ranks_agree_with_a_float_sort() {
    for shape in SHAPES {
        for size in [2usize, 3, 4, 5, 6, 7, 8, 11, 16, 25, 40] {
            let scores = float_scores(size, shape);
            let mut order: Vec<usize> = (0..size * size).collect();
            order.sort_by(|a, b| {
                scores[*b]
                    .partial_cmp(&scores[*a])
                    .unwrap_or(std::cmp::Ordering::Equal)
            });
            let dot = create_dot(size, shape).unwrap();
            for (n, cell) in order.iter().enumerate() {
                assert_eq!(dot.rank_at(cell / size, cell % size), n);
            }
        }
    }
}

#[test]
fn thresholds_agree_with_float_tables() {
    for shape in SHAPES {
        for size in [2usize, 3, 5, 9, 16, 31] {
            let (on, inv) = float_tables(size, shape);
            let dot = create_dot(size, shape).unwrap();
            for cell in 0..size * size {
                let (row, col) = (cell / size, cell % size);
                assert_eq!(dot.threshold_at(row, col, false), on[cell].to_bits());
                assert_eq!(dot.threshold_at(row, col, true), inv[cell].to_bits());
            }
        }
    }
}

#[test]
fn screen_agrees_with_float_thresholds() {
    for shape in SHAPES {
        for (size, seed) in [(2usize, 1u64), (3, 2), (4, 3), (7, 4), (12, 5)] {
            let (rows, cols) = (37, 41);
            let mut expected = tones(rows * cols, seed);
            expected[5] = 0.0;
            expected[6] = 1.0;
            let bits: Vec<u32> = expected.iter().map(|t| t.to_bits()).collect();
            let mut grid = PixelBuffer::from_shape_vec2(rows, cols, bits).unwrap();
            screentone_add(&mut grid, size, shape).unwrap();
            float_screen(&mut expected, rows, cols, size, shape);
            let got: Vec<f32> = grid.samples().iter().map(|b| f32::from_bits(*b)).collect();
            assert_eq!(got, expected);
        }
    }
}

#[test]
fn screen_agrees_at_the_thresholds_themselves() {
    // tones that are exactly a threshold, and its two neighbours
    for shape in SHAPES {
        let size = 5usize;
        let (on, inv) = float_tables(size, shape);
        let mut input: Vec<f32> = Vec::new();
        for t in on.iter().chain(inv.iter()) {
            let b = t.to_bits();
            input.extend([f32::from_bits(b - 1), *t, f32::from_bits(b + 1)]);
        }
        let cols = 15;
        let rows = input.len() / cols;
        for shift in 0..cols {
            let mut expected = input.clone();
            expected.rotate_left(shift * 7);
            let bits: Vec<u32> = expected.iter().map(|t| t.to_bits()).collect();
            let mut grid = PixelBuffer::from_shape_vec2(rows, cols, bits).unwrap();
            screentone_add(&mut grid, size, shape).unwrap();
            float_screen(&mut expected, rows, cols, size, shape);
            let got: Vec<f32> = grid.samples().iter().map(|b| f32::from_bits(*b)).collect();
            assert_eq!(got, expected);
        }
    }
}

#[test]
fn rotated_screen_agrees_with_float_rotation() {
    for shape in [TypeDot::CIRCLE, TypeDot::LINE, TypeDot::ELLIPSE] {
        for degrees in [1i16, 15, 30, 45, 60, 89, 90, 135, 180, 270, -20, 359] {
            for (rows, cols, size) in [(23usize, 31usize, 4usize), (40, 17, 7)] {
                let angle = (degrees as f32).to_radians();
                let mut expected = tones(rows * cols, degrees as u64 + 100);
                let bits: Vec<u32> = expected.iter().map(|t| t.to_bits()).collect();
                let mut grid = PixelBuffer::from_shape_vec2(rows, cols, bits).unwrap();
                screentone_rotate_add(
                    &mut grid,
                    size,
                    angle.cos().to_bits(),
                    angle.sin().to_bits(),
                    shape,
                )
                .unwrap();
                float_rotated_screen(&mut expected, rows, cols, size, angle, shape);
                let got: Vec<f32> = grid.samples().iter().map(|b| f32::from_bits(*b)).collect();
                assert_eq!(got, expected);
            }
        }
    }
}
