use novafractal::fractal::fractal::compute_capped;
use novafractal::fractal::kernels::interior::render_ide_biased;
use novafractal::fractal::{flops_per_iter, render, render_neighbor_capped, FractalType};
use novafractal::gui::viewport::Viewport;

fn frame(width: u32, height: u32) -> Viewport {
    Viewport { center: [0, 0], zoom: 0x3ff0_0000_0000_0000, width, height }
}

/// A pixel's own iteration count, cut off at `cap`.
fn counted(x: usize, y: usize, cap: u32) -> u32 {
    let own = ((x * 37 + y * 91) % 300) as f32 + 0.25;
    own.min(cap as f32).to_bits()
}

#[test]
fn render_asks_every_pixel_row_by_row() {
    let sample = |(x, y): (usize, usize)| -> u32 { (10 * y + x) as u32 };
    assert_eq!(render(&frame(3, 2), &sample), vec![0, 1, 2, 10, 11, 12]);
}

#[test]
fn render_of_a_frame_without_rows_is_empty() {
    let sample = |(_x, _y): (usize, usize)| -> u32 { 1 };
    assert!(render(&frame(4, 0), &sample).is_empty());
}

#[test]
fn render_is_row_major_on_a_large_frame() {
    let sample = |(x, y): (usize, usize)| -> u32 { (x ^ (y << 8)) as u32 };
    let buf = render(&frame(200, 150), &sample);
    assert_eq!(buf.len(), 30_000);
    for y in 0..150usize {
        for x in 0..200usize {
            assert_eq!(buf[y * 200 + x], (x ^ (y << 8)) as u32);
        }
    }
}

#[test]
fn capped_value_is_recomputed_where_the_cap_is_hit() {
    let compute = |(x, y, cap): (usize, usize, u32)| -> u32 { counted(x, y, cap) };
    // 37 * 2 = 74 iterations and a quarter.
    assert_eq!(compute_capped(&compute, 2, 0, 50, 300), 74.25f32.to_bits());
    assert_eq!(compute_capped(&compute, 2, 0, 80, 300), 74.25f32.to_bits());
    assert_eq!(compute_capped(&compute, 2, 0, 50, 50), 50.0f32.to_bits());
}

#[test]
fn capped_value_keeps_a_guess_below_the_cap() {
    // A kernel whose answer under a cap differs from the full one shows which run counts.
    let compute = |(_x, _y, cap): (usize, usize, u32)| -> u32 {
        if cap < 100 { 3.5f32.to_bits() } else { 9.5f32.to_bits() }
    };
    assert_eq!(compute_capped(&compute, 0, 0, 10, 100), 3.5f32.to_bits());
    assert_eq!(compute_capped(&compute, 0, 0, 3, 100), 9.5f32.to_bits());
}

#[test]
fn neighbor_capping_changes_no_pixel() {
    let compute = |(x, y, cap): (usize, usize, u32)| -> u32 { counted(x, y, cap) };
    let full = |(x, y): (usize, usize)| -> u32 { counted(x, y, 300) };
    let vp = frame(61, 23);
    assert_eq!(render_neighbor_capped(&vp, &compute, 300, 16), render(&vp, &full));
    assert_eq!(render_neighbor_capped(&vp, &compute, 300, 0), render(&vp, &full));
}

#[test]
fn neighbor_cap_comes_from_the_left_pixel() {
    // Answers the cap it was given, so the row shows the caps themselves.
    let compute = |(x, _y, cap): (usize, usize, u32)| -> u32 {
        if x == 0 { 5.0f32.to_bits() } else { ((cap - 1) as f32).to_bits() }
    };
    let buf = render_neighbor_capped(&frame(4, 1), &compute, 40, 10);
    let values: Vec<f32> = buf.iter().map(|&b| f32::from_bits(b)).collect();
    // Caps: 40, 15, 24, 33.
    assert_eq!(values, vec![5.0, 14.0, 23.0, 32.0]);
}

#[test]
fn neighbor_cap_saturates() {
    let compute = |(_x, _y, cap): (usize, usize, u32)| -> u32 { ((cap / 2) as f32).to_bits() };
    let buf = render_neighbor_capped(&frame(3, 1), &compute, 100, u32::MAX);
    assert_eq!(buf, vec![50.0f32.to_bits(); 3]);
}

#[test]
fn flops_of_every_fractal() {
    assert_eq!(flops_per_iter(FractalType::Mandelbrot), 8);
    assert_eq!(flops_per_iter(FractalType::Julia), 8);
    assert_eq!(flops_per_iter(FractalType::Newton), 25);
    assert_eq!(flops_per_iter(FractalType::Nova), 27);
}

#[test]
fn interior_kernel_runs_right_of_interior_pixels() {
    // Every third pixel lies inside; the interior kernel marks its answers.
    let usual = |(x, _y): (usize, usize)| -> u32 {
        if x % 3 == 0 { 100.0f32.to_bits() } else { (x as f32).to_bits() }
    };
    let interior = |(x, _y): (usize, usize)| -> u32 { (x as f32 + 0.5).to_bits() };
    let buf = render_ide_biased(&frame(6, 1), FractalType::Mandelbrot, 100, &usual, &interior);
    let values: Vec<f32> = buf.iter().map(|&b| f32::from_bits(b)).collect();
    assert_eq!(values, vec![100.0, 1.5, 2.0, 100.0, 4.5, 5.0]);
}

#[test]
fn interior_kernel_is_for_the_mandelbrot_set_only() {
    let usual = |(x, _y): (usize, usize)| -> u32 { if x == 0 { 100.0f32.to_bits() } else { 1 } };
    let interior = |(_x, _y): (usize, usize)| -> u32 { 2 };
    let vp = frame(3, 1);
    assert_eq!(
        render_ide_biased(&vp, FractalType::Julia, 100, &usual, &interior),
        vec![100.0f32.to_bits(), 1, 1]
    );
    assert_eq!(
        render_ide_biased(&vp, FractalType::Mandelbrot, 100, &usual, &interior),
        vec![100.0f32.to_bits(), 2, 1]
    );
}

#[test]
fn bias_changes_no_pixel_where_the_kernels_agree() {
    let usual = |(x, y): (usize, usize)| -> u32 { counted(x, y, 80) };
    let vp = frame(40, 12);
    assert_eq!(
        render_ide_biased(&vp, FractalType::Mandelbrot, 80, &usual, &usual),
        render(&vp, &usual)
    );
}
