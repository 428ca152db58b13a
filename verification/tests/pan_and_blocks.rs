use novafractal::fractal::kernels::lanes::{mandelbrot_lanes, mandelbrot_x8x2};
use novafractal::fractal::render::simd::{render_simd, render_simd_f32, render_simd_f32_ilp};
use novafractal::fractal::render::tile::{
    render_cpu_tile, render_cpu_tile_into, render_tile_exact, render_tile_exact_into,
    render_tile_exact_simd, render_tile_exact_simd_into,
};
use novafractal::fractal::{render, shift_and_fill, FractalType, F32_PRECISION_THRESHOLD};
use novafractal::gui::viewport::Viewport;

const ONE: u64 = 0x3ff0_0000_0000_0000;

fn frame(width: u32, height: u32) -> Viewport {
    Viewport { center: [0, 0], zoom: ONE, width, height }
}

/// A value for every point of the plane, so that a pan only moves the frame.
fn plane(x: i64, y: i64) -> u32 {
    ((x + 1000) * 5003 + (y + 1000)) as u32
}

#[test]
fn panned_frame_is_the_new_picture() {
    let (w, h) = (9usize, 7usize);
    for (dx, dy) in [(1, 0), (-1, 0), (8, 0), (-8, 0), (0, 1), (0, -1), (0, 6), (0, -6), (0, 0), (3, 0)] {
        let before = |(x, y): (usize, usize)| -> u32 { plane(x as i64, y as i64) };
        let after = |(x, y): (usize, usize)| -> u32 { plane(x as i64 - dx as i64, y as i64 - dy as i64) };
        let mut buf = render(&frame(9, 7), &before);
        shift_and_fill(&mut buf, w, h, dx, dy, &after);
        assert_eq!(buf, render(&frame(9, 7), &after));
    }
}

#[test]
fn pan_computes_the_new_strip_only() {
    let fresh = |(_x, _y): (usize, usize)| -> u32 { 99 };
    let mut buf: Vec<u32> = (0..12).collect();
    shift_and_fill(&mut buf, 4, 3, 1, 0, &fresh);
    assert_eq!(buf, vec![99, 0, 1, 2, 99, 4, 5, 6, 99, 8, 9, 10]);
    let mut buf: Vec<u32> = (0..12).collect();
    shift_and_fill(&mut buf, 4, 3, -2, 0, &fresh);
    assert_eq!(buf, vec![2, 3, 99, 99, 6, 7, 99, 99, 10, 11, 99, 99]);
    let mut buf: Vec<u32> = (0..12).collect();
    shift_and_fill(&mut buf, 4, 3, 0, 2, &fresh);
    assert_eq!(buf, vec![99, 99, 99, 99, 99, 99, 99, 99, 0, 1, 2, 3]);
    let mut buf: Vec<u32> = (0..12).collect();
    shift_and_fill(&mut buf, 4, 3, 0, -1, &fresh);
    assert_eq!(buf, vec![4, 5, 6, 7, 8, 9, 10, 11, 99, 99, 99, 99]);
}

#[test]
fn blocks_of_four_and_tail() {
    let block = |(x, y): (usize, usize)| -> [u32; 4] {
        std::array::from_fn(|k| (1000 + 100 * y + x + k) as u32)
    };
    let sample = |(x, y): (usize, usize)| -> u32 { (5000 + 100 * y + x) as u32 };
    let buf = render_simd(&frame(6, 2), &block, &sample);
    assert_eq!(
        buf,
        vec![1000, 1001, 1002, 1003, 5004, 5005, 1100, 1101, 1102, 1103, 5104, 5105]
    );
}

#[test]
fn blocks_of_eight_and_tail() {
    let block = |(x, y): (usize, usize)| -> [u32; 8] {
        std::array::from_fn(|k| (1000 + 100 * y + x + k) as u32)
    };
    let sample = |(x, y): (usize, usize)| -> u32 { (5000 + 100 * y + x) as u32 };
    let buf = render_simd_f32(&frame(17, 1), &block, &sample);
    let want: Vec<u32> = (0..17).map(|x| if x < 16 { 1000 + x } else { 5000 + x }).collect();
    assert_eq!(buf, want);
    let short = render_simd_f32(&frame(7, 1), &block, &sample);
    assert_eq!(short, (5000..5007).collect::<Vec<u32>>());
}

#[test]
fn interleaved_blocks() {
    let pair = |(x, _y): (usize, usize)| -> [u32; 16] { std::array::from_fn(|k| (2000 + x + k) as u32) };
    let block = |(x, _y): (usize, usize)| -> [u32; 8] { std::array::from_fn(|k| (1000 + x + k) as u32) };
    let sample = |(x, _y): (usize, usize)| -> u32 { (5000 + x) as u32 };
    let vp = frame(27, 1);
    let mandelbrot = render_simd_f32_ilp(&vp, FractalType::Mandelbrot, &pair, &block, &sample);
    let want: Vec<u32> = (0..27)
        .map(|x| if x < 16 { 2000 + x } else if x < 24 { 1000 + x } else { 5000 + x })
        .collect();
    assert_eq!(mandelbrot, want);
    let julia = render_simd_f32_ilp(&vp, FractalType::Julia, &pair, &block, &sample);
    let want: Vec<u32> = (0..27).map(|x| if x < 24 { 1000 + x } else { 5000 + x }).collect();
    assert_eq!(julia, want);
}

#[test]
fn lanes_that_agree_with_the_scalar_kernel_render_its_picture() {
    let sample = |(x, y): (usize, usize)| -> u32 { (x * 31 + y * 7) as u32 };
    let four = |(x, y): (usize, usize)| -> [u32; 4] { std::array::from_fn(|k| sample((x + k, y))) };
    let eight = |(x, y): (usize, usize)| -> [u32; 8] { std::array::from_fn(|k| sample((x + k, y))) };
    let sixteen = |(x, y): (usize, usize)| -> [u32; 16] { std::array::from_fn(|k| sample((x + k, y))) };
    for w in [1, 4, 8, 15, 16, 31, 50] {
        let vp = frame(w, 5);
        let plain = render(&vp, &sample);
        assert_eq!(render_simd(&vp, &four, &sample), plain);
        assert_eq!(render_simd_f32(&vp, &eight, &sample), plain);
        assert_eq!(
            render_simd_f32_ilp(&vp, FractalType::Mandelbrot, &sixteen, &eight, &sample),
            plain
        );
    }
}

#[test]
fn tile_shows_its_part_of_the_picture() {
    let sample = |(x, y): (usize, usize)| -> u32 { (100 * y + x) as u32 };
    assert_eq!(render_tile_exact([3, 5, 2, 3], &sample), vec![503, 504, 603, 604, 703, 704]);
    assert!(render_tile_exact([3, 5, 0, 3], &sample).is_empty());
    let mut out = vec![0u32; 6];
    render_tile_exact_into([3, 5, 2, 3], &sample, &mut out);
    assert_eq!(out, vec![503, 504, 603, 604, 703, 704]);
}

#[test]
fn tile_blocks_start_at_the_tile() {
    let block = |(x, _y): (usize, usize)| -> [u32; 8] { std::array::from_fn(|k| (1000 + x + k) as u32) };
    let sample = |(x, _y): (usize, usize)| -> u32 { (5000 + x) as u32 };
    let want: Vec<u32> = vec![1003, 1004, 1005, 1006, 1007, 1008, 1009, 1010, 5011, 5012];
    assert_eq!(render_tile_exact_simd([3, 0, 10, 1], &block, &sample), want);
    let mut out = vec![0u32; 10];
    render_tile_exact_simd_into([3, 0, 10, 1], &block, &sample, &mut out);
    assert_eq!(out, want);
}

#[test]
fn cpu_tile_uses_blocks_where_they_are_exact_enough() {
    let block = |(_x, _y): (usize, usize)| -> [u32; 8] { [8; 8] };
    let sample = |(_x, _y): (usize, usize)| -> u32 { 1 };
    let tile = [0, 0, 8, 1];
    let deep = 1e6f64.to_bits();
    let shallow = 999_999.0f64.to_bits();
    assert_eq!(deep, F32_PRECISION_THRESHOLD);
    let got = |f: FractalType, simd: bool, zoom: u64| -> u32 {
        let out = render_cpu_tile(f, tile, simd, zoom, &block, &sample);
        let mut into = vec![0u32; 8];
        render_cpu_tile_into(f, tile, simd, zoom, &block, &sample, &mut into);
        assert_eq!(out, into);
        out[0]
    };
    assert_eq!(got(FractalType::Mandelbrot, true, shallow), 8);
    assert_eq!(got(FractalType::Julia, true, shallow), 8);
    assert_eq!(got(FractalType::Newton, true, shallow), 1);
    assert_eq!(got(FractalType::Nova, true, shallow), 1);
    assert_eq!(got(FractalType::Mandelbrot, false, shallow), 1);
    assert_eq!(got(FractalType::Mandelbrot, true, deep), 1);
    assert_eq!(got(FractalType::Mandelbrot, true, f64::NAN.to_bits()), 1);
}

#[test]
fn kernels_for_one_and_two_blocks_render_alike() {
    let norms = |s: [u32; 8]| -> [u32; 8] { s };
    let step = |s: [u32; 8]| -> [u32; 8] { s.map(|v| v.wrapping_mul(2)) };
    let beyond = |r: u32| -> bool { r > 100 };
    let smooth = |(i, r): (u32, u32)| -> u32 { i * 1000 + r };
    let start = |x: usize, y: usize| -> [u32; 8] { std::array::from_fn(|k| ((x + k) * 7 + y * 13) as u32 % 90) };
    let inside = |x: usize, y: usize| -> [bool; 8] { std::array::from_fn(|k| (x + k + y) % 5 == 0) };
    let block = |(x, y): (usize, usize)| -> [u32; 8] {
        mandelbrot_lanes(start(x, y), 20, &inside(x, y), &norms, &step, &beyond, &smooth)
            .try_into()
            .unwrap()
    };
    let pair = |(x, y): (usize, usize)| -> [u32; 16] {
        let (a, b) = mandelbrot_x8x2(
            start(x, y), start(x + 8, y), 20, &inside(x, y), &inside(x + 8, y),
            &norms, &step, &beyond, &smooth,
        );
        [a, b].concat().try_into().unwrap()
    };
    let sample = |(x, y): (usize, usize)| -> u32 { (x * 31 + y) as u32 };
    for w in [1, 7, 8, 15, 16, 23, 24, 31, 32, 50] {
        let vp = frame(w, 3);
        let plain = render_simd_f32(&vp, &block, &sample);
        for fractal in [FractalType::Mandelbrot, FractalType::Julia] {
            assert_eq!(render_simd_f32_ilp(&vp, fractal, &pair, &block, &sample), plain);
        }
    }
}
