use novafractal::fractal::render::mariani_silver::{render_mariani_silver, render_mariani_silver_dem};
use novafractal::fractal::{render, FractalType};
use novafractal::gui::viewport::Viewport;
use std::cell::Cell;

fn frame(width: u32, height: u32) -> Viewport {
    Viewport { center: [0, 0], zoom: 0x3ff0_0000_0000_0000, width, height }
}

/// Two half planes: a border of one value encloses that value alone.
fn halves(x: usize, _y: usize) -> u32 {
    if x < 13 { 1.0f32.to_bits() } else { 2.0f32.to_bits() }
}

#[test]
fn subdivision_renders_the_picture() {
    let sample = |(x, y): (usize, usize)| -> u32 { halves(x, y) };
    for (w, h) in [(40, 30), (30, 40), (3, 3), (2, 9), (1, 1), (33, 7)] {
        let vp = frame(w, h);
        assert_eq!(render_mariani_silver(&vp, &sample), render(&vp, &sample));
    }
}

#[test]
fn subdivision_of_an_empty_frame() {
    let sample = |(_x, _y): (usize, usize)| -> u32 { 1 };
    assert!(render_mariani_silver(&frame(0, 0), &sample).is_empty());
    assert!(render_mariani_silver(&frame(0, 5), &sample).is_empty());
}

#[test]
fn flat_frame_computes_its_border_only() {
    let asked = Cell::new(0usize);
    let sample = |(_x, _y): (usize, usize)| -> u32 {
        asked.set(asked.get() + 1);
        5.0f32.to_bits()
    };
    let buf = render_mariani_silver(&frame(20, 10), &sample);
    assert_eq!(buf, vec![5.0f32.to_bits(); 200]);
    assert_eq!(asked.get(), 2 * 20 + 2 * 8);
}

#[test]
fn hidden_detail_is_filled_over() {
    let sample = |(x, y): (usize, usize)| -> u32 {
        if (x, y) == (4, 4) { 9.0f32.to_bits() } else { 1.0f32.to_bits() }
    };
    let buf = render_mariani_silver(&frame(9, 9), &sample);
    assert_eq!(buf[4 * 9 + 4], 1.0f32.to_bits());
}

#[test]
fn border_of_the_frame_is_exact() {
    let sample = |(x, y): (usize, usize)| -> u32 { ((x * 7 + y * 3) as f32).to_bits() };
    let (w, h) = (17usize, 11usize);
    let buf = render_mariani_silver(&frame(w as u32, h as u32), &sample);
    for x in 0..w {
        assert_eq!(buf[x], sample((x, 0)));
        assert_eq!(buf[(h - 1) * w + x], sample((x, h - 1)));
    }
    for y in 0..h {
        assert_eq!(buf[y * w], sample((0, y)));
        assert_eq!(buf[y * w + w - 1], sample((w - 1, y)));
    }
}

#[test]
fn border_of_no_numbers_is_not_uniform() {
    let sample = |(_x, _y): (usize, usize)| -> u32 { f32::NAN.to_bits() };
    let vp = frame(12, 12);
    assert_eq!(render_mariani_silver(&vp, &sample), render(&vp, &sample));
}

#[test]
fn culled_rectangle_is_blended() {
    let sample = |(_x, _y): (usize, usize)| -> u32 { 0 };
    let corner = |(x, y, w, h): (usize, usize, usize, usize)| -> (u32, bool) {
        assert_eq!((w, h), (6, 4));
        (((x + y) as f32 * 0.125).to_bits(), false)
    };
    let apart = |(hi, lo): (u32, u32)| -> bool { f32::from_bits(hi) - f32::from_bits(lo) > 2.0 };
    let blend = |(v, x, y, w, h): ([u32; 4], usize, usize, usize, usize)| -> u32 {
        assert_eq!((w, h), (5, 3));
        let v = v.map(f32::from_bits);
        let (tx, ty) = (x as f32 / w as f32, y as f32 / h as f32);
        let top = v[0] + (v[1] - v[0]) * tx;
        let bot = v[2] + (v[3] - v[2]) * tx;
        (top + (bot - top) * ty).to_bits()
    };
    let buf = render_mariani_silver_dem(
        &frame(6, 4), FractalType::Mandelbrot, 100, &sample, &corner, &apart, &blend,
    );
    assert_eq!(f32::from_bits(buf[0]), 0.0);
    assert_eq!(f32::from_bits(buf[5]), 0.625);
    assert_eq!(f32::from_bits(buf[3 * 6]), 0.375);
    assert_eq!(f32::from_bits(buf[3 * 6 + 5]), 1.0);
}

#[test]
fn wide_spread_is_not_culled() {
    let sample = |(x, y): (usize, usize)| -> u32 { halves(x + y, y) };
    let corner = |(x, _y, _w, _h): (usize, usize, usize, usize)| -> (u32, bool) {
        ((x as f32).to_bits(), false)
    };
    let apart = |(hi, lo): (u32, u32)| -> bool {
        assert!(f32::from_bits(hi) >= f32::from_bits(lo));
        true
    };
    let blend = |(_v, _x, _y, _w, _h): ([u32; 4], usize, usize, usize, usize)| -> u32 { 77 };
    let vp = frame(24, 18);
    assert_eq!(
        render_mariani_silver_dem(
            &vp, FractalType::Mandelbrot, 100, &sample, &corner, &apart, &blend,
        ),
        render_mariani_silver(&vp, &sample)
    );
}

#[test]
fn corner_inside_the_set_or_near_it_is_not_culled() {
    let sample = |(x, y): (usize, usize)| -> u32 { halves(x, y) };
    let inside = |(_x, _y, _w, _h): (usize, usize, usize, usize)| -> (u32, bool) {
        (100.0f32.to_bits(), false)
    };
    let near = |(_x, _y, _w, _h): (usize, usize, usize, usize)| -> (u32, bool) {
        (1.0f32.to_bits(), true)
    };
    let apart = |(_hi, _lo): (u32, u32)| -> bool { false };
    let blend = |(_v, _x, _y, _w, _h): ([u32; 4], usize, usize, usize, usize)| -> u32 { 77 };
    let vp = frame(20, 20);
    let plain = render_mariani_silver(&vp, &sample);
    let m = FractalType::Mandelbrot;
    assert_eq!(render_mariani_silver_dem(&vp, m, 100, &sample, &inside, &apart, &blend), plain);
    assert_eq!(render_mariani_silver_dem(&vp, m, 100, &sample, &near, &apart, &blend), plain);
}

#[test]
fn other_fractals_are_never_culled() {
    let sample = |(x, y): (usize, usize)| -> u32 { halves(x, y) };
    let corner = |(_x, _y, _w, _h): (usize, usize, usize, usize)| -> (u32, bool) { (0, false) };
    let apart = |(_hi, _lo): (u32, u32)| -> bool { false };
    let blend = |(_v, _x, _y, _w, _h): ([u32; 4], usize, usize, usize, usize)| -> u32 { 77 };
    let vp = frame(20, 20);
    for f in [FractalType::Julia, FractalType::Newton, FractalType::Nova] {
        assert_eq!(
            render_mariani_silver_dem(&vp, f, 100, &sample, &corner, &apart, &blend),
            render_mariani_silver(&vp, &sample)
        );
    }
}

#[test]
fn thin_and_noisy_frames_are_complete() {
    let sample = |(x, y): (usize, usize)| -> u32 { (((x * 31 + y * 17) % 23) as f32).to_bits() };
    for (w, h) in [(2, 40), (40, 2), (1, 9), (9, 1)] {
        let vp = frame(w, h);
        assert_eq!(render_mariani_silver(&vp, &sample), render(&vp, &sample));
    }
    let noisy = |(x, y): (usize, usize)| -> u32 { (((x * 31 + y * 17) % 3) as f32).to_bits() };
    let buf = render_mariani_silver(&frame(37, 29), &noisy);
    assert!(buf.iter().all(|v| !f32::from_bits(*v).is_nan()));
}
