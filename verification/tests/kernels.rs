use novafractal::fractal::kernels::escape::{
    escape_or_cycle, iterate, julia, mandelbrot, mandelbrot_dem, mandelbrot_ide, newton, nova,
    smooth_iter, Outcome,
};
use novafractal::fractal::kernels::lanes::{
    bulb_precheck_lanes, escape_lanes, mandelbrot_lanes, mandelbrot_x8x2,
};
use novafractal::fractal::{render, render_neighbor_capped};
use novafractal::gui::viewport::Viewport;
use std::cell::Cell;

fn single(v: f32) -> u32 {
    v.to_bits()
}

#[test]
fn iteration_ends_in_three_ways() {
    let escaped = |s: u32| -> bool { s >= 10 };
    let advance = |s: u32| -> (u32, bool) { (s + 3, s == 4) };
    assert!(matches!(iterate(0u32, 0, 100, &escaped, &advance), Outcome::Escaped(4, 12)));
    assert!(matches!(iterate(1u32, 0, 100, &escaped, &advance), Outcome::Stopped(1, 7)));
    assert!(matches!(iterate(0u32, 0, 3, &escaped, &advance), Outcome::Exhausted));
    assert!(matches!(iterate(50u32, 5, 5, &escaped, &advance), Outcome::Exhausted));
    assert!(matches!(iterate(50u32, 4, 5, &escaped, &advance), Outcome::Escaped(4, 50)));
}

#[test]
fn smoothing_stops_at_the_limit() {
    let smooth = |(i, z): (u32, u64)| -> u32 { i * 1000 + z as u32 };
    assert_eq!(smooth_iter(3, 7, 10, &smooth), 3007);
    assert_eq!(smooth_iter(10, 7, 10, &smooth), single(10.0));
    assert_eq!(smooth_iter(11, 7, 10, &smooth), single(10.0));
}

#[test]
fn root_finding_shows_when_it_settled() {
    let stuck = |s: u32| -> bool { s == 77 };
    let advance = |s: u32| -> (u32, bool) { (s / 2, s < 4) };
    assert_eq!(newton(32u32, 50, &stuck, &advance), single(4.0));
    assert_eq!(nova(32u32, 50, &stuck, &advance), single(4.0));
    assert_eq!(newton(32u32, 3, &stuck, &advance), single(3.0));
    assert_eq!(newton(77u32, 50, &stuck, &advance), single(50.0));
    assert_eq!(nova(155u32, 50, &stuck, &advance), single(50.0));
}

#[test]
fn distance_belongs_to_the_escape() {
    let escaped = |s: u32| -> bool { s > 5 };
    let advance = |s: u32| -> (u32, bool) { (s + 1, false) };
    let value = |(i, s): (u32, u32)| -> u32 { i * 100 + s };
    let distance = |s: u32| -> u64 { s as u64 * 9 };
    assert_eq!(mandelbrot_dem(2u32, 20, &escaped, &advance, &value, &distance), (406, 54));
    assert_eq!(
        mandelbrot_dem(2u32, 3, &escaped, &advance, &value, &distance),
        (single(3.0), 0)
    );
}

#[test]
fn collapsed_derivative_shows_the_limit() {
    let escaped = |s: u32| -> bool { s > 9 };
    let advance = |s: u32| -> (u32, bool) { (s + 2, s == 3) };
    let value = |(i, s): (u32, u32)| -> u32 { i * 100 + s };
    assert_eq!(mandelbrot_ide(false, 4u32, 20, &escaped, &advance, &value), 410);
    assert_eq!(mandelbrot_ide(false, 1u32, 20, &escaped, &advance, &value), single(20.0));
    assert_eq!(mandelbrot_ide(true, 4u32, 20, &escaped, &advance, &value), single(20.0));
    assert_eq!(mandelbrot_ide(false, 50u32, 1, &escaped, &advance, &value), single(1.0));
}

#[test]
fn orbit_that_comes_back_shows_the_limit() {
    let steps = Cell::new(0u32);
    let escaped = |_s: u32| -> bool { false };
    let step = |s: u32| -> u32 {
        steps.set(steps.get() + 1);
        (s + 1) % 5
    };
    let meets = |(a, b): (u32, u32)| -> bool { a == b };
    let value = |(i, _s): (u32, u32)| -> u32 { i };
    // Compared with the start, a cycle of five steps is found after five steps.
    assert_eq!(julia(0u32, 1000, &escaped, &step, &meets, &value), single(1000.0));
    assert_eq!(steps.get(), 5);
}

#[test]
fn marks_are_taken_at_doubling_intervals() {
    let marks = Cell::new(0u32);
    let seen = Cell::new(u32::MAX);
    let escaped = |_s: u32| -> bool { false };
    let step = |s: u32| -> u32 { s + 1 };
    let meets = |(_a, b): (u32, u32)| -> bool {
        if seen.get() != b {
            seen.set(b);
            marks.set(marks.get() * 10_000 + b);
        }
        false
    };
    let value = |(i, _s): (u32, u32)| -> u32 { i };
    let got = escape_or_cycle(0u32, 9u32, 0, 60, &escaped, &step, &meets, &value);
    assert_eq!(got, single(60.0));
    // First mark given, then the points after 8, 24 and 56 steps.
    let last = Cell::new(Vec::new());
    let meets = |(_a, b): (u32, u32)| -> bool {
        let mut v = last.take();
        if v.last() != Some(&b) {
            v.push(b);
        }
        last.set(v);
        false
    };
    escape_or_cycle(0u32, 9u32, 0, 2600, &escaped, &step, &meets, &value);
    assert_eq!(last.take(), vec![9, 8, 24, 56, 120, 248, 504, 1016, 1528, 2040, 2552]);
}

#[test]
fn escape_is_found_at_its_iteration() {
    let escaped = |s: u32| -> bool { s > 100 };
    let step = |s: u32| -> u32 { s * 2 };
    let meets = |(_a, _b): (u32, u32)| -> bool { false };
    let value = |(i, s): (u32, u32)| -> u32 { i * 1000 + s };
    // 3, 6, 12, 24, 48, 96, 192
    assert_eq!(julia(3u32, 50, &escaped, &step, &meets, &value), 6192);
    assert_eq!(julia(3u32, 6, &escaped, &step, &meets, &value), single(6.0));
    // The Mandelbrot kernel counts from the second step.
    assert_eq!(
        mandelbrot(false, 3u32, 0u32, 50, &escaped, &step, &meets, &value),
        7192
    );
    assert_eq!(
        mandelbrot(true, 3u32, 0u32, 50, &escaped, &step, &meets, &value),
        single(50.0)
    );
    for max in 0..3 {
        assert_eq!(
            mandelbrot(false, 500u32, 0u32, max, &escaped, &step, &meets, &value),
            single(max as f32)
        );
    }
    assert_eq!(
        mandelbrot(false, 500u32, 0u32, 3, &escaped, &step, &meets, &value),
        3000
    );
}

/// The state of a block of four orbits, each doubling its own number.
type Block = [u32; 4];

fn doubled(s: Block) -> Block {
    s.map(|v| v.saturating_mul(2))
}

#[test]
fn lanes_escape_on_their_own() {
    let norms = |s: Block| -> [u32; 4] { s };
    let step = |s: Block| -> Block { doubled(s) };
    let beyond = |r: u32| -> bool { r > 100 };
    let smooth = |(i, r): (u32, u32)| -> u32 { i * 1000 + r };
    let got = escape_lanes([3, 0, 60, 200], 0, 20, &[false; 4], &norms, &step, &beyond, &smooth);
    assert_eq!(got, vec![6192, single(20.0), 1120, 200]);
    let got = escape_lanes([3, 0, 60, 200], 0, 20, &[true, false, false, true], &norms, &step, &beyond, &smooth);
    assert_eq!(got, vec![single(20.0), single(20.0), 1120, single(20.0)]);
    let got = escape_lanes([3, 0, 60, 200], 5, 5, &[false; 4], &norms, &step, &beyond, &smooth);
    assert_eq!(got, vec![single(5.0); 4]);
}

#[test]
fn block_stops_when_no_lane_is_left() {
    let steps = Cell::new(0u32);
    let norms = |s: Block| -> [u32; 4] { s };
    let step = |s: Block| -> Block {
        steps.set(steps.get() + 1);
        doubled(s)
    };
    let beyond = |r: u32| -> bool { r > 100 };
    let smooth = |(i, r): (u32, u32)| -> u32 { i * 1000 + r };
    escape_lanes([60, 60, 60, 60], 0, 1000, &[false; 4], &norms, &step, &beyond, &smooth);
    assert!(steps.get() <= 2);
}

#[test]
fn mandelbrot_lanes_make_the_second_step_first() {
    let norms = |s: Block| -> [u32; 4] { s };
    let step = |s: Block| -> Block { doubled(s) };
    let beyond = |r: u32| -> bool { r > 100 };
    let smooth = |(i, r): (u32, u32)| -> u32 { i * 1000 + r };
    let got = mandelbrot_lanes([3, 30, 51, 1], 20, &[false, false, false, true], &norms, &step, &beyond, &smooth);
    assert_eq!(got, vec![7192, 3120, 2102, single(20.0)]);
    assert_eq!(
        mandelbrot_lanes([300; 4], 2, &[false; 4], &norms, &step, &beyond, &smooth),
        vec![single(2.0); 4]
    );
}

#[test]
fn two_blocks_side_by_side_are_two_blocks() {
    let norms = |s: Block| -> [u32; 4] { s };
    let step = |s: Block| -> Block { doubled(s) };
    let beyond = |r: u32| -> bool { r > 100 };
    let smooth = |(i, r): (u32, u32)| -> u32 { i * 1000 + r };
    let (a, b) = ([3, 30, 51, 1], [90, 0, 7, 2]);
    let (ia, ib) = ([false, false, true, false], [false; 4]);
    let (x, y) = mandelbrot_x8x2(a, b, 30, &ia, &ib, &norms, &step, &beyond, &smooth);
    assert_eq!(x, mandelbrot_lanes(a, 30, &ia, &norms, &step, &beyond, &smooth));
    assert_eq!(y, mandelbrot_lanes(b, 30, &ib, &norms, &step, &beyond, &smooth));
}

#[test]
fn precheck_asks_only_for_missed_lanes() {
    let asked = Cell::new(0usize);
    let period3 = |k: usize| -> bool {
        asked.set(asked.get() + 1);
        k == 3
    };
    let r = bulb_precheck_lanes(&[true, false, true, false], &period3);
    assert_eq!(r, vec![true, false, true, true]);
    assert_eq!(asked.get(), 2);
}

#[test]
fn larger_limit_keeps_the_escape() {
    let escaped = |z: u32| -> bool { z >= 40 };
    let step = |z: u32| -> u32 { z + 4 };
    let meets = |(a, b): (u32, u32)| -> bool { a == b };
    let value = |(i, z): (u32, u32)| -> u32 { single(i as f32) + z };
    let shown = |limit: u32| -> u32 { julia(0u32, limit, &escaped, &step, &meets, &value) };
    assert_eq!(shown(10), single(10.0));
    for limit in [11, 12, 500] {
        assert_eq!(shown(limit), single(10.0) + 40);
    }
}

#[test]
fn capping_a_kernel_changes_no_pixel() {
    let escaped = |z: u32| -> bool { z >= 100 };
    let step = |z: u32| -> u32 { z + 1 + z % 7 };
    let meets = |(a, b): (u32, u32)| -> bool { a == b };
    let value = |(i, _z): (u32, u32)| -> u32 { single(i as f32 + 0.5) };
    let compute = |(x, y, cap): (usize, usize, u32)| -> u32 {
        julia((x * 13 + y * 5) as u32, cap, &escaped, &step, &meets, &value)
    };
    let vp = Viewport { center: [0, 0], zoom: 1.0f64.to_bits(), width: 9, height: 6 };
    let full = |(x, y): (usize, usize)| -> u32 { compute((x, y, 80)) };
    for slack in [0, 1, 16] {
        assert_eq!(render_neighbor_capped(&vp, &compute, 80, slack), render(&vp, &full));
    }
}

#[test]
fn kernels_answer_numbers() {
    let stuck = |z: u32| -> bool { z % 11 == 10 };
    let advance = |z: u32| -> (u32, bool) { (z + 1, z % 7 == 6) };
    for max_iter in [0u32, 1, 5, 50, 1 << 24, u32::MAX] {
        for start in 0..77u32 {
            assert!(!f32::from_bits(newton(start, max_iter, &stuck, &advance)).is_nan());
            assert!(!f32::from_bits(nova(start, max_iter, &stuck, &advance)).is_nan());
        }
    }
}
