use novafractal::fractal::render;
use novafractal::fractal::render::hilbert::{d2xy, hilbert_d_to_xy, render_tiled, tile_order, TILE};
use novafractal::gui::viewport::Viewport;

fn frame(width: u32, height: u32) -> Viewport {
    Viewport { center: [0, 0], zoom: 0x3ff0_0000_0000_0000, width, height }
}

#[test]
fn curve_starts_at_the_origin_and_ends_across() {
    assert_eq!(hilbert_d_to_xy(0), (0, 0));
    assert_eq!(hilbert_d_to_xy(4095), (63, 0));
}

#[test]
fn curve_first_points() {
    let first: Vec<(u32, u32)> = (0..16).map(hilbert_d_to_xy).collect();
    assert_eq!(
        first,
        vec![
            (0, 0), (1, 0), (1, 1), (0, 1),
            (0, 2), (0, 3), (1, 3), (1, 2),
            (2, 2), (2, 3), (3, 3), (3, 2),
            (3, 1), (2, 1), (2, 0), (3, 0),
        ]
    );
}

#[test]
fn curve_repeats_after_a_tile() {
    assert_eq!(hilbert_d_to_xy(4096), hilbert_d_to_xy(0));
    assert_eq!(hilbert_d_to_xy(4096 + 1234), hilbert_d_to_xy(1234));
}

#[test]
fn both_names_give_one_curve() {
    for d in 0..TILE * TILE {
        assert_eq!(d2xy(d), hilbert_d_to_xy(d));
    }
}

#[test]
fn curve_is_continuous() {
    let order = tile_order();
    for pair in order.windows(2) {
        let dx = pair[0].0.abs_diff(pair[1].0);
        let dy = pair[0].1.abs_diff(pair[1].1);
        assert_eq!(dx + dy, 1);
    }
}

#[test]
fn tile_order_visits_every_position_once() {
    let order = tile_order();
    assert_eq!(order.len(), 4096);
    let mut seen = vec![false; 4096];
    for (x, y) in order {
        let i = (y as usize) * 64 + x as usize;
        assert!(!seen[i]);
        seen[i] = true;
    }
    assert!(seen.iter().all(|&s| s));
}

#[test]
fn tiled_frame_is_the_plain_frame() {
    let sample = |(x, y): (usize, usize)| -> u32 { (x * 1009 + y * 17) as u32 };
    for (w, h) in [(1, 1), (64, 64), (65, 63), (130, 70), (3, 200), (200, 3)] {
        let vp = frame(w, h);
        assert_eq!(render_tiled(&vp, &sample), render(&vp, &sample));
    }
}

#[test]
fn tiled_frame_without_rows_is_empty() {
    let sample = |(_x, _y): (usize, usize)| -> u32 { 7 };
    assert_eq!(render_tiled(&frame(5, 0), &sample), Vec::<u32>::new());
}
