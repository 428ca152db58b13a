use novafractal::fractal::kernels::interior::render_ide_biased;
use novafractal::fractal::perturbation::orbit::{
    compute_reference_orbit, compute_series_approx, follow, perturb_mandelbrot_flagged,
    perturb_mandelbrot_rebase, perturb_mandelbrot_sa, RefOrbit, SeriesApprox,
};
use novafractal::fractal::perturbation::perturbation_theory::{
    render_perturbation, render_perturbation_multiref, render_perturbation_rebase,
    render_perturbation_sa, RefOrbitSet, Reference, F128_ZOOM_THRESHOLD, MAX_REFS,
};
use novafractal::fractal::{render, FractalType};
use novafractal::gui::viewport::Viewport;
use std::sync::Mutex;

fn frame(width: u32, height: u32, zoom: f64) -> Viewport {
    Viewport { center: [0, 0], zoom: zoom.to_bits(), width, height }
}

/// An orbit whose points are `0, 1, 2, ..` on the real axis.
fn counting(len: usize) -> RefOrbit {
    RefOrbit {
        zr: (0..=len).map(|k| (k as f64).to_bits()).collect(),
        zi: vec![0; len + 1],
        len,
    }
}

fn value(bits: u64) -> f64 {
    f64::from_bits(bits)
}

#[test]
fn orbit_ends_where_it_escapes() {
    let escaped = |z: i64| -> bool { z >= 10 };
    let step = |z: i64| -> i64 { z + 4 };
    let project = |z: i64| -> (u64, u64) { (z as u64, 1000 + z as u64) };
    let o = compute_reference_orbit(0i64, 6, &escaped, &step, &project);
    assert_eq!(o.len, 3);
    assert_eq!(o.zr, vec![0, 4, 8, 12, 0, 0, 0]);
    assert_eq!(o.zi, vec![0, 1004, 1008, 1012, 0, 0, 0]);
    let o = compute_reference_orbit(0i64, 2, &escaped, &step, &project);
    assert_eq!(o.len, 2);
    assert_eq!(o.zr, vec![0, 4, 8]);
    let o = compute_reference_orbit(50i64, 2, &escaped, &step, &project);
    assert_eq!(o.len, 0);
    assert_eq!(o.zr, vec![0, 0, 0]);
}

#[test]
fn following_adds_the_offset() {
    let orbit = counting(5);
    let advance = |(d, _r, _i): (f64, u64, u64)| -> f64 { d + 0.5 };
    let escape = |(d, r, _i): (f64, u64, u64)| -> Option<u64> {
        let z = value(r) + d;
        if z > 4.0 { Some(z.to_bits()) } else { None }
    };
    let never = |(_d, _r, _i): (f64, u64, u64)| -> bool { false };
    let smooth = |(n, z): (u32, u64)| -> u32 { n * 100 + value(z) as u32 };
    // After n steps the point is at 1.5 n.
    assert_eq!(
        perturb_mandelbrot_flagged(&orbit, 0.0f64, 50, &advance, &escape, &never, &smooth),
        Some(304)
    );
    let large = |(d, _r, _i): (f64, u64, u64)| -> bool { d >= 1.0 };
    assert_eq!(
        perturb_mandelbrot_flagged(&orbit, 0.0f64, 50, &advance, &escape, &large, &smooth),
        None
    );
    assert_eq!(follow(&orbit, 2, 1.0f64, 50, &advance, &escape, &never, &smooth), Some(304));
}

#[test]
fn orbit_that_ends_early_leaves_the_pixel_open() {
    let orbit = counting(5);
    let advance = |(d, _r, _i): (f64, u64, u64)| -> f64 { d };
    let stays = |(_d, _r, _i): (f64, u64, u64)| -> Option<u64> { None };
    let never = |(_d, _r, _i): (f64, u64, u64)| -> bool { false };
    let smooth = |(_n, _z): (u32, u64)| -> u32 { 0 };
    assert_eq!(
        perturb_mandelbrot_flagged(&orbit, 0.0f64, 6, &advance, &stays, &never, &smooth),
        None
    );
    assert_eq!(
        perturb_mandelbrot_flagged(&orbit, 0.0f64, 5, &advance, &stays, &never, &smooth),
        Some(5.0f32.to_bits())
    );
}

#[test]
fn rebasing_starts_the_orbit_again() {
    let orbit = counting(2);
    let places = Mutex::new(Vec::new());
    let advance = |(d, r, _i): (f64, u64, u64)| -> f64 {
        places.lock().unwrap().push((d, value(r)));
        d + 10.0
    };
    let stays = |(_d, _r, _i): (f64, u64, u64)| -> Option<u64> { None };
    let never = |(_d, _r, _i): (f64, u64, u64)| -> bool { false };
    let combine = |(d, r, _i): (f64, u64, u64)| -> f64 { d + value(r) };
    let smooth = |(_n, _z): (u32, u64)| -> u32 { 0 };
    let v = perturb_mandelbrot_rebase(&orbit, 0.0f64, 4, &advance, &stays, &never, &combine, &smooth);
    assert_eq!(v, 4.0f32.to_bits());
    // The orbit is used up after two steps; the point 20 + 2 is the new offset.
    assert_eq!(
        *places.lock().unwrap(),
        vec![(0.0, 0.0), (10.0, 1.0), (22.0, 0.0), (32.0, 1.0)]
    );
    let weak = |(_d, _r, _i): (f64, u64, u64)| -> bool { true };
    places.lock().unwrap().clear();
    perturb_mandelbrot_rebase(&orbit, 0.0f64, 3, &advance, &stays, &weak, &combine, &smooth);
    assert_eq!(*places.lock().unwrap(), vec![(0.0, 0.0), (11.0, 0.0), (22.0, 0.0)]);
}

#[test]
fn rebasing_agrees_with_following_where_both_apply() {
    let orbit = counting(8);
    let advance = |(d, _r, _i): (f64, u64, u64)| -> f64 { d + 0.25 };
    let never = |(_d, _r, _i): (f64, u64, u64)| -> bool { false };
    let combine = |(d, r, _i): (f64, u64, u64)| -> f64 { d + value(r) };
    let smooth = |(n, z): (u32, u64)| -> u32 { n * 1000 + value(z) as u32 };
    for bound in [3.0, 7.0, 100.0] {
        let escape = |(d, r, _i): (f64, u64, u64)| -> Option<u64> {
            let z = value(r) + d;
            if z > bound { Some(z.to_bits()) } else { None }
        };
        let a = perturb_mandelbrot_flagged(&orbit, 0.0f64, 8, &advance, &escape, &never, &smooth);
        let b = perturb_mandelbrot_rebase(
            &orbit, 0.0f64, 8, &advance, &escape, &never, &combine, &smooth,
        );
        assert_eq!(a, Some(b));
    }
}

#[test]
fn series_stops_before_it_is_too_large() {
    let orbit = counting(10);
    let advance = |(k, r, _i): (f64, u64, u64)| -> f64 { k + value(r) + 1.0 };
    let too_large = |k: f64| -> bool { k > 10.0 };
    // 0, 1, 3, 6, 10, 15
    let sa = compute_series_approx(&orbit, 0.0f64, &advance, &too_large);
    assert_eq!((sa.skip, sa.coefficients), (4, 10.0));
    let never = |_k: f64| -> bool { false };
    let sa = compute_series_approx(&orbit, 0.0f64, &advance, &never);
    assert_eq!((sa.skip, sa.coefficients), (10, 55.0));
    let always = |_k: f64| -> bool { true };
    let sa = compute_series_approx(&orbit, 7.0f64, &advance, &always);
    assert_eq!((sa.skip, sa.coefficients), (0, 7.0));
}

#[test]
fn skipping_changes_no_pixel() {
    let orbit = counting(9);
    let advance = |(d, _r, _i): (f64, u64, u64)| -> f64 { d + 0.5 };
    let escape = |(d, r, _i): (f64, u64, u64)| -> Option<u64> {
        let z = value(r) + d;
        if z > 9.0 { Some(z.to_bits()) } else { None }
    };
    let never = |(_d, _r, _i): (f64, u64, u64)| -> bool { false };
    let smooth = |(n, z): (u32, u64)| -> u32 { n * 100 + value(z) as u32 };
    let expand = |k: f64| -> f64 { k };
    let whole = perturb_mandelbrot_flagged(&orbit, 0.0f64, 50, &advance, &escape, &never, &smooth);
    assert_eq!(whole, Some(710));
    for skip in 0..=6 {
        let sa = SeriesApprox { skip, coefficients: 0.5 * skip as f64 };
        assert_eq!(
            perturb_mandelbrot_sa(&orbit, &sa, 50, &expand, &advance, &escape, &never, &smooth),
            whole
        );
    }
}

fn exact(x: usize, y: usize) -> u32 {
    ((100 * y + x) as f32).to_bits()
}

#[test]
fn precise_reference_above_the_threshold() {
    assert_eq!(F128_ZOOM_THRESHOLD, 1e12f64.to_bits());
    let sample = |(x, y): (usize, usize)| -> u32 { exact(x, y) };
    let make = |(at, pairs): (Reference, bool)| -> (Reference, bool) { (at, pairs) };
    let follow = |o: &(Reference, bool), _p: (usize, usize)| -> Option<u32> {
        assert_eq!(o.0, None);
        Some(o.1 as u32)
    };
    let shown = |zoom: f64| -> u32 {
        render_perturbation(&frame(1, 1, zoom), FractalType::Mandelbrot, &sample, &make, &follow)[0]
    };
    assert_eq!(shown(1.0), 0);
    assert_eq!(shown(1e12), 0);
    assert_eq!(shown(1.0000001e12), 1);
    assert_eq!(shown(f64::NAN), 0);
}

#[test]
fn open_pixels_are_computed_by_themselves() {
    let sample = |(x, y): (usize, usize)| -> u32 { exact(x, y) };
    let make = |(_at, _pairs): (Reference, bool)| -> u32 { 5000 };
    let follow = |o: &u32, (x, _y): (usize, usize)| -> Option<u32> {
        if x % 2 == 0 { Some(*o + x as u32) } else { None }
    };
    let vp = frame(4, 2, 1.0);
    let buf = render_perturbation(&vp, FractalType::Mandelbrot, &sample, &make, &follow);
    assert_eq!(
        buf,
        vec![5000, exact(1, 0), 5002, exact(3, 0), 5000, exact(1, 1), 5002, exact(3, 1)]
    );
    for f in [FractalType::Julia, FractalType::Newton, FractalType::Nova] {
        assert_eq!(render_perturbation(&vp, f, &sample, &make, &follow), render(&vp, &sample));
    }
}

#[test]
fn series_is_fitted_to_the_orbit() {
    let sample = |(x, y): (usize, usize)| -> u32 { exact(x, y) };
    let make = |(_at, _pairs): (Reference, bool)| -> u32 { 5000 };
    let fit = |o: &u32, _: ()| -> u32 { *o + 70 };
    let follow = |o: &(u32, u32), (x, _y): (usize, usize)| -> Option<u32> {
        if x == 0 { Some(o.0 + o.1) } else { None }
    };
    let vp = frame(2, 1, 1.0);
    assert_eq!(
        render_perturbation_sa(&vp, FractalType::Mandelbrot, &sample, &make, &fit, &follow),
        vec![10070, exact(1, 0)]
    );
    assert_eq!(
        render_perturbation_sa(&vp, FractalType::Nova, &sample, &make, &fit, &follow),
        render(&vp, &sample)
    );
}

#[test]
fn rebased_frame_has_a_value_everywhere() {
    let sample = |(x, y): (usize, usize)| -> u32 { exact(x, y) };
    let make = |(_at, _pairs): (Reference, bool)| -> u32 { 5000 };
    let follow = |o: &u32, (x, y): (usize, usize)| -> u32 { *o + (10 * y + x) as u32 };
    let vp = frame(2, 2, 1.0);
    assert_eq!(
        render_perturbation_rebase(&vp, FractalType::Mandelbrot, &sample, &make, &follow),
        vec![5000, 5001, 5010, 5011]
    );
    assert_eq!(
        render_perturbation_rebase(&vp, FractalType::Julia, &sample, &make, &follow),
        render(&vp, &sample)
    );
}

#[test]
fn each_new_reference_is_the_first_open_pixel() {
    let made = Mutex::new(Vec::new());
    let sample = |(x, y): (usize, usize)| -> u32 { exact(x, y) };
    let make = |(at, _pairs): (Reference, bool)| -> Reference {
        made.lock().unwrap().push(at);
        at
    };
    // A reference helps the pixels of its own row; the centre helps row one.
    let follow = |o: &Reference, (x, y): (usize, usize)| -> Option<u32> {
        let row = match o { Some(p) => p.1, None => 1 };
        if y == row { Some(exact(x, y)) } else { None }
    };
    let vp = frame(3, 3, 1.0);
    let buf = render_perturbation_multiref(&vp, FractalType::Mandelbrot, &sample, &make, &follow);
    assert_eq!(buf, render(&vp, &sample));
    assert_eq!(*made.lock().unwrap(), vec![None, Some((0, 0)), Some((0, 2))]);
}

#[test]
fn number_of_references_is_limited() {
    let made = Mutex::new(0usize);
    let sample = |(x, y): (usize, usize)| -> u32 { exact(x, y) };
    let make = |(at, _pairs): (Reference, bool)| -> Reference {
        *made.lock().unwrap() += 1;
        at
    };
    let follow = |o: &Reference, p: (usize, usize)| -> Option<u32> {
        if *o == Some(p) { Some(7777) } else { None }
    };
    let vp = frame(20, 1, 1.0);
    let buf = render_perturbation_multiref(&vp, FractalType::Mandelbrot, &sample, &make, &follow);
    assert_eq!(*made.lock().unwrap(), MAX_REFS);
    for x in 0..20 {
        assert_eq!(buf[x], if x < MAX_REFS - 1 { 7777 } else { exact(x, 0) });
    }
    assert_eq!(
        render_perturbation_multiref(&vp, FractalType::Newton, &sample, &make, &follow),
        render(&vp, &sample)
    );
}

#[test]
fn interior_kernel_agrees_where_it_is_exact() {
    let sample = |(x, y): (usize, usize)| -> u32 { exact(x, y) };
    let vp = frame(9, 9, 1.0);
    assert_eq!(
        render_ide_biased(&vp, FractalType::Mandelbrot, 50, &sample, &sample),
        render(&vp, &sample)
    );
    let other = |(_x, _y): (usize, usize)| -> u32 { 3 };
    assert_eq!(
        render_ide_biased(&vp, FractalType::Julia, 50, &sample, &other),
        render(&vp, &sample)
    );
}

#[test]
fn interior_kernel_is_taken_next_to_the_set() {
    let usual = |(x, _y): (usize, usize)| -> u32 {
        if x < 2 { 50.0f32.to_bits() } else { 1.0f32.to_bits() }
    };
    let interior = |(x, _y): (usize, usize)| -> u32 { (1000 + x) as u32 };
    let buf = render_ide_biased(&frame(4, 1, 1.0), FractalType::Mandelbrot, 50, &usual, &interior);
    assert_eq!(buf, vec![50.0f32.to_bits(), 1001, 1.0f32.to_bits(), 1.0f32.to_bits()]);
}

#[test]
fn orbits_belong_to_their_centers() {
    let make = |(at, pairs): (Reference, bool)| -> (Reference, bool) { (at, pairs) };
    let mut set = RefOrbitSet::new();
    assert!(set.refs.is_empty() && set.centers.is_empty());
    set.add_reference(None, 1.0f64.to_bits(), &make);
    set.add_reference(Some((3, 4)), 1e13f64.to_bits(), &make);
    assert_eq!(set.refs, vec![(None, false), (Some((3, 4)), true)]);
    assert_eq!(set.centers, vec![None, Some((3, 4))]);
}

#[test]
fn reference_point_does_not_glitch() {
    // The orbit of c, as doubles: it escapes for 0.5 and stays for -1.
    for (c, n) in [(0.5f64, 40u32), (0.5, 3), (-1.0, 40), (0.5, 0)] {
        let escaped = |z: f64| -> bool { z * z > 4.0 };
        let step = |z: f64| -> f64 { z * z + c };
        let project = |z: f64| -> (u64, u64) { (z.to_bits(), 0) };
        let orbit = compute_reference_orbit(0.0f64, n, &escaped, &step, &project);
        let advance = |(d, r, _i): (f64, u64, u64)| -> f64 { 2.0 * value(r) * d + d * d };
        let escape = |(d, r, _i): (f64, u64, u64)| -> Option<u64> {
            let sq = (value(r) + d) * (value(r) + d);
            if sq > 4.0 { Some(sq.to_bits()) } else { None }
        };
        let glitch = |(d, r, _i): (f64, u64, u64)| -> bool { d * d > 1e-6 * value(r) * value(r) };
        let smooth = |(k, sq): (u32, u64)| -> u32 { (k as f32 + value(sq) as f32).to_bits() };
        let got = perturb_mandelbrot_flagged(&orbit, 0.0f64, n, &advance, &escape, &glitch, &smooth);
        let want = if orbit.len == n as usize {
            n as f32
        } else {
            orbit.len as f32 + (value(orbit.zr[orbit.len]) * value(orbit.zr[orbit.len])) as f32
        };
        assert_eq!(got, Some(want.to_bits()));
        assert_eq!(orbit.len == n as usize, c < 0.0 || n <= 3);
    }
}
