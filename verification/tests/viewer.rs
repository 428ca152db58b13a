use novafractal::fractal::{render, FractalType};
use novafractal::gui::app::{
    julia_presets, wheel, FractalApp, Wheel, AUTO_ITER_MAX, AUTO_ITER_MIN, MANUAL_ITER_MAX,
    MANUAL_ITER_MIN,
};
use novafractal::gui::color::{build_lut, colorize, lut_bytes, ColorScheme, LUT_SIZE, PARALLEL_PIXELS};
use novafractal::gui::render::{
    choose_device_path, choose_strategy, latest_request, needs_new_device, passes, CacheKey,
    DevicePath, Frame, FrameCache, FramePlan, Quality, RenderRequest, RenderStatus, Strategy,
    Ticket, NEIGHBOR_CAP_SLACK,
};
use novafractal::gui::viewport::Viewport;

fn camera(x: f64, y: f64, zoom: f64, width: u32, height: u32) -> Viewport {
    Viewport { center: [x.to_bits(), y.to_bits()], zoom: zoom.to_bits(), width, height }
}

fn request(vp: Viewport) -> RenderRequest {
    RenderRequest {
        vp,
        fractal: FractalType::Mandelbrot,
        julia_c: [0, 0],
        max_iter: 100,
        scheme: ColorScheme::Inferno,
        use_mariani_silver: false,
        use_perturbation: false,
        use_series_approx: false,
        use_neighbor_cap: false,
        use_multiref: false,
        use_heterogeneous: false,
    }
}

#[test]
fn fractals_and_their_names() {
    let names: Vec<&str> = FractalType::all().iter().map(|f| f.name()).collect();
    assert_eq!(names, vec!["Nova", "Newton", "Mandelbrot", "Julia Set"]);
    let codes: Vec<u32> = FractalType::all().iter().map(|f| f.as_u32()).collect();
    assert_eq!(codes, vec![3, 2, 0, 1]);
    assert_eq!(FractalType::Mandelbrot.default_center().map(f64::from_bits), [-0.5, 0.0]);
    assert_eq!(FractalType::Julia.default_center().map(f64::from_bits), [0.0, 0.0]);
    assert_eq!(FractalType::Nova.default_center().map(f64::from_bits), [0.0, 0.0]);
    assert!(FractalType::Julia.is_quadratic() && FractalType::Mandelbrot.is_quadratic());
    assert!(!FractalType::Newton.is_quadratic() && !FractalType::Nova.is_quadratic());
}

#[test]
fn default_camera() {
    let vp = Viewport::default();
    assert_eq!(vp, camera(-0.5, 0.0, 1.0, 800, 600));
}

#[test]
fn cameras_compare_by_number() {
    let a = camera(0.0, 1.0, 2.0, 3, 4);
    assert_eq!(a, camera(-0.0, 1.0, 2.0, 3, 4));
    assert_ne!(a, camera(0.0, 1.0, 2.0, 3, 5));
    assert_ne!(a, camera(0.0, 1.5, 2.0, 3, 4));
    let lost = camera(f64::NAN, 1.0, 2.0, 3, 4);
    assert_ne!(lost, lost);
}

#[test]
fn reset_and_resize_of_a_camera() {
    let mut vp = camera(3.0, 4.0, 50.0, 7, 8);
    vp.reset(FractalType::Mandelbrot);
    assert_eq!(vp, camera(-0.5, 0.0, 1.0, 7, 8));
    vp.reset(FractalType::Newton);
    assert_eq!(vp, camera(0.0, 0.0, 1.0, 7, 8));
    assert_eq!(camera(3.0, 4.0, 50.0, 7, 8).with_size(1, 2), camera(3.0, 4.0, 50.0, 1, 2));
}

#[test]
fn step_between_cameras() {
    let drift = |(a, b): (Viewport, Viewport)| -> Option<(i32, i32)> {
        let d = f64::from_bits(b.center[0]) - f64::from_bits(a.center[0]);
        if d.fract() == 0.0 { Some((d as i32, 0)) } else { None }
    };
    let a = camera(0.0, 0.0, 1.0, 10, 10);
    assert_eq!(a.delta_pixels(&camera(3.0, 0.0, 1.0, 10, 10), &drift), Some((3, 0)));
    assert_eq!(a.delta_pixels(&camera(3.5, 0.0, 1.0, 10, 10), &drift), None);
    assert_eq!(a.delta_pixels(&camera(3.0, 0.0, 2.0, 10, 10), &drift), None);
    assert_eq!(a.delta_pixels(&camera(3.0, 0.0, 1.0, 11, 10), &drift), None);
    assert_eq!(a.delta_pixels(&camera(3.0, 0.0, 1.0, 10, 11), &drift), None);
    let always = |_: (Viewport, Viewport)| -> Option<(i32, i32)> { Some((0, 0)) };
    for odd in [f64::NAN, f64::INFINITY, f64::NEG_INFINITY] {
        let astray = camera(odd, 0.0, 1.0, 10, 10);
        assert_eq!(a.delta_pixels(&astray, &always), None);
        assert_eq!(astray.delta_pixels(&a, &always), None);
        assert_eq!(a.delta_pixels(&camera(0.0, odd, 1.0, 10, 10), &always), None);
    }
    assert_eq!(a.delta_pixels(&a, &always), Some((0, 0)));
}

#[test]
fn palettes_and_their_names() {
    let names: Vec<&str> = ColorScheme::all().iter().map(|s| s.name()).collect();
    assert_eq!(names, vec!["Inferno", "Ocean", "Plasma", "Grayscale", "Electric", "Sunset"]);
    for (i, s) in ColorScheme::all().iter().enumerate() {
        assert_eq!(s.palette_index(), i);
    }
    assert_eq!(ColorScheme::default(), ColorScheme::Inferno);
}

#[test]
fn table_of_a_palette() {
    let sample = |i: usize| -> [u8; 4] { [(i % 251) as u8, (i / 251) as u8, 7, 255] };
    let lut = build_lut(&sample);
    assert_eq!(lut.len(), LUT_SIZE);
    assert_eq!(LUT_SIZE, 8192);
    assert_eq!(lut[300], [49, 1, 7, 255]);
    let bytes = lut_bytes(&lut);
    assert_eq!(bytes.len(), 4 * 8192);
    assert_eq!(bytes[1200..1204], [49, 1, 7, 255]);
}

fn table() -> Vec<[u8; 4]> {
    (0..LUT_SIZE).map(|i| [(i & 255) as u8, (i >> 8) as u8, 1, 255]).collect()
}

fn entry(c: [u8; 4]) -> usize {
    assert_eq!((c[2], c[3]), (1, 255));
    c[0] as usize + 256 * c[1] as usize
}

fn quotient((a, b): (u64, u64)) -> u32 {
    (a as f32 / b as f32).to_bits()
}

fn place((v, lo, hi): (u32, u32, u32)) -> usize {
    let (v, lo, hi) = (f32::from_bits(v), f32::from_bits(lo), f32::from_bits(hi));
    ((lo + (hi - lo) * v.fract()) * (LUT_SIZE - 1) as f32) as usize
}

#[test]
fn palette_is_spread_over_the_counts() {
    // Two pixels at one, one at two and a half, one at four, two inside.
    let buf: Vec<u32> = [1.0f32, 1.0, 2.5, 4.0, 10.0, 12.0].iter().map(|v| v.to_bits()).collect();
    let out = colorize(&buf, 10, &table(), &quotient, &place);
    assert_eq!(entry(out[0]), (0.5f32 * 8191.0) as usize);
    assert_eq!(out[0], out[1]);
    assert_eq!(entry(out[2]), (0.75f32 * 8191.0) as usize);
    assert_eq!(entry(out[3]), 8191);
    assert_eq!(out[4], [0, 0, 0, 255]);
    assert_eq!(out[5], [0, 0, 0, 255]);
}

#[test]
fn place_between_two_counts() {
    let buf: Vec<u32> = [0.0f32, 1.25].iter().map(|v| v.to_bits()).collect();
    let seen = std::sync::Mutex::new(Vec::new());
    let ask = |(v, lo, hi): (u32, u32, u32)| -> usize {
        seen.lock().unwrap().push((f32::from_bits(v), f32::from_bits(lo), f32::from_bits(hi)));
        999_999
    };
    let out = colorize(&buf, 2, &table(), &quotient, &ask);
    assert_eq!(*seen.lock().unwrap(), vec![(0.0, 0.5, 1.0), (1.25, 1.0, 1.0)]);
    assert_eq!(entry(out[0]), 8191);
}

#[test]
fn frame_inside_the_set_is_black() {
    let buf = vec![50.0f32.to_bits(); 9];
    assert_eq!(colorize(&buf, 50, &table(), &quotient, &place), vec![[0, 0, 0, 255]; 9]);
    assert!(colorize(&Vec::new(), 50, &table(), &quotient, &place).is_empty());
}

#[test]
fn missing_value_gets_the_first_color() {
    let buf = vec![f32::NAN.to_bits()];
    let low = |(_v, lo, _hi): (u32, u32, u32)| -> usize { (f32::from_bits(lo) * 8191.0) as usize };
    assert_eq!(entry(colorize(&buf, 50, &table(), &quotient, &low)[0]), 0);
}

#[test]
fn large_frames_are_colored_alike() {
    let piece: Vec<u32> = (0..5000).map(|i| ((i * 37 % 300) as f32 * 0.25).to_bits()).collect();
    let mut large = Vec::new();
    while large.len() < PARALLEL_PIXELS {
        large.extend_from_slice(&piece);
    }
    let small = colorize(&piece, 60, &table(), &quotient, &place);
    let out = colorize(&large, 60, &table(), &quotient, &place);
    assert_eq!(out.len(), large.len());
    for i in 0..out.len() {
        assert_eq!(out[i], small[i % 5000]);
    }
}

#[test]
fn interior_pixels_do_not_shift_colors() {
    let mut buf: Vec<u32> = [1.0f32, 3.0, 3.5].iter().map(|v| v.to_bits()).collect();
    let before = colorize(&buf, 10, &table(), &quotient, &place);
    buf.extend_from_slice(&[10.0f32.to_bits(); 40]);
    assert_eq!(colorize(&buf, 10, &table(), &quotient, &place)[..3], before[..]);
}

fn whole_drift((a, b): (Viewport, Viewport)) -> Option<(i32, i32)> {
    let dx = f64::from_bits(a.center[0]) - f64::from_bits(b.center[0]);
    let dy = f64::from_bits(a.center[1]) - f64::from_bits(b.center[1]);
    Some((dx as i32, dy as i32))
}

#[test]
fn first_frame_is_computed() {
    let cache = FrameCache::new();
    let plan = cache.plan(&request(camera(0.0, 0.0, 1.0, 9, 7)), &whole_drift);
    match plan {
        FramePlan::Full { preview: Some(p) } => assert_eq!(p, camera(0.0, 0.0, 1.0, 4, 3)),
        _ => panic!("{:?}", plan),
    }
    let thin = cache.plan(&request(camera(0.0, 0.0, 1.0, 9, 1)), &whole_drift);
    assert!(matches!(thin, FramePlan::Full { preview: None }));
    let thin = cache.plan(&request(camera(0.0, 0.0, 1.0, 1, 9)), &whole_drift);
    assert!(matches!(thin, FramePlan::Full { preview: None }));
}

#[test]
fn new_palette_only_recolors() {
    let mut cache = FrameCache::new();
    let req = request(camera(0.0, 0.0, 1.0, 4, 4));
    cache.store(&req, vec![1; 16]);
    let other = RenderRequest { scheme: ColorScheme::Ocean, use_heterogeneous: true, ..req };
    assert!(matches!(cache.plan(&other, &whole_drift), FramePlan::Recolor));
    let deeper = RenderRequest { max_iter: 101, ..req };
    assert!(matches!(
        cache.plan(&deeper, &whole_drift),
        FramePlan::Full { preview: Some(_) }
    ));
}

#[test]
fn pan_along_one_axis_moves_the_frame() {
    let mut cache = FrameCache::new();
    let req = request(camera(0.0, 0.0, 1.0, 6, 4));
    cache.store(&req, vec![1; 24]);
    let plan = |x: f64, y: f64| -> FramePlan {
        cache.plan(&request(camera(x, y, 1.0, 6, 4)), &whole_drift)
    };
    assert!(matches!(plan(-2.0, 0.0), FramePlan::Shift { dx: 2, dy: 0 }));
    assert!(matches!(plan(5.0, 0.0), FramePlan::Shift { dx: -5, dy: 0 }));
    assert!(matches!(plan(0.0, 3.0), FramePlan::Shift { dx: 0, dy: -3 }));
    assert!(matches!(plan(6.0, 0.0), FramePlan::Full { .. }));
    assert!(matches!(plan(0.0, 4.0), FramePlan::Full { .. }));
    assert!(matches!(plan(1.0, 1.0), FramePlan::Full { .. }));
    // A step of less than a pixel is no step.
    assert!(matches!(plan(0.25, 0.0), FramePlan::Full { .. }));
}

#[test]
fn pan_needs_independent_pixels() {
    let base = request(camera(0.0, 0.0, 1.0, 6, 4));
    let variants = [
        RenderRequest { use_mariani_silver: true, ..base },
        RenderRequest { use_perturbation: true, ..base },
        RenderRequest { use_series_approx: true, ..base },
        RenderRequest { use_neighbor_cap: true, ..base },
    ];
    for v in variants {
        let mut cache = FrameCache::new();
        cache.store(&v, vec![1; 24]);
        let moved = RenderRequest { vp: camera(1.0, 0.0, 1.0, 6, 4), ..v };
        assert!(matches!(cache.plan(&moved, &whole_drift), FramePlan::Full { .. }));
        assert!(!CacheKey::from(&v).pan_eligible_match(&CacheKey::from(&moved)));
    }
    let moved = RenderRequest { vp: camera(1.0, 0.0, 1.0, 6, 4), ..base };
    assert!(CacheKey::from(&base).pan_eligible_match(&CacheKey::from(&moved)));
    assert!(CacheKey::from(&base) != CacheKey::from(&moved));
    assert!(CacheKey::from(&base) == CacheKey::from(&base));
    let multi = RenderRequest { use_multiref: true, ..moved };
    assert!(!CacheKey::from(&base).pan_eligible_match(&CacheKey::from(&multi)));
    assert!(!CacheKey::from(&multi).pan_eligible_match(&CacheKey::from(&base)));
    let also = RenderRequest { use_multiref: true, ..base };
    assert!(CacheKey::from(&also).pan_eligible_match(&CacheKey::from(&multi)));
}

#[test]
fn moved_frame_is_the_next_picture() {
    let mut cache = FrameCache::new();
    let old = request(camera(0.0, 0.0, 1.0, 6, 4));
    let before = |(x, y): (usize, usize)| -> u32 { (100 * y + x + 50) as u32 };
    let after = |(x, y): (usize, usize)| -> u32 { (100 * y + x + 48) as u32 };
    cache.store(&old, render(&old.vp, &before));
    let new = request(camera(-2.0, 0.0, 1.0, 6, 4));
    match cache.plan(&new, &whole_drift) {
        FramePlan::Shift { dx, dy } => cache.shift(&new, dx, dy, &after),
        other => panic!("{:?}", other),
    }
    assert_eq!(cache.buf, render(&new.vp, &after));
    assert!(cache.key == Some(CacheKey::from(&new)));
}

#[test]
fn renderer_of_a_request() {
    let shallow = camera(0.0, 0.0, 1.0, 4, 4);
    let deep = camera(0.0, 0.0, 1e6, 4, 4);
    let base = request(shallow);
    let pick = |req: RenderRequest| -> Strategy { choose_strategy(&req, &req.vp, true) };
    assert_eq!(pick(base), Strategy::SimdSingleInterleaved);
    assert_eq!(pick(RenderRequest { vp: deep, ..base }), Strategy::SimdDouble);
    let julia = RenderRequest { fractal: FractalType::Julia, ..base };
    assert_eq!(pick(julia), Strategy::SimdSingle);
    assert_eq!(pick(RenderRequest { vp: deep, ..julia }), Strategy::SimdDouble);
    assert_eq!(pick(RenderRequest { fractal: FractalType::Nova, ..base }), Strategy::Scalar);
    assert_eq!(choose_strategy(&base, &shallow, false), Strategy::Scalar);
    let capped = RenderRequest { use_neighbor_cap: true, ..base };
    assert_eq!(pick(capped), Strategy::NeighborCapped);
    let ms = RenderRequest { use_mariani_silver: true, ..capped };
    assert_eq!(pick(ms), Strategy::MarianiSilver);
    let perturbed = RenderRequest { use_perturbation: true, ..ms };
    assert_eq!(pick(perturbed), Strategy::Perturbation);
    let multi = RenderRequest { use_multiref: true, ..perturbed };
    assert_eq!(pick(multi), Strategy::PerturbationMultiref);
    assert_eq!(
        pick(RenderRequest { use_series_approx: true, ..multi }),
        Strategy::PerturbationSeries
    );
    assert_eq!(NEIGHBOR_CAP_SLACK, 16);
}

#[test]
fn device_path_of_a_request() {
    let base = request(camera(0.0, 0.0, 1.0, 4, 4));
    assert_eq!(choose_device_path(&base), DevicePath::Plain);
    let p = RenderRequest { use_perturbation: true, ..base };
    assert_eq!(choose_device_path(&p), DevicePath::Perturbation { pairs: false });
    let deep = RenderRequest { vp: camera(0.0, 0.0, 1e13, 4, 4), ..p };
    assert_eq!(choose_device_path(&deep), DevicePath::Perturbation { pairs: true });
    let julia = RenderRequest { fractal: FractalType::Julia, ..p };
    assert_eq!(choose_device_path(&julia), DevicePath::Plain);
    let shared = RenderRequest { use_heterogeneous: true, ..p };
    assert_eq!(choose_device_path(&shared), DevicePath::Heterogeneous);
    assert!(needs_new_device(None, &base));
    assert!(needs_new_device(Some((4, 5)), &base));
    assert!(needs_new_device(Some((5, 4)), &base));
    assert!(!needs_new_device(Some((4, 4)), &base));
}

#[test]
fn preview_does_not_end_the_wait() {
    let mut s = RenderStatus::new();
    assert!(!s.busy);
    s.received(0, Quality::Final);
    assert!(!s.busy);
    let id = s.request();
    assert!(s.busy && s.latest == id);
    s.received(id, Quality::Preview);
    assert!(s.busy);
    s.received(id, Quality::Final);
    assert!(!s.busy);
}

#[test]
fn earlier_final_does_not_end_the_wait() {
    let mut s = RenderStatus::new();
    let a = s.request();
    let b = s.request();
    assert_ne!(a, b);
    s.received(a, Quality::Final);
    assert!(s.busy);
    s.received(b, Quality::Preview);
    assert!(s.busy);
    s.received(b, Quality::Final);
    assert!(!s.busy);
    s.received(a, Quality::Final);
    assert!(!s.busy);
    let mut last = RenderStatus { busy: false, latest: u64::MAX };
    assert_eq!(last.request(), 0);
    assert!(last.busy);
}

#[test]
fn plans_lead_to_passes() {
    let vp = camera(0.0, 0.0, 1.0, 9, 7);
    let small = camera(0.0, 0.0, 1.0, 4, 3);
    let full = passes(&FramePlan::Full { preview: Some(small) }, &vp);
    assert_eq!(full, vec![(small, Quality::Preview), (vp, Quality::Final)]);
    for plan in [
        FramePlan::Recolor,
        FramePlan::Shift { dx: 1, dy: 0 },
        FramePlan::Full { preview: None },
    ] {
        assert_eq!(passes(&plan, &vp), vec![(vp, Quality::Final)]);
    }
}

/// Serves one request to its end.
fn serve(cache: &mut FrameCache, first: Ticket, queued: &Vec<Ticket>) -> Vec<Frame> {
    let mut s = cache.begin(first, queued, &whole_drift);
    let sample = |(x, y): (usize, usize)| -> u32 { (1000 + 10 * y + x) as u32 };
    let compute = |vp: Viewport| -> Vec<u32> { vec![vp.width; (vp.width * vp.height) as usize] };
    let mut frames = Vec::new();
    while let Some(f) = cache.step(&mut s, &sample, &compute) {
        frames.push(f);
    }
    assert!(cache.step(&mut s, &sample, &compute).is_none());
    frames
}

#[test]
fn request_yields_preview_and_final() {
    let mut cache = FrameCache::new();
    let req = request(camera(-0.1, 0.0, 100.0, 4, 4));
    let frames = serve(&mut cache, Ticket { id: 5, req }, &Vec::new());
    assert_eq!(frames.len(), 2);
    assert_eq!((frames[0].id, frames[0].quality), (5, Quality::Preview));
    assert_eq!(frames[0].vp, camera(-0.1, 0.0, 100.0, 2, 2));
    assert_eq!(frames[0].buf, vec![2; 4]);
    assert_eq!((frames[1].id, frames[1].quality), (5, Quality::Final));
    assert_eq!(frames[1].vp, req.vp);
    assert_eq!(frames[1].buf, vec![4; 16]);
    assert_eq!(cache.buf, vec![4; 16]);
    // The palette alone changes: one frame, with the same values.
    let recolored = RenderRequest { scheme: ColorScheme::Ocean, ..req };
    let again = serve(&mut cache, Ticket { id: 6, req: recolored }, &Vec::new());
    assert_eq!(again.len(), 1);
    assert_eq!((again[0].id, again[0].quality), (6, Quality::Final));
    assert_eq!(again[0].buf, frames[1].buf);
}

#[test]
fn moved_request_yields_one_frame() {
    let mut cache = FrameCache::new();
    let req = request(camera(0.0, 0.0, 1.0, 3, 2));
    serve(&mut cache, Ticket { id: 1, req }, &Vec::new());
    let moved = RenderRequest { vp: camera(-1.0, 0.0, 1.0, 3, 2), ..req };
    let frames = serve(&mut cache, Ticket { id: 2, req: moved }, &Vec::new());
    assert_eq!(frames.len(), 1);
    assert_eq!((frames[0].id, frames[0].quality), (2, Quality::Final));
    assert_eq!(frames[0].buf, vec![1000, 3, 3, 1010, 3, 3]);
    assert!(cache.key == Some(CacheKey::from(&moved)));
}

#[test]
fn only_the_latest_request_is_served() {
    let of = |id: u64, w: u32| -> Ticket {
        Ticket { id, req: request(camera(0.0, 0.0, 1.0, w, 1)) }
    };
    let mut cache = FrameCache::new();
    let frames = serve(&mut cache, of(1, 2), &vec![of(2, 3), of(3, 5)]);
    assert_eq!(frames.len(), 1);
    assert_eq!((frames[0].id, frames[0].vp.width), (3, 5));
    assert_eq!(frames[0].quality, Quality::Final);
}

#[test]
fn state_at_the_start() {
    let app = FractalApp::default();
    assert_eq!(app.fractal, FractalType::Mandelbrot);
    assert_eq!(app.viewport, Viewport::default());
    assert_eq!(app.julia_c.map(f64::from_bits), [-0.7269, 0.1889]);
    assert_eq!(app.max_iter, 256);
    assert_eq!(app.scheme, ColorScheme::Inferno);
    assert!(app.show_panel && app.needs_render && app.auto_iter && !app.use_ms);
}

#[test]
fn offered_constants() {
    let list: Vec<(&str, [f64; 2])> =
        julia_presets().iter().map(|p| (p.name, p.c.map(f64::from_bits))).collect();
    assert_eq!(
        list,
        vec![
            ("Dragon", [-0.7269, 0.1889]),
            ("Spiral", [-0.8, 0.156]),
            ("Dendrite", [-0.235, 0.827]),
            ("Snowflake", [-0.4, 0.6]),
            ("Fire", [0.285, 0.01]),
        ]
    );
}

#[test]
fn automatic_limit_is_held_in_bounds() {
    let mut app = FractalApp::default();
    for (wanted, limit) in [(10, 64), (64, 64), (700, 700), (2048, 2048), (9999, 2048)] {
        let depth = |z: u64| -> u32 {
            assert_eq!(f64::from_bits(z), 1.0);
            wanted
        };
        app.needs_render = true;
        let req = app.request_render(&depth);
        assert_eq!(req.max_iter, limit);
        assert_eq!(app.max_iter, limit);
        assert!(!app.needs_render);
    }
    assert_eq!((AUTO_ITER_MIN, AUTO_ITER_MAX), (64, 2048));
    assert_eq!((MANUAL_ITER_MIN, MANUAL_ITER_MAX), (32, 4096));
    app.set_auto_iter(false);
    assert!(!app.needs_render);
    app.set_max_iter(32);
    assert!(app.needs_render);
    let depth = |_z: u64| -> u32 { 700 };
    assert_eq!(app.request_render(&depth).max_iter, 32);
}

#[test]
fn request_shows_the_controls() {
    let mut app = FractalApp::default();
    app.pick_fractal(FractalType::Julia);
    app.set_julia_c([3, 4]);
    app.pick_scheme(ColorScheme::Sunset);
    app.set_use_ms(true);
    app.resize(320, 200);
    app.move_to([0.25f64.to_bits(), 0.5f64.to_bits()], 8.0f64.to_bits());
    let depth = |_z: u64| -> u32 { 100 };
    let req = app.request_render(&depth);
    assert_eq!(req.vp, camera(0.25, 0.5, 8.0, 320, 200));
    assert_eq!(req.fractal, FractalType::Julia);
    assert_eq!(req.julia_c, [3, 4]);
    assert_eq!(req.scheme, ColorScheme::Sunset);
    assert!(req.use_mariani_silver);
    assert!(!req.use_perturbation && !req.use_series_approx && !req.use_neighbor_cap);
    assert!(!req.use_multiref && !req.use_heterogeneous);
}

#[test]
fn controls_call_for_a_frame() {
    let mut app = FractalApp::default();
    let depth = |_z: u64| -> u32 { 100 };
    app.request_render(&depth);
    assert!(!app.wants_render(false));
    app.toggle_panel();
    assert!(!app.show_panel && !app.needs_render);
    app.resize(800, 600);
    assert!(!app.needs_render);
    app.resize(801, 600);
    assert!(app.wants_render(false) && !app.wants_render(true));
    app.request_render(&depth);
    app.move_to([0, 0], 9);
    assert!(app.needs_render);
    app.request_render(&depth);
    app.reset_view();
    assert!(app.needs_render);
    assert_eq!(app.viewport, camera(-0.5, 0.0, 1.0, 801, 600));
}

#[test]
fn wheel_forward_zooms_in() {
    assert_eq!(wheel(0.0f32.to_bits()), Wheel::Still);
    assert_eq!(wheel((-0.0f32).to_bits()), Wheel::Still);
    assert_eq!(wheel(3.0f32.to_bits()), Wheel::ZoomIn);
    assert_eq!(wheel((-3.0f32).to_bits()), Wheel::ZoomOut);
    assert_eq!(wheel(f32::NAN.to_bits()), Wheel::ZoomOut);
}

#[test]
fn last_request_is_rendered() {
    let of = |id: u64| -> Ticket { Ticket { id, req: request(camera(0.0, 0.0, 1.0, 4, 4)) } };
    assert_eq!(latest_request(of(1), &Vec::new()).id, 1);
    assert_eq!(latest_request(of(1), &vec![of(2), of(3)]).id, 3);
}

#[test]
fn repeated_frame_repeats_its_colors() {
    let buf: Vec<u32> = [1.0f32, 1.0, 2.5, 4.0, 10.0, 12.0].iter().map(|v| v.to_bits()).collect();
    let once = colorize(&buf, 10, &table(), &quotient, &place);
    assert_eq!(colorize(&[buf.clone(), buf].concat(), 10, &table(), &quotient, &place), once.repeat(2));
    // Twice the frame is coloured on the thread pool, the frame itself is not.
    let large: Vec<u32> =
        (0..PARALLEL_PIXELS / 2 + 7).map(|i| ((i * 37 % 997) as f32 / 16.0).to_bits()).collect();
    let once = colorize(&large, 50, &table(), &quotient, &place);
    assert_eq!(
        colorize(&[large.clone(), large].concat(), 50, &table(), &quotient, &place),
        once.repeat(2)
    );
}
