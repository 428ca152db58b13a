use novafractal::bench::args::{
    choose_job, choose_mode, is_headless, parse_args, ArgError, Args, Backend, Job, Mode,
};
use novafractal::bench::measure::{
    bench_compare_bulb_reject, count_cap_hits, count_glitches, count_mismatches, cpu_render,
    hybrid_split, pixel_diff_stats, thread_counts, total_iters, CpuRender,
};
use novafractal::bench::text::{
    check_fraction, is_whitespace, parse_signed, parse_unsigned, same_text, split_pair,
};
use novafractal::bench::timing::summarize_times;
use novafractal::fractal::FractalType;
use novafractal::gui::viewport::Viewport;
use std::cell::RefCell;

fn words(line: &[&str]) -> Vec<String> {
    line.iter().map(|w| w.to_string()).collect()
}

fn read(line: &[&str]) -> Args {
    match parse_args(&words(line)) {
        Ok(a) => a,
        Err(_) => panic!("refused: {:?}", line),
    }
}

fn refused(line: &[&str]) -> ArgError {
    match parse_args(&words(line)) {
        Ok(_) => panic!("accepted: {:?}", line),
        Err(e) => e,
    }
}

#[test]
fn empty_line_means_defaults() {
    let a = read(&[]);
    assert_eq!(a.fractals, FractalType::all().to_vec());
    let s = a.settings;
    assert_eq!((s.width, s.height, s.max_iter, s.runs, s.threads), (1920, 1080, 1000, 5, 0));
    assert_eq!((s.backend, s.cap_slack, s.compare_pan_recycle), (Backend::Cpu, 16, None));
    assert_eq!((a.zoom.as_str(), a.dem_k.as_str()), ("1.0", "4.0"));
    assert_eq!((a.center.0.as_str(), a.center.1.as_str()), ("-0.5", "0.0"));
    assert!(!s.perturbation && !s.use_sa && !s.compare_perturb && !s.perturb_sweep);
    assert!(!s.compare_bulb_reject && !s.compare_neighbor_cap && !s.tile_check);
    assert!(!s.compare_multiref && !s.compare_rebase && !s.compare_dem_cull && !s.compare_ide);
    assert!(!s.heterogeneous && !s.scaling && !s.json);
}

#[test]
fn numbers_on_the_line() {
    let s = read(&[
        "--width", "640", "--height", "+480", "--iters", "77", "--runs", "3", "--threads", "8",
        "--cap-slack", "5",
    ])
    .settings;
    assert_eq!((s.width, s.height, s.max_iter, s.runs, s.threads), (640, 480, 77, 3, 8));
    assert_eq!(s.cap_slack, 5);
    assert_eq!(read(&["--width", "1", "--width", "2"]).settings.width, 2);
}

#[test]
fn switches_on_the_line() {
    let s = read(&[
        "--perturbation", "--sa", "--compare-perturb", "--perturb-sweep", "--compare-bulb-reject",
        "--compare-neighbor-cap", "--tile-check", "--compare-multiref", "--compare-rebase",
        "--compare-dem-cull", "--compare-ide", "--heterogeneous", "--scaling", "--json",
    ])
    .settings;
    assert!(s.perturbation && s.use_sa && s.compare_perturb && s.perturb_sweep);
    assert!(s.compare_bulb_reject && s.compare_neighbor_cap && s.tile_check);
    assert!(s.compare_multiref && s.compare_rebase && s.compare_dem_cull && s.compare_ide);
    assert!(s.heterogeneous && s.scaling && s.json);
}

#[test]
fn names_on_the_line() {
    for (name, f) in [
        ("mandelbrot", FractalType::Mandelbrot),
        ("julia", FractalType::Julia),
        ("newton", FractalType::Newton),
        ("nova", FractalType::Nova),
    ] {
        assert_eq!(read(&["--fractal", name]).fractals, vec![f]);
    }
    assert_eq!(read(&["--fractal", "nova", "--fractal", "all"]).fractals, FractalType::all().to_vec());
    for (name, b) in [("cpu", Backend::Cpu), ("wgpu", Backend::Wgpu), ("hybrid", Backend::Hybrid)] {
        assert_eq!(read(&["--backend", name]).settings.backend, b);
    }
}

#[test]
fn texts_and_pairs_on_the_line() {
    let a = read(&["--zoom", "1e9", "--dem-k", "2.5", "--center", " -0.5 , 1e-3", "--compare-pan-recycle", "-8, +3"]);
    assert_eq!(a.zoom, "1e9");
    assert_eq!(a.dem_k, "2.5");
    assert_eq!(a.center, ("-0.5".to_string(), "1e-3".to_string()));
    assert_eq!(a.settings.compare_pan_recycle, Some((-8, 3)));
}

#[test]
fn faults_on_the_line() {
    for flag in [
        "--fractal", "--backend", "--zoom", "--center", "--dem-k", "--compare-pan-recycle",
        "--width", "--height", "--iters", "--cap-slack", "--runs", "--threads",
    ] {
        assert!(matches!(refused(&["--json", flag]), ArgError::MissingValue(w) if w == flag));
    }
    assert!(matches!(refused(&["--fractal", "tree"]), ArgError::UnknownFractal(w) if w == "tree"));
    assert!(matches!(refused(&["--backend", "Cpu"]), ArgError::UnknownBackend(w) if w == "Cpu"));
    assert!(matches!(refused(&["--width", "4294967296"]), ArgError::BadNumber(w) if w == "4294967296"));
    assert!(matches!(refused(&["--iters", "-1"]), ArgError::BadNumber(_)));
    assert!(matches!(refused(&["--runs", ""]), ArgError::BadNumber(_)));
    assert!(matches!(refused(&["--compare-pan-recycle", "1,x"]), ArgError::BadNumber(w) if w == "1,x"));
    assert!(matches!(refused(&["--compare-pan-recycle", "1"]), ArgError::BadPan(w) if w == "1"));
    assert!(matches!(refused(&["--center", "1,2,3"]), ArgError::BadCenter(w) if w == "1,2,3"));
    assert!(matches!(refused(&["--help"]), ArgError::UnknownFlag(w) if w == "--help"));
    assert!(matches!(refused(&["--bogus", "--fractal"]), ArgError::UnknownFlag(_)));
}

#[test]
fn numbers_in_text() {
    assert_eq!(parse_unsigned("0", 10), Some(0));
    assert_eq!(parse_unsigned("007", 10), Some(7));
    assert_eq!(parse_unsigned("+10", 10), Some(10));
    assert_eq!(parse_unsigned("11", 10), None);
    assert_eq!(parse_unsigned("", 10), None);
    assert_eq!(parse_unsigned("+", 10), None);
    assert_eq!(parse_unsigned("-0", 10), None);
    assert_eq!(parse_unsigned(" 1", 10), None);
    assert_eq!(parse_unsigned("1_0", 100), None);
    assert_eq!(parse_unsigned("18446744073709551615", u64::MAX), Some(u64::MAX));
    assert_eq!(parse_unsigned("18446744073709551616", u64::MAX), None);
    assert_eq!(parse_unsigned("99999999999999999999999999999999999999999999", u64::MAX), None);
    for text in ["0", "-0", "+5", "-5", "2147483647", "-2147483648", "2147483648", "-2147483649", "--1", "+-1", "-", "x", ""] {
        assert_eq!(parse_signed(text), text.parse::<i32>().ok());
    }
}

#[test]
fn pairs_in_text() {
    let pair = |a: &str, b: &str| -> Option<(String, String)> { Some((a.to_string(), b.to_string())) };
    assert_eq!(split_pair("1,2"), pair("1", "2"));
    assert_eq!(split_pair("\t a b ,\u{3000}c\n"), pair("a b", "c"));
    assert_eq!(split_pair(","), pair("", ""));
    assert_eq!(split_pair(""), None);
    assert_eq!(split_pair("1"), None);
    assert_eq!(split_pair("1,2,3"), None);
}

#[test]
fn white_space_is_that_of_the_standard() {
    for n in 0..0x3100u32 {
        if let Some(c) = char::from_u32(n) {
            assert_eq!(is_whitespace(c), c.is_whitespace());
        }
    }
    assert!(!is_whitespace('\u{10ffff}'));
}

#[test]
fn texts_are_compared_whole() {
    assert!(same_text("abc", "abc") && same_text("", ""));
    assert!(!same_text("abc", "ab") && !same_text("ab", "abc") && !same_text("abc", "abd"));
}

#[test]
fn cpu_renderer_of_the_flags() {
    assert_eq!(cpu_render(true, true), CpuRender::PerturbationSeries);
    assert_eq!(cpu_render(true, false), CpuRender::Perturbation);
    assert_eq!(cpu_render(false, true), CpuRender::Plain);
    assert_eq!(CpuRender::PerturbationSeries.label(), "cpu+perturb+sa");
    assert_eq!(CpuRender::Perturbation.label(), "cpu+perturb");
    assert_eq!(CpuRender::Plain.label(), "cpu");
}

fn bits(v: &[f32]) -> Vec<u32> {
    v.iter().map(|x| x.to_bits()).collect()
}

#[test]
fn iterations_of_a_frame() {
    assert_eq!(total_iters(&bits(&[1.9, 2.0, 50.0, 0.5, -3.0]), 10), 1 + 2 + 10);
    assert_eq!(total_iters(&Vec::new(), 10), 0);
    // A value that is no number counts as the limit.
    assert_eq!(total_iters(&bits(&[f32::NAN]), 10), 10);
}

#[test]
fn differences_of_two_frames() {
    let diff = |(a, b): (u32, u32)| -> u32 { (f32::from_bits(a) - f32::from_bits(b)).abs().to_bits() };
    let accumulate = |(s, d): (u64, u32)| -> u64 { (f64::from_bits(s) + f32::from_bits(d) as f64).to_bits() };
    let mean = |(s, n): (u64, usize)| -> u64 { (f64::from_bits(s) / n as f64).to_bits() };
    let a = bits(&[1.0, 2.0, 3.0, 4.0]);
    let b = bits(&[1.0, 2.5, 3.0, 3.0]);
    let (max, avg, above) = pixel_diff_stats(&a, &b, &diff, &accumulate, &mean);
    assert_eq!((f32::from_bits(max), f64::from_bits(avg), above), (1.0, 0.375, 2));
    let (max, avg, above) = pixel_diff_stats(&a, &a, &diff, &accumulate, &mean);
    assert_eq!((max, f64::from_bits(avg), above), (0, 0.0, 0));
    assert_eq!(pixel_diff_stats(&Vec::new(), &Vec::new(), &diff, &accumulate, &mean), (0, 0, 0));
}

#[test]
fn differing_pixels() {
    let differs = |(a, b): (u32, u32)| -> bool { a != b };
    assert_eq!(count_mismatches(&vec![1, 2, 3], &vec![1, 5, 4], &differs), 2);
    assert_eq!(count_mismatches(&vec![1, 2, 3], &vec![1, 2, 3], &differs), 0);
    assert_eq!(count_mismatches(&vec![1, 2, 3], &vec![9], &differs), 1);
}

#[test]
fn claims_are_checked() {
    let claimed = |(x, _y): (usize, usize)| -> bool { x > 0 };
    let raw = |(x, y): (usize, usize)| -> u32 {
        if (x, y) == (2, 1) { 3.0f32.to_bits() } else { 10.0f32.to_bits() }
    };
    assert_eq!(bench_compare_bulb_reject(3, 2, 10, &claimed, &raw), (4, 1));
    assert_eq!(bench_compare_bulb_reject(0, 5, 10, &claimed, &raw), (0, 0));
}

#[test]
fn tries_that_hit_the_limit() {
    let caps = RefCell::new(Vec::new());
    let values = [3.0f32, 50.0, 4.0, 100.0];
    let compute = |(x, _y, cap): (usize, usize, u32)| -> u32 {
        caps.borrow_mut().push(cap);
        values[x].min(cap as f32).to_bits()
    };
    let vp = Viewport { width: 4, height: 1, ..Viewport::default() };
    assert_eq!(count_cap_hits(&vp, &compute, 100, 10), (2, 4));
    assert_eq!(*caps.borrow(), vec![100, 13, 23, 14]);
}

#[test]
fn pixels_without_a_value() {
    let flagged = |(x, y): (usize, usize)| -> Option<u32> { if x == y { None } else { Some(1) } };
    let vp = Viewport { width: 5, height: 3, ..Viewport::default() };
    assert_eq!(count_glitches(&vp, &flagged), 3);
}

#[test]
fn thread_counts_of_a_scaling_run() {
    assert_eq!(thread_counts(1), vec![1]);
    assert_eq!(thread_counts(8), vec![1, 2, 4, 8]);
    assert_eq!(thread_counts(12), vec![1, 2, 4]);
    assert_eq!(thread_counts(7), vec![1]);
}

#[test]
fn halves_of_a_frame() {
    assert_eq!(hybrid_split(1080), (540, 540));
    assert_eq!(hybrid_split(7), (3, 4));
    assert_eq!(hybrid_split(0), (0, 0));
}

#[test]
fn first_mode_that_is_asked_for() {
    let mode = |line: &[&str]| -> Mode { choose_mode(&read(line).settings) };
    assert_eq!(mode(&[]), Mode::Measure);
    assert_eq!(mode(&["--scaling"]), Mode::Scaling);
    assert_eq!(mode(&["--scaling", "--compare-perturb"]), Mode::ComparePerturb);
    assert_eq!(mode(&["--compare-perturb", "--heterogeneous"]), Mode::Heterogeneous);
    assert_eq!(mode(&["--heterogeneous", "--tile-check"]), Mode::TileCheck);
    assert_eq!(mode(&["--tile-check", "--compare-rebase"]), Mode::Rebase);
    assert_eq!(mode(&["--compare-rebase", "--compare-ide"]), Mode::Ide);
    assert_eq!(mode(&["--compare-ide", "--compare-dem-cull"]), Mode::DemCull);
    assert_eq!(mode(&["--compare-dem-cull", "--compare-multiref"]), Mode::Multiref);
    assert_eq!(
        mode(&["--compare-multiref", "--compare-pan-recycle", "3,-4"]),
        Mode::PanRecycle { dx: 3, dy: -4 }
    );
    assert_eq!(
        mode(&["--compare-pan-recycle", "3,-4", "--compare-neighbor-cap"]),
        Mode::NeighborCap
    );
    assert_eq!(mode(&["--compare-neighbor-cap", "--compare-bulb-reject"]), Mode::BulbReject);
    assert_eq!(mode(&["--compare-bulb-reject", "--perturb-sweep"]), Mode::PerturbSweep);
}

#[test]
fn job_of_a_backend() {
    assert_eq!(choose_job(Backend::Cpu, true), Job::Cpu);
    assert_eq!(choose_job(Backend::Cpu, false), Job::Cpu);
    assert_eq!(choose_job(Backend::Wgpu, true), Job::Skip);
    assert_eq!(choose_job(Backend::Wgpu, false), Job::Wgpu);
    assert_eq!(choose_job(Backend::Hybrid, true), Job::Skip);
    assert_eq!(choose_job(Backend::Hybrid, false), Job::Hybrid);
}

#[test]
fn short_measurement_on_request() {
    assert!(!is_headless(&words(&[])));
    assert!(!is_headless(&words(&["novafractal", "--head"])));
    assert!(is_headless(&words(&["novafractal", "--bench"])));
    assert!(is_headless(&words(&["--x", "--headless", "--y"])));
}

#[test]
fn summary_of_times() {
    let s = summarize_times(&vec![5, 1, 9, 3, 3]);
    assert_eq!((s.median, s.min, s.max), (3, 1, 9));
    let s = summarize_times(&vec![4, 1, 3, 2]);
    assert_eq!((s.median, s.min, s.max), (3, 1, 4));
    let s = summarize_times(&vec![7]);
    assert_eq!((s.median, s.min, s.max), (7, 7, 7));
}

#[test]
fn fractions_are_those_that_can_be_read() {
    let texts = [
        "1", "+1", "-1", "1.", ".5", "-.5e3", "1e9", "1E-9", "1e+9", "0.25e-003", "inf", "-Inf",
        "+INFINITY", "nan", "NaN", "-nan", "007.50", "", "+", "-", ".", "e", "1e", "1e+", ".e1",
        "1.2.3", "1,5", " 1", "1 ", "++1", "1f", "infin", "infinityx", "na", "0x1", "1_000", "e5",
        "\u{661}", "1e5.", "1.5e5e5",
    ];
    for text in texts {
        assert_eq!(check_fraction(text), text.parse::<f64>().is_ok(), "{text:?}");
    }
}

#[test]
fn fractions_that_cannot_be_read_are_refused() {
    assert!(matches!(refused(&["--zoom", "deep"]), ArgError::BadZoom(w) if w == "deep"));
    assert!(matches!(refused(&["--zoom", "x", "--zoom", "1"]), ArgError::BadZoom(w) if w == "x"));
    assert!(matches!(refused(&["--dem-k", ""]), ArgError::BadNumber(w) if w.is_empty()));
    assert!(matches!(refused(&["--center", "0.5,y"]), ArgError::BadNumber(w) if w == "0.5,y"));
    let a = read(&["--zoom", "1e12", "--zoom", "2.", "--dem-k", "inf", "--center", "-.75, 1e-1"]);
    assert_eq!(a.zoom, "2.");
    assert_eq!(a.dem_k, "inf");
    assert_eq!(a.center, ("-.75".to_string(), "1e-1".to_string()));
}

#[test]
fn flags_are_taken_in_turn() {
    let a = read(&["--width", "10", "--json", "--fractal", "julia", "--width", "20", "--fractal", "nova"]);
    assert_eq!(a.settings.width, 20);
    assert_eq!(a.settings.height, 1080);
    assert!(a.settings.json);
    assert_eq!(a.fractals, vec![FractalType::Nova]);
}
