use novafractal::fractal::{render, FractalType};
use novafractal::gui::viewport::Viewport;
use novafractal::scheduler::classifier::{corner_spread, partition_frame, TileKind};
use novafractal::scheduler::controller::{
    clamp_single, ThresholdController, HISTORY, THRESHOLD_MAX, THRESHOLD_MIN,
};
use novafractal::scheduler::queues::TileQueues;
use novafractal::scheduler::worker::{composite, WorkerOut};
use novafractal::scheduler::{
    device_did_anything, finish_heterogeneous, latest_finish, plan_heterogeneous, split_reserve,
    HeterogeneousResult, HeterogeneousStats, SchedulerConfig,
};

fn frame(width: u32, height: u32) -> Viewport {
    Viewport { center: [0, 0], zoom: 1.0f64.to_bits(), width, height }
}

fn close(hi: u32, lo: u32) -> bool {
    f32::from_bits(hi) - f32::from_bits(lo) <= 1.0
}

fn cover(tiles: &[[u32; 4]], count: &mut [u32], w: usize) {
    for t in tiles {
        for y in t[1]..t[1] + t[3] {
            for x in t[0]..t[0] + t[2] {
                count[y as usize * w + x as usize] += 1;
            }
        }
    }
}

#[test]
fn spread_of_corners() {
    let c = [3.0f32, -1.0, 7.5, 2.0].map(f32::to_bits);
    assert_eq!(corner_spread(c), (7.5f32.to_bits(), (-1.0f32).to_bits()));
    let nan = [f32::NAN; 4].map(f32::to_bits);
    assert_eq!(corner_spread(nan), (f32::MIN.to_bits(), f32::MAX.to_bits()));
}

#[test]
fn uniform_frame_goes_to_the_device() {
    let sample = |(_x, _y): (usize, usize)| -> u32 { 4.0f32.to_bits() };
    let uniform = |(hi, lo): (u32, u32)| -> bool { close(hi, lo) };
    let (gpu, cpu) = partition_frame(&sample, &uniform, 100, 70, 64, 16);
    assert_eq!(gpu, vec![[0, 0, 64, 64], [64, 0, 36, 64], [0, 64, 64, 6], [64, 64, 36, 6]]);
    assert!(cpu.is_empty());
}

#[test]
fn longer_side_is_halved() {
    let sample = |(x, _y): (usize, usize)| -> u32 { (x as f32).to_bits() };
    let uniform = |(hi, lo): (u32, u32)| -> bool { close(hi, lo) };
    let (gpu, cpu) = partition_frame(&sample, &uniform, 9, 4, 64, 3);
    assert_eq!(gpu, vec![[0, 0, 2, 4], [2, 0, 2, 4], [4, 0, 2, 4]]);
    assert_eq!(cpu, vec![[6, 0, 3, 4]]);
}

#[test]
fn every_pixel_lies_in_one_tile() {
    let sample = |(x, y): (usize, usize)| -> u32 { ((x * x + 3 * y) as f32 * 0.01).to_bits() };
    let uniform = |(hi, lo): (u32, u32)| -> bool { close(hi, lo) };
    for (w, h, max, min) in [(50, 30, 16, 4), (33, 17, 8, 1), (5, 5, 128, 16), (40, 40, 0, 0), (7, 9, 3, 5)] {
        let (gpu, cpu) = partition_frame(&sample, &uniform, w, h, max, min);
        let mut count = vec![0u32; (w * h) as usize];
        cover(&gpu, &mut count, w as usize);
        cover(&cpu, &mut count, w as usize);
        assert!(count.iter().all(|&n| n == 1));
        for t in &cpu {
            assert!(t[2] <= min.max(1) || t[3] <= min.max(1));
        }
    }
    let (gpu, cpu) = partition_frame(&sample, &uniform, 0, 10, 16, 4);
    assert!(gpu.is_empty() && cpu.is_empty());
}

#[test]
fn tile_kinds_differ() {
    assert_ne!(TileKind::Gpu, TileKind::Cpu);
}

#[test]
fn threshold_bounds() {
    assert_eq!(f32::from_bits(THRESHOLD_MIN), 0.001);
    assert_eq!(f32::from_bits(THRESHOLD_MAX), 0.5);
    assert_eq!(HISTORY, 16);
    let clamp = |v: f32| -> f32 {
        f32::from_bits(clamp_single(v.to_bits(), THRESHOLD_MIN, THRESHOLD_MAX))
    };
    assert_eq!(clamp(0.25), 0.25);
    assert_eq!(clamp(-7.0), 0.001);
    assert_eq!(clamp(9.0), 0.5);
    assert!(clamp(f32::NAN).is_nan());
}

#[test]
fn controller_remembers_the_last_errors() {
    let difference = |(a, b): (u32, u32)| -> u32 { (f32::from_bits(a) - f32::from_bits(b)).to_bits() };
    let mean = |h: [u32; 16]| -> u32 {
        (h.iter().map(|&v| f32::from_bits(v)).sum::<f32>() / 16.0).to_bits()
    };
    let adjust = |(t, e, i): (u32, u32, u32)| -> u32 {
        (f32::from_bits(t) + 0.01 * f32::from_bits(e) + 0.5 * f32::from_bits(i)).to_bits()
    };
    let mut c = ThresholdController::new(0.1f32.to_bits());
    assert_eq!((c.head, c.integral, c.history), (0, 0, [0; 16]));
    c.update(3.0f32.to_bits(), 1.0f32.to_bits(), &difference, &mean, &adjust);
    assert_eq!(f32::from_bits(c.history[0]), 2.0);
    assert_eq!(f32::from_bits(c.integral), 0.125);
    assert_eq!(f32::from_bits(c.threshold), 0.1f32 + 0.01 * 2.0 + 0.5 * 0.125);
    for k in 1..20 {
        c.update((k as f32).to_bits(), 0, &difference, &mean, &adjust);
    }
    assert_eq!(c.head, 4);
    // The oldest of the stored errors is that of the fourth update from the start.
    let recent: Vec<f32> = (0..16).map(|i| f32::from_bits(c.history[(c.head + i) % 16])).collect();
    assert_eq!(recent, (4..20).map(|k| k as f32).collect::<Vec<f32>>());
    assert_eq!(f32::from_bits(c.threshold), 0.5);
}

#[test]
fn own_tiles_come_first() {
    let mut q = TileQueues::new(&vec![[1; 4], [2; 4]], &vec![[3; 4], [4; 4]]);
    assert_eq!(q.claim(), Some(([1; 4], false)));
    assert_eq!(q.claim(), Some(([2; 4], false)));
    assert_eq!(q.claim(), Some(([3; 4], true)));
    assert_eq!(q.take_leftover(2), None);
    assert_eq!(q.take_leftover(1), Some(vec![[4; 4]]));
    assert_eq!(q.claim(), None);
    assert_eq!(q.take_leftover(0), None);
}

#[test]
fn leftover_goes_to_the_device_as_a_whole() {
    let mut q = TileQueues::new(&vec![[1; 4]], &vec![[3; 4], [4; 4], [5; 4]]);
    assert_eq!(q.take_leftover(4), None);
    assert_eq!(q.take_leftover(3), Some(vec![[3; 4], [4; 4], [5; 4]]));
    assert_eq!(q.claim(), Some(([1; 4], false)));
    assert_eq!(q.claim(), None);
}

#[test]
fn worker_keeps_its_tiles_in_order() {
    let block = |(_x, _y): (usize, usize)| -> [u32; 8] { [0; 8] };
    let sample = |(x, y): (usize, usize)| -> u32 { (100 * y + x) as u32 };
    let mut out = WorkerOut::new();
    let zoom = 1.0f64.to_bits();
    out.render_claim([1, 2, 2, 1], false, FractalType::Newton, true, zoom, &block, &sample);
    out.render_claim([5, 0, 1, 2], true, FractalType::Newton, true, zoom, &block, &sample);
    assert_eq!(out.scratch, vec![201, 202, 5, 105]);
    assert_eq!(out.index, vec![([1, 2, 2, 1], 0), ([5, 0, 1, 2], 2)]);
    assert_eq!(out.stolen, 1);
}

#[test]
fn tiles_are_laid_over_the_frame() {
    let a = WorkerOut { scratch: vec![11, 12, 13], index: vec![([1, 0, 2, 1], 0), ([0, 1, 1, 1], 2)], stolen: 1, finished_ms: 0 };
    let b = WorkerOut { scratch: vec![14], index: vec![([3, 1, 1, 1], 0)], stolen: 2, finished_ms: 0 };
    let mut out = vec![7u32; 8];
    assert_eq!(composite(&mut out, 4, 2, &vec![a, b]), (4, 3));
    assert_eq!(out, vec![7, 11, 12, 7, 13, 7, 7, 14]);
}

#[test]
fn reserve_is_the_end_of_the_list() {
    let share = |(n, f): (usize, u32)| -> usize { (n as f32 * f32::from_bits(f)).round() as usize };
    let tiles: Vec<[u32; 4]> = (0..10).map(|k| [k; 4]).collect();
    let (now, later) = split_reserve(tiles.clone(), 0.2f32.to_bits(), &share);
    assert_eq!((now.len(), later.clone()), (8, vec![[8; 4], [9; 4]]));
    let (now, later) = split_reserve(tiles.clone(), 7.0f32.to_bits(), &share);
    assert_eq!((now.len(), later.len()), (0, 10));
    let (now, later) = split_reserve(tiles, (-1.0f32).to_bits(), &share);
    assert_eq!((now.len(), later.len()), (10, 0));
}

#[test]
fn default_configuration() {
    let c = SchedulerConfig::default();
    assert_eq!((c.max_tile_size, c.min_tile_size, c.min_steal_tiles), (128, 16, 64));
    assert_eq!(f32::from_bits(c.steal_reserve_frac), 0.2);
    assert!(c.simd_cpu_tiles && c.gpu_tiles_f32);
}

#[test]
fn device_precision_of_a_plan() {
    let sample = |(_x, _y): (usize, usize)| -> u32 { 0 };
    let uniform = |(hi, lo): (u32, u32)| -> bool { close(hi, lo) };
    let share = |(_n, _f): (usize, u32)| -> usize { 0 };
    let cfg = SchedulerConfig::default();
    let single = |f: FractalType, zoom: f64, cfg: SchedulerConfig| -> bool {
        let vp = Viewport { zoom: zoom.to_bits(), ..frame(4, 4) };
        plan_heterogeneous(&vp, f, &cfg, &sample, &uniform, &share).use_gpu_f32
    };
    assert!(single(FractalType::Mandelbrot, 1.0, cfg));
    assert!(single(FractalType::Julia, 9.9e5, cfg));
    assert!(!single(FractalType::Julia, 1e6, cfg));
    assert!(!single(FractalType::Nova, 1.0, cfg));
    assert!(!single(FractalType::Mandelbrot, 1.0, SchedulerConfig { gpu_tiles_f32: false, ..cfg }));
}

#[test]
fn blank_frame_where_the_device_did_nothing() {
    assert!(!device_did_anything(&Vec::new(), false));
    assert!(device_did_anything(&Vec::new(), true));
    assert!(device_did_anything(&vec![[0; 4]], false));
}

#[test]
fn last_worker_ends_the_frame() {
    let done = |ms: f32| -> WorkerOut {
        WorkerOut { scratch: Vec::new(), index: Vec::new(), stolen: 0, finished_ms: ms.to_bits() }
    };
    assert_eq!(f32::from_bits(latest_finish(&vec![done(2.0), done(5.5), done(1.0)])), 5.5);
    assert_eq!(latest_finish(&Vec::new()), 0);
}

#[test]
fn device_and_cpu_render_the_picture_together() {
    let sample = |(x, y): (usize, usize)| -> u32 { ((x * x + 3 * y) as f32 * 0.01).to_bits() };
    let block = |(x, y): (usize, usize)| -> [u32; 8] { std::array::from_fn(|k| sample((x + k, y))) };
    let uniform = |(hi, lo): (u32, u32)| -> bool { close(hi, lo) };
    let share = |(n, f): (usize, u32)| -> usize { (n as f32 * f32::from_bits(f)).round() as usize };
    let vp = frame(60, 40);
    let cfg = SchedulerConfig {
        max_tile_size: 16,
        min_tile_size: 4,
        min_steal_tiles: 2,
        steal_reserve_frac: 0.5f32.to_bits(),
        ..SchedulerConfig::default()
    };
    let mut plan = plan_heterogeneous(&vp, FractalType::Mandelbrot, &cfg, &sample, &uniform, &share);
    let mut workers = vec![WorkerOut::new(), WorkerOut::new()];
    let own = plan.queues.cpu.len();
    let held = plan.queues.steal.len();
    assert!(own > 0 && held > 3 && plan.gpu_committed.len() > 0);
    for k in 0..own + 1 {
        let (tile, is_steal) = plan.queues.claim().unwrap();
        workers[k % 2].render_claim(tile, is_steal, FractalType::Mandelbrot, true, vp.zoom, &block, &sample);
    }
    let leftover = plan.queues.take_leftover(cfg.min_steal_tiles).unwrap();
    assert_eq!(leftover.len(), held - 1);
    workers[1].finished_ms = 8.0f32.to_bits();
    // The device computes its tiles.
    let mut out = vec![0u32; 60 * 40];
    for t in plan.gpu_committed.iter().chain(&leftover) {
        for y in t[1]..t[1] + t[3] {
            for x in t[0]..t[0] + t[2] {
                out[(y * 60 + x) as usize] = sample((x as usize, y as usize));
            }
        }
    }
    let ratio = |(a, b): (u64, u64)| -> u32 { (a as f32 / b as f32).to_bits() };
    let difference = |(a, b): (u32, u32)| -> u32 { (f32::from_bits(a) - f32::from_bits(b)).to_bits() };
    let mean = |_h: [u32; 16]| -> u32 { 0 };
    let adjust = |(t, e, _i): (u32, u32, u32)| -> u32 { (f32::from_bits(t) + 0.01 * f32::from_bits(e)).to_bits() };
    let mut controller = ThresholdController::new(0.1f32.to_bits());
    let cpu_pixels: u32 = workers.iter().flat_map(|w| &w.index).map(|e| e.0[2] * e.0[3]).sum();
    let stats = finish_heterogeneous(
        &vp, &workers, 10.0f32.to_bits(), true, &mut controller, &mut out, &ratio, &difference, &mean, &adjust,
    );
    assert_eq!(out, render(&vp, &sample));
    assert_eq!(f32::from_bits(stats.cpu_ms), 8.0);
    assert_eq!(f32::from_bits(stats.gpu_ms), 10.0);
    assert_eq!(f32::from_bits(stats.cpu_tile_frac), cpu_pixels as f32 / 2400.0);
    assert!(stats.gpu_steal_dispatched);
    assert_eq!(stats.cpu_stolen_tile_count, 1);
    assert_eq!(f32::from_bits(controller.threshold), 0.1f32 + 0.01 * 2.0);
    let r = HeterogeneousResult::new(out.clone(), stats);
    assert_eq!((r.buf, r.gpu_ms, r.cpu_ms), (out, stats.gpu_ms, stats.cpu_ms));
    assert_eq!(r.cpu_tile_frac, stats.cpu_tile_frac);
    assert_eq!((r.gpu_steal_dispatched, r.cpu_stolen_tile_count), (true, 1));
}

#[test]
fn empty_frame_has_no_share() {
    let ratio = |(_a, _b): (u64, u64)| -> u32 { 99 };
    let difference = |(_a, _b): (u32, u32)| -> u32 { 0 };
    let mean = |_h: [u32; 16]| -> u32 { 0 };
    let adjust = |(t, _e, _i): (u32, u32, u32)| -> u32 { t };
    let mut c = ThresholdController::new(0.1f32.to_bits());
    let s: HeterogeneousStats = finish_heterogeneous(
        &frame(0, 5), &Vec::new(), 0, false, &mut c, &mut Vec::new(), &ratio, &difference, &mean, &adjust,
    );
    assert_eq!(s.cpu_tile_frac, 0);
    assert_eq!(s.cpu_stolen_tile_count, 0);
}

#[test]
fn without_uniform_tiles_the_cpu_renders_all() {
    let vp = frame(50, 37);
    let sample = |(x, y): (usize, usize)| -> u32 { ((x * 3 + y) as f32).to_bits() };
    let never = |_: (u32, u32)| -> bool { false };
    let share = |(n, f): (usize, u32)| -> usize { (n as f32 * f32::from_bits(f)).round() as usize };
    let block = |_: (usize, usize)| -> [u32; 8] { [0; 8] };
    let cfg = SchedulerConfig { simd_cpu_tiles: false, ..SchedulerConfig::default() };
    let mut plan =
        plan_heterogeneous(&vp, FractalType::Mandelbrot, &cfg, &sample, &never, &share);
    assert!(plan.gpu_committed.is_empty() && plan.queues.steal.is_empty());
    assert!(plan.queues.take_leftover(0).is_none());
    assert!(!device_did_anything(&plan.gpu_committed, false));
    let mut workers = vec![WorkerOut::new(), WorkerOut::new()];
    let mut k = 0;
    while let Some((tile, is_steal)) = plan.queues.claim() {
        assert!(!is_steal);
        workers[k % 2].render_claim(
            tile, is_steal, FractalType::Mandelbrot, false, vp.zoom, &block, &sample,
        );
        k += 1;
    }
    let mut out = vec![0u32; 50 * 37];
    assert_eq!(composite(&mut out, 50, 37, &workers), (50 * 37, 0));
    assert_eq!(out, render(&vp, &sample));
}

#[test]
fn old_errors_have_no_influence() {
    let difference = |(a, b): (u32, u32)| -> u32 { (f32::from_bits(a) - f32::from_bits(b)).to_bits() };
    let mean = |h: [u32; 16]| -> u32 {
        (h.iter().map(|&v| f32::from_bits(v)).sum::<f32>() / 16.0).to_bits()
    };
    let adjust = |(t, e, i): (u32, u32, u32)| -> u32 {
        (f32::from_bits(t) - (0.0005 * f32::from_bits(e) + 0.00005 * f32::from_bits(i))).to_bits()
    };
    let mut a = ThresholdController::new(0.1f32.to_bits());
    let mut b = ThresholdController::new(0.1f32.to_bits());
    for k in 0..4 {
        a.update((90.0f32 + k as f32).to_bits(), 0, &difference, &mean, &adjust);
        b.update(0, (7.0f32 * k as f32).to_bits(), &difference, &mean, &adjust);
    }
    for k in 0..HISTORY {
        if k == HISTORY - 1 {
            assert_ne!(a.threshold, b.threshold);
            b.threshold = a.threshold;
        }
        let time = (k as f32).to_bits();
        a.update(time, 2.0f32.to_bits(), &difference, &mean, &adjust);
        b.update(time, 2.0f32.to_bits(), &difference, &mean, &adjust);
    }
    assert_eq!((a.threshold, a.integral, a.history, a.head), (b.threshold, b.integral, b.history, b.head));
    // Balanced frames: once all stored errors are zero the threshold stays.
    let time = 5.0f32.to_bits();
    for _ in 0..HISTORY - 1 {
        a.update(time, time, &difference, &mean, &adjust);
    }
    let before = a.threshold;
    a.update(time, time, &difference, &mean, &adjust);
    assert_eq!(a.threshold, before);
    assert_eq!(f32::from_bits(a.integral), 0.0);
}

#[test]
fn higher_threshold_moves_pixels_to_the_device() {
    let sample = |(x, y): (usize, usize)| -> u32 { ((x * x + 3 * y) as f32).to_bits() };
    let owners = |threshold: f32| -> Vec<bool> {
        let uniform =
            |(hi, lo): (u32, u32)| -> bool { f32::from_bits(hi) - f32::from_bits(lo) < threshold };
        let (gpu, _cpu) = partition_frame(&sample, &uniform, 61, 43, 32, 4);
        let mut of_device = vec![false; 61 * 43];
        for [x0, y0, w, h] in gpu {
            for y in y0..y0 + h {
                for x in x0..x0 + w {
                    of_device[(y * 61 + x) as usize] = true;
                }
            }
        }
        of_device
    };
    let steps: Vec<Vec<bool>> = [0.0f32, 40.0, 100.0, 300.0, 1e9].iter().map(|&t| owners(t)).collect();
    for k in 1..steps.len() {
        assert!((0..61 * 43).all(|i| !steps[k - 1][i] || steps[k][i]));
        assert!(steps[k - 1] != steps[k]);
    }
    assert!(steps[0].iter().all(|d| !d) && steps[4].iter().all(|d| *d));
}

#[test]
fn reserve_is_accounted_for() {
    let own = vec![[1; 4], [2; 4]];
    let reserve = vec![[3; 4], [4; 4], [5; 4], [6; 4], [7; 4]];
    for claims in 0..9usize {
        let mut q = TileQueues::new(&own, &reserve);
        let mut stolen = 0;
        for _ in 0..claims {
            if let Some((_, held_back)) = q.claim() {
                stolen += held_back as usize;
            }
        }
        let leftover = q.take_leftover(2).map_or(0, |tiles| tiles.len());
        while let Some((_, held_back)) = q.claim() {
            stolen += held_back as usize;
        }
        assert_eq!(stolen + leftover, reserve.len());
    }
}
