//! Sharing the tiles of a frame between a device and the CPU.
//!
//! A frame goes through four steps. [`plan_heterogeneous`] cuts it into tiles and
//! decides who gets which. While the device computes its tiles, each CPU worker
//! draws tiles from the [`queues::TileQueues`] and renders them into its own
//! [`worker::WorkerOut`]. When the device is done it may draw what is left over.
//! [`finish_heterogeneous`] then lays the workers' tiles over the device's frame
//! and tells the controller how long each side took.

pub mod classifier;
pub mod controller;
pub mod queues;
pub mod worker;

use crate::float_bits::{double_lt, double_lt_spec, single_ge_spec, single_is_nan_spec, single_lt_spec, single_max, single_max_spec};
use crate::fractal::fractal::{IterBuf, F32_PRECISION_THRESHOLD};
use crate::fractal::fractal_type::FractalType;
use crate::fractal::render::tile::{blocks_agree, law_cpu_tile_shows_the_picture, shows_tile, uses_blocks};
use crate::func::{evaluate, is_function, value_of};
use crate::grid::{at, in_frame, is_picture, sampled};
use crate::gui::viewport::Viewport;
use crate::scheduler::classifier::{area, holding, law_partition_covers_frame_once, law_partition_has_the_area_of_the_frame, law_without_uniform_tiles_all_is_the_cpus, lemma_tally_is_a_weight, lemma_tally_joined, partition, partition_frame, tally, weigh};
use crate::scheduler::controller::{clamp_single, clamped, ThresholdController};
use crate::scheduler::queues::{claimed, law_idle_worker_means_all_handed_out, law_no_tile_is_lost_or_doubled, law_nothing_held_back_nothing_stolen, law_reserve_is_accounted_for, stolen_in, stolen_in_all, tiles_of, Draw, Standing, TileQueues};
use crate::scheduler::worker::{all_show, composite, entry_ok, entry_values, fits_frame, law_composite_is_the_picture, lemma_pixels_are_area, pixels_of_all, stolen_by_all, tiles_of_all, with_workers, WorkerOut};
use vstd::prelude::*;

verus! {

/// One as a single.
pub const SINGLE_ONE: u32 = 0x3f80_0000;

/// One fifth as a single.
pub const SINGLE_FIFTH: u32 = 0x3e4c_cccd;

/// How a frame is shared. The fraction is the bit pattern of a single.
#[derive(Clone, Copy, Debug)]
pub struct SchedulerConfig {
    pub max_tile_size: u32,
    pub min_tile_size: u32,
    pub steal_reserve_frac: u32,
    pub min_steal_tiles: u32,
    pub simd_cpu_tiles: bool,
    pub gpu_tiles_f32: bool,
}

impl Default for SchedulerConfig {
    fn default() -> (r: SchedulerConfig)
        ensures
            r == (SchedulerConfig {
                max_tile_size: 128,
                min_tile_size: 16,
                steal_reserve_frac: SINGLE_FIFTH,
                min_steal_tiles: 64,
                simd_cpu_tiles: true,
                gpu_tiles_f32: true,
            }),
    {
        SchedulerConfig {
            max_tile_size: 128,
            min_tile_size: 16,
            steal_reserve_frac: SINGLE_FIFTH,
            min_steal_tiles: 64,
            simd_cpu_tiles: true,
            gpu_tiles_f32: true,
        }
    }
}

/// What is measured of a frame. Times and the fraction are bit patterns of singles.
#[derive(Clone, Copy, Debug)]
pub struct HeterogeneousStats {
    pub gpu_ms: u32,
    pub cpu_ms: u32,
    pub cpu_tile_frac: u32,
    pub gpu_steal_dispatched: bool,
    pub cpu_stolen_tile_count: u32,
}

/// A frame and what is measured of it.
pub struct HeterogeneousResult {
    pub buf: IterBuf,
    pub gpu_ms: u32,
    pub cpu_ms: u32,
    pub cpu_tile_frac: u32,
    pub gpu_steal_dispatched: bool,
    pub cpu_stolen_tile_count: u32,
}

impl HeterogeneousResult {
    /// Joins a frame with what is measured of it.
    pub fn new(buf: IterBuf, s: HeterogeneousStats) -> (r: HeterogeneousResult)
        ensures
            r.buf@ == buf@,
            r.gpu_ms == s.gpu_ms,
            r.cpu_ms == s.cpu_ms,
            r.cpu_tile_frac == s.cpu_tile_frac,
            r.gpu_steal_dispatched == s.gpu_steal_dispatched,
            r.cpu_stolen_tile_count == s.cpu_stolen_tile_count,
    {
        HeterogeneousResult {
            buf,
            gpu_ms: s.gpu_ms,
            cpu_ms: s.cpu_ms,
            cpu_tile_frac: s.cpu_tile_frac,
            gpu_steal_dispatched: s.gpu_steal_dispatched,
            cpu_stolen_tile_count: s.cpu_stolen_tile_count,
        }
    }
}

/// How many of `n` tiles the device gets at once: the others are held back. No
/// more than all can be held back.
pub open spec fn committed_count<R: Fn((usize, u32)) -> usize>(n: int, frac: u32, share: R) -> int {
    let held = value_of(share, (n as usize, clamped(frac, 0, SINGLE_ONE)));
    if held < n {
        n - held
    } else {
        0
    }
}

/// Splits the device's tiles into those that it gets at once and those that are
/// held back. `share` answers how many tiles a fraction of a number of tiles is,
/// rounded.
pub fn split_reserve<R: Fn((usize, u32)) -> usize>(
    gpu_tiles: Vec<[u32; 4]>,
    steal_reserve_frac: u32,
    share: &R,
) -> (r: (Vec<[u32; 4]>, Vec<[u32; 4]>))
    requires
        is_function(*share),
    ensures
        r.0@ == gpu_tiles@.take(
            committed_count(gpu_tiles@.len() as int, steal_reserve_frac, *share),
        ),
        r.1@ == gpu_tiles@.skip(
            committed_count(gpu_tiles@.len() as int, steal_reserve_frac, *share),
        ),
{
    let frac: u32 = clamp_single(steal_reserve_frac, 0, SINGLE_ONE);
    let n: usize = gpu_tiles.len();
    let held: usize = evaluate(share, (n, frac));
    let split_at: usize = if held < n {
        n - held
    } else {
        0
    };
    let mut committed: Vec<[u32; 4]> = gpu_tiles;
    let reserve: Vec<[u32; 4]> = committed.split_off(split_at);
    (committed, reserve)
}

/// Whether the device computes its tiles in single precision.
pub open spec fn device_in_single(cfg: SchedulerConfig, fractal: FractalType, zoom: u64) -> bool {
    cfg.gpu_tiles_f32 && fractal.is_quadratic_spec() && double_lt_spec(
        zoom,
        F32_PRECISION_THRESHOLD,
    )
}

/// Who computes which tiles of a frame.
pub struct HeterogeneousPlan {
    pub gpu_committed: Vec<[u32; 4]>,
    pub queues: TileQueues,
    pub use_gpu_f32: bool,
}

/// Cuts the frame into tiles and decides who computes which. `uniform` answers
/// whether the larger and the smaller corner value of a tile are within the
/// controller's threshold of each other.
pub fn plan_heterogeneous<
    F: Fn((usize, usize)) -> u32 + Sync,
    U: Fn((u32, u32)) -> bool + Sync,
    R: Fn((usize, u32)) -> usize,
>(vp: &Viewport, fractal: FractalType, cfg: &SchedulerConfig, sample: &F, uniform: &U, share: &R) -> (r:
    HeterogeneousPlan)
    requires
        is_function(*sample),
        is_function(*uniform),
        is_function(*share),
    ensures
        ({
            let p = partition(
                *sample,
                *uniform,
                vp.width,
                vp.height,
                cfg.max_tile_size,
                cfg.min_tile_size,
            );
            let at_once = committed_count(p.0.len() as int, cfg.steal_reserve_frac, *share);
            &&& r.gpu_committed@ == p.0.take(at_once)
            &&& r.queues.steal@ == p.0.skip(at_once)
            &&& r.queues.cpu@ == p.1
        }),
        r.use_gpu_f32 == device_in_single(*cfg, fractal, vp.zoom),
{
    let (gpu_tiles, cpu_tiles) = partition_frame(
        sample,
        uniform,
        vp.width,
        vp.height,
        cfg.max_tile_size,
        cfg.min_tile_size,
    );
    let (gpu_committed, gpu_reserve) = split_reserve(gpu_tiles, cfg.steal_reserve_frac, share);
    let queues = TileQueues::new(&cpu_tiles, &gpu_reserve);
    let use_gpu_f32: bool = cfg.gpu_tiles_f32 && fractal.is_quadratic() && double_lt(
        vp.zoom,
        F32_PRECISION_THRESHOLD,
    );
    HeterogeneousPlan { gpu_committed, queues, use_gpu_f32 }
}

/// Under every plan, each pixel of the frame lies in exactly one tile: one that
/// the device gets at once, one that is held back, or one of the CPU.
pub proof fn law_plan_covers_frame_once<
    F: Fn((usize, usize)) -> u32,
    U: Fn((u32, u32)) -> bool,
>(
    sample: F,
    uniform: U,
    width: u32,
    height: u32,
    max_tile: u32,
    min_tile: u32,
    at_once: int,
    x: int,
    y: int,
)
    requires
        0 <= at_once <= partition(sample, uniform, width, height, max_tile, min_tile).0.len(),
    ensures
        ({
            let p = partition(sample, uniform, width, height, max_tile, min_tile);
            tally(p.0.take(at_once), x, y) + tally(p.0.skip(at_once), x, y) + tally(p.1, x, y) == (
            if 0 <= x < width && 0 <= y < height {
                1nat
            } else {
                0nat
            })
        }),
{
    let p = partition(sample, uniform, width, height, max_tile, min_tile);
    law_partition_covers_frame_once(sample, uniform, width, height, max_tile, min_tile, x, y);
    assert(p.0 =~= p.0.take(at_once) + p.0.skip(at_once));
    lemma_tally_joined(p.0.take(at_once), p.0.skip(at_once), x, y);
}

/// Whether the device has a frame to hand over. Where it computed nothing, the
/// frame starts out blank.
pub fn device_did_anything(gpu_committed: &Vec<[u32; 4]>, gpu_steal_dispatched: bool) -> (r: bool)
    ensures
        r == (gpu_committed@.len() > 0 || gpu_steal_dispatched),
{
    gpu_committed.len() > 0 || gpu_steal_dispatched
}

/// The latest time at which one of the first `n` workers finished.
pub open spec fn latest(workers: Seq<WorkerOut>, n: nat) -> u32
    decreases n,
{
    if n == 0 {
        0
    } else {
        single_max_spec(latest(workers, (n - 1) as nat), workers[n - 1].finished_ms)
    }
}

/// The latest time at which a worker finished.
pub fn latest_finish(workers: &Vec<WorkerOut>) -> (r: u32)
    ensures
        r == latest(workers@, workers@.len()),
{
    let mut cpu_ms: u32 = 0;
    let mut k: usize = 0;
    while k < workers.len()
        invariant
            k <= workers@.len(),
            cpu_ms == latest(workers@, k as nat),
        decreases workers@.len() - k,
    {
        cpu_ms = single_max(cpu_ms, workers[k].finished_ms);
        k = k + 1;
    }
    cpu_ms
}

/// The share of the frame that the CPU computed; nothing of an empty frame.
pub open spec fn cpu_share<Q: Fn((u64, u64)) -> u32>(cpu_pixels: u64, vp: Viewport, ratio: Q) -> u32 {
    if vp.width * vp.height > 0 {
        value_of(ratio, (cpu_pixels, (vp.width * vp.height) as u64))
    } else {
        0
    }
}

/// Lays the workers' tiles over the device's frame in `out`, and takes the
/// measured times in. `ratio` answers the quotient of two counts; the other
/// functions are those of [`ThresholdController::update`].
pub fn finish_heterogeneous<
    Q: Fn((u64, u64)) -> u32,
    D: Fn((u32, u32)) -> u32,
    M: Fn([u32; 16]) -> u32,
    A: Fn((u32, u32, u32)) -> u32,
>(
    vp: &Viewport,
    workers: &Vec<WorkerOut>,
    gpu_ms: u32,
    gpu_steal_dispatched: bool,
    controller: &mut ThresholdController,
    out: &mut [u32],
    ratio: &Q,
    difference: &D,
    mean: &M,
    adjust: &A,
) -> (s: HeterogeneousStats)
    requires
        old(out)@.len() == vp.width * vp.height,
        forall|k: int|
            0 <= k < workers@.len() ==> fits_frame(
                #[trigger] workers@[k],
                vp.width as int,
                vp.height as int,
            ),
        pixels_of_all(workers@, workers@.len()) <= u64::MAX,
        stolen_by_all(workers@, workers@.len()) <= u32::MAX,
        old(controller).inv(),
        is_function(*ratio),
        is_function(*difference),
        is_function(*mean),
        is_function(*adjust),
    ensures
        final(out)@ == with_workers(old(out)@, vp.width as int, workers@, workers@.len()),
        s.gpu_ms == gpu_ms,
        s.cpu_ms == latest(workers@, workers@.len()),
        s.cpu_tile_frac == cpu_share(
            pixels_of_all(workers@, workers@.len()) as u64,
            *vp,
            *ratio,
        ),
        s.gpu_steal_dispatched == gpu_steal_dispatched,
        s.cpu_stolen_tile_count == stolen_by_all(workers@, workers@.len()),
        final(controller).inv(),
        final(controller).recent() == old(controller).recent().drop_first().push(
            value_of(*difference, (gpu_ms, s.cpu_ms)),
        ),
        old(controller).leads_to(
            *final(controller),
            value_of(*difference, (gpu_ms, s.cpu_ms)),
            *mean,
            *adjust,
        ),
{
    let (cpu_pixels, cpu_stolen_tile_count) = composite(
        out,
        vp.width as usize,
        vp.height as usize,
        workers,
    );
    let cpu_ms: u32 = latest_finish(workers);
    controller.update(gpu_ms, cpu_ms, difference, mean, adjust);
    proof {
        assert(vp.width * vp.height <= u32::MAX * u32::MAX) by (nonlinear_arith)
            requires
                vp.width <= u32::MAX,
                vp.height <= u32::MAX,
        ;
    }
    let total_pixels: u64 = vp.width as u64 * vp.height as u64;
    let cpu_tile_frac: u32 = if total_pixels > 0 {
        evaluate(ratio, (cpu_pixels, total_pixels))
    } else {
        0
    };
    HeterogeneousStats { gpu_ms, cpu_ms, cpu_tile_frac, gpu_steal_dispatched, cpu_stolen_tile_count }
}

/// Where `n` workers and the device start under a plan: the device has got the
/// first `at_once` of its tiles, and the others are held back.
pub open spec fn shared_start(p: (Seq<[u32; 4]>, Seq<[u32; 4]>), at_once: int, n: nat) -> Standing {
    Standing::at_start(n, p.1, p.0.skip(at_once), p.0.take(at_once))
}

/// The workers have rendered what they claimed.
pub open spec fn did_their_claims(workers: Seq<WorkerOut>, end: Standing) -> bool {
    &&& workers.len() == end.claims.len()
    &&& forall|k: int|
        0 <= k < workers.len() ==> (#[trigger] workers[k]).inv() && workers[k].tiles() == tiles_of(
            end.claims[k],
        ) && workers[k].stolen == stolen_in(end.claims[k])
}

proof fn lemma_claims_are_tiles(workers: Seq<WorkerOut>, end: Standing, n: nat)
    requires
        did_their_claims(workers, end),
        n <= workers.len(),
    ensures
        tiles_of_all(workers, n) == claimed(end.claims, n),
    decreases n,
{
    if n > 0 {
        lemma_claims_are_tiles(workers, end, (n - 1) as nat);
        assert(workers[n - 1].tiles() == tiles_of(end.claims[n - 1]));
    }
}

proof fn lemma_nothing_claimed(claims: Seq<Seq<([u32; 4], bool)>>, n: nat)
    requires
        n <= claims.len(),
        forall|k: int| 0 <= k < claims.len() ==> (#[trigger] claims[k]).len() == 0,
    ensures
        claimed(claims, n).len() == 0,
    decreases n,
{
    if n > 0 {
        lemma_nothing_claimed(claims, (n - 1) as nat);
        assert(claims[n - 1].len() == 0);
    }
}

proof fn lemma_nothing_stolen(workers: Seq<WorkerOut>, n: nat)
    requires
        n <= workers.len(),
        forall|k: int| 0 <= k < workers.len() ==> (#[trigger] workers[k]).stolen == 0,
    ensures
        stolen_by_all(workers, n) == 0,
    decreases n,
{
    if n > 0 {
        lemma_nothing_stolen(workers, (n - 1) as nat);
        assert(workers[n - 1].stolen == 0);
    }
}

/// Sharing a frame changes no pixel, whoever computes which tile: in whatever
/// order `n` workers and the device draw until nothing is left, the composite
/// frame is the picture. The device's part of `frame` shows the picture, and
/// where the workers compute blocks, their lanes agree with the scalar kernel.
pub proof fn law_shared_frame_is_the_picture<
    F: Fn((usize, usize)) -> u32,
    U: Fn((u32, u32)) -> bool,
    B: Fn((usize, usize)) -> [u32; 8],
>(
    vp: Viewport,
    fractal: FractalType,
    cfg: SchedulerConfig,
    at_once: int,
    draws: Seq<Draw>,
    workers: Seq<WorkerOut>,
    frame: Seq<u32>,
    sample: F,
    uniform: U,
    block: B,
)
    requires
        ({
            let p = partition(
                sample,
                uniform,
                vp.width,
                vp.height,
                cfg.max_tile_size,
                cfg.min_tile_size,
            );
            let end = shared_start(p, at_once, workers.len()).after_all(draws);
            &&& 0 <= at_once <= p.0.len()
            &&& end.is_drained()
            &&& did_their_claims(workers, end)
            &&& forall|x: int, y: int|
                in_frame(vp.width as int, vp.height as int, x, y) && #[trigger] tally(
                    end.device,
                    x,
                    y,
                ) > 0 ==> at(frame, vp.width as int, x, y) == sampled(sample, x, y)
        }),
        forall|k: int|
            0 <= k < workers.len() ==> (#[trigger] workers[k]).is_rendered(
                fractal,
                cfg.simd_cpu_tiles,
                vp.zoom,
                block,
                sample,
            ),
        uses_blocks(fractal, cfg.simd_cpu_tiles, vp.zoom) ==> blocks_agree(block, sample),
        frame.len() == vp.width * vp.height,
    ensures
        is_picture(
            with_workers(frame, vp.width as int, workers, workers.len()),
            vp.width as int,
            vp.height as int,
            sample,
        ),
{
    let p = partition(
        sample,
        uniform,
        vp.width,
        vp.height,
        cfg.max_tile_size,
        cfg.min_tile_size,
    );
    let w = vp.width as int;
    let h = vp.height as int;
    let n = workers.len();
    let start = shared_start(p, at_once, n);
    let end = start.after_all(draws);
    lemma_claims_are_tiles(workers, end, n);
    assert forall|k: int| 0 <= k < n implies all_show(#[trigger] workers[k], sample) by {
        let worker = workers[k];
        assert(worker.inv() && worker.is_rendered(
            fractal,
            cfg.simd_cpu_tiles,
            vp.zoom,
            block,
            sample,
        ));
        assert forall|i: int| 0 <= i < worker.index@.len() implies shows_tile(
            entry_values(worker.scratch@, #[trigger] worker.index@[i]),
            worker.index@[i].0,
            sample,
        ) by {
            let e = worker.index@[i];
            assert(entry_ok(e, worker.scratch@.len() as int));
            law_cpu_tile_shows_the_picture(
                entry_values(worker.scratch@, e),
                fractal,
                e.0,
                cfg.simd_cpu_tiles,
                vp.zoom,
                block,
                sample,
            );
        }
    }
    assert forall|x: int, y: int| in_frame(w, h, x, y) implies #[trigger] tally(end.device, x, y)
        + tally(tiles_of_all(workers, n), x, y) > 0 by {
        law_plan_covers_frame_once(
            sample,
            uniform,
            vp.width,
            vp.height,
            cfg.max_tile_size,
            cfg.min_tile_size,
            at_once,
            x,
            y,
        );
        law_no_tile_is_lost_or_doubled(start, draws, holding(x, y));
        law_idle_worker_means_all_handed_out(start, draws, holding(x, y));
        lemma_nothing_claimed(start.claims, n);
        lemma_tally_is_a_weight(start.cpu, x, y);
        lemma_tally_is_a_weight(start.steal, x, y);
        lemma_tally_is_a_weight(start.device, x, y);
        lemma_tally_is_a_weight(end.device, x, y);
        lemma_tally_is_a_weight(claimed(end.claims, n), x, y);
    }
    law_composite_is_the_picture(frame, w, h, end.device, workers, sample);
}

/// Where no corners count as near and the workers compute no blocks, the CPU
/// renders the whole frame: the device gets nothing, nothing is stolen, the
/// workers' tiles have all pixels, and the composite frame is the picture,
/// whatever `frame` it is laid over.
pub proof fn law_without_uniform_tiles_the_cpu_renders_all<
    F: Fn((usize, usize)) -> u32,
    U: Fn((u32, u32)) -> bool,
    B: Fn((usize, usize)) -> [u32; 8],
>(
    vp: Viewport,
    fractal: FractalType,
    cfg: SchedulerConfig,
    at_once: int,
    draws: Seq<Draw>,
    workers: Seq<WorkerOut>,
    frame: Seq<u32>,
    sample: F,
    uniform: U,
    block: B,
)
    requires
        ({
            let p = partition(
                sample,
                uniform,
                vp.width,
                vp.height,
                cfg.max_tile_size,
                cfg.min_tile_size,
            );
            let end = shared_start(p, at_once, workers.len()).after_all(draws);
            &&& 0 <= at_once <= p.0.len()
            &&& end.is_drained()
            &&& did_their_claims(workers, end)
        }),
        forall|k: int|
            0 <= k < workers.len() ==> (#[trigger] workers[k]).is_rendered(
                fractal,
                cfg.simd_cpu_tiles,
                vp.zoom,
                block,
                sample,
            ),
        forall|corners: (u32, u32)| !#[trigger] value_of(uniform, corners),
        !cfg.simd_cpu_tiles,
        frame.len() == vp.width * vp.height,
    ensures
        ({
            let p = partition(
                sample,
                uniform,
                vp.width,
                vp.height,
                cfg.max_tile_size,
                cfg.min_tile_size,
            );
            let end = shared_start(p, at_once, workers.len()).after_all(draws);
            &&& p.0.len() == 0
            &&& end.device.len() == 0
        }),
        stolen_by_all(workers, workers.len()) == 0,
        pixels_of_all(workers, workers.len()) == vp.width * vp.height,
        is_picture(
            with_workers(frame, vp.width as int, workers, workers.len()),
            vp.width as int,
            vp.height as int,
            sample,
        ),
{
    let p = partition(
        sample,
        uniform,
        vp.width,
        vp.height,
        cfg.max_tile_size,
        cfg.min_tile_size,
    );
    let n = workers.len();
    let start = shared_start(p, at_once, n);
    let end = start.after_all(draws);
    law_without_uniform_tiles_all_is_the_cpus(
        sample,
        uniform,
        vp.width,
        vp.height,
        cfg.max_tile_size,
        cfg.min_tile_size,
    );
    law_nothing_held_back_nothing_stolen(start, draws);
    assert forall|k: int| 0 <= k < n implies (#[trigger] workers[k]).stolen == 0 by {
        assert(stolen_in(end.claims[k]) == 0);
    }
    lemma_nothing_stolen(workers, n);
    law_partition_has_the_area_of_the_frame(
        sample,
        uniform,
        vp.width,
        vp.height,
        cfg.max_tile_size,
        cfg.min_tile_size,
    );
    law_idle_worker_means_all_handed_out(start, draws, area());
    lemma_nothing_claimed(start.claims, n);
    lemma_claims_are_tiles(workers, end, n);
    lemma_pixels_are_area(workers, n);
    assert(weigh(Seq::<[u32; 4]>::empty(), area()) == 0);
    assert(start.device =~= Seq::<[u32; 4]>::empty());
    assert(start.steal =~= Seq::<[u32; 4]>::empty());
    assert(p.0 =~= Seq::<[u32; 4]>::empty());
    law_shared_frame_is_the_picture(
        vp,
        fractal,
        cfg,
        at_once,
        draws,
        workers,
        frame,
        sample,
        uniform,
        block,
    );
}

proof fn lemma_workers_count_their_claims(workers: Seq<WorkerOut>, end: Standing, n: nat)
    requires
        did_their_claims(workers, end),
        n <= workers.len(),
    ensures
        stolen_by_all(workers, n) == stolen_in_all(end.claims, n),
    decreases n,
{
    if n > 0 {
        lemma_workers_count_their_claims(workers, end, (n - 1) as nat);
        assert(workers[n - 1].stolen == stolen_in(end.claims[n - 1]));
    }
}

proof fn lemma_nothing_counted(claims: Seq<Seq<([u32; 4], bool)>>, n: nat)
    requires
        n <= claims.len(),
        forall|k: int| 0 <= k < claims.len() ==> (#[trigger] claims[k]).len() == 0,
    ensures
        stolen_in_all(claims, n) == 0,
    decreases n,
{
    if n > 0 {
        lemma_nothing_counted(claims, (n - 1) as nat);
        assert(claims[n - 1].len() == 0);
    }
}

/// Every tile classified for the device is accounted for once nothing is left: the
/// device got it, at once or at the end, or a worker claimed it, and the stolen
/// tiles that are reported are all those that the device did not get.
pub proof fn law_stolen_tiles_are_what_the_device_did_not_get(
    p: (Seq<[u32; 4]>, Seq<[u32; 4]>),
    at_once: int,
    n: nat,
    draws: Seq<Draw>,
    workers: Seq<WorkerOut>,
)
    requires
        0 <= at_once <= p.0.len(),
        shared_start(p, at_once, n).after_all(draws).is_drained(),
        did_their_claims(workers, shared_start(p, at_once, n).after_all(draws)),
    ensures
        at_once <= shared_start(p, at_once, n).after_all(draws).device.len(),
        stolen_by_all(workers, workers.len()) == p.0.len() - shared_start(
            p,
            at_once,
            n,
        ).after_all(draws).device.len(),
{
    let start = shared_start(p, at_once, n);
    let end = start.after_all(draws);
    law_reserve_is_accounted_for(start, draws);
    lemma_nothing_counted(start.claims, n);
    lemma_workers_count_their_claims(workers, end, workers.len());
    lemma_device_keeps(start, draws);
}

proof fn lemma_device_keeps(start: Standing, draws: Seq<Draw>)
    ensures
        start.device.len() <= start.after_all(draws).device.len(),
    decreases draws.len(),
{
    if draws.len() > 0 {
        lemma_device_keeps(start, draws.drop_last());
    }
}

/// How many tiles are held back: what `share` answers for the number of tiles and the
/// fraction, which is taken as zero below zero and as one above one, but no more than
/// there are. The device gets the others at once.
pub proof fn law_held_back_tiles_are_a_share<R: Fn((usize, u32)) -> usize>(
    n: usize,
    frac: u32,
    used: u32,
    share: R,
)
    requires
        single_lt_spec(frac, 0) ==> used == 0,
        single_lt_spec(0x3f80_0000, frac) ==> used == 0x3f80_0000,
        !single_lt_spec(frac, 0) && !single_lt_spec(0x3f80_0000, frac) ==> used == frac,
    ensures
        value_of(share, (n, used)) <= n ==> committed_count(n as int, frac, share) + value_of(
            share,
            (n, used),
        ) == n,
        n <= value_of(share, (n, used)) ==> committed_count(n as int, frac, share) == 0,
{
}

/// The device computes in single precision exactly where that is asked for, for a
/// quadratic map, at zooms below one million.
pub proof fn law_device_computes_in_single_where_it_is_exact(
    cfg: SchedulerConfig,
    fractal: FractalType,
    zoom: u64,
)
    ensures
        device_in_single(cfg, fractal, zoom) <==> cfg.gpu_tiles_f32 && (fractal
            == FractalType::Mandelbrot || fractal == FractalType::Julia) && double_lt_spec(
            zoom,
            0x412e_8480_0000_0000,
        ),
{
}

/// The CPU is done when its last worker is: no worker finished later than the time that
/// is reported, and it is the time of some worker, or zero where none took any.
pub proof fn law_cpu_time_is_that_of_the_last_worker(workers: Seq<WorkerOut>, n: nat, k: int)
    requires
        0 <= k < n <= workers.len(),
    ensures
        !single_is_nan_spec(latest(workers, n)),
        !single_is_nan_spec(workers[k].finished_ms) ==> single_ge_spec(
            latest(workers, n),
            workers[k].finished_ms,
        ),
        latest(workers, n) == 0 || exists|i: int|
            0 <= i < n && latest(workers, n) == (#[trigger] workers[i]).finished_ms,
    decreases n,
{
    let m = (n - 1) as nat;
    assert(!single_is_nan_spec(0u32));
    if m > 0 {
        law_cpu_time_is_that_of_the_last_worker(workers, m, if k < m {
            k
        } else {
            0
        });
        if latest(workers, n) != workers[m as int].finished_ms && latest(workers, n) != 0 {
            let i = choose|i: int|
                0 <= i < m && latest(workers, m) == (#[trigger] workers[i]).finished_ms;
            assert(latest(workers, n) == workers[i].finished_ms);
        }
    } else {
        assert(latest(workers, 0) == 0);
    }
}

/// The share that is reported is that of the CPU's pixels in all pixels of the frame.
pub proof fn law_cpu_share_is_of_the_whole_frame<Q: Fn((u64, u64)) -> u32>(
    cpu_pixels: u64,
    vp: Viewport,
    ratio: Q,
)
    ensures
        0 < vp.width && 0 < vp.height ==> cpu_share(cpu_pixels, vp, ratio) == value_of(
            ratio,
            (cpu_pixels, (vp.width * vp.height) as u64),
        ),
        vp.width == 0 || vp.height == 0 ==> cpu_share(cpu_pixels, vp, ratio) == 0,
{
    if 0 < vp.width && 0 < vp.height {
        assert(vp.width * vp.height > 0) by (nonlinear_arith)
            requires
                0 < vp.width,
                0 < vp.height,
        ;
    } else {
        assert(vp.width * vp.height == 0) by (nonlinear_arith)
            requires
                vp.width == 0 || vp.height == 0,
        ;
    }
}

} // verus!
