//! What one CPU worker computes, and laying the workers' tiles over the frame
//! that the device computed.

use crate::fractal::fractal_type::FractalType;
use crate::fractal::render::tile::{render_cpu_tile_into, shows_cpu_tile, shows_tile, tile_area, tile_ok};
use crate::func::is_function;
use crate::grid::{at, in_frame, is_picture, lemma_index_in_frame, lemma_index_to_pixel, lemma_pixel_of_index, sampled};
use crate::scheduler::classifier::{area, holds_pixel, lemma_tally_joined, lemma_weigh_joined, tally, weigh};
use vstd::prelude::*;

verus! {

/// The output of one worker: the values of its tiles one after the other, each
/// tile with the place of its first value, how many of the tiles had been held
/// back for the device, and when the worker ran out of tiles (milliseconds, the
/// bit pattern of a single).
pub struct WorkerOut {
    pub scratch: Vec<u32>,
    pub index: Vec<([u32; 4], usize)>,
    pub stolen: u32,
    pub finished_ms: u32,
}

/// A tile and the place of its first value lie within `n` values.
pub open spec fn entry_ok(e: ([u32; 4], usize), n: int) -> bool {
    tile_ok(e.0) && e.1 + tile_area(e.0) <= n
}

/// The values of one tile of a worker.
pub open spec fn entry_values(scratch: Seq<u32>, e: ([u32; 4], usize)) -> Seq<u32> {
    scratch.subrange(e.1 as int, e.1 + tile_area(e.0))
}

impl WorkerOut {
    /// Every tile has its values.
    pub open spec fn inv(self) -> bool {
        forall|k: int|
            0 <= k < self.index@.len() ==> entry_ok(
                #[trigger] self.index@[k],
                self.scratch@.len() as int,
            )
    }

    /// The tiles of the worker, in the order in which they were claimed.
    pub open spec fn tiles(self) -> Seq<[u32; 4]> {
        Seq::new(self.index@.len(), |k: int| self.index@[k].0)
    }

    /// Every tile shows what the CPU renders for it.
    pub open spec fn is_rendered<
        B: Fn((usize, usize)) -> [u32; 8],
        F: Fn((usize, usize)) -> u32,
    >(self, fractal: FractalType, use_simd: bool, zoom: u64, block: B, sample: F) -> bool {
        forall|k: int|
            0 <= k < self.index@.len() ==> shows_cpu_tile(
                entry_values(self.scratch@, #[trigger] self.index@[k]),
                fractal,
                self.index@[k].0,
                use_simd,
                zoom,
                block,
                sample,
            )
    }

    /// A worker that has computed nothing yet.
    pub fn new() -> (r: WorkerOut)
        ensures
            r.inv(),
            r.index@.len() == 0,
            r.scratch@.len() == 0,
            r.stolen == 0,
            r.finished_ms == 0,
    {
        WorkerOut { scratch: Vec::new(), index: Vec::new(), stolen: 0, finished_ms: 0 }
    }

    /// Renders a claimed tile behind the values that are there already.
    pub fn render_claim<B: Fn((usize, usize)) -> [u32; 8], F: Fn((usize, usize)) -> u32>(
        &mut self,
        tile: [u32; 4],
        is_steal: bool,
        fractal: FractalType,
        use_simd: bool,
        zoom: u64,
        block: &B,
        sample: &F,
    )
        requires
            old(self).inv(),
            is_function(*block),
            is_function(*sample),
            tile_ok(tile),
            old(self).scratch@.len() + tile_area(tile) <= usize::MAX,
            old(self).stolen < u32::MAX,
        ensures
            final(self).inv(),
            final(self).index@ == old(self).index@.push((tile, old(self).scratch@.len() as usize)),
            final(self).scratch@.len() == old(self).scratch@.len() + tile_area(tile),
            final(self).scratch@.take(old(self).scratch@.len() as int) == old(self).scratch@,
            shows_cpu_tile(
                final(self).scratch@.skip(old(self).scratch@.len() as int),
                fractal,
                tile,
                use_simd,
                zoom,
                *block,
                *sample,
            ),
            final(self).stolen == old(self).stolen + (if is_steal {
                1int
            } else {
                0
            }),
            final(self).finished_ms == old(self).finished_ms,
            old(self).is_rendered(fractal, use_simd, zoom, *block, *sample)
                ==> final(self).is_rendered(fractal, use_simd, zoom, *block, *sample),
    {
        if is_steal {
            self.stolen = self.stolen + 1;
        }
        let offset: usize = self.scratch.len();
        let ghost before = self.scratch@;
        let n: usize = (tile[2] * tile[3]) as usize;
        self.scratch.resize(offset + n, 0);
        let ghost grown = self.scratch@;
        assert(grown.take(offset as int) =~= before);
        let ghost mut drawn: Seq<u32> = Seq::empty();
        {
            let (_done, chunk) = self.scratch.as_mut_slice().split_at_mut(offset);
            render_cpu_tile_into(fractal, tile, use_simd, zoom, block, sample, chunk);
            proof {
                drawn = chunk@;
            }
        }
        self.index.push((tile, offset));
        proof {
            assert(self.scratch@.len() == offset + n);
            assert(self.scratch@.take(offset as int) =~= before);
            assert(self.scratch@.skip(offset as int) =~= drawn);
            let e = (tile, offset);
            assert(entry_values(self.scratch@, e) =~= self.scratch@.skip(offset as int));
            assert forall|k: int|
                0 <= k < old(self).index@.len() && entry_ok(
                    #[trigger] old(self).index@[k],
                    before.len() as int,
                ) implies entry_values(self.scratch@, old(self).index@[k]) == entry_values(
                before,
                old(self).index@[k],
            ) by {
                let o = old(self).index@[k];
                assert(tile_area(o.0) >= 0) by (nonlinear_arith)
                    requires
                        tile_area(o.0) == o.0[2] * o.0[3],
                ;
                assert(entry_values(self.scratch@, o) =~= entry_values(before, o)) by {
                    assert forall|i: int| o.1 <= i < o.1 + tile_area(o.0) implies self.scratch@[i]
                        == before[i] by {
                        assert(self.scratch@.take(offset as int)[i] == before[i]);
                    }
                }
            }
            assert forall|k: int| 0 <= k < self.index@.len() implies entry_ok(
                #[trigger] self.index@[k],
                self.scratch@.len() as int,
            ) by {
                if k < old(self).index@.len() {
                    assert(entry_ok(old(self).index@[k], before.len() as int));
                }
            }
            if old(self).is_rendered(fractal, use_simd, zoom, *block, *sample) {
                assert forall|k: int| 0 <= k < self.index@.len() implies shows_cpu_tile(
                    entry_values(self.scratch@, #[trigger] self.index@[k]),
                    fractal,
                    self.index@[k].0,
                    use_simd,
                    zoom,
                    *block,
                    *sample,
                ) by {
                    if k < old(self).index@.len() {
                        assert(entry_ok(old(self).index@[k], before.len() as int));
                        assert(self.index@[k] == old(self).index@[k]);
                    }
                }
            }
        }
    }
}

/// The value that the tile of `e` has for the pixel `(x, y)` of the frame.
pub open spec fn laid_value(scratch: Seq<u32>, e: ([u32; 4], usize), x: int, y: int) -> u32 {
    at(entry_values(scratch, e), e.0[2] as int, x - e.0[0], y - e.0[1])
}

/// The frame with one tile laid over it.
pub open spec fn with_tile(
    frame: Seq<u32>,
    w: int,
    scratch: Seq<u32>,
    e: ([u32; 4], usize),
) -> Seq<u32> {
    Seq::new(
        frame.len(),
        |i: int|
            if holds_pixel(e.0, i % w, i / w) {
                laid_value(scratch, e, i % w, i / w)
            } else {
                frame[i]
            },
    )
}

/// The frame with the first `n` tiles of a worker laid over it.
pub open spec fn with_tiles(frame: Seq<u32>, w: int, worker: WorkerOut, n: nat) -> Seq<u32>
    decreases n,
{
    if n == 0 {
        frame
    } else {
        with_tile(
            with_tiles(frame, w, worker, (n - 1) as nat),
            w,
            worker.scratch@,
            worker.index@[n - 1],
        )
    }
}

/// The frame with the tiles of the first `n` workers laid over it.
pub open spec fn with_workers(frame: Seq<u32>, w: int, workers: Seq<WorkerOut>, n: nat) -> Seq<u32>
    decreases n,
{
    if n == 0 {
        frame
    } else {
        let worker = workers[n - 1];
        with_tiles(with_workers(frame, w, workers, (n - 1) as nat), w, worker, worker.index@.len())
    }
}

/// The number of pixels in the first `n` tiles of a worker.
pub open spec fn pixels_of(worker: WorkerOut, n: nat) -> nat
    decreases n,
{
    if n == 0 {
        0
    } else {
        (pixels_of(worker, (n - 1) as nat) + tile_area(worker.index@[n - 1].0)) as nat
    }
}

/// The number of pixels in the tiles of the first `n` workers.
pub open spec fn pixels_of_all(workers: Seq<WorkerOut>, n: nat) -> nat
    decreases n,
{
    if n == 0 {
        0
    } else {
        pixels_of_all(workers, (n - 1) as nat) + pixels_of(
            workers[n - 1],
            workers[n - 1].index@.len(),
        )
    }
}

/// The number of tiles that the first `n` workers took from the device's reserve.
pub open spec fn stolen_by_all(workers: Seq<WorkerOut>, n: nat) -> nat
    decreases n,
{
    if n == 0 {
        0
    } else {
        stolen_by_all(workers, (n - 1) as nat) + workers[n - 1].stolen as nat
    }
}

/// Every tile of the worker has its values and lies in the frame.
pub open spec fn fits_frame(worker: WorkerOut, w: int, h: int) -> bool {
    &&& worker.inv()
    &&& forall|k: int|
        0 <= k < worker.index@.len() ==> (#[trigger] worker.index@[k]).0[0] + worker.index@[k].0[2]
            <= w && worker.index@[k].0[1] + worker.index@[k].0[3] <= h
}

/// Lays one tile over the frame.
fn lay_tile(
    out: &mut [u32],
    w: usize,
    Ghost(h): Ghost<int>,
    scratch: &Vec<u32>,
    e: ([u32; 4], usize),
)
    requires
        old(out)@.len() == w * h <= usize::MAX,
        entry_ok(e, scratch@.len() as int),
        e.0[0] + e.0[2] <= w,
        e.0[1] + e.0[3] <= h,
    ensures
        final(out)@ == with_tile(old(out)@, w as int, scratch@, e),
{
    let ghost start = out@;
    let ghost wi = w as int;
    let x0: usize = e.0[0] as usize;
    let y0: usize = e.0[1] as usize;
    let tw: usize = e.0[2] as usize;
    let th: usize = e.0[3] as usize;
    let offset: usize = e.1;
    let total: usize = scratch.len();
    let mut row: usize = 0;
    while row < th
        invariant
            start.len() == w * h <= usize::MAX,
            out@.len() == start.len(),
            wi == w,
            total == scratch@.len(),
            entry_ok(e, scratch@.len() as int),
            x0 == e.0[0],
            y0 == e.0[1],
            tw == e.0[2],
            th == e.0[3],
            offset == e.1,
            x0 + tw <= w,
            y0 + th <= h,
            row <= th,
            forall|i: int|
                0 <= i < start.len() ==> #[trigger] out@[i] == (if holds_pixel(e.0, i % wi, i / wi)
                    && i / wi < y0 + row {
                    laid_value(scratch@, e, i % wi, i / wi)
                } else {
                    start[i]
                }),
        decreases th - row,
    {
        let mut col: usize = 0;
        while col < tw
            invariant
                start.len() == w * h <= usize::MAX,
                out@.len() == start.len(),
                wi == w,
                total == scratch@.len(),
                entry_ok(e, scratch@.len() as int),
                x0 == e.0[0],
                y0 == e.0[1],
                tw == e.0[2],
                th == e.0[3],
                offset == e.1,
                x0 + tw <= w,
                y0 + th <= h,
                row < th,
                col <= tw,
                forall|i: int|
                    0 <= i < start.len() ==> #[trigger] out@[i] == (if holds_pixel(
                        e.0,
                        i % wi,
                        i / wi,
                    ) && (i / wi < y0 + row || (i / wi == y0 + row && i % wi < x0 + col)) {
                        laid_value(scratch@, e, i % wi, i / wi)
                    } else {
                        start[i]
                    }),
            decreases tw - col,
        {
            proof {
                lemma_index_in_frame(wi, h, x0 + col, y0 + row);
                lemma_index_to_pixel(wi, x0 + col, y0 + row);
                lemma_index_in_frame(tw as int, th as int, col as int, row as int);
            }
            let dst: usize = (y0 + row) * w + (x0 + col);
            let src: usize = offset + (row * tw + col);
            let ghost before = out@;
            out[dst] = scratch[src];
            proof {
                assert(laid_value(scratch@, e, x0 + col, y0 + row) == scratch@[src as int]);
                assert forall|i: int| 0 <= i < start.len() implies #[trigger] out@[i] == (
                if holds_pixel(e.0, i % wi, i / wi) && (i / wi < y0 + row || (i / wi == y0 + row
                    && i % wi < x0 + col + 1)) {
                    laid_value(scratch@, e, i % wi, i / wi)
                } else {
                    start[i]
                }) by {
                    lemma_pixel_of_index(wi, h, i);
                    assert(before[i] == before[i]);
                    if i % wi == x0 + col && i / wi == y0 + row {
                        assert(i == dst);
                    }
                }
            }
            col = col + 1;
        }
        row = row + 1;
    }
    assert(out@ =~= with_tile(start, wi, scratch@, e));
}

proof fn lemma_with_tiles_len(frame: Seq<u32>, w: int, worker: WorkerOut, n: nat)
    ensures
        with_tiles(frame, w, worker, n).len() == frame.len(),
    decreases n,
{
    if n > 0 {
        lemma_with_tiles_len(frame, w, worker, (n - 1) as nat);
    }
}

proof fn lemma_with_workers_len(frame: Seq<u32>, w: int, workers: Seq<WorkerOut>, n: nat)
    ensures
        with_workers(frame, w, workers, n).len() == frame.len(),
    decreases n,
{
    if n > 0 {
        let m = (n - 1) as nat;
        lemma_with_workers_len(frame, w, workers, m);
        lemma_with_tiles_len(
            with_workers(frame, w, workers, m),
            w,
            workers[m as int],
            workers[m as int].index@.len(),
        );
    }
}

proof fn lemma_pixels_grow(workers: Seq<WorkerOut>, n: nat, k: nat)
    requires
        n < workers.len(),
        k <= workers[n as int].index@.len(),
    ensures
        pixels_of_all(workers, n) + pixels_of(workers[n as int], k) <= pixels_of_all(
            workers,
            workers.len(),
        ),
        stolen_by_all(workers, n) + workers[n as int].stolen <= stolen_by_all(
            workers,
            workers.len(),
        ),
    decreases workers.len() - n, workers[n as int].index@.len() - k,
{
    let worker = workers[n as int];
    if k < worker.index@.len() {
        lemma_pixels_grow(workers, n, k + 1);
        let area = tile_area(worker.index@[k as int].0);
        assert(area >= 0) by (nonlinear_arith)
            requires
                area == worker.index@[k as int].0[2] * worker.index@[k as int].0[3],
        ;
    } else if n + 1 < workers.len() {
        lemma_pixels_grow(workers, n + 1, 0);
    }
}

/// Lays the workers' tiles over the frame, and counts the pixels in them and the
/// tiles that were taken from the device's reserve.
pub fn composite(out: &mut [u32], w: usize, h: usize, workers: &Vec<WorkerOut>) -> (r: (u64, u32))
    requires
        old(out)@.len() == w * h,
        forall|k: int|
            0 <= k < workers@.len() ==> fits_frame(#[trigger] workers@[k], w as int, h as int),
        pixels_of_all(workers@, workers@.len()) <= u64::MAX,
        stolen_by_all(workers@, workers@.len()) <= u32::MAX,
    ensures
        final(out)@ == with_workers(old(out)@, w as int, workers@, workers@.len()),
        r.0 == pixels_of_all(workers@, workers@.len()),
        r.1 == stolen_by_all(workers@, workers@.len()),
{
    let ghost start = out@;
    let len: usize = out.len();
    let mut cpu_pixels: u64 = 0;
    let mut stolen: u32 = 0;
    let mut k: usize = 0;
    while k < workers.len()
        invariant
            len == w * h,
            start.len() == len,
            forall|j: int|
                0 <= j < workers@.len() ==> fits_frame(#[trigger] workers@[j], w as int, h as int),
            pixels_of_all(workers@, workers@.len()) <= u64::MAX,
            stolen_by_all(workers@, workers@.len()) <= u32::MAX,
            k <= workers@.len(),
            out@ == with_workers(start, w as int, workers@, k as nat),
            cpu_pixels == pixels_of_all(workers@, k as nat),
            stolen == stolen_by_all(workers@, k as nat),
        decreases workers@.len() - k,
    {
        let worker: &WorkerOut = &workers[k];
        assert(fits_frame(workers@[k as int], w as int, h as int));
        proof {
            lemma_pixels_grow(workers@, k as nat, 0);
        }
        stolen = stolen + worker.stolen;
        let ghost under = out@;
        let mut i: usize = 0;
        while i < worker.index.len()
            invariant
                len == w * h,
                start.len() == len,
                k < workers@.len(),
                *worker == workers@[k as int],
                fits_frame(*worker, w as int, h as int),
                pixels_of_all(workers@, workers@.len()) <= u64::MAX,
                under == with_workers(start, w as int, workers@, k as nat),
                i <= worker.index@.len(),
                out@ == with_tiles(under, w as int, *worker, i as nat),
                cpu_pixels == pixels_of_all(workers@, k as nat) + pixels_of(*worker, i as nat),
            decreases worker.index@.len() - i,
        {
            let e: ([u32; 4], usize) = worker.index[i];
            assert(entry_ok(worker.index@[i as int], worker.scratch@.len() as int));
            proof {
                lemma_with_workers_len(start, w as int, workers@, k as nat);
                lemma_with_tiles_len(under, w as int, *worker, i as nat);
                lemma_pixels_grow(workers@, k as nat, i as nat + 1);
            }
            let t: [u32; 4] = e.0;
            cpu_pixels = cpu_pixels + (t[2] * t[3]) as u64;
            lay_tile(out, w, Ghost(h as int), &worker.scratch, e);
            i = i + 1;
        }
        k = k + 1;
    }
    (cpu_pixels, stolen)
}

/// The tiles of the first `n` workers.
pub open spec fn tiles_of_all(workers: Seq<WorkerOut>, n: nat) -> Seq<[u32; 4]>
    decreases n,
{
    if n == 0 {
        seq![]
    } else {
        tiles_of_all(workers, (n - 1) as nat) + workers[n - 1].tiles()
    }
}

/// Every tile of the worker shows its part of the picture.
pub open spec fn all_show<F: Fn((usize, usize)) -> u32>(worker: WorkerOut, sample: F) -> bool {
    forall|k: int|
        0 <= k < worker.index@.len() ==> shows_tile(
            entry_values(worker.scratch@, #[trigger] worker.index@[k]),
            worker.index@[k].0,
            sample,
        )
}

proof fn lemma_tiles_show<F: Fn((usize, usize)) -> u32>(
    frame: Seq<u32>,
    w: int,
    h: int,
    worker: WorkerOut,
    n: nat,
    sample: F,
    x: int,
    y: int,
)
    requires
        frame.len() == w * h,
        in_frame(w, h, x, y),
        n <= worker.index@.len(),
        all_show(worker, sample),
    ensures
        at(with_tiles(frame, w, worker, n), w, x, y) == (if tally(
            worker.tiles().take(n as int),
            x,
            y,
        ) > 0 {
            sampled(sample, x, y)
        } else {
            at(frame, w, x, y)
        }),
    decreases n,
{
    let shown = worker.tiles().take(n as int);
    if n > 0 {
        let m = (n - 1) as nat;
        lemma_tiles_show(frame, w, h, worker, m, sample, x, y);
        assert(shown.drop_last() =~= worker.tiles().take(m as int));
        lemma_with_tiles_len(frame, w, worker, m);
        lemma_index_in_frame(w, h, x, y);
        lemma_index_to_pixel(w, x, y);
        let e = worker.index@[m as int];
        assert(shown.last() == e.0);
        assert(shows_tile(entry_values(worker.scratch@, e), e.0, sample));
        if holds_pixel(e.0, x, y) {
            assert(in_frame(e.0[2] as int, e.0[3] as int, x - e.0[0], y - e.0[1]));
            assert(laid_value(worker.scratch@, e, x, y) == sampled(sample, x, y));
        }
    } else {
        assert(shown =~= Seq::<[u32; 4]>::empty());
    }
}

proof fn lemma_workers_show<F: Fn((usize, usize)) -> u32>(
    frame: Seq<u32>,
    w: int,
    h: int,
    workers: Seq<WorkerOut>,
    n: nat,
    sample: F,
    x: int,
    y: int,
)
    requires
        frame.len() == w * h,
        in_frame(w, h, x, y),
        n <= workers.len(),
        forall|k: int| 0 <= k < workers.len() ==> all_show(#[trigger] workers[k], sample),
    ensures
        at(with_workers(frame, w, workers, n), w, x, y) == (if tally(
            tiles_of_all(workers, n),
            x,
            y,
        ) > 0 {
            sampled(sample, x, y)
        } else {
            at(frame, w, x, y)
        }),
    decreases n,
{
    if n > 0 {
        let m = (n - 1) as nat;
        let worker = workers[m as int];
        lemma_workers_show(frame, w, h, workers, m, sample, x, y);
        lemma_with_workers_len(frame, w, workers, m);
        assert(all_show(worker, sample));
        lemma_tiles_show(
            with_workers(frame, w, workers, m),
            w,
            h,
            worker,
            worker.index@.len(),
            sample,
            x,
            y,
        );
        assert(worker.tiles().take(worker.index@.len() as int) =~= worker.tiles());
        lemma_tally_joined(tiles_of_all(workers, m), worker.tiles(), x, y);
    } else {
        assert(tally(Seq::<[u32; 4]>::empty(), x, y) == 0);
    }
}

/// Device and CPU together render the picture: if every pixel lies in a tile of
/// the device or of a worker, the device's frame shows the picture on its tiles
/// and every worker shows it on its own, the composite frame is the picture.
pub proof fn law_composite_is_the_picture<F: Fn((usize, usize)) -> u32>(
    frame: Seq<u32>,
    w: int,
    h: int,
    device_tiles: Seq<[u32; 4]>,
    workers: Seq<WorkerOut>,
    sample: F,
)
    requires
        frame.len() == w * h,
        forall|k: int| 0 <= k < workers.len() ==> all_show(#[trigger] workers[k], sample),
        forall|x: int, y: int|
            in_frame(w, h, x, y) && #[trigger] tally(device_tiles, x, y) > 0 ==> at(frame, w, x, y)
                == sampled(sample, x, y),
        forall|x: int, y: int|
            in_frame(w, h, x, y) ==> #[trigger] tally(device_tiles, x, y) + tally(
                tiles_of_all(workers, workers.len()),
                x,
                y,
            ) > 0,
    ensures
        is_picture(with_workers(frame, w, workers, workers.len()), w, h, sample),
{
    lemma_with_workers_len(frame, w, workers, workers.len());
    let out = with_workers(frame, w, workers, workers.len());
    assert forall|x: int, y: int| in_frame(w, h, x, y) implies #[trigger] at(out, w, x, y)
        == sampled(sample, x, y) by {
        lemma_workers_show(frame, w, h, workers, workers.len(), sample, x, y);
        assert(tally(device_tiles, x, y) + tally(tiles_of_all(workers, workers.len()), x, y) > 0);
    }
}

proof fn lemma_pixels_of_worker(worker: WorkerOut, n: nat)
    requires
        n <= worker.index@.len(),
    ensures
        pixels_of(worker, n) == weigh(worker.tiles().take(n as int), area()),
    decreases n,
{
    let shown = worker.tiles().take(n as int);
    if n > 0 {
        let m = (n - 1) as nat;
        let t = worker.index@[m as int].0;
        lemma_pixels_of_worker(worker, m);
        assert(shown.drop_last() =~= worker.tiles().take(m as int));
        assert(t[2] * t[3] >= 0) by (nonlinear_arith);
    }
}

pub proof fn lemma_pixels_are_area(workers: Seq<WorkerOut>, n: nat)
    requires
        n <= workers.len(),
    ensures
        pixels_of_all(workers, n) == weigh(tiles_of_all(workers, n), area()),
    decreases n,
{
    if n > 0 {
        let m = (n - 1) as nat;
        let worker = workers[m as int];
        lemma_pixels_are_area(workers, m);
        lemma_pixels_of_worker(worker, worker.index@.len());
        assert(worker.tiles().take(worker.index@.len() as int) =~= worker.tiles());
        lemma_weigh_joined(tiles_of_all(workers, m), worker.tiles(), area());
    }
}

/// A worker is rendered exactly if the values of each of its tiles show this tile as the
/// CPU renders it: they lie one behind the other from the tile's place on.
pub proof fn law_rendered_worker_shows_each_tile<
    B: Fn((usize, usize)) -> [u32; 8],
    F: Fn((usize, usize)) -> u32,
>(
    worker: WorkerOut,
    fractal: FractalType,
    use_simd: bool,
    zoom: u64,
    block: B,
    sample: F,
    k: int,
)
    requires
        worker.is_rendered(fractal, use_simd, zoom, block, sample),
        0 <= k < worker.index@.len(),
    ensures
        ({
            let (tile, from) = worker.index@[k];
            shows_cpu_tile(
                worker.scratch@.subrange(from as int, from + tile[2] * tile[3]),
                fractal,
                tile,
                use_simd,
                zoom,
                block,
                sample,
            )
        }),
{
    let e = worker.index@[k];
    assert(shows_cpu_tile(
        entry_values(worker.scratch@, e),
        fractal,
        e.0,
        use_simd,
        zoom,
        block,
        sample,
    ));
}

/// A tile that is laid over a frame shows its own values on its own pixels, and leaves
/// every other pixel as it was.
pub proof fn law_laid_tile_covers_its_own_pixels(
    frame: Seq<u32>,
    w: int,
    h: int,
    scratch: Seq<u32>,
    e: ([u32; 4], usize),
    x: int,
    y: int,
)
    requires
        frame.len() == w * h,
        0 <= x < w,
        0 <= y < h,
        entry_ok(e, scratch.len() as int),
    ensures
        ({
            let t = e.0;
            let v = with_tile(frame, w, scratch, e)[y * w + x];
            let on = t[0] <= x < t[0] + t[2] && t[1] <= y < t[1] + t[3];
            &&& with_tile(frame, w, scratch, e).len() == frame.len()
            &&& on ==> v == scratch[e.1 + (y - t[1]) * t[2] + (x - t[0])]
            &&& !on ==> v == frame[y * w + x]
        }),
{
    lemma_index_in_frame(w, h, x, y);
    lemma_index_to_pixel(w, x, y);
    let t = e.0;
    if holds_pixel(t, x, y) {
        lemma_index_in_frame(t[2] as int, t[3] as int, x - t[0], y - t[1]);
    }
}

/// Tiles are laid one after the other, worker by worker: a further one comes on top.
pub proof fn law_tiles_are_laid_in_order(frame: Seq<u32>, w: int, workers: Seq<WorkerOut>, n: nat, k: nat)
    ensures
        with_workers(frame, w, workers, 0) == frame,
        with_workers(frame, w, workers, n + 1) == with_tiles(
            with_workers(frame, w, workers, n),
            w,
            workers[n as int],
            workers[n as int].index@.len(),
        ),
        with_tiles(frame, w, workers[n as int], 0) == frame,
        with_tiles(frame, w, workers[n as int], k + 1) == with_tile(
            with_tiles(frame, w, workers[n as int], k),
            w,
            workers[n as int].scratch@,
            workers[n as int].index@[k as int],
        ),
{
}

} // verus!
