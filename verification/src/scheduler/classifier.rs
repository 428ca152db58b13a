//! Cutting a frame into tiles for the device and tiles for the CPU.
//!
//! A tile whose four corners have nearly the same value is taken to be cheap to
//! compute in lockstep and goes to the device. Any other tile is halved until it
//! is small, and then goes to the CPU.

use crate::float_bits::{single_ge_spec, single_is_nan_spec, single_max, single_max_spec, single_min, single_min_spec};
use crate::func::{evaluate, is_function, par_map, value_of};
use crate::grid::sampled;
use vstd::prelude::*;

verus! {

/// Where a tile is computed.
#[derive(Debug, Clone, Copy, PartialEq, Eq, Structural)]
pub enum TileKind {
    Gpu,
    Cpu,
}

/// The largest finite single.
pub const SINGLE_MAX: u32 = 0x7f7f_ffff;

/// The smallest finite single.
pub const SINGLE_MIN: u32 = 0xff7f_ffff;

/// The largest and the smallest of four corner values.
pub open spec fn extremes(c: Seq<u32>) -> (u32, u32) {
    (
        single_max_spec(
            single_max_spec(single_max_spec(single_max_spec(SINGLE_MIN, c[0]), c[1]), c[2]),
            c[3],
        ),
        single_min_spec(
            single_min_spec(single_min_spec(single_min_spec(SINGLE_MAX, c[0]), c[1]), c[2]),
            c[3],
        ),
    )
}

/// The largest and the smallest of four corner values, between which the spread
/// of a tile lies.
pub fn corner_spread(corners: [u32; 4]) -> (r: (u32, u32))
    ensures
        r == extremes(corners@),
{
    (
        single_max(
            single_max(single_max(single_max(SINGLE_MIN, corners[0]), corners[1]), corners[2]),
            corners[3],
        ),
        single_min(
            single_min(single_min(single_min(SINGLE_MAX, corners[0]), corners[1]), corners[2]),
            corners[3],
        ),
    )
}

/// The values at the corners of a tile: top left, top right, bottom left, bottom right.
pub open spec fn corners_of<F: Fn((usize, usize)) -> u32>(sample: F, t: [u32; 4]) -> Seq<u32> {
    let x1 = t[0] + t[2] - 1;
    let y1 = t[1] + t[3] - 1;
    seq![
        sampled(sample, t[0] as int, t[1] as int),
        sampled(sample, x1, t[1] as int),
        sampled(sample, t[0] as int, y1),
        sampled(sample, x1, y1),
    ]
}

/// The corners of the tile have nearly the same value.
pub open spec fn is_uniform<F: Fn((usize, usize)) -> u32, U: Fn((u32, u32)) -> bool>(
    sample: F,
    uniform: U,
    t: [u32; 4],
) -> bool {
    value_of(uniform, extremes(corners_of(sample, t)))
}

/// The tile is at most `min_tile` wide or high, or cannot be halved.
pub open spec fn is_small(min_tile: u32, t: [u32; 4]) -> bool {
    t[2] <= min_tile || t[3] <= min_tile || t[2] <= 1 || t[3] <= 1
}

/// The left or upper half of a tile: the longer side is cut.
pub open spec fn first_half(t: [u32; 4]) -> [u32; 4] {
    if t[2] >= t[3] {
        [t[0], t[1], t[2] / 2, t[3]]
    } else {
        [t[0], t[1], t[2], t[3] / 2]
    }
}

/// The right or lower half of a tile.
pub open spec fn second_half(t: [u32; 4]) -> [u32; 4] {
    if t[2] >= t[3] {
        [(t[0] + t[2] / 2) as u32, t[1], (t[2] - t[2] / 2) as u32, t[3]]
    } else {
        [t[0], (t[1] + t[3] / 2) as u32, t[2], (t[3] - t[3] / 2) as u32]
    }
}

/// The tiles for the device and for the CPU into which the tile `t` is cut.
pub open spec fn cut<F: Fn((usize, usize)) -> u32, U: Fn((u32, u32)) -> bool>(
    sample: F,
    uniform: U,
    min_tile: u32,
    t: [u32; 4],
) -> (Seq<[u32; 4]>, Seq<[u32; 4]>)
    decreases t[2] + t[3],
{
    if is_uniform(sample, uniform, t) {
        (seq![t], seq![])
    } else if is_small(min_tile, t) {
        (seq![], seq![t])
    } else {
        let a = cut(sample, uniform, min_tile, first_half(t));
        let b = cut(sample, uniform, min_tile, second_half(t));
        (a.0 + b.0, a.1 + b.1)
    }
}

/// Cuts the tile `t`, whose corners have the values `corners`, and appends the
/// pieces. A half shares two corners with the whole, so only the four new ones
/// are computed.
fn partition_tile<F: Fn((usize, usize)) -> u32, U: Fn((u32, u32)) -> bool>(
    sample: &F,
    uniform: &U,
    min_tile: u32,
    t: [u32; 4],
    corners: [u32; 4],
    gpu_tiles: &mut Vec<[u32; 4]>,
    cpu_tiles: &mut Vec<[u32; 4]>,
)
    requires
        is_function(*sample),
        is_function(*uniform),
        1 <= min_tile,
        0 < t[2],
        0 < t[3],
        t[0] + t[2] <= u32::MAX,
        t[1] + t[3] <= u32::MAX,
        corners@ == corners_of(*sample, t),
    ensures
        final(gpu_tiles)@ == old(gpu_tiles)@ + cut(*sample, *uniform, min_tile, t).0,
        final(cpu_tiles)@ == old(cpu_tiles)@ + cut(*sample, *uniform, min_tile, t).1,
    decreases t[2] + t[3],
{
    if evaluate(uniform, corner_spread(corners)) {
        gpu_tiles.push(t);
        assert(gpu_tiles@ =~= old(gpu_tiles)@ + seq![t]);
        assert(cpu_tiles@ =~= old(cpu_tiles)@ + Seq::<[u32; 4]>::empty());
        return;
    }
    let x0: u32 = t[0];
    let y0: u32 = t[1];
    let tw: u32 = t[2];
    let th: u32 = t[3];
    if tw <= min_tile || th <= min_tile {
        cpu_tiles.push(t);
        assert(cpu_tiles@ =~= old(cpu_tiles)@ + seq![t]);
        assert(gpu_tiles@ =~= old(gpu_tiles)@ + Seq::<[u32; 4]>::empty());
        return;
    }
    let ghost g0 = gpu_tiles@;
    let ghost c0 = cpu_tiles@;
    let x1: usize = (x0 + tw - 1) as usize;
    let y1: usize = (y0 + th - 1) as usize;
    let (a, b, ca, cb): ([u32; 4], [u32; 4], [u32; 4], [u32; 4]) = if tw >= th {
        let left_w: u32 = tw / 2;
        let mid: u32 = x0 + left_w;
        let left_tr: u32 = evaluate(sample, ((mid - 1) as usize, y0 as usize));
        let left_br: u32 = evaluate(sample, ((mid - 1) as usize, y1));
        let right_tl: u32 = evaluate(sample, (mid as usize, y0 as usize));
        let right_bl: u32 = evaluate(sample, (mid as usize, y1));
        (
            [x0, y0, left_w, th],
            [mid, y0, tw - left_w, th],
            [corners[0], left_tr, corners[2], left_br],
            [right_tl, corners[1], right_bl, corners[3]],
        )
    } else {
        let top_h: u32 = th / 2;
        let mid: u32 = y0 + top_h;
        let top_bl: u32 = evaluate(sample, (x0 as usize, (mid - 1) as usize));
        let top_br: u32 = evaluate(sample, (x1, (mid - 1) as usize));
        let bot_tl: u32 = evaluate(sample, (x0 as usize, mid as usize));
        let bot_tr: u32 = evaluate(sample, (x1, mid as usize));
        (
            [x0, y0, tw, top_h],
            [x0, mid, tw, th - top_h],
            [corners[0], corners[1], top_bl, top_br],
            [bot_tl, bot_tr, corners[2], corners[3]],
        )
    };
    proof {
        assert(a == first_half(t));
        assert(b == second_half(t));
        assert(ca@ =~= corners_of(*sample, a));
        assert(cb@ =~= corners_of(*sample, b));
    }
    partition_tile(sample, uniform, min_tile, a, ca, gpu_tiles, cpu_tiles);
    partition_tile(sample, uniform, min_tile, b, cb, gpu_tiles, cpu_tiles);
    proof {
        let pa = cut(*sample, *uniform, min_tile, a);
        let pb = cut(*sample, *uniform, min_tile, b);
        assert((g0 + pa.0) + pb.0 =~= g0 + (pa.0 + pb.0));
        assert((c0 + pa.1) + pb.1 =~= c0 + (pa.1 + pb.1));
    }
}

/// The cells of one row of the grid, from column `x0` on.
pub open spec fn row_cells(x0: int, y0: int, width: int, th: int, max_tile: int) -> Seq<[u32; 4]>
    decreases width - x0,
{
    if x0 >= width || max_tile <= 0 {
        seq![]
    } else {
        let tw = if max_tile < width - x0 {
            max_tile
        } else {
            width - x0
        };
        seq![[x0 as u32, y0 as u32, tw as u32, th as u32]] + row_cells(
            x0 + tw,
            y0,
            width,
            th,
            max_tile,
        )
    }
}

/// The cells of the grid of cells of side `max_tile` (smaller at the right and
/// lower edges) that covers the frame, from row `y0` on.
pub open spec fn grid_cells(y0: int, width: int, height: int, max_tile: int) -> Seq<[u32; 4]>
    decreases height - y0,
{
    if y0 >= height || max_tile <= 0 {
        seq![]
    } else {
        let th = if max_tile < height - y0 {
            max_tile
        } else {
            height - y0
        };
        row_cells(0, y0, width, th, max_tile) + grid_cells(y0 + th, width, height, max_tile)
    }
}

/// The cuts of the first `n` cells, joined in order.
pub open spec fn cut_cells<F: Fn((usize, usize)) -> u32, U: Fn((u32, u32)) -> bool>(
    sample: F,
    uniform: U,
    min_tile: u32,
    cells: Seq<[u32; 4]>,
    n: nat,
) -> (Seq<[u32; 4]>, Seq<[u32; 4]>)
    decreases n,
{
    if n == 0 {
        (seq![], seq![])
    } else {
        let a = cut_cells(sample, uniform, min_tile, cells, (n - 1) as nat);
        let b = cut(sample, uniform, min_tile, cells[n - 1]);
        (a.0 + b.0, a.1 + b.1)
    }
}

/// The smallest tile size that is taken for `min_tile`.
pub open spec fn effective_min(min_tile: u32) -> u32 {
    if min_tile < 1 {
        1
    } else {
        min_tile
    }
}

/// The largest tile size that is taken for `max_tile`.
pub open spec fn effective_max(max_tile: u32, min_tile: u32) -> u32 {
    if max_tile < effective_min(min_tile) {
        effective_min(min_tile)
    } else {
        max_tile
    }
}

/// The tiles for the device and for the CPU into which the frame is cut.
pub open spec fn partition<F: Fn((usize, usize)) -> u32, U: Fn((u32, u32)) -> bool>(
    sample: F,
    uniform: U,
    width: u32,
    height: u32,
    max_tile: u32,
    min_tile: u32,
) -> (Seq<[u32; 4]>, Seq<[u32; 4]>) {
    let cells = grid_cells(
        0,
        width as int,
        height as int,
        effective_max(max_tile, min_tile) as int,
    );
    cut_cells(sample, uniform, effective_min(min_tile), cells, cells.len())
}

/// A tile that is not empty and lies in the frame.
pub open spec fn tile_in_frame(t: [u32; 4], width: int, height: int) -> bool {
    0 < t[2] && 0 < t[3] && t[0] + t[2] <= width && t[1] + t[3] <= height
}

/// A cell that lies in the frame and is at most `max_tile` wide and high.
pub open spec fn is_cell(t: [u32; 4], width: int, height: int, max_tile: int) -> bool {
    tile_in_frame(t, width, height) && t[2] <= max_tile && t[3] <= max_tile
}

proof fn lemma_row_cells(x0: int, y0: int, width: int, height: int, th: int, max_tile: int)
    requires
        0 <= x0,
        0 <= y0,
        width <= u32::MAX,
        height <= u32::MAX,
        0 < th <= max_tile,
        y0 + th <= height,
    ensures
        forall|i: int|
            0 <= i < row_cells(x0, y0, width, th, max_tile).len() ==> is_cell(
                #[trigger] row_cells(x0, y0, width, th, max_tile)[i],
                width,
                height,
                max_tile,
            ),
    decreases width - x0,
{
    if x0 < width {
        let tw = if max_tile < width - x0 {
            max_tile
        } else {
            width - x0
        };
        lemma_row_cells(x0 + tw, y0, width, height, th, max_tile);
        let head = [x0 as u32, y0 as u32, tw as u32, th as u32];
        let rest = row_cells(x0 + tw, y0, width, th, max_tile);
        assert forall|i: int| 0 <= i < row_cells(x0, y0, width, th, max_tile).len() implies is_cell(
            #[trigger] row_cells(x0, y0, width, th, max_tile)[i],
            width,
            height,
            max_tile,
        ) by {
            assert(row_cells(x0, y0, width, th, max_tile) == seq![head] + rest);
            if i > 0 {
                assert(row_cells(x0, y0, width, th, max_tile)[i] == rest[i - 1]);
            }
        }
    }
}

proof fn lemma_grid_cells(y0: int, width: int, height: int, max_tile: int)
    requires
        0 <= y0,
        0 <= width <= u32::MAX,
        height <= u32::MAX,
        0 < max_tile,
    ensures
        forall|i: int|
            0 <= i < grid_cells(y0, width, height, max_tile).len() ==> is_cell(
                #[trigger] grid_cells(y0, width, height, max_tile)[i],
                width,
                height,
                max_tile,
            ),
    decreases height - y0,
{
    if y0 < height {
        let th = if max_tile < height - y0 {
            max_tile
        } else {
            height - y0
        };
        lemma_row_cells(0, y0, width, height, th, max_tile);
        lemma_grid_cells(y0 + th, width, height, max_tile);
        let head = row_cells(0, y0, width, th, max_tile);
        let rest = grid_cells(y0 + th, width, height, max_tile);
        let all = grid_cells(y0, width, height, max_tile);
        assert(all == head + rest);
        assert forall|i: int| 0 <= i < all.len() implies is_cell(
            #[trigger] all[i],
            width,
            height,
            max_tile,
        ) by {
            if i >= head.len() {
                assert(all[i] == rest[i - head.len()]);
            } else {
                assert(all[i] == head[i]);
            }
        }
    }
}

/// The cells of the grid.
fn list_cells(width: u32, height: u32, max_tile: u32) -> (cells: Vec<[u32; 4]>)
    requires
        0 < max_tile,
    ensures
        cells@ == grid_cells(0, width as int, height as int, max_tile as int),
{
    let mut cells: Vec<[u32; 4]> = Vec::new();
    let mut y0: u32 = 0;
    let ghost all = grid_cells(0, width as int, height as int, max_tile as int);
    while y0 < height
        invariant
            0 < max_tile,
            y0 <= height,
            all == cells@ + grid_cells(y0 as int, width as int, height as int, max_tile as int),
        decreases height - y0,
    {
        let th: u32 = if max_tile < height - y0 {
            max_tile
        } else {
            height - y0
        };
        let ghost below = grid_cells(
            y0 + th,
            width as int,
            height as int,
            max_tile as int,
        );
        let mut x0: u32 = 0;
        assert(cells@ + (row_cells(0, y0 as int, width as int, th as int, max_tile as int) + below)
            =~= (cells@ + row_cells(0, y0 as int, width as int, th as int, max_tile as int))
            + below);
        while x0 < width
            invariant
                0 < max_tile,
                x0 <= width,
                all == (cells@ + row_cells(
                    x0 as int,
                    y0 as int,
                    width as int,
                    th as int,
                    max_tile as int,
                )) + below,
            decreases width - x0,
        {
            let tw: u32 = if max_tile < width - x0 {
                max_tile
            } else {
                width - x0
            };
            let ghost rest = row_cells(
                x0 + tw,
                y0 as int,
                width as int,
                th as int,
                max_tile as int,
            );
            let ghost before = cells@;
            cells.push([x0, y0, tw, th]);
            assert(before + (seq![[x0, y0, tw, th]] + rest) =~= cells@ + rest);
            x0 = x0 + tw;
        }
        assert(cells@ + Seq::<[u32; 4]>::empty() =~= cells@);
        y0 = y0 + th;
    }
    assert(cells@ + Seq::<[u32; 4]>::empty() =~= cells@);
    cells
}

/// Cuts one cell of the grid.
fn partition_cell<F: Fn((usize, usize)) -> u32, U: Fn((u32, u32)) -> bool>(
    sample: &F,
    uniform: &U,
    min_tile: u32,
    t: [u32; 4],
) -> (r: (Vec<[u32; 4]>, Vec<[u32; 4]>))
    requires
        is_function(*sample),
        is_function(*uniform),
        1 <= min_tile,
        0 < t[2],
        0 < t[3],
        t[0] + t[2] <= u32::MAX,
        t[1] + t[3] <= u32::MAX,
    ensures
        (r.0@, r.1@) == cut(*sample, *uniform, min_tile, t),
{
    let corners = sample_corners(sample, t);
    let mut gpu_tiles: Vec<[u32; 4]> = Vec::new();
    let mut cpu_tiles: Vec<[u32; 4]> = Vec::new();
    partition_tile(sample, uniform, min_tile, t, corners, &mut gpu_tiles, &mut cpu_tiles);
    proof {
        let c = cut(*sample, *uniform, min_tile, t);
        assert(Seq::<[u32; 4]>::empty() + c.0 =~= c.0);
        assert(Seq::<[u32; 4]>::empty() + c.1 =~= c.1);
    }
    (gpu_tiles, cpu_tiles)
}

/// The values at the corners of a tile.
fn sample_corners<F: Fn((usize, usize)) -> u32>(sample: &F, t: [u32; 4]) -> (c: [u32; 4])
    requires
        is_function(*sample),
        0 < t[2],
        0 < t[3],
        t[0] + t[2] <= u32::MAX,
        t[1] + t[3] <= u32::MAX,
    ensures
        c@ == corners_of(*sample, t),
{
    let x0: usize = t[0] as usize;
    let y0: usize = t[1] as usize;
    let x1: usize = (t[0] + t[2] - 1) as usize;
    let y1: usize = (t[1] + t[3] - 1) as usize;
    let c: [u32; 4] = [
        evaluate(sample, (x0, y0)),
        evaluate(sample, (x1, y0)),
        evaluate(sample, (x0, y1)),
        evaluate(sample, (x1, y1)),
    ];
    assert(c@ =~= corners_of(*sample, t));
    c
}

/// Appends `more` to `tiles`.
pub(crate) fn push_tiles(tiles: &mut Vec<[u32; 4]>, more: &Vec<[u32; 4]>)
    ensures
        final(tiles)@ == old(tiles)@ + more@,
{
    let ghost start = tiles@;
    let mut i: usize = 0;
    while i < more.len()
        invariant
            i <= more@.len(),
            tiles@ == start + more@.take(i as int),
        decreases more@.len() - i,
    {
        tiles.push(more[i]);
        assert(tiles@ =~= start + more@.take(i + 1));
        i = i + 1;
    }
    assert(more@.take(i as int) =~= more@);
}

/// Cuts the frame into tiles for the device and tiles for the CPU. `uniform`
/// answers whether the larger and the smaller of a tile's corner values are
/// near enough for the device. The cells of the grid are cut on the thread pool.
pub fn partition_frame<
    F: Fn((usize, usize)) -> u32 + Sync,
    U: Fn((u32, u32)) -> bool + Sync,
>(sample: &F, uniform: &U, width: u32, height: u32, max_tile: u32, min_tile: u32) -> (r: (
    Vec<[u32; 4]>,
    Vec<[u32; 4]>,
))
    requires
        is_function(*sample),
        is_function(*uniform),
    ensures
        (r.0@, r.1@) == partition(*sample, *uniform, width, height, max_tile, min_tile),
{
    let min: u32 = if min_tile < 1 {
        1
    } else {
        min_tile
    };
    let max: u32 = if max_tile < min {
        min
    } else {
        max_tile
    };
    let cells = list_cells(width, height, max);
    proof {
        lemma_grid_cells(0, width as int, height as int, max as int);
    }
    let n: usize = cells.len();
    let one = |i: usize| -> (r: (Vec<[u32; 4]>, Vec<[u32; 4]>))
        requires
            i < n,
        ensures
            (r.0@, r.1@) == cut(*sample, *uniform, min, cells@[i as int]),
        { partition_cell(sample, uniform, min, cells[i]) };
    let per_cell = par_map(n, &one);
    let mut gpu_tiles: Vec<[u32; 4]> = Vec::new();
    let mut cpu_tiles: Vec<[u32; 4]> = Vec::new();
    let mut k: usize = 0;
    while k < n
        invariant
            n == cells@.len(),
            per_cell@.len() == n,
            k <= n,
            forall|i: int|
                0 <= i < n ==> (#[trigger] per_cell@[i].0@, per_cell@[i].1@) == cut(
                    *sample,
                    *uniform,
                    min,
                    cells@[i],
                ),
            (gpu_tiles@, cpu_tiles@) == cut_cells(*sample, *uniform, min, cells@, k as nat),
        decreases n - k,
    {
        push_tiles(&mut gpu_tiles, &per_cell[k].0);
        push_tiles(&mut cpu_tiles, &per_cell[k].1);
        k = k + 1;
    }
    (gpu_tiles, cpu_tiles)
}

/// The pixel lies in the tile.
pub open spec fn holds_pixel(t: [u32; 4], x: int, y: int) -> bool {
    t[0] <= x < t[0] + t[2] && t[1] <= y < t[1] + t[3]
}

/// How many of the tiles hold the pixel.
pub open spec fn tally(tiles: Seq<[u32; 4]>, x: int, y: int) -> nat
    decreases tiles.len(),
{
    if tiles.len() == 0 {
        0
    } else {
        tally(tiles.drop_last(), x, y) + (if holds_pixel(tiles.last(), x, y) {
            1nat
        } else {
            0nat
        })
    }
}

pub proof fn lemma_tally_joined(a: Seq<[u32; 4]>, b: Seq<[u32; 4]>, x: int, y: int)
    ensures
        tally(a + b, x, y) == tally(a, x, y) + tally(b, x, y),
    decreases b.len(),
{
    if b.len() == 0 {
        assert(a + b =~= a);
    } else {
        assert((a + b).drop_last() =~= a + b.drop_last());
        lemma_tally_joined(a, b.drop_last(), x, y);
    }
}

pub proof fn lemma_tally_one(t: [u32; 4], x: int, y: int)
    ensures
        tally(seq![t], x, y) == (if holds_pixel(t, x, y) {
            1nat
        } else {
            0nat
        }),
{
    assert(seq![t].drop_last() =~= Seq::<[u32; 4]>::empty());
    assert(tally(Seq::<[u32; 4]>::empty(), x, y) == 0);
}

/// The pieces of a tile hold each of its pixels once, and no other pixel.
pub proof fn law_cut_covers_tile_once<F: Fn((usize, usize)) -> u32, U: Fn((u32, u32)) -> bool>(
    sample: F,
    uniform: U,
    min_tile: u32,
    t: [u32; 4],
    x: int,
    y: int,
)
    requires
        t[0] + t[2] <= u32::MAX,
        t[1] + t[3] <= u32::MAX,
    ensures
        tally(cut(sample, uniform, min_tile, t).0, x, y) + tally(
            cut(sample, uniform, min_tile, t).1,
            x,
            y,
        ) == (if holds_pixel(t, x, y) {
            1nat
        } else {
            0nat
        }),
    decreases t[2] + t[3],
{
    lemma_tally_one(t, x, y);
    assert(tally(Seq::<[u32; 4]>::empty(), x, y) == 0);
    if !is_uniform(sample, uniform, t) && !is_small(min_tile, t) {
        let a = cut(sample, uniform, min_tile, first_half(t));
        let b = cut(sample, uniform, min_tile, second_half(t));
        law_cut_covers_tile_once(sample, uniform, min_tile, first_half(t), x, y);
        law_cut_covers_tile_once(sample, uniform, min_tile, second_half(t), x, y);
        lemma_tally_joined(a.0, b.0, x, y);
        lemma_tally_joined(a.1, b.1, x, y);
    }
}

proof fn lemma_row_covers(x0: int, y0: int, width: int, height: int, th: int, max_tile: int, x: int, y: int)
    requires
        0 <= x0,
        0 <= y0,
        width <= u32::MAX,
        height <= u32::MAX,
        0 < th <= max_tile,
        y0 + th <= height,
    ensures
        tally(row_cells(x0, y0, width, th, max_tile), x, y) == (if x0 <= x < width && y0 <= y < y0
            + th {
            1nat
        } else {
            0nat
        }),
    decreases width - x0,
{
    assert(tally(Seq::<[u32; 4]>::empty(), x, y) == 0);
    if x0 < width {
        let tw = if max_tile < width - x0 {
            max_tile
        } else {
            width - x0
        };
        let head = [x0 as u32, y0 as u32, tw as u32, th as u32];
        lemma_row_covers(x0 + tw, y0, width, height, th, max_tile, x, y);
        lemma_tally_one(head, x, y);
        lemma_tally_joined(seq![head], row_cells(x0 + tw, y0, width, th, max_tile), x, y);
    }
}

proof fn lemma_grid_covers(y0: int, width: int, height: int, max_tile: int, x: int, y: int)
    requires
        0 <= y0,
        0 <= width <= u32::MAX,
        height <= u32::MAX,
        0 < max_tile,
    ensures
        tally(grid_cells(y0, width, height, max_tile), x, y) == (if 0 <= x < width && y0 <= y
            < height {
            1nat
        } else {
            0nat
        }),
    decreases height - y0,
{
    assert(tally(Seq::<[u32; 4]>::empty(), x, y) == 0);
    if y0 < height {
        let th = if max_tile < height - y0 {
            max_tile
        } else {
            height - y0
        };
        lemma_row_covers(0, y0, width, height, th, max_tile, x, y);
        lemma_grid_covers(y0 + th, width, height, max_tile, x, y);
        lemma_tally_joined(
            row_cells(0, y0, width, th, max_tile),
            grid_cells(y0 + th, width, height, max_tile),
            x,
            y,
        );
    }
}

proof fn lemma_cells_cover<F: Fn((usize, usize)) -> u32, U: Fn((u32, u32)) -> bool>(
    sample: F,
    uniform: U,
    min_tile: u32,
    cells: Seq<[u32; 4]>,
    n: nat,
    width: int,
    height: int,
    x: int,
    y: int,
)
    requires
        n <= cells.len(),
        width <= u32::MAX,
        height <= u32::MAX,
        forall|i: int| 0 <= i < cells.len() ==> tile_in_frame(#[trigger] cells[i], width, height),
    ensures
        tally(cut_cells(sample, uniform, min_tile, cells, n).0, x, y) + tally(
            cut_cells(sample, uniform, min_tile, cells, n).1,
            x,
            y,
        ) == tally(cells.take(n as int), x, y),
    decreases n,
{
    if n == 0 {
        assert(cells.take(0) =~= Seq::<[u32; 4]>::empty());
    } else {
        let m = (n - 1) as nat;
        lemma_cells_cover(sample, uniform, min_tile, cells, m, width, height, x, y);
        assert(tile_in_frame(cells[m as int], width, height));
        law_cut_covers_tile_once(sample, uniform, min_tile, cells[m as int], x, y);
        let a = cut_cells(sample, uniform, min_tile, cells, m);
        let b = cut(sample, uniform, min_tile, cells[m as int]);
        lemma_tally_joined(a.0, b.0, x, y);
        lemma_tally_joined(a.1, b.1, x, y);
        assert(cells.take(n as int).drop_last() =~= cells.take(m as int));
        assert(cells.take(n as int).last() == cells[m as int]);
    }
}

/// The tiles cover the frame: every pixel of the frame lies in exactly one tile,
/// of the device or of the CPU, and no tile reaches beyond the frame.
pub proof fn law_partition_covers_frame_once<
    F: Fn((usize, usize)) -> u32,
    U: Fn((u32, u32)) -> bool,
>(
    sample: F,
    uniform: U,
    width: u32,
    height: u32,
    max_tile: u32,
    min_tile: u32,
    x: int,
    y: int,
)
    ensures
        ({
            let p = partition(sample, uniform, width, height, max_tile, min_tile);
            tally(p.0, x, y) + tally(p.1, x, y) == (if 0 <= x < width && 0 <= y < height {
                1nat
            } else {
                0nat
            })
        }),
{
    let max = effective_max(max_tile, min_tile) as int;
    let cells = grid_cells(0, width as int, height as int, max);
    lemma_grid_cells(0, width as int, height as int, max);
    lemma_grid_covers(0, width as int, height as int, max, x, y);
    assert forall|i: int| 0 <= i < cells.len() implies tile_in_frame(
        #[trigger] cells[i],
        width as int,
        height as int,
    ) by {
        assert(is_cell(cells[i], width as int, height as int, max));
    }
    lemma_cells_cover(
        sample,
        uniform,
        effective_min(min_tile),
        cells,
        cells.len(),
        width as int,
        height as int,
        x,
        y,
    );
    assert(cells.take(cells.len() as int) =~= cells);
}

/// A tile that the device may get.
pub open spec fn is_device_tile<F: Fn((usize, usize)) -> u32, U: Fn((u32, u32)) -> bool>(
    sample: F,
    uniform: U,
    width: int,
    height: int,
    max_tile: int,
    t: [u32; 4],
) -> bool {
    is_cell(t, width, height, max_tile) && is_uniform(sample, uniform, t)
}

/// A tile that the CPU may get.
pub open spec fn is_host_tile<F: Fn((usize, usize)) -> u32, U: Fn((u32, u32)) -> bool>(
    sample: F,
    uniform: U,
    width: int,
    height: int,
    max_tile: int,
    min_tile: u32,
    t: [u32; 4],
) -> bool {
    is_cell(t, width, height, max_tile) && !is_uniform(sample, uniform, t) && is_small(min_tile, t)
}

proof fn lemma_cut_kinds<F: Fn((usize, usize)) -> u32, U: Fn((u32, u32)) -> bool>(
    sample: F,
    uniform: U,
    width: int,
    height: int,
    max_tile: int,
    min_tile: u32,
    t: [u32; 4],
)
    requires
        width <= u32::MAX,
        height <= u32::MAX,
        is_cell(t, width, height, max_tile),
    ensures
        forall|i: int|
            0 <= i < cut(sample, uniform, min_tile, t).0.len() ==> is_device_tile(
                sample,
                uniform,
                width,
                height,
                max_tile,
                #[trigger] cut(sample, uniform, min_tile, t).0[i],
            ),
        forall|i: int|
            0 <= i < cut(sample, uniform, min_tile, t).1.len() ==> is_host_tile(
                sample,
                uniform,
                width,
                height,
                max_tile,
                min_tile,
                #[trigger] cut(sample, uniform, min_tile, t).1[i],
            ),
    decreases t[2] + t[3],
{
    if !is_uniform(sample, uniform, t) && !is_small(min_tile, t) {
        lemma_cut_kinds(sample, uniform, width, height, max_tile, min_tile, first_half(t));
        lemma_cut_kinds(sample, uniform, width, height, max_tile, min_tile, second_half(t));
        let whole = cut(sample, uniform, min_tile, t);
        let a = cut(sample, uniform, min_tile, first_half(t));
        let b = cut(sample, uniform, min_tile, second_half(t));
        assert forall|i: int| 0 <= i < whole.0.len() implies is_device_tile(
            sample,
            uniform,
            width,
            height,
            max_tile,
            #[trigger] whole.0[i],
        ) by {
            if i < a.0.len() {
                assert(whole.0[i] == a.0[i]);
            } else {
                assert(whole.0[i] == b.0[i - a.0.len()]);
            }
        }
        assert forall|i: int| 0 <= i < whole.1.len() implies is_host_tile(
            sample,
            uniform,
            width,
            height,
            max_tile,
            min_tile,
            #[trigger] whole.1[i],
        ) by {
            if i < a.1.len() {
                assert(whole.1[i] == a.1[i]);
            } else {
                assert(whole.1[i] == b.1[i - a.1.len()]);
            }
        }
    }
}

proof fn lemma_cells_kinds<F: Fn((usize, usize)) -> u32, U: Fn((u32, u32)) -> bool>(
    sample: F,
    uniform: U,
    width: int,
    height: int,
    max_tile: int,
    min_tile: u32,
    cells: Seq<[u32; 4]>,
    n: nat,
)
    requires
        width <= u32::MAX,
        height <= u32::MAX,
        n <= cells.len(),
        forall|i: int|
            0 <= i < cells.len() ==> is_cell(#[trigger] cells[i], width, height, max_tile),
    ensures
        forall|i: int|
            0 <= i < cut_cells(sample, uniform, min_tile, cells, n).0.len() ==> is_device_tile(
                sample,
                uniform,
                width,
                height,
                max_tile,
                #[trigger] cut_cells(sample, uniform, min_tile, cells, n).0[i],
            ),
        forall|i: int|
            0 <= i < cut_cells(sample, uniform, min_tile, cells, n).1.len() ==> is_host_tile(
                sample,
                uniform,
                width,
                height,
                max_tile,
                min_tile,
                #[trigger] cut_cells(sample, uniform, min_tile, cells, n).1[i],
            ),
    decreases n,
{
    if n > 0 {
        let m = (n - 1) as nat;
        lemma_cells_kinds(sample, uniform, width, height, max_tile, min_tile, cells, m);
        lemma_cut_kinds(sample, uniform, width, height, max_tile, min_tile, cells[m as int]);
        let whole = cut_cells(sample, uniform, min_tile, cells, n);
        let a = cut_cells(sample, uniform, min_tile, cells, m);
        let b = cut(sample, uniform, min_tile, cells[m as int]);
        assert forall|i: int| 0 <= i < whole.0.len() implies is_device_tile(
            sample,
            uniform,
            width,
            height,
            max_tile,
            #[trigger] whole.0[i],
        ) by {
            if i < a.0.len() {
                assert(whole.0[i] == a.0[i]);
            } else {
                assert(whole.0[i] == b.0[i - a.0.len()]);
            }
        }
        assert forall|i: int| 0 <= i < whole.1.len() implies is_host_tile(
            sample,
            uniform,
            width,
            height,
            max_tile,
            min_tile,
            #[trigger] whole.1[i],
        ) by {
            if i < a.1.len() {
                assert(whole.1[i] == a.1[i]);
            } else {
                assert(whole.1[i] == b.1[i - a.1.len()]);
            }
        }
    }
}

/// Every tile lies in the frame and is at most `max_tile` wide and high. A tile
/// of the device has corners of nearly the same value; a tile of the CPU has
/// not, and is too small to be halved.
pub proof fn law_tiles_are_classified<
    F: Fn((usize, usize)) -> u32,
    U: Fn((u32, u32)) -> bool,
>(sample: F, uniform: U, width: u32, height: u32, max_tile: u32, min_tile: u32)
    ensures
        ({
            let p = partition(sample, uniform, width, height, max_tile, min_tile);
            let max = effective_max(max_tile, min_tile) as int;
            &&& forall|i: int|
                0 <= i < p.0.len() ==> is_device_tile(
                    sample,
                    uniform,
                    width as int,
                    height as int,
                    max,
                    #[trigger] p.0[i],
                )
            &&& forall|i: int|
                0 <= i < p.1.len() ==> is_host_tile(
                    sample,
                    uniform,
                    width as int,
                    height as int,
                    max,
                    effective_min(min_tile),
                    #[trigger] p.1[i],
                )
        }),
{
    let max = effective_max(max_tile, min_tile) as int;
    let cells = grid_cells(0, width as int, height as int, max);
    lemma_grid_cells(0, width as int, height as int, max);
    lemma_cells_kinds(
        sample,
        uniform,
        width as int,
        height as int,
        max,
        effective_min(min_tile),
        cells,
        cells.len(),
    );
}

/// The sum of what `weight` answers for the tiles.
pub open spec fn weigh(tiles: Seq<[u32; 4]>, weight: spec_fn([u32; 4]) -> int) -> int
    decreases tiles.len(),
{
    if tiles.len() == 0 {
        0
    } else {
        weigh(tiles.drop_last(), weight) + weight(tiles.last())
    }
}

/// One for a tile that holds the pixel, nothing for any other.
pub open spec fn holding(x: int, y: int) -> spec_fn([u32; 4]) -> int {
    |t: [u32; 4]|
        if holds_pixel(t, x, y) {
            1
        } else {
            0
        }
}

/// The number of pixels in a tile.
pub open spec fn area() -> spec_fn([u32; 4]) -> int {
    |t: [u32; 4]| t[2] * t[3]
}

pub proof fn lemma_weigh_joined(
    a: Seq<[u32; 4]>,
    b: Seq<[u32; 4]>,
    weight: spec_fn([u32; 4]) -> int,
)
    ensures
        weigh(a + b, weight) == weigh(a, weight) + weigh(b, weight),
    decreases b.len(),
{
    if b.len() == 0 {
        assert(a + b =~= a);
    } else {
        assert((a + b).drop_last() =~= a + b.drop_last());
        lemma_weigh_joined(a, b.drop_last(), weight);
    }
}

pub proof fn lemma_weigh_one(t: [u32; 4], weight: spec_fn([u32; 4]) -> int)
    ensures
        weigh(seq![t], weight) == weight(t),
{
    assert(seq![t].drop_last() =~= Seq::<[u32; 4]>::empty());
    assert(weigh(Seq::<[u32; 4]>::empty(), weight) == 0);
}

pub proof fn lemma_tally_is_a_weight(tiles: Seq<[u32; 4]>, x: int, y: int)
    ensures
        tally(tiles, x, y) == weigh(tiles, holding(x, y)),
    decreases tiles.len(),
{
    if tiles.len() > 0 {
        lemma_tally_is_a_weight(tiles.drop_last(), x, y);
    }
}

proof fn lemma_cut_area<F: Fn((usize, usize)) -> u32, U: Fn((u32, u32)) -> bool>(
    sample: F,
    uniform: U,
    min_tile: u32,
    t: [u32; 4],
)
    ensures
        weigh(cut(sample, uniform, min_tile, t).0, area()) + weigh(
            cut(sample, uniform, min_tile, t).1,
            area(),
        ) == t[2] * t[3],
    decreases t[2] + t[3],
{
    assert(weigh(Seq::<[u32; 4]>::empty(), area()) == 0);
    lemma_weigh_one(t, area());
    if !is_uniform(sample, uniform, t) && !is_small(min_tile, t) {
        let a = first_half(t);
        let b = second_half(t);
        let pa = cut(sample, uniform, min_tile, a);
        let pb = cut(sample, uniform, min_tile, b);
        lemma_cut_area(sample, uniform, min_tile, a);
        lemma_cut_area(sample, uniform, min_tile, b);
        lemma_weigh_joined(pa.0, pb.0, area());
        lemma_weigh_joined(pa.1, pb.1, area());
        if t[2] >= t[3] {
            assert(a[2] * t[3] + b[2] * t[3] == t[2] * t[3]) by (nonlinear_arith)
                requires
                    a[2] + b[2] == t[2],
            ;
        } else {
            assert(t[2] * a[3] + t[2] * b[3] == t[2] * t[3]) by (nonlinear_arith)
                requires
                    a[3] + b[3] == t[3],
            ;
        }
    }
}

proof fn lemma_row_area(x0: int, y0: int, width: int, th: int, max_tile: int)
    requires
        0 <= x0 <= width <= u32::MAX,
        0 <= th <= u32::MAX,
        0 < max_tile,
    ensures
        weigh(row_cells(x0, y0, width, th, max_tile), area()) == (width - x0) * th,
    decreases width - x0,
{
    if x0 < width {
        let tw = if max_tile < width - x0 {
            max_tile
        } else {
            width - x0
        };
        let head = [x0 as u32, y0 as u32, tw as u32, th as u32];
        lemma_row_area(x0 + tw, y0, width, th, max_tile);
        lemma_weigh_one(head, area());
        lemma_weigh_joined(seq![head], row_cells(x0 + tw, y0, width, th, max_tile), area());
        assert(tw * th + (width - (x0 + tw)) * th == (width - x0) * th) by (nonlinear_arith);
    } else {
        assert((width - x0) * th == 0) by (nonlinear_arith)
            requires
                width == x0,
        ;
    }
}

proof fn lemma_grid_area(y0: int, width: int, height: int, max_tile: int)
    requires
        0 <= y0 <= height <= u32::MAX,
        0 <= width <= u32::MAX,
        0 < max_tile,
    ensures
        weigh(grid_cells(y0, width, height, max_tile), area()) == width * (height - y0),
    decreases height - y0,
{
    if y0 < height {
        let th = if max_tile < height - y0 {
            max_tile
        } else {
            height - y0
        };
        lemma_row_area(0, y0, width, th, max_tile);
        lemma_grid_area(y0 + th, width, height, max_tile);
        lemma_weigh_joined(
            row_cells(0, y0, width, th, max_tile),
            grid_cells(y0 + th, width, height, max_tile),
            area(),
        );
        assert((width - 0) * th + width * (height - (y0 + th)) == width * (height - y0))
            by (nonlinear_arith);
    } else {
        assert(width * (height - y0) == 0) by (nonlinear_arith)
            requires
                height == y0,
        ;
    }
}

proof fn lemma_cells_area<F: Fn((usize, usize)) -> u32, U: Fn((u32, u32)) -> bool>(
    sample: F,
    uniform: U,
    min_tile: u32,
    cells: Seq<[u32; 4]>,
    n: nat,
)
    requires
        n <= cells.len(),
    ensures
        weigh(cut_cells(sample, uniform, min_tile, cells, n).0, area()) + weigh(
            cut_cells(sample, uniform, min_tile, cells, n).1,
            area(),
        ) == weigh(cells.take(n as int), area()),
    decreases n,
{
    assert(weigh(Seq::<[u32; 4]>::empty(), area()) == 0);
    if n == 0 {
        assert(cells.take(0) =~= Seq::<[u32; 4]>::empty());
    } else {
        let m = (n - 1) as nat;
        let a = cut_cells(sample, uniform, min_tile, cells, m);
        let b = cut(sample, uniform, min_tile, cells[m as int]);
        lemma_cells_area(sample, uniform, min_tile, cells, m);
        lemma_cut_area(sample, uniform, min_tile, cells[m as int]);
        lemma_weigh_joined(a.0, b.0, area());
        lemma_weigh_joined(a.1, b.1, area());
        assert(cells.take(n as int).drop_last() =~= cells.take(m as int));
    }
}

/// The tiles have as many pixels together as the frame.
pub proof fn law_partition_has_the_area_of_the_frame<
    F: Fn((usize, usize)) -> u32,
    U: Fn((u32, u32)) -> bool,
>(sample: F, uniform: U, width: u32, height: u32, max_tile: u32, min_tile: u32)
    ensures
        ({
            let p = partition(sample, uniform, width, height, max_tile, min_tile);
            weigh(p.0, area()) + weigh(p.1, area()) == width * height
        }),
{
    let max = effective_max(max_tile, min_tile) as int;
    let cells = grid_cells(0, width as int, height as int, max);
    lemma_grid_area(0, width as int, height as int, max);
    lemma_cells_area(sample, uniform, effective_min(min_tile), cells, cells.len());
    assert(cells.take(cells.len() as int) =~= cells);
}

/// Where no corners count as near, the device gets no tile: the whole frame is
/// the CPU's.
pub proof fn law_without_uniform_tiles_all_is_the_cpus<
    F: Fn((usize, usize)) -> u32,
    U: Fn((u32, u32)) -> bool,
>(sample: F, uniform: U, width: u32, height: u32, max_tile: u32, min_tile: u32)
    requires
        forall|corners: (u32, u32)| !#[trigger] value_of(uniform, corners),
    ensures
        partition(sample, uniform, width, height, max_tile, min_tile).0.len() == 0,
{
    let p = partition(sample, uniform, width, height, max_tile, min_tile);
    law_tiles_are_classified(sample, uniform, width, height, max_tile, min_tile);
    if p.0.len() > 0 {
        assert(is_uniform(sample, uniform, p.0[0]));
    }
}

/// Whatever corners `stricter` takes to be nearly the same, `looser` does too.
pub open spec fn accepts_more<U: Fn((u32, u32)) -> bool, V: Fn((u32, u32)) -> bool>(
    stricter: U,
    looser: V,
) -> bool {
    forall|c: (u32, u32)| #[trigger] value_of(stricter, c) ==> value_of(looser, c)
}

proof fn lemma_cut_moves_to_device<
    F: Fn((usize, usize)) -> u32,
    U: Fn((u32, u32)) -> bool,
    V: Fn((u32, u32)) -> bool,
>(sample: F, stricter: U, looser: V, min_tile: u32, t: [u32; 4], x: int, y: int)
    requires
        accepts_more(stricter, looser),
        t[0] + t[2] <= u32::MAX,
        t[1] + t[3] <= u32::MAX,
    ensures
        tally(cut(sample, stricter, min_tile, t).0, x, y) <= tally(
            cut(sample, looser, min_tile, t).0,
            x,
            y,
        ),
    decreases t[2] + t[3],
{
    if is_uniform(sample, looser, t) {
        law_cut_covers_tile_once(sample, stricter, min_tile, t, x, y);
        lemma_tally_one(t, x, y);
    } else if !is_small(min_tile, t) {
        let a = first_half(t);
        let b = second_half(t);
        lemma_cut_moves_to_device(sample, stricter, looser, min_tile, a, x, y);
        lemma_cut_moves_to_device(sample, stricter, looser, min_tile, b, x, y);
        lemma_tally_joined(
            cut(sample, stricter, min_tile, a).0,
            cut(sample, stricter, min_tile, b).0,
            x,
            y,
        );
        lemma_tally_joined(
            cut(sample, looser, min_tile, a).0,
            cut(sample, looser, min_tile, b).0,
            x,
            y,
        );
    }
}

proof fn lemma_cells_move_to_device<
    F: Fn((usize, usize)) -> u32,
    U: Fn((u32, u32)) -> bool,
    V: Fn((u32, u32)) -> bool,
>(
    sample: F,
    stricter: U,
    looser: V,
    min_tile: u32,
    cells: Seq<[u32; 4]>,
    n: nat,
    width: int,
    height: int,
    x: int,
    y: int,
)
    requires
        accepts_more(stricter, looser),
        n <= cells.len(),
        width <= u32::MAX,
        height <= u32::MAX,
        forall|i: int| 0 <= i < cells.len() ==> tile_in_frame(#[trigger] cells[i], width, height),
    ensures
        tally(cut_cells(sample, stricter, min_tile, cells, n).0, x, y) <= tally(
            cut_cells(sample, looser, min_tile, cells, n).0,
            x,
            y,
        ),
    decreases n,
{
    if n > 0 {
        let m = (n - 1) as nat;
        let t = cells[m as int];
        assert(tile_in_frame(t, width, height));
        lemma_cells_move_to_device(
            sample,
            stricter,
            looser,
            min_tile,
            cells,
            m,
            width,
            height,
            x,
            y,
        );
        lemma_cut_moves_to_device(sample, stricter, looser, min_tile, t, x, y);
        lemma_tally_joined(
            cut_cells(sample, stricter, min_tile, cells, m).0,
            cut(sample, stricter, min_tile, t).0,
            x,
            y,
        );
        lemma_tally_joined(
            cut_cells(sample, looser, min_tile, cells, m).0,
            cut(sample, looser, min_tile, t).0,
            x,
            y,
        );
    }
}

/// A higher threshold only moves pixels to the device: a pixel in a tile of the
/// device stays in one, and so a pixel in a tile of the CPU was in one before.
pub proof fn law_higher_threshold_moves_pixels_to_the_device<
    F: Fn((usize, usize)) -> u32,
    U: Fn((u32, u32)) -> bool,
    V: Fn((u32, u32)) -> bool,
>(
    sample: F,
    lower: U,
    higher: V,
    width: u32,
    height: u32,
    max_tile: u32,
    min_tile: u32,
    x: int,
    y: int,
)
    requires
        accepts_more(lower, higher),
    ensures
        tally(partition(sample, lower, width, height, max_tile, min_tile).0, x, y) <= tally(
            partition(sample, higher, width, height, max_tile, min_tile).0,
            x,
            y,
        ),
        tally(partition(sample, higher, width, height, max_tile, min_tile).1, x, y) <= tally(
            partition(sample, lower, width, height, max_tile, min_tile).1,
            x,
            y,
        ),
{
    let max = effective_max(max_tile, min_tile) as int;
    let cells = grid_cells(0, width as int, height as int, max);
    lemma_grid_cells(0, width as int, height as int, max);
    assert forall|i: int| 0 <= i < cells.len() implies tile_in_frame(
        #[trigger] cells[i],
        width as int,
        height as int,
    ) by {
        assert(is_cell(cells[i], width as int, height as int, max));
    }
    lemma_cells_move_to_device(
        sample,
        lower,
        higher,
        effective_min(min_tile),
        cells,
        cells.len(),
        width as int,
        height as int,
        x,
        y,
    );
    law_partition_covers_frame_once(sample, lower, width, height, max_tile, min_tile, x, y);
    law_partition_covers_frame_once(sample, higher, width, height, max_tile, min_tile, x, y);
}

/// The extremes of the corner values enclose all of them that are numbers, and are among
/// these or the last finite numbers: the larger is at least the smallest of these, and the
/// smaller at most the largest.
pub proof fn law_extremes_enclose_the_corner_values(c: Seq<u32>)
    requires
        c.len() == 4,
    ensures
        forall|i: int|
            0 <= i < 4 && !single_is_nan_spec(#[trigger] c[i]) ==> single_ge_spec(
                extremes(c).0,
                c[i],
            ) && single_ge_spec(c[i], extremes(c).1),
        single_ge_spec(extremes(c).0, 0xff7f_ffff),
        single_ge_spec(0x7f7f_ffff, extremes(c).1),
        extremes(c).0 == 0xff7f_ffff || exists|i: int|
            0 <= i < 4 && extremes(c).0 == #[trigger] c[i],
        extremes(c).1 == 0x7f7f_ffff || exists|i: int|
            0 <= i < 4 && extremes(c).1 == #[trigger] c[i],
{
    let (hi, lo) = extremes(c);
    assert(hi == 0xff7f_ffff || hi == c[0] || hi == c[1] || hi == c[2] || hi == c[3]);
    assert(lo == 0x7f7f_ffff || lo == c[0] || lo == c[1] || lo == c[2] || lo == c[3]);
}

/// A tile is taken to be uniform exactly if `uniform` answers so for the extremes of
/// the values of its four corner pixels.
pub proof fn law_uniformity_is_told_from_the_corner_pixels<
    F: Fn((usize, usize)) -> u32,
    U: Fn((u32, u32)) -> bool,
>(sample: F, uniform: U, t: [u32; 4])
    ensures
        ({
            let left = t[0] as usize;
            let right = (t[0] + t[2] - 1) as usize;
            let top = t[1] as usize;
            let bottom = (t[1] + t[3] - 1) as usize;
            is_uniform(sample, uniform, t) <==> value_of(
                uniform,
                extremes(
                    seq![
                        value_of(sample, (left, top)),
                        value_of(sample, (right, top)),
                        value_of(sample, (left, bottom)),
                        value_of(sample, (right, bottom)),
                    ],
                ),
            )
        }),
{
    assert(corners_of(sample, t) =~= seq![
        value_of(sample, (t[0] as usize, t[1] as usize)),
        value_of(sample, ((t[0] + t[2] - 1) as usize, t[1] as usize)),
        value_of(sample, (t[0] as usize, (t[1] + t[3] - 1) as usize)),
        value_of(sample, ((t[0] + t[2] - 1) as usize, (t[1] + t[3] - 1) as usize)),
    ]);
}

/// How a tile is cut. A uniform one goes to the device whole, and any other that is at
/// most the smallest size wide or high to the CPU. The rest is cut across its longer
/// side, upright if it is square, the first half rounded down, and what the halves give
/// is taken in order.
pub proof fn law_tiles_are_cut_across_the_longer_side<
    F: Fn((usize, usize)) -> u32,
    U: Fn((u32, u32)) -> bool,
>(sample: F, uniform: U, min_tile: u32, t: [u32; 4], a: [u32; 4], b: [u32; 4])
    requires
        1 <= min_tile,
        t[0] + t[2] <= u32::MAX,
        t[1] + t[3] <= u32::MAX,
        t[2] >= t[3] ==> {
            &&& a@ == seq![t[0], t[1], t[2] / 2, t[3]]
            &&& b@ == seq![(t[0] + t[2] / 2) as u32, t[1], (t[2] - t[2] / 2) as u32, t[3]]
        },
        t[2] < t[3] ==> {
            &&& a@ == seq![t[0], t[1], t[2], t[3] / 2]
            &&& b@ == seq![t[0], (t[1] + t[3] / 2) as u32, t[2], (t[3] - t[3] / 2) as u32]
        },
    ensures
        ({
            let parts = cut(sample, uniform, min_tile, t);
            let first = cut(sample, uniform, min_tile, a);
            let second = cut(sample, uniform, min_tile, b);
            let small = t[2] <= min_tile || t[3] <= min_tile;
            let none = Seq::<[u32; 4]>::empty();
            &&& is_uniform(sample, uniform, t) ==> parts == (seq![t], none)
            &&& !is_uniform(sample, uniform, t) && small ==> parts == (none, seq![t])
            &&& !is_uniform(sample, uniform, t) && !small ==> parts == (
                first.0 + second.0,
                first.1 + second.1,
            )
        }),
{
    assert(first_half(t)@ =~= a@ && second_half(t)@ =~= b@);
    assert(first_half(t) == a && second_half(t) == b);
}

/// Tiles are cut one after the other: what a further cell gives comes behind what the
/// cells before it give.
pub proof fn law_cells_are_cut_in_order<F: Fn((usize, usize)) -> u32, U: Fn((u32, u32)) -> bool>(
    sample: F,
    uniform: U,
    min_tile: u32,
    cells: Seq<[u32; 4]>,
    n: nat,
)
    ensures
        ({
            let before = cut_cells(sample, uniform, min_tile, cells, n);
            let more = cut(sample, uniform, min_tile, cells[n as int]);
            cut_cells(sample, uniform, min_tile, cells, n + 1) == (
                before.0 + more.0,
                before.1 + more.1,
            )
        }),
        cut_cells(sample, uniform, min_tile, cells, 0) == (
            Seq::<[u32; 4]>::empty(),
            Seq::<[u32; 4]>::empty(),
        ),
{
}

/// The side of a cell that starts at `a` in `limit` pixels: `m`, or what is left.
pub open spec fn cell_side(a: int, m: int, limit: int) -> int {
    if m < limit - a {
        m
    } else {
        limit - a
    }
}

proof fn lemma_row_cell(i: int, y0: int, width: int, th: int, m: int, columns: int, k: int)
    requires
        0 < m,
        0 <= i <= columns,
        (columns - 1) * m < width <= columns * m,
    ensures
        ({
            let row = row_cells(if i * m < width { i * m } else { width }, y0, width, th, m);
            &&& row.len() == columns - i
            &&& i <= k < columns ==> row[k - i] == [
                (k * m) as u32,
                y0 as u32,
                cell_side(k * m, m, width) as u32,
                th as u32,
            ]
        }),
    decreases columns - i,
{
    if i < columns {
        lemma_row_cell(i + 1, y0, width, th, m, columns, k);
        assert(i * m <= (columns - 1) * m && (i + 1) * m == i * m + m) by (nonlinear_arith)
            requires
                i <= columns - 1,
                m > 0,
        ;
    }
}

proof fn lemma_grid_cell(j: int, width: int, height: int, m: int, columns: int, rows: int, i: int, k: int)
    requires
        0 < m,
        0 <= j <= rows,
        0 <= columns,
        (columns - 1) * m < width <= columns * m,
        (rows - 1) * m < height <= rows * m,
        0 <= i < columns,
    ensures
        ({
            let grid = grid_cells(if j * m < height { j * m } else { height }, width, height, m);
            &&& grid.len() == (rows - j) * columns
            &&& j <= k < rows ==> grid[(k - j) * columns + i] == [
                (i * m) as u32,
                (k * m) as u32,
                cell_side(i * m, m, width) as u32,
                cell_side(k * m, m, height) as u32,
            ]
        }),
    decreases rows - j,
{
    if j < rows {
        lemma_grid_cell(j + 1, width, height, m, columns, rows, i, k);
        let th = cell_side(j * m, m, height);
        lemma_row_cell(0, j * m, width, th, m, columns, i);
        assert(j * m <= (rows - 1) * m && (j + 1) * m == j * m + m) by (nonlinear_arith)
            requires
                j <= rows - 1,
                m > 0,
        ;
        assert(0 * m == 0);
        assert(width > 0) by (nonlinear_arith)
            requires
                (columns - 1) * m < width,
                columns >= 1,
                m > 0,
        ;
        assert((rows - j) * columns == columns + (rows - (j + 1)) * columns) by (nonlinear_arith);
        let row = row_cells(0, j * m, width, th, m);
        let next = if (j + 1) * m < height {
            (j + 1) * m
        } else {
            height
        };
        let rest = grid_cells(next, width, height, m);
        let grid = grid_cells(j * m, width, height, m);
        assert(next == j * m + th);
        assert(grid == row + rest);
        if j < k < rows {
            let at = (k - (j + 1)) * columns + i;
            assert((k - j) * columns + i == columns + at) by (nonlinear_arith)
                requires
                    at == (k - (j + 1)) * columns + i,
            ;
            assert(0 <= at < (rows - (j + 1)) * columns) by (nonlinear_arith)
                requires
                    at == (k - (j + 1)) * columns + i,
                    j + 1 <= k < rows,
                    0 <= i < columns,
            ;
            assert(grid[columns + at] == rest[at]);
        } else if k == j {
            assert(0 * columns + i == i);
            assert(grid[i] == row[i]);
        }
    } else {
        assert(0 * columns == 0);
    }
}

/// A frame is cut from a grid of `columns` by `rows` cells, as many as it takes to cover
/// it: cell `i` of row `k` starts `i` and `k` times the largest size in, and has that
/// size or what is left of the frame. The smallest size is at least one pixel, and the
/// largest at least the smallest.
pub proof fn law_frame_is_cut_from_a_grid<
    F: Fn((usize, usize)) -> u32,
    U: Fn((u32, u32)) -> bool,
>(
    sample: F,
    uniform: U,
    width: u32,
    height: u32,
    max_tile: u32,
    min_tile: u32,
    smallest: u32,
    side: u32,
    columns: int,
    rows: int,
    i: int,
    k: int,
)
    requires
        smallest == (if min_tile == 0 {
            1
        } else {
            min_tile
        }),
        side == (if max_tile < smallest {
            smallest
        } else {
            max_tile
        }),
        (columns - 1) * side < width <= columns * side,
        (rows - 1) * side < height <= rows * side,
        0 <= i < columns,
        0 <= k < rows,
    ensures
        ({
            let cells = grid_cells(0, width as int, height as int, side as int);
            &&& partition(sample, uniform, width, height, max_tile, min_tile) == cut_cells(
                sample,
                uniform,
                smallest,
                cells,
                cells.len(),
            )
            &&& cells.len() == rows * columns
            &&& cells[k * columns + i] == [
                (i * side) as u32,
                (k * side) as u32,
                cell_side(i * side, side as int, width as int) as u32,
                cell_side(k * side, side as int, height as int) as u32,
            ]
        }),
{
    lemma_grid_cell(0, width as int, height as int, side as int, columns, rows, i, k);
    assert(0 * side == 0);
    assert(height > 0) by (nonlinear_arith)
        requires
            (rows - 1) * side < height,
            rows >= 1,
            side > 0,
    ;
}

} // verus!
