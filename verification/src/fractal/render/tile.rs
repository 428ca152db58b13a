//! Rendering one tile of a frame: the scheduler's unit of work.
//!
//! A tile is `[x0, y0, width, height]`.

use crate::float_bits::{double_lt, double_lt_spec};
use crate::fractal::fractal::F32_PRECISION_THRESHOLD;
use crate::fractal::fractal_type::FractalType;
use crate::fractal::render::simd::{block_fits, block_start, push_blocks, push_tail};
use crate::func::{is_function, value_of};
use crate::grid::{at, in_frame, lemma_index_in_frame, lemma_index_injective, sampled};
use vstd::prelude::*;

verus! {

/// The tile ends within the range of coordinates, and its pixels can be counted.
pub open spec fn tile_ok(tile: [u32; 4]) -> bool {
    &&& tile[0] + tile[2] <= u32::MAX
    &&& tile[1] + tile[3] <= u32::MAX
    &&& tile[2] * tile[3] <= u32::MAX
}

/// The number of pixels in the tile.
pub open spec fn tile_area(tile: [u32; 4]) -> int {
    tile[2] * tile[3]
}

/// `out` shows the part of the picture of `sample` that the tile covers.
pub open spec fn shows_tile<F: Fn((usize, usize)) -> u32>(
    out: Seq<u32>,
    tile: [u32; 4],
    sample: F,
) -> bool {
    &&& out.len() == tile_area(tile)
    &&& forall|x: int, y: int|
        in_frame(tile[2] as int, tile[3] as int, x, y) ==> #[trigger] at(
            out,
            tile[2] as int,
            x,
            y,
        ) == sampled(sample, tile[0] + x, tile[1] + y)
}

/// The value of pixel `(x, y)` of the tile when its rows are computed in blocks
/// of eight from the left edge of the tile.
pub open spec fn tile_lane<
    B: Fn((usize, usize)) -> [u32; 8],
    F: Fn((usize, usize)) -> u32,
>(tile: [u32; 4], block: B, sample: F, x: int, y: int) -> u32 {
    if block_fits(x, 8, tile[2] as int) {
        value_of(block, ((tile[0] + block_start(x, 8)) as usize, (tile[1] + y) as usize))[x % 8]
    } else {
        sampled(sample, tile[0] + x, tile[1] + y)
    }
}

/// `out` shows the tile computed in blocks of eight.
pub open spec fn shows_tile_in_blocks<
    B: Fn((usize, usize)) -> [u32; 8],
    F: Fn((usize, usize)) -> u32,
>(out: Seq<u32>, tile: [u32; 4], block: B, sample: F) -> bool {
    &&& out.len() == tile_area(tile)
    &&& forall|x: int, y: int|
        in_frame(tile[2] as int, tile[3] as int, x, y) ==> #[trigger] at(
            out,
            tile[2] as int,
            x,
            y,
        ) == tile_lane(tile, block, sample, x, y)
}

/// Writes row `y` of a frame of width `w`.
pub(crate) fn write_row(out: &mut [u32], w: usize, Ghost(h): Ghost<int>, y: usize, row: &Vec<u32>)
    requires
        old(out)@.len() == w * h,
        y < h,
        row@.len() == w,
    ensures
        final(out)@.len() == w * h,
        forall|u: int, v: int|
            in_frame(w as int, h, u, v) ==> #[trigger] at(final(out)@, w as int, u, v) == (if v
                == y {
                row@[u]
            } else {
                at(old(out)@, w as int, u, v)
            }),
{
    let ghost start = out@;
    let ghost wi = w as int;
    let len: usize = out.len();
    let mut x: usize = 0;
    while x < w
        invariant
            len == w * h,
            start.len() == w * h,
            out@.len() == w * h,
            wi == w,
            y < h,
            row@.len() == w,
            x <= w,
            forall|u: int, v: int|
                in_frame(wi, h, u, v) ==> #[trigger] at(out@, wi, u, v) == (if v == y && u < x {
                    row@[u]
                } else {
                    at(start, wi, u, v)
                }),
        decreases w - x,
    {
        proof {
            lemma_index_in_frame(wi, h, x as int, y as int);
        }
        let ghost before = out@;
        out[y * w + x] = row[x];
        proof {
            assert forall|u: int, v: int| in_frame(wi, h, u, v) implies #[trigger] at(
                out@,
                wi,
                u,
                v,
            ) == (if v == y && u < x + 1 {
                row@[u]
            } else {
                at(start, wi, u, v)
            }) by {
                lemma_index_in_frame(wi, h, u, v);
                if v * wi + u == y * wi + x {
                    lemma_index_injective(wi, u, v, x as int, y as int);
                } else {
                    assert(at(before, wi, u, v) == out@[v * wi + u]);
                }
            }
        }
        x = x + 1;
    }
}

/// Renders the tile pixel by pixel into `out`, which has its size.
pub fn render_tile_exact_into<F: Fn((usize, usize)) -> u32>(
    tile: [u32; 4],
    sample: &F,
    out: &mut [u32],
)
    requires
        is_function(*sample),
        tile_ok(tile),
        old(out)@.len() == tile_area(tile),
    ensures
        shows_tile(final(out)@, tile, *sample),
{
    let tw: usize = tile[2] as usize;
    let th: usize = tile[3] as usize;
    let x0: usize = tile[0] as usize;
    let y0: usize = tile[1] as usize;
    let ghost wi = tw as int;
    let mut ly: usize = 0;
    while ly < th
        invariant
            is_function(*sample),
            tile_ok(tile),
            tw == tile[2],
            th == tile[3],
            x0 == tile[0],
            y0 == tile[1],
            wi == tw,
            ly <= th,
            out@.len() == tile_area(tile),
            forall|x: int, y: int|
                in_frame(wi, ly as int, x, y) ==> #[trigger] at(out@, wi, x, y) == sampled(
                    *sample,
                    x0 + x,
                    y0 + y,
                ),
        decreases th - ly,
    {
        let mut row: Vec<u32> = Vec::new();
        push_tail(&mut row, tw, x0, y0 + ly, sample);
        write_row(out, tw, Ghost(th as int), ly, &row);
        ly = ly + 1;
    }
}

/// Renders the tile pixel by pixel.
pub fn render_tile_exact<F: Fn((usize, usize)) -> u32>(tile: [u32; 4], sample: &F) -> (out: Vec<u32>)
    requires
        is_function(*sample),
        tile_ok(tile),
    ensures
        shows_tile(out@, tile, *sample),
{
    let mut local: Vec<u32> = vec![0u32; (tile[2] * tile[3]) as usize];
    render_tile_exact_into(tile, sample, local.as_mut_slice());
    local
}

/// Renders the tile in blocks of eight pixels into `out`, which has its size.
pub fn render_tile_exact_simd_into<
    B: Fn((usize, usize)) -> [u32; 8],
    F: Fn((usize, usize)) -> u32,
>(tile: [u32; 4], block: &B, sample: &F, out: &mut [u32])
    requires
        is_function(*block),
        is_function(*sample),
        tile_ok(tile),
        old(out)@.len() == tile_area(tile),
    ensures
        shows_tile_in_blocks(final(out)@, tile, *block, *sample),
{
    let tw: usize = tile[2] as usize;
    let th: usize = tile[3] as usize;
    let x0: usize = tile[0] as usize;
    let y0: usize = tile[1] as usize;
    let ghost wi = tw as int;
    let mut ly: usize = 0;
    while ly < th
        invariant
            is_function(*block),
            is_function(*sample),
            tile_ok(tile),
            tw == tile[2],
            th == tile[3],
            x0 == tile[0],
            y0 == tile[1],
            wi == tw,
            ly <= th,
            out@.len() == tile_area(tile),
            forall|x: int, y: int|
                in_frame(wi, ly as int, x, y) ==> #[trigger] at(out@, wi, x, y) == tile_lane(
                    tile,
                    *block,
                    *sample,
                    x,
                    y,
                ),
        decreases th - ly,
    {
        let mut row: Vec<u32> = Vec::new();
        push_blocks(&mut row, tw, x0, y0 + ly, block);
        let ghost full = row@.len() as int;
        push_tail(&mut row, tw, x0, y0 + ly, sample);
        write_row(out, tw, Ghost(th as int), ly, &row);
        proof {
            assert forall|x: int| 0 <= x < tw implies #[trigger] row@[x] == tile_lane(
                tile,
                *block,
                *sample,
                x,
                ly as int,
            ) by {
                crate::fractal::render::simd::lemma_block_fits(x, 8, wi, full);
            }
        }
        ly = ly + 1;
    }
}

/// Renders the tile in blocks of eight pixels.
pub fn render_tile_exact_simd<
    B: Fn((usize, usize)) -> [u32; 8],
    F: Fn((usize, usize)) -> u32,
>(tile: [u32; 4], block: &B, sample: &F) -> (out: Vec<u32>)
    requires
        is_function(*block),
        is_function(*sample),
        tile_ok(tile),
    ensures
        shows_tile_in_blocks(out@, tile, *block, *sample),
{
    let mut local: Vec<u32> = vec![0u32; (tile[2] * tile[3]) as usize];
    render_tile_exact_simd_into(tile, block, sample, local.as_mut_slice());
    local
}

/// Whether a tile is computed in blocks: that is asked for, the fractal has such
/// a kernel, and single precision is exact enough at this zoom.
pub open spec fn uses_blocks(fractal: FractalType, use_simd: bool, zoom: u64) -> bool {
    use_simd && fractal.is_quadratic_spec() && double_lt_spec(zoom, F32_PRECISION_THRESHOLD)
}

/// `out` shows the tile as the CPU renders it.
pub open spec fn shows_cpu_tile<
    B: Fn((usize, usize)) -> [u32; 8],
    F: Fn((usize, usize)) -> u32,
>(
    out: Seq<u32>,
    fractal: FractalType,
    tile: [u32; 4],
    use_simd: bool,
    zoom: u64,
    block: B,
    sample: F,
) -> bool {
    if uses_blocks(fractal, use_simd, zoom) {
        shows_tile_in_blocks(out, tile, block, sample)
    } else {
        shows_tile(out, tile, sample)
    }
}

/// Renders the tile into `out`, which has its size, in blocks where that is exact enough.
pub fn render_cpu_tile_into<B: Fn((usize, usize)) -> [u32; 8], F: Fn((usize, usize)) -> u32>(
    fractal: FractalType,
    tile: [u32; 4],
    use_simd: bool,
    zoom: u64,
    block: &B,
    sample: &F,
    out: &mut [u32],
)
    requires
        is_function(*block),
        is_function(*sample),
        tile_ok(tile),
        old(out)@.len() == tile_area(tile),
    ensures
        shows_cpu_tile(final(out)@, fractal, tile, use_simd, zoom, *block, *sample),
{
    if use_simd && fractal.is_quadratic() && double_lt(zoom, F32_PRECISION_THRESHOLD) {
        render_tile_exact_simd_into(tile, block, sample, out);
    } else {
        render_tile_exact_into(tile, sample, out);
    }
}

/// Renders the tile, in blocks where that is exact enough.
pub fn render_cpu_tile<B: Fn((usize, usize)) -> [u32; 8], F: Fn((usize, usize)) -> u32>(
    fractal: FractalType,
    tile: [u32; 4],
    use_simd: bool,
    zoom: u64,
    block: &B,
    sample: &F,
) -> (out: Vec<u32>)
    requires
        is_function(*block),
        is_function(*sample),
        tile_ok(tile),
    ensures
        shows_cpu_tile(out@, fractal, tile, use_simd, zoom, *block, *sample),
{
    let mut out: Vec<u32> = vec![0u32; (tile[2] * tile[3]) as usize];
    render_cpu_tile_into(fractal, tile, use_simd, zoom, block, sample, out.as_mut_slice());
    out
}

/// Wherever a block of eight starts, each of its lanes answers what `sample`
/// answers for its pixel.
pub open spec fn blocks_agree<
    B: Fn((usize, usize)) -> [u32; 8],
    F: Fn((usize, usize)) -> u32,
>(block: B, sample: F) -> bool {
    forall|x: usize, y: usize, k: int|
        0 <= k < 8 ==> #[trigger] value_of(block, (x, y))[k] == sampled(sample, x + k, y as int)
}

/// Computing a tile in blocks changes no pixel, where the lanes answer what the
/// scalar kernel answers: the CPU then shows its part of the picture.
pub proof fn law_cpu_tile_shows_the_picture<
    B: Fn((usize, usize)) -> [u32; 8],
    F: Fn((usize, usize)) -> u32,
>(
    out: Seq<u32>,
    fractal: FractalType,
    tile: [u32; 4],
    use_simd: bool,
    zoom: u64,
    block: B,
    sample: F,
)
    requires
        tile_ok(tile),
        shows_cpu_tile(out, fractal, tile, use_simd, zoom, block, sample),
        uses_blocks(fractal, use_simd, zoom) ==> blocks_agree(block, sample),
    ensures
        shows_tile(out, tile, sample),
{
    if uses_blocks(fractal, use_simd, zoom) {
        assert forall|x: int, y: int|
            in_frame(tile[2] as int, tile[3] as int, x, y) implies #[trigger] at(
            out,
            tile[2] as int,
            x,
            y,
        ) == sampled(sample, tile[0] + x, tile[1] + y) by {
            assert(at(out, tile[2] as int, x, y) == tile_lane(tile, block, sample, x, y));
            if block_fits(x, 8, tile[2] as int) {
                let bx = (tile[0] + block_start(x, 8)) as usize;
                let by = (tile[1] + y) as usize;
                assert(value_of(block, (bx, by))[x % 8] == sampled(sample, bx + x % 8, by as int));
            }
        }
    }
}

/// A tile is computed in blocks only where that was asked for, for a quadratic map,
/// and at a zoom below one million.
pub proof fn law_blocks_are_used_where_they_are_exact(
    fractal: FractalType,
    use_simd: bool,
    zoom: u64,
)
    ensures
        uses_blocks(fractal, use_simd, zoom) <==> use_simd && (fractal == FractalType::Mandelbrot
            || fractal == FractalType::Julia) && double_lt_spec(zoom, 0x412e_8480_0000_0000),
{
}

/// What a tile holds, value by value: its rows of `tile[2]` values one after the
/// other, each value what `sample` answers for its pixel of the frame.
pub proof fn law_tile_holds_its_samples<F: Fn((usize, usize)) -> u32>(
    out: Seq<u32>,
    tile: [u32; 4],
    sample: F,
)
    requires
        shows_tile(out, tile, sample),
    ensures
        out.len() == tile[2] * tile[3],
        forall|x: int, y: int|
            #![trigger value_of(sample, ((tile[0] + x) as usize, (tile[1] + y) as usize))]
            0 <= x < tile[2] && 0 <= y < tile[3] ==> out[y * tile[2] + x] == value_of(
                sample,
                ((tile[0] + x) as usize, (tile[1] + y) as usize),
            ),
{
    assert forall|x: int, y: int|
        #![trigger value_of(sample, ((tile[0] + x) as usize, (tile[1] + y) as usize))]
        0 <= x < tile[2] && 0 <= y < tile[3] implies out[y * tile[2] + x] == value_of(
        sample,
        ((tile[0] + x) as usize, (tile[1] + y) as usize),
    ) by {
        assert(at(out, tile[2] as int, x, y) == sampled(sample, tile[0] + x, tile[1] + y));
    }
}

/// What a tile that the CPU rendered holds, value by value. Without blocks it is
/// what `sample` answers. With them, and `b` whole blocks to the left in the tile,
/// it is the pixel's lane of the block that starts there, where the block lies in
/// the tile, and else what `sample` answers.
pub proof fn law_cpu_tile_holds_lanes_or_samples<
    B: Fn((usize, usize)) -> [u32; 8],
    F: Fn((usize, usize)) -> u32,
>(
    out: Seq<u32>,
    fractal: FractalType,
    tile: [u32; 4],
    use_simd: bool,
    zoom: u64,
    block: B,
    sample: F,
    b: int,
    k: int,
    y: int,
)
    requires
        shows_cpu_tile(out, fractal, tile, use_simd, zoom, block, sample),
        0 <= b,
        0 <= k < 8,
        b * 8 + k < tile[2],
        0 <= y < tile[3],
    ensures
        out.len() == tile[2] * tile[3],
        ({
            let v = out[y * tile[2] + (b * 8 + k)];
            if uses_blocks(fractal, use_simd, zoom) && b * 8 + 8 <= tile[2] {
                v == value_of(block, ((tile[0] + b * 8) as usize, (tile[1] + y) as usize))[k]
            } else {
                v == value_of(
                    sample,
                    ((tile[0] + (b * 8 + k)) as usize, (tile[1] + y) as usize),
                )
            }
        }),
{
    let x = b * 8 + k;
    assert(x % 8 == k);
    let v = at(out, tile[2] as int, x, y);
    if uses_blocks(fractal, use_simd, zoom) {
        assert(v == tile_lane(tile, block, sample, x, y));
    } else {
        assert(v == sampled(sample, tile[0] + x, tile[1] + y));
    }
}

} // verus!
