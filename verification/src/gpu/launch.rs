//! How many threads a device runs, and how they are grouped.

use vstd::arithmetic::power2::pow2;
use vstd::prelude::*;

verus! {

/// Threads per block and blocks per grid, along three axes.
#[derive(Clone, Copy, Debug, PartialEq, Eq)]
pub struct LaunchGrid {
    pub block_dim: (u32, u32, u32),
    pub grid_dim: (u32, u32, u32),
}

/// `n` divided by `d`, rounded up.
pub open spec fn ceil_div(n: int, d: int) -> int {
    (n + d - 1) / d
}

/// One thread for each of `n` pixels, in blocks of 256.
pub fn linear_cfg(n: u32) -> (r: LaunchGrid)
    ensures
        r.block_dim == (256u32, 1u32, 1u32),
        r.grid_dim == (ceil_div(n as int, 256) as u32, 1u32, 1u32),
{
    let blocks: u64 = (n as u64 + 255) / 256;
    LaunchGrid { block_dim: (256, 1, 1), grid_dim: (blocks as u32, 1, 1) }
}

/// One thread for each pixel of a frame, in blocks of 16 by 16.
pub fn frame_cfg(w: u32, h: u32) -> (r: LaunchGrid)
    ensures
        r.block_dim == (16u32, 16u32, 1u32),
        r.grid_dim == (ceil_div(w as int, 16) as u32, ceil_div(h as int, 16) as u32, 1u32),
{
    let across: u64 = (w as u64 + 15) / 16;
    let down: u64 = (h as u64 + 15) / 16;
    LaunchGrid { block_dim: (16, 16, 1), grid_dim: (across as u32, down as u32, 1) }
}

/// The larger of two sides, at least one.
pub open spec fn longest(w: u32, h: u32) -> int {
    let m = if w > h {
        w as int
    } else {
        h as int
    };
    if m > 1 {
        m
    } else {
        1
    }
}

/// `dim` is the smallest power of two that is at least `m`.
pub open spec fn is_next_power(dim: int, m: int) -> bool {
    &&& exists|e: nat| dim == #[trigger] pow2(e)
    &&& m <= dim
    &&& dim == 1 || dim < 2 * m
}

/// The smallest power of two that is at least `m`.
pub fn next_power_of_two(m: u32) -> (dim: u32)
    requires
        1 <= m <= 0x8000_0000,
    ensures
        is_next_power(dim as int, m as int),
{
    let mut dim: u32 = 1;
    let ghost mut e: nat = 0;
    proof {
        vstd::arithmetic::power2::lemma2_to64();
    }
    while dim < m
        invariant
            1 <= m <= 0x8000_0000,
            1 <= dim,
            dim == pow2(e),
            dim == 1 || dim < 2 * m,
        decreases 2 * m - dim,
    {
        proof {
            vstd::arithmetic::power2::lemma_pow2_unfold(e + 1);
            e = e + 1;
        }
        dim = dim * 2;
    }
    dim
}

/// One thread for each pixel of the smallest square that holds the frame and
/// whose side is a power of two, in blocks of 256. The number of blocks is kept
/// in 32 bits.
pub fn morton_cfg(w: u32, h: u32) -> (r: LaunchGrid)
    requires
        longest(w, h) <= 0x8000_0000,
    ensures
        r.block_dim == (16u32, 16u32, 1u32),
        r.grid_dim.1 == 1,
        r.grid_dim.2 == 1,
        exists|dim: int|
            #[trigger] is_next_power(dim, longest(w, h)) && r.grid_dim.0 == ceil_div(
                dim * dim,
                256,
            ) as u32,
{
    let widest: u32 = if w > h {
        w
    } else {
        h
    };
    let dim: u32 = next_power_of_two(
        if widest > 1 {
            widest
        } else {
            1
        },
    );
    proof {
        assert(dim * dim <= 0xffff_ffff * 0xffff_ffff) by (nonlinear_arith)
            requires
                dim <= 0xffff_ffff,
        ;
        assert(is_next_power(dim as int, longest(w, h)));
    }
    let total: u64 = dim as u64 * dim as u64;
    let blocks: u64 = total / 256 + (if total % 256 == 0 {
        0
    } else {
        1
    });
    assert(blocks == ceil_div(dim as int * dim as int, 256));
    LaunchGrid { block_dim: (16, 16, 1), grid_dim: (blocks as u32, 1, 1) }
}

/// For frames of up to 2^19 pixels a side, the square holds the frame, and there is
/// a thread for every pixel of the square.
pub proof fn law_every_pixel_has_a_thread(w: u32, h: u32, dim: int)
    requires
        longest(w, h) <= 0x8_0000,
        is_next_power(dim, longest(w, h)),
    ensures
        w <= dim,
        h <= dim,
        ceil_div(dim * dim, 256) as u32 * 256 >= dim * dim,
{
    assert(dim < 0x10_0000);
    assert(dim * dim <= 0xf_ffff * 0xf_ffff) by (nonlinear_arith)
        requires
            1 <= dim <= 0xf_ffff,
    ;
    assert(dim * dim >= 0) by (nonlinear_arith);
}

/// What a batch of tiles is uploaded as: the numbers of all tiles one after the
/// other, and one layer of blocks for each tile, wide and high enough for the
/// largest.
pub struct TileUpload {
    pub flat: Vec<u32>,
    pub cfg: LaunchGrid,
}

/// The largest entry at place `c` of the first `n` tiles.
pub open spec fn largest<const N: usize>(tiles: Seq<[u32; N]>, c: int, n: nat) -> int
    decreases n,
{
    if n == 0 {
        0
    } else {
        let rest = largest(tiles, c, (n - 1) as nat);
        if tiles[n - 1][c] > rest {
            tiles[n - 1][c] as int
        } else {
            rest
        }
    }
}

/// Prepares a batch of tiles for a device; nothing is uploaded for an empty
/// batch. A tile is `[x0, y0, width, height]`, and may have more numbers behind
/// those, such as where its values go.
pub fn upload_tiles<const N: usize>(tiles: &Vec<[u32; N]>) -> (r: Option<TileUpload>)
    requires
        4 <= N,
        tiles@.len() <= u32::MAX,
        tiles@.len() * N <= usize::MAX,
    ensures
        r is None <==> tiles@.len() == 0,
        r matches Some(u) ==> {
            &&& u.flat@.len() == tiles@.len() * N
            &&& forall|i: int, c: int|
                #![trigger tiles@[i][c]]
                0 <= i < tiles@.len() && 0 <= c < N ==> u.flat@[i * N + c] == tiles@[i][c]
            &&& u.cfg.block_dim == (16u32, 16u32, 1u32)
            &&& u.cfg.grid_dim == (
                ceil_div(largest(tiles@, 2, tiles@.len()), 16) as u32,
                ceil_div(largest(tiles@, 3, tiles@.len()), 16) as u32,
                tiles@.len() as u32,
            )
        },
{
    let n: usize = tiles.len();
    if n == 0 {
        return None;
    }
    let width: usize = N;
    let mut flat: Vec<u32> = Vec::new();
    let mut max_tw: u32 = 0;
    let mut max_th: u32 = 0;
    let mut i: usize = 0;
    while i < n
        invariant
            n == tiles@.len(),
            width == N,
            4 <= N,
            i <= n,
            flat@.len() == i * N,
            max_tw == largest(tiles@, 2, i as nat),
            max_th == largest(tiles@, 3, i as nat),
            forall|k: int, c: int|
                #![trigger tiles@[k][c]]
                0 <= k < i && 0 <= c < N ==> flat@[k * N + c] == tiles@[k][c],
        decreases n - i,
    {
        let t: [u32; N] = tiles[i];
        let ghost before = flat@;
        let mut c: usize = 0;
        while c < width
            invariant
                width == N,
                c <= width,
                t == tiles@[i as int],
                before.len() == i * N,
                flat@.len() == i * N + c,
                forall|k: int| 0 <= k < before.len() ==> #[trigger] flat@[k] == before[k],
                forall|k: int| 0 <= k < c ==> flat@[i * N + k] == #[trigger] t[k],
            decreases width - c,
        {
            flat.push(t[c]);
            c = c + 1;
        }
        proof {
            assert((i + 1) * N == i * N + N) by (nonlinear_arith);
            assert forall|k: int, d: int|
                #![trigger tiles@[k][d]]
                0 <= k < i + 1 && 0 <= d < N implies flat@[k * N + d] == tiles@[k][d] by {
                if k < i {
                    assert(k * N + N <= i * N) by (nonlinear_arith)
                        requires
                            k + 1 <= i,
                    ;
                    assert(k * N >= 0) by (nonlinear_arith)
                        requires
                            k >= 0,
                    ;
                    assert(flat@[k * N + d] == before[k * N + d]);
                } else {
                    assert(t[d] == tiles@[k][d]);
                }
            }
        }
        if t[2] > max_tw {
            max_tw = t[2];
        }
        if t[3] > max_th {
            max_th = t[3];
        }
        i = i + 1;
    }
    let across: u64 = (max_tw as u64 + 15) / 16;
    let down: u64 = (max_th as u64 + 15) / 16;
    let cfg = LaunchGrid {
        block_dim: (16, 16, 1),
        grid_dim: (across as u32, down as u32, n as u32),
    };
    Some(TileUpload { flat, cfg })
}

/// Every tile of the batch fits into its layer of blocks.
pub proof fn law_every_tile_fits_its_layer<const N: usize>(tiles: Seq<[u32; N]>, c: int, n: nat, i: int)
    requires
        0 <= i < n <= tiles.len(),
    ensures
        tiles[i][c] <= largest(tiles, c, n),
        tiles[i][c] <= ceil_div(largest(tiles, c, n), 16) * 16,
    decreases n,
{
    if i < n - 1 {
        law_every_tile_fits_its_layer(tiles, c, (n - 1) as nat, i);
    }
}

/// Dividing with rounding up gives the smallest number of parts that is enough.
pub proof fn law_rounding_up_is_just_enough(n: int, d: int)
    requires
        0 <= n,
        0 < d,
    ensures
        n <= ceil_div(n, d) * d,
        (ceil_div(n, d) - 1) * d < n,
{
    let q = ceil_div(n, d);
    vstd::arithmetic::div_mod::lemma_fundamental_div_mod(n + d - 1, d);
    assert(d * q == q * d) by (nonlinear_arith);
    assert((q - 1) * d == q * d - d) by (nonlinear_arith);
}

/// The side of the square is the smallest power of two that is enough: no power of two
/// below it is, and it is at least as long as both sides of the frame and one.
pub proof fn law_side_is_the_smallest_power_that_is_enough(dim: int, w: u32, h: u32, e: nat)
    requires
        is_next_power(dim, longest(w, h)),
    ensures
        exists|k: nat| dim == #[trigger] pow2(k),
        w <= dim && h <= dim && 1 <= dim,
        w <= pow2(e) && h <= pow2(e) && 1 <= pow2(e) ==> dim <= pow2(e),
{
    let k = choose|k: nat| dim == #[trigger] pow2(k);
    vstd::arithmetic::power2::lemma2_to64();
    if pow2(e) < dim {
        if k <= e {
            if k < e {
                vstd::arithmetic::power2::lemma_pow2_strictly_increases(k, e);
            }
        } else {
            vstd::arithmetic::power2::lemma_pow2_unfold(k);
            if e + 1 < k {
                vstd::arithmetic::power2::lemma_pow2_strictly_increases(e, (k - 1) as nat);
            }
            vstd::arithmetic::power2::lemma_pow2_pos(e);
        }
    }
}

/// The largest entry is the entry of some tile, unless all are zero or there are none.
pub proof fn law_largest_entry_is_one_of_them<const N: usize>(tiles: Seq<[u32; N]>, c: int, n: nat)
    requires
        n <= tiles.len(),
    ensures
        largest(tiles, c, n) == 0 || exists|i: int|
            0 <= i < n && largest(tiles, c, n) == #[trigger] tiles[i][c],
    decreases n,
{
    if n > 0 {
        law_largest_entry_is_one_of_them(tiles, c, (n - 1) as nat);
        if largest(tiles, c, n) != 0 && largest(tiles, c, n) == largest(
            tiles,
            c,
            (n - 1) as nat,
        ) {
            let i = choose|i: int|
                0 <= i < n - 1 && largest(tiles, c, (n - 1) as nat) == #[trigger] tiles[i][c];
            assert(largest(tiles, c, n) == tiles[i][c]);
        }
    }
}

} // verus!
