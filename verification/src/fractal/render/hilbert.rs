//! Tiled rendering with pixels visited in Hilbert-curve order within each tile,
//! so that pixels computed one after the other also lie next to each other.

use vstd::arithmetic::div_mod::{lemma_div_denominator, lemma_fundamental_div_mod, lemma_fundamental_div_mod_converse, lemma_mod_breakdown};
use vstd::arithmetic::power2::{lemma_pow2_unfold, pow2};
use crate::fractal::fractal::{has_frame, IterBuf};
use crate::func::{evaluate, is_function, par_map};
use crate::grid::{at, band_height, in_frame, is_picture, join_bands, lemma_index_in_frame, lemma_index_injective, sampled};
use crate::gui::viewport::Viewport;
use vstd::prelude::*;

verus! {

/// Side length of one Hilbert-ordered tile, in pixels.
pub const TILE: usize = 64;

/// Order of the curve: two to this power is the side length of a tile.
pub const ORDER: u32 = 6;

/// Two to the power `k`: the side of the square that the curve of order `k` fills.
pub open spec fn side(k: nat) -> nat
    decreases k,
{
    if k == 0 {
        1
    } else {
        2 * side((k - 1) as nat)
    }
}

/// Four to the power `k`: the number of points on the curve of order `k`.
pub open spec fn area(k: nat) -> nat
    decreases k,
{
    if k == 0 {
        1
    } else {
        4 * area((k - 1) as nat)
    }
}

/// Places the point `p` of a curve that fills a square of side `s` into the
/// quadrant `q` of the square of side `2 * s`. The first quadrant is transposed
/// and the last one reflected in the other diagonal, which is what joins the
/// four curves end to end.
pub open spec fn place(q: int, s: int, p: (int, int)) -> (int, int) {
    if q == 0 {
        (p.1, p.0)
    } else if q == 1 {
        (p.0, s + p.1)
    } else if q == 2 {
        (s + p.0, s + p.1)
    } else {
        (s + (s - 1 - p.1), s - 1 - p.0)
    }
}

/// The point at distance `d` along the Hilbert curve of order `k`: the leading
/// base-four digit of `d` picks the quadrant, the other digits the point in it.
pub open spec fn hilbert(k: nat, d: int) -> (int, int)
    decreases k,
{
    if k == 0 {
        (0, 0)
    } else {
        let n = area((k - 1) as nat) as int;
        place(d / n, side((k - 1) as nat) as int, hilbert((k - 1) as nat, d % n))
    }
}

/// The distance along the curve of order `k` at which it passes through `p`.
pub open spec fn position(k: nat, p: (int, int)) -> int
    decreases k,
{
    if k == 0 {
        0
    } else {
        let s = side((k - 1) as nat) as int;
        let n = area((k - 1) as nat) as int;
        let j = (k - 1) as nat;
        if p.0 < s && p.1 < s {
            position(j, (p.1, p.0))
        } else if p.0 < s {
            n + position(j, (p.0, p.1 - s))
        } else if p.1 >= s {
            2 * n + position(j, (p.0 - s, p.1 - s))
        } else {
            3 * n + position(j, (s - 1 - p.1, 2 * s - 1 - p.0))
        }
    }
}

/// `p` is a point of the square of side `side(k)`.
pub open spec fn in_square(k: nat, p: (int, int)) -> bool {
    0 <= p.0 < side(k) && 0 <= p.1 < side(k)
}

proof fn lemma_sizes(k: nat)
    ensures
        side(k) >= 1,
        area(k) >= 1,
    decreases k,
{
    if k > 0 {
        lemma_sizes((k - 1) as nat);
    }
}

proof fn lemma_digit(d: int, n: int, q: int, r: int)
    requires
        n > 0,
        0 <= r < n,
        d == q * n + r,
    ensures
        d / n == q,
        d % n == r,
{
    lemma_fundamental_div_mod_converse(d, n, q, r);
}

proof fn lemma_split(d: int, n: int)
    requires
        n > 0,
        0 <= d < 4 * n,
    ensures
        0 <= d / n < 4,
        0 <= d % n < n,
        d == (d / n) * n + d % n,
{
    lemma_fundamental_div_mod(d, n);
    let q = d / n;
    assert(n * q == q * n) by (nonlinear_arith);
    assert(0 <= q < 4) by (nonlinear_arith)
        requires
            q * n <= d < 4 * n,
            d - q * n < n,
            d >= 0,
            n > 0,
    ;
}

/// The curve stays inside its square.
pub proof fn law_curve_stays_inside(k: nat, d: int)
    requires
        0 <= d < area(k),
    ensures
        in_square(k, hilbert(k, d)),
    decreases k,
{
    if k > 0 {
        let n = area((k - 1) as nat) as int;
        lemma_sizes((k - 1) as nat);
        lemma_split(d, n);
        law_curve_stays_inside((k - 1) as nat, d % n);
    }
}

/// The curve passes through each of its points once: the distance of a point
/// leads back from the point.
pub proof fn law_curve_never_revisits(k: nat, d: int)
    requires
        0 <= d < area(k),
    ensures
        position(k, hilbert(k, d)) == d,
    decreases k,
{
    if k > 0 {
        let n = area((k - 1) as nat) as int;
        lemma_sizes((k - 1) as nat);
        lemma_split(d, n);
        law_curve_stays_inside((k - 1) as nat, d % n);
        law_curve_never_revisits((k - 1) as nat, d % n);
        let q = d / n;
        assert(q == 0 || q == 1 || q == 2 || q == 3);
        assert(0 * n == 0 && 1 * n == n);
    }
}

/// The curve covers its square: every point of the square lies on it.
pub proof fn law_curve_covers_square(k: nat, p: (int, int))
    requires
        in_square(k, p),
    ensures
        0 <= position(k, p) < area(k),
        hilbert(k, position(k, p)) == p,
    decreases k,
{
    if k > 0 {
        let j = (k - 1) as nat;
        let s = side(j) as int;
        let n = area(j) as int;
        lemma_sizes(j);
        if p.0 < s && p.1 < s {
            law_curve_covers_square(j, (p.1, p.0));
            lemma_digit(position(k, p), n, 0, position(j, (p.1, p.0)));
        } else if p.0 < s {
            law_curve_covers_square(j, (p.0, p.1 - s));
            lemma_digit(position(k, p), n, 1, position(j, (p.0, p.1 - s)));
        } else if p.1 >= s {
            law_curve_covers_square(j, (p.0 - s, p.1 - s));
            lemma_digit(position(k, p), n, 2, position(j, (p.0 - s, p.1 - s)));
        } else {
            law_curve_covers_square(j, (s - 1 - p.1, 2 * s - 1 - p.0));
            lemma_digit(position(k, p), n, 3, position(j, (s - 1 - p.1, 2 * s - 1 - p.0)));
        }
    }
}

proof fn lemma_curve_ends(k: nat)
    ensures
        hilbert(k, 0) == (0int, 0int),
        hilbert(k, area(k) - 1) == (side(k) - 1, 0int),
    decreases k,
{
    if k > 0 {
        let j = (k - 1) as nat;
        let n = area(j) as int;
        lemma_sizes(j);
        lemma_curve_ends(j);
        lemma_digit(0, n, 0, 0);
        lemma_digit(area(k) - 1, n, 3, n - 1);
    }
}

/// `a` and `b` share an edge.
pub open spec fn adjacent(a: (int, int), b: (int, int)) -> bool {
    ||| a.0 == b.0 && (a.1 == b.1 + 1 || b.1 == a.1 + 1)
    ||| a.1 == b.1 && (a.0 == b.0 + 1 || b.0 == a.0 + 1)
}

/// The curve is continuous: each step goes to a neighbouring point.
pub proof fn law_curve_is_continuous(k: nat, d: int)
    requires
        0 <= d,
        d + 1 < area(k),
    ensures
        adjacent(hilbert(k, d), hilbert(k, d + 1)),
    decreases k,
{
    if k > 0 {
        let j = (k - 1) as nat;
        let n = area(j) as int;
        let q = d / n;
        let r = d % n;
        lemma_sizes(j);
        lemma_split(d, n);
        if r + 1 < n {
            lemma_digit(d + 1, n, q, r + 1);
            law_curve_is_continuous(j, r);
        } else {
            assert((q + 1) * n == q * n + n) by (nonlinear_arith);
            lemma_digit(d + 1, n, q + 1, 0);
            lemma_curve_ends(j);
            assert(q < 3) by (nonlinear_arith)
                requires
                    (q + 1) * n < 4 * n,
                    n > 0,
            ;
        }
    }
}

/// The first `j` base-four digits of `d`, read as a distance, lie on the curve
/// of order `j`; one more digit places that curve in a quadrant.
proof fn lemma_next_digit(d: int, j: nat)
    requires
        d >= 0,
    ensures
        (d / area(j) as int) / 4 == d / area(j + 1) as int,
        hilbert(j + 1, d % area(j + 1) as int) == place(
            (d / area(j) as int) % 4,
            side(j) as int,
            hilbert(j, d % area(j) as int),
        ),
{
    let n = area(j) as int;
    lemma_sizes(j);
    assert(area(j + 1) == 4 * area(j));
    lemma_div_denominator(d, n, 4);
    lemma_mod_breakdown(d, n, 4);
    let e = d % (n * 4);
    let q = (d / n) % 4;
    assert(n * q == q * n) by (nonlinear_arith);
    assert(n * 4 == area(j + 1));
    lemma_fundamental_div_mod(d, n);
    lemma_digit(e, n, q, d % n);
}

/// Maps a linear index `d` along the curve that fills one tile to its `(x, y)`
/// position within the tile. Indices that agree modulo the number of points on
/// the curve lead to the same position.
pub fn hilbert_d_to_xy(d: usize) -> (p: (u32, u32))
    ensures
        (p.0 as int, p.1 as int) == hilbert(ORDER as nat, d as int % (TILE * TILE) as int),
        p.0 < TILE,
        p.1 < TILE,
{
    let start: u32 = d as u32;
    let mut t: u32 = start;
    let mut x: u32 = 0;
    let mut y: u32 = 0;
    let mut s: u32 = 1;
    let ghost mut j: nat = 0;
    proof {
        assert(start % 4096 == d % 4096) by (bit_vector)
            requires
                start == d as u32,
        ;
        assert(1u32 << 6u32 == 64u32) by (bit_vector);
        assert(area(0) == 1 && side(0) == 1);
        assert(start as int / 1 == start);
    }
    while s < (1u32 << ORDER)
        invariant
            j <= 6,
            s == side(j),
            t == start as int / area(j) as int,
            (x as int, y as int) == hilbert(j, start as int % area(j) as int),
            x < s,
            y < s,
            s < 64 ==> j < 6,
            s >= 64 ==> j == 6 && s == 64,
            1u32 << ORDER == 64,
        decreases 6 - j,
    {
        let rx: u32 = 1 & (t / 2);
        let ry: u32 = 1 & (t ^ rx);
        let ghost q = t % 4;
        proof {
            assert(rx == (t / 2) % 2 && ry == (t % 2 + (t / 2) % 2) % 2) by (bit_vector)
                requires
                    rx == 1 & (t / 2),
                    ry == 1 & (t ^ rx),
            ;
            lemma_next_digit(start as int, j);
            lemma_sizes(j);
            assert(s * 1 == s && s * 0 == 0);
        }
        if ry == 0 {
            if rx == 1 {
                x = (s - 1) - x;
                y = (s - 1) - y;
            }
            let swapped: u32 = x;
            x = y;
            y = swapped;
        }
        x = x + s * rx;
        y = y + s * ry;
        t = t / 4;
        s = s * 2;
        proof {
            reveal_with_fuel(side, 8);
            j = j + 1;
        }
    }
    proof {
        reveal_with_fuel(area, 8);
    }
    (x, y)
}

/// The same position under the curve's customary name.
pub fn d2xy(d: usize) -> (p: (u32, u32))
    ensures
        (p.0 as int, p.1 as int) == hilbert(ORDER as nat, d as int % (TILE * TILE) as int),
        p.0 < TILE,
        p.1 < TILE,
{
    hilbert_d_to_xy(d)
}

/// `order` lists the points of a tile along the curve.
pub open spec fn is_tile_order(order: Seq<(u32, u32)>) -> bool {
    &&& order.len() == TILE * TILE
    &&& forall|d: int|
        0 <= d < TILE * TILE ==> (
            #[trigger] order[d].0 as int,
            order[d].1 as int,
        ) == hilbert(ORDER as nat, d)
}

/// The positions of one tile in the order in which the curve visits them.
pub fn tile_order() -> (order: Vec<(u32, u32)>)
    ensures
        is_tile_order(order@),
{
    let mut order: Vec<(u32, u32)> = Vec::new();
    let mut d: usize = 0;
    while d < TILE * TILE
        invariant
            d <= TILE * TILE,
            order@.len() == d,
            forall|k: int|
                0 <= k < d ==> (#[trigger] order@[k].0 as int, order@[k].1 as int) == hilbert(
                    ORDER as nat,
                    k,
                ),
        decreases TILE * TILE - d,
    {
        order.push(hilbert_d_to_xy(d));
        d = d + 1;
    }
    order
}

/// The traversal visits every position of the tile, and none twice.
pub proof fn law_tile_order_is_a_permutation(order: Seq<(u32, u32)>)
    requires
        is_tile_order(order),
    ensures
        forall|d: int| 0 <= d < order.len() ==> (#[trigger] order[d]).0 < TILE && order[d].1 < TILE,
        forall|c: int, d: int|
            0 <= c < d < order.len() ==> #[trigger] order[c] != #[trigger] order[d],
        forall|x: u32, y: u32|
            x < TILE && y < TILE ==> #[trigger] order.contains((x, y)),
{
    reveal_with_fuel(side, 8);
    reveal_with_fuel(area, 8);
    assert forall|d: int| 0 <= d < order.len() implies (#[trigger] order[d]).0 < TILE && order[d].1
        < TILE by {
        law_curve_stays_inside(6, d);
        assert((order[d].0 as int, order[d].1 as int) == hilbert(6, d));
    }
    assert forall|c: int, d: int| 0 <= c < d < order.len() implies #[trigger] order[c]
        != #[trigger] order[d] by {
        law_curve_never_revisits(6, c);
        law_curve_never_revisits(6, d);
    }
    assert forall|x: u32, y: u32| x < TILE && y < TILE implies #[trigger] order.contains(
        (x, y),
    ) by {
        let p = (x as int, y as int);
        law_curve_covers_square(6, p);
        let d = position(6, p);
        assert((order[d].0 as int, order[d].1 as int) == hilbert(6, d));
        assert(order[d] == (x, y));
    }
}

/// Fills one band of rows, tile by tile from left to right.
fn tiled_band<F: Fn((usize, usize)) -> u32>(
    w: usize,
    y0: usize,
    band_h: usize,
    order: &Vec<(u32, u32)>,
    sample: &F,
) -> (band: Vec<u32>)
    requires
        is_function(*sample),
        is_tile_order(order@),
        band_h <= TILE,
        y0 + band_h <= usize::MAX,
        band_h * w <= usize::MAX,
    ensures
        band@.len() == band_h * w,
        forall|x: int, y: int|
            in_frame(w as int, band_h as int, x, y) ==> #[trigger] at(band@, w as int, x, y)
                == sampled(*sample, x, y0 + y),
{
    let mut band: Vec<u32> = vec![0u32; band_h * w];
    let mut tx0: usize = 0;
    let ghost wi = w as int;
    let ghost bh = band_h as int;
    while tx0 < w
        invariant
            is_function(*sample),
            is_tile_order(order@),
            band_h <= TILE,
            band_h * w <= usize::MAX,
            bh == band_h,
            wi == w,
            y0 + band_h <= usize::MAX,
            tx0 <= w,
            band@.len() == band_h * w,
            forall|x: int, y: int|
                in_frame(wi, bh, x, y) && x < tx0 ==> #[trigger] at(band@, wi, x, y) == sampled(
                    *sample,
                    x,
                    y0 + y,
                ),
        decreases w - tx0,
    {
        let tile_w: usize = if w - tx0 < TILE {
            w - tx0
        } else {
            TILE
        };
        let mut d: usize = 0;
        proof {
            reveal_with_fuel(side, 8);
            assert forall|x: int, y: int|
                in_frame(wi, bh, x, y) && tx0 <= x < tx0 + tile_w implies #[trigger] position(
                6,
                (x - tx0, y),
            ) >= 0 by {
                law_curve_covers_square(6, (x - tx0, y));
            }
        }
        while d < order.len()
            invariant
                is_function(*sample),
                is_tile_order(order@),
                band_h <= TILE,
                band_h * w <= usize::MAX,
                bh == band_h,
                wi == w,
                y0 + band_h <= usize::MAX,
                tx0 + tile_w <= w,
                tile_w <= TILE,
                d <= TILE * TILE,
                band@.len() == band_h * w,
                forall|x: int, y: int|
                    in_frame(wi, bh, x, y) && x < tx0 ==> #[trigger] at(band@, wi, x, y) == sampled(
                        *sample,
                        x,
                        y0 + y,
                    ),
                forall|x: int, y: int|
                    in_frame(wi, bh, x, y) && tx0 <= x < tx0 + tile_w && position(
                        6,
                        (x - tx0, y),
                    ) < d ==> #[trigger] at(band@, wi, x, y) == sampled(*sample, x, y0 + y),
            decreases TILE * TILE - d,
        {
            let lx: usize = order[d].0 as usize;
            let ly: usize = order[d].1 as usize;
            proof {
                reveal_with_fuel(area, 8);
                law_curve_never_revisits(6, d as int);
                assert((order@[d as int].0 as int, order@[d as int].1 as int) == hilbert(
                    6,
                    d as int,
                ));
                assert forall|x: int, y: int|
                    in_frame(wi, bh, x, y) && tx0 <= x < tx0 + tile_w && #[trigger] position(
                        6,
                        (x - tx0, y),
                    ) == d implies x - tx0 == lx && y == ly by {
                    reveal_with_fuel(side, 8);
                    law_curve_covers_square(6, (x - tx0, y));
                }
            }
            if lx < tile_w && ly < band_h {
                let x: usize = tx0 + lx;
                let ghost before = band@;
                proof {
                    lemma_index_in_frame(wi, bh, x as int, ly as int);
                    assert(wi * bh == bh * wi) by (nonlinear_arith);
                }
                band.set(ly * w + x, evaluate(sample, (x, y0 + ly)));
                proof {
                    assert forall|u: int, v: int|
                        in_frame(wi, bh, u, v) && (u != x || v != ly) implies #[trigger] at(
                        band@,
                        wi,
                        u,
                        v,
                    ) == at(before, wi, u, v) by {
                        lemma_index_in_frame(wi, bh, u, v);
                        if v * wi + u == ly * wi + x {
                            lemma_index_injective(wi, u, v, x as int, ly as int);
                        }
                    }
                    assert(at(band@, wi, x as int, ly as int) == sampled(
                        *sample,
                        x as int,
                        y0 + ly,
                    ));
                }
            }
            d = d + 1;
        }
        proof {
            reveal_with_fuel(side, 8);
            reveal_with_fuel(area, 8);
            assert forall|x: int, y: int|
                in_frame(wi, bh, x, y) && tx0 <= x < tx0 + tile_w implies #[trigger] at(
                band@,
                wi,
                x,
                y,
            ) == sampled(*sample, x, y0 + y) by {
                law_curve_covers_square(6, (x - tx0, y));
            }
        }
        tx0 = tx0 + tile_w;
    }
    band
}

/// Renders the frame of `vp` as a grid of tiles, with the pixels inside each
/// tile visited along the curve. Bands of [`TILE`] rows are spread over the
/// thread pool.
pub fn render_tiled<F: Fn((usize, usize)) -> u32 + Sync>(vp: &Viewport, sample: &F) -> (buf: IterBuf)
    requires
        has_frame(*vp),
        is_function(*sample),
    ensures
        is_picture(buf@, vp.width as int, vp.height as int, *sample),
{
    let w: usize = vp.width as usize;
    let h: usize = vp.height as usize;
    let order = tile_order();
    let n: usize = if h % TILE == 0 {
        h / TILE
    } else {
        h / TILE + 1
    };
    let band = |b: usize| -> (r: Vec<u32>)
        requires
            b < n,
        ensures
            r@.len() == band_height(h as int, TILE as int, b as int) * w,
            forall|x: int, y: int|
                in_frame(w as int, band_height(h as int, TILE as int, b as int), x, y)
                    ==> #[trigger] at(r@, w as int, x, y) == sampled(*sample, x, b * TILE + y),
        {
            let y0: usize = b * TILE;
            let band_h: usize = if h - y0 < TILE {
                h - y0
            } else {
                TILE
            };
            proof {
                assert(band_h * w <= h * w) by (nonlinear_arith)
                    requires
                        band_h <= h,
                ;
                assert(h * w == w * h) by (nonlinear_arith);
            }
            tiled_band(w, y0, band_h, &order, sample)
        };
    let bands = par_map(n, &band);
    proof {
        assert forall|b: int| 0 <= b < n implies (#[trigger] bands@[b])@.len() == band_height(
            h as int,
            TILE as int,
            b,
        ) * w && (forall|x: int, y: int|
            in_frame(w as int, band_height(h as int, TILE as int, b), x, y) ==> #[trigger] at(
                bands@[b]@,
                w as int,
                x,
                y,
            ) == sampled(*sample, x, b * TILE + y)) by {
            assert(call_ensures(band, (b as usize,), bands@[b]));
        }
    }
    let buf = join_bands(&bands, w, h, TILE);
    proof {
        assert forall|x: int, y: int| in_frame(w as int, h as int, x, y) implies #[trigger] at(
            buf@,
            w as int,
            x,
            y,
        ) == sampled(*sample, x, y) by {
            let b = y / TILE as int;
            assert(in_frame(w as int, band_height(h as int, TILE as int, b), x, y % TILE as int));
            assert(at(bands@[b]@, w as int, x, y % TILE as int) == sampled(
                *sample,
                x,
                b * TILE + y % TILE as int,
            ));
        }
    }
    buf
}

/// A curve is four curves of half the side end to end: the first one transposed,
/// the next two as they are in the quadrants above and above to the right, and the
/// last one reflected in the other diagonal, to the right. The sides are powers of
/// two, and a curve has as many points as its square.
pub proof fn law_curve_is_four_smaller_curves(k: nat, d: int)
    requires
        0 <= d < area(k),
    ensures
        hilbert(0, 0) == (0int, 0int),
        side(k) == pow2(k),
        area(k) == side(k) * side(k),
        ({
            let s = side(k) as int;
            let n = area(k) as int;
            let (x, y) = hilbert(k, d);
            &&& hilbert(k + 1, d) == (y, x)
            &&& hilbert(k + 1, n + d) == (x, s + y)
            &&& hilbert(k + 1, 2 * n + d) == (s + x, s + y)
            &&& hilbert(k + 1, 3 * n + d) == (2 * s - 1 - y, s - 1 - x)
        }),
{
    let n = area(k) as int;
    lemma_sizes(k);
    lemma_digit(d, n, 0, d);
    lemma_digit(n + d, n, 1, d);
    lemma_digit(2 * n + d, n, 2, d);
    lemma_digit(3 * n + d, n, 3, d);
    lemma_side_is_a_power(k);
}

proof fn lemma_side_is_a_power(k: nat)
    ensures
        side(k) == pow2(k),
        area(k) == side(k) * side(k),
    decreases k,
{
    if k > 0 {
        let j = (k - 1) as nat;
        lemma_side_is_a_power(j);
        lemma_pow2_unfold(k);
        assert((2 * side(j)) * (2 * side(j)) == 4 * (side(j) * side(j))) by (nonlinear_arith);
    } else {
        vstd::arithmetic::power2::lemma2_to64();
    }
}

/// A curve starts in the corner at the origin and ends in the next corner to the
/// right, and an order of a tile runs along it from one to the other.
pub proof fn law_curve_runs_from_corner_to_corner(k: nat)
    ensures
        hilbert(k, 0) == (0int, 0int),
        hilbert(k, area(k) - 1) == (side(k) - 1, 0int),
{
    lemma_curve_ends(k);
}

/// In the order of a tile each position lies next to the one before it.
pub proof fn law_tile_order_goes_from_neighbor_to_neighbor(order: Seq<(u32, u32)>, d: int)
    requires
        is_tile_order(order),
        0 <= d < 4095,
    ensures
        order.len() == 4096,
        order[0] == (0u32, 0u32),
        order[4095] == (63u32, 0u32),
        ({
            let a = order[d];
            let b = order[d + 1];
            ||| a.0 == b.0 && (a.1 == b.1 + 1 || b.1 == a.1 + 1)
            ||| a.1 == b.1 && (a.0 == b.0 + 1 || b.0 == a.0 + 1)
        }),
{
    reveal_with_fuel(side, 8);
    reveal_with_fuel(area, 8);
    lemma_curve_ends(6);
    law_curve_is_continuous(6, d);
    assert((order[0].0 as int, order[0].1 as int) == hilbert(6, 0));
    assert((order[4095].0 as int, order[4095].1 as int) == hilbert(6, 4095));
    assert((order[d].0 as int, order[d].1 as int) == hilbert(6, d));
    assert((order[d + 1].0 as int, order[d + 1].1 as int) == hilbert(6, d + 1));
}

} // verus!
