//! The counters of the benchmark.

use crate::float_bits::{law_counts_are_finite, law_small_counts_are_exact, single_floor, single_ge, single_ge_spec, single_is_nan_spec, single_key, single_lt, single_lt_spec, single_max, single_max_spec, single_min, single_min_spec, single_of, single_to_u32, single_to_u64, u32_to_single};
use crate::fractal::fractal::next_cap;
use crate::func::{evaluate, is_function, value_of};
use crate::gui::viewport::Viewport;
use vstd::arithmetic::power2::pow2;
use vstd::prelude::*;

verus! {

/// One hundredth as a single: a difference above it is counted.
pub const SINGLE_HUNDREDTH: u32 = 0x3c23_d70a;

/// The renderers that a CPU benchmark chooses from.
#[derive(Clone, Copy, Debug, PartialEq, Eq, Structural)]
pub enum CpuRender {
    PerturbationSeries,
    Perturbation,
    Plain,
}

/// The renderer that the flags ask for. The series is one of perturbation.
pub fn cpu_render(perturbation: bool, use_sa: bool) -> (r: CpuRender)
    ensures
        r == (if perturbation && use_sa {
            CpuRender::PerturbationSeries
        } else if perturbation {
            CpuRender::Perturbation
        } else {
            CpuRender::Plain
        }),
{
    if perturbation && use_sa {
        CpuRender::PerturbationSeries
    } else if perturbation {
        CpuRender::Perturbation
    } else {
        CpuRender::Plain
    }
}

impl CpuRender {
    /// What the renderer is called in a report.
    pub fn label(self) -> (r: &'static str)
        ensures
            r@ == match self {
                CpuRender::PerturbationSeries => "cpu+perturb+sa"@,
                CpuRender::Perturbation => "cpu+perturb"@,
                CpuRender::Plain => "cpu"@,
            },
    {
        match self {
            CpuRender::PerturbationSeries => "cpu+perturb+sa",
            CpuRender::Perturbation => "cpu+perturb",
            CpuRender::Plain => "cpu",
        }
    }
}

/// The iterations of a pixel: whole ones, at most the limit.
pub open spec fn pixel_iters(v: u32, max_iter: u32) -> nat {
    let f = single_floor(single_min_spec(v, single_of(max_iter)));
    if f <= u64::MAX {
        f
    } else {
        u64::MAX as nat
    }
}

/// The iterations of the first `n` pixels.
pub open spec fn sum_iters(buf: Seq<u32>, max_iter: u32, n: nat) -> nat
    decreases n,
{
    if n == 0 {
        0
    } else {
        sum_iters(buf, max_iter, (n - 1) as nat) + pixel_iters(buf[n - 1], max_iter)
    }
}

proof fn lemma_sum_grows(buf: Seq<u32>, max_iter: u32, a: nat, b: nat)
    requires
        a <= b,
    ensures
        sum_iters(buf, max_iter, a) <= sum_iters(buf, max_iter, b),
    decreases b - a,
{
    if a < b {
        lemma_sum_grows(buf, max_iter, a, (b - 1) as nat);
    }
}

/// The iterations of a whole frame.
pub fn total_iters(buf: &Vec<u32>, max_iter: u32) -> (r: u64)
    requires
        sum_iters(buf@, max_iter, buf@.len()) <= u64::MAX,
    ensures
        r == sum_iters(buf@, max_iter, buf@.len()),
{
    let limit: u32 = u32_to_single(max_iter);
    let mut total: u64 = 0;
    let mut i: usize = 0;
    while i < buf.len()
        invariant
            limit == single_of(max_iter),
            sum_iters(buf@, max_iter, buf@.len()) <= u64::MAX,
            i <= buf@.len(),
            total == sum_iters(buf@, max_iter, i as nat),
        decreases buf@.len() - i,
    {
        proof {
            lemma_sum_grows(buf@, max_iter, (i + 1) as nat, buf@.len());
        }
        total = total + single_to_u64(single_min(buf[i], limit));
        i = i + 1;
    }
    total
}

/// The differences of the first `n` pixels of two frames: the largest, their sum,
/// and how many are above one hundredth.
pub open spec fn diffs<D: Fn((u32, u32)) -> u32, A: Fn((u64, u32)) -> u64>(
    a: Seq<u32>,
    b: Seq<u32>,
    n: nat,
    diff: D,
    accumulate: A,
) -> (u32, u64, nat)
    decreases n,
{
    if n == 0 {
        (0, 0, 0)
    } else {
        let rest = diffs(a, b, (n - 1) as nat, diff, accumulate);
        let d = value_of(diff, (a[n - 1], b[n - 1]));
        (
            single_max_spec(rest.0, d),
            value_of(accumulate, (rest.1, d)),
            rest.2 + (if single_lt_spec(SINGLE_HUNDREDTH, d) {
                1nat
            } else {
                0nat
            }),
        )
    }
}

/// How two frames differ: the largest difference (a single), the mean (a double,
/// zero for frames without pixels), and how many differences are above one
/// hundredth. `diff` answers the difference of two values, `accumulate` a sum with
/// one more difference in it, and `mean` the quotient of a sum and a count.
pub fn pixel_diff_stats<
    D: Fn((u32, u32)) -> u32,
    A: Fn((u64, u32)) -> u64,
    M: Fn((u64, usize)) -> u64,
>(a: &Vec<u32>, b: &Vec<u32>, diff: &D, accumulate: &A, mean: &M) -> (r: (u32, u64, u64))
    requires
        a@.len() == b@.len(),
        is_function(*diff),
        is_function(*accumulate),
        is_function(*mean),
    ensures
        ({
            let d = diffs(a@, b@, a@.len(), *diff, *accumulate);
            &&& r.0 == d.0
            &&& r.1 == (if a@.len() == 0 {
                0
            } else {
                value_of(*mean, (d.1, a@.len() as usize))
            })
            &&& r.2 == d.2
        }),
{
    let n: usize = a.len();
    let mut max_diff: u32 = 0;
    let mut sum_diff: u64 = 0;
    let mut above: u64 = 0;
    let mut i: usize = 0;
    while i < n
        invariant
            n == a@.len(),
            n == b@.len(),
            is_function(*diff),
            is_function(*accumulate),
            i <= n,
            above <= i,
            (max_diff, sum_diff, above as nat) == diffs(a@, b@, i as nat, *diff, *accumulate),
        decreases n - i,
    {
        let d: u32 = evaluate(diff, (a[i], b[i]));
        max_diff = single_max(max_diff, d);
        sum_diff = evaluate(accumulate, (sum_diff, d));
        if single_lt(SINGLE_HUNDREDTH, d) {
            above = above + 1;
        }
        i = i + 1;
    }
    let avg: u64 = if n == 0 {
        0
    } else {
        evaluate(mean, (sum_diff, n))
    };
    (max_diff, avg, above)
}

/// How many of the first `n` pixels of two frames `differs` tells apart.
pub open spec fn mismatches<D: Fn((u32, u32)) -> bool>(
    a: Seq<u32>,
    b: Seq<u32>,
    n: nat,
    differs: D,
) -> nat
    decreases n,
{
    if n == 0 {
        0
    } else {
        mismatches(a, b, (n - 1) as nat, differs) + (if value_of(differs, (a[n - 1], b[n - 1])) {
            1nat
        } else {
            0nat
        })
    }
}

/// Counts the pixels of two frames that `differs` tells apart; pixels that only
/// one of the frames has do not count.
pub fn count_mismatches<D: Fn((u32, u32)) -> bool>(a: &Vec<u32>, b: &Vec<u32>, differs: &D) -> (r:
    usize)
    requires
        is_function(*differs),
    ensures
        r == mismatches(
            a@,
            b@,
            if a@.len() < b@.len() {
                a@.len()
            } else {
                b@.len()
            },
            *differs,
        ),
{
    let n: usize = if a.len() < b.len() {
        a.len()
    } else {
        b.len()
    };
    let mut count: usize = 0;
    let mut i: usize = 0;
    while i < n
        invariant
            n <= a@.len(),
            n <= b@.len(),
            is_function(*differs),
            i <= n,
            count <= i,
            count == mismatches(a@, b@, i as nat, *differs),
        decreases n - i,
    {
        if evaluate(differs, (a[i], b[i])) {
            count = count + 1;
        }
        i = i + 1;
    }
    count
}

/// Of the first `n` pixels, row by row, how many `claimed` claims to lie inside
/// the set, and how many of those escape.
pub open spec fn claims<
    C: Fn((usize, usize)) -> bool,
    R: Fn((usize, usize)) -> u32,
>(w: int, n: nat, max_iter: u32, claimed: C, raw: R) -> (nat, nat)
    decreases n,
{
    if n == 0 {
        (0, 0)
    } else {
        let rest = claims(w, (n - 1) as nat, max_iter, claimed, raw);
        let p = (((n - 1) % w) as usize, ((n - 1) / w) as usize);
        if value_of(claimed, p) {
            (
                rest.0 + 1,
                rest.1 + (if single_lt_spec(value_of(raw, p), single_of(max_iter)) {
                    1nat
                } else {
                    0nat
                }),
            )
        } else {
            rest
        }
    }
}

/// Counts the pixels of a frame that `claimed` claims to lie inside the set, and
/// those of them for which `raw` answers a value below the limit.
pub fn bench_compare_bulb_reject<
    C: Fn((usize, usize)) -> bool,
    R: Fn((usize, usize)) -> u32,
>(width: u32, height: u32, max_iter: u32, claimed: &C, raw: &R) -> (r: (u64, u64))
    requires
        width * height <= usize::MAX,
        is_function(*claimed),
        is_function(*raw),
    ensures
        (r.0 as nat, r.1 as nat) == claims(
            width as int,
            (width * height) as nat,
            max_iter,
            *claimed,
            *raw,
        ),
{
    let limit: u32 = u32_to_single(max_iter);
    let w: usize = width as usize;
    let n: usize = w * height as usize;
    let mut checked: u64 = 0;
    let mut bad: u64 = 0;
    let mut i: usize = 0;
    while i < n
        invariant
            w == width,
            n == width * height,
            limit == single_of(max_iter),
            is_function(*claimed),
            is_function(*raw),
            i <= n,
            checked <= i,
            bad <= i,
            (checked as nat, bad as nat) == claims(
                w as int,
                i as nat,
                max_iter,
                *claimed,
                *raw,
            ),
        decreases n - i,
    {
        proof {
            assert(w > 0) by (nonlinear_arith)
                requires
                    i < w * height,
                    0 <= i,
                    w >= 0,
            ;
        }
        let p: (usize, usize) = (i % w, i / w);
        if evaluate(claimed, p) {
            checked = checked + 1;
            if single_lt(evaluate(raw, p), limit) {
                bad = bad + 1;
            }
        }
        i = i + 1;
    }
    (checked, bad)
}

/// The limit under which pixel `x` of row `y` is tried, where each limit is taken
/// from what the first try of the pixel on the left answered.
pub open spec fn tried_cap<F: Fn((usize, usize, u32)) -> u32>(
    compute: F,
    x: nat,
    y: int,
    max_iter: u32,
    slack: u32,
) -> u32
    decreases x,
{
    if x == 0 {
        max_iter
    } else {
        let cap = tried_cap(compute, (x - 1) as nat, y, max_iter, slack);
        next_cap(
            value_of(compute, ((x - 1) as usize, y as usize, cap)),
            slack,
            max_iter,
        )
    }
}

/// The first try of pixel `x` of row `y` hits its limit, which is not the full one.
pub open spec fn hits_cap<F: Fn((usize, usize, u32)) -> u32>(
    compute: F,
    x: int,
    y: int,
    max_iter: u32,
    slack: u32,
) -> bool {
    let cap = tried_cap(compute, x as nat, y, max_iter, slack);
    single_ge_spec(value_of(compute, (x as usize, y as usize, cap)), single_of(cap)) && cap
        < max_iter
}

/// How many of the first `n` pixels of row `y` hit their limit.
pub open spec fn hits_in_row<F: Fn((usize, usize, u32)) -> u32>(
    compute: F,
    n: nat,
    y: int,
    max_iter: u32,
    slack: u32,
) -> nat
    decreases n,
{
    if n == 0 {
        0
    } else {
        hits_in_row(compute, (n - 1) as nat, y, max_iter, slack) + (if hits_cap(
            compute,
            n - 1,
            y,
            max_iter,
            slack,
        ) {
            1nat
        } else {
            0nat
        })
    }
}

/// How many pixels of the first `h` rows hit their limit.
pub open spec fn hits_in_frame<F: Fn((usize, usize, u32)) -> u32>(
    compute: F,
    w: nat,
    h: nat,
    max_iter: u32,
    slack: u32,
) -> nat
    decreases h,
{
    if h == 0 {
        0
    } else {
        hits_in_frame(compute, w, (h - 1) as nat, max_iter, slack) + hits_in_row(
            compute,
            w,
            h - 1,
            max_iter,
            slack,
        )
    }
}

fn count_row_hits<F: Fn((usize, usize, u32)) -> u32>(
    compute: &F,
    w: usize,
    y: usize,
    max_iter: u32,
    slack: u32,
) -> (r: usize)
    requires
        is_function(*compute),
    ensures
        r == hits_in_row(*compute, w as nat, y as int, max_iter, slack),
        r <= w,
{
    let mut hits: usize = 0;
    let mut cap: u32 = max_iter;
    let mut x: usize = 0;
    while x < w
        invariant
            is_function(*compute),
            x <= w,
            hits <= x,
            cap == tried_cap(*compute, x as nat, y as int, max_iter, slack),
            hits == hits_in_row(*compute, x as nat, y as int, max_iter, slack),
        decreases w - x,
    {
        let guess: u32 = evaluate(compute, (x, y, cap));
        if single_ge(guess, u32_to_single(cap)) && cap < max_iter {
            hits = hits + 1;
        }
        let raised: u32 = single_to_u32(guess).saturating_add(slack);
        cap = if raised < max_iter {
            raised
        } else {
            max_iter
        };
        x = x + 1;
    }
    hits
}

/// Counts the pixels that hit the limit taken from their left neighbour, out of
/// all pixels of the frame.
pub fn count_cap_hits<F: Fn((usize, usize, u32)) -> u32>(
    vp: &Viewport,
    compute: &F,
    max_iter: u32,
    slack: u32,
) -> (r: (u64, u64))
    requires
        is_function(*compute),
        vp.width * vp.height <= usize::MAX,
    ensures
        r.0 == hits_in_frame(*compute, vp.width as nat, vp.height as nat, max_iter, slack),
        r.1 == vp.width * vp.height,
{
    let w: usize = vp.width as usize;
    let h: usize = vp.height as usize;
    let mut hits: u64 = 0;
    let mut y: usize = 0;
    while y < h
        invariant
            is_function(*compute),
            w * h <= usize::MAX,
            y <= h,
            hits <= w * y,
            hits == hits_in_frame(*compute, w as nat, y as nat, max_iter, slack),
        decreases h - y,
    {
        proof {
            assert(w * y + w == w * (y + 1)) by (nonlinear_arith);
            assert(w * (y + 1) <= w * h) by (nonlinear_arith)
                requires
                    y + 1 <= h,
            ;
        }
        hits = hits + count_row_hits(compute, w, y, max_iter, slack) as u64;
        y = y + 1;
    }
    (hits, (w * h) as u64)
}

/// How many of the first `n` pixels, row by row, `flagged` gives no value.
pub open spec fn glitches<P: Fn((usize, usize)) -> Option<u32>>(w: int, n: nat, flagged: P) -> nat
    decreases n,
{
    if n == 0 {
        0
    } else {
        glitches(w, (n - 1) as nat, flagged) + (if value_of(
            flagged,
            (((n - 1) % w) as usize, ((n - 1) / w) as usize),
        ) is None {
            1nat
        } else {
            0nat
        })
    }
}

/// Counts the pixels of a frame that `flagged` gives no value.
pub fn count_glitches<P: Fn((usize, usize)) -> Option<u32>>(vp: &Viewport, flagged: &P) -> (r: usize)
    requires
        vp.width * vp.height <= usize::MAX,
        is_function(*flagged),
    ensures
        r == glitches(vp.width as int, (vp.width * vp.height) as nat, *flagged),
{
    let w: usize = vp.width as usize;
    let h: usize = vp.height as usize;
    let n: usize = w * h;
    let mut count: usize = 0;
    let mut i: usize = 0;
    while i < n
        invariant
            n == w * h,
            is_function(*flagged),
            i <= n,
            count <= i,
            count == glitches(w as int, i as nat, *flagged),
        decreases n - i,
    {
        proof {
            assert(w > 0) by (nonlinear_arith)
                requires
                    i < w * h,
                    0 <= i,
                    w >= 0,
            ;
        }
        if evaluate(flagged, (i % w, i / w)).is_none() {
            count = count + 1;
        }
        i = i + 1;
    }
    count
}

/// The thread counts of a scaling run on `ncpus` processors: the powers of two up
/// to the largest that divides their number.
pub fn thread_counts(ncpus: usize) -> (r: Vec<usize>)
    requires
        ncpus > 0,
    ensures
        r@.len() > 0,
        forall|e: int| 0 <= e < r@.len() ==> #[trigger] r@[e] == pow2(e as nat),
        ncpus as int % r@.last() as int == 0,
        ncpus as int % (2 * r@.last()) != 0,
{
    let mut counts: Vec<usize> = Vec::new();
    counts.push(1);
    let mut last: usize = 1;
    proof {
        vstd::arithmetic::power2::lemma2_to64();
    }
    while ncpus / last % 2 == 0
        invariant
            0 < last <= ncpus,
            counts@.len() > 0,
            counts@.last() == last,
            ncpus as int % last as int == 0,
            forall|e: int| 0 <= e < counts@.len() ==> #[trigger] counts@[e] == pow2(e as nat),
        decreases ncpus - last,
    {
        proof {
            lemma_even_quotient(ncpus as int, last as int);
            vstd::arithmetic::power2::lemma_pow2_unfold(counts@.len());
            assert(counts@[counts@.len() - 1] == pow2((counts@.len() - 1) as nat));
        }
        last = last * 2;
        counts.push(last);
    }
    proof {
        lemma_odd_quotient(ncpus as int, last as int);
    }
    counts
}

proof fn lemma_even_quotient(n: int, d: int)
    requires
        0 < d <= n,
        n % d == 0,
        (n / d) % 2 == 0,
    ensures
        n % (2 * d) == 0,
        2 * d <= n,
{
    let q = n / d;
    vstd::arithmetic::div_mod::lemma_fundamental_div_mod(n, d);
    assert(n == (2 * d) * (q / 2)) by (nonlinear_arith)
        requires
            n == d * q,
            q % 2 == 0,
    ;
    assert(q >= 1) by (nonlinear_arith)
        requires
            n == d * q,
            0 < d <= n,
    ;
    assert(2 * d <= n) by (nonlinear_arith)
        requires
            n == d * q,
            q >= 2,
            d > 0,
    ;
    vstd::arithmetic::div_mod::lemma_fundamental_div_mod_converse(n, 2 * d, q / 2, 0);
}

proof fn lemma_odd_quotient(n: int, d: int)
    requires
        0 < d <= n,
        n % d == 0,
        (n / d) % 2 != 0,
    ensures
        n % (2 * d) != 0,
{
    let q = n / d;
    vstd::arithmetic::div_mod::lemma_fundamental_div_mod(n, d);
    assert(n == (2 * d) * (q / 2) + d) by (nonlinear_arith)
        requires
            n == d * q,
            q % 2 == 1,
    ;
    vstd::arithmetic::div_mod::lemma_fundamental_div_mod_converse(n, 2 * d, q / 2, d);
}

/// The rows of a frame that is shared between the CPU, which gets the upper half,
/// and a device, which gets the rest.
pub fn hybrid_split(height: u32) -> (r: (u32, u32))
    ensures
        r.0 == height / 2,
        r.0 + r.1 == height,
{
    let top: u32 = height / 2;
    (top, height - top)
}

/// A frame differs from itself nowhere, if no value differs from itself.
pub proof fn law_frame_equals_itself<D: Fn((u32, u32)) -> bool>(a: Seq<u32>, n: nat, differs: D)
    requires
        forall|v: u32| !#[trigger] value_of(differs, (v, v)),
    ensures
        mismatches(a, a, n, differs) == 0,
    decreases n,
{
    if n > 0 {
        law_frame_equals_itself(a, (n - 1) as nat, differs);
    }
}

/// The iterations of a pixel: its whole ones below the limit, and those of the limit for
/// a pixel that reached it or has no value.
pub proof fn law_pixels_count_up_to_the_limit(v: u32, max_iter: u32)
    ensures
        single_lt_spec(v, single_of(max_iter)) && single_floor(v) <= u64::MAX ==> pixel_iters(
            v,
            max_iter,
        ) == single_floor(v),
        !single_lt_spec(v, single_of(max_iter)) && single_floor(single_of(max_iter)) <= u64::MAX
            ==> pixel_iters(v, max_iter) == single_floor(single_of(max_iter)),
        max_iter < 0x100_0000 ==> single_floor(single_of(max_iter)) == max_iter,
{
    law_counts_are_finite(max_iter);
    if max_iter < 0x100_0000 {
        law_small_counts_are_exact(max_iter);
    }
    let limit = single_of(max_iter);
    if !single_lt_spec(v, limit) && !single_is_nan_spec(v) && !single_lt_spec(limit, v) {
        assert(single_key(v) == single_key(limit));
        if v != limit {
            assert(single_key(v) == 0);
        }
    }
}

/// Iterations add up: those of two frames one behind the other are those of both, and
/// those of a single pixel its own.
pub proof fn law_iterations_add_up(a: Seq<u32>, b: Seq<u32>, max_iter: u32, v: u32)
    ensures
        sum_iters(a + b, max_iter, (a + b).len()) == sum_iters(a, max_iter, a.len()) + sum_iters(
            b,
            max_iter,
            b.len(),
        ),
        sum_iters(seq![v], max_iter, 1) == pixel_iters(v, max_iter),
        sum_iters(Seq::empty(), max_iter, 0) == 0,
    decreases b.len(),
{
    reveal_with_fuel(sum_iters, 2);
    if b.len() > 0 {
        let c = b.drop_last();
        law_iterations_add_up(a, c, max_iter, v);
        lemma_sum_prefix(a + b, a + c, max_iter, (a + c).len());
        lemma_sum_prefix(b, c, max_iter, c.len());
        assert((a + b)[(a + b).len() - 1] == b[b.len() - 1]);
    } else {
        assert(a + b =~= a);
    }
}

proof fn lemma_sum_prefix(a: Seq<u32>, b: Seq<u32>, max_iter: u32, n: nat)
    requires
        n <= a.len(),
        n <= b.len(),
        forall|i: int| 0 <= i < n ==> a[i] == b[i],
    ensures
        sum_iters(a, max_iter, n) == sum_iters(b, max_iter, n),
    decreases n,
{
    if n > 0 {
        lemma_sum_prefix(a, b, max_iter, (n - 1) as nat);
    }
}

/// The places below `n` at which `p` holds.
pub open spec fn places(n: nat, p: spec_fn(int) -> bool) -> Seq<int> {
    Seq::new(n, |i: int| i).filter(p)
}

proof fn lemma_places_step(n: nat, p: spec_fn(int) -> bool)
    requires
        0 < n,
    ensures
        places(n, p).len() == places((n - 1) as nat, p).len() + (if p(n - 1) {
            1nat
        } else {
            0nat
        }),
{
    reveal(Seq::filter);
    let s = Seq::new(n, |i: int| i);
    assert(s.drop_last() =~= Seq::new((n - 1) as nat, |i: int| i));
    assert(s.last() == n - 1);
}

proof fn lemma_no_places(p: spec_fn(int) -> bool)
    ensures
        places(0, p).len() == 0,
{
    reveal(Seq::filter);
}

/// How frames differ: the differences are taken pixel by pixel. Their number above one
/// hundredth is the number of such places, none that is a number is above the largest,
/// which is one of them or zero, and they are summed up one after the other, from zero on.
pub proof fn law_differences_are_taken_pixel_by_pixel<
    D: Fn((u32, u32)) -> u32,
    A: Fn((u64, u32)) -> u64,
>(a: Seq<u32>, b: Seq<u32>, n: nat, diff: D, accumulate: A, k: int)
    requires
        0 <= k < n,
    ensures
        ({
            let all = diffs(a, b, n, diff, accumulate);
            let before = diffs(a, b, (n - 1) as nat, diff, accumulate);
            let d = |i: int| value_of(diff, (a[i], b[i]));
            &&& all.2 == places(n, |i: int| single_lt_spec(0x3c23_d70a, d(i))).len()
            &&& !single_is_nan_spec(all.0)
            &&& !single_is_nan_spec(d(k)) ==> single_ge_spec(all.0, d(k))
            &&& all.0 == 0 || exists|i: int|
                0 <= i < n && all.0 == #[trigger] value_of(diff, (a[i], b[i]))
            &&& all.1 == value_of(accumulate, (before.1, d(n - 1)))
            &&& diffs(a, b, 0, diff, accumulate) == (0u32, 0u64, 0nat)
        }),
    decreases n,
{
    let m = (n - 1) as nat;
    let p = |i: int| single_lt_spec(0x3c23_d70a, value_of(diff, (a[i], b[i])));
    let last = value_of(diff, (a[m as int], b[m as int]));
    let d = |i: int| value_of(diff, (a[i], b[i]));
    let q = |i: int| single_lt_spec(0x3c23_d70a, d(i));
    assert(p =~= q);
    lemma_places_step(n, p);
    assert(!single_is_nan_spec(0u32));
    if m > 0 {
        law_differences_are_taken_pixel_by_pixel(
            a,
            b,
            m,
            diff,
            accumulate,
            if k < m {
                k
            } else {
                0
            },
        );
        let all = diffs(a, b, n, diff, accumulate);
        let before = diffs(a, b, m, diff, accumulate);
        if all.0 != last && all.0 != 0 {
            let i = choose|i: int|
                0 <= i < m && before.0 == #[trigger] value_of(diff, (a[i], b[i]));
            assert(all.0 == value_of(diff, (a[i], b[i])));
        }
    } else {
        lemma_no_places(p);
        assert(diffs(a, b, 0, diff, accumulate) == (0u32, 0u64, 0nat));
    }
}

/// The pixels that are counted as different are those that `differs` tells apart.
pub proof fn law_mismatches_are_counted_by_place<D: Fn((u32, u32)) -> bool>(
    a: Seq<u32>,
    b: Seq<u32>,
    n: nat,
    differs: D,
)
    ensures
        mismatches(a, b, n, differs) == places(
            n,
            |i: int| value_of(differs, (a[i], b[i])),
        ).len(),
    decreases n,
{
    let p = |i: int| value_of(differs, (a[i], b[i]));
    if n > 0 {
        law_mismatches_are_counted_by_place(a, b, (n - 1) as nat, differs);
        lemma_places_step(n, p);
    } else {
        lemma_no_places(p);
    }
}

/// Claims are counted by pixel, row by row: all that are made, and of those the ones
/// whose pixel has a value below the limit.
pub proof fn law_claims_are_counted_by_pixel<
    C: Fn((usize, usize)) -> bool,
    R: Fn((usize, usize)) -> u32,
>(w: int, n: nat, max_iter: u32, claimed: C, raw: R)
    ensures
        ({
            let made = |i: int| value_of(claimed, ((i % w) as usize, (i / w) as usize));
            let wrong = |i: int|
                made(i) && single_lt_spec(
                    value_of(raw, ((i % w) as usize, (i / w) as usize)),
                    single_of(max_iter),
                );
            claims(w, n, max_iter, claimed, raw) == (places(n, made).len(), places(n, wrong).len())
        }),
    decreases n,
{
    let made = |i: int| value_of(claimed, ((i % w) as usize, (i / w) as usize));
    let wrong = |i: int|
        made(i) && single_lt_spec(
            value_of(raw, ((i % w) as usize, (i / w) as usize)),
            single_of(max_iter),
        );
    if n > 0 {
        law_claims_are_counted_by_pixel(w, (n - 1) as nat, max_iter, claimed, raw);
        lemma_places_step(n, made);
        lemma_places_step(n, wrong);
    } else {
        lemma_no_places(made);
        lemma_no_places(wrong);
    }
}

/// The limit that a pixel is tried under: the full one in the first column, and else
/// `slack` more than the whole iterations that the try of the left neighbour answered,
/// but at most the full one.
pub proof fn law_tries_follow_the_left_neighbor<F: Fn((usize, usize, u32)) -> u32>(
    compute: F,
    x: nat,
    y: int,
    max_iter: u32,
    slack: u32,
)
    requires
        0 < x,
    ensures
        tried_cap(compute, 0, y, max_iter, slack) == max_iter,
        ({
            let cap = tried_cap(compute, (x - 1) as nat, y, max_iter, slack);
            let left = single_floor(value_of(compute, ((x - 1) as usize, y as usize, cap)));
            &&& left + slack < max_iter ==> tried_cap(compute, x, y, max_iter, slack) == left
                + slack
            &&& max_iter <= left + slack ==> tried_cap(compute, x, y, max_iter, slack) == max_iter
        }),
{
}

/// A hit is a try under a lower limit that reaches this limit. The hits of a row are
/// counted by column, and those of a frame row by row.
pub proof fn law_hits_are_counted_by_pixel<F: Fn((usize, usize, u32)) -> u32>(
    compute: F,
    n: nat,
    h: nat,
    y: int,
    max_iter: u32,
    slack: u32,
)
    ensures
        hits_in_row(compute, n, y, max_iter, slack) == places(
            n,
            |x: int|
                {
                    let cap = tried_cap(compute, x as nat, y, max_iter, slack);
                    cap < max_iter && single_ge_spec(
                        value_of(compute, (x as usize, y as usize, cap)),
                        single_of(cap),
                    )
                },
        ).len(),
        hits_in_frame(compute, n, 0, max_iter, slack) == 0,
        hits_in_frame(compute, n, h + 1, max_iter, slack) == hits_in_frame(
            compute,
            n,
            h,
            max_iter,
            slack,
        ) + hits_in_row(compute, n, h as int, max_iter, slack),
    decreases n,
{
    let p = |x: int|
        {
            let cap = tried_cap(compute, x as nat, y, max_iter, slack);
            cap < max_iter && single_ge_spec(
                value_of(compute, (x as usize, y as usize, cap)),
                single_of(cap),
            )
        };
    if n > 0 {
        law_hits_are_counted_by_pixel(compute, (n - 1) as nat, h, y, max_iter, slack);
        lemma_places_step(n, p);
    } else {
        lemma_no_places(p);
    }
}

/// The glitches of a frame are its pixels, row by row, that get no value.
pub proof fn law_glitches_are_counted_by_pixel<P: Fn((usize, usize)) -> Option<u32>>(
    w: int,
    n: nat,
    flagged: P,
)
    ensures
        glitches(w, n, flagged) == places(
            n,
            |i: int| value_of(flagged, ((i % w) as usize, (i / w) as usize)) is None,
        ).len(),
    decreases n,
{
    let p = |i: int| value_of(flagged, ((i % w) as usize, (i / w) as usize)) is None;
    if n > 0 {
        law_glitches_are_counted_by_pixel(w, (n - 1) as nat, flagged);
        lemma_places_step(n, p);
    } else {
        lemma_no_places(p);
    }
}

} // verus!
