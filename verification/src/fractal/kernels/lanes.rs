//! Iterating several orbits in lockstep, as the kernels that compute a block of
//! neighbouring pixels do.
//!
//! The orbits of a block share one state `S` and one step. A lane whose orbit has
//! escaped is recorded and no longer looked at; the block goes on until no lane
//! is left or the limit is reached.

use crate::float_bits::{single_of, u32_to_single};
use crate::fractal::kernels::escape::nth;
use crate::func::{evaluate, is_function, value_of};
use vstd::prelude::*;

verus! {

/// The first iteration, from `i` on, at which the orbit in `lane` has escaped,
/// and its squared norm there.
pub open spec fn lane_escape<
    const N: usize,
    S,
    R,
    Q: Fn(S) -> [R; N],
    T: Fn(S) -> S,
    B: Fn(R) -> bool,
>(s: S, i: int, max_iter: int, lane: int, norms: Q, step: T, beyond: B) -> Option<(u32, R)>
    decreases max_iter - i,
{
    if i >= max_iter {
        None
    } else if value_of(beyond, value_of(norms, s)[lane]) {
        Some((i as u32, value_of(norms, s)[lane]))
    } else {
        lane_escape(value_of(step, s), i + 1, max_iter, lane, norms, step, beyond)
    }
}

/// What one lane shows: the limit if its point is known to lie inside the set or
/// its orbit never escapes, else the smoothed iteration count of its own orbit.
pub open spec fn lane_shows<
    const N: usize,
    S,
    R,
    Q: Fn(S) -> [R; N],
    T: Fn(S) -> S,
    B: Fn(R) -> bool,
    V: Fn((u32, R)) -> u32,
>(
    inside: bool,
    s: S,
    first: int,
    max_iter: u32,
    lane: int,
    norms: Q,
    step: T,
    beyond: B,
    smooth: V,
) -> u32 {
    if inside {
        single_of(max_iter)
    } else {
        match lane_escape(s, first, max_iter as int, lane, norms, step, beyond) {
            Some(e) => value_of(smooth, e),
            None => single_of(max_iter),
        }
    }
}

/// The lanes of a block: which are still looked at, and what is recorded of the others.
pub struct Lanes<R> {
    pub active: Vec<bool>,
    pub found: Vec<Option<(u32, R)>>,
}

/// The bookkeeping of the lanes at iteration `i` and state `s` is right: a lane
/// that is looked at will escape when its whole orbit does, and what is recorded
/// of another lane is when its whole orbit escaped.
pub open spec fn lanes_agree<
    const N: usize,
    S,
    R,
    Q: Fn(S) -> [R; N],
    T: Fn(S) -> S,
    B: Fn(R) -> bool,
>(
    lanes: Lanes<R>,
    inside: [bool; N],
    start: S,
    first: int,
    s: S,
    i: int,
    max_iter: int,
    norms: Q,
    step: T,
    beyond: B,
) -> bool {
    &&& lanes.active@.len() == N
    &&& lanes.found@.len() == N
    &&& forall|k: int|
        0 <= k < N ==> {
            let whole = lane_escape(start, first, max_iter, k, norms, step, beyond);
            if inside[k] {
                !#[trigger] lanes.active@[k] && lanes.found@[k] is None
            } else if lanes.active@[k] {
                lanes.found@[k] is None && whole == lane_escape(
                    s,
                    i,
                    max_iter,
                    k,
                    norms,
                    step,
                    beyond,
                )
            } else {
                lanes.found@[k] is Some && lanes.found@[k] == whole
            }
        }
}

/// Some lane is still looked at.
pub open spec fn any_active<R>(lanes: Lanes<R>) -> bool {
    exists|k: int| 0 <= k < lanes.active@.len() && #[trigger] lanes.active@[k]
}

impl<R: Copy> Lanes<R> {
    /// All lanes are looked at but those whose points are known to lie inside the set.
    fn new<const N: usize>(inside: &[bool; N]) -> (r: Lanes<R>)
        ensures
            r.active@.len() == N,
            r.found@.len() == N,
            forall|k: int| 0 <= k < N ==> #[trigger] r.active@[k] == !inside[k],
            forall|k: int| 0 <= k < N ==> #[trigger] r.found@[k] is None,
    {
        let n: usize = N;
        let mut active: Vec<bool> = Vec::new();
        let mut found: Vec<Option<(u32, R)>> = Vec::new();
        let mut k: usize = 0;
        while k < n
            invariant
                n == N,
                k <= n,
                active@.len() == k,
                found@.len() == k,
                forall|j: int| 0 <= j < k ==> #[trigger] active@[j] == !inside[j],
                forall|j: int| 0 <= j < k ==> #[trigger] found@[j] is None,
            decreases n - k,
        {
            active.push(!inside[k]);
            found.push(None);
            k = k + 1;
        }
        Lanes { active, found }
    }

    /// Whether some lane is still looked at.
    fn any(&self) -> (r: bool)
        ensures
            r == any_active(*self),
    {
        let mut k: usize = 0;
        while k < self.active.len()
            invariant
                k <= self.active@.len(),
                forall|j: int| 0 <= j < k ==> !#[trigger] self.active@[j],
            decreases self.active@.len() - k,
        {
            if self.active[k] {
                assert(self.active@[k as int]);
                return true;
            }
            k = k + 1;
        }
        false
    }

    /// Records the lanes that have just escaped at iteration `i`.
    fn record<const N: usize, B: Fn(R) -> bool>(&mut self, i: u32, zn: &[R; N], beyond: &B)
        requires
            is_function(*beyond),
            old(self).active@.len() == N,
            old(self).found@.len() == N,
        ensures
            final(self).active@.len() == N,
            final(self).found@.len() == N,
            forall|k: int|
                0 <= k < N ==> #[trigger] final(self).active@[k] == (old(self).active@[k]
                    && !value_of(*beyond, zn[k])),
            forall|k: int|
                0 <= k < N ==> #[trigger] final(self).found@[k] == (if old(self).active@[k]
                    && value_of(*beyond, zn[k]) {
                    Some((i, zn[k]))
                } else {
                    old(self).found@[k]
                }),
    {
        let n: usize = N;
        let mut k: usize = 0;
        while k < n
            invariant
                is_function(*beyond),
                n == N,
                k <= n,
                old(self).active@.len() == N,
                old(self).found@.len() == N,
                self.active@.len() == N,
                self.found@.len() == N,
                forall|j: int|
                    0 <= j < N ==> #[trigger] self.active@[j] == (old(self).active@[j] && !(j < k
                        && value_of(*beyond, zn[j]))),
                forall|j: int|
                    0 <= j < N ==> #[trigger] self.found@[j] == (if j < k && old(self).active@[j]
                        && value_of(*beyond, zn[j]) {
                        Some((i, zn[j]))
                    } else {
                        old(self).found@[j]
                    }),
            decreases n - k,
        {
            if self.active[k] && evaluate(beyond, zn[k]) {
                self.active.set(k, false);
                self.found.set(k, Some((i, zn[k])));
            }
            k = k + 1;
        }
    }

    /// What each lane shows.
    fn finish<V: Fn((u32, R)) -> u32>(&self, max_iter: u32, smooth: &V) -> (r: Vec<u32>)
        requires
            is_function(*smooth),
        ensures
            r@.len() == self.found@.len(),
            forall|k: int|
                0 <= k < r@.len() ==> #[trigger] r@[k] == match self.found@[k] {
                    Some(e) => value_of(*smooth, e),
                    None => single_of(max_iter),
                },
    {
        let mut r: Vec<u32> = Vec::new();
        let mut k: usize = 0;
        while k < self.found.len()
            invariant
                is_function(*smooth),
                k <= self.found@.len(),
                r@.len() == k,
                forall|j: int|
                    0 <= j < k ==> #[trigger] r@[j] == match self.found@[j] {
                        Some(e) => value_of(*smooth, e),
                        None => single_of(max_iter),
                    },
            decreases self.found@.len() - k,
        {
            match self.found[k] {
                Some(e) => {
                    r.push(evaluate(smooth, e));
                },
                None => {
                    r.push(u32_to_single(max_iter));
                },
            }
            k = k + 1;
        }
        r
    }
}

/// One lockstep iteration of the bookkeeping: after recording, the lanes agree
/// with the next iteration.
proof fn lemma_record_agrees<
    const N: usize,
    S,
    R,
    Q: Fn(S) -> [R; N],
    T: Fn(S) -> S,
    B: Fn(R) -> bool,
>(
    before: Lanes<R>,
    after: Lanes<R>,
    inside: [bool; N],
    start: S,
    first: int,
    s: S,
    i: u32,
    max_iter: int,
    norms: Q,
    step: T,
    beyond: B,
)
    requires
        i < max_iter,
        lanes_agree(before, inside, start, first, s, i as int, max_iter, norms, step, beyond),
        after.active@.len() == N,
        after.found@.len() == N,
        forall|k: int|
            0 <= k < N ==> #[trigger] after.active@[k] == (before.active@[k] && !value_of(
                beyond,
                value_of(norms, s)[k],
            )),
        forall|k: int|
            0 <= k < N ==> #[trigger] after.found@[k] == (if before.active@[k] && value_of(
                beyond,
                value_of(norms, s)[k],
            ) {
                Some((i, value_of(norms, s)[k]))
            } else {
                before.found@[k]
            }),
    ensures
        lanes_agree(
            after,
            inside,
            start,
            first,
            value_of(step, s),
            i + 1,
            max_iter,
            norms,
            step,
            beyond,
        ),
{
    assert forall|k: int| 0 <= k < N implies {
        let whole = lane_escape(start, first, max_iter, k, norms, step, beyond);
        if inside[k] {
            !#[trigger] after.active@[k] && after.found@[k] is None
        } else if after.active@[k] {
            after.found@[k] is None && whole == lane_escape(
                value_of(step, s),
                i + 1,
                max_iter,
                k,
                norms,
                step,
                beyond,
            )
        } else {
            after.found@[k] is Some && after.found@[k] == whole
        }
    } by {
        assert(before.active@[k] == before.active@[k]);
        assert(after.found@[k] == after.found@[k]);
    }
}

/// Once no lane is left or the limit is reached, what is recorded is what each
/// whole orbit does.
proof fn lemma_lanes_done<
    const N: usize,
    S,
    R,
    Q: Fn(S) -> [R; N],
    T: Fn(S) -> S,
    B: Fn(R) -> bool,
>(
    lanes: Lanes<R>,
    inside: [bool; N],
    start: S,
    first: int,
    s: S,
    i: int,
    max_iter: int,
    norms: Q,
    step: T,
    beyond: B,
)
    requires
        lanes_agree(lanes, inside, start, first, s, i, max_iter, norms, step, beyond),
        i >= max_iter || !any_active(lanes),
    ensures
        forall|k: int|
            0 <= k < N ==> #[trigger] lanes.found@[k] == (if inside[k] {
                None
            } else {
                lane_escape(start, first, max_iter, k, norms, step, beyond)
            }),
{
    assert forall|k: int| 0 <= k < N implies #[trigger] lanes.found@[k] == (if inside[k] {
        None
    } else {
        lane_escape(start, first, max_iter, k, norms, step, beyond)
    }) by {
        if lanes.active@[k] {
            assert(i >= max_iter);
            assert(lane_escape(s, i, max_iter, k, norms, step, beyond) is None);
        }
    }
}

/// Iterates a block of orbits in lockstep from iteration `first`. `inside` says
/// which points are known to lie in the set; `norms` answers the squared norms of
/// a state, lane by lane.
pub fn escape_lanes<
    const N: usize,
    S: Copy,
    R: Copy,
    Q: Fn(S) -> [R; N],
    T: Fn(S) -> S,
    B: Fn(R) -> bool,
    V: Fn((u32, R)) -> u32,
>(
    start: S,
    first: u32,
    max_iter: u32,
    inside: &[bool; N],
    norms: &Q,
    step: &T,
    beyond: &B,
    smooth: &V,
) -> (r: Vec<u32>)
    requires
        is_function(*norms),
        is_function(*step),
        is_function(*beyond),
        is_function(*smooth),
    ensures
        r@.len() == N,
        forall|k: int|
            0 <= k < N ==> #[trigger] r@[k] == lane_shows(
                inside[k],
                start,
                first as int,
                max_iter,
                k,
                *norms,
                *step,
                *beyond,
                *smooth,
            ),
{
    let mut lanes: Lanes<R> = Lanes::new(inside);
    let mut s: S = start;
    let mut i: u32 = first;
    while i < max_iter
        invariant_except_break
            lanes_agree(
                lanes,
                *inside,
                start,
                first as int,
                s,
                i as int,
                max_iter as int,
                *norms,
                *step,
                *beyond,
            ),
        invariant
            is_function(*norms),
            is_function(*step),
            is_function(*beyond),
            is_function(*smooth),
        ensures
            lanes_agree(
                lanes,
                *inside,
                start,
                first as int,
                s,
                i as int,
                max_iter as int,
                *norms,
                *step,
                *beyond,
            ),
            i >= max_iter || !any_active(lanes),
        decreases max_iter - i,
    {
        let zn: [R; N] = evaluate(norms, s);
        let ghost before = lanes;
        lanes.record(i, &zn, beyond);
        proof {
            lemma_record_agrees(
                before,
                lanes,
                *inside,
                start,
                first as int,
                s,
                i,
                max_iter as int,
                *norms,
                *step,
                *beyond,
            );
        }
        s = evaluate(step, s);
        i = i + 1;
        if !lanes.any() {
            break ;
        }
    }
    proof {
        lemma_lanes_done(
            lanes,
            *inside,
            start,
            first as int,
            s,
            i as int,
            max_iter as int,
            *norms,
            *step,
            *beyond,
        );
    }
    lanes.finish(max_iter, smooth)
}

/// What a block of Mandelbrot orbits shows, lane by lane. The points themselves
/// are `start`; the second step is made before the first test.
pub open spec fn block_shows<
    const N: usize,
    S,
    R,
    Q: Fn(S) -> [R; N],
    T: Fn(S) -> S,
    B: Fn(R) -> bool,
    V: Fn((u32, R)) -> u32,
>(
    inside: [bool; N],
    start: S,
    max_iter: u32,
    norms: Q,
    step: T,
    beyond: B,
    smooth: V,
) -> Seq<u32> {
    Seq::new(
        N as nat,
        |k: int|
            lane_shows(
                inside[k],
                value_of(step, start),
                2,
                max_iter,
                k,
                norms,
                step,
                beyond,
                smooth,
            ),
    )
}

/// Iterates a block of Mandelbrot orbits. The points themselves are `start`; the
/// second step is made before the first test.
pub fn mandelbrot_lanes<
    const N: usize,
    S: Copy,
    R: Copy,
    Q: Fn(S) -> [R; N],
    T: Fn(S) -> S,
    B: Fn(R) -> bool,
    V: Fn((u32, R)) -> u32,
>(
    start: S,
    max_iter: u32,
    inside: &[bool; N],
    norms: &Q,
    step: &T,
    beyond: &B,
    smooth: &V,
) -> (r: Vec<u32>)
    requires
        is_function(*norms),
        is_function(*step),
        is_function(*beyond),
        is_function(*smooth),
    ensures
        r@ == block_shows(*inside, start, max_iter, *norms, *step, *beyond, *smooth),
{
    let second: S = evaluate(step, start);
    let r = escape_lanes(second, 2, max_iter, inside, norms, step, beyond, smooth);
    assert(r@ =~= block_shows(*inside, start, max_iter, *norms, *step, *beyond, *smooth));
    r
}

/// Iterates two blocks of Mandelbrot orbits side by side, each with its own
/// state, until no lane of either is left.
pub fn mandelbrot_x8x2<
    const N: usize,
    S: Copy,
    R: Copy,
    Q: Fn(S) -> [R; N],
    T: Fn(S) -> S,
    B: Fn(R) -> bool,
    V: Fn((u32, R)) -> u32,
>(
    start0: S,
    start1: S,
    max_iter: u32,
    inside0: &[bool; N],
    inside1: &[bool; N],
    norms: &Q,
    step: &T,
    beyond: &B,
    smooth: &V,
) -> (r: (Vec<u32>, Vec<u32>))
    requires
        is_function(*norms),
        is_function(*step),
        is_function(*beyond),
        is_function(*smooth),
    ensures
        r.0@ == block_shows(*inside0, start0, max_iter, *norms, *step, *beyond, *smooth),
        r.1@ == block_shows(*inside1, start1, max_iter, *norms, *step, *beyond, *smooth),
{
    let second0: S = evaluate(step, start0);
    let second1: S = evaluate(step, start1);
    let mut lanes0: Lanes<R> = Lanes::new(inside0);
    let mut lanes1: Lanes<R> = Lanes::new(inside1);
    let mut s0: S = second0;
    let mut s1: S = second1;
    let mut i: u32 = 2;
    while i < max_iter
        invariant
            is_function(*norms),
            is_function(*step),
            is_function(*beyond),
            is_function(*smooth),
            lanes_agree(
                lanes0,
                *inside0,
                second0,
                2,
                s0,
                i as int,
                max_iter as int,
                *norms,
                *step,
                *beyond,
            ),
            lanes_agree(
                lanes1,
                *inside1,
                second1,
                2,
                s1,
                i as int,
                max_iter as int,
                *norms,
                *step,
                *beyond,
            ),
        ensures
            i >= max_iter || (!any_active(lanes0) && !any_active(lanes1)),
        decreases max_iter - i,
    {
        let zn0: [R; N] = evaluate(norms, s0);
        let zn1: [R; N] = evaluate(norms, s1);
        let ghost before0 = lanes0;
        let ghost before1 = lanes1;
        lanes0.record(i, &zn0, beyond);
        lanes1.record(i, &zn1, beyond);
        proof {
            lemma_record_agrees(
                before0,
                lanes0,
                *inside0,
                second0,
                2,
                s0,
                i,
                max_iter as int,
                *norms,
                *step,
                *beyond,
            );
            lemma_record_agrees(
                before1,
                lanes1,
                *inside1,
                second1,
                2,
                s1,
                i,
                max_iter as int,
                *norms,
                *step,
                *beyond,
            );
        }
        s0 = evaluate(step, s0);
        s1 = evaluate(step, s1);
        i = i + 1;
        if !lanes0.any() && !lanes1.any() {
            break ;
        }
    }
    proof {
        lemma_lanes_done(
            lanes0,
            *inside0,
            second0,
            2,
            s0,
            i as int,
            max_iter as int,
            *norms,
            *step,
            *beyond,
        );
        lemma_lanes_done(
            lanes1,
            *inside1,
            second1,
            2,
            s1,
            i as int,
            max_iter as int,
            *norms,
            *step,
            *beyond,
        );
    }
    let shown0 = lanes0.finish(max_iter, smooth);
    let shown1 = lanes1.finish(max_iter, smooth);
    assert(shown0@ =~= block_shows(*inside0, start0, max_iter, *norms, *step, *beyond, *smooth));
    assert(shown1@ =~= block_shows(*inside1, start1, max_iter, *norms, *step, *beyond, *smooth));
    (shown0, shown1)
}

/// Iterating in lockstep changes no pixel: what a lane shows depends on that lane
/// alone, not on when the other lanes escape or where the block stops.
pub proof fn law_lanes_are_independent<
    const N: usize,
    S,
    R,
    Q: Fn(S) -> [R; N],
    T: Fn(S) -> S,
    B: Fn(R) -> bool,
    V: Fn((u32, R)) -> u32,
>(
    s: S,
    t: S,
    first: int,
    max_iter: u32,
    lane: int,
    norms: Q,
    step: T,
    beyond: B,
    smooth: V,
    same: spec_fn(S, S) -> bool,
)
    requires
        same(s, t),
        forall|a: S, b: S| #[trigger]
            same(a, b) ==> value_of(norms, a)[lane] == value_of(norms, b)[lane] && same(
                value_of(step, a),
                value_of(step, b),
            ),
    ensures
        lane_shows(false, s, first, max_iter, lane, norms, step, beyond, smooth) == lane_shows(
            false,
            t,
            first,
            max_iter,
            lane,
            norms,
            step,
            beyond,
            smooth,
        ),
{
    lemma_same_escape(s, t, first, max_iter as int, lane, norms, step, beyond, same);
}

proof fn lemma_same_escape<
    const N: usize,
    S,
    R,
    Q: Fn(S) -> [R; N],
    T: Fn(S) -> S,
    B: Fn(R) -> bool,
>(
    s: S,
    t: S,
    i: int,
    max_iter: int,
    lane: int,
    norms: Q,
    step: T,
    beyond: B,
    same: spec_fn(S, S) -> bool,
)
    requires
        same(s, t),
        forall|a: S, b: S| #[trigger]
            same(a, b) ==> value_of(norms, a)[lane] == value_of(norms, b)[lane] && same(
                value_of(step, a),
                value_of(step, b),
            ),
    ensures
        lane_escape(s, i, max_iter, lane, norms, step, beyond) == lane_escape(
            t,
            i,
            max_iter,
            lane,
            norms,
            step,
            beyond,
        ),
    decreases max_iter - i,
{
    if i < max_iter {
        lemma_same_escape(
            value_of(step, s),
            value_of(step, t),
            i + 1,
            max_iter,
            lane,
            norms,
            step,
            beyond,
            same,
        );
    }
}

/// The lanes known to lie in the set: those that the lockstep test found, and of
/// the others those that the test point by point finds. `period3` is asked only
/// for the lanes that the first test missed.
pub fn bulb_precheck_lanes<const N: usize, P: Fn(usize) -> bool>(
    found: &[bool; N],
    period3: &P,
) -> (r: Vec<bool>)
    requires
        is_function(*period3),
    ensures
        r@.len() == N,
        forall|k: int|
            0 <= k < N ==> #[trigger] r@[k] == (found[k] || value_of(*period3, k as usize)),
{
    let n: usize = N;
    let mut r: Vec<bool> = Vec::new();
    let mut k: usize = 0;
    while k < n
        invariant
            is_function(*period3),
            n == N,
            k <= n,
            r@.len() == k,
            forall|j: int|
                0 <= j < k ==> #[trigger] r@[j] == (found[j] || value_of(*period3, j as usize)),
        decreases n - k,
    {
        if found[k] {
            r.push(true);
        } else {
            r.push(evaluate(period3, k));
        }
        k = k + 1;
    }
    r
}

/// In the first `n` steps of the block the orbit in `lane` does not escape.
pub open spec fn lane_goes_on<
    const N: usize,
    S,
    R,
    Q: Fn(S) -> [R; N],
    T: Fn(S) -> S,
    B: Fn(R) -> bool,
>(s: S, n: nat, lane: int, norms: Q, step: T, beyond: B) -> bool {
    forall|k: nat|
        k < n ==> !value_of(beyond, value_of(norms, #[trigger] nth(s, k, step))[lane])
}

proof fn lemma_lane_after<
    const N: usize,
    S,
    R,
    Q: Fn(S) -> [R; N],
    T: Fn(S) -> S,
    B: Fn(R) -> bool,
>(s: S, i: int, n: nat, max_iter: int, lane: int, norms: Q, step: T, beyond: B)
    requires
        i + n <= max_iter,
        lane_goes_on(s, n, lane, norms, step, beyond),
    ensures
        lane_escape(s, i, max_iter, lane, norms, step, beyond) == lane_escape(
            nth(s, n, step),
            i + n,
            max_iter,
            lane,
            norms,
            step,
            beyond,
        ),
    decreases n,
{
    if n > 0 {
        let m = (n - 1) as nat;
        lemma_lane_after(s, i, m, max_iter, lane, norms, step, beyond);
        assert(!value_of(beyond, value_of(norms, nth(s, m, step))[lane]));
    }
}

/// What a lane shows whose orbit, looked at from iteration `first` on, does not
/// escape in the first `n` steps: the fractional count of the iteration and of its
/// own squared norm where it has escaped then, and the limit where the limit is used
/// up. A lane known to lie inside shows the limit.
pub proof fn law_lane_shows_its_own_escape<
    const N: usize,
    S,
    R,
    Q: Fn(S) -> [R; N],
    T: Fn(S) -> S,
    B: Fn(R) -> bool,
    V: Fn((u32, R)) -> u32,
>(
    inside: bool,
    s: S,
    first: int,
    n: nat,
    max_iter: u32,
    lane: int,
    norms: Q,
    step: T,
    beyond: B,
    smooth: V,
)
    requires
        0 <= first,
        lane_goes_on(s, n, lane, norms, step, beyond),
    ensures
        ({
            let shown = lane_shows(
                inside,
                s,
                first,
                max_iter,
                lane,
                norms,
                step,
                beyond,
                smooth,
            );
            let norm = value_of(norms, nth(s, n, step))[lane];
            &&& inside || max_iter <= first || first + n == max_iter ==> shown == single_of(
                max_iter,
            )
            &&& !inside && first + n < max_iter && value_of(beyond, norm) ==> shown == value_of(
                smooth,
                ((first + n) as u32, norm),
            )
        }),
{
    if first + n <= max_iter {
        lemma_lane_after(s, first, n, max_iter as int, lane, norms, step, beyond);
    }
}

/// What a block of Mandelbrot orbits shows, lane by lane: the limit where the lane
/// is known to lie inside or the limit leaves nothing to iterate, and else what its
/// own orbit does, looked at from its second point on, at iteration 2.
pub proof fn law_block_shows_the_escapes_of_its_lanes<
    const N: usize,
    S,
    R,
    Q: Fn(S) -> [R; N],
    T: Fn(S) -> S,
    B: Fn(R) -> bool,
    V: Fn((u32, R)) -> u32,
>(
    inside: [bool; N],
    start: S,
    n: nat,
    max_iter: u32,
    lane: int,
    norms: Q,
    step: T,
    beyond: B,
    smooth: V,
)
    requires
        0 <= lane < N,
        lane_goes_on(value_of(step, start), n, lane, norms, step, beyond),
    ensures
        block_shows(inside, start, max_iter, norms, step, beyond, smooth).len() == N,
        ({
            let shown = block_shows(inside, start, max_iter, norms, step, beyond, smooth)[lane];
            let norm = value_of(norms, nth(value_of(step, start), n, step))[lane];
            &&& inside[lane] || max_iter <= 2 || 2 + n == max_iter ==> shown == single_of(max_iter)
            &&& !inside[lane] && 2 + n < max_iter && value_of(beyond, norm) ==> shown == value_of(
                smooth,
                ((2 + n) as u32, norm),
            )
        }),
{
    law_lane_shows_its_own_escape(
        inside[lane],
        value_of(step, start),
        2,
        n,
        max_iter,
        lane,
        norms,
        step,
        beyond,
        smooth,
    );
}

} // verus!
