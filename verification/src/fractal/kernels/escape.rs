//! Iterating one orbit: when it stops, and what the pixel shows.
//!
//! `S` is the state of an orbit. The functions that test and advance a state are
//! the caller's.

use crate::float_bits::{law_counts_are_finite, single_ge_spec, single_is_nan_spec, single_of, u32_to_single};
use crate::fractal::fractal::early_exit_is_exact;
use crate::func::{evaluate, is_function, value_of};
use vstd::prelude::*;

verus! {

/// How an iteration ended.
pub enum Outcome<S> {
    /// The state at this iteration had escaped.
    Escaped(u32, S),
    /// The step of this iteration said to stop, and led to this state.
    Stopped(u32, S),
    /// All iterations were made.
    Exhausted,
}

/// How the iteration from state `s`, at iteration `i`, ends.
pub open spec fn outcome<S, E: Fn(S) -> bool, A: Fn(S) -> (S, bool)>(
    s: S,
    i: int,
    max_iter: int,
    escaped: E,
    advance: A,
) -> Outcome<S>
    decreases max_iter - i,
{
    if i >= max_iter {
        Outcome::Exhausted
    } else if value_of(escaped, s) {
        Outcome::Escaped(i as u32, s)
    } else {
        let (next, stop) = value_of(advance, s);
        if stop {
            Outcome::Stopped(i as u32, next)
        } else {
            outcome(next, i + 1, max_iter, escaped, advance)
        }
    }
}

/// Iterates from state `start`, at iteration `first`, until the state has
/// escaped, a step says to stop, or `max_iter` is reached.
pub fn iterate<S: Copy, E: Fn(S) -> bool, A: Fn(S) -> (S, bool)>(
    start: S,
    first: u32,
    max_iter: u32,
    escaped: &E,
    advance: &A,
) -> (r: Outcome<S>)
    requires
        is_function(*escaped),
        is_function(*advance),
    ensures
        r == outcome(start, first as int, max_iter as int, *escaped, *advance),
{
    let mut s: S = start;
    let mut i: u32 = first;
    while i < max_iter
        invariant
            is_function(*escaped),
            is_function(*advance),
            outcome(start, first as int, max_iter as int, *escaped, *advance) == outcome(
                s,
                i as int,
                max_iter as int,
                *escaped,
                *advance,
            ),
        decreases max_iter - i,
    {
        if evaluate(escaped, s) {
            return Outcome::Escaped(i, s);
        }
        let (next, stop): (S, bool) = evaluate(advance, s);
        if stop {
            return Outcome::Stopped(i, next);
        }
        s = next;
        i = i + 1;
    }
    Outcome::Exhausted
}

/// The value of a pixel that escaped at iteration `iter` with squared norm
/// `zn_sq` (the bit pattern of a double): smoothed, or the limit if that was reached.
pub open spec fn smoothed<F: Fn((u32, u64)) -> u32>(
    iter: u32,
    zn_sq: u64,
    max_iter: u32,
    smooth: F,
) -> u32 {
    if iter >= max_iter {
        single_of(max_iter)
    } else {
        value_of(smooth, (iter, zn_sq))
    }
}

/// The value of a pixel that escaped at iteration `iter` with squared norm
/// `zn_sq`. `smooth` answers the fractional iteration count.
pub fn smooth_iter<F: Fn((u32, u64)) -> u32>(
    iter: u32,
    zn_sq: u64,
    max_iter: u32,
    smooth: &F,
) -> (r: u32)
    requires
        is_function(*smooth),
    ensures
        r == smoothed(iter, zn_sq, max_iter, *smooth),
{
    if iter >= max_iter {
        return u32_to_single(max_iter);
    }
    evaluate(smooth, (iter, zn_sq))
}

/// What a root-finding orbit shows: the iteration at which it settled, or the
/// limit if it never did or could not go on.
pub open spec fn settled_value<S>(o: Outcome<S>, max_iter: u32) -> u32 {
    match o {
        Outcome::Stopped(i, _) => single_of(i),
        _ => single_of(max_iter),
    }
}

/// Iterates a root-finding map. `stuck` answers whether the derivative vanishes
/// at a state, so that the orbit cannot go on; `advance` answers the next state
/// and whether the step was too short to matter.
pub fn newton<S: Copy, E: Fn(S) -> bool, A: Fn(S) -> (S, bool)>(
    start: S,
    max_iter: u32,
    stuck: &E,
    advance: &A,
) -> (r: u32)
    requires
        is_function(*stuck),
        is_function(*advance),
    ensures
        r == settled_value(outcome(start, 0, max_iter as int, *stuck, *advance), max_iter),
{
    match iterate(start, 0, max_iter, stuck, advance) {
        Outcome::Stopped(i, _) => u32_to_single(i),
        _ => u32_to_single(max_iter),
    }
}

/// Iterates a root-finding map that adds the pixel's coordinate back at every
/// step. It stops as [`newton`] does; only the start and the step differ.
pub fn nova<S: Copy, E: Fn(S) -> bool, A: Fn(S) -> (S, bool)>(
    start: S,
    max_iter: u32,
    stuck: &E,
    advance: &A,
) -> (r: u32)
    requires
        is_function(*stuck),
        is_function(*advance),
    ensures
        r == settled_value(outcome(start, 0, max_iter as int, *stuck, *advance), max_iter),
{
    newton(start, max_iter, stuck, advance)
}

/// What an escape-time orbit shows: the value of the state that escaped, or the limit.
pub open spec fn escape_value<S, V: Fn((u32, S)) -> u32>(o: Outcome<S>, max_iter: u32, value: V) -> u32 {
    match o {
        Outcome::Escaped(i, s) => value_of(value, (i, s)),
        _ => single_of(max_iter),
    }
}

/// Iterates the Mandelbrot map with its derivative, and answers the value and the
/// estimated distance to the boundary (the bit pattern of a double; zero for an
/// orbit that never escaped, or whose iteration `advance` stopped).
pub fn mandelbrot_dem<
    S: Copy,
    E: Fn(S) -> bool,
    A: Fn(S) -> (S, bool),
    V: Fn((u32, S)) -> u32,
    D: Fn(S) -> u64,
>(start: S, max_iter: u32, escaped: &E, advance: &A, value: &V, distance: &D) -> (r: (u32, u64))
    requires
        is_function(*escaped),
        is_function(*advance),
        is_function(*value),
        is_function(*distance),
    ensures
        ({
            let o = outcome(start, 0, max_iter as int, *escaped, *advance);
            &&& r.0 == escape_value(o, max_iter, *value)
            &&& o matches Outcome::Escaped(_, s) ==> r.1 == value_of(*distance, s)
            &&& !(o is Escaped) ==> r.1 == 0
        }),
{
    match iterate(start, 0, max_iter, escaped, advance) {
        Outcome::Escaped(i, s) => (evaluate(value, (i, s)), evaluate(distance, s)),
        _ => (u32_to_single(max_iter), 0),
    }
}

/// Iterates the Mandelbrot map with the derivative of the orbit, whose collapse
/// shows that the point never escapes. `inside` says that the point is known to
/// lie in one of the large components of the set; `advance` answers the next
/// state and whether the derivative collapsed.
pub fn mandelbrot_ide<
    S: Copy,
    E: Fn(S) -> bool,
    A: Fn(S) -> (S, bool),
    V: Fn((u32, S)) -> u32,
>(inside: bool, start: S, max_iter: u32, escaped: &E, advance: &A, value: &V) -> (r: u32)
    requires
        is_function(*escaped),
        is_function(*advance),
        is_function(*value),
    ensures
        r == (if inside {
            single_of(max_iter)
        } else {
            escape_value(
                outcome(start, 1, max_iter as int, *escaped, *advance),
                max_iter,
                *value,
            )
        }),
{
    if inside {
        return u32_to_single(max_iter);
    }
    match iterate(start, 1, max_iter, escaped, advance) {
        Outcome::Escaped(i, s) => evaluate(value, (i, s)),
        _ => u32_to_single(max_iter),
    }
}

/// The state of an orbit that is watched for cycles: the current point, a point
/// that it passed earlier, the number of steps since then, and the number of
/// steps after which a later point is taken.
pub struct Watched<S> {
    pub z: S,
    pub mark: S,
    pub period: u32,
    pub check: u32,
}

/// The watched orbit after a step that led to `z`. The interval between marks
/// doubles each time, up to 512 steps.
pub open spec fn watched_step<S>(w: Watched<S>, z: S) -> Watched<S> {
    if w.period + 1 == w.check {
        Watched {
            z,
            mark: z,
            period: 0,
            check: if w.check * 2 < 512 {
                (w.check * 2) as u32
            } else {
                512
            },
        }
    } else {
        Watched { z, mark: w.mark, period: (w.period + 1) as u32, check: w.check }
    }
}

/// What an orbit that is watched for cycles shows, from iteration `i` on.
pub open spec fn watched_value<
    S,
    E: Fn(S) -> bool,
    N: Fn(S) -> S,
    M: Fn((S, S)) -> bool,
    V: Fn((u32, S)) -> u32,
>(w: Watched<S>, i: int, max_iter: u32, escaped: E, step: N, meets: M, value: V) -> u32
    decreases max_iter - i,
{
    if i >= max_iter {
        single_of(max_iter)
    } else if value_of(escaped, w.z) {
        value_of(value, (i as u32, w.z))
    } else {
        let z = value_of(step, w.z);
        if value_of(meets, (z, w.mark)) {
            single_of(max_iter)
        } else {
            watched_value(
                watched_step(w, z),
                i + 1,
                max_iter,
                escaped,
                step,
                meets,
                value,
            )
        }
    }
}

/// Iterates an orbit from iteration `first` until it escapes, comes back to a
/// point that it passed earlier, or reaches `max_iter`. An orbit that comes back
/// never escapes, so it shows the limit.
pub fn escape_or_cycle<
    S: Copy,
    E: Fn(S) -> bool,
    N: Fn(S) -> S,
    M: Fn((S, S)) -> bool,
    V: Fn((u32, S)) -> u32,
>(
    start: S,
    mark: S,
    first: u32,
    max_iter: u32,
    escaped: &E,
    step: &N,
    meets: &M,
    value: &V,
) -> (r: u32)
    requires
        is_function(*escaped),
        is_function(*step),
        is_function(*meets),
        is_function(*value),
    ensures
        r == watched_value(
            (Watched { z: start, mark, period: 0, check: 8 }),
            first as int,
            max_iter,
            *escaped,
            *step,
            *meets,
            *value,
        ),
{
    let mut z: S = start;
    let mut b: S = mark;
    let mut period: u32 = 0;
    let mut check: u32 = 8;
    let mut i: u32 = first;
    let ghost answer = watched_value(
        (Watched { z: start, mark, period: 0, check: 8 }),
        first as int,
        max_iter,
        *escaped,
        *step,
        *meets,
        *value,
    );
    while i < max_iter
        invariant
            is_function(*escaped),
            is_function(*step),
            is_function(*meets),
            is_function(*value),
            period < check,
            check <= 512,
            answer == watched_value(
                (Watched { z: start, mark, period: 0, check: 8 }),
                first as int,
                max_iter,
                *escaped,
                *step,
                *meets,
                *value,
            ),
            answer == watched_value(
                (Watched { z, mark: b, period, check }),
                i as int,
                max_iter,
                *escaped,
                *step,
                *meets,
                *value,
            ),
        decreases max_iter - i,
    {
        if evaluate(escaped, z) {
            return evaluate(value, (i, z));
        }
        z = evaluate(step, z);
        if evaluate(meets, (z, b)) {
            return u32_to_single(max_iter);
        }
        period = period + 1;
        if period == check {
            period = 0;
            check = if check * 2 < 512 {
                check * 2
            } else {
                512
            };
            b = z;
        }
        i = i + 1;
    }
    u32_to_single(max_iter)
}

/// Iterates the Julia map from the pixel's own coordinate, which is also the
/// first point that the orbit is compared with.
pub fn julia<
    S: Copy,
    E: Fn(S) -> bool,
    N: Fn(S) -> S,
    M: Fn((S, S)) -> bool,
    V: Fn((u32, S)) -> u32,
>(start: S, max_iter: u32, escaped: &E, step: &N, meets: &M, value: &V) -> (r: u32)
    requires
        is_function(*escaped),
        is_function(*step),
        is_function(*meets),
        is_function(*value),
    ensures
        r == watched_value(
            (Watched { z: start, mark: start, period: 0, check: 8 }),
            0,
            max_iter,
            *escaped,
            *step,
            *meets,
            *value,
        ),
{
    escape_or_cycle(start, start, 0, max_iter, escaped, step, meets, value)
}

/// What the Mandelbrot orbit of a point shows. `start` is the point itself, which
/// the orbit has reached after one step; the second step is made before the first test.
pub open spec fn mandelbrot_value<
    S,
    E: Fn(S) -> bool,
    N: Fn(S) -> S,
    M: Fn((S, S)) -> bool,
    V: Fn((u32, S)) -> u32,
>(
    inside: bool,
    start: S,
    origin: S,
    max_iter: u32,
    escaped: E,
    step: N,
    meets: M,
    value: V,
) -> u32 {
    if inside {
        single_of(max_iter)
    } else {
        watched_value(
            Watched { z: value_of(step, start), mark: origin, period: 0, check: 8 },
            2,
            max_iter,
            escaped,
            step,
            meets,
            value,
        )
    }
}

/// Iterates the Mandelbrot map. `inside` says that the point is known to lie in
/// one of the large components of the set; `origin` is the first point that the
/// orbit is compared with.
pub fn mandelbrot<
    S: Copy,
    E: Fn(S) -> bool,
    N: Fn(S) -> S,
    M: Fn((S, S)) -> bool,
    V: Fn((u32, S)) -> u32,
>(
    inside: bool,
    start: S,
    origin: S,
    max_iter: u32,
    escaped: &E,
    step: &N,
    meets: &M,
    value: &V,
) -> (r: u32)
    requires
        is_function(*escaped),
        is_function(*step),
        is_function(*meets),
        is_function(*value),
    ensures
        r == mandelbrot_value(
            inside,
            start,
            origin,
            max_iter,
            *escaped,
            *step,
            *meets,
            *value,
        ),
{
    if inside {
        return u32_to_single(max_iter);
    }
    if max_iter <= 2 {
        return u32_to_single(max_iter);
    }
    let second: S = evaluate(step, start);
    escape_or_cycle(second, origin, 2, max_iter, escaped, step, meets, value)
}

/// The state after `n` steps.
pub open spec fn nth<S, N: Fn(S) -> S>(s: S, n: nat, step: N) -> S
    decreases n,
{
    if n == 0 {
        s
    } else {
        value_of(step, nth(s, (n - 1) as nat, step))
    }
}

proof fn lemma_nth_from_next<S, N: Fn(S) -> S>(s: S, n: nat, step: N)
    ensures
        nth(value_of(step, s), n, step) == nth(s, n + 1, step),
    decreases n,
{
    reveal_with_fuel(nth, 3);
    if n > 0 {
        lemma_nth_from_next(s, (n - 1) as nat, step);
    }
}

/// An orbit that never escapes shows the limit.
pub proof fn law_bounded_orbit_shows_the_limit<
    S,
    E: Fn(S) -> bool,
    N: Fn(S) -> S,
    M: Fn((S, S)) -> bool,
    V: Fn((u32, S)) -> u32,
>(w: Watched<S>, i: int, max_iter: u32, escaped: E, step: N, meets: M, value: V)
    requires
        forall|n: nat| !value_of(escaped, #[trigger] nth(w.z, n, step)),
    ensures
        watched_value(w, i, max_iter, escaped, step, meets, value) == single_of(max_iter),
    decreases max_iter - i,
{
    if i < max_iter {
        assert(nth(w.z, 0, step) == w.z);
        let z = value_of(step, w.z);
        assert forall|n: nat| !value_of(escaped, #[trigger] nth(z, n, step)) by {
            lemma_nth_from_next(w.z, n, step);
            assert(!value_of(escaped, nth(w.z, n + 1, step)));
        }
        if !value_of(meets, (z, w.mark)) {
            law_bounded_orbit_shows_the_limit(
                watched_step(w, z),
                i + 1,
                max_iter,
                escaped,
                step,
                meets,
                value,
            );
        }
    }
}

/// An orbit shows the value of its first point that escapes, unless it seemed to
/// come back before: then it shows the limit.
pub proof fn law_escape_is_the_first_one<
    S,
    E: Fn(S) -> bool,
    N: Fn(S) -> S,
    M: Fn((S, S)) -> bool,
    V: Fn((u32, S)) -> u32,
>(w: Watched<S>, i: int, n: nat, max_iter: u32, escaped: E, step: N, meets: M, value: V)
    requires
        0 <= i,
        i + n < max_iter,
        value_of(escaped, nth(w.z, n, step)),
        forall|k: nat| k < n ==> !value_of(escaped, #[trigger] nth(w.z, k, step)),
    ensures
        watched_value(w, i, max_iter, escaped, step, meets, value) == value_of(
            value,
            ((i + n) as u32, nth(w.z, n, step)),
        ) || watched_value(w, i, max_iter, escaped, step, meets, value) == single_of(max_iter),
    decreases n,
{
    if n > 0 {
        assert(nth(w.z, 0, step) == w.z);
        let z = value_of(step, w.z);
        let m = (n - 1) as nat;
        lemma_nth_from_next(w.z, m, step);
        assert forall|k: nat| k < m implies !value_of(escaped, #[trigger] nth(z, k, step)) by {
            lemma_nth_from_next(w.z, k, step);
            assert(!value_of(escaped, nth(w.z, k + 1, step)));
        }
        if !value_of(meets, (z, w.mark)) {
            law_escape_is_the_first_one(
                watched_step(w, z),
                i + 1,
                m,
                max_iter,
                escaped,
                step,
                meets,
                value,
            );
        }
    }
}

/// Watching for cycles changes no pixel, if only orbits that never escape come
/// back: the orbit shows the value of its first point that escapes.
pub proof fn law_watching_changes_no_pixel<
    S,
    E: Fn(S) -> bool,
    N: Fn(S) -> S,
    M: Fn((S, S)) -> bool,
    V: Fn((u32, S)) -> u32,
>(w: Watched<S>, i: int, n: nat, max_iter: u32, escaped: E, step: N, meets: M, value: V)
    requires
        0 <= i,
        i + n < max_iter,
        value_of(escaped, nth(w.z, n, step)),
        forall|k: nat| k < n ==> !value_of(escaped, #[trigger] nth(w.z, k, step)),
        forall|a: S, b: S, k: nat| #[trigger]
            value_of(meets, (a, b)) ==> !value_of(escaped, #[trigger] nth(a, k, step)),
    ensures
        watched_value(w, i, max_iter, escaped, step, meets, value) == value_of(
            value,
            ((i + n) as u32, nth(w.z, n, step)),
        ),
    decreases n,
{
    if n > 0 {
        assert(nth(w.z, 0, step) == w.z);
        let z = value_of(step, w.z);
        let m = (n - 1) as nat;
        lemma_nth_from_next(w.z, m, step);
        assert forall|k: nat| k < m implies !value_of(escaped, #[trigger] nth(z, k, step)) by {
            lemma_nth_from_next(w.z, k, step);
            assert(!value_of(escaped, nth(w.z, k + 1, step)));
        }
        assert(!value_of(meets, (z, w.mark))) by {
            if value_of(meets, (z, w.mark)) {
                assert(!value_of(escaped, nth(z, m, step)));
            }
        }
        law_watching_changes_no_pixel(
            watched_step(w, z),
            i + 1,
            m,
            max_iter,
            escaped,
            step,
            meets,
            value,
        );
    }
}

/// The orbit escapes before iteration `limit`, and does not seem to come back
/// before it does.
pub open spec fn escapes_before<
    S,
    E: Fn(S) -> bool,
    N: Fn(S) -> S,
    M: Fn((S, S)) -> bool,
>(w: Watched<S>, i: int, limit: u32, escaped: E, step: N, meets: M) -> bool
    decreases limit - i,
{
    let z = value_of(step, w.z);
    i < limit && (value_of(escaped, w.z) || (!value_of(meets, (z, w.mark)) && escapes_before(
        watched_step(w, z),
        i + 1,
        limit,
        escaped,
        step,
        meets,
    )))
}

/// An orbit that escapes within a limit shows the same value under every larger
/// limit; any other orbit shows the limit.
pub proof fn law_larger_limit_keeps_escapes<
    S,
    E: Fn(S) -> bool,
    N: Fn(S) -> S,
    M: Fn((S, S)) -> bool,
    V: Fn((u32, S)) -> u32,
>(w: Watched<S>, i: int, limit: u32, larger: u32, escaped: E, step: N, meets: M, value: V)
    requires
        limit <= larger,
    ensures
        escapes_before(w, i, limit, escaped, step, meets) ==> watched_value(
            w,
            i,
            larger,
            escaped,
            step,
            meets,
            value,
        ) == watched_value(w, i, limit, escaped, step, meets, value),
        !escapes_before(w, i, limit, escaped, step, meets) ==> watched_value(
            w,
            i,
            limit,
            escaped,
            step,
            meets,
            value,
        ) == single_of(limit),
    decreases limit - i,
{
    let z = value_of(step, w.z);
    if i < limit && !value_of(escaped, w.z) && !value_of(meets, (z, w.mark)) {
        law_larger_limit_keeps_escapes(
            watched_step(w, z),
            i + 1,
            limit,
            larger,
            escaped,
            step,
            meets,
            value,
        );
    }
}

/// An iteration that ends within a limit ends alike under every larger limit.
pub proof fn law_larger_limit_keeps_outcome<S, E: Fn(S) -> bool, A: Fn(S) -> (S, bool)>(
    s: S,
    i: int,
    limit: int,
    larger: int,
    escaped: E,
    advance: A,
)
    requires
        limit <= larger,
        !(outcome(s, i, limit, escaped, advance) is Exhausted),
    ensures
        outcome(s, i, larger, escaped, advance) == outcome(s, i, limit, escaped, advance),
    decreases limit - i,
{
    let (next, stop) = value_of(advance, s);
    if i < limit && !value_of(escaped, s) && !stop {
        law_larger_limit_keeps_outcome(next, i + 1, limit, larger, escaped, advance);
    }
}

/// Kernels that watch an orbit exit early only with the value that they answer
/// under the full limit: [`mandelbrot`] and [`julia`] are such kernels. `inside`
/// says which pixels are known not to escape, and `start` is where the orbit of a
/// pixel starts, at iteration `first`.
pub proof fn law_watching_kernels_exit_exactly<
    F: Fn((usize, usize, u32)) -> u32,
    S,
    E: Fn(S) -> bool,
    N: Fn(S) -> S,
    M: Fn((S, S)) -> bool,
    V: Fn((u32, S)) -> u32,
>(
    compute: F,
    max_iter: u32,
    inside: spec_fn(usize, usize) -> bool,
    start: spec_fn(usize, usize) -> Watched<S>,
    first: int,
    escaped: E,
    step: N,
    meets: M,
    value: V,
)
    requires
        forall|x: usize, y: usize, cap: u32| #[trigger]
            value_of(compute, (x, y, cap)) == (if inside(x, y) {
                single_of(cap)
            } else {
                watched_value(start(x, y), first, cap, escaped, step, meets, value)
            }),
    ensures
        early_exit_is_exact(compute, max_iter),
{
    assert forall|x: usize, y: usize, cap: u32|
        cap < max_iter && !single_ge_spec(
            #[trigger] value_of(compute, (x, y, cap)),
            single_of(cap),
        ) implies value_of(compute, (x, y, cap)) == value_of(compute, (x, y, max_iter)) by {
        law_counts_are_finite(cap);
        law_larger_limit_keeps_escapes(
            start(x, y),
            first,
            cap,
            max_iter,
            escaped,
            step,
            meets,
            value,
        );
    }
}

/// Kernels that wait for an orbit to settle exit early only with the value that
/// they answer under the full limit: [`newton`] and [`nova`] are such kernels.
/// `start` is where the orbit of a pixel starts.
pub proof fn law_settling_kernels_exit_exactly<
    F: Fn((usize, usize, u32)) -> u32,
    S,
    E: Fn(S) -> bool,
    A: Fn(S) -> (S, bool),
>(compute: F, max_iter: u32, start: spec_fn(usize, usize) -> S, stuck: E, advance: A)
    requires
        forall|x: usize, y: usize, cap: u32| #[trigger]
            value_of(compute, (x, y, cap)) == settled_value(
                outcome(start(x, y), 0, cap as int, stuck, advance),
                cap,
            ),
    ensures
        early_exit_is_exact(compute, max_iter),
{
    assert forall|x: usize, y: usize, cap: u32|
        cap < max_iter && !single_ge_spec(
            #[trigger] value_of(compute, (x, y, cap)),
            single_of(cap),
        ) implies value_of(compute, (x, y, cap)) == value_of(compute, (x, y, max_iter)) by {
        law_counts_are_finite(cap);
        if outcome(start(x, y), 0, cap as int, stuck, advance) is Stopped {
            law_larger_limit_keeps_outcome(
                start(x, y),
                0,
                cap as int,
                max_iter as int,
                stuck,
                advance,
            );
        }
    }
}

/// Kernels that wait for an orbit to settle always answer a number, never a NaN:
/// [`newton`] and [`nova`] are such kernels.
pub proof fn law_settling_kernels_answer_numbers<S>(o: Outcome<S>, max_iter: u32)
    ensures
        !single_is_nan_spec(settled_value(o, max_iter)),
{
    law_counts_are_finite(max_iter);
    if let Outcome::Stopped(i, _) = o {
        law_counts_are_finite(i);
    }
}

/// Kernels that watch for cycles always answer a number, never a NaN, where the
/// value of an escaped state is one: [`mandelbrot`] and [`julia`] are such kernels.
pub proof fn law_watching_kernels_answer_numbers<
    S,
    E: Fn(S) -> bool,
    N: Fn(S) -> S,
    M: Fn((S, S)) -> bool,
    V: Fn((u32, S)) -> u32,
>(w: Watched<S>, i: int, max_iter: u32, escaped: E, step: N, meets: M, value: V)
    requires
        0 <= i,
        forall|k: u32, z: S|
            k < max_iter && value_of(escaped, z) ==> !single_is_nan_spec(
                #[trigger] value_of(value, (k, z)),
            ),
    ensures
        !single_is_nan_spec(watched_value(w, i, max_iter, escaped, step, meets, value)),
    decreases max_iter - i,
{
    law_counts_are_finite(max_iter);
    if i < max_iter && !value_of(escaped, w.z) {
        let z = value_of(step, w.z);
        law_watching_kernels_answer_numbers(
            watched_step(w, z),
            i + 1,
            max_iter,
            escaped,
            step,
            meets,
            value,
        );
    }
}

/// Only reaching the limit makes a pixel that escaped look as if it had not: one
/// that escaped at any iteration below the limit shows its fractional count.
pub proof fn law_escaped_pixel_shows_its_fractional_count<F: Fn((u32, u64)) -> u32>(
    iter: u32,
    zn_sq: u64,
    max_iter: u32,
    smooth: F,
)
    ensures
        iter < max_iter ==> smoothed(iter, zn_sq, max_iter, smooth) == value_of(
            smooth,
            (iter, zn_sq),
        ),
        max_iter <= iter ==> smoothed(iter, zn_sq, max_iter, smooth) == single_of(max_iter),
{
}

/// The step after which the point was taken that an orbit is compared with once
/// `t` steps are made; zero while it is still the first one. Points are taken
/// after 8 steps, 16 more, 32 more and so on, and every 512 steps in the end.
pub open spec fn last_mark(t: nat) -> nat {
    if t < 8 {
        0
    } else if t < 24 {
        8
    } else if t < 56 {
        24
    } else if t < 120 {
        56
    } else if t < 248 {
        120
    } else if t < 504 {
        248
    } else {
        (504 + (t - 504) / 512 * 512) as nat
    }
}

/// The point that the orbit of `z` is compared with once `t` steps are made.
/// `mark` is the first one.
pub open spec fn mark_after<S, N: Fn(S) -> S>(z: S, mark: S, t: nat, step: N) -> S {
    if last_mark(t) == 0 {
        mark
    } else {
        nth(z, last_mark(t), step)
    }
}

/// The step `t` of the orbit of `z` led back to the point it is compared with.
pub open spec fn comes_back<S, N: Fn(S) -> S, M: Fn((S, S)) -> bool>(
    z: S,
    mark: S,
    t: nat,
    step: N,
    meets: M,
) -> bool {
    value_of(meets, (nth(z, t, step), mark_after(z, mark, (t - 1) as nat, step)))
}

/// In its first `n` steps the orbit of `z` neither escapes nor comes back.
pub open spec fn goes_on<S, E: Fn(S) -> bool, N: Fn(S) -> S, M: Fn((S, S)) -> bool>(
    z: S,
    mark: S,
    n: nat,
    escaped: E,
    step: N,
    meets: M,
) -> bool {
    &&& forall|k: nat| k < n ==> !value_of(escaped, #[trigger] nth(z, k, step))
    &&& forall|t: nat| 0 < t <= n ==> !#[trigger] comes_back(z, mark, t, step, meets)
}

spec fn watched_after<S, N: Fn(S) -> S>(z: S, mark: S, t: nat, step: N) -> Watched<S> {
    Watched {
        z: nth(z, t, step),
        mark: mark_after(z, mark, t, step),
        period: (t - last_mark(t)) as u32,
        check: if t < 8 {
            8
        } else if t < 24 {
            16
        } else if t < 56 {
            32
        } else if t < 120 {
            64
        } else if t < 248 {
            128
        } else if t < 504 {
            256
        } else {
            512
        },
    }
}

proof fn lemma_watched_after<
    S,
    E: Fn(S) -> bool,
    N: Fn(S) -> S,
    M: Fn((S, S)) -> bool,
    V: Fn((u32, S)) -> u32,
>(z: S, mark: S, i: int, n: nat, max_iter: u32, escaped: E, step: N, meets: M, value: V)
    requires
        i + n <= max_iter,
        goes_on(z, mark, n, escaped, step, meets),
    ensures
        watched_value(
            Watched { z, mark, period: 0, check: 8 },
            i,
            max_iter,
            escaped,
            step,
            meets,
            value,
        ) == watched_value(
            watched_after(z, mark, n, step),
            i + n,
            max_iter,
            escaped,
            step,
            meets,
            value,
        ),
    decreases n,
{
    if n > 0 {
        let m = (n - 1) as nat;
        lemma_watched_after(z, mark, i, m, max_iter, escaped, step, meets, value);
        assert(!value_of(escaped, nth(z, m, step)));
        assert(!comes_back(z, mark, n, step, meets));
        assert(nth(z, n, step) == value_of(step, nth(z, m, step)));
        assert(watched_step(watched_after(z, mark, m, step), nth(z, n, step)) == watched_after(
            z,
            mark,
            n,
            step,
        ));
    }
}

/// How an orbit that is watched for cycles ends. If it neither escapes nor comes
/// back in its first `n` steps, then: where that uses up the limit it shows the
/// limit; where point `n` has escaped it shows the value of that point at its
/// iteration; and where the next step comes back it shows the limit.
pub proof fn law_watched_orbit_ends_as_it_should<
    S,
    E: Fn(S) -> bool,
    N: Fn(S) -> S,
    M: Fn((S, S)) -> bool,
    V: Fn((u32, S)) -> u32,
>(z: S, mark: S, i: int, n: nat, max_iter: u32, escaped: E, step: N, meets: M, value: V)
    requires
        0 <= i,
        i + n <= max_iter,
        goes_on(z, mark, n, escaped, step, meets),
    ensures
        ({
            let shown = watched_value(
                Watched { z, mark, period: 0, check: 8 },
                i,
                max_iter,
                escaped,
                step,
                meets,
                value,
            );
            &&& i + n == max_iter ==> shown == single_of(max_iter)
            &&& i + n < max_iter && value_of(escaped, nth(z, n, step)) ==> shown == value_of(
                value,
                ((i + n) as u32, nth(z, n, step)),
            )
            &&& i + n < max_iter && !value_of(escaped, nth(z, n, step)) && comes_back(
                z,
                mark,
                n + 1,
                step,
                meets,
            ) ==> shown == single_of(max_iter)
        }),
{
    lemma_watched_after(z, mark, i, n, max_iter, escaped, step, meets, value);
    assert(nth(z, n + 1, step) == value_of(step, nth(z, n, step)));
}

/// How a Mandelbrot orbit ends. A point known to lie inside, and a limit that
/// leaves nothing to iterate, shows the limit. Else the orbit is looked at from its
/// second point on, at iteration 2, and ends as a watched orbit does.
pub proof fn law_mandelbrot_orbit_ends_as_it_should<
    S,
    E: Fn(S) -> bool,
    N: Fn(S) -> S,
    M: Fn((S, S)) -> bool,
    V: Fn((u32, S)) -> u32,
>(
    inside: bool,
    start: S,
    origin: S,
    n: nat,
    max_iter: u32,
    escaped: E,
    step: N,
    meets: M,
    value: V,
)
    ensures
        ({
            let shown = mandelbrot_value(
                inside,
                start,
                origin,
                max_iter,
                escaped,
                step,
                meets,
                value,
            );
            let second = value_of(step, start);
            &&& inside || max_iter <= 2 ==> shown == single_of(max_iter)
            &&& !inside && 2 + n == max_iter && goes_on(
                second,
                origin,
                n,
                escaped,
                step,
                meets,
            ) ==> shown == single_of(max_iter)
            &&& !inside && 2 + n < max_iter && goes_on(second, origin, n, escaped, step, meets)
                && value_of(escaped, nth(second, n, step)) ==> shown == value_of(
                value,
                ((2 + n) as u32, nth(second, n, step)),
            )
            &&& 2 + n < max_iter && goes_on(second, origin, n, escaped, step, meets) && !value_of(
                escaped,
                nth(second, n, step),
            ) && comes_back(second, origin, n + 1, step, meets) ==> shown == single_of(max_iter)
        }),
{
    let second = value_of(step, start);
    if 2 + n <= max_iter && goes_on(second, origin, n, escaped, step, meets) {
        law_watched_orbit_ends_as_it_should(
            second,
            origin,
            2,
            n,
            max_iter,
            escaped,
            step,
            meets,
            value,
        );
    }
}

proof fn lemma_bounded_shows_the_limit<
    S,
    E: Fn(S) -> bool,
    N: Fn(S) -> S,
    M: Fn((S, S)) -> bool,
    V: Fn((u32, S)) -> u32,
>(w: Watched<S>, i: int, max_iter: u32, escaped: E, step: N, meets: M, value: V)
    requires
        forall|n: nat| i + n < max_iter ==> !value_of(escaped, #[trigger] nth(w.z, n, step)),
    ensures
        watched_value(w, i, max_iter, escaped, step, meets, value) == single_of(max_iter),
    decreases max_iter - i,
{
    if i < max_iter {
        assert(nth(w.z, 0, step) == w.z);
        let z = value_of(step, w.z);
        assert forall|n: nat| i + 1 + n < max_iter implies !value_of(
            escaped,
            #[trigger] nth(z, n, step),
        ) by {
            lemma_nth_from_next(w.z, n, step);
            assert(!value_of(escaped, nth(w.z, n + 1, step)));
        }
        if !value_of(meets, (z, w.mark)) {
            lemma_bounded_shows_the_limit(
                watched_step(w, z),
                i + 1,
                max_iter,
                escaped,
                step,
                meets,
                value,
            );
        }
    }
}

/// A Mandelbrot orbit none of whose points, from the second on, has escaped before
/// the limit shows the limit, and one that shows anything else has escaped.
pub proof fn law_bounded_mandelbrot_orbit_shows_the_limit<
    S,
    E: Fn(S) -> bool,
    N: Fn(S) -> S,
    M: Fn((S, S)) -> bool,
    V: Fn((u32, S)) -> u32,
>(
    inside: bool,
    start: S,
    origin: S,
    max_iter: u32,
    escaped: E,
    step: N,
    meets: M,
    value: V,
)
    requires
        forall|n: nat|
            1 <= n && n + 1 < max_iter ==> !value_of(escaped, #[trigger] nth(start, n, step)),
    ensures
        mandelbrot_value(inside, start, origin, max_iter, escaped, step, meets, value) == single_of(
            max_iter,
        ),
{
    let second = value_of(step, start);
    assert forall|n: nat| 2 + n < max_iter implies !value_of(
        escaped,
        #[trigger] nth(second, n, step),
    ) by {
        lemma_nth_from_next(start, n, step);
        assert(!value_of(escaped, nth(start, n + 1, step)));
    }
    lemma_bounded_shows_the_limit(
        Watched { z: second, mark: origin, period: 0, check: 8 },
        2,
        max_iter,
        escaped,
        step,
        meets,
        value,
    );
}

/// A Mandelbrot orbit that first escapes at iteration `k` below the limit shows the
/// value of that iteration and of the point reached there, where only orbits that
/// never escape come back.
pub proof fn law_escaping_mandelbrot_orbit_shows_where<
    S,
    E: Fn(S) -> bool,
    N: Fn(S) -> S,
    M: Fn((S, S)) -> bool,
    V: Fn((u32, S)) -> u32,
>(start: S, origin: S, k: nat, max_iter: u32, escaped: E, step: N, meets: M, value: V)
    requires
        2 <= k < max_iter,
        value_of(escaped, nth(start, (k - 1) as nat, step)),
        forall|n: nat| 1 <= n && n + 1 < k ==> !value_of(escaped, #[trigger] nth(start, n, step)),
        forall|a: S, b: S, n: nat| #[trigger]
            value_of(meets, (a, b)) ==> !value_of(escaped, #[trigger] nth(a, n, step)),
    ensures
        mandelbrot_value(false, start, origin, max_iter, escaped, step, meets, value) == value_of(
            value,
            (k as u32, nth(start, (k - 1) as nat, step)),
        ),
{
    let second = value_of(step, start);
    let m = (k - 2) as nat;
    lemma_nth_from_next(start, m, step);
    assert forall|n: nat| n < m implies !value_of(escaped, #[trigger] nth(second, n, step)) by {
        lemma_nth_from_next(start, n, step);
        assert(!value_of(escaped, nth(start, n + 1, step)));
    }
    law_watching_changes_no_pixel(
        Watched { z: second, mark: origin, period: 0, check: 8 },
        2,
        m,
        max_iter,
        escaped,
        step,
        meets,
        value,
    );
}

/// The state after `n` steps of an iteration that may stop.
pub open spec fn stepped<S, A: Fn(S) -> (S, bool)>(s: S, n: nat, advance: A) -> S
    decreases n,
{
    if n == 0 {
        s
    } else {
        value_of(advance, stepped(s, (n - 1) as nat, advance)).0
    }
}

/// In its first `n` steps the iteration from `s` neither escapes nor stops.
pub open spec fn keeps_going<S, E: Fn(S) -> bool, A: Fn(S) -> (S, bool)>(
    s: S,
    n: nat,
    escaped: E,
    advance: A,
) -> bool {
    forall|k: nat|
        k < n ==> !value_of(escaped, #[trigger] stepped(s, k, advance)) && !value_of(
            advance,
            stepped(s, k, advance),
        ).1
}

proof fn lemma_outcome_after<S, E: Fn(S) -> bool, A: Fn(S) -> (S, bool)>(
    s: S,
    i: int,
    n: nat,
    max_iter: int,
    escaped: E,
    advance: A,
)
    requires
        i + n <= max_iter,
        keeps_going(s, n, escaped, advance),
    ensures
        outcome(s, i, max_iter, escaped, advance) == outcome(
            stepped(s, n, advance),
            i + n,
            max_iter,
            escaped,
            advance,
        ),
    decreases n,
{
    if n > 0 {
        let m = (n - 1) as nat;
        lemma_outcome_after(s, i, m, max_iter, escaped, advance);
        assert(!value_of(escaped, stepped(s, m, advance)));
    }
}

/// How an iteration ends that neither escapes nor stops in its first `n` steps:
/// exhausted if that uses up the limit; escaped if the state reached has; stopped,
/// with the state that the next step leads to, if that step says so.
pub proof fn law_iteration_ends_as_it_should<S, E: Fn(S) -> bool, A: Fn(S) -> (S, bool)>(
    s: S,
    i: int,
    n: nat,
    max_iter: u32,
    escaped: E,
    advance: A,
)
    requires
        0 <= i,
        i + n <= max_iter,
        keeps_going(s, n, escaped, advance),
    ensures
        ({
            let end = outcome(s, i, max_iter as int, escaped, advance);
            let last = stepped(s, n, advance);
            &&& i + n == max_iter ==> end == Outcome::<S>::Exhausted
            &&& i + n < max_iter && value_of(escaped, last) ==> end == Outcome::Escaped(
                (i + n) as u32,
                last,
            )
            &&& i + n < max_iter && !value_of(escaped, last) && value_of(advance, last).1 ==> end
                == Outcome::Stopped((i + n) as u32, value_of(advance, last).0)
        }),
{
    lemma_outcome_after(s, i, n, max_iter as int, escaped, advance);
}

/// What [`newton`] and [`nova`] answer for an orbit that neither gets stuck nor
/// settles in its first `n` steps: the iteration `n` if the next step settles it,
/// and the limit if it is stuck there or the limit is used up.
pub proof fn law_root_finding_shows_when_it_settled<S, E: Fn(S) -> bool, A: Fn(S) -> (S, bool)>(
    start: S,
    n: nat,
    max_iter: u32,
    stuck: E,
    advance: A,
)
    requires
        n <= max_iter,
        keeps_going(start, n, stuck, advance),
    ensures
        ({
            let shown = settled_value(
                outcome(start, 0, max_iter as int, stuck, advance),
                max_iter,
            );
            let last = stepped(start, n, advance);
            &&& n < max_iter && !value_of(stuck, last) && value_of(advance, last).1 ==> shown
                == single_of(n as u32)
            &&& n == max_iter || value_of(stuck, last) ==> shown == single_of(max_iter)
        }),
{
    law_iteration_ends_as_it_should(start, 0, n, max_iter, stuck, advance);
}

/// What [`mandelbrot_dem`] and [`mandelbrot_ide`] show for an orbit, looked at from
/// iteration `i` on, that neither escapes nor stops in its first `n` steps: the
/// value of the iteration and of the state where it has escaped then, and the limit
/// if the next step stops it or the limit is used up.
pub proof fn law_escape_time_shows_the_escape<
    S,
    E: Fn(S) -> bool,
    A: Fn(S) -> (S, bool),
    V: Fn((u32, S)) -> u32,
>(start: S, i: int, n: nat, max_iter: u32, escaped: E, advance: A, value: V)
    requires
        0 <= i,
        i + n <= max_iter,
        keeps_going(start, n, escaped, advance),
    ensures
        ({
            let shown = escape_value(
                outcome(start, i, max_iter as int, escaped, advance),
                max_iter,
                value,
            );
            let last = stepped(start, n, advance);
            &&& i + n < max_iter && value_of(escaped, last) ==> shown == value_of(
                value,
                ((i + n) as u32, last),
            )
            &&& i + n == max_iter || (!value_of(escaped, last) && value_of(advance, last).1)
                ==> shown == single_of(max_iter)
        }),
{
    law_iteration_ends_as_it_should(start, i, n, max_iter, escaped, advance);
}

} // verus!
