//! The reference orbit of one point, and following another point's orbit as a
//! small offset from it.
//!
//! Coordinates are bit patterns of doubles. `D` is the offset; the arithmetic on
//! it is the caller's.

use crate::float_bits::{single_of, u32_to_single};
use crate::fractal::kernels::escape::{nth, smooth_iter, smoothed};
use crate::func::{evaluate, is_function, value_of};
use vstd::prelude::*;

verus! {

/// The orbit of one point, up to where it escaped: the points at index `0` to
/// `len`. The offsets of other points are followed for `len` steps.
pub struct RefOrbit {
    pub zr: Vec<u64>,
    pub zi: Vec<u64>,
    pub len: usize,
}

impl RefOrbit {
    /// Every step has a point to start from and one to lead to.
    pub open spec fn inv(self) -> bool {
        &&& self.zr@.len() == self.zi@.len()
        &&& self.len < self.zr@.len()
        &&& self.len <= u32::MAX
    }

    /// The point at index `n`.
    pub open spec fn point(self, n: int) -> (u64, u64) {
        (self.zr@[n], self.zi@[n])
    }
}

/// `len` is where the orbit of `start` escapes, or `max_iter` if it does not
/// escape before.
pub open spec fn is_orbit_length<S, E: Fn(S) -> bool, N: Fn(S) -> S>(
    start: S,
    len: nat,
    max_iter: nat,
    escaped: E,
    step: N,
) -> bool {
    &&& len <= max_iter
    &&& forall|k: nat| k < len ==> !value_of(escaped, #[trigger] nth(start, k, step))
    &&& len < max_iter ==> value_of(escaped, nth(start, len, step))
}

/// Computes the reference orbit of a point for at most `max_iter` steps. The
/// state `S` may be more precise than what is kept: `project` answers the point
/// that is stored for a state. The orbit starts at the origin.
pub fn compute_reference_orbit<
    S: Copy,
    E: Fn(S) -> bool,
    N: Fn(S) -> S,
    P: Fn(S) -> (u64, u64),
>(start: S, max_iter: u32, escaped: &E, step: &N, project: &P) -> (r: RefOrbit)
    requires
        max_iter < usize::MAX,
        is_function(*escaped),
        is_function(*step),
        is_function(*project),
    ensures
        r.inv(),
        r.zr@.len() == max_iter + 1,
        is_orbit_length(start, r.len as nat, max_iter as nat, *escaped, *step),
        r.point(0) == (0u64, 0u64),
        forall|k: int|
            0 < k <= r.len ==> #[trigger] r.point(k) == value_of(
                *project,
                nth(start, k as nat, *step),
            ),
        forall|k: int| r.len < k <= max_iter ==> #[trigger] r.point(k) == (0u64, 0u64),
{
    let n: usize = max_iter as usize;
    let mut zr: Vec<u64> = vec![0u64; n + 1];
    let mut zi: Vec<u64> = vec![0u64; n + 1];
    let mut z: S = start;
    let mut i: usize = 0;
    while i < n
        invariant
            n == max_iter,
            i <= n,
            is_function(*escaped),
            is_function(*step),
            is_function(*project),
            zr@.len() == n + 1,
            zi@.len() == n + 1,
            z == nth(start, i as nat, *step),
            forall|k: nat| k < i ==> !value_of(*escaped, #[trigger] nth(start, k, *step)),
            zr@[0] == 0,
            zi@[0] == 0,
            forall|k: int|
                #![trigger zr@[k]]
                #![trigger zi@[k]]
                0 < k <= i ==> (zr@[k], zi@[k]) == value_of(*project, nth(start, k as nat, *step)),
            forall|k: int| i < k <= n ==> #[trigger] zr@[k] == 0,
            forall|k: int| i < k <= n ==> #[trigger] zi@[k] == 0,
        decreases n - i,
    {
        if evaluate(escaped, z) {
            return RefOrbit { zr, zi, len: i };
        }
        z = evaluate(step, z);
        assert(z == nth(start, (i + 1) as nat, *step));
        let stored: (u64, u64) = evaluate(project, z);
        zr.set(i + 1, stored.0);
        zi.set(i + 1, stored.1);
        i = i + 1;
    }
    RefOrbit { zr, zi, len: n }
}

/// What following the offset `delta` from index `n` of the orbit shows: a value
/// if the point escapes or neither it nor the reference point ever does, and
/// nothing if the offset has grown too large or the orbit ends too early.
pub open spec fn followed<
    D,
    A: Fn((D, u64, u64)) -> D,
    X: Fn((D, u64, u64)) -> Option<u64>,
    G: Fn((D, u64, u64)) -> bool,
    F: Fn((u32, u64)) -> u32,
>(
    orbit: RefOrbit,
    n: int,
    delta: D,
    max_iter: u32,
    advance: A,
    escape: X,
    glitch: G,
    smooth: F,
) -> Option<u32>
    decreases orbit.len - n,
{
    if n >= orbit.len {
        if orbit.len >= max_iter {
            Some(single_of(max_iter))
        } else {
            None
        }
    } else {
        let next = value_of(advance, (delta, orbit.zr@[n], orbit.zi@[n]));
        let here = (next, orbit.zr@[n + 1], orbit.zi@[n + 1]);
        match value_of(escape, here) {
            Some(zn_sq) => Some(smoothed((n + 1) as u32, zn_sq, max_iter, smooth)),
            None => if value_of(glitch, here) {
                None
            } else {
                followed(orbit, n + 1, next, max_iter, advance, escape, glitch, smooth)
            },
        }
    }
}

/// Follows the offset `delta` from index `from` of the orbit. `advance` answers
/// the next offset, `escape` the squared norm of a point that has escaped, and
/// `glitch` whether the offset is too large against the reference point.
pub fn follow<
    D: Copy,
    A: Fn((D, u64, u64)) -> D,
    X: Fn((D, u64, u64)) -> Option<u64>,
    G: Fn((D, u64, u64)) -> bool,
    F: Fn((u32, u64)) -> u32,
>(
    orbit: &RefOrbit,
    from: usize,
    delta: D,
    max_iter: u32,
    advance: &A,
    escape: &X,
    glitch: &G,
    smooth: &F,
) -> (r: Option<u32>)
    requires
        orbit.inv(),
        is_function(*advance),
        is_function(*escape),
        is_function(*glitch),
        is_function(*smooth),
    ensures
        r == followed(
            *orbit,
            from as int,
            delta,
            max_iter,
            *advance,
            *escape,
            *glitch,
            *smooth,
        ),
{
    let ghost answer = followed(
        *orbit,
        from as int,
        delta,
        max_iter,
        *advance,
        *escape,
        *glitch,
        *smooth,
    );
    let mut e: D = delta;
    let mut n: usize = from;
    while n < orbit.len
        invariant
            orbit.inv(),
            is_function(*advance),
            is_function(*escape),
            is_function(*glitch),
            is_function(*smooth),
            answer == followed(
                *orbit,
                from as int,
                delta,
                max_iter,
                *advance,
                *escape,
                *glitch,
                *smooth,
            ),
            answer == followed(
                *orbit,
                n as int,
                e,
                max_iter,
                *advance,
                *escape,
                *glitch,
                *smooth,
            ),
        decreases orbit.len - n,
    {
        e = evaluate(advance, (e, orbit.zr[n], orbit.zi[n]));
        let here: (D, u64, u64) = (e, orbit.zr[n + 1], orbit.zi[n + 1]);
        match evaluate(escape, here) {
            Some(zn_sq) => {
                return Some(smooth_iter(n as u32 + 1, zn_sq, max_iter, smooth));
            },
            None => {},
        }
        if evaluate(glitch, here) {
            return None;
        }
        n = n + 1;
    }
    if orbit.len >= max_iter as usize {
        Some(u32_to_single(max_iter))
    } else {
        None
    }
}

/// Follows a pixel's offset from the start of the orbit, where it is `zero`.
pub fn perturb_mandelbrot_flagged<
    D: Copy,
    A: Fn((D, u64, u64)) -> D,
    X: Fn((D, u64, u64)) -> Option<u64>,
    G: Fn((D, u64, u64)) -> bool,
    F: Fn((u32, u64)) -> u32,
>(
    orbit: &RefOrbit,
    zero: D,
    max_iter: u32,
    advance: &A,
    escape: &X,
    glitch: &G,
    smooth: &F,
) -> (r: Option<u32>)
    requires
        orbit.inv(),
        is_function(*advance),
        is_function(*escape),
        is_function(*glitch),
        is_function(*smooth),
    ensures
        r == followed(*orbit, 0, zero, max_iter, *advance, *escape, *glitch, *smooth),
{
    follow(orbit, 0, zero, max_iter, advance, escape, glitch, smooth)
}

/// Following the offset `zero` stays on the orbit: up to its end every step keeps
/// the offset as it is, and it is nowhere too large.
pub open spec fn keeps_to_orbit<
    D,
    A: Fn((D, u64, u64)) -> D,
    G: Fn((D, u64, u64)) -> bool,
>(orbit: RefOrbit, zero: D, advance: A, glitch: G) -> bool {
    &&& forall|k: int|
        0 <= k < orbit.len ==> value_of(
            advance,
            (zero, (#[trigger] orbit.point(k)).0, orbit.point(k).1),
        ) == zero
    &&& forall|k: int|
        0 < k <= orbit.len ==> !value_of(
            glitch,
            (zero, (#[trigger] orbit.point(k)).0, orbit.point(k).1),
        )
}

proof fn lemma_zero_is_followed<
    D,
    A: Fn((D, u64, u64)) -> D,
    X: Fn((D, u64, u64)) -> Option<u64>,
    G: Fn((D, u64, u64)) -> bool,
    F: Fn((u32, u64)) -> u32,
>(
    orbit: RefOrbit,
    n: int,
    zero: D,
    max_iter: u32,
    advance: A,
    escape: X,
    glitch: G,
    smooth: F,
)
    requires
        orbit.inv(),
        0 <= n < orbit.len <= max_iter,
        keeps_to_orbit(orbit, zero, advance, glitch),
        forall|k: int|
            0 < k < orbit.len ==> value_of(
                escape,
                (zero, (#[trigger] orbit.point(k)).0, orbit.point(k).1),
            ) is None,
        orbit.len < max_iter ==> value_of(
            escape,
            (zero, orbit.point(orbit.len as int).0, orbit.point(orbit.len as int).1),
        ) is Some,
    ensures
        followed(orbit, n, zero, max_iter, advance, escape, glitch, smooth) == Some(
            if orbit.len == max_iter {
                single_of(max_iter)
            } else {
                smoothed(
                    orbit.len as u32,
                    value_of(
                        escape,
                        (zero, orbit.point(orbit.len as int).0, orbit.point(orbit.len as int).1),
                    )->0,
                    max_iter,
                    smooth,
                )
            },
        ),
    decreases orbit.len - n,
{
    let here = orbit.point(n);
    let there = orbit.point(n + 1);
    assert(value_of(advance, (zero, here.0, here.1)) == zero);
    assert(!value_of(glitch, (zero, there.0, there.1)));
    if n + 1 < orbit.len {
        lemma_zero_is_followed(
            orbit,
            n + 1,
            zero,
            max_iter,
            advance,
            escape,
            glitch,
            smooth,
        );
    } else {
        assert(n + 1 == orbit.len);
        reveal_with_fuel(followed, 2);
    }
}

/// The reference point itself cannot glitch: followed along its own orbit it
/// shows the limit where the orbit reaches it, and else the smoothed iteration
/// count at which the orbit escaped. This takes that the offset zero stays zero
/// and is never too large, that the origin has not escaped, and that a point of
/// the orbit escapes as the reference does there.
pub proof fn law_reference_point_does_not_glitch<
    S,
    E: Fn(S) -> bool,
    N: Fn(S) -> S,
    D,
    A: Fn((D, u64, u64)) -> D,
    X: Fn((D, u64, u64)) -> Option<u64>,
    G: Fn((D, u64, u64)) -> bool,
    F: Fn((u32, u64)) -> u32,
>(
    orbit: RefOrbit,
    start: S,
    escaped: E,
    step: N,
    zero: D,
    max_iter: u32,
    advance: A,
    escape: X,
    glitch: G,
    smooth: F,
)
    requires
        orbit.inv(),
        is_orbit_length(start, orbit.len as nat, max_iter as nat, escaped, step),
        keeps_to_orbit(orbit, zero, advance, glitch),
        !value_of(escaped, start),
        forall|k: int|
            0 < k <= orbit.len ==> (value_of(
                escape,
                (zero, (#[trigger] orbit.point(k)).0, orbit.point(k).1),
            ) is Some <==> value_of(escaped, nth(start, k as nat, step))),
    ensures
        followed(orbit, 0, zero, max_iter, advance, escape, glitch, smooth) == Some(
            if orbit.len == max_iter {
                single_of(max_iter)
            } else {
                smoothed(
                    orbit.len as u32,
                    value_of(
                        escape,
                        (zero, orbit.zr@[orbit.len as int], orbit.zi@[orbit.len as int]),
                    )->0,
                    max_iter,
                    smooth,
                )
            },
        ),
{
    assert(nth(start, 0, step) == start);
    assert forall|k: int| 0 < k < orbit.len implies value_of(
        escape,
        (zero, (#[trigger] orbit.point(k)).0, orbit.point(k).1),
    ) is None by {
        assert(!value_of(escaped, nth(start, k as nat, step)));
    }
    if orbit.len > 0 {
        let end = orbit.point(orbit.len as int);
        assert(value_of(escape, (zero, end.0, end.1)) is Some <==> value_of(
            escaped,
            nth(start, orbit.len as nat, step),
        ));
        lemma_zero_is_followed(orbit, 0, zero, max_iter, advance, escape, glitch, smooth);
    }
}

/// What following an offset shows when the orbit is taken up from its start
/// whenever it is used up or no longer helps: `m` is the place in the orbit, `n`
/// the iteration.
pub open spec fn rebased<
    D,
    A: Fn((D, u64, u64)) -> D,
    X: Fn((D, u64, u64)) -> Option<u64>,
    W: Fn((D, u64, u64)) -> bool,
    C: Fn((D, u64, u64)) -> D,
    F: Fn((u32, u64)) -> u32,
>(
    orbit: RefOrbit,
    m: int,
    n: int,
    delta: D,
    max_iter: u32,
    advance: A,
    escape: X,
    weak: W,
    combine: C,
    smooth: F,
) -> u32
    decreases max_iter - n,
{
    if n >= max_iter {
        single_of(max_iter)
    } else {
        let next = value_of(advance, (delta, orbit.zr@[m], orbit.zi@[m]));
        let here = (next, orbit.zr@[m + 1], orbit.zi@[m + 1]);
        match value_of(escape, here) {
            Some(zn_sq) => smoothed((n + 1) as u32, zn_sq, max_iter, smooth),
            None => if value_of(weak, here) || m + 1 == orbit.len {
                rebased(
                    orbit,
                    0,
                    n + 1,
                    value_of(combine, here),
                    max_iter,
                    advance,
                    escape,
                    weak,
                    combine,
                    smooth,
                )
            } else {
                rebased(
                    orbit,
                    m + 1,
                    n + 1,
                    next,
                    max_iter,
                    advance,
                    escape,
                    weak,
                    combine,
                    smooth,
                )
            },
        }
    }
}

/// Follows a pixel's offset, taking the orbit up from its start whenever it is
/// used up or the point has come closer to the origin than the offset is long.
/// `weak` answers the latter, `combine` the point itself, which is the offset
/// from the origin where the orbit starts.
pub fn perturb_mandelbrot_rebase<
    D: Copy,
    A: Fn((D, u64, u64)) -> D,
    X: Fn((D, u64, u64)) -> Option<u64>,
    W: Fn((D, u64, u64)) -> bool,
    C: Fn((D, u64, u64)) -> D,
    F: Fn((u32, u64)) -> u32,
>(
    orbit: &RefOrbit,
    zero: D,
    max_iter: u32,
    advance: &A,
    escape: &X,
    weak: &W,
    combine: &C,
    smooth: &F,
) -> (r: u32)
    requires
        orbit.inv(),
        max_iter > 0 ==> orbit.len > 0,
        is_function(*advance),
        is_function(*escape),
        is_function(*weak),
        is_function(*combine),
        is_function(*smooth),
    ensures
        r == rebased(
            *orbit,
            0,
            0,
            zero,
            max_iter,
            *advance,
            *escape,
            *weak,
            *combine,
            *smooth,
        ),
{
    let ghost answer = rebased(
        *orbit,
        0,
        0,
        zero,
        max_iter,
        *advance,
        *escape,
        *weak,
        *combine,
        *smooth,
    );
    let mut e: D = zero;
    let mut m: usize = 0;
    let mut n: u32 = 0;
    while n < max_iter
        invariant
            orbit.inv(),
            n < max_iter ==> m < orbit.len,
            max_iter > 0 ==> orbit.len > 0,
            is_function(*advance),
            is_function(*escape),
            is_function(*weak),
            is_function(*combine),
            is_function(*smooth),
            answer == rebased(
                *orbit,
                0,
                0,
                zero,
                max_iter,
                *advance,
                *escape,
                *weak,
                *combine,
                *smooth,
            ),
            answer == rebased(
                *orbit,
                m as int,
                n as int,
                e,
                max_iter,
                *advance,
                *escape,
                *weak,
                *combine,
                *smooth,
            ),
        decreases max_iter - n,
    {
        e = evaluate(advance, (e, orbit.zr[m], orbit.zi[m]));
        m = m + 1;
        let here: (D, u64, u64) = (e, orbit.zr[m], orbit.zi[m]);
        match evaluate(escape, here) {
            Some(zn_sq) => {
                return smooth_iter(n + 1, zn_sq, max_iter, smooth);
            },
            None => {},
        }
        if evaluate(weak, here) || m == orbit.len {
            e = evaluate(combine, here);
            m = 0;
        }
        n = n + 1;
    }
    u32_to_single(max_iter)
}

/// Where the orbit always helps and is long enough, taking it up again never
/// happens before the end, and the value is the one that plain following shows.
pub proof fn law_rebasing_extends_following<
    D,
    A: Fn((D, u64, u64)) -> D,
    X: Fn((D, u64, u64)) -> Option<u64>,
    G: Fn((D, u64, u64)) -> bool,
    W: Fn((D, u64, u64)) -> bool,
    C: Fn((D, u64, u64)) -> D,
    F: Fn((u32, u64)) -> u32,
>(
    orbit: RefOrbit,
    n: int,
    delta: D,
    max_iter: u32,
    advance: A,
    escape: X,
    glitch: G,
    weak: W,
    combine: C,
    smooth: F,
)
    requires
        0 <= n <= max_iter,
        orbit.len == max_iter,
        forall|a: (D, u64, u64)| !#[trigger] value_of(weak, a),
        forall|a: (D, u64, u64)| !#[trigger] value_of(glitch, a),
    ensures
        followed(orbit, n, delta, max_iter, advance, escape, glitch, smooth) == Some(
            rebased(
                orbit,
                n,
                n,
                delta,
                max_iter,
                advance,
                escape,
                weak,
                combine,
                smooth,
            ),
        ),
    decreases max_iter - n,
{
    if n < max_iter {
        let next = value_of(advance, (delta, orbit.zr@[n], orbit.zi@[n]));
        let here = (next, orbit.zr@[n + 1], orbit.zi@[n + 1]);
        assert(!value_of(weak, here));
        assert(!value_of(glitch, here));
        reveal_with_fuel(followed, 2);
        reveal_with_fuel(rebased, 2);
        if value_of(escape, here) is None && n + 1 < max_iter {
            law_rebasing_extends_following(
                orbit,
                n + 1,
                next,
                max_iter,
                advance,
                escape,
                glitch,
                weak,
                combine,
                smooth,
            );
        }
    }
}

/// The coefficients of a power series after `n` steps along the orbit.
pub open spec fn coefficients<K, A: Fn((K, u64, u64)) -> K>(
    orbit: RefOrbit,
    n: nat,
    zero: K,
    advance: A,
) -> K
    decreases n,
{
    if n == 0 {
        zero
    } else {
        value_of(
            advance,
            (
                coefficients(orbit, (n - 1) as nat, zero, advance),
                orbit.zr@[n - 1],
                orbit.zi@[n - 1],
            ),
        )
    }
}

/// A power series for the offset of a pixel after `skip` steps.
pub struct SeriesApprox<K> {
    pub skip: usize,
    pub coefficients: K,
}

/// Fits a power series to the orbit for as many steps as it stays exact enough:
/// `skip` is the number of steps before the first at which `too_large` answers
/// that the highest terms matter, and the coefficients are those after `skip` steps.
pub fn compute_series_approx<K: Copy, A: Fn((K, u64, u64)) -> K, T: Fn(K) -> bool>(
    orbit: &RefOrbit,
    zero: K,
    advance: &A,
    too_large: &T,
) -> (r: SeriesApprox<K>)
    requires
        orbit.inv(),
        is_function(*advance),
        is_function(*too_large),
    ensures
        r.skip <= orbit.len,
        r.coefficients == coefficients(*orbit, r.skip as nat, zero, *advance),
        forall|n: nat|
            0 < n <= r.skip ==> !value_of(
                *too_large,
                #[trigger] coefficients(*orbit, n, zero, *advance),
            ),
        r.skip < orbit.len ==> value_of(
            *too_large,
            coefficients(*orbit, (r.skip + 1) as nat, zero, *advance),
        ),
{
    let mut k: K = zero;
    let mut n: usize = 0;
    while n < orbit.len
        invariant
            orbit.inv(),
            n <= orbit.len,
            is_function(*advance),
            is_function(*too_large),
            k == coefficients(*orbit, n as nat, zero, *advance),
            forall|j: nat|
                0 < j <= n ==> !value_of(
                    *too_large,
                    #[trigger] coefficients(*orbit, j, zero, *advance),
                ),
        decreases orbit.len - n,
    {
        let next: K = evaluate(advance, (k, orbit.zr[n], orbit.zi[n]));
        assert(next == coefficients(*orbit, (n + 1) as nat, zero, *advance));
        if evaluate(too_large, next) {
            return SeriesApprox { skip: n, coefficients: k };
        }
        k = next;
        n = n + 1;
    }
    SeriesApprox { skip: n, coefficients: k }
}

/// Follows a pixel's offset from where the power series leads: `expand` answers
/// the offset after `skip` steps.
pub fn perturb_mandelbrot_sa<
    K: Copy,
    D: Copy,
    P: Fn(K) -> D,
    A: Fn((D, u64, u64)) -> D,
    X: Fn((D, u64, u64)) -> Option<u64>,
    G: Fn((D, u64, u64)) -> bool,
    F: Fn((u32, u64)) -> u32,
>(
    orbit: &RefOrbit,
    sa: &SeriesApprox<K>,
    max_iter: u32,
    expand: &P,
    advance: &A,
    escape: &X,
    glitch: &G,
    smooth: &F,
) -> (r: Option<u32>)
    requires
        orbit.inv(),
        is_function(*expand),
        is_function(*advance),
        is_function(*escape),
        is_function(*glitch),
        is_function(*smooth),
    ensures
        r == followed(
            *orbit,
            sa.skip as int,
            value_of(*expand, sa.coefficients),
            max_iter,
            *advance,
            *escape,
            *glitch,
            *smooth,
        ),
{
    let delta: D = evaluate(expand, sa.coefficients);
    follow(orbit, sa.skip, delta, max_iter, advance, escape, glitch, smooth)
}

/// The offset after `n` steps of following.
pub open spec fn offset_after<D, A: Fn((D, u64, u64)) -> D>(
    orbit: RefOrbit,
    n: nat,
    zero: D,
    advance: A,
) -> D {
    coefficients(orbit, n, zero, advance)
}

/// Skipping steps changes no pixel: if the power series leads to the offset that
/// following leads to, and no skipped step would have escaped or been a glitch,
/// starting after the skipped steps shows what starting from the beginning shows.
pub proof fn law_skipping_changes_no_pixel<
    D,
    A: Fn((D, u64, u64)) -> D,
    X: Fn((D, u64, u64)) -> Option<u64>,
    G: Fn((D, u64, u64)) -> bool,
    F: Fn((u32, u64)) -> u32,
>(
    orbit: RefOrbit,
    skip: nat,
    zero: D,
    max_iter: u32,
    advance: A,
    escape: X,
    glitch: G,
    smooth: F,
)
    requires
        skip <= orbit.len,
        forall|n: nat|
            0 < n <= skip ==> {
                let here = (
                    #[trigger] offset_after(orbit, n, zero, advance),
                    orbit.zr@[n as int],
                    orbit.zi@[n as int],
                );
                value_of(escape, here) is None && !value_of(glitch, here)
            },
    ensures
        followed(orbit, 0, zero, max_iter, advance, escape, glitch, smooth) == followed(
            orbit,
            skip as int,
            offset_after(orbit, skip, zero, advance),
            max_iter,
            advance,
            escape,
            glitch,
            smooth,
        ),
    decreases skip,
{
    if skip > 0 {
        let m = (skip - 1) as nat;
        law_skipping_changes_no_pixel(
            orbit,
            m,
            zero,
            max_iter,
            advance,
            escape,
            glitch,
            smooth,
        );
        let here = (
            offset_after(orbit, skip, zero, advance),
            orbit.zr@[skip as int],
            orbit.zi@[skip as int],
        );
        assert(value_of(escape, here) is None && !value_of(glitch, here));
    }
}

/// The offset after `n` steps from index `from` of the orbit.
pub open spec fn offset_from<D, A: Fn((D, u64, u64)) -> D>(
    orbit: RefOrbit,
    from: int,
    n: nat,
    delta: D,
    advance: A,
) -> D
    decreases n,
{
    if n == 0 {
        delta
    } else {
        value_of(
            advance,
            (
                offset_from(orbit, from, (n - 1) as nat, delta, advance),
                orbit.zr@[from + n - 1],
                orbit.zi@[from + n - 1],
            ),
        )
    }
}

/// The offset after `n` steps, with the reference point that it is an offset from.
pub open spec fn place_from<D, A: Fn((D, u64, u64)) -> D>(
    orbit: RefOrbit,
    from: int,
    n: nat,
    delta: D,
    advance: A,
) -> (D, u64, u64) {
    (offset_from(orbit, from, n, delta, advance), orbit.zr@[from + n], orbit.zi@[from + n])
}

/// In its first `n` steps from index `from` the point neither escapes nor gets too
/// far from the reference.
pub open spec fn is_followed_for<
    D,
    A: Fn((D, u64, u64)) -> D,
    X: Fn((D, u64, u64)) -> Option<u64>,
    G: Fn((D, u64, u64)) -> bool,
>(
    orbit: RefOrbit,
    from: int,
    n: nat,
    delta: D,
    advance: A,
    escape: X,
    glitch: G,
) -> bool {
    forall|k: nat|
        0 < k <= n ==> value_of(escape, #[trigger] place_from(orbit, from, k, delta, advance)) is None
            && !value_of(glitch, place_from(orbit, from, k, delta, advance))
}

proof fn lemma_followed_after<
    D,
    A: Fn((D, u64, u64)) -> D,
    X: Fn((D, u64, u64)) -> Option<u64>,
    G: Fn((D, u64, u64)) -> bool,
    F: Fn((u32, u64)) -> u32,
>(
    orbit: RefOrbit,
    from: int,
    n: nat,
    delta: D,
    max_iter: u32,
    advance: A,
    escape: X,
    glitch: G,
    smooth: F,
)
    requires
        from + n <= orbit.len,
        is_followed_for(orbit, from, n, delta, advance, escape, glitch),
    ensures
        followed(orbit, from, delta, max_iter, advance, escape, glitch, smooth) == followed(
            orbit,
            from + n,
            offset_from(orbit, from, n, delta, advance),
            max_iter,
            advance,
            escape,
            glitch,
            smooth,
        ),
    decreases n,
{
    if n > 0 {
        let m = (n - 1) as nat;
        lemma_followed_after(orbit, from, m, delta, max_iter, advance, escape, glitch, smooth);
        let here = place_from(orbit, from, n, delta, advance);
        assert(value_of(escape, here) is None && !value_of(glitch, here));
    }
}

/// How following a point along the orbit ends that neither escapes nor gets too far
/// from it in `n` steps. If the next step escapes below the limit, it shows the
/// fractional count of that iteration and squared norm, and at the limit the limit;
/// if it does not but gets too far, nothing is shown. If the orbit is used up, the
/// limit is shown where the orbit reaches that far, and else nothing.
pub proof fn law_following_ends_as_it_should<
    D,
    A: Fn((D, u64, u64)) -> D,
    X: Fn((D, u64, u64)) -> Option<u64>,
    G: Fn((D, u64, u64)) -> bool,
    F: Fn((u32, u64)) -> u32,
>(
    orbit: RefOrbit,
    from: int,
    n: nat,
    delta: D,
    max_iter: u32,
    advance: A,
    escape: X,
    glitch: G,
    smooth: F,
)
    requires
        orbit.inv(),
        0 <= from,
        from + n <= orbit.len,
        is_followed_for(orbit, from, n, delta, advance, escape, glitch),
    ensures
        ({
            let shown = followed(
                orbit,
                from,
                delta,
                max_iter,
                advance,
                escape,
                glitch,
                smooth,
            );
            let next = place_from(orbit, from, n + 1, delta, advance);
            let iteration = from + n + 1;
            if from + n == orbit.len {
                &&& max_iter <= orbit.len ==> shown == Some(single_of(max_iter))
                &&& orbit.len < max_iter ==> shown is None
            } else {
                &&& value_of(escape, next) matches Some(zn_sq) ==> {
                    &&& iteration < max_iter ==> shown == Some(
                        value_of(smooth, (iteration as u32, zn_sq)),
                    )
                    &&& max_iter <= iteration ==> shown == Some(single_of(max_iter))
                }
                &&& value_of(escape, next) is None && value_of(glitch, next) ==> shown is None
            }
        }),
{
    lemma_followed_after(orbit, from, n, delta, max_iter, advance, escape, glitch, smooth);
}

/// The offset and the place in the orbit after `n` iterations, where the orbit is
/// taken up from its start whenever it is used up or no longer helps.
pub open spec fn rebased_state<
    D,
    A: Fn((D, u64, u64)) -> D,
    W: Fn((D, u64, u64)) -> bool,
    C: Fn((D, u64, u64)) -> D,
>(orbit: RefOrbit, n: nat, zero: D, advance: A, weak: W, combine: C) -> (D, int)
    decreases n, 0nat,
{
    if n == 0 {
        (zero, 0)
    } else {
        let here = rebased_place(orbit, (n - 1) as nat, zero, advance, weak, combine);
        let m = rebased_state(orbit, (n - 1) as nat, zero, advance, weak, combine).1 + 1;
        if value_of(weak, here) || m == orbit.len {
            (value_of(combine, here), 0)
        } else {
            (here.0, m)
        }
    }
}

/// The offset that iteration `n` leads to, with its reference point.
pub open spec fn rebased_place<
    D,
    A: Fn((D, u64, u64)) -> D,
    W: Fn((D, u64, u64)) -> bool,
    C: Fn((D, u64, u64)) -> D,
>(orbit: RefOrbit, n: nat, zero: D, advance: A, weak: W, combine: C) -> (D, u64, u64)
    decreases n, 1nat,
{
    let (delta, m) = rebased_state(orbit, n, zero, advance, weak, combine);
    (
        value_of(advance, (delta, orbit.zr@[m], orbit.zi@[m])),
        orbit.zr@[m + 1],
        orbit.zi@[m + 1],
    )
}

proof fn lemma_rebased_after<
    D,
    A: Fn((D, u64, u64)) -> D,
    X: Fn((D, u64, u64)) -> Option<u64>,
    W: Fn((D, u64, u64)) -> bool,
    C: Fn((D, u64, u64)) -> D,
    F: Fn((u32, u64)) -> u32,
>(
    orbit: RefOrbit,
    n: nat,
    zero: D,
    max_iter: u32,
    advance: A,
    escape: X,
    weak: W,
    combine: C,
    smooth: F,
)
    requires
        n <= max_iter,
        forall|k: nat|
            k < n ==> value_of(
                escape,
                #[trigger] rebased_place(orbit, k, zero, advance, weak, combine),
            ) is None,
    ensures
        ({
            let (delta, m) = rebased_state(orbit, n, zero, advance, weak, combine);
            rebased(orbit, 0, 0, zero, max_iter, advance, escape, weak, combine, smooth) == rebased(
                orbit,
                m,
                n as int,
                delta,
                max_iter,
                advance,
                escape,
                weak,
                combine,
                smooth,
            )
        }),
    decreases n,
{
    if n > 0 {
        let k = (n - 1) as nat;
        lemma_rebased_after(orbit, k, zero, max_iter, advance, escape, weak, combine, smooth);
        let here = rebased_place(orbit, k, zero, advance, weak, combine);
        assert(value_of(escape, here) is None);
    }
}

/// How following with rebasing ends that does not escape in `n` iterations: with
/// the limit if that uses it up, and if the next iteration escapes, with the
/// fractional count of that iteration and squared norm below the limit and with the
/// limit at it.
pub proof fn law_rebasing_ends_as_it_should<
    D,
    A: Fn((D, u64, u64)) -> D,
    X: Fn((D, u64, u64)) -> Option<u64>,
    W: Fn((D, u64, u64)) -> bool,
    C: Fn((D, u64, u64)) -> D,
    F: Fn((u32, u64)) -> u32,
>(
    orbit: RefOrbit,
    n: nat,
    zero: D,
    max_iter: u32,
    advance: A,
    escape: X,
    weak: W,
    combine: C,
    smooth: F,
)
    requires
        n <= max_iter,
        forall|k: nat|
            k < n ==> value_of(
                escape,
                #[trigger] rebased_place(orbit, k, zero, advance, weak, combine),
            ) is None,
    ensures
        ({
            let shown = rebased(
                orbit,
                0,
                0,
                zero,
                max_iter,
                advance,
                escape,
                weak,
                combine,
                smooth,
            );
            &&& n == max_iter ==> shown == single_of(max_iter)
            &&& n < max_iter ==> (value_of(
                escape,
                rebased_place(orbit, n, zero, advance, weak, combine),
            ) matches Some(zn_sq) ==> {
                &&& n + 1 < max_iter ==> shown == value_of(smooth, ((n + 1) as u32, zn_sq))
                &&& n + 1 == max_iter ==> shown == single_of(max_iter)
            })
        }),
{
    lemma_rebased_after(orbit, n, zero, max_iter, advance, escape, weak, combine, smooth);
}

} // verus!
