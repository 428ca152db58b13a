//! Feedback on the classifier's threshold: each frame's measured times on the
//! device and on the CPU nudge it so that the two stay balanced.

use crate::float_bits::{single_is_nan_spec, single_lt, single_lt_spec};
use crate::func::{evaluate, is_function, value_of};
use vstd::prelude::*;

verus! {

/// The smallest threshold: one thousandth, as a single.
pub const THRESHOLD_MIN: u32 = 0x3a83_126f;

/// The largest threshold: one half, as a single.
pub const THRESHOLD_MAX: u32 = 0x3f00_0000;

/// How many frames the integral term looks back.
pub const HISTORY: usize = 16;

/// A proportional-integral controller on the classifier's threshold. The error
/// that it drives towards zero is the device's time less the CPU's.
///
/// All numbers are bit patterns of singles.
pub struct ThresholdController {
    pub threshold: u32,
    /// The mean of the stored errors, as of the last update.
    pub integral: u32,
    /// The errors of the last frames; `head` is where the next one goes.
    pub history: [u32; 16],
    pub head: usize,
}

/// `v` held between `lo` and `hi`; a NaN is left as it is.
pub open spec fn clamped(v: u32, lo: u32, hi: u32) -> u32 {
    if single_lt_spec(v, lo) {
        lo
    } else if single_lt_spec(hi, v) {
        hi
    } else {
        v
    }
}

/// Holds `v` between `lo` and `hi`; a NaN is left as it is.
pub fn clamp_single(v: u32, lo: u32, hi: u32) -> (r: u32)
    ensures
        r == clamped(v, lo, hi),
{
    if single_lt(v, lo) {
        lo
    } else if single_lt(hi, v) {
        hi
    } else {
        v
    }
}

impl ThresholdController {
    /// The place for the next error is one of the places there are.
    pub open spec fn inv(self) -> bool {
        self.head < HISTORY
    }

    /// The last errors, the oldest first.
    pub open spec fn recent(self) -> Seq<u32> {
        Seq::new(HISTORY as nat, |i: int| self.history[(self.head + i) % HISTORY as int])
    }

    /// Taking in `error` makes this controller `after`: the error takes the place of
    /// the oldest stored one, and the threshold is moved against it and against the
    /// mean of those now stored, within its bounds.
    pub open spec fn leads_to<M: Fn([u32; 16]) -> u32, A: Fn((u32, u32, u32)) -> u32>(
        self,
        after: ThresholdController,
        error: u32,
        mean: M,
        adjust: A,
    ) -> bool {
        &&& after.history@ == self.history@.update(self.head as int, error)
        &&& after.head == (self.head + 1) % HISTORY as int
        &&& after.integral == value_of(mean, after.history)
        &&& after.threshold == clamped(
            value_of(adjust, (self.threshold, error, after.integral)),
            THRESHOLD_MIN,
            THRESHOLD_MAX,
        )
    }

    /// A controller that has seen no frame yet.
    pub fn new(initial: u32) -> (r: ThresholdController)
        ensures
            r.inv(),
            r.threshold == initial,
            r.integral == 0,
            r.recent() == Seq::new(HISTORY as nat, |i: int| 0u32),
    {
        let r = ThresholdController { threshold: initial, integral: 0, history: [0u32; 16], head: 0 };
        assert(r.recent() =~= Seq::new(HISTORY as nat, |i: int| 0u32));
        r
    }

    /// Takes in one frame's measured times. `difference` answers one number less
    /// another, `mean` the mean of the stored errors, and `adjust` the threshold
    /// moved against an error and a mean error. The threshold is then held
    /// between its bounds, so that no imbalance, however large, sends all tiles
    /// to one side.
    pub fn update<
        D: Fn((u32, u32)) -> u32,
        M: Fn([u32; 16]) -> u32,
        A: Fn((u32, u32, u32)) -> u32,
    >(&mut self, gpu_ms: u32, cpu_ms: u32, difference: &D, mean: &M, adjust: &A)
        requires
            old(self).inv(),
            is_function(*difference),
            is_function(*mean),
            is_function(*adjust),
        ensures
            final(self).inv(),
            final(self).recent() == old(self).recent().drop_first().push(
                value_of(*difference, (gpu_ms, cpu_ms)),
            ),
            old(self).leads_to(
                *final(self),
                value_of(*difference, (gpu_ms, cpu_ms)),
                *mean,
                *adjust,
            ),
    {
        let error: u32 = evaluate(difference, (gpu_ms, cpu_ms));
        self.history[self.head] = error;
        self.head = (self.head + 1) % HISTORY;
        self.integral = evaluate(mean, self.history);
        let moved: u32 = evaluate(adjust, (self.threshold, error, self.integral));
        self.threshold = clamp_single(moved, THRESHOLD_MIN, THRESHOLD_MAX);
        proof {
            let a = old(self).recent().drop_first().push(error);
            assert(self.recent() =~= a);
        }
    }
}

/// The stored errors are the recent ones: a value is stored if and only if it is
/// one of them.
pub proof fn law_stored_errors_are_the_recent_ones(c: ThresholdController, v: u32)
    requires
        c.inv(),
    ensures
        c.history@.contains(v) <==> c.recent().contains(v),
{
    let h = c.head as int;
    if c.history@.contains(v) {
        let i = choose|i: int| 0 <= i < 16 && c.history@[i] == v;
        let k = (i - h) % 16;
        assert((h + k) % 16 == i);
        assert(c.recent()[k] == v);
    }
    if c.recent().contains(v) {
        let k = choose|k: int| 0 <= k < 16 && c.recent()[k] == v;
        assert(c.history@[(h + k) % 16] == v);
    }
}

/// After any update the threshold lies between its bounds, or is a NaN.
pub proof fn law_threshold_stays_in_bounds(v: u32)
    ensures
        ({
            let t = clamped(v, THRESHOLD_MIN, THRESHOLD_MAX);
            ||| single_is_nan_spec(v) && t == v
            ||| !single_lt_spec(t, THRESHOLD_MIN) && !single_lt_spec(THRESHOLD_MAX, t)
                && !single_is_nan_spec(t)
        }),
{
}

/// `states` are a controller before, between and after taking in `errors`, one
/// after the other.
pub open spec fn is_run<M: Fn([u32; 16]) -> u32, A: Fn((u32, u32, u32)) -> u32>(
    states: Seq<ThresholdController>,
    errors: Seq<u32>,
    mean: M,
    adjust: A,
) -> bool {
    &&& states.len() == errors.len() + 1
    &&& states[0].inv()
    &&& forall|i: int|
        0 <= i < errors.len() ==> states[i].leads_to(
            states[i + 1],
            #[trigger] errors[i],
            mean,
            adjust,
        )
}

proof fn lemma_recent_shifts<M: Fn([u32; 16]) -> u32, A: Fn((u32, u32, u32)) -> u32>(
    before: ThresholdController,
    after: ThresholdController,
    error: u32,
    mean: M,
    adjust: A,
)
    requires
        before.inv(),
        before.leads_to(after, error, mean, adjust),
    ensures
        after.inv(),
        after.recent() == before.recent().drop_first().push(error),
{
    assert(after.recent() =~= before.recent().drop_first().push(error));
}

/// The last errors that a controller has taken in are the only ones it stores.
pub proof fn law_only_the_last_errors_are_stored<
    M: Fn([u32; 16]) -> u32,
    A: Fn((u32, u32, u32)) -> u32,
>(states: Seq<ThresholdController>, errors: Seq<u32>, mean: M, adjust: A, n: int)
    requires
        is_run(states, errors, mean, adjust),
        0 <= n <= errors.len(),
    ensures
        states[n].inv(),
        forall|i: int|
            0 <= i < HISTORY && HISTORY <= n + i ==> #[trigger] states[n].recent()[i] == errors[n
                + i - HISTORY],
        n >= HISTORY ==> states[n].recent() == errors.subrange(n - HISTORY, n),
    decreases n,
{
    if n > 0 {
        law_only_the_last_errors_are_stored(states, errors, mean, adjust, n - 1);
        let before = states[n - 1];
        let after = states[n];
        assert(before.leads_to(after, errors[n - 1], mean, adjust));
        lemma_recent_shifts(before, after, errors[n - 1], mean, adjust);
        assert forall|i: int| 0 <= i < HISTORY && HISTORY <= n + i implies #[trigger] after.recent()[i]
            == errors[n + i - HISTORY] by {
            if i < HISTORY - 1 {
                assert(after.recent()[i] == before.recent()[i + 1]);
            }
        }
    }
    if n >= HISTORY {
        assert(states[n].recent() =~= errors.subrange(n - HISTORY, n));
    }
}

/// `mean` answers alike for the same errors in places moved round by any number.
pub open spec fn ignores_rotation<M: Fn([u32; 16]) -> u32>(mean: M) -> bool {
    forall|g: [u32; 16], h: [u32; 16], by: int|
        #[trigger] is_rotation(g, h, by) ==> value_of(mean, g) == value_of(mean, h)
}

/// `h` holds at each place what `g` holds `by` places further on.
pub open spec fn is_rotation(g: [u32; 16], h: [u32; 16], by: int) -> bool {
    forall|i: int| 0 <= i < 16 ==> #[trigger] h@[i] == g@[(i + by) % 16]
}

proof fn lemma_places_move_round(a: int, b: int, i: int)
    requires
        0 <= a < 16,
        0 <= b < 16,
        0 <= i < 16,
    ensures
        0 <= (i - b) % 16 < 16,
        (b + (i - b) % 16) % 16 == i,
        (a + (i - b) % 16) % 16 == (i + (a - b)) % 16,
{
}

proof fn lemma_same_recent(a: ThresholdController, b: ThresholdController)
    requires
        a.inv(),
        b.inv(),
        a.recent() == b.recent(),
    ensures
        is_rotation(a.history, b.history, a.head - b.head),
        a.head == b.head ==> a.history == b.history,
{
    let by = a.head - b.head;
    assert forall|i: int| 0 <= i < 16 implies #[trigger] b.history@[i] == a.history@[(i + by) % 16] by {
        let k = (i - b.head) % 16;
        lemma_places_move_round(a.head as int, b.head as int, i);
        assert(b.recent()[k] == b.history[(b.head + k) % 16]);
        assert(a.recent()[k] == a.history[(a.head + k) % 16]);
    }
    if a.head == b.head {
        assert(a.history@ =~= b.history@);
    }
}

/// An imbalance further back than the stored errors has no influence any more:
/// two controllers whatever their pasts, of equal thresholds, which have taken in
/// the same errors in the last frames, come out equal from the last update. The
/// mean adds the errors up in the order of their places, so the places have to be
/// the same too, unless the mean does not depend on them.
pub proof fn law_old_errors_have_no_influence<
    M: Fn([u32; 16]) -> u32,
    A: Fn((u32, u32, u32)) -> u32,
>(
    states: Seq<ThresholdController>,
    errors: Seq<u32>,
    others: Seq<ThresholdController>,
    other_errors: Seq<u32>,
    mean: M,
    adjust: A,
)
    requires
        is_run(states, errors, mean, adjust),
        is_run(others, other_errors, mean, adjust),
        errors.len() >= HISTORY,
        other_errors.len() >= HISTORY,
        errors.subrange(errors.len() - HISTORY, errors.len() as int) == other_errors.subrange(
            other_errors.len() - HISTORY,
            other_errors.len() as int,
        ),
        states[errors.len() - 1].threshold == others[other_errors.len() - 1].threshold,
        states.last().head == others.last().head || ignores_rotation(mean),
    ensures
        states.last().recent() == others.last().recent(),
        states.last().integral == others.last().integral,
        states.last().threshold == others.last().threshold,
        states.last().head == others.last().head ==> states.last() == others.last(),
{
    let n = errors.len() as int;
    let m = other_errors.len() as int;
    let a = states[n];
    let b = others[m];
    law_only_the_last_errors_are_stored(states, errors, mean, adjust, n);
    law_only_the_last_errors_are_stored(others, other_errors, mean, adjust, m);
    assert(states[n - 1].leads_to(a, errors[n - 1], mean, adjust));
    assert(others[m - 1].leads_to(b, other_errors[m - 1], mean, adjust));
    assert(a.recent() == b.recent());
    assert(a.recent()[15] == b.recent()[15]);
    lemma_same_recent(a, b);
}

/// Balanced frames leave the threshold where it is: after as many updates with
/// equal times as there are errors stored, the last of them does not move it,
/// whatever imbalance came before. `zero` is the difference of equal times; its
/// mean is taken to be `flat`, and moving the threshold against the two to leave
/// it as it is.
pub proof fn law_balanced_frames_leave_the_threshold<
    M: Fn([u32; 16]) -> u32,
    A: Fn((u32, u32, u32)) -> u32,
>(
    states: Seq<ThresholdController>,
    errors: Seq<u32>,
    mean: M,
    adjust: A,
    zero: u32,
    flat: u32,
)
    requires
        is_run(states, errors, mean, adjust),
        errors.len() >= HISTORY,
        forall|i: int| errors.len() - HISTORY <= i < errors.len() ==> #[trigger] errors[i] == zero,
        forall|h: [u32; 16]|
            (forall|i: int| 0 <= i < 16 ==> #[trigger] h@[i] == zero) ==> #[trigger] value_of(
                mean,
                h,
            ) == flat,
        value_of(adjust, (states[errors.len() - 1].threshold, zero, flat))
            == states[errors.len() - 1].threshold,
    ensures
        states.last().threshold == states[errors.len() - 1].threshold,
{
    let n = errors.len() as int;
    let last = states[n];
    law_only_the_last_errors_are_stored(states, errors, mean, adjust, n);
    assert(states[n - 2].leads_to(states[n - 1], errors[n - 2], mean, adjust));
    assert(states[n - 1].leads_to(last, errors[n - 1], mean, adjust));
    assert forall|i: int| 0 <= i < 16 implies #[trigger] last.history@[i] == zero by {
        law_stored_errors_are_the_recent_ones(last, last.history@[i]);
        assert(last.history@.contains(last.history@[i]));
        let k = choose|k: int| 0 <= k < 16 && last.recent()[k] == last.history@[i];
        assert(last.recent()[k] == errors[n + k - HISTORY]);
    }
    assert(last.integral == flat);
}

/// Holding a number between two bounds leaves it as it is where it lies between
/// them, and else gives the bound that it is beyond.
pub proof fn law_clamping_moves_only_what_is_outside(v: u32, lo: u32, hi: u32)
    ensures
        !single_lt_spec(v, lo) && !single_lt_spec(hi, v) ==> clamped(v, lo, hi) == v,
        single_lt_spec(v, lo) ==> clamped(v, lo, hi) == lo,
        single_lt_spec(hi, v) && !single_lt_spec(v, lo) ==> clamped(v, lo, hi) == hi,
{
}

/// What an update does: the error joins the recent ones in place of the oldest,
/// the mean is that of the errors stored then, and the threshold becomes what
/// moving it against both gives, or the bound that this is beyond: one thousandth
/// or one half.
pub proof fn law_update_moves_the_threshold<
    M: Fn([u32; 16]) -> u32,
    A: Fn((u32, u32, u32)) -> u32,
>(before: ThresholdController, after: ThresholdController, error: u32, mean: M, adjust: A)
    requires
        before.inv(),
        before.leads_to(after, error, mean, adjust),
    ensures
        after.head < 16,
        forall|i: int|
            0 <= i < 15 ==> #[trigger] after.history@[(after.head + i) % 16]
                == before.history@[(before.head + i + 1) % 16],
        after.history@[(after.head + 15) % 16] == error,
        after.integral == value_of(mean, after.history),
        ({
            let moved = value_of(
                adjust,
                (before.threshold, error, value_of(mean, after.history)),
            );
            &&& single_lt_spec(moved, 0x3a83_126f) ==> after.threshold == 0x3a83_126f
            &&& single_lt_spec(0x3f00_0000, moved) ==> after.threshold == 0x3f00_0000
            &&& !single_lt_spec(moved, 0x3a83_126f) && !single_lt_spec(0x3f00_0000, moved)
                ==> after.threshold == moved
        }),
{
    assert forall|i: int| 0 <= i < 15 implies #[trigger] after.history@[(after.head + i) % 16]
        == before.history@[(before.head + i + 1) % 16] by {
        assert((after.head + i) % 16 == (before.head + i + 1) % 16);
        assert((before.head + i + 1) % 16 != before.head);
    }
    assert((after.head + 15) % 16 == before.head);
}

} // verus!
