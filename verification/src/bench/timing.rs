//! What is reported of the times of several runs.

use vstd::prelude::*;
use vstd::relations::{sorted_by, total_ordering};
use vstd::seq_lib::lemma_sorted_unique;

verus! {

/// The order of the times: a shorter one goes first.
pub open spec fn no_longer() -> spec_fn(u64, u64) -> bool {
    |a: u64, b: u64| a <= b
}

/// The times in order, the shortest first.
pub open spec fn in_order(times: Seq<u64>) -> Seq<u64> {
    times.sort_by(no_longer())
}

/// The times of several runs, in nanoseconds.
#[derive(Clone, Copy, Debug, PartialEq, Eq, Structural)]
pub struct TimeSummary {
    pub median: u64,
    pub min: u64,
    pub max: u64,
}

/// The place of the first time above `t` in a list in order.
fn place_of(sorted: &Vec<u64>, t: u64) -> (r: usize)
    requires
        sorted_by(sorted@, no_longer()),
    ensures
        r <= sorted@.len(),
        forall|i: int| 0 <= i < r ==> #[trigger] sorted@[i] <= t,
        forall|i: int| r <= i < sorted@.len() ==> t < #[trigger] sorted@[i],
{
    let mut r: usize = 0;
    while r < sorted.len() && sorted[r] <= t
        invariant
            r <= sorted@.len(),
            forall|i: int| 0 <= i < r ==> #[trigger] sorted@[i] <= t,
        decreases sorted@.len() - r,
    {
        r = r + 1;
    }
    proof {
        assert forall|i: int| r <= i < sorted@.len() implies t < #[trigger] sorted@[i] by {
            if r < i {
                assert(no_longer()(sorted@[r as int], sorted@[i]));
            }
        }
    }
    r
}

/// Puts the times in order.
fn sort_times(times: &Vec<u64>) -> (sorted: Vec<u64>)
    ensures
        sorted@ == in_order(times@),
{
    let mut sorted: Vec<u64> = Vec::new();
    let mut k: usize = 0;
    assert(times@.take(0) =~= sorted@);
    while k < times.len()
        invariant
            k <= times@.len(),
            sorted@.len() == k,
            sorted_by(sorted@, no_longer()),
            sorted@.to_multiset() =~= times@.take(k as int).to_multiset(),
        decreases times@.len() - k,
    {
        let at: usize = place_of(&sorted, times[k]);
        let ghost before = sorted@;
        sorted.insert(at, times[k]);
        proof {
            let t = times@[k as int];
            assert(sorted@ == before.insert(at as int, t));
            assert(times@.take(k + 1) =~= times@.take(k as int).push(t));
            vstd::seq_lib::to_multiset_insert(before, at as int, t);
            vstd::seq_lib::to_multiset_build(times@.take(k as int), t);
            assert forall|i: int, j: int| 0 <= i < j < sorted@.len() implies #[trigger] no_longer()(
                sorted@[i],
                sorted@[j],
            ) by {
                let a = if i < at {
                    i
                } else {
                    i - 1
                };
                let b = if j < at {
                    j
                } else {
                    j - 1
                };
                if i != at && j != at {
                    assert(no_longer()(before[a], before[b]));
                }
            }
        }
        k = k + 1;
    }
    proof {
        assert(times@.take(k as int) =~= times@);
        assert(total_ordering(no_longer()));
        times@.lemma_sort_by_ensures(no_longer());
        lemma_sorted_unique(sorted@, in_order(times@), no_longer());
    }
    sorted
}

/// The median, the shortest and the longest of the times. Of an even number of
/// times the median is the later one of the two in the middle.
pub fn summarize_times(times: &Vec<u64>) -> (r: TimeSummary)
    requires
        times@.len() > 0,
    ensures
        r.median == in_order(times@)[times@.len() as int / 2],
        r.min == in_order(times@)[0],
        r.max == in_order(times@)[times@.len() - 1],
{
    proof {
        lemma_in_order_len(times@);
    }
    let n: usize = times.len();
    let sorted: Vec<u64> = sort_times(times);
    TimeSummary { median: sorted[n / 2], min: sorted[0], max: sorted[n - 1] }
}

proof fn lemma_in_order_len(times: Seq<u64>)
    ensures
        in_order(times).len() == times.len(),
{
    broadcast use vstd::seq_lib::group_to_multiset_ensures;

    assert(total_ordering(no_longer()));
    times.lemma_sort_by_ensures(no_longer());
    assert(times.to_multiset().len() == in_order(times).to_multiset().len());
}

/// No run is shorter than the shortest time that is reported or longer than the
/// longest, and the median lies between them.
pub proof fn law_summary_encloses_every_run(times: Seq<u64>, k: int)
    requires
        0 <= k < times.len(),
    ensures
        in_order(times).len() == times.len(),
        in_order(times)[0] <= times[k] <= in_order(times)[times.len() - 1],
        in_order(times)[0] <= in_order(times)[times.len() as int / 2] <= in_order(
            times,
        )[times.len() - 1],
{
    broadcast use vstd::seq_lib::group_to_multiset_ensures;

    let sorted = in_order(times);
    let n = times.len() as int;
    lemma_in_order_len(times);
    assert(total_ordering(no_longer()));
    times.lemma_sort_by_ensures(no_longer());
    assert(times.contains(times[k]));
    assert(sorted.to_multiset().count(times[k]) > 0);
    assert(sorted.contains(times[k]));
    let i = choose|i: int| 0 <= i < sorted.len() && sorted[i] == times[k];
    if 0 < i {
        assert(no_longer()(sorted[0], sorted[i]));
    }
    if i < n - 1 {
        assert(no_longer()(sorted[i], sorted[n - 1]));
    }
    if 0 < n / 2 {
        assert(no_longer()(sorted[0], sorted[n / 2]));
    }
    if n / 2 < n - 1 {
        assert(no_longer()(sorted[n / 2], sorted[n - 1]));
    }
}

/// The times in order are the times, each as often as it occurs, with no later one
/// shorter than an earlier one. The order is that of the numbers.
pub proof fn law_times_in_order_are_the_times(times: Seq<u64>, i: int, j: int)
    requires
        0 <= i <= j < times.len(),
    ensures
        in_order(times).len() == times.len(),
        in_order(times).to_multiset() == times.to_multiset(),
        in_order(times)[i] <= in_order(times)[j],
{
    lemma_in_order_len(times);
    assert(total_ordering(no_longer()));
    times.lemma_sort_by_ensures(no_longer());
    if i < j {
        assert(no_longer()(in_order(times)[i], in_order(times)[j]));
    }
}

} // verus!
