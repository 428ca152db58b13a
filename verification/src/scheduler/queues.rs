//! The tiles that wait to be computed: those of the CPU, and those of the device
//! that are held back so that the CPU can take them once it runs out of its own.

use crate::scheduler::classifier::{lemma_weigh_joined, lemma_weigh_one, weigh};
use std::collections::VecDeque;
use vstd::prelude::*;

verus! {

/// The two queues that the workers and the device draw from.
pub struct TileQueues {
    pub cpu: VecDeque<[u32; 4]>,
    pub steal: VecDeque<[u32; 4]>,
}

/// A queue of the given tiles, the first one at the front.
fn queue_of(tiles: &Vec<[u32; 4]>) -> (q: VecDeque<[u32; 4]>)
    ensures
        q@ == tiles@,
{
    let mut q: VecDeque<[u32; 4]> = VecDeque::new();
    let mut i: usize = 0;
    while i < tiles.len()
        invariant
            i <= tiles@.len(),
            q@ == tiles@.take(i as int),
        decreases tiles@.len() - i,
    {
        q.push_back(tiles[i]);
        assert(q@ =~= tiles@.take(i + 1));
        i = i + 1;
    }
    assert(tiles@.take(i as int) =~= tiles@);
    q
}

impl TileQueues {
    /// Queues of the CPU's own tiles and of the tiles held back.
    pub fn new(cpu_tiles: &Vec<[u32; 4]>, reserve: &Vec<[u32; 4]>) -> (r: TileQueues)
        ensures
            r.cpu@ == cpu_tiles@,
            r.steal@ == reserve@,
    {
        TileQueues { cpu: queue_of(cpu_tiles), steal: queue_of(reserve) }
    }

    /// Hands a worker its next tile, and says whether it was held back for the
    /// device: the CPU's own tiles go first.
    pub fn claim(&mut self) -> (r: Option<([u32; 4], bool)>)
        ensures
            (r, final(self).cpu@, final(self).steal@) == after_claim(
                old(self).cpu@,
                old(self).steal@,
            ),
    {
        match self.cpu.pop_front() {
            Some(t) => {
                assert(self.cpu@ =~= old(self).cpu@.drop_first());
                Some((t, false))
            },
            None => {
                match self.steal.pop_front() {
                    Some(t) => {
                        assert(self.steal@ =~= old(self).steal@.drop_first());
                        Some((t, true))
                    },
                    None => None,
                }
            },
        }
    }

    /// Hands the device everything that is still held back, if that is at least
    /// `min_steal_tiles` tiles and not nothing.
    pub fn take_leftover(&mut self, min_steal_tiles: u32) -> (r: Option<Vec<[u32; 4]>>)
        requires
            old(self).steal@.len() <= u32::MAX,
        ensures
            final(self).cpu@ == old(self).cpu@,
            match r {
                Some(tiles) => {
                    &&& after_leftover(old(self).steal@, min_steal_tiles) == (
                        Some(tiles@),
                        final(self).steal@,
                    )
                },
                None => after_leftover(old(self).steal@, min_steal_tiles) == (
                    None::<Seq<[u32; 4]>>,
                    final(self).steal@,
                ),
            },
    {
        let n: usize = self.steal.len();
        if n as u32 >= min_steal_tiles {
            let mut leftover: Vec<[u32; 4]> = Vec::new();
            let mut i: usize = 0;
            while i < n
                invariant
                    n == self.steal@.len(),
                    i <= n,
                    leftover@ == self.steal@.take(i as int),
                decreases n - i,
            {
                leftover.push(self.steal[i]);
                assert(leftover@ =~= self.steal@.take(i + 1));
                i = i + 1;
            }
            assert(self.steal@.take(n as int) =~= self.steal@);
            self.steal.clear();
            if leftover.len() > 0 {
                return Some(leftover);
            }
            assert(self.steal@ =~= old(self).steal@);
        }
        None
    }
}

/// What a worker is handed, and the queues after that.
pub open spec fn after_claim(cpu: Seq<[u32; 4]>, steal: Seq<[u32; 4]>) -> (
    Option<([u32; 4], bool)>,
    Seq<[u32; 4]>,
    Seq<[u32; 4]>,
) {
    if cpu.len() > 0 {
        (Some((cpu.first(), false)), cpu.drop_first(), steal)
    } else if steal.len() > 0 {
        (Some((steal.first(), true)), cpu, steal.drop_first())
    } else {
        (None, cpu, steal)
    }
}

/// What the device is handed at the end, and the tiles held back after that.
pub open spec fn after_leftover(steal: Seq<[u32; 4]>, min_steal_tiles: u32) -> (
    Option<Seq<[u32; 4]>>,
    Seq<[u32; 4]>,
) {
    if steal.len() >= min_steal_tiles && steal.len() > 0 {
        (Some(steal), seq![])
    } else {
        (None, steal)
    }
}

/// Something that happens to the queues: the worker `k` asks for a tile, or the
/// device asks for what is left over.
pub enum Draw {
    Worker { k: int },
    Device { min_steal_tiles: u32 },
}

/// What the queues hold, what each worker has claimed so far (each tile with
/// whether it had been held back for the device), and what the device has got.
#[verifier::ext_equal]
pub struct Standing {
    pub cpu: Seq<[u32; 4]>,
    pub steal: Seq<[u32; 4]>,
    pub claims: Seq<Seq<([u32; 4], bool)>>,
    pub device: Seq<[u32; 4]>,
}

/// The tiles among the claims of one worker.
pub open spec fn tiles_of(claims: Seq<([u32; 4], bool)>) -> Seq<[u32; 4]> {
    Seq::new(claims.len(), |i: int| claims[i].0)
}

/// The tiles that the first `n` workers have claimed.
pub open spec fn claimed(claims: Seq<Seq<([u32; 4], bool)>>, n: nat) -> Seq<[u32; 4]>
    decreases n,
{
    if n == 0 {
        seq![]
    } else {
        claimed(claims, (n - 1) as nat) + tiles_of(claims[n - 1])
    }
}

/// How many of the claims are of tiles that had been held back.
pub open spec fn stolen_in(claims: Seq<([u32; 4], bool)>) -> nat
    decreases claims.len(),
{
    if claims.len() == 0 {
        0
    } else {
        stolen_in(claims.drop_last()) + (if claims.last().1 {
            1nat
        } else {
            0nat
        })
    }
}

impl Standing {
    /// Where `n` workers and the device start: nothing has been claimed, and the
    /// device has got its own tiles.
    pub open spec fn at_start(
        n: nat,
        cpu: Seq<[u32; 4]>,
        steal: Seq<[u32; 4]>,
        device: Seq<[u32; 4]>,
    ) -> Standing {
        Standing { cpu, steal, claims: Seq::new(n, |k: int| seq![]), device }
    }

    /// The standing after one draw.
    pub open spec fn after(self, d: Draw) -> Standing {
        match d {
            Draw::Worker { k } => {
                let (r, cpu, steal) = after_claim(self.cpu, self.steal);
                if let Some(claim) = r {
                    if 0 <= k < self.claims.len() {
                        Standing {
                            cpu,
                            steal,
                            claims: self.claims.update(k, self.claims[k].push(claim)),
                            device: self.device,
                        }
                    } else {
                        self
                    }
                } else {
                    self
                }
            },
            Draw::Device { min_steal_tiles } => {
                let (r, steal) = after_leftover(self.steal, min_steal_tiles);
                match r {
                    Some(tiles) => Standing { steal, device: self.device + tiles, ..self },
                    None => self,
                }
            },
        }
    }

    /// The standing after a sequence of draws.
    pub open spec fn after_all(self, draws: Seq<Draw>) -> Standing
        decreases draws.len(),
    {
        if draws.len() == 0 {
            self
        } else {
            self.after_all(draws.drop_last()).after(draws.last())
        }
    }

    /// What `weight` answers for all tiles together, waiting or handed out.
    pub open spec fn weight(self, weight: spec_fn([u32; 4]) -> int) -> int {
        weigh(self.cpu, weight) + weigh(self.steal, weight) + weigh(self.device, weight) + weigh(
            claimed(self.claims, self.claims.len()),
            weight,
        )
    }

    /// A worker that asks for a tile is told that there is none.
    pub open spec fn is_drained(self) -> bool {
        after_claim(self.cpu, self.steal).0 is None
    }
}

proof fn lemma_weigh_split(tiles: Seq<[u32; 4]>, weight: spec_fn([u32; 4]) -> int)
    requires
        tiles.len() > 0,
    ensures
        weigh(tiles, weight) == weight(tiles.first()) + weigh(tiles.drop_first(), weight),
{
    assert(tiles =~= seq![tiles.first()] + tiles.drop_first());
    lemma_weigh_joined(seq![tiles.first()], tiles.drop_first(), weight);
    lemma_weigh_one(tiles.first(), weight);
}

proof fn lemma_claim_adds(
    claims: Seq<Seq<([u32; 4], bool)>>,
    n: nat,
    k: int,
    claim: ([u32; 4], bool),
    weight: spec_fn([u32; 4]) -> int,
)
    requires
        0 <= k < claims.len(),
        n <= claims.len(),
    ensures
        weigh(claimed(claims.update(k, claims[k].push(claim)), n), weight) == weigh(
            claimed(claims, n),
            weight,
        ) + (if k < n {
            weight(claim.0)
        } else {
            0
        }),
    decreases n,
{
    if n > 0 {
        let m = (n - 1) as nat;
        let more = claims.update(k, claims[k].push(claim));
        lemma_claim_adds(claims, m, k, claim, weight);
        lemma_weigh_joined(claimed(claims, m), tiles_of(claims[m as int]), weight);
        lemma_weigh_joined(claimed(more, m), tiles_of(more[m as int]), weight);
        if k == m {
            assert(tiles_of(more[k]) =~= tiles_of(claims[k]) + seq![claim.0]);
            lemma_weigh_joined(tiles_of(claims[k]), seq![claim.0], weight);
            lemma_weigh_one(claim.0, weight);
        }
    }
}

/// No tile is lost and none is handed out twice, in whatever order the workers
/// and the device draw: whatever is counted of the tiles, all of them together,
/// waiting or handed out, count for as much as at the start.
pub proof fn law_no_tile_is_lost_or_doubled(
    start: Standing,
    draws: Seq<Draw>,
    weight: spec_fn([u32; 4]) -> int,
)
    ensures
        start.after_all(draws).claims.len() == start.claims.len(),
        start.after_all(draws).weight(weight) == start.weight(weight),
    decreases draws.len(),
{
    if draws.len() > 0 {
        let before = start.after_all(draws.drop_last());
        law_no_tile_is_lost_or_doubled(start, draws.drop_last(), weight);
        match draws.last() {
            Draw::Worker { k } => {
                if 0 <= k < before.claims.len() {
                    let n = before.claims.len();
                    if before.cpu.len() > 0 {
                        lemma_weigh_split(before.cpu, weight);
                        lemma_claim_adds(before.claims, n, k, (before.cpu.first(), false), weight);
                    } else if before.steal.len() > 0 {
                        lemma_weigh_split(before.steal, weight);
                        lemma_claim_adds(before.claims, n, k, (before.steal.first(), true), weight);
                    }
                }
            },
            Draw::Device { min_steal_tiles } => {
                lemma_weigh_joined(before.device, before.steal, weight);
                assert(weigh(Seq::<[u32; 4]>::empty(), weight) == 0);
            },
        }
    }
}

/// Once a worker is told that there is nothing left, every tile has been handed
/// out: what the workers claimed and what the device got count for as much as all
/// tiles did at the start.
pub proof fn law_idle_worker_means_all_handed_out(
    start: Standing,
    draws: Seq<Draw>,
    weight: spec_fn([u32; 4]) -> int,
)
    requires
        start.after_all(draws).is_drained(),
    ensures
        ({
            let end = start.after_all(draws);
            weigh(end.device, weight) + weigh(claimed(end.claims, end.claims.len()), weight)
                == start.weight(weight)
        }),
{
    law_no_tile_is_lost_or_doubled(start, draws, weight);
    assert(weigh(Seq::<[u32; 4]>::empty(), weight) == 0);
    let end = start.after_all(draws);
    assert(end.cpu =~= Seq::<[u32; 4]>::empty());
    assert(end.steal =~= Seq::<[u32; 4]>::empty());
}

/// Where nothing is held back, the device gets nothing more than it has, and no
/// claim is of a tile that had been held back.
pub proof fn law_nothing_held_back_nothing_stolen(start: Standing, draws: Seq<Draw>)
    requires
        start.steal.len() == 0,
        forall|k: int| 0 <= k < start.claims.len() ==> stolen_in(#[trigger] start.claims[k]) == 0,
    ensures
        ({
            let end = start.after_all(draws);
            &&& end.steal.len() == 0
            &&& end.device == start.device
            &&& end.claims.len() == start.claims.len()
            &&& forall|k: int| 0 <= k < end.claims.len() ==> stolen_in(#[trigger] end.claims[k]) == 0
        }),
    decreases draws.len(),
{
    if draws.len() > 0 {
        law_nothing_held_back_nothing_stolen(start, draws.drop_last());
        let before = start.after_all(draws.drop_last());
        let end = start.after_all(draws);
        if let Draw::Worker { k } = draws.last() {
            if 0 <= k < before.claims.len() && before.cpu.len() > 0 {
                let claim = (before.cpu.first(), false);
                assert(before.claims[k].push(claim).drop_last() =~= before.claims[k]);
                assert forall|j: int| 0 <= j < end.claims.len() implies stolen_in(
                    #[trigger] end.claims[j],
                ) == 0 by {
                    assert(stolen_in(before.claims[j]) == 0);
                }
            }
        }
    }
}

/// How many of the claims of the first `n` workers are of tiles that had been
/// held back.
pub open spec fn stolen_in_all(claims: Seq<Seq<([u32; 4], bool)>>, n: nat) -> nat
    decreases n,
{
    if n == 0 {
        0
    } else {
        stolen_in_all(claims, (n - 1) as nat) + stolen_in(claims[n - 1])
    }
}

proof fn lemma_claim_counts(
    claims: Seq<Seq<([u32; 4], bool)>>,
    n: nat,
    k: int,
    claim: ([u32; 4], bool),
)
    requires
        0 <= k < claims.len(),
        n <= claims.len(),
    ensures
        stolen_in_all(claims.update(k, claims[k].push(claim)), n) == stolen_in_all(claims, n) + (
        if k < n && claim.1 {
            1nat
        } else {
            0nat
        }),
    decreases n,
{
    if n > 0 {
        lemma_claim_counts(claims, (n - 1) as nat, k, claim);
        assert(claims[k].push(claim).drop_last() =~= claims[k]);
    }
}

/// The tiles held back are accounted for, in whatever order the workers and the
/// device draw: each still waits, was claimed by a worker and counted there, or
/// went to the device.
pub proof fn law_reserve_is_accounted_for(start: Standing, draws: Seq<Draw>)
    ensures
        ({
            let end = start.after_all(draws);
            &&& end.claims.len() == start.claims.len()
            &&& end.steal.len() + end.device.len() + stolen_in_all(end.claims, end.claims.len())
                == start.steal.len() + start.device.len() + stolen_in_all(
                start.claims,
                start.claims.len(),
            )
        }),
    decreases draws.len(),
{
    if draws.len() > 0 {
        law_reserve_is_accounted_for(start, draws.drop_last());
        let before = start.after_all(draws.drop_last());
        if let Draw::Worker { k } = draws.last() {
            if 0 <= k < before.claims.len() {
                let n = before.claims.len();
                if before.cpu.len() > 0 {
                    lemma_claim_counts(before.claims, n, k, (before.cpu.first(), false));
                } else if before.steal.len() > 0 {
                    lemma_claim_counts(before.claims, n, k, (before.steal.first(), true));
                }
            }
        }
    }
}

/// Who gets what: a worker the first of the CPU's own tiles while there is one, then the
/// first of those held back, which is then counted as such, and nothing once both are
/// used up. Whatever is not handed out stays, in its order.
pub proof fn law_own_tiles_are_claimed_before_held_back_ones(
    t: [u32; 4],
    own: Seq<[u32; 4]>,
    held: Seq<[u32; 4]>,
)
    ensures
        after_claim(seq![t] + own, held) == (Some((t, false)), own, held),
        after_claim(Seq::empty(), seq![t] + held) == (
            Some((t, true)),
            Seq::<[u32; 4]>::empty(),
            held,
        ),
        after_claim(Seq::empty(), Seq::empty()) == (
            None::<([u32; 4], bool)>,
            Seq::<[u32; 4]>::empty(),
            Seq::<[u32; 4]>::empty(),
        ),
{
    assert((seq![t] + own).drop_first() =~= own);
    assert((seq![t] + held).drop_first() =~= held);
}

/// The device gets all that is still held back if that is at least as many tiles as it
/// is worth it for, and at least one; else it gets nothing, and they stay.
pub proof fn law_device_gets_all_or_nothing_of_the_leftover(held: Seq<[u32; 4]>, min_steal_tiles: u32)
    ensures
        0 < held.len() && min_steal_tiles <= held.len() ==> after_leftover(held, min_steal_tiles)
            == (Some(held), Seq::<[u32; 4]>::empty()),
        held.len() == 0 || held.len() < min_steal_tiles ==> after_leftover(held, min_steal_tiles)
            == (None::<Seq<[u32; 4]>>, held),
{
}

} // verus!
