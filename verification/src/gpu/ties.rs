//! Which split the threads that choose one agree on where none gains more than the first.

use vstd::prelude::*;

use crate::float::F32;
use crate::gpu::split::compared;
use crate::gpu::split::lane_best;
use crate::gpu::split::lanes_of;
use crate::gpu::split::reduced;
use crate::gpu::split::winner;
use crate::gpu::split::LANES;
use crate::gpu::split::NO_GAIN32;

verus! {

/// None of the gains is larger than the first.
pub open spec fn first_leads(gains: Seq<F32>, total: int) -> bool {
    &&& (F32 { bits: NO_GAIN32 }).below(gains[0])
    &&& forall|i: int| 0 <= i < total ==> !gains[0].below(#[trigger] gains[i])
}

proof fn lemma_first_lane(gains: Seq<F32>, total: int, lane: int, k: nat)
    requires
        0 < total,
        0 <= lane,
        first_leads(gains, total),
    ensures
        lane == 0 && k > 0 ==> lane_best(gains, total, lane, k) == (gains[0], 0int),
        !gains[0].below(lane_best(gains, total, lane, k).0),
    decreases k,
{
    if k > 0 {
        lemma_first_lane(gains, total, lane, (k - 1) as nat);
        let i = lane + LANES * (k - 1);
        if i < total {
            assert(!gains[0].below(gains[i]));
        }
    }
}

proof fn lemma_first_kept(best: Seq<(F32, int)>, v: F32, s: nat)
    requires
        2 * s <= best.len(),
        0 < best.len(),
        best[0] == (v, 0int),
        forall|t: int| 0 <= t < best.len() ==> !v.below((#[trigger] best[t]).0),
    ensures
        reduced(best, s)[0] == (v, 0int),
    decreases s,
{
    if s > 0 {
        let next = compared(best, s as int);
        assert forall|t: int| 0 <= t < next.len() implies !v.below((#[trigger] next[t]).0) by {
            if t < s {
                assert(!v.below(best[t + s].0));
            }
            assert(!v.below(best[t].0));
        }
        assert(!v.below(best[s as int].0));
        lemma_first_kept(next, v, s / 2);
    }
}

/// The first split is chosen unless another one gains more: of equal gains the first is not passed
/// over.
pub proof fn lemma_first_chosen(gains: Seq<F32>, total: int)
    requires
        0 < total <= gains.len(),
        first_leads(gains, total),
    ensures
        winner(gains, total) == (gains[0], 0int),
{
    let best = lanes_of(gains, total);
    let k = (total / LANES as int + 1) as nat;
    assert forall|t: int| 0 <= t < best.len() implies !gains[0].below((#[trigger] best[t]).0) by {
        lemma_first_lane(gains, total, t, k);
    }
    lemma_first_lane(gains, total, 0, k);
    lemma_first_kept(best, gains[0], 128);
}

} // verus!
