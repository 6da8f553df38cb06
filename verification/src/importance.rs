//! What the importance of a feature says of the splits of a forest.

use vstd::prelude::*;

use crate::arith::counted32;
use crate::arith::sum32;
use crate::arith::Arith;
use crate::cpu::lemma_grown;
use crate::cpu::lemma_state_sizes;
use crate::cpu::split_features;
use crate::cpu::tally_count;
use crate::cpu::tally_gain;
use crate::cpu::Problem;
use crate::float::F32;
use crate::float::ONE32;
use crate::split::Choice;

verus! {

/// Counting up by one is exact as far as `most`.
pub open spec fn counts_up<A: Arith>(most: nat) -> bool {
    &&& counted32::<A>(0) == (F32 { bits: 0 })
    &&& forall|k: u64|
        k < most ==> sum32::<A>(#[trigger] counted32::<A>(k), F32 { bits: ONE32 }) == counted32::<
            A,
        >((k + 1) as u64)
}

/// How many of the first `k` splits are on feature `f`.
pub open spec fn splits_on(feat: Seq<u32>, f: int, k: nat) -> nat
    decreases k,
{
    if k == 0 {
        0
    } else if feat[k - 1] == f {
        splits_on(feat, f, (k - 1) as nat) + 1
    } else {
        splits_on(feat, f, (k - 1) as nat)
    }
}

/// How many of the first `k` splits are on the first `m` features.
pub open spec fn splits_below(feat: Seq<u32>, m: nat, k: nat) -> nat
    decreases m,
{
    if m == 0 {
        0
    } else {
        splits_below(feat, (m - 1) as nat, k) + splits_on(feat, m - 1, k)
    }
}

proof fn lemma_one_feature(feat: Seq<u32>, m: nat, k: nat)
    requires
        k > 0,
    ensures
        splits_below(feat, m, k) == splits_below(feat, m, (k - 1) as nat) + if feat[k - 1] < m {
            1nat
        } else {
            0nat
        },
    decreases m,
{
    if m > 0 {
        lemma_one_feature(feat, (m - 1) as nat, k);
    }
}

proof fn lemma_no_feature(feat: Seq<u32>, m: nat)
    ensures
        splits_below(feat, m, 0) == 0,
    decreases m,
{
    if m > 0 {
        lemma_no_feature(feat, (m - 1) as nat);
    }
}

/// Every split is on one feature: the splits of all features together are all splits.
pub proof fn lemma_splits_add_up(feat: Seq<u32>, nf: nat, k: nat)
    requires
        k <= feat.len(),
        forall|i: int| 0 <= i < feat.len() ==> #[trigger] feat[i] < nf,
    ensures
        splits_below(feat, nf, k) == k,
    decreases k,
{
    if k == 0 {
        lemma_no_feature(feat, nf);
    } else {
        lemma_splits_add_up(feat, nf, (k - 1) as nat);
        lemma_one_feature(feat, nf, k);
        assert(feat[k - 1] < nf);
    }
}

/// The splits of a longer list.
proof fn lemma_splits_append(a: Seq<u32>, b: Seq<u32>, f: int, k: nat)
    requires
        k <= b.len(),
    ensures
        splits_on(a + b, f, a.len() + k) == splits_on(a, f, a.len()) + splits_on(b, f, k),
    decreases a.len() + k,
{
    if k > 0 {
        lemma_splits_append(a, b, f, (k - 1) as nat);
        assert((a + b)[a.len() + k - 1] == b[k - 1]);
        assert((a.len() + k - 1) as nat == a.len() + (k - 1) as nat);
    } else {
        lemma_splits_prefix(a + b, a, f, a.len());
    }
}

proof fn lemma_splits_prefix(a: Seq<u32>, b: Seq<u32>, f: int, k: nat)
    requires
        forall|i: int| 0 <= i < k ==> #[trigger] a[i] == b[i],
    ensures
        splits_on(a, f, k) == splits_on(b, f, k),
    decreases k,
{
    if k > 0 {
        lemma_splits_prefix(a, b, f, (k - 1) as nat);
        assert(a[k - 1] == b[k - 1]);
    }
}

/// The splits of a tree are counted, and nothing is gained on a feature that has none.
proof fn lemma_tree_tally<A: Arith>(
    count: Seq<F32>,
    gain: Seq<F32>,
    splits: Seq<Choice>,
    nf: nat,
    f: int,
    k: nat,
    had: nat,
    most: nat,
)
    requires
        counts_up::<A>(most),
        had + k <= most <= u32::MAX,
        k <= splits.len(),
        count.len() == nf,
        gain.len() == nf,
        nf <= u32::MAX,
        0 <= f < nf,
        forall|i: int| 0 <= i < splits.len() ==> 0 <= (#[trigger] splits[i]).feature < nf,
        count[f] == counted32::<A>(had as u64),
    ensures
        tally_count::<A>(count, splits, k).len() == nf,
        tally_gain::<A>(gain, splits, k).len() == nf,
        splits_on(split_features(splits), f, k) <= k,
        tally_count::<A>(count, splits, k)[f] == counted32::<A>(
            (had + splits_on(split_features(splits), f, k)) as u64,
        ),
        splits_on(split_features(splits), f, k) == 0 ==> tally_gain::<A>(gain, splits, k)[f]
            == gain[f],
    decreases k,
{
    if k > 0 {
        lemma_tree_tally::<A>(count, gain, splits, nf, f, (k - 1) as nat, had, most);
        assert(0 <= splits[k - 1].feature < nf);
        assert(split_features(splits)[k - 1] == splits[k - 1].feature);
    }
}

/// On the host the count of a feature is the number of its splits, as long as counting is exact;
/// a feature without splits has gained nothing.
pub proof fn lemma_host_importance<A: Arith>(p: Problem, t: nat, f: int, most: nat)
    requires
        p.well_formed(),
        counts_up::<A>(most),
        t * p.depth <= most <= u32::MAX,
        0 <= f < p.nf,
    ensures
        ({
            let state = p.after::<A>(t);
            let splits = splits_on(state.feat, f, state.feat.len());
            &&& state.fi_count.len() == p.nf
            &&& state.fi_gain.len() == p.nf
            &&& state.feat.len() == t * p.depth
            &&& splits <= t * p.depth
            &&& state.fi_count[f] == counted32::<A>(splits as u64)
            &&& splits == 0 ==> state.fi_gain[f] == (F32 { bits: 0 })
        }),
    decreases t,
{
    if t > 0 {
        let l = (t - 1) as nat;
        let d = p.depth;
        assert(t * d == l * d + d && l * d >= 0) by (nonlinear_arith)
            requires
                t == l + 1,
        ;
        lemma_host_importance::<A>(p, l, f, most);
        let before = p.after::<A>(l);
        let round = p.round::<A>(before.pred, l);
        let tree = p.grown::<A>(round, d);
        lemma_grown::<A>(p, round, d);
        assert forall|i: int| 0 <= i < tree.splits.len() implies 0 <= (
        #[trigger] tree.splits[i]).feature < p.nf by {}
        let had = splits_on(before.feat, f, before.feat.len());
        lemma_tree_tally::<A>(
            before.fi_count,
            before.fi_gain,
            tree.splits,
            p.nf,
            f,
            d,
            had,
            most,
        );
        lemma_splits_append(before.feat, split_features(tree.splits), f, d);
        lemma_state_sizes::<A>(p, t);
    } else {
        assert(t * p.depth == 0) by (nonlinear_arith)
            requires
                t == 0,
        ;
    }
}

} // verus!
