//! What the features of a forest have gained.

use vstd::prelude::*;

use crate::arith::narrowed;
use crate::arith::sum32;
use crate::arith::Arith;
use crate::cpu::lemma_grown;
use crate::cpu::split_features;
use crate::cpu::tally_gain;
use crate::cpu::Problem;
use crate::float::F32;
use crate::float::F64;
use crate::reals::faithful;
use crate::reals::fits32;
use crate::reals::lemma_constants;
use crate::reals::lemma_narrowed;
use crate::reals::lemma_order64;
use crate::reals::lemma_sum32;
use crate::split::Choice;
use crate::sums::total;

verus! {

/// The splits of the first `t` trees, in their order.
pub open spec fn splits_of<A: Arith>(p: Problem, t: nat) -> Seq<Choice>
    decreases t,
{
    if t == 0 {
        Seq::empty()
    } else {
        let low = (t - 1) as nat;
        let round = p.round::<A>(p.after::<A>(low).pred, low);
        splits_of::<A>(p, low) + p.grown::<A>(round, p.depth).splits
    }
}

/// What each split adds to the gain of feature `f`: what it gains, where it is on that feature
/// and gains something.
pub open spec fn credit(splits: Seq<Choice>, f: int) -> spec_fn(int) -> real {
    |k: int|
        if splits[k].feature == f && 0real < splits[k].gain.amount() {
            splits[k].gain.amount()
        } else {
            0real
        }
}

/// The gains are finite, and can be added up for feature `f`.
pub open spec fn credit_fits(splits: Seq<Choice>, f: int) -> bool {
    &&& forall|k: int|
        0 <= k < splits.len() ==> (#[trigger] splits[k]).gain.finite() && fits32(
            credit(splits, f)(k),
        )
    &&& forall|m: nat| m <= splits.len() ==> fits32(#[trigger] total(m, credit(splits, f)))
}

/// The terms of a longer list begin with those of the shorter one.
proof fn lemma_total_prefix(
    a: spec_fn(int) -> real,
    b: spec_fn(int) -> real,
    k: nat,
)
    requires
        forall|i: int| 0 <= i < k ==> #[trigger] a(i) == b(i),
    ensures
        total(k, a) == total(k, b),
    decreases k,
{
    if k > 0 {
        lemma_total_prefix(a, b, (k - 1) as nat);
        assert(a(k - 1) == b(k - 1));
    }
}

proof fn lemma_tree_credit<A: Arith>(
    gain: Seq<F32>,
    before: Seq<Choice>,
    splits: Seq<Choice>,
    nf: nat,
    f: int,
    k: nat,
)
    requires
        faithful::<A>(),
        gain.len() == nf,
        0 <= f < nf,
        k <= splits.len(),
        forall|i: int| 0 <= i < splits.len() ==> 0 <= (#[trigger] splits[i]).feature < nf,
        credit_fits(before + splits, f),
        gain[f].means(total(before.len(), credit(before + splits, f))),
    ensures
        tally_gain::<A>(gain, splits, k).len() == nf,
        tally_gain::<A>(gain, splits, k)[f].means(
            total(before.len() + k, credit(before + splits, f)),
        ),
    decreases k,
{
    if k > 0 {
        lemma_tree_credit::<A>(gain, before, splits, nf, f, (k - 1) as nat);
        let all = before + splits;
        let at = before.len() + k - 1;
        let s = splits[k - 1];
        let zero = F64 { bits: 0 };
        assert(all[at] == s);
        assert(s.gain.finite() && fits32(credit(all, f)(at)));
        lemma_constants();
        lemma_order64(s.gain, zero);
        let kept = s.gain.larger(zero);
        let now = total((before.len() + k) as nat, credit(all, f));
        assert(((before.len() + k) as nat - 1) as nat == before.len() + (k - 1) as nat);
        assert(now == total(before.len() + (k - 1) as nat, credit(all, f)) + credit(all, f)(at));
        if s.feature == f {
            assert(kept.amount() == credit(all, f)(at));
            lemma_narrowed::<A>(kept);
            assert(fits32(now));
            lemma_sum32::<A>(
                tally_gain::<A>(gain, splits, (k - 1) as nat)[f],
                narrowed::<A>(kept),
            );
        }
    }
}

/// What a feature has gained is the sum of what the splits on it gain; a split that gains nothing
/// adds nothing. The splits are those of the forest.
pub proof fn lemma_gain_credit<A: Arith>(p: Problem, t: nat, f: int)
    requires
        faithful::<A>(),
        p.well_formed(),
        0 <= f < p.nf,
        credit_fits(splits_of::<A>(p, t), f),
    ensures
        p.after::<A>(t).fi_gain.len() == p.nf,
        p.after::<A>(t).fi_gain[f].means(
            total(splits_of::<A>(p, t).len(), credit(splits_of::<A>(p, t), f)),
        ),
        p.after::<A>(t).feat == split_features(splits_of::<A>(p, t)),
    decreases t,
{
    lemma_constants();
    if t > 0 {
        let low = (t - 1) as nat;
        let before = p.after::<A>(low);
        let round = p.round::<A>(before.pred, low);
        let own = p.grown::<A>(round, p.depth).splits;
        let had = splits_of::<A>(p, low);
        let all = splits_of::<A>(p, t);
        lemma_grown::<A>(p, round, p.depth);
        assert(all == had + own);
        assert forall|m: nat| m <= had.len() implies fits32(#[trigger] total(m, credit(had, f))) by {
            assert forall|i: int| 0 <= i < m implies #[trigger] credit(had, f)(i) == credit(
                all,
                f,
            )(i) by {
                assert(had[i] == all[i]);
            }
            lemma_total_prefix(credit(had, f), credit(all, f), m);
            assert(fits32(total(m, credit(all, f))));
        }
        assert forall|k: int| 0 <= k < had.len() implies (#[trigger] had[k]).gain.finite()
            && fits32(credit(had, f)(k)) by {
            assert(had[k] == all[k]);
            assert(fits32(credit(all, f)(k)));
        }
        lemma_gain_credit::<A>(p, low, f);
        assert forall|i: int| 0 <= i < had.len() implies #[trigger] credit(had, f)(i) == credit(
            all,
            f,
        )(i) by {
            assert(had[i] == all[i]);
        }
        lemma_total_prefix(credit(had, f), credit(all, f), had.len());
        assert forall|i: int| 0 <= i < own.len() implies 0 <= (#[trigger] own[i]).feature < p.nf by {}
        lemma_tree_credit::<A>(before.fi_gain, had, own, p.nf, f, own.len());
        assert(p.after::<A>(t).feat =~= split_features(all));
    } else {
        assert(p.after::<A>(t).feat =~= split_features(splits_of::<A>(p, t)));
    }
}

} // verus!
