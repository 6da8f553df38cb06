//! What scores are sums of, and what they start from.

use vstd::arithmetic::power2::lemma2_to64;
use vstd::arithmetic::power2::lemma_pow2_pos;
use vstd::arithmetic::power2::lemma_pow2_unfold;
use vstd::arithmetic::power2::pow2;
use vstd::prelude::*;

use crate::arith::counted32;
use crate::arith::difference32;
use crate::arith::logarithm32;
use crate::arith::quotient32;
use crate::arith::sum32;
use crate::arith::Arith;
use crate::booster::fitted_problem;
use crate::booster::plain_sum;
use crate::booster::start_score;
use crate::config::Config;
use crate::config::Objective;
use crate::data::Dataset;
use crate::float::F32;
use crate::float::MILLIONTH32;
use crate::float::ONE32;
use crate::float::ONE_LESS_MILLIONTH32;
use crate::forest::leaf_of;
use crate::forest::lemma_leaf_range;
use crate::forest::Forest;
use crate::gpu::fit::device_task;
use crate::reals::faithful;
use crate::reals::fits32;
use crate::reals::lemma_constants;
use crate::reals::lemma_counted32;
use crate::reals::lemma_difference32;
use crate::reals::lemma_order32;
use crate::reals::lemma_quotient32;
use crate::reals::lemma_sum32;
use crate::reals::lemma_widened;
use crate::sums::part;
use crate::sums::parts_fit32;

verus! {

/// The base score and the values of the leaves that a row reaches in the first `trees` trees,
/// added up.
pub open spec fn true_score(f: Forest, row: Seq<F32>, trees: nat) -> real
    decreases trees,
{
    if trees == 0 {
        f.base.amount()
    } else {
        true_score(f, row, (trees - 1) as nat) + f.tree_value(row, trees - 1).amount()
    }
}

/// The score of a row is the base score and the values of its leaves, added up.
pub proof fn lemma_score_adds_up<A: Arith>(f: Forest, row: Seq<F32>, trees: nat)
    requires
        faithful::<A>(),
        f.base.finite(),
        forall|t: int| 0 <= t < trees ==> (#[trigger] f.tree_value(row, t)).finite(),
        forall|k: nat| k <= trees ==> fits32(#[trigger] true_score(f, row, k)),
    ensures
        f.score::<A>(row, trees).means(true_score(f, row, trees)),
    decreases trees,
{
    if trees > 0 {
        lemma_score_adds_up::<A>(f, row, (trees - 1) as nat);
        assert(fits32(true_score(f, row, trees)));
        assert(f.tree_value(row, trees - 1).finite());
        lemma_sum32::<A>(
            f.score::<A>(row, (trees - 1) as nat),
            f.tree_value(row, trees - 1),
        );
    }
}

/// The leaf that a row reaches tells the way it took: the bit of a level, from the highest one
/// on, is set just where the row is above the threshold of that level.
pub proof fn lemma_leaf_bits(
    feat: Seq<u32>,
    thr: Seq<F32>,
    row: Seq<F32>,
    first: int,
    d: nat,
    k: nat,
)
    requires
        k < d,
    ensures
        (leaf_of(feat, thr, row, first, d) / (pow2((d - 1 - k) as nat) as int) % 2 == 1)
            <==> thr[first + k].below(row[feat[first + k] as int]),
    decreases d,
{
    let leaf = leaf_of(feat, thr, row, first, d);
    let before = leaf_of(feat, thr, row, first, (d - 1) as nat);
    lemma_leaf_range(feat, thr, row, first, (d - 1) as nat);
    lemma2_to64();
    if k == d - 1 {
        assert(leaf / 1 == leaf);
    } else {
        lemma_leaf_bits(feat, thr, row, first, (d - 1) as nat, k);
        let half = pow2((d - 2 - k) as nat) as int;
        let whole = pow2((d - 1 - k) as nat) as int;
        lemma_pow2_pos((d - 2 - k) as nat);
        lemma_pow2_unfold((d - 1 - k) as nat);
        assert(leaf / 2 == before);
        vstd::arithmetic::div_mod::lemma_div_denominator(leaf, 2, half);
        assert(whole == 2 * half);
    }
}

proof fn lemma_plain_sum<A: Arith>(y: Seq<F32>, k: nat)
    requires
        faithful::<A>(),
        parts_fit32(y, y.len()),
        k <= y.len(),
    ensures
        plain_sum::<A>(y, k).means(part(y, k, |i: int| true)),
    decreases k,
{
    lemma_constants();
    if k > 0 {
        lemma_plain_sum::<A>(y, (k - 1) as nat);
        assert(fits32(part(y, k, |i: int| true)));
        lemma_sum32::<A>(plain_sum::<A>(y, (k - 1) as nat), y[k - 1]);
    }
}

/// A mean brought into the interval from a millionth to one less a millionth.
pub open spec fn tempered(mean: real) -> real {
    let low = (F32 { bits: MILLIONTH32 }).amount();
    let high = (F32 { bits: ONE_LESS_MILLIONTH32 }).amount();
    if mean < low {
        low
    } else if high < mean {
        high
    } else {
        mean
    }
}

/// All rows start from the mean label, kept away from zero and one; with the logistic objective
/// from the logarithm of its odds.
pub proof fn lemma_start_score<A: Arith>(y: Seq<F32>, n: int)
    requires
        faithful::<A>(),
        parts_fit32(y, y.len()),
        0 < n <= u64::MAX,
        fits32(n as real),
        fits32(part(y, y.len(), |i: int| true) / (n as real)),
        ({
            let c = tempered(part(y, y.len(), |i: int| true) / (n as real));
            fits32(1real - c) && fits32(c / (1real - c))
        }),
    ensures
        ({
            let c = tempered(part(y, y.len(), |i: int| true) / (n as real));
            &&& 0real < c < 1real
            &&& start_score::<A>(y, n, Objective::SquaredError).means(c)
            &&& exists|odds: F32|
                odds.finite() && odds.amount() * (1real - c) == c && #[trigger] logarithm32::<A>(
                    odds,
                ) == start_score::<A>(y, n, Objective::Logistic)
        }),
{
    let all = part(y, y.len(), |i: int| true);
    let low = F32 { bits: MILLIONTH32 };
    let high = F32 { bits: ONE_LESS_MILLIONTH32 };
    let zero = F32 { bits: 0 };
    let one = F32 { bits: ONE32 };
    lemma_constants();
    lemma_plain_sum::<A>(y, y.len());
    lemma_counted32::<A>(n as u64);
    let sum = plain_sum::<A>(y, y.len());
    let count = counted32::<A>(n as u64);
    lemma_quotient32::<A>(sum, count);
    let mean = quotient32::<A>(sum, count);
    lemma_order32(mean, low);
    lemma_order32(high, mean);
    lemma_order32(zero, low);
    lemma_order32(high, one);
    lemma_order32(low, high);
    let kept = mean.within(low, high);
    let c = tempered(all / (n as real));
    assert(kept.means(c));
    lemma_difference32::<A>(one, kept);
    let rest = difference32::<A>(one, kept);
    lemma_quotient32::<A>(kept, rest);
    let odds = quotient32::<A>(kept, rest);
    let o = odds.amount();
    assert(o * (1real - c) == c) by (nonlinear_arith)
        requires
            o == c / (1real - c),
            c < 1real,
    ;
    assert(logarithm32::<A>(odds) == start_score::<A>(y, n, Objective::Logistic));
}

/// A fit on the host and a fit by launches start from the mean label of the train rows, kept
/// away from zero and one, with the squared error; their trees are as deep and their steps as
/// large as the configuration asks for.
pub proof fn lemma_fitted_start<A: Arith>(ds: Dataset, cfg: Config, workers: nat, halves: bool)
    requires
        faithful::<A>(),
        0 < ds.n_train <= u64::MAX,
        parts_fit32(ds.y_train@, ds.y_train@.len()),
        fits32(ds.n_train as real),
        fits32(part(ds.y_train@, ds.y_train@.len(), |i: int| true) / (ds.n_train as real)),
        ({
            let c = tempered(
                part(ds.y_train@, ds.y_train@.len(), |i: int| true) / (ds.n_train as real),
            );
            fits32(1real - c) && fits32(c / (1real - c))
        }),
        cfg.objective == Objective::SquaredError,
        cfg.lambda.finite(),
        cfg.min_child_h.finite(),
        cfg.learning_rate.finite(),
    ensures
        ({
            let c = tempered(
                part(ds.y_train@, ds.y_train@.len(), |i: int| true) / (ds.n_train as real),
            );
            let p = fitted_problem::<A>(ds, cfg, workers);
            let j = device_task::<A>(ds, cfg, halves);
            &&& p.base.means(c)
            &&& j.base.means(c)
            &&& p.lambda.means(cfg.lambda.amount())
            &&& p.min_child.means(cfg.min_child_h.amount())
            &&& p.lr.means(cfg.learning_rate.amount())
            &&& p.depth == cfg.depth
            &&& p.nbins == cfg.n_bins
            &&& p.y == ds.y_train@
            &&& j.y == ds.y_train@
        }),
{
    lemma_start_score::<A>(ds.y_train@, ds.n_train as int);
    lemma_widened::<A>(cfg.lambda);
    lemma_widened::<A>(cfg.min_child_h);
    lemma_widened::<A>(cfg.learning_rate);
}

} // verus!
