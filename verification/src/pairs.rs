//! What the area under the ROC curve counts.

use vstd::prelude::*;

use crate::arith::counted64;
use crate::arith::difference64;
use crate::arith::product64;
use crate::arith::quotient64;
use crate::arith::sum64;
use crate::arith::Arith;
use crate::float::F32;
use crate::float::F64;
use crate::float::ONE64;
use crate::float::TWO64;
use crate::metrics::auc_of;
use crate::metrics::average_rank;
use crate::metrics::positive;
use crate::metrics::positive_ranks;
use crate::metrics::positives;
use crate::metrics::ranks_of;
use crate::order::order_of;
use crate::order::sorted;
use crate::ranks::against;
use crate::ranks::class_wins;
use crate::ranks::comparable;
use crate::ranks::lemma_rank_counts;
use crate::ranks::lemma_rank_sum_counts_pairs;
use crate::ranks::positive_count;
use crate::ranks::twice_rank;
use crate::ranks::twice_rank_sum;
use crate::reals::faithful;
use crate::reals::fits64;
use crate::reals::lemma_constants;
use crate::reals::lemma_counted64;
use crate::reals::lemma_difference64;
use crate::reals::lemma_order64;
use crate::reals::lemma_product64;
use crate::reals::lemma_quotient64;
use crate::reals::lemma_sum64;

verus! {

/// Half of `k` can be written in double precision.
pub open spec fn half_fits(k: int) -> bool {
    fits64((k as real) / 2real)
}

/// The halves of the integers up to `m` can be written in double precision.
pub open spec fn halves_fit(m: int) -> bool {
    forall|k: int| -m <= k <= m ==> #[trigger] half_fits(k)
}

proof fn lemma_half(m: int, k: int)
    requires
        halves_fit(m),
        -m <= k <= m,
    ensures
        fits64((k as real) / 2real),
{
    assert(half_fits(k));
}

proof fn lemma_whole(m: int, k: int)
    requires
        halves_fit(m),
        -m <= 2 * k <= m,
    ensures
        fits64(k as real),
{
    assert(half_fits(2 * k));
    assert(((2 * k) as real) / 2real == k as real);
}

proof fn lemma_against_bound(scores: Seq<F32>, v: F32, k: nat)
    ensures
        0 <= against(scores, v, k) <= 2 * k,
    decreases k,
{
    if k > 0 {
        lemma_against_bound(scores, v, (k - 1) as nat);
    }
}

proof fn lemma_count_bound(labels: Seq<F32>, k: nat)
    ensures
        0 <= positive_count(labels, k) <= k,
    decreases k,
{
    if k > 0 {
        lemma_count_bound(labels, (k - 1) as nat);
    }
}

proof fn lemma_positives<A: Arith>(labels: Seq<F32>, k: nat, m: int)
    requires
        faithful::<A>(),
        halves_fit(m),
        2 * k <= m,
    ensures
        positives::<A>(labels, k).means(positive_count(labels, k) as real),
    decreases k,
{
    lemma_constants();
    if k > 0 {
        lemma_positives::<A>(labels, (k - 1) as nat, m);
        lemma_count_bound(labels, k);
        lemma_whole(m, positive_count(labels, k));
        if positive(labels[k - 1]) {
            lemma_sum64::<A>(positives::<A>(labels, (k - 1) as nat), F64 { bits: ONE64 });
        }
    }
}

proof fn lemma_rank<A: Arith>(scores: Seq<F32>, r: int, m: int)
    requires
        faithful::<A>(),
        comparable(scores),
        scores.len() <= usize::MAX / 2 - 1,
        0 <= r < scores.len(),
        halves_fit(m),
        4 * scores.len() + 2 <= m,
    ensures
        ranks_of::<A>(scores)[r].means((twice_rank(scores, r) as real) / 2real),
        0 <= twice_rank(scores, r) <= 2 * scores.len() + 1,
{
    lemma_rank_counts(scores, r);
    lemma_against_bound(scores, scores[r], scores.len());
    let t = twice_rank(scores, r);
    lemma_whole(m, t);
    lemma_half(m, t);
    lemma_counted64::<A>(t as u64);
    lemma_constants();
    lemma_quotient64::<A>(counted64::<A>(t as u64), F64 { bits: TWO64 });
}

proof fn lemma_rank_total<A: Arith>(scores: Seq<F32>, labels: Seq<F32>, k: nat, m: int)
    requires
        faithful::<A>(),
        comparable(scores),
        scores.len() <= usize::MAX / 2 - 1,
        k <= scores.len(),
        halves_fit(m),
        4 * scores.len() + 2 <= m,
        scores.len() * (2 * scores.len() + 1) <= m,
    ensures
        positive_ranks::<A>(ranks_of::<A>(scores), labels, k).means(
            (twice_rank_sum(scores, labels, k) as real) / 2real,
        ),
        0 <= twice_rank_sum(scores, labels, k) <= k * (2 * scores.len() + 1),
    decreases k,
{
    lemma_constants();
    let n = scores.len() as int;
    if k > 0 {
        lemma_rank_total::<A>(scores, labels, (k - 1) as nat, m);
        lemma_rank::<A>(scores, k - 1, m);
        let w = 2 * n + 1;
        assert(k * w == (k - 1) * w + w && (k - 1) * w + w <= n * w) by (nonlinear_arith)
            requires
                k <= n,
                w >= 0,
        ;
        let a = twice_rank_sum(scores, labels, (k - 1) as nat);
        let b = twice_rank(scores, k - 1);
        lemma_half(m, twice_rank_sum(scores, labels, k));
        if positive(labels[k - 1]) {
            assert((a as real) / 2real + (b as real) / 2real == ((a + b) as real) / 2real);
            lemma_sum64::<A>(
                positive_ranks::<A>(ranks_of::<A>(scores), labels, (k - 1) as nat),
                ranks_of::<A>(scores)[k - 1],
            );
        }
    }
}

/// The area under the ROC curve is the share of the pairs of a positive and another row in which
/// the positive row has the higher score, where ties count half: twice that share of all pairs
/// is the number of wins, two for each pair that is ordered and one for each that is tied. It is
/// NaN where all rows are positive, or none is.
pub proof fn lemma_auc_counts_pairs<A: Arith>(scores: Seq<F32>, labels: Seq<F32>, m: int)
    requires
        faithful::<A>(),
        comparable(scores),
        scores.len() <= usize::MAX / 2 - 1,
        scores.len() == labels.len(),
        m == 2 * (scores.len() + 1) * (scores.len() + 1),
        halves_fit(m),
        ({
            let n = scores.len();
            let c = positive_count(labels, n);
            0 < c < n ==> fits64(
                (class_wins(scores, labels, false, n, n) as real) / ((2 * c * (n - c)) as real),
            )
        }),
    ensures
        ({
            let n = scores.len();
            let c = positive_count(labels, n);
            let auc = auc_of::<A>(scores, labels);
            &&& 0 <= c <= n
            &&& c == 0 || c == n ==> auc.nan()
            &&& 0 < c < n ==> auc.finite() && auc.amount() * ((2 * c * (n - c)) as real)
                == class_wins(scores, labels, false, n, n) as real
        }),
{
    let n = scores.len() as int;
    let c = positive_count(labels, scores.len());
    let zero = F64 { bits: 0 };
    let one = F64 { bits: ONE64 };
    let two = F64 { bits: TWO64 };
    lemma_constants();
    lemma_count_bound(labels, scores.len());
    assert(m == 2 * n * n + 4 * n + 2 && 0 <= n * n) by (nonlinear_arith)
        requires
            m == 2 * (n + 1) * (n + 1),
            n >= 0,
    ;
    assert(n * (2 * n + 1) == 2 * (n * n) + n) by (nonlinear_arith);
    assert(2 * n * n == 2 * (n * n)) by (nonlinear_arith);
    lemma_positives::<A>(labels, scores.len(), m);
    let n_pos = positives::<A>(labels, scores.len());
    lemma_whole(m, n);
    lemma_counted64::<A>(n as u64);
    lemma_whole(m, n - c);
    lemma_difference64::<A>(counted64::<A>(n as u64), n_pos);
    let n_neg = difference64::<A>(counted64::<A>(n as u64), n_pos);
    lemma_order64(n_pos, zero);
    lemma_order64(n_neg, zero);
    if 0 < c < n {
        lemma_rank_total::<A>(scores, labels, scores.len(), m);
        lemma_rank_sum_counts_pairs(scores, labels);
        let t = twice_rank_sum(scores, labels, scores.len());
        let wins = class_wins(scores, labels, false, scores.len(), scores.len());
        let sum = positive_ranks::<A>(ranks_of::<A>(scores), labels, scores.len());
        assert(0 <= c * (c + 1) <= n * n + n && 0 < c * (n - c) <= n * n) by (nonlinear_arith)
            requires
                0 < c < n,
        ;
        lemma_whole(m, c + 1);
        lemma_sum64::<A>(n_pos, one);
        let more = sum64::<A>(n_pos, one);
        lemma_whole(m, c * (c + 1));
        assert((c as real) * ((c + 1) as real) == (c * (c + 1)) as real) by (nonlinear_arith);
        lemma_product64::<A>(n_pos, more);
        let own = product64::<A>(n_pos, more);
        lemma_half(m, c * (c + 1));
        lemma_quotient64::<A>(own, two);
        let half = quotient64::<A>(own, two);
        assert(t - c * (c + 1) == wins);
        lemma_half(m, wins);
        assert((t as real) / 2real - ((c * (c + 1)) as real) / 2real == (wins as real) / 2real);
        lemma_difference64::<A>(sum, half);
        let top = difference64::<A>(sum, half);
        lemma_whole(m, c * (n - c));
        assert((c as real) * ((n - c) as real) == (c * (n - c)) as real) by (nonlinear_arith);
        lemma_product64::<A>(n_pos, n_neg);
        let bottom = product64::<A>(n_pos, n_neg);
        let w = wins as real;
        let d = (c * (n - c)) as real;
        assert((2 * c * (n - c)) as real == 2real * d) by (nonlinear_arith)
            requires
                d == (c * (n - c)) as real,
        ;
        assert((w / 2real) / d == w / (2real * d)) by (nonlinear_arith)
            requires
                d > 0real,
        ;
        lemma_quotient64::<A>(top, bottom);
        let r = auc_of::<A>(scores, labels).amount();
        assert(r * (2real * d) == w) by (nonlinear_arith)
            requires
                r == w / (2real * d),
                d > 0real,
        ;
    }
}

} // verus!
