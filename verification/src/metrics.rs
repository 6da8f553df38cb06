//! Evaluation metrics, computed from raw model scores.

use vstd::prelude::*;

use crate::arith::add64;
use crate::arith::count64;
use crate::arith::counted64;
use crate::arith::deterministic;
use crate::arith::difference32;
use crate::arith::difference64;
use crate::arith::div64;
use crate::arith::exp64;
use crate::arith::exponential64;
use crate::arith::ln64;
use crate::arith::logarithm64;
use crate::arith::mul64;
use crate::arith::product64;
use crate::arith::quotient64;
use crate::arith::root64;
use crate::arith::sqrt64;
use crate::arith::sub32;
use crate::arith::sub64;
use crate::arith::sum64;
use crate::arith::widen;
use crate::arith::widened;
use crate::arith::Arith;
use crate::float::F32;
use crate::float::F64;
use crate::float::HALF32;
use crate::float::NAN64;
use crate::float::ONE32;
use crate::float::ONE64;
use crate::float::TWO64;
use crate::order::is_order;
use crate::order::lemma_order_covers;
use crate::order::order_of;
use crate::order::sort_order;
use crate::order::sorted;

verus! {

/// Bits of a ten-millionth in double precision: the least probability that is scored.
pub const LEAST64: u64 = 0x3E7A_D7F2_9ABC_AF48;

/// Bits of one less a ten-millionth in double precision: the largest probability that is
/// scored.
pub const LARGEST64: u64 = 0x3FEF_FFFF_CA50_1ACB;

/// The smaller of two lengths.
pub open spec fn shorter(a: nat, b: nat) -> nat {
    if a < b {
        a
    } else {
        b
    }
}

/// Where the run of equal scores that place `i` belongs to begins.
pub open spec fn run_start(s: Seq<F32>, i: nat) -> nat
    decreases i,
{
    if i > 0 && s[i as int].equals(s[i - 1]) {
        run_start(s, (i - 1) as nat)
    } else {
        i
    }
}

/// Where the run of equal scores that place `i` belongs to ends.
pub open spec fn run_end(s: Seq<F32>, i: nat) -> nat
    decreases s.len() - i,
{
    if i + 1 < s.len() && s[i as int + 1].equals(s[i as int]) {
        run_end(s, i + 1)
    } else {
        i + 1
    }
}

/// The rank of the score at place `i` of an ascending list, from one on: the mean of the ranks
/// of the scores that equal it.
pub open spec fn average_rank<A: Arith>(s: Seq<F32>, i: nat) -> F64 {
    quotient64::<A>(
        counted64::<A>((run_start(s, i) + 1 + run_end(s, i)) as u64),
        F64 { bits: TWO64 },
    )
}

/// The ranks of the scores.
pub open spec fn ranks_of<A: Arith>(scores: Seq<F32>) -> Seq<F64> {
    Seq::new(
        scores.len(),
        |r: int|
            average_rank::<A>(sorted(scores), order_of(scores).index_of(r as usize) as nat),
    )
}

/// The label is that of a positive row.
pub open spec fn positive(y: F32) -> bool {
    (F32 { bits: HALF32 }).below(y)
}

/// The sum of the ranks of the positive rows among the first `k`.
pub open spec fn positive_ranks<A: Arith>(ranks: Seq<F64>, labels: Seq<F32>, k: nat) -> F64
    decreases k,
{
    if k == 0 {
        F64 { bits: 0 }
    } else {
        let before = positive_ranks::<A>(ranks, labels, (k - 1) as nat);
        if positive(labels[k - 1]) {
            sum64::<A>(before, ranks[k - 1])
        } else {
            before
        }
    }
}

/// The number of positive rows among the first `k`, counted up.
pub open spec fn positives<A: Arith>(labels: Seq<F32>, k: nat) -> F64
    decreases k,
{
    if k == 0 {
        F64 { bits: 0 }
    } else {
        let before = positives::<A>(labels, (k - 1) as nat);
        if positive(labels[k - 1]) {
            sum64::<A>(before, F64 { bits: ONE64 })
        } else {
            before
        }
    }
}

/// The area under the ROC curve, by the rank sum of the positive rows.
pub open spec fn auc_of<A: Arith>(scores: Seq<F32>, labels: Seq<F32>) -> F64 {
    let n = scores.len();
    let zero = F64 { bits: 0 };
    let n_pos = positives::<A>(labels, n);
    let n_neg = difference64::<A>(counted64::<A>(n as u64), n_pos);
    if n_pos.equals(zero) || n_neg.equals(zero) {
        F64 { bits: NAN64 }
    } else {
        quotient64::<A>(
            difference64::<A>(
                positive_ranks::<A>(ranks_of::<A>(scores), labels, n),
                quotient64::<A>(
                    product64::<A>(n_pos, sum64::<A>(n_pos, F64 { bits: ONE64 })),
                    F64 { bits: TWO64 },
                ),
            ),
            product64::<A>(n_pos, n_neg),
        )
    }
}

/// A place in a run is in the run that it begins.
proof fn lemma_run(s: Seq<F32>, i: nat, j: nat)
    requires
        i <= j < s.len(),
        forall|k: int| i < k <= j ==> (#[trigger] s[k]).equals(s[k - 1]),
    ensures
        run_start(s, j) == run_start(s, i),
        run_end(s, i) == run_end(s, j),
    decreases j - i,
{
    if i < j {
        lemma_run(s, i, (j - 1) as nat);
        assert(s[j as int].equals(s[j - 1]));
    }
}

/// The ranks of the scores.
fn rank_scores<A: Arith>(scores: &[F32]) -> (ranks: Vec<F64>)
    requires
        scores@.len() <= usize::MAX / 2,
    ensures
        ranks@.len() == scores@.len(),
        deterministic::<A>() ==> ranks@ == ranks_of::<A>(scores@),
{
    let n: usize = scores.len();
    let order = sort_order(scores);
    let ghost s = sorted(scores@);
    let mut ranks: Vec<F64> = vec![F64 { bits: 0 };n];
    let mut i: usize = 0;
    while i < n
        invariant
            n == scores@.len(),
            n <= usize::MAX / 2,
            is_order(scores@, order@),
            order@ == order_of(scores@),
            s == sorted(scores@),
            ranks@.len() == n,
            i <= n,
            i < n && i > 0 ==> !s[i as int].equals(s[i - 1]),
            deterministic::<A>() ==> forall|k: int|
                0 <= k < i ==> #[trigger] ranks@[order@[k] as int] == average_rank::<A>(
                    s,
                    k as nat,
                ),
        decreases n - i,
    {
        let mut j: usize = i + 1;
        while j < n && scores[order[j]].same(scores[order[i]])
            invariant
                n == scores@.len(),
                is_order(scores@, order@),
                order@ == order_of(scores@),
                s == sorted(scores@),
                i < j <= n,
                forall|k: int| i < k < j ==> (#[trigger] s[k]).equals(s[i as int]),
            decreases n - j,
        {
            assert(s[j as int] == scores@[order@[j as int] as int]);
            assert(s[i as int] == scores@[order@[i as int] as int]);
            j = j + 1;
        }
        proof {
            assert forall|k: int| i < k < j implies (#[trigger] s[k]).equals(s[k - 1]) by {
                if k - 1 > i {
                    assert(s[k - 1].equals(s[i as int]));
                }
            }
            if j < n {
                assert(s[j as int] == scores@[order@[j as int] as int]);
                assert(s[i as int] == scores@[order@[i as int] as int]);
                assert(!s[j as int].equals(s[i as int]));
                if j - 1 > i {
                    assert(s[j - 1].equals(s[i as int]));
                }
                assert(!s[j as int].equals(s[j - 1]));
            }
            assert(run_start(s, i as nat) == i);
            assert(run_end(s, (j - 1) as nat) == j);
        }
        let total: usize = (i + 1) + j;
        let avg = div64::<A>(count64::<A>(total as u64), F64 { bits: TWO64 });
        let mut k: usize = i;
        while k < j
            invariant
                n == scores@.len(),
                is_order(scores@, order@),
                s == sorted(scores@),
                ranks@.len() == n,
                i <= k <= j <= n,
                i < j,
                run_start(s, i as nat) == i,
                run_end(s, (j - 1) as nat) == j,
                forall|k: int| i < k < j ==> (#[trigger] s[k]).equals(s[k - 1]),
                deterministic::<A>() ==> avg == quotient64::<A>(
                    counted64::<A>((i + 1 + j) as u64),
                    F64 { bits: TWO64 },
                ),
                deterministic::<A>() ==> forall|p: int|
                    0 <= p < k ==> #[trigger] ranks@[order@[p] as int] == average_rank::<A>(
                        s,
                        p as nat,
                    ),
            decreases j - k,
        {
            let ghost before = ranks@;
            ranks[order[k]] = avg;
            proof {
                lemma_run(s, i as nat, k as nat);
                lemma_run(s, k as nat, (j - 1) as nat);
                if deterministic::<A>() {
                    assert forall|p: int| 0 <= p < k + 1 implies #[trigger] ranks@[order@[p] as int]
                        == average_rank::<A>(s, p as nat) by {
                        if p < k {
                            assert(crate::order::precedes(
                                scores@,
                                order@[p] as int,
                                order@[k as int] as int,
                            ));
                            assert(before[order@[p] as int] == average_rank::<A>(s, p as nat));
                        }
                    }
                }
            }
            k = k + 1;
        }
        i = j;
    }
    proof {
        if deterministic::<A>() {
            assert forall|r: int| 0 <= r < n implies #[trigger] ranks@[r] == ranks_of::<A>(
                scores@,
            )[r] by {
                lemma_order_covers(scores@, order@, r);
                let p = order@.index_of(r as usize);
                assert(0 <= p < n && order@[p] == r);
                assert(ranks@[order@[p] as int] == average_rank::<A>(s, p as nat));
            }
            assert(ranks@ =~= ranks_of::<A>(scores@));
        }
    }
    ranks
}

/// The area under the ROC curve, by the rank sum of the positive rows, with mean ranks for
/// equal scores; NaN where all rows are positive, or none is.
pub fn auc<A: Arith>(scores: &[F32], labels: &[F32]) -> (r: F64)
    requires
        scores@.len() == labels@.len(),
        scores@.len() <= usize::MAX / 2,
    ensures
        deterministic::<A>() ==> r == auc_of::<A>(scores@, labels@),
{
    let n: usize = scores.len();
    let ranks = rank_scores::<A>(scores);
    let mut sum_pos_ranks = F64 { bits: 0 };
    let mut n_pos = F64 { bits: 0 };
    let mut k: usize = 0;
    while k < n
        invariant
            n == scores@.len(),
            n == labels@.len(),
            n == ranks@.len(),
            k <= n,
            deterministic::<A>() ==> sum_pos_ranks == positive_ranks::<A>(
                ranks@,
                labels@,
                k as nat,
            ),
            deterministic::<A>() ==> n_pos == positives::<A>(labels@, k as nat),
        decreases n - k,
    {
        if (F32 { bits: HALF32 }).less(labels[k]) {
            sum_pos_ranks = add64::<A>(sum_pos_ranks, ranks[k]);
            n_pos = add64::<A>(n_pos, F64 { bits: ONE64 });
        }
        k = k + 1;
    }
    let zero = F64 { bits: 0 };
    let n_neg = sub64::<A>(count64::<A>(n as u64), n_pos);
    if n_pos.same(zero) || n_neg.same(zero) {
        return F64 { bits: NAN64 };
    }
    div64::<A>(
        sub64::<A>(
            sum_pos_ranks,
            div64::<A>(
                mul64::<A>(n_pos, add64::<A>(n_pos, F64 { bits: ONE64 })),
                F64 { bits: TWO64 },
            ),
        ),
        mul64::<A>(n_pos, n_neg),
    )
}

/// The probability that a score stands for, kept away from zero and one.
pub open spec fn scored_probability<A: Arith>(s: F32) -> F64 {
    let one = F64 { bits: ONE64 };
    quotient64::<A>(
        one,
        sum64::<A>(one, exponential64::<A>(widened::<A>(s.opposite()))),
    ).within(F64 { bits: LEAST64 }, F64 { bits: LARGEST64 })
}

/// What one row adds to the log-loss.
pub open spec fn log_loss<A: Arith>(s: F32, y: F32) -> F64 {
    let one = F64 { bits: ONE64 };
    let p = scored_probability::<A>(s);
    let label = widened::<A>(y);
    sum64::<A>(
        product64::<A>(label, logarithm64::<A>(p)),
        product64::<A>(
            difference64::<A>(one, label),
            logarithm64::<A>(difference64::<A>(one, p)),
        ),
    ).opposite()
}

/// The difference of a score and its target.
pub open spec fn deviation<A: Arith>(s: F32, y: F32) -> F64 {
    difference64::<A>(widened::<A>(s), widened::<A>(y))
}

/// What a row adds to a sum over rows.
pub enum Term {
    LogLoss,
    Square,
    Absolute,
}

/// What one row adds to a sum over rows.
pub open spec fn term_of<A: Arith>(term: Term, s: F32, y: F32) -> F64 {
    let d = deviation::<A>(s, y);
    match term {
        Term::LogLoss => log_loss::<A>(s, y),
        Term::Square => product64::<A>(d, d),
        Term::Absolute => d.absolute(),
    }
}

/// The sum over the first `k` rows.
pub open spec fn total_of<A: Arith>(
    term: Term,
    scores: Seq<F32>,
    labels: Seq<F32>,
    k: nat,
) -> F64
    decreases k,
{
    if k == 0 {
        F64 { bits: 0 }
    } else {
        sum64::<A>(
            total_of::<A>(term, scores, labels, (k - 1) as nat),
            term_of::<A>(term, scores[k - 1], labels[k - 1]),
        )
    }
}

/// The mean over the rows: over those that have both a score and a label, divided by the
/// number of scores.
pub open spec fn mean_of<A: Arith>(term: Term, scores: Seq<F32>, labels: Seq<F32>) -> F64 {
    quotient64::<A>(
        total_of::<A>(term, scores, labels, shorter(scores.len(), labels.len())),
        counted64::<A>(scores.len() as u64),
    )
}

/// What one row adds to the log-loss.
fn row_log_loss<A: Arith>(s: F32, y: F32) -> (t: F64)
    ensures
        deterministic::<A>() ==> t == log_loss::<A>(s, y),
{
    let one = F64 { bits: ONE64 };
    let p = div64::<A>(one, add64::<A>(one, exp64::<A>(widen::<A>(s.neg())))).clamp(
        F64 { bits: LEAST64 },
        F64 { bits: LARGEST64 },
    );
    let label = widen::<A>(y);
    add64::<A>(
        mul64::<A>(label, ln64::<A>(p)),
        mul64::<A>(sub64::<A>(one, label), ln64::<A>(sub64::<A>(one, p))),
    ).neg()
}

/// What one row adds to a sum over rows.
fn row_term<A: Arith>(term: &Term, s: F32, y: F32) -> (t: F64)
    ensures
        deterministic::<A>() ==> t == term_of::<A>(*term, s, y),
{
    match term {
        Term::LogLoss => row_log_loss::<A>(s, y),
        Term::Square => {
            let d = sub64::<A>(widen::<A>(s), widen::<A>(y));
            mul64::<A>(d, d)
        },
        Term::Absolute => sub64::<A>(widen::<A>(s), widen::<A>(y)).abs(),
    }
}

/// The sum over the rows that have both a score and a label.
fn sum_terms<A: Arith>(term: Term, scores: &[F32], labels: &[F32]) -> (t: F64)
    ensures
        deterministic::<A>() ==> t == total_of::<A>(
            term,
            scores@,
            labels@,
            shorter(scores@.len(), labels@.len()),
        ),
{
    let n: usize = if scores.len() < labels.len() {
        scores.len()
    } else {
        labels.len()
    };
    let mut acc = F64 { bits: 0 };
    let mut k: usize = 0;
    while k < n
        invariant
            k <= n,
            n <= scores@.len(),
            n <= labels@.len(),
            deterministic::<A>() ==> acc == total_of::<A>(term, scores@, labels@, k as nat),
        decreases n - k,
    {
        acc = add64::<A>(acc, row_term::<A>(&term, scores[k], labels[k]));
        k = k + 1;
    }
    acc
}

/// The mean over the rows.
fn mean_terms<A: Arith>(term: Term, scores: &[F32], labels: &[F32]) -> (t: F64)
    ensures
        deterministic::<A>() ==> t == mean_of::<A>(term, scores@, labels@),
{
    let n: u64 = scores.len() as u64;
    div64::<A>(sum_terms::<A>(term, scores, labels), count64::<A>(n))
}

/// The binary log-loss of raw scores.
pub fn logloss<A: Arith>(scores: &[F32], labels: &[F32]) -> (r: F64)
    ensures
        deterministic::<A>() ==> r == mean_of::<A>(Term::LogLoss, scores@, labels@),
{
    mean_terms::<A>(Term::LogLoss, scores, labels)
}

/// The root of the mean squared difference of scores and labels.
pub open spec fn rmse_of<A: Arith>(scores: Seq<F32>, labels: Seq<F32>) -> F64 {
    root64::<A>(mean_of::<A>(Term::Square, scores, labels))
}

/// The root mean squared error.
pub fn rmse<A: Arith>(scores: &[F32], labels: &[F32]) -> (r: F64)
    ensures
        deterministic::<A>() ==> r == rmse_of::<A>(scores@, labels@),
{
    sqrt64::<A>(mean_terms::<A>(Term::Square, scores, labels))
}

/// The mean absolute error.
pub fn mae<A: Arith>(scores: &[F32], labels: &[F32]) -> (r: F64)
    ensures
        deterministic::<A>() ==> r == mean_of::<A>(Term::Absolute, scores@, labels@),
{
    mean_terms::<A>(Term::Absolute, scores, labels)
}

/// The mean of the labels.
pub open spec fn label_mean<A: Arith>(labels: Seq<F32>) -> F64 {
    quotient64::<A>(
        crate::encoding::label_sum::<A>(labels, labels.len()),
        counted64::<A>(labels.len() as u64),
    )
}

/// The sum of the squared differences of the first `k` labels from `mean`.
pub open spec fn spread<A: Arith>(labels: Seq<F32>, mean: F64, k: nat) -> F64
    decreases k,
{
    if k == 0 {
        F64 { bits: 0 }
    } else {
        let d = difference64::<A>(widened::<A>(labels[k - 1]), mean);
        sum64::<A>(spread::<A>(labels, mean, (k - 1) as nat), product64::<A>(d, d))
    }
}

/// The coefficient of determination.
pub open spec fn r2_of<A: Arith>(scores: Seq<F32>, labels: Seq<F32>) -> F64 {
    let n = shorter(scores.len(), labels.len());
    let sst = spread::<A>(labels, label_mean::<A>(labels), n);
    if sst.equals(F64 { bits: 0 }) {
        F64 { bits: NAN64 }
    } else {
        difference64::<A>(
            F64 { bits: ONE64 },
            quotient64::<A>(total_of::<A>(Term::Square, scores, labels, n), sst),
        )
    }
}

/// The coefficient of determination: one less the share of the spread of the labels that the
/// scores leave unexplained; NaN where the labels have no spread.
pub fn r2<A: Arith>(scores: &[F32], labels: &[F32]) -> (r: F64)
    ensures
        deterministic::<A>() ==> r == r2_of::<A>(scores@, labels@),
{
    let mut sum = F64 { bits: 0 };
    let mut i: usize = 0;
    while i < labels.len()
        invariant
            i <= labels@.len(),
            deterministic::<A>() ==> sum == crate::encoding::label_sum::<A>(labels@, i as nat),
        decreases labels@.len() - i,
    {
        sum = add64::<A>(sum, widen::<A>(labels[i]));
        i = i + 1;
    }
    let count: u64 = labels.len() as u64;
    let mean = div64::<A>(sum, count64::<A>(count));
    let sse = sum_terms::<A>(Term::Square, scores, labels);
    let n: usize = if scores.len() < labels.len() {
        scores.len()
    } else {
        labels.len()
    };
    let mut sst = F64 { bits: 0 };
    let mut k: usize = 0;
    while k < n
        invariant
            k <= n <= labels@.len(),
            deterministic::<A>() ==> sst == spread::<A>(labels@, mean, k as nat),
        decreases n - k,
    {
        let d = sub64::<A>(widen::<A>(labels[k]), mean);
        sst = add64::<A>(sst, mul64::<A>(d, d));
        k = k + 1;
    }
    if sst.same(F64 { bits: 0 }) {
        F64 { bits: NAN64 }
    } else {
        sub64::<A>(F64 { bits: ONE64 }, div64::<A>(sse, sst))
    }
}

/// The class that a score stands for is nearer to the label than the other one.
pub open spec fn correct<A: Arith>(s: F32, y: F32) -> bool {
    let class = F32 {
        bits: if (F32 { bits: 0 }).below(s) {
            ONE32
        } else {
            0
        },
    };
    difference32::<A>(class, y).absolute().below(F32 { bits: HALF32 })
}

/// The number of rows among the first `k` whose class is the right one.
pub open spec fn correct_count<A: Arith>(scores: Seq<F32>, labels: Seq<F32>, k: nat) -> nat
    decreases k,
{
    if k == 0 {
        0
    } else {
        correct_count::<A>(scores, labels, (k - 1) as nat) + if correct::<A>(
            scores[k - 1],
            labels[k - 1],
        ) {
            1nat
        } else {
            0nat
        }
    }
}

/// The share of rows whose class is the right one.
pub open spec fn accuracy_of<A: Arith>(scores: Seq<F32>, labels: Seq<F32>) -> F64 {
    quotient64::<A>(
        counted64::<A>(
            correct_count::<A>(scores, labels, shorter(scores.len(), labels.len())) as u64,
        ),
        counted64::<A>(scores.len() as u64),
    )
}

/// The share of rows whose class, positive for scores above zero, is the right one.
pub fn accuracy<A: Arith>(scores: &[F32], labels: &[F32]) -> (r: F64)
    ensures
        deterministic::<A>() ==> r == accuracy_of::<A>(scores@, labels@),
{
    let n: usize = if scores.len() < labels.len() {
        scores.len()
    } else {
        labels.len()
    };
    let mut right: usize = 0;
    let mut k: usize = 0;
    while k < n
        invariant
            k <= n,
            n <= scores@.len(),
            n <= labels@.len(),
            right <= k,
            deterministic::<A>() ==> right == correct_count::<A>(scores@, labels@, k as nat),
        decreases n - k,
    {
        let class = if (F32 { bits: 0 }).less(scores[k]) {
            F32 { bits: ONE32 }
        } else {
            F32 { bits: 0 }
        };
        if sub32::<A>(class, labels[k]).abs().less(F32 { bits: HALF32 }) {
            right = right + 1;
        }
        k = k + 1;
    }
    let count: u64 = scores.len() as u64;
    div64::<A>(count64::<A>(right as u64), count64::<A>(count))
}

} // verus!
