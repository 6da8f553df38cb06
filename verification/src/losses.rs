//! What evaluation metrics measure.

use vstd::prelude::*;

use crate::arith::counted64;
use crate::arith::difference32;
use crate::arith::difference64;
use crate::arith::exponential64;
use crate::arith::logarithm64;
use crate::arith::product64;
use crate::arith::quotient64;
use crate::arith::sum64;
use crate::arith::widened;
use crate::arith::Arith;
use crate::encoding::label_sum;
use crate::float::F32;
use crate::float::F64;
use crate::float::HALF32;
use crate::float::ONE32;
use crate::float::ONE64;
use crate::metrics::accuracy_of;
use crate::metrics::correct_count;
use crate::metrics::deviation;
use crate::metrics::label_mean;
use crate::metrics::log_loss;
use crate::metrics::mean_of;
use crate::metrics::r2_of;
use crate::metrics::rmse_of;
use crate::metrics::scored_probability;
use crate::metrics::shorter;
use crate::metrics::spread;
use crate::metrics::term_of;
use crate::metrics::total_of;
use crate::metrics::Term;
use crate::metrics::LARGEST64;
use crate::metrics::LEAST64;
use crate::reals::faithful;
use crate::reals::fits64;
use crate::reals::lemma_constants;
use crate::reals::lemma_counted64;
use crate::reals::lemma_difference32;
use crate::reals::lemma_difference64;
use crate::reals::lemma_order32;
use crate::reals::lemma_order64;
use crate::reals::lemma_product64;
use crate::reals::lemma_quotient64;
use crate::reals::lemma_root64;
use crate::reals::lemma_sign32;
use crate::reals::lemma_sign64;
use crate::reals::lemma_sum64;
use crate::reals::lemma_unique64;
use crate::reals::lemma_widened;
use crate::reals::orderly64;
use crate::reals::orderly_precision;
use crate::smoothing::lemma_label_sum;
use crate::sums::counts_fit64;
use crate::sums::lemma_count_fits;
use crate::sums::lemma_picked_bound;
use crate::sums::part;
use crate::sums::parts_fit64;
use crate::sums::picked;
use crate::sums::total;
use crate::sums::totals_fit64;

verus! {

/// The probability that is scored does not fall as the score rises, and stays between its
/// bounds.
pub proof fn lemma_scored_rises<A: Arith>(s: F32, t: F32)
    requires
        faithful::<A>(),
        orderly64::<A>(),
        orderly_precision::<A>(),
        s.at_most(t),
    ensures
        scored_probability::<A>(s).at_most(scored_probability::<A>(t)),
        (F64 { bits: LEAST64 }).at_most(scored_probability::<A>(s)),
        scored_probability::<A>(t).at_most(F64 { bits: LARGEST64 }),
{
    reveal(orderly64);
    reveal(orderly_precision);
    let zero = F64 { bits: 0 };
    let one = F64 { bits: ONE64 };
    lemma_constants();
    lemma_sign32(s);
    lemma_sign32(t);
    let a = exponential64::<A>(widened::<A>(s.opposite()));
    let b = exponential64::<A>(widened::<A>(t.opposite()));
    assert(b.at_most(a));
    lemma_sum64::<A>(one, zero);
    let whole = sum64::<A>(one, zero);
    let x = sum64::<A>(one, a);
    let y = sum64::<A>(one, b);
    lemma_order64(whole, one);
    assert(zero.at_most(b));
    assert(whole.at_most(y));
    assert(y.at_most(x));
    assert(x.positive() && y.positive());
    assert(quotient64::<A>(one, x).at_most(quotient64::<A>(one, y)));
}

/// The loss of a row with label zero does not fall as its score rises, and that of a row with
/// label one does not rise. No loss is negative.
pub proof fn lemma_log_loss_order<A: Arith>(s: F32, t: F32, y: F32)
    requires
        faithful::<A>(),
        orderly64::<A>(),
        orderly_precision::<A>(),
        s.at_most(t),
        y.means(0real) || y.means(1real),
    ensures
        log_loss::<A>(s, y).finite(),
        log_loss::<A>(t, y).finite(),
        y.means(0real) ==> log_loss::<A>(s, y).at_most(log_loss::<A>(t, y)),
        y.means(1real) ==> log_loss::<A>(t, y).at_most(log_loss::<A>(s, y)),
        0real <= log_loss::<A>(s, y).amount(),
        0real <= log_loss::<A>(t, y).amount(),
{
    lemma_scored_rises::<A>(s, t);
    lemma_row_loss::<A>(s, y);
    lemma_row_loss::<A>(t, y);
    let one = F64 { bits: ONE64 };
    let p = scored_probability::<A>(s);
    let q = scored_probability::<A>(t);
    lemma_order64(log_loss::<A>(s, y), log_loss::<A>(t, y));
    lemma_order64(log_loss::<A>(t, y), log_loss::<A>(s, y));
    reveal(orderly64);
    lemma_constants();
    if y.means(0real) {
        let u = difference64::<A>(one, p);
        let v = difference64::<A>(one, q);
        assert(v.at_most(u));
        lemma_order64(logarithm64::<A>(v), logarithm64::<A>(u));
    } else {
        lemma_order64(logarithm64::<A>(p), logarithm64::<A>(q));
    }
}

/// The loss of a row is minus the logarithm of the probability of its label.
pub proof fn lemma_row_loss<A: Arith>(s: F32, y: F32)
    requires
        faithful::<A>(),
        orderly64::<A>(),
        orderly_precision::<A>(),
        !s.nan(),
        y.means(0real) || y.means(1real),
    ensures
        ({
            let one = F64 { bits: ONE64 };
            let p = scored_probability::<A>(s);
            let q = difference64::<A>(one, p);
            &&& p.positive() && p.finite()
            &&& q.positive() && q.finite()
            &&& logarithm64::<A>(p).finite()
            &&& logarithm64::<A>(q).finite()
            &&& log_loss::<A>(s, y).finite()
            &&& 0real <= log_loss::<A>(s, y).amount()
            &&& y.means(0real) ==> log_loss::<A>(s, y).amount() == -logarithm64::<A>(q).amount()
            &&& y.means(1real) ==> log_loss::<A>(s, y).amount() == -logarithm64::<A>(p).amount()
        }),
{
    let zero = F64 { bits: 0 };
    let one = F64 { bits: ONE64 };
    let p = scored_probability::<A>(s);
    let q = difference64::<A>(one, p);
    lemma_scored_rises::<A>(s, s);
    lemma_constants();
    assert(p.positive() && p.finite());
    lemma_order64(p, one);
    assert(p.below(one));
    lemma_difference64::<A>(one, zero);
    assert(q.positive() && q.at_most(difference64::<A>(one, zero))) by {
        reveal(orderly64);
        assert(zero.at_most(p));
    }
    lemma_order64(difference64::<A>(one, zero), one);
    assert(q.finite());
    let label = widened::<A>(y);
    lemma_widened::<A>(y);
    let lp = logarithm64::<A>(p);
    let lq = logarithm64::<A>(q);
    assert(lp.finite() && lq.finite()) by {
        reveal(orderly64);
    }
    lemma_difference64::<A>(one, label);
    let rest = difference64::<A>(one, label);
    assert(label.amount() * lp.amount() == if y.means(0real) {
        0real
    } else {
        lp.amount()
    }) by (nonlinear_arith)
        requires
            y.means(0real) ==> label.amount() == 0real,
            !y.means(0real) ==> label.amount() == 1real,
    ;
    assert(rest.amount() * lq.amount() == if y.means(0real) {
        lq.amount()
    } else {
        0real
    }) by (nonlinear_arith)
        requires
            y.means(0real) ==> rest.amount() == 1real,
            !y.means(0real) ==> rest.amount() == 0real,
    ;
    assert(zero.means(0real) && lp.means(lp.amount()) && lq.means(lq.amount()));
    lemma_product64::<A>(label, lp);
    lemma_product64::<A>(rest, lq);
    let a = product64::<A>(label, lp);
    let b = product64::<A>(rest, lq);
    lemma_sum64::<A>(a, b);
    lemma_sign64(sum64::<A>(a, b));
    let none = logarithm64::<A>(one);
    assert(none.means(0real)) by {
        reveal(faithful);
    }
    lemma_order64(q, one);
    assert(lp.at_most(none) && lq.at_most(none)) by {
        reveal(orderly64);
    }
    lemma_order64(lp, none);
    lemma_order64(lq, none);
}

/// A score and its opposite lose alike on opposite labels, where e to the one and e to the other
/// cancel out and the probabilities are neither rounded nor brought within bounds.
pub proof fn lemma_mirrored_loss<A: Arith>(s: F32, y: F32, z: F32)
    requires
        faithful::<A>(),
        orderly64::<A>(),
        orderly_precision::<A>(),
        s.finite(),
        y.means(0real) || y.means(1real),
        z.means(1real - y.amount()),
        mirrors::<A>(s),
        mirrors::<A>(s.opposite()),
    ensures
        log_loss::<A>(s, y).means(log_loss::<A>(s.opposite(), z).amount()),
{
    let one = F64 { bits: ONE64 };
    lemma_sign32(s);
    lemma_constants();
    let e = exponential64::<A>(widened::<A>(s.opposite()));
    let f = exponential64::<A>(widened::<A>(s));
    let x = e.amount();
    let w = f.amount();
    lemma_row_loss::<A>(s, y);
    lemma_row_loss::<A>(s.opposite(), z);
    lemma_unbounded::<A>(s);
    lemma_unbounded::<A>(s.opposite());
    let p = scored_probability::<A>(s);
    let q = scored_probability::<A>(s.opposite());
    assert(1real / (1real + x) + 1real / (1real + w) == 1real) by (nonlinear_arith)
        requires
            x > 0real,
            w > 0real,
            x * w == 1real,
    ;
    assert(q.means(1real - p.amount()));
    assert(p.means(1real - q.amount()));
    lemma_difference64::<A>(one, p);
    lemma_difference64::<A>(one, q);
    let zero = F64 { bits: 0 };
    lemma_order64(zero, p);
    lemma_order64(zero, q);
    lemma_unique64(difference64::<A>(one, p), q);
    lemma_unique64(difference64::<A>(one, q), p);
}

/// The probability of a score is one over one plus e to minus the score, without rounding and
/// within bounds, and e to the score is the inverse of e to minus the score.
pub open spec fn mirrors<A: Arith>(s: F32) -> bool {
    let e = exponential64::<A>(widened::<A>(s.opposite()));
    let f = exponential64::<A>(widened::<A>(s));
    let p = 1real / (1real + e.amount());
    &&& e.finite()
    &&& f.finite()
    &&& 0real < e.amount()
    &&& e.amount() * f.amount() == 1real
    &&& fits64(1real + e.amount())
    &&& fits64(p)
    &&& (F64 { bits: LEAST64 }).amount() <= p <= (F64 { bits: LARGEST64 }).amount()
}

proof fn lemma_unbounded<A: Arith>(s: F32)
    requires
        faithful::<A>(),
        mirrors::<A>(s),
    ensures
        scored_probability::<A>(s).means(
            1real / (1real + exponential64::<A>(widened::<A>(s.opposite())).amount()),
        ),
{
    let one = F64 { bits: ONE64 };
    let e = exponential64::<A>(widened::<A>(s.opposite()));
    lemma_constants();
    lemma_sum64::<A>(one, e);
    let d = sum64::<A>(one, e);
    lemma_quotient64::<A>(one, d);
    lemma_order64(quotient64::<A>(one, d), F64 { bits: LEAST64 });
    lemma_order64(F64 { bits: LARGEST64 }, quotient64::<A>(one, d));
}

/// One list of scores is at least as good as another: no row with label zero has a higher score
/// in it, and no row with label one a lower one.
pub open spec fn no_worse(s: Seq<F32>, t: Seq<F32>, labels: Seq<F32>) -> bool {
    &&& s.len() == t.len()
    &&& forall|i: int|
        #![trigger labels[i]]
        0 <= i < s.len() && 0 <= i < labels.len() ==> {
            ||| labels[i].means(0real) && s[i].at_most(t[i])
            ||| labels[i].means(1real) && t[i].at_most(s[i])
        }
}

proof fn lemma_loss_totals<A: Arith>(s: Seq<F32>, t: Seq<F32>, labels: Seq<F32>, k: nat)
    requires
        faithful::<A>(),
        orderly64::<A>(),
        orderly_precision::<A>(),
        no_worse(s, t, labels),
        k <= s.len(),
        k <= labels.len(),
    ensures
        total_of::<A>(Term::LogLoss, s, labels, k).at_most(
            total_of::<A>(Term::LogLoss, t, labels, k),
        ),
        total_of::<A>(Term::LogLoss, s, labels, k).nonnegative(),
    decreases k,
{
    let zero = F64 { bits: 0 };
    lemma_constants();
    if k > 0 {
        lemma_loss_totals::<A>(s, t, labels, (k - 1) as nat);
        let i = k - 1;
        let y = labels[i];
        if s[i].at_most(t[i]) && y.means(0real) {
            lemma_log_loss_order::<A>(s[i], t[i], y);
        } else {
            lemma_log_loss_order::<A>(t[i], s[i], y);
        }
        let a = log_loss::<A>(s[i], y);
        let b = log_loss::<A>(t[i], y);
        lemma_order64(a, b);
        lemma_order64(zero, a);
        lemma_sum64::<A>(zero, zero);
        lemma_order64(zero, sum64::<A>(zero, zero));
        let before = total_of::<A>(Term::LogLoss, s, labels, (k - 1) as nat);
        assert(sum64::<A>(zero, zero).at_most(sum64::<A>(before, a))) by {
            reveal(orderly64);
        }
        assert(sum64::<A>(before, a).at_most(
            sum64::<A>(total_of::<A>(Term::LogLoss, t, labels, (k - 1) as nat), b),
        )) by {
            reveal(orderly64);
        }
    }
}

/// Better scores do not have a larger log-loss.
pub proof fn lemma_logloss_order<A: Arith>(s: Seq<F32>, t: Seq<F32>, labels: Seq<F32>)
    requires
        faithful::<A>(),
        orderly64::<A>(),
        orderly_precision::<A>(),
        no_worse(s, t, labels),
        0 < s.len() <= u64::MAX,
    ensures
        mean_of::<A>(Term::LogLoss, s, labels).at_most(mean_of::<A>(Term::LogLoss, t, labels)),
{
    lemma_loss_totals::<A>(s, t, labels, shorter(s.len(), labels.len()));
    reveal(orderly64);
    reveal(orderly_precision);
}

/// How far the score of row `i` is above its label.
pub open spec fn gap(s: Seq<F32>, y: Seq<F32>, i: int) -> real {
    s[i].amount() - y[i].amount()
}

/// The squared differences of scores and labels.
pub open spec fn squared(s: Seq<F32>, y: Seq<F32>) -> spec_fn(int) -> real {
    |i: int| gap(s, y, i) * gap(s, y, i)
}

/// The sizes of the differences of scores and labels.
pub open spec fn sizes(s: Seq<F32>, y: Seq<F32>) -> spec_fn(int) -> real {
    |i: int|
        if gap(s, y, i) < 0real {
            -gap(s, y, i)
        } else {
            gap(s, y, i)
        }
}

/// Scores and labels are finite, and their differences can be written down.
pub open spec fn gaps_fit(s: Seq<F32>, y: Seq<F32>) -> bool {
    &&& s.len() == y.len()
    &&& 0 < s.len() <= u64::MAX
    &&& fits64(s.len() as real)
    &&& forall|i: int|
        0 <= i < s.len() ==> (#[trigger] s[i]).finite() && y[i].finite() && fits64(gap(s, y, i))
}

proof fn lemma_total_of<A: Arith>(
    term: Term,
    s: Seq<F32>,
    y: Seq<F32>,
    k: nat,
    f: spec_fn(int) -> real,
)
    requires
        faithful::<A>(),
        totals_fit64(k, f),
        forall|i: int| 0 <= i < k ==> term_of::<A>(term, s[i], y[i]).means(#[trigger] f(i)),
    ensures
        total_of::<A>(term, s, y, k).means(total(k, f)),
    decreases k,
{
    lemma_constants();
    if k > 0 {
        lemma_total_of::<A>(term, s, y, (k - 1) as nat, f);
        assert(fits64(total(k, f)));
        assert(term_of::<A>(term, s[k - 1], y[k - 1]).means(f(k - 1)));
        lemma_sum64::<A>(
            total_of::<A>(term, s, y, (k - 1) as nat),
            term_of::<A>(term, s[k - 1], y[k - 1]),
        );
    }
}

proof fn lemma_mean_of<A: Arith>(
    term: Term,
    s: Seq<F32>,
    y: Seq<F32>,
    f: spec_fn(int) -> real,
)
    requires
        faithful::<A>(),
        s.len() == y.len(),
        0 < s.len() <= u64::MAX,
        fits64(s.len() as real),
        totals_fit64(s.len(), f),
        fits64(total(s.len(), f) / (s.len() as real)),
        forall|i: int| 0 <= i < s.len() ==> term_of::<A>(term, s[i], y[i]).means(#[trigger] f(i)),
    ensures
        mean_of::<A>(term, s, y).finite(),
        mean_of::<A>(term, s, y).amount() * (s.len() as real) == total(s.len(), f),
{
    lemma_total_of::<A>(term, s, y, s.len(), f);
    lemma_counted64::<A>(s.len() as u64);
    let a = total_of::<A>(term, s, y, s.len());
    let c = counted64::<A>(s.len() as u64);
    lemma_quotient64::<A>(a, c);
    let m = mean_of::<A>(term, s, y).amount();
    let t = total(s.len(), f);
    let n = s.len() as real;
    assert(m * n == t) by (nonlinear_arith)
        requires
            m == t / n,
            n > 0real,
    ;
}

proof fn lemma_deviation<A: Arith>(s: Seq<F32>, y: Seq<F32>, i: int)
    requires
        faithful::<A>(),
        gaps_fit(s, y),
        0 <= i < s.len(),
    ensures
        deviation::<A>(s[i], y[i]).means(gap(s, y, i)),
{
    assert(s[i].finite());
    lemma_widened::<A>(s[i]);
    lemma_widened::<A>(y[i]);
    lemma_difference64::<A>(widened::<A>(s[i]), widened::<A>(y[i]));
}

/// The mean absolute error times the number of rows is the sum of the sizes of the differences.
pub proof fn lemma_mae<A: Arith>(s: Seq<F32>, y: Seq<F32>)
    requires
        faithful::<A>(),
        gaps_fit(s, y),
        totals_fit64(s.len(), sizes(s, y)),
        fits64(total(s.len(), sizes(s, y)) / (s.len() as real)),
    ensures
        mean_of::<A>(Term::Absolute, s, y).finite(),
        mean_of::<A>(Term::Absolute, s, y).amount() * (s.len() as real) == total(
            s.len(),
            sizes(s, y),
        ),
{
    let f = sizes(s, y);
    assert forall|i: int| 0 <= i < s.len() implies term_of::<A>(Term::Absolute, s[i], y[i]).means(
        #[trigger] f(i),
    ) by {
        lemma_deviation::<A>(s, y, i);
        lemma_sign64(deviation::<A>(s[i], y[i]));
    }
    lemma_mean_of::<A>(Term::Absolute, s, y, f);
}

proof fn lemma_squares<A: Arith>(s: Seq<F32>, y: Seq<F32>, i: int)
    requires
        faithful::<A>(),
        gaps_fit(s, y),
        0 <= i < s.len(),
        fits64(squared(s, y)(i)),
    ensures
        term_of::<A>(Term::Square, s[i], y[i]).means(squared(s, y)(i)),
{
    let d = deviation::<A>(s[i], y[i]);
    lemma_deviation::<A>(s, y, i);
    lemma_product64::<A>(d, d);
}

/// The square of the root mean squared error, times the number of rows, is the sum of the
/// squared differences.
pub proof fn lemma_rmse<A: Arith>(s: Seq<F32>, y: Seq<F32>, r: real)
    requires
        faithful::<A>(),
        gaps_fit(s, y),
        forall|i: int| 0 <= i < s.len() ==> fits64(#[trigger] squared(s, y)(i)),
        totals_fit64(s.len(), squared(s, y)),
        fits64(total(s.len(), squared(s, y)) / (s.len() as real)),
        0real <= r,
        r * r * (s.len() as real) == total(s.len(), squared(s, y)),
        fits64(r),
    ensures
        rmse_of::<A>(s, y).means(r),
{
    let f = squared(s, y);
    assert forall|i: int| 0 <= i < s.len() implies term_of::<A>(Term::Square, s[i], y[i]).means(
        #[trigger] f(i),
    ) by {
        lemma_squares::<A>(s, y, i);
    }
    lemma_mean_of::<A>(Term::Square, s, y, f);
    let m = mean_of::<A>(Term::Square, s, y);
    let n = s.len() as real;
    let q = m.amount();
    assert(r * r == q) by (nonlinear_arith)
        requires
            q * n == r * r * n,
            n > 0real,
    ;
    lemma_root64::<A>(m, r);
}

/// The squared differences of the labels and a number.
pub open spec fn scatter(y: Seq<F32>, mean: real) -> spec_fn(int) -> real {
    |i: int| (y[i].amount() - mean) * (y[i].amount() - mean)
}

proof fn lemma_spread<A: Arith>(y: Seq<F32>, mean: F64, k: nat)
    requires
        faithful::<A>(),
        mean.finite(),
        k <= y.len(),
        totals_fit64(k, scatter(y, mean.amount())),
        forall|i: int|
            0 <= i < k ==> (#[trigger] y[i]).finite() && fits64(y[i].amount() - mean.amount())
                && fits64(scatter(y, mean.amount())(i)),
    ensures
        spread::<A>(y, mean, k).means(total(k, scatter(y, mean.amount()))),
    decreases k,
{
    lemma_constants();
    if k > 0 {
        let f = scatter(y, mean.amount());
        lemma_spread::<A>(y, mean, (k - 1) as nat);
        let v = y[k - 1];
        assert(v.finite());
        lemma_widened::<A>(v);
        lemma_difference64::<A>(widened::<A>(v), mean);
        let d = difference64::<A>(widened::<A>(v), mean);
        assert(fits64(f(k - 1)));
        lemma_product64::<A>(d, d);
        assert(fits64(total(k, f)));
        lemma_sum64::<A>(spread::<A>(y, mean, (k - 1) as nat), product64::<A>(d, d));
    }
}

/// The steps towards the coefficient of determination can be written down; `mean` is the mean
/// label.
pub open spec fn r2_fits(s: Seq<F32>, y: Seq<F32>, mean: real) -> bool {
    let n = s.len();
    let sse = total(n, squared(s, y));
    let sst = total(n, scatter(y, mean));
    &&& gaps_fit(s, y)
    &&& parts_fit64(y, n)
    &&& mean * (n as real) == part(y, n, |i: int| true)
    &&& fits64(mean)
    &&& totals_fit64(n, squared(s, y))
    &&& totals_fit64(n, scatter(y, mean))
    &&& forall|i: int| 0 <= i < n ==> fits64(#[trigger] squared(s, y)(i))
    &&& forall|i: int|
        0 <= i < n ==> (#[trigger] y[i]).finite() && fits64(y[i].amount() - mean) && fits64(
            scatter(y, mean)(i),
        )
    &&& fits64(sse / sst)
    &&& fits64(1real - sse / sst)
}

/// One less the coefficient of determination is the share of the scatter of the labels about
/// their mean that is left about the scores.
pub proof fn lemma_r2<A: Arith>(s: Seq<F32>, y: Seq<F32>, mean: real)
    requires
        faithful::<A>(),
        r2_fits(s, y, mean),
        total(s.len(), scatter(y, mean)) != 0real,
    ensures
        r2_of::<A>(s, y).finite(),
        (1real - r2_of::<A>(s, y).amount()) * total(s.len(), scatter(y, mean)) == total(
            s.len(),
            squared(s, y),
        ),
{
    let n = s.len();
    let m = label_mean::<A>(y);
    lemma_constants();
    lemma_label_sum::<A>(y, n);
    lemma_counted64::<A>(n as u64);
    let all = part(y, n, |i: int| true);
    let c = n as real;
    assert(all / c == mean) by (nonlinear_arith)
        requires
            mean * c == all,
            c > 0real,
    ;
    lemma_quotient64::<A>(label_sum::<A>(y, n), counted64::<A>(n as u64));
    assert(m.means(mean));
    lemma_spread::<A>(y, m, n);
    let sst = spread::<A>(y, m, n);
    let f = squared(s, y);
    assert forall|i: int| 0 <= i < n implies term_of::<A>(Term::Square, s[i], y[i]).means(
        #[trigger] f(i),
    ) by {
        lemma_squares::<A>(s, y, i);
    }
    lemma_total_of::<A>(Term::Square, s, y, n, f);
    let sse = total_of::<A>(Term::Square, s, y, n);
    lemma_order64(sst, F64 { bits: 0 });
    lemma_quotient64::<A>(sse, sst);
    let q = quotient64::<A>(sse, sst);
    lemma_difference64::<A>(F64 { bits: ONE64 }, q);
    let r = r2_of::<A>(s, y).amount();
    let a = sse.amount();
    let b = sst.amount();
    assert((1real - r) * b == a) by (nonlinear_arith)
        requires
            r == 1real - a / b,
            b != 0real,
    ;
}

/// The score of row `i` is above zero just where its label is one.
pub open spec fn right(s: Seq<F32>, y: Seq<F32>) -> spec_fn(int) -> bool {
    |i: int| (0real < s[i].amount()) == (y[i].amount() == 1real)
}

proof fn lemma_correct_count<A: Arith>(s: Seq<F32>, y: Seq<F32>, k: nat)
    requires
        faithful::<A>(),
        k <= s.len(),
        forall|i: int|
            0 <= i < k ==> (#[trigger] s[i]).finite() && (y[i].means(0real) || y[i].means(1real)),
    ensures
        correct_count::<A>(s, y, k) == picked(k, right(s, y)),
    decreases k,
{
    if k > 0 {
        lemma_correct_count::<A>(s, y, (k - 1) as nat);
        let a = s[k - 1];
        let b = y[k - 1];
        let zero = F32 { bits: 0 };
        let one = F32 { bits: ONE32 };
        let half = F32 { bits: HALF32 };
        lemma_constants();
        assert(a.finite());
        lemma_order32(zero, a);
        let class = F32 {
            bits: if zero.below(a) {
                ONE32
            } else {
                0
            },
        };
        assert(class == one || class == zero);
        let minus = one.opposite();
        lemma_sign32(one);
        assert(minus.means(-1real));
        lemma_difference32::<A>(class, b);
        let d = difference32::<A>(class, b);
        lemma_sign32(d);
        lemma_order32(d.absolute(), half);
    }
}

/// The accuracy times the number of rows is the number of rows whose score is above zero just
/// where their label is one.
pub proof fn lemma_accuracy<A: Arith>(s: Seq<F32>, y: Seq<F32>)
    requires
        faithful::<A>(),
        s.len() == y.len(),
        0 < s.len() <= u64::MAX,
        counts_fit64(s.len()),
        forall|i: int|
            0 <= i < s.len() ==> (#[trigger] s[i]).finite() && (y[i].means(0real) || y[i].means(
                1real,
            )),
        fits64((picked(s.len(), right(s, y)) as real) / (s.len() as real)),
    ensures
        accuracy_of::<A>(s, y).finite(),
        accuracy_of::<A>(s, y).amount() * (s.len() as real) == picked(
            s.len(),
            right(s, y),
        ) as real,
{
    let n = s.len();
    lemma_correct_count::<A>(s, y, n);
    let k = picked(n, right(s, y));
    lemma_picked_bound(n, right(s, y));
    lemma_count_fits(n, k);
    lemma_count_fits(n, n);
    lemma_counted64::<A>(k as u64);
    lemma_counted64::<A>(n as u64);
    lemma_quotient64::<A>(counted64::<A>(k as u64), counted64::<A>(n as u64));
    let r = accuracy_of::<A>(s, y).amount();
    let a = k as real;
    let b = n as real;
    assert(r * b == a) by (nonlinear_arith)
        requires
            r == a / b,
            b > 0real,
    ;
}

} // verus!
