//! What the encoded values of categories are means of.

use vstd::prelude::*;

use crate::arith::counted64;
use crate::arith::difference64;
use crate::arith::product64;
use crate::arith::quotient64;
use crate::arith::sum64;
use crate::arith::widened;
use crate::arith::Arith;
use crate::booster::fitting_of;
use crate::config::Config;
use crate::data::Dataset;
use crate::encoding::category;
use crate::encoding::label_sum;
use crate::encoding::lemma_encoded_columns;
use crate::encoding::lemma_encoded_entry;
use crate::encoding::lemma_row_place;
use crate::encoding::mean_label;
use crate::encoding::smoothed;
use crate::encoding::Fitting;
use crate::encoding::Tally;
use crate::float::F32;
use crate::float::F64;
use crate::reals::faithful;
use crate::reals::fits32;
use crate::reals::fits64;
use crate::reals::lemma_constants;
use crate::reals::lemma_counted64;
use crate::reals::lemma_difference64;
use crate::reals::lemma_narrowed;
use crate::reals::lemma_order64;
use crate::reals::lemma_product64;
use crate::reals::lemma_quotient64;
use crate::reals::lemma_sum64;
use crate::reals::lemma_widened;
use crate::sums::counts_fit64;
use crate::sums::lemma_count_fits;
use crate::sums::lemma_part_none;
use crate::sums::lemma_part_same;
use crate::sums::lemma_part_split;
use crate::sums::lemma_picked_bound;
use crate::sums::lemma_picked_some;
use crate::sums::part;
use crate::sums::parts_fit64;
use crate::sums::picked;

verus! {

/// A value is the mean of `count` labels with the given sum and of as many copies of `mean` as
/// the smoothing says. So it lies between the two means.
pub open spec fn blends(value: real, sum: real, count: nat, smoothing: real, mean: real) -> bool {
    &&& value * (count as real + smoothing) == sum + smoothing * mean
    &&& sum <= mean * (count as real) ==> value <= mean && sum <= value * (count as real)
    &&& mean * (count as real) <= sum ==> mean <= value && value * (count as real) <= sum
    &&& sum == mean * (count as real) ==> value == mean
}

/// The steps towards the value of a category can be written down.
pub open spec fn blend_fits(sum: real, count: nat, smoothing: real, mean: real) -> bool {
    let value = (sum + smoothing * mean) / (count as real + smoothing);
    &&& fits64(smoothing * mean)
    &&& fits64(sum + smoothing * mean)
    &&& fits64(count as real + smoothing)
    &&& fits64(value)
    &&& fits32(value)
}

proof fn lemma_smoothed<A: Arith>(sum: F64, cnt: F64, count: nat, smoothing: F64, mean: F64)
    requires
        faithful::<A>(),
        sum.finite(),
        cnt.means(count as real),
        smoothing.finite(),
        mean.finite(),
        0 < count,
        0real <= smoothing.amount(),
        blend_fits(sum.amount(), count, smoothing.amount(), mean.amount()),
    ensures
        smoothed::<A>(sum, cnt, smoothing, mean).finite(),
        blends(
            smoothed::<A>(sum, cnt, smoothing, mean).amount(),
            sum.amount(),
            count,
            smoothing.amount(),
            mean.amount(),
        ),
{
    lemma_product64::<A>(smoothing, mean);
    let drawn = product64::<A>(smoothing, mean);
    lemma_sum64::<A>(sum, drawn);
    lemma_sum64::<A>(cnt, smoothing);
    let top = sum64::<A>(sum, drawn);
    let bottom = sum64::<A>(cnt, smoothing);
    lemma_quotient64::<A>(top, bottom);
    lemma_narrowed::<A>(quotient64::<A>(top, bottom));
    let v = smoothed::<A>(sum, cnt, smoothing, mean).amount();
    let s = sum.amount();
    let c = count as real;
    let a = smoothing.amount();
    let m = mean.amount();
    assert(v * (c + a) == s + a * m) by (nonlinear_arith)
        requires
            v == (s + a * m) / (c + a),
            c > 0real,
            a >= 0real,
    ;
    if s <= m * c {
        assert(v <= m && s <= v * c) by (nonlinear_arith)
            requires
                v * (c + a) == s + a * m,
                c > 0real,
                a >= 0real,
                s <= m * c,
        ;
    }
    if m * c <= s {
        assert(m <= v && v * c <= s) by (nonlinear_arith)
            requires
                v * (c + a) == s + a * m,
                c > 0real,
                a >= 0real,
                m * c <= s,
        ;
    }
}

proof fn lemma_fold_sum<A: Arith>(t: Tally, key: i64, fold: int, k: nat)
    requires
        faithful::<A>(),
        parts_fit64(t.y, t.y.len()),
        k <= t.y.len(),
    ensures
        t.sum::<A>(key, fold, k).means(
            part(t.y, k, |i: int| t.keys[i] == key && i % t.folds == fold),
        ),
        t.count(key, fold, k) == picked(k, |i: int| t.keys[i] == key && i % t.folds == fold),
    decreases k,
{
    let pick = |i: int| t.keys[i] == key && i % t.folds == fold;
    lemma_constants();
    if k > 0 {
        lemma_fold_sum::<A>(t, key, fold, (k - 1) as nat);
        assert(pick(k - 1) == (t.keys[k - 1] == key && (k - 1) % t.folds == fold));
        let before = t.sum::<A>(key, fold, (k - 1) as nat);
        assert(fits64(part(t.y, k, pick)));
        if pick(k - 1) {
            lemma_widened::<A>(t.y[k - 1]);
            lemma_sum64::<A>(before, widened::<A>(t.y[k - 1]));
        }
    }
}

proof fn lemma_folds_sum<A: Arith>(t: Tally, key: i64, j: nat)
    requires
        faithful::<A>(),
        parts_fit64(t.y, t.y.len()),
        t.keys.len() <= t.y.len(),
        0 < t.folds,
    ensures
        t.total::<A>(key, j).means(
            part(t.y, t.keys.len(), |i: int| t.keys[i] == key && i % t.folds < j),
        ),
        t.total_count(key, j) == picked(
            t.keys.len(),
            |i: int| t.keys[i] == key && i % t.folds < j,
        ),
    decreases j,
{
    let n = t.keys.len();
    let upto = |i: int| t.keys[i] == key && i % t.folds < j;
    lemma_constants();
    if j == 0 {
        lemma_part_none(t.y, n, upto);
    } else {
        lemma_folds_sum::<A>(t, key, (j - 1) as nat);
        lemma_fold_sum::<A>(t, key, j - 1, n);
        let before = |i: int| t.keys[i] == key && i % t.folds < (j - 1) as nat;
        let own = |i: int| t.keys[i] == key && i % t.folds == j - 1;
        lemma_part_split(t.y, n, upto, before, own);
        assert(fits64(part(t.y, n, upto)));
        lemma_sum64::<A>(t.total::<A>(key, (j - 1) as nat), t.sum::<A>(key, j - 1, n));
    }
}

/// The sum of labels is not rounded.
pub proof fn lemma_label_sum<A: Arith>(y: Seq<F32>, k: nat)
    requires
        faithful::<A>(),
        parts_fit64(y, y.len()),
        k <= y.len(),
    ensures
        label_sum::<A>(y, k).means(part(y, k, |i: int| true)),
    decreases k,
{
    lemma_constants();
    if k > 0 {
        lemma_label_sum::<A>(y, (k - 1) as nat);
        lemma_widened::<A>(y[k - 1]);
        assert(fits64(part(y, k, |i: int| true)));
        lemma_sum64::<A>(label_sum::<A>(y, (k - 1) as nat), widened::<A>(y[k - 1]));
    }
}

/// The mean label times the number of labels is their sum.
pub proof fn lemma_mean_label<A: Arith>(y: Seq<F32>, n: int)
    requires
        faithful::<A>(),
        parts_fit64(y, y.len()),
        0 < n <= u64::MAX,
        fits64(n as real),
        fits64(part(y, y.len(), |i: int| true) / (n as real)),
        fits32(part(y, y.len(), |i: int| true) / (n as real)),
    ensures
        mean_label::<A>(y, n).finite(),
        mean_label::<A>(y, n).amount() * (n as real) == part(y, y.len(), |i: int| true),
{
    let all = part(y, y.len(), |i: int| true);
    lemma_label_sum::<A>(y, y.len());
    lemma_counted64::<A>(n as u64);
    let sum = label_sum::<A>(y, y.len());
    let count = counted64::<A>(n as u64);
    lemma_quotient64::<A>(sum, count);
    lemma_narrowed::<A>(quotient64::<A>(sum, count));
    let m = mean_label::<A>(y, n).amount();
    let c = n as real;
    assert(m * c == all) by (nonlinear_arith)
        requires
            m == all / c,
            c > 0real,
    ;
}

/// Row `i` has the category `key` in column `c`.
pub open spec fn in_category(fit: Fitting, x: Seq<F32>, c: int, key: i64, i: int) -> bool {
    category(x[i * fit.nf + c], fit.buckets) == key
}

/// The labels can be added up, counted and averaged, and the smoothing is not negative.
pub open spec fn encodable(fit: Fitting) -> bool {
    let all = part(fit.y, fit.y.len(), |i: int| true);
    &&& parts_fit64(fit.y, fit.y.len())
    &&& 0 < fit.n <= fit.y.len()
    &&& fit.y.len() <= u64::MAX
    &&& counts_fit64(fit.y.len())
    &&& fits64(all / (fit.n as real))
    &&& fits32(all / (fit.n as real))
    &&& fit.smoothing.finite()
    &&& 0real <= fit.smoothing.amount()
    &&& 0 < fit.folds
    &&& 0 < fit.nf
}

/// The table of a column that is listed once gives each category the mean of its labels, drawn
/// towards the mean of all labels: the two means are weighed by the number of rows of the
/// category and by the smoothing.
pub proof fn lemma_table_blends<A: Arith>(
    fit: Fitting,
    x: Seq<F32>,
    columns: Seq<usize>,
    k: int,
    key: i64,
)
    requires
        faithful::<A>(),
        encodable(fit),
        0 <= k < columns.len(),
        forall|j: int| 0 <= j < columns.len() && j != k ==> #[trigger] columns[j] != columns[k],
        columns[k] < fit.nf,
        fit.n * fit.nf <= x.len(),
        fit.tables::<A>(x, columns)[k].contains_key(key),
        ({
            let pick = |i: int| in_category(fit, x, columns[k] as int, key, i);
            blend_fits(
                part(fit.y, fit.n as nat, pick),
                picked(fit.n as nat, pick),
                fit.smoothing.amount(),
                mean_label::<A>(fit.y, fit.n).amount(),
            )
        }),
    ensures
        ({
            let pick = |i: int| in_category(fit, x, columns[k] as int, key, i);
            &&& fit.tables::<A>(x, columns)[k][key].finite()
            &&& 0 < picked(fit.n as nat, pick)
            &&& blends(
                fit.tables::<A>(x, columns)[k][key].amount(),
                part(fit.y, fit.n as nat, pick),
                picked(fit.n as nat, pick),
                fit.smoothing.amount(),
                mean_label::<A>(fit.y, fit.n).amount(),
            )
        }),
{
    let c = columns[k] as int;
    let n = fit.n as nat;
    let before = fit.encoded::<A>(x, columns, k as nat);
    let t = fit.tally(before, c);
    let pick = |i: int| in_category(fit, x, c, key, i);
    lemma_encoded_columns::<A>(fit, x, columns, k as nat);
    assert forall|r: int| 0 <= r < fit.n implies #[trigger] t.keys[r] == category(
        x[r * fit.nf + c],
        fit.buckets,
    ) by {
        lemma_row_place(r, c, fit.n, fit.nf);
        assert forall|j: int| 0 <= j < k implies #[trigger] columns[j] != (r * fit.nf + c)
            % fit.nf by {}
        assert(before[r * fit.nf + c] == x[r * fit.nf + c]);
    }
    let folds = fit.folds as nat;
    lemma_folds_sum::<A>(t, key, folds);
    let all = |i: int| t.keys[i] == key && i % t.folds < folds;
    assert forall|i: int| 0 <= i < n implies #[trigger] all(i) == pick(i) by {
        vstd::arithmetic::div_mod::lemma_mod_bound(i, t.folds);
        assert(t.keys[i] == category(x[i * fit.nf + c], fit.buckets));
    }
    lemma_part_same(fit.y, n, all, pick);
    lemma_picked_bound(n, pick);
    let count = picked(n, pick);
    assert(t.keys.contains(key));
    let i = choose|i: int| 0 <= i < t.keys.len() && t.keys[i] == key;
    assert(pick(i));
    lemma_picked_some(n, pick, i);
    lemma_count_fits(fit.y.len(), count);
    lemma_counted64::<A>(count as u64);
    lemma_count_fits(fit.y.len(), n);
    lemma_mean_label::<A>(fit.y, fit.n);
    let mean = mean_label::<A>(fit.y, fit.n);
    lemma_widened::<A>(mean);
    lemma_smoothed::<A>(
        t.total::<A>(key, folds),
        counted64::<A>(count as u64),
        count,
        fit.smoothing,
        widened::<A>(mean),
    );
}

/// A train row has, in a column that is listed once, the mean label of the rows of its category
/// in the other folds, drawn towards the mean of all labels; and that mean itself where the
/// other folds have no such row.
pub proof fn lemma_row_blends<A: Arith>(
    fit: Fitting,
    x: Seq<F32>,
    columns: Seq<usize>,
    k: int,
    i: int,
)
    requires
        faithful::<A>(),
        encodable(fit),
        0 <= k < columns.len(),
        forall|j: int| 0 <= j < columns.len() && j != k ==> #[trigger] columns[j] != columns[k],
        columns[k] < fit.nf,
        0 <= i < fit.n,
        fit.n * fit.nf <= x.len(),
        ({
            let c = columns[k] as int;
            let key = category(x[i * fit.nf + c], fit.buckets);
            let pick = |r: int|
                in_category(fit, x, c, key, r) && r % fit.folds != i % fit.folds;
            picked(fit.n as nat, pick) > 0 ==> blend_fits(
                part(fit.y, fit.n as nat, pick),
                picked(fit.n as nat, pick),
                fit.smoothing.amount(),
                mean_label::<A>(fit.y, fit.n).amount(),
            )
        }),
    ensures
        ({
            let c = columns[k] as int;
            let key = category(x[i * fit.nf + c], fit.buckets);
            let pick = |r: int|
                in_category(fit, x, c, key, r) && r % fit.folds != i % fit.folds;
            let value = fit.encoded::<A>(x, columns, columns.len())[i * fit.nf + c];
            let mean = mean_label::<A>(fit.y, fit.n);
            &&& value.finite()
            &&& picked(fit.n as nat, pick) == 0 ==> value == mean
            &&& picked(fit.n as nat, pick) > 0 ==> blends(
                value.amount(),
                part(fit.y, fit.n as nat, pick),
                picked(fit.n as nat, pick),
                fit.smoothing.amount(),
                mean.amount(),
            )
        }),
{
    let c = columns[k] as int;
    let n = fit.n as nat;
    let key = category(x[i * fit.nf + c], fit.buckets);
    let fold = i % fit.folds;
    let folds = fit.folds as nat;
    let t = fit.tally(x, c);
    let pick = |r: int| in_category(fit, x, c, key, r) && r % fit.folds != i % fit.folds;
    let own = |r: int| t.keys[r] == key && r % t.folds == fold;
    let all = |r: int| t.keys[r] == key && r % t.folds < folds;
    lemma_encoded_entry::<A>(fit, x, columns, k, i);
    lemma_folds_sum::<A>(t, key, folds);
    lemma_fold_sum::<A>(t, key, fold, n);
    assert forall|r: int| 0 <= r < n implies #[trigger] all(r) == (pick(r) || own(r)) && !(pick(r)
        && own(r)) by {
        vstd::arithmetic::div_mod::lemma_mod_bound(r, t.folds);
        assert(t.keys[r] == category(x[r * fit.nf + c], fit.buckets));
    }
    lemma_part_split(fit.y, n, all, pick, own);
    lemma_picked_bound(n, all);
    let whole = t.total::<A>(key, folds);
    let taken = t.sum::<A>(key, fold, n);
    assert(fits64(part(fit.y, n, pick)));
    lemma_difference64::<A>(whole, taken);
    lemma_count_fits(fit.y.len(), picked(n, all));
    lemma_count_fits(fit.y.len(), picked(n, own));
    lemma_count_fits(fit.y.len(), picked(n, pick));
    lemma_counted64::<A>(picked(n, all) as u64);
    lemma_counted64::<A>(picked(n, own) as u64);
    let more = counted64::<A>(picked(n, all) as u64);
    let less = counted64::<A>(picked(n, own) as u64);
    lemma_difference64::<A>(more, less);
    let cnt = difference64::<A>(more, less);
    lemma_constants();
    lemma_order64(F64 { bits: 0 }, cnt);
    lemma_count_fits(fit.y.len(), n);
    lemma_mean_label::<A>(fit.y, fit.n);
    let mean = mean_label::<A>(fit.y, fit.n);
    lemma_widened::<A>(mean);
    if picked(n, pick) > 0 {
        lemma_smoothed::<A>(
            difference64::<A>(whole, taken),
            cnt,
            picked(n, pick),
            fit.smoothing,
            widened::<A>(mean),
        );
    }
}

/// A training set is encoded with the smoothing that the configuration asks for, over its own
/// labels and rows.
pub proof fn lemma_fitting<A: Arith>(ds: Dataset, cfg: Config)
    requires
        faithful::<A>(),
        cfg.te_smoothing.finite(),
    ensures
        fitting_of::<A>(ds, cfg).smoothing.means(cfg.te_smoothing.amount()),
        fitting_of::<A>(ds, cfg).y == ds.y_train@,
        fitting_of::<A>(ds, cfg).n == ds.n_train,
        fitting_of::<A>(ds, cfg).nf == ds.n_features,
        fitting_of::<A>(ds, cfg).buckets == cfg.cat_hash_buckets,
        fitting_of::<A>(ds, cfg).folds == 5,
{
    lemma_widened::<A>(cfg.te_smoothing);
}

} // verus!
