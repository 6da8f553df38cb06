//! Categorical features: smoothed target encoding.
//!
//! Category codes have no order that means anything. Target encoding puts in the place of a
//! code a smoothed mean of the labels of its category. Training rows are encoded out of fold:
//! the statistics that a row is encoded with leave out those of its own fold. Other rows are
//! encoded with the statistics of all training rows.

use std::collections::HashMap;
use vstd::prelude::*;

use crate::arith::add64;
use crate::arith::count64;
use crate::arith::counted64;
use crate::arith::deterministic;
use crate::arith::difference64;
use crate::arith::div64;
use crate::arith::mul64;
use crate::arith::narrow;
use crate::arith::narrowed;
use crate::arith::product64;
use crate::arith::quotient64;
use crate::arith::sub64;
use crate::arith::sum64;
use crate::arith::widen;
use crate::arith::widened;
use crate::arith::Arith;
use crate::float::F32;
use crate::float::F64;

verus! {

broadcast use vstd::std_specs::hash::group_hash_axioms;

/// For each categorical feature, the encoded values of its categories.
pub type Encoders = Vec<HashMap<i64, F32>>;

/// The encoded values of the categories of each feature.
pub open spec fn tables(encoders: Seq<HashMap<i64, F32>>) -> Seq<Map<i64, F32>> {
    Seq::new(encoders.len(), |i: int| encoders[i]@)
}

/// The bucket that a code is hashed into.
pub open spec fn bucket_of(c: i64, buckets: u64) -> u64 {
    let a = (c as u64).wrapping_mul(0x9E37_79B9_7F4A_7C15);
    let b = (a ^ (a >> 29)).wrapping_mul(0xBF58_476D_1CE4_E5B9);
    (b ^ (b >> 32)) % buckets
}

/// The key of a category: its code, rounded, or the bucket of it where there are buckets.
pub open spec fn category(v: F32, buckets: u64) -> i64 {
    if buckets == 0 {
        v.nearest_i64() as i64
    } else {
        bucket_of(v.nearest_i64() as i64, buckets) as i64
    }
}

/// With hashing there are no more keys than buckets, as long as keys can tell them apart.
pub proof fn lemma_category_bucket(v: F32, buckets: u64)
    requires
        0 < buckets <= 0x8000_0000_0000_0000,
    ensures
        0 <= category(v, buckets) < buckets,
{
    let c = v.nearest_i64() as i64;
    assert(0 <= bucket_of(c, buckets) < buckets);
}

/// Without hashing the key of a category is the nearest integer. Values that round alike have
/// the same key, with hashing or without.
pub proof fn lemma_category_rounded(v: F32, w: F32, buckets: u64)
    ensures
        category(v, 0) == v.nearest_i64() as i64,
        v.nearest_i64() == w.nearest_i64() ==> category(v, buckets) == category(w, buckets),
{
}

/// The keys of the first `n` rows for the feature in column `c`.
pub open spec fn column_keys(x: Seq<F32>, n: int, nf: int, c: int, buckets: u64) -> Seq<i64> {
    Seq::new(n as nat, |i: int| category(x[i * nf + c], buckets))
}

/// Rows by category and fold: row `i` has key `keys[i]` and belongs to fold `i % folds`.
pub struct Tally {
    pub keys: Seq<i64>,
    pub y: Seq<F32>,
    pub folds: int,
}

impl Tally {
    /// The label sum of a category in a fold over the first `k` rows.
    pub open spec fn sum<A: Arith>(self, key: i64, fold: int, k: nat) -> F64
        decreases k,
    {
        if k == 0 {
            F64 { bits: 0 }
        } else {
            let before = self.sum::<A>(key, fold, (k - 1) as nat);
            if self.keys[k - 1] == key && (k - 1) % self.folds == fold {
                sum64::<A>(before, widened::<A>(self.y[k - 1]))
            } else {
                before
            }
        }
    }

    /// The number of rows of a category in a fold among the first `k` rows.
    pub open spec fn count(self, key: i64, fold: int, k: nat) -> nat
        decreases k,
    {
        if k == 0 {
            0
        } else {
            let before = self.count(key, fold, (k - 1) as nat);
            if self.keys[k - 1] == key && (k - 1) % self.folds == fold {
                before + 1
            } else {
                before
            }
        }
    }

    /// The label sum of a category over its first `j` folds.
    pub open spec fn total<A: Arith>(self, key: i64, j: nat) -> F64
        decreases j,
    {
        if j == 0 {
            F64 { bits: 0 }
        } else {
            sum64::<A>(
                self.total::<A>(key, (j - 1) as nat),
                self.sum::<A>(key, j - 1, self.keys.len()),
            )
        }
    }

    /// The number of rows of a category in its first `j` folds.
    pub open spec fn total_count(self, key: i64, j: nat) -> nat
        decreases j,
    {
        if j == 0 {
            0
        } else {
            self.total_count(key, (j - 1) as nat) + self.count(key, j - 1, self.keys.len())
        }
    }

    /// The encoded value of a category from all rows.
    pub open spec fn value<A: Arith>(self, key: i64, smoothing: F64, mean: F64) -> F32 {
        smoothed::<A>(
            self.total::<A>(key, self.folds as nat),
            counted64::<A>(self.total_count(key, self.folds as nat) as u64),
            smoothing,
            mean,
        )
    }

    /// The encoded values of all categories.
    pub open spec fn table<A: Arith>(self, smoothing: F64, mean: F64) -> Map<i64, F32> {
        Map::new(
            |key: i64| self.keys.contains(key),
            |key: i64| self.value::<A>(key, smoothing, mean),
        )
    }

    /// The encoded value of row `i`, from the rows of the other folds; `gmean` where its
    /// category has none.
    pub open spec fn left_out<A: Arith>(self, i: int, smoothing: F64, gmean: F32) -> F32 {
        let key = self.keys[i];
        let fold = i % self.folds;
        let sum = difference64::<A>(
            self.total::<A>(key, self.folds as nat),
            self.sum::<A>(key, fold, self.keys.len()),
        );
        let cnt = difference64::<A>(
            counted64::<A>(self.total_count(key, self.folds as nat) as u64),
            counted64::<A>(self.count(key, fold, self.keys.len()) as u64),
        );
        if (F64 { bits: 0 }).below(cnt) {
            smoothed::<A>(sum, cnt, smoothing, widened::<A>(gmean))
        } else {
            gmean
        }
    }
}

/// The mean of `cnt` labels with the given sum, drawn towards `mean`.
pub open spec fn smoothed<A: Arith>(sum: F64, cnt: F64, smoothing: F64, mean: F64) -> F32 {
    narrowed::<A>(
        quotient64::<A>(
            sum64::<A>(sum, product64::<A>(smoothing, mean)),
            sum64::<A>(cnt, smoothing),
        ),
    )
}

/// The sum of the first `k` labels.
pub open spec fn label_sum<A: Arith>(y: Seq<F32>, k: nat) -> F64
    decreases k,
{
    if k == 0 {
        F64 { bits: 0 }
    } else {
        sum64::<A>(label_sum::<A>(y, (k - 1) as nat), widened::<A>(y[k - 1]))
    }
}

/// The mean label of `n` rows.
pub open spec fn mean_label<A: Arith>(y: Seq<F32>, n: int) -> F32 {
    narrowed::<A>(
        quotient64::<A>(label_sum::<A>(y, y.len()), counted64::<A>(n as u64)),
    )
}

/// A row-major matrix with new values in the first rows of column `c`.
pub open spec fn with_column(x: Seq<F32>, nf: int, c: int, vals: Seq<F32>) -> Seq<F32> {
    Seq::new(
        x.len(),
        |p: int|
            if p % nf == c && p / nf < vals.len() {
                vals[p / nf]
            } else {
                x[p]
            },
    )
}

/// What encoding a training set is made with.
pub struct Fitting {
    pub n: int,
    pub nf: int,
    pub y: Seq<F32>,
    pub smoothing: F64,
    pub folds: int,
    pub buckets: u64,
}

impl Fitting {
    /// The rows by category and fold for the feature in column `c`.
    pub open spec fn tally(self, x: Seq<F32>, c: int) -> Tally {
        Tally {
            keys: column_keys(x, self.n, self.nf, c, self.buckets),
            y: self.y,
            folds: self.folds,
        }
    }

    /// The features after the first `k` listed columns have been encoded.
    pub open spec fn encoded<A: Arith>(self, x: Seq<F32>, columns: Seq<usize>, k: nat) -> Seq<F32>
        decreases k,
    {
        if k == 0 {
            x
        } else {
            let before = self.encoded::<A>(x, columns, (k - 1) as nat);
            let tally = self.tally(before, columns[k - 1] as int);
            let gmean = mean_label::<A>(self.y, self.n);
            with_column(
                before,
                self.nf,
                columns[k - 1] as int,
                Seq::new(
                    self.n as nat,
                    |i: int| tally.left_out::<A>(i, self.smoothing, gmean),
                ),
            )
        }
    }

    /// The encoded values of the categories of the listed columns.
    pub open spec fn tables<A: Arith>(self, x: Seq<F32>, columns: Seq<usize>) -> Seq<
        Map<i64, F32>,
    > {
        let mean = widened::<A>(mean_label::<A>(self.y, self.n));
        Seq::new(
            columns.len(),
            |k: int|
                self.tally(
                    self.encoded::<A>(x, columns, k as nat),
                    columns[k] as int,
                ).table::<A>(self.smoothing, mean),
        )
    }
}

/// The features after the first `k` listed columns have been encoded by tables; a category
/// that its table does not have is given `gmean`.
pub open spec fn looked_up(
    x: Seq<F32>,
    n: int,
    nf: int,
    columns: Seq<usize>,
    encs: Seq<Map<i64, F32>>,
    gmean: F32,
    buckets: u64,
    k: nat,
) -> Seq<F32>
    decreases k,
{
    if k == 0 {
        x
    } else {
        let before = looked_up(x, n, nf, columns, encs, gmean, buckets, (k - 1) as nat);
        let keys = column_keys(before, n, nf, columns[k - 1] as int, buckets);
        with_column(
            before,
            nf,
            columns[k - 1] as int,
            Seq::new(n as nat, |i: int| entry(encs[k - 1], keys[i], gmean)),
        )
    }
}

/// Encoding the training rows changes the listed columns alone.
pub proof fn lemma_encoded_columns<A: Arith>(
    fit: Fitting,
    x: Seq<F32>,
    columns: Seq<usize>,
    k: nat,
)
    requires
        k <= columns.len(),
    ensures
        fit.encoded::<A>(x, columns, k).len() == x.len(),
        forall|p: int|
            0 <= p < x.len() && (forall|j: int|
                0 <= j < k ==> #[trigger] columns[j] != p % fit.nf) ==> #[trigger] fit.encoded::<A>(
                x,
                columns,
                k,
            )[p] == x[p],
    decreases k,
{
    if k > 0 {
        lemma_encoded_columns::<A>(fit, x, columns, (k - 1) as nat);
        let before = fit.encoded::<A>(x, columns, (k - 1) as nat);
        assert forall|p: int|
            0 <= p < x.len() && (forall|j: int|
                0 <= j < k ==> #[trigger] columns[j] != p % fit.nf) implies #[trigger] fit.encoded::<
            A,
        >(x, columns, k)[p] == x[p] by {
            assert(columns[k - 1] != p % fit.nf);
            assert(before[p] == x[p]);
        }
    }
}

/// Encoding other rows changes the listed columns alone.
pub proof fn lemma_looked_up_columns(
    x: Seq<F32>,
    n: int,
    nf: int,
    columns: Seq<usize>,
    encs: Seq<Map<i64, F32>>,
    gmean: F32,
    buckets: u64,
    k: nat,
)
    requires
        k <= columns.len(),
    ensures
        looked_up(x, n, nf, columns, encs, gmean, buckets, k).len() == x.len(),
        forall|p: int|
            0 <= p < x.len() && (forall|j: int| 0 <= j < k ==> #[trigger] columns[j] != p % nf)
                ==> #[trigger] looked_up(x, n, nf, columns, encs, gmean, buckets, k)[p] == x[p],
    decreases k,
{
    if k > 0 {
        lemma_looked_up_columns(x, n, nf, columns, encs, gmean, buckets, (k - 1) as nat);
        let before = looked_up(x, n, nf, columns, encs, gmean, buckets, (k - 1) as nat);
        assert forall|p: int|
            0 <= p < x.len() && (forall|j: int|
                0 <= j < k ==> #[trigger] columns[j] != p % nf) implies #[trigger] looked_up(
            x,
            n,
            nf,
            columns,
            encs,
            gmean,
            buckets,
            k,
        )[p] == x[p] by {
            assert(columns[k - 1] != p % nf);
            assert(before[p] == x[p]);
        }
    }
}

/// A category that occurred in training is encoded with its value there, any other with the
/// mean label.
pub proof fn lemma_looked_up_entry(
    x: Seq<F32>,
    n: int,
    nf: int,
    columns: Seq<usize>,
    encs: Seq<Map<i64, F32>>,
    gmean: F32,
    buckets: u64,
    k: int,
    i: int,
)
    requires
        0 <= k < columns.len(),
        forall|j: int| 0 <= j < columns.len() && j != k ==> #[trigger] columns[j] != columns[k],
        0 <= columns[k] < nf,
        0 <= i < n,
        n * nf <= x.len(),
    ensures
        ({
            let p = i * nf + columns[k];
            looked_up(x, n, nf, columns, encs, gmean, buckets, columns.len())[p] == entry(
                encs[k],
                category(x[p], buckets),
                gmean,
            )
        }),
{
    let c = columns[k] as int;
    let p = i * nf + c;
    assert(0 <= p < x.len()) by (nonlinear_arith)
        requires
            p == i * nf + c,
            0 <= i < n,
            0 <= c < nf,
            n * nf <= x.len(),
    ;
    assert(p % nf == c && p / nf == i) by {
        assert(p == nf * i + c) by (nonlinear_arith)
            requires
                p == i * nf + c,
        ;
        vstd::arithmetic::div_mod::lemma_fundamental_div_mod_converse(p, nf, i, c);
    }
    lemma_looked_up_columns(x, n, nf, columns, encs, gmean, buckets, k as nat);
    let before = looked_up(x, n, nf, columns, encs, gmean, buckets, k as nat);
    assert(before[p] == x[p]) by {
        assert forall|j: int| 0 <= j < k implies #[trigger] columns[j] != p % nf by {}
    }
    lemma_looked_up_rest(x, n, nf, columns, encs, gmean, buckets, (k + 1) as nat, columns.len(), p);
}

/// Columns listed later change nothing in other columns.
proof fn lemma_looked_up_rest(
    x: Seq<F32>,
    n: int,
    nf: int,
    columns: Seq<usize>,
    encs: Seq<Map<i64, F32>>,
    gmean: F32,
    buckets: u64,
    low: nat,
    high: nat,
    p: int,
)
    requires
        low <= high <= columns.len(),
        0 <= p < x.len(),
        forall|j: int| low <= j < high ==> #[trigger] columns[j] != p % nf,
    ensures
        looked_up(x, n, nf, columns, encs, gmean, buckets, high)[p] == looked_up(
            x,
            n,
            nf,
            columns,
            encs,
            gmean,
            buckets,
            low,
        )[p],
    decreases high,
{
    if low < high {
        lemma_looked_up_rest(
            x,
            n,
            nf,
            columns,
            encs,
            gmean,
            buckets,
            low,
            (high - 1) as nat,
            p,
        );
        lemma_looked_up_columns(x, n, nf, columns, encs, gmean, buckets, (high - 1) as nat);
        assert(columns[high - 1] != p % nf);
    }
}

/// What a table has for a key.
pub open spec fn entry(table: Map<i64, F32>, key: i64, gmean: F32) -> F32 {
    if table.contains_key(key) {
        table[key]
    } else {
        gmean
    }
}

/// Each row of a category is in one fold, so that its folds together have all its rows.
proof fn lemma_total_count(t: Tally, key: i64, j: nat, k: nat)
    requires
        0 < t.folds,
        j <= t.folds,
        k <= t.keys.len(),
    ensures
        folds_count(t, key, j, k) <= k,
    decreases k,
{
    if k > 0 {
        lemma_total_count(t, key, j, (k - 1) as nat);
        lemma_one_fold(t, key, j, k);
    } else {
        lemma_no_rows(t, key, j);
    }
}

/// The number of rows of a category in its first `j` folds among the first `k` rows.
spec fn folds_count(t: Tally, key: i64, j: nat, k: nat) -> nat
    decreases j,
{
    if j == 0 {
        0
    } else {
        folds_count(t, key, (j - 1) as nat, k) + t.count(key, j - 1, k)
    }
}

proof fn lemma_no_rows(t: Tally, key: i64, j: nat)
    ensures
        folds_count(t, key, j, 0) == 0,
    decreases j,
{
    if j > 0 {
        lemma_no_rows(t, key, (j - 1) as nat);
    }
}

/// One more row adds to one fold at most.
proof fn lemma_one_fold(t: Tally, key: i64, j: nat, k: nat)
    requires
        0 < t.folds,
        0 < k,
    ensures
        folds_count(t, key, j, k) == folds_count(t, key, j, (k - 1) as nat) + if t.keys[k - 1]
            == key && (k - 1) % t.folds < j {
            1nat
        } else {
            0nat
        },
    decreases j,
{
    assert((k - 1) % t.folds >= 0);
    if j > 0 {
        lemma_one_fold(t, key, (j - 1) as nat, k);
    }
}

proof fn lemma_folds_total(t: Tally, key: i64, j: nat)
    ensures
        folds_count(t, key, j, t.keys.len()) == t.total_count(key, j),
    decreases j,
{
    if j > 0 {
        lemma_folds_total(t, key, (j - 1) as nat);
    }
}

/// The number of rows of a category among the first `k` rows.
pub open spec fn rows_of(t: Tally, key: i64, k: nat) -> nat
    decreases k,
{
    if k == 0 {
        0
    } else if t.keys[k - 1] == key {
        rows_of(t, key, (k - 1) as nat) + 1
    } else {
        rows_of(t, key, (k - 1) as nat)
    }
}

/// The folds of a category together have all its rows, so that leaving out a fold leaves the
/// rows of the other folds.
pub proof fn lemma_folds_part_rows(t: Tally, key: i64)
    requires
        0 < t.folds,
    ensures
        t.total_count(key, t.folds as nat) == rows_of(t, key, t.keys.len()),
{
    lemma_folds_rows(t, key, t.keys.len());
    lemma_folds_total(t, key, t.folds as nat);
}

proof fn lemma_folds_rows(t: Tally, key: i64, k: nat)
    requires
        0 < t.folds,
    ensures
        folds_count(t, key, t.folds as nat, k) == rows_of(t, key, k),
    decreases k,
{
    if k > 0 {
        lemma_folds_rows(t, key, (k - 1) as nat);
        lemma_one_fold(t, key, t.folds as nat, k);
        assert((k - 1) % t.folds < t.folds);
    } else {
        lemma_no_rows(t, key, t.folds as nat);
    }
}

/// The key of a category.
pub fn key_of(v: F32, hash_buckets: u64) -> (key: i64)
    ensures
        key == category(v, hash_buckets),
{
    let c: i64 = v.round_i64();
    if hash_buckets == 0 {
        return c;
    }
    let code: u64 = #[verifier::truncate] (c as u64);
    let a: u64 = code.wrapping_mul(0x9E37_79B9_7F4A_7C15);
    let b: u64 = (a ^ (a >> 29)).wrapping_mul(0xBF58_476D_1CE4_E5B9);
    #[verifier::truncate] (((b ^ (b >> 32)) % hash_buckets) as i64)
}

/// The label sums and row counts of one category, fold by fold.
struct Stats {
    key: i64,
    sum: Vec<F64>,
    count: Vec<u64>,
}

impl Stats {
    /// The numbers are those of the category among the first `k` rows.
    spec fn holds<A: Arith>(self, t: Tally, k: nat) -> bool {
        &&& self.sized(t, k)
        &&& deterministic::<A>() ==> forall|f: int|
            0 <= f < t.folds ==> #[trigger] self.sum@[f] == t.sum::<A>(self.key, f, k)
    }

    /// There is a number for each fold, and the counts are those of the category.
    spec fn sized(self, t: Tally, k: nat) -> bool {
        &&& self.sum@.len() == t.folds
        &&& self.count@.len() == t.folds
        &&& forall|f: int|
            0 <= f < t.folds ==> #[trigger] self.count@[f] == t.count(self.key, f, k)
    }
}

/// A category has no more rows than there are.
proof fn lemma_count_bound(t: Tally, key: i64, f: int, k: nat)
    ensures
        t.count(key, f, k) <= k,
    decreases k,
{
    if k > 0 {
        lemma_count_bound(t, key, f, (k - 1) as nat);
    }
}

/// A category that has not occurred has no rows.
proof fn lemma_unseen<A: Arith>(t: Tally, key: i64, f: int, k: nat)
    requires
        forall|i: int| 0 <= i < k ==> #[trigger] t.keys[i] != key,
    ensures
        t.count(key, f, k) == 0,
        t.sum::<A>(key, f, k) == (F64 { bits: 0 }),
    decreases k,
{
    if k > 0 {
        lemma_unseen::<A>(t, key, f, (k - 1) as nat);
    }
}

/// Enters row `k` of the category into its fold.
fn enter<A: Arith>(st: &mut Stats, f: usize, y: F32, Ghost(t): Ghost<Tally>, Ghost(k): Ghost<nat>)
    requires
        old(st).holds::<A>(t, k),
        k < t.keys.len() <= usize::MAX,
        t.folds > 0,
        f == k as int % t.folds,
        t.keys[k as int] == old(st).key,
        y == t.y[k as int],
    ensures
        final(st).key == old(st).key,
        final(st).holds::<A>(t, k + 1),
{
    proof {
        lemma_count_bound(t, st.key, f as int, k);
    }
    let ghost before = *st;
    let s = add64::<A>(st.sum[f], widen::<A>(y));
    st.sum[f] = s;
    let c: u64 = st.count[f] + 1;
    st.count[f] = c;
    proof {
        assert forall|g: int| 0 <= g < t.folds implies #[trigger] st.count@[g] == t.count(
            st.key,
            g,
            k + 1,
        ) by {
            let _ = before.count@[g];
        }
        if deterministic::<A>() {
            assert forall|g: int| 0 <= g < t.folds implies #[trigger] st.sum@[g] == t.sum::<A>(
                st.key,
                g,
                k + 1,
            ) by {
                let _ = before.sum@[g];
            }
        }
    }
}

/// The keys of the first `n` rows for the feature in column `c`.
fn keys_of_column(x: &[F32], n: usize, nf: usize, c: usize, buckets: u64) -> (keys: Vec<i64>)
    requires
        c < nf,
        n * nf <= x@.len(),
    ensures
        keys@ == column_keys(x@, n as int, nf as int, c as int, buckets),
{
    let mut keys: Vec<i64> = Vec::new();
    let mut i: usize = 0;
    while i < n
        invariant
            c < nf,
            n * nf <= x@.len(),
            i <= n,
            keys@.len() == i,
            forall|k: int|
                0 <= k < i ==> #[trigger] keys@[k] == category(x@[k * nf + c], buckets),
        decreases n - i,
    {
        assert(0 <= i * nf && i * nf + c < n * nf) by (nonlinear_arith)
            requires
                0 <= i < n,
                0 <= c < nf,
        ;
        assert(x.len() >= n * nf);
        keys.push(key_of(x[i * nf + c], buckets));
        i = i + 1;
    }
    assert(keys@ =~= column_keys(x@, n as int, nf as int, c as int, buckets));
    keys
}

/// The statistics of the categories in the order in which they occur, and where to find each.
struct Categories {
    stats: Vec<Stats>,
    slots: HashMap<i64, usize>,
}

impl Categories {
    /// These are the categories of the first `k` rows.
    spec fn holds<A: Arith>(self, t: Tally, k: nat) -> bool {
        &&& forall|key: i64|
            #[trigger] self.slots@.contains_key(key) ==> self.slots@[key] < self.stats@.len()
                && self.stats@[self.slots@[key] as int].key == key
        &&& forall|i: int| 0 <= i < k ==> self.slots@.contains_key(#[trigger] t.keys[i])
        &&& forall|s: int|
            0 <= s < self.stats@.len() ==> self.slots@.contains_key((#[trigger] self.stats@[s]).key)
                && self.slots@[self.stats@[s].key] == s
        &&& forall|s: int|
            0 <= s < self.stats@.len() ==> t.keys.contains((#[trigger] self.stats@[s]).key)
        &&& forall|s: int|
            0 <= s < self.stats@.len() ==> (#[trigger] self.stats@[s]).holds::<A>(t, k)
    }
}

/// Gathers the statistics of the categories of a column.
fn gather<A: Arith>(keys: &[i64], y: &[F32], k_folds: usize) -> (cats: Categories)
    requires
        k_folds > 0,
        keys@.len() <= y@.len(),
    ensures
        cats.holds::<A>(Tally { keys: keys@, y: y@, folds: k_folds as int }, keys@.len()),
{
    let ghost t = Tally { keys: keys@, y: y@, folds: k_folds as int };
    let mut cats = Categories { stats: Vec::new(), slots: HashMap::new() };
    let n: usize = keys.len();
    let mut i: usize = 0;
    while i < n
        invariant
            t == (Tally { keys: keys@, y: y@, folds: k_folds as int }),
            k_folds > 0,
            n == keys@.len(),
            keys@.len() <= y@.len(),
            i <= n,
            cats.holds::<A>(t, i as nat),
        decreases n - i,
    {
        let key: i64 = keys[i];
        let slot: usize = match cats.slots.get(&key) {
            Some(s) => *s,
            None => {
                let s: usize = cats.stats.len();
                let st = Stats {
                    key,
                    sum: vec![F64 { bits: 0 };k_folds],
                    count: vec![0u64;k_folds],
                };
                proof {
                    assert forall|j: int| 0 <= j < i implies #[trigger] t.keys[j] != key by {
                        assert(cats.slots@.contains_key(t.keys[j]));
                    }
                    assert forall|f: int| 0 <= f < t.folds implies #[trigger] st.count@[f]
                        == t.count(key, f, i as nat) by {
                        lemma_unseen::<A>(t, key, f, i as nat);
                    }
                    assert forall|f: int| 0 <= f < t.folds implies #[trigger] st.sum@[f] == t.sum::<
                        A,
                    >(key, f, i as nat) by {
                        lemma_unseen::<A>(t, key, f, i as nat);
                    }
                    assert(t.keys[i as int] == key);
                    assert(st.holds::<A>(t, i as nat));
                }
                let ghost before = cats;
                cats.stats.push(st);
                cats.slots.insert(key, s);
                proof {
                    assert forall|q: int| 0 <= q < cats.stats@.len() implies cats.slots@.contains_key(
                        (#[trigger] cats.stats@[q]).key,
                    ) && cats.slots@[cats.stats@[q].key] == q by {
                        if q < before.stats@.len() {
                            assert(cats.stats@[q] == before.stats@[q]);
                            assert(before.slots@.contains_key(before.stats@[q].key));
                        }
                    }
                    assert forall|q: int| 0 <= q < cats.stats@.len() implies t.keys.contains(
                        (#[trigger] cats.stats@[q]).key,
                    ) && cats.stats@[q].holds::<A>(t, i as nat) by {
                        if q < before.stats@.len() {
                            assert(cats.stats@[q] == before.stats@[q]);
                        }
                    }
                    assert forall|j: int| 0 <= j < i implies cats.slots@.contains_key(
                        #[trigger] t.keys[j],
                    ) by {
                        assert(before.slots@.contains_key(t.keys[j]));
                    }
                    assert forall|other: i64| #[trigger] cats.slots@.contains_key(
                        other,
                    ) implies cats.slots@[other] < cats.stats@.len()
                        && cats.stats@[cats.slots@[other] as int].key == other by {
                        if other != key {
                            assert(before.slots@.contains_key(other));
                        }
                    }
                }
                s
            },
        };
        let ghost before = cats;
        assert(cats.slots@.contains_key(key) && cats.slots@[key] == slot);
        enter::<A>(&mut cats.stats[slot], i % k_folds, y[i], Ghost(t), Ghost(i as nat));
        proof {
            assert forall|q: int| 0 <= q < cats.stats@.len() implies (#[trigger] cats.stats@[q]).key
                == before.stats@[q].key && cats.stats@[q].holds::<A>(t, (i + 1) as nat) by {
                if q != slot {
                    assert(cats.stats@[q] == before.stats@[q]);
                    assert(before.slots@[before.stats@[q].key] == q);
                    assert(before.stats@[q].key != key);
                    let st = before.stats@[q];
                    assert forall|f: int| 0 <= f < t.folds implies #[trigger] st.count@[f]
                        == t.count(st.key, f, (i + 1) as nat) by {}
                    if deterministic::<A>() {
                        assert forall|f: int| 0 <= f < t.folds implies #[trigger] st.sum@[f]
                            == t.sum::<A>(st.key, f, (i + 1) as nat) by {}
                    }
                }
            }
        }
        i = i + 1;
    }
    cats
}

/// The label sum and the number of rows of a category over all its folds.
fn totals<A: Arith>(st: &Stats, Ghost(t): Ghost<Tally>) -> (r: (F64, u64))
    requires
        t.folds > 0,
        t.keys.len() <= usize::MAX,
        st.holds::<A>(t, t.keys.len()),
    ensures
        deterministic::<A>() ==> r.0 == t.total::<A>(st.key, t.folds as nat),
        r.1 == t.total_count(st.key, t.folds as nat),
{
    let mut sum = F64 { bits: 0 };
    let mut cnt: u64 = 0;
    let mut f: usize = 0;
    while f < st.sum.len()
        invariant
            t.folds > 0,
            t.keys.len() <= usize::MAX,
            st.holds::<A>(t, t.keys.len()),
            f <= t.folds,
            deterministic::<A>() ==> sum == t.total::<A>(st.key, f as nat),
            cnt == t.total_count(st.key, f as nat),
        decreases t.folds - f,
    {
        proof {
            lemma_total_count(t, st.key, (f + 1) as nat, t.keys.len());
            lemma_folds_total(t, st.key, (f + 1) as nat);
        }
        sum = add64::<A>(sum, st.sum[f]);
        cnt = cnt + st.count[f];
        f = f + 1;
    }
    (sum, cnt)
}

/// The mean of `cnt` labels with the given sum, drawn towards `mean`.
fn smooth<A: Arith>(sum: F64, cnt: F64, smoothing: F64, mean: F64) -> (v: F32)
    ensures
        deterministic::<A>() ==> v == smoothed::<A>(sum, cnt, smoothing, mean),
{
    narrow::<A>(
        div64::<A>(
            add64::<A>(sum, mul64::<A>(smoothing, mean)),
            add64::<A>(cnt, smoothing),
        ),
    )
}

/// The encoded values of all categories.
fn full_table<A: Arith>(
    cats: &Categories,
    smoothing: F64,
    mean: F64,
    Ghost(t): Ghost<Tally>,
) -> (table: HashMap<i64, F32>)
    requires
        t.folds > 0,
        t.keys.len() <= usize::MAX,
        cats.holds::<A>(t, t.keys.len()),
    ensures
        table@.dom() == Set::new(|key: i64| t.keys.contains(key)),
        deterministic::<A>() ==> table@ == t.table::<A>(smoothing, mean),
{
    let mut table: HashMap<i64, F32> = HashMap::new();
    let mut s: usize = 0;
    while s < cats.stats.len()
        invariant
            t.folds > 0,
            t.keys.len() <= usize::MAX,
            cats.holds::<A>(t, t.keys.len()),
            s <= cats.stats@.len(),
            forall|key: i64| #[trigger]
                table@.contains_key(key) ==> cats.slots@.contains_key(key) && cats.slots@[key] < s,
            forall|q: int| 0 <= q < s ==> table@.contains_key((#[trigger] cats.stats@[q]).key),
            deterministic::<A>() ==> forall|key: i64| #[trigger]
                table@.contains_key(key) ==> table@[key] == t.value::<A>(key, smoothing, mean),
        decreases cats.stats@.len() - s,
    {
        let st = &cats.stats[s];
        let (sum, cnt) = totals::<A>(st, Ghost(t));
        let v = smooth::<A>(sum, count64::<A>(cnt), smoothing, mean);
        let ghost before = table@;
        assert(cats.slots@.contains_key(cats.stats@[s as int].key));
        table.insert(st.key, v);
        proof {
            assert forall|key: i64| #[trigger] table@.contains_key(
                key,
            ) implies cats.slots@.contains_key(key) && cats.slots@[key] < s + 1 by {
                if key != st.key {
                    assert(before.contains_key(key));
                }
            }
            if deterministic::<A>() {
                assert forall|key: i64| #[trigger] table@.contains_key(key) implies table@[key]
                    == t.value::<A>(key, smoothing, mean) by {
                    if key != st.key {
                        assert(before.contains_key(key));
                    }
                }
            }
        }
        s = s + 1;
    }
    proof {
        assert forall|key: i64| table@.contains_key(key) <==> #[trigger] t.keys.contains(key) by {
            if table@.contains_key(key) {
                let q = cats.slots@[key] as int;
                assert(cats.stats@[q].key == key);
                assert(t.keys.contains(cats.stats@[q].key));
            }
            if t.keys.contains(key) {
                let i = choose|i: int| 0 <= i < t.keys.len() && t.keys[i] == key;
                assert(cats.slots@.contains_key(t.keys[i]));
                let q = cats.slots@[key] as int;
                assert(table@.contains_key(cats.stats@[q].key));
            }
        }
        assert(table@.dom() =~= Set::new(|key: i64| t.keys.contains(key)));
        if deterministic::<A>() {
            assert(table@ =~= t.table::<A>(smoothing, mean));
        }
    }
    table
}

/// The encoded values of the training rows, each from the rows of the other folds.
fn left_out_values<A: Arith>(
    cats: &Categories,
    keys: &[i64],
    k_folds: usize,
    smoothing: F64,
    gmean: F32,
    Ghost(t): Ghost<Tally>,
) -> (vals: Vec<F32>)
    requires
        k_folds > 0,
        t.folds == k_folds,
        t.keys == keys@,
        cats.holds::<A>(t, t.keys.len()),
    ensures
        vals@.len() == keys@.len(),
        deterministic::<A>() ==> forall|i: int|
            0 <= i < keys@.len() ==> #[trigger] vals@[i] == t.left_out::<A>(i, smoothing, gmean),
{
    let mean = widen::<A>(gmean);
    let n: usize = keys.len();
    let mut vals: Vec<F32> = Vec::new();
    let mut i: usize = 0;
    while i < n
        invariant
            k_folds > 0,
            t.folds == k_folds,
            t.keys == keys@,
            n == keys@.len(),
            cats.holds::<A>(t, t.keys.len()),
            deterministic::<A>() ==> mean == widened::<A>(gmean),
            i <= n,
            vals@.len() == i,
            deterministic::<A>() ==> forall|j: int|
                0 <= j < i ==> #[trigger] vals@[j] == t.left_out::<A>(j, smoothing, gmean),
        decreases n - i,
    {
        assert(cats.slots@.contains_key(t.keys[i as int]));
        let slot: usize = match cats.slots.get(&keys[i]) {
            Some(s) => *s,
            None => 0,
        };
        let st = &cats.stats[slot];
        assert(cats.stats@[slot as int].holds::<A>(t, t.keys.len()));
        let f: usize = i % k_folds;
        let (sum, cnt) = totals::<A>(st, Ghost(t));
        let rest = sub64::<A>(sum, st.sum[f]);
        let left = sub64::<A>(count64::<A>(cnt), count64::<A>(st.count[f]));
        let v = if (F64 { bits: 0 }).less(left) {
            smooth::<A>(rest, left, smoothing, mean)
        } else {
            gmean
        };
        vals.push(v);
        i = i + 1;
    }
    vals
}

/// Puts new values into the first rows of column `c`.
fn replace_column(x: &mut Vec<F32>, nf: usize, c: usize, vals: &[F32])
    requires
        c < nf,
        vals@.len() * nf <= old(x)@.len(),
    ensures
        final(x)@ == with_column(old(x)@, nf as int, c as int, vals@),
{
    let ghost before = x@;
    let n: usize = vals.len();
    let mut i: usize = 0;
    assert(x@ =~= with_column(before, nf as int, c as int, vals@.take(0))) by {
        assert forall|p: int| 0 <= p < x@.len() implies x@[p] == #[trigger] with_column(
            before,
            nf as int,
            c as int,
            vals@.take(0),
        )[p] by {
            assert(p / (nf as int) >= 0) by (nonlinear_arith)
                requires
                    p >= 0,
                    nf > 0,
            ;
        }
    }
    while i < n
        invariant
            c < nf,
            n == vals@.len(),
            n * nf <= x@.len(),
            x@.len() == before.len(),
            i <= n,
            x@ == with_column(before, nf as int, c as int, vals@.take(i as int)),
        decreases n - i,
    {
        assert(0 <= i * nf && i * nf + c < n * nf) by (nonlinear_arith)
            requires
                0 <= i < n,
                0 <= c < nf,
        ;
        assert(x.len() >= n * nf);
        let at: usize = i * nf + c;
        let ghost prev = x@;
        x[at] = vals[i];
        proof {
            let nfi = nf as int;
            let next = with_column(before, nfi, c as int, vals@.take(i + 1));
            assert forall|p: int| 0 <= p < x@.len() implies x@[p] == #[trigger] next[p] by {
                let _ = prev[p];
                vstd::arithmetic::div_mod::lemma_fundamental_div_mod(p, nfi);
                if p == at {
                    assert(at == nfi * i + c) by (nonlinear_arith)
                        requires
                            at == i * nfi + c,
                    ;
                    vstd::arithmetic::div_mod::lemma_fundamental_div_mod_converse(
                        p,
                        nfi,
                        i as int,
                        c as int,
                    );
                } else if p % nfi == c && p / nfi == i {
                    assert(nfi * (p / nfi) == i * nfi) by (nonlinear_arith)
                        requires
                            p / nfi == i,
                    ;
                }
                assert(p / nfi >= 0) by (nonlinear_arith)
                    requires
                        p >= 0,
                        nfi > 0,
                ;
            }
            assert(x@ =~= next);
        }
        i = i + 1;
    }
    assert(vals@.take(n as int) =~= vals@);
}

/// Only the listed columns of the first `n` rows have changed.
pub open spec fn spared(
    old: Seq<F32>,
    new: Seq<F32>,
    n: int,
    nf: int,
    columns: Seq<usize>,
    k: int,
) -> bool {
    &&& new.len() == old.len()
    &&& forall|p: int|
        0 <= p < old.len() && (p / nf >= n || forall|j: int|
            0 <= j < k ==> #[trigger] columns[j] != p % nf) ==> #[trigger] new[p] == old[p]
}

/// Each of the first `k` tables has the keys that occur in its column, where the column is not
/// listed before.
pub open spec fn has_keys(
    encs: Seq<Map<i64, F32>>,
    x: Seq<F32>,
    n: int,
    nf: int,
    columns: Seq<usize>,
    buckets: u64,
    k: int,
) -> bool {
    forall|j: int|
        0 <= j < k && (forall|i: int| 0 <= i < j ==> #[trigger] columns[i] != columns[j])
            ==> (#[trigger] encs[j]).dom() == Set::new(
            |key: i64| column_keys(x, n, nf, columns[j] as int, buckets).contains(key),
        )
}

proof fn lemma_spared_keys(
    old: Seq<F32>,
    new: Seq<F32>,
    n: int,
    nf: int,
    columns: Seq<usize>,
    k: int,
    c: int,
    buckets: u64,
)
    requires
        spared(old, new, n, nf, columns, k),
        0 <= c < nf,
        0 <= n,
        n * nf <= old.len(),
        forall|j: int| 0 <= j < k ==> #[trigger] columns[j] != c,
    ensures
        column_keys(new, n, nf, c, buckets) == column_keys(old, n, nf, c, buckets),
{
    assert forall|i: int| 0 <= i < n implies #[trigger] new[i * nf + c] == old[i * nf + c] by {
        lemma_row_place(i, c, n, nf);
    }
    assert(column_keys(new, n, nf, c, buckets) =~= column_keys(old, n, nf, c, buckets));
}

/// Where the value of row `i` in column `c` stands.
pub(crate) proof fn lemma_row_place(i: int, c: int, n: int, nf: int)
    requires
        0 <= i < n,
        0 <= c < nf,
    ensures
        0 <= i * nf + c < n * nf,
        (i * nf + c) % nf == c,
        (i * nf + c) / nf == i,
{
    let p = i * nf + c;
    assert(0 <= p < n * nf && p == nf * i + c) by (nonlinear_arith)
        requires
            p == i * nf + c,
            0 <= i < n,
            0 <= c < nf,
    ;
    vstd::arithmetic::div_mod::lemma_fundamental_div_mod_converse(p, nf, i, c);
}

/// Builds the encoders of the listed columns from the training rows, and encodes the columns
/// in place with out-of-fold statistics. Gives back the encoders and the mean label, for
/// encoding other rows.
pub fn fit_transform_train<A: Arith>(
    x: &mut Vec<F32>,
    n: usize,
    n_features: usize,
    y: &[F32],
    categorical: &[usize],
    smoothing: F32,
    k_folds: usize,
    hash_buckets: u64,
) -> (r: (Encoders, F32))
    requires
        n * n_features <= old(x)@.len(),
        n <= y@.len(),
        forall|k: int| 0 <= k < categorical@.len() ==> #[trigger] categorical@[k] < n_features,
    ensures
        final(x)@.len() == old(x)@.len(),
        r.0@.len() == categorical@.len(),
        spared(
            old(x)@,
            final(x)@,
            n as int,
            n_features as int,
            categorical@,
            categorical@.len() as int,
        ),
        has_keys(
            tables(r.0@),
            old(x)@,
            n as int,
            n_features as int,
            categorical@,
            hash_buckets,
            categorical@.len() as int,
        ),
        deterministic::<A>() ==> ({
            let fit = Fitting {
                n: n as int,
                nf: n_features as int,
                y: y@,
                smoothing: widened::<A>(smoothing),
                folds: if k_folds < 2 {
                    2
                } else {
                    k_folds as int
                },
                buckets: hash_buckets,
            };
            &&& r.1 == mean_label::<A>(y@, n as int)
            &&& final(x)@ == fit.encoded::<A>(old(x)@, categorical@, categorical@.len())
            &&& tables(r.0@) == fit.tables::<A>(old(x)@, categorical@)
        }),
{
    let k: usize = if k_folds < 2 {
        2
    } else {
        k_folds
    };
    let a = widen::<A>(smoothing);
    let mut acc = F64 { bits: 0 };
    let mut i: usize = 0;
    while i < y.len()
        invariant
            i <= y@.len(),
            deterministic::<A>() ==> acc == label_sum::<A>(y@, i as nat),
        decreases y@.len() - i,
    {
        acc = add64::<A>(acc, widen::<A>(y[i]));
        i = i + 1;
    }
    let gmean = narrow::<A>(div64::<A>(acc, count64::<A>(n as u64)));
    let gm = widen::<A>(gmean);
    let ghost fit = Fitting {
        n: n as int,
        nf: n_features as int,
        y: y@,
        smoothing: widened::<A>(smoothing),
        folds: k as int,
        buckets: hash_buckets,
    };
    let ghost before = x@;
    let mut encoders: Encoders = Vec::new();
    let mut ci: usize = 0;
    while ci < categorical.len()
        invariant
            fit == (Fitting {
                n: n as int,
                nf: n_features as int,
                y: y@,
                smoothing: widened::<A>(smoothing),
                folds: k as int,
                buckets: hash_buckets,
            }),
            k >= 2,
            n * n_features <= x@.len(),
            x@.len() == before.len(),
            n <= y@.len(),
            forall|j: int| 0 <= j < categorical@.len() ==> #[trigger] categorical@[j] < n_features,
            ci <= categorical@.len(),
            encoders@.len() == ci,
            spared(before, x@, n as int, n_features as int, categorical@, ci as int),
            has_keys(
                tables(encoders@),
                before,
                n as int,
                n_features as int,
                categorical@,
                hash_buckets,
                ci as int,
            ),
            deterministic::<A>() ==> a == widened::<A>(smoothing),
            deterministic::<A>() ==> gmean == mean_label::<A>(y@, n as int),
            deterministic::<A>() ==> gm == widened::<A>(gmean),
            deterministic::<A>() ==> x@ == fit.encoded::<A>(before, categorical@, ci as nat),
            deterministic::<A>() ==> forall|j: int|
                0 <= j < ci ==> (#[trigger] encoders@[j])@ == fit.tables::<A>(
                    before,
                    categorical@,
                )[j],
        decreases categorical@.len() - ci,
    {
        let c: usize = categorical[ci];
        let ghost now = x@;
        let keys = keys_of_column(x.as_slice(), n, n_features, c, hash_buckets);
        let ghost t = Tally { keys: keys@, y: y@, folds: k as int };
        assert(t == fit.tally(now, c as int));
        let cats = gather::<A>(keys.as_slice(), y, k);
        assert(keys.len() == n);
        let table = full_table::<A>(&cats, a, gm, Ghost(t));
        let vals = left_out_values::<A>(&cats, keys.as_slice(), k, a, gmean, Ghost(t));
        replace_column(x, n_features, c, vals.as_slice());
        let ghost some = tables(encoders@);
        encoders.push(table);
        proof {
            let all = tables(encoders@);
            assert forall|j: int| 0 <= j < ci implies #[trigger] all[j] == some[j] by {}
            assert forall|j: int|
                0 <= j < ci + 1 && (forall|i: int|
                    0 <= i < j ==> #[trigger] categorical@[i] != categorical@[j]) implies (
            #[trigger] all[j]).dom() == Set::new(
                |key: i64|
                    column_keys(
                        before,
                        n as int,
                        n_features as int,
                        categorical@[j] as int,
                        hash_buckets,
                    ).contains(key),
            ) by {
                if j == ci {
                    lemma_spared_keys(
                        before,
                        now,
                        n as int,
                        n_features as int,
                        categorical@,
                        ci as int,
                        c as int,
                        hash_buckets,
                    );
                    assert(all[j].dom() =~= table@.dom());
                } else {
                    assert(all[j] == some[j]);
                }
            }
            assert(spared(
                before,
                x@,
                n as int,
                n_features as int,
                categorical@,
                ci + 1,
            )) by {
                assert forall|p: int|
                    0 <= p < before.len() && (p / n_features as int >= n || forall|j: int|
                        0 <= j < ci + 1 ==> #[trigger] categorical@[j] != p
                            % n_features as int) implies #[trigger] x@[p] == before[p] by {
                    assert(now[p] == before[p]);
                    assert(categorical@[ci as int] == c);
                }
            }
            if deterministic::<A>() {
                assert(vals@ =~= Seq::new(n as nat, |i: int| t.left_out::<A>(i, a, gmean)));
                assert forall|j: int| 0 <= j < ci + 1 implies (#[trigger] encoders@[j])@
                    == fit.tables::<A>(before, categorical@)[j] by {}
            }
        }
        ci = ci + 1;
    }
    proof {
        if deterministic::<A>() {
            assert(tables(encoders@) =~= fit.tables::<A>(before, categorical@));
        }
    }
    (encoders, gmean)
}

/// Encodes the listed columns of other rows in place with encoders built before. A category
/// that did not occur then is given the mean label.
pub fn transform(
    x: &mut Vec<F32>,
    n: usize,
    n_features: usize,
    categorical: &[usize],
    encoders: &Encoders,
    gmean: F32,
    hash_buckets: u64,
)
    requires
        n * n_features <= old(x)@.len(),
        categorical@.len() <= encoders@.len(),
        forall|k: int| 0 <= k < categorical@.len() ==> #[trigger] categorical@[k] < n_features,
    ensures
        final(x)@ == looked_up(
            old(x)@,
            n as int,
            n_features as int,
            categorical@,
            tables(encoders@),
            gmean,
            hash_buckets,
            categorical@.len(),
        ),
        final(x)@.len() == old(x)@.len(),
{
    let ghost before = x@;
    let ghost encs = tables(encoders@);
    let mut ci: usize = 0;
    while ci < categorical.len()
        invariant
            n * n_features <= x@.len(),
            x@.len() == before.len(),
            categorical@.len() <= encoders@.len(),
            encs == tables(encoders@),
            forall|j: int| 0 <= j < categorical@.len() ==> #[trigger] categorical@[j] < n_features,
            ci <= categorical@.len(),
            x@ == looked_up(
                before,
                n as int,
                n_features as int,
                categorical@,
                encs,
                gmean,
                hash_buckets,
                ci as nat,
            ),
        decreases categorical@.len() - ci,
    {
        let c: usize = categorical[ci];
        let ghost now = x@;
        let keys = keys_of_column(x.as_slice(), n, n_features, c, hash_buckets);
        let map = &encoders[ci];
        assert(encs[ci as int] == map@);
        let mut vals: Vec<F32> = Vec::new();
        let mut i: usize = 0;
        while i < n
            invariant
                i <= n,
                keys@.len() == n,
                vals@.len() == i,
                forall|j: int| 0 <= j < i ==> #[trigger] vals@[j] == entry(map@, keys@[j], gmean),
            decreases n - i,
        {
            let v = match map.get(&keys[i]) {
                Some(v) => *v,
                None => gmean,
            };
            vals.push(v);
            i = i + 1;
        }
        assert(vals@ =~= Seq::new(n as nat, |i: int| entry(encs[ci as int], keys@[i], gmean)));
        replace_column(x, n_features, c, vals.as_slice());
        ci = ci + 1;
    }
}

impl Tally {
    /// The sum of the labels of a category over the first `j` folds but one.
    pub open spec fn rest<A: Arith>(self, key: i64, fold: int, j: nat) -> F64
        decreases j,
    {
        if j == 0 {
            F64 { bits: 0 }
        } else {
            let before = self.rest::<A>(key, fold, (j - 1) as nat);
            if j - 1 == fold {
                before
            } else {
                sum64::<A>(before, self.sum::<A>(key, j - 1, self.keys.len()))
            }
        }
    }

    /// Taking the labels of the fold of row `i` back out of the sum of its category leaves
    /// the sum of the other folds, as it does where nothing is rounded.
    pub open spec fn taken_out<A: Arith>(self, i: int) -> bool {
        let key = self.keys[i];
        let fold = i % self.folds;
        difference64::<A>(
            self.total::<A>(key, self.folds as nat),
            self.sum::<A>(key, fold, self.keys.len()),
        ) == self.rest::<A>(key, fold, self.folds as nat)
    }
}

proof fn lemma_fold_sum<A: Arith>(a: Tally, b: Tally, key: i64, own: int, fold: int, k: nat)
    requires
        a.keys == b.keys,
        a.folds == b.folds,
        fold != own,
        forall|r: int| 0 <= r < k && r % a.folds != own ==> #[trigger] a.y[r] == b.y[r],
    ensures
        a.sum::<A>(key, fold, k) == b.sum::<A>(key, fold, k),
    decreases k,
{
    if k > 0 {
        lemma_fold_sum::<A>(a, b, key, own, fold, (k - 1) as nat);
        let _ = a.y[k - 1];
    }
}

proof fn lemma_rest<A: Arith>(a: Tally, b: Tally, key: i64, own: int, j: nat)
    requires
        a.keys == b.keys,
        a.folds == b.folds,
        forall|r: int| 0 <= r < a.keys.len() && r % a.folds != own ==> #[trigger] a.y[r] == b.y[r],
    ensures
        a.rest::<A>(key, own, j) == b.rest::<A>(key, own, j),
    decreases j,
{
    if j > 0 {
        lemma_rest::<A>(a, b, key, own, (j - 1) as nat);
        if j - 1 != own {
            lemma_fold_sum::<A>(a, b, key, own, j - 1, a.keys.len());
        }
    }
}

proof fn lemma_same_counts(a: Tally, b: Tally, key: i64, fold: int, k: nat)
    requires
        a.keys == b.keys,
        a.folds == b.folds,
    ensures
        a.count(key, fold, k) == b.count(key, fold, k),
    decreases k,
{
    if k > 0 {
        lemma_same_counts(a, b, key, fold, (k - 1) as nat);
    }
}

proof fn lemma_same_total_counts(a: Tally, b: Tally, key: i64, j: nat)
    requires
        a.keys == b.keys,
        a.folds == b.folds,
    ensures
        a.total_count(key, j) == b.total_count(key, j),
    decreases j,
{
    if j > 0 {
        lemma_same_total_counts(a, b, key, (j - 1) as nat);
        lemma_same_counts(a, b, key, j - 1, a.keys.len());
    }
}

/// A train row is encoded with what the other folds say of its category: given the mean of all
/// labels, the labels of its own fold, its own among them, do not matter.
pub proof fn lemma_out_of_fold<A: Arith>(a: Tally, b: Tally, i: int, smoothing: F64, gmean: F32)
    requires
        a.keys == b.keys,
        a.folds == b.folds,
        a.folds > 0,
        0 <= i < a.keys.len(),
        forall|r: int|
            0 <= r < a.keys.len() && r % a.folds != i % a.folds ==> #[trigger] a.y[r] == b.y[r],
        a.taken_out::<A>(i),
        b.taken_out::<A>(i),
    ensures
        a.left_out::<A>(i, smoothing, gmean) == b.left_out::<A>(i, smoothing, gmean),
{
    let key = a.keys[i];
    let fold = i % a.folds;
    lemma_rest::<A>(a, b, key, fold, a.folds as nat);
    lemma_same_counts(a, b, key, fold, a.keys.len());
    lemma_same_total_counts(a, b, key, a.folds as nat);
}

/// Columns listed later change nothing in other columns.
proof fn lemma_encoded_rest<A: Arith>(
    fit: Fitting,
    x: Seq<F32>,
    columns: Seq<usize>,
    low: nat,
    high: nat,
    p: int,
)
    requires
        low <= high <= columns.len(),
        0 <= p < x.len(),
        forall|j: int| low <= j < high ==> #[trigger] columns[j] != p % fit.nf,
    ensures
        fit.encoded::<A>(x, columns, high)[p] == fit.encoded::<A>(x, columns, low)[p],
    decreases high,
{
    if low < high {
        lemma_encoded_rest::<A>(fit, x, columns, low, (high - 1) as nat, p);
        lemma_encoded_columns::<A>(fit, x, columns, (high - 1) as nat);
        assert(columns[high - 1] != p % fit.nf);
    }
}

/// A train row has in a column that is listed once what the other folds say of its category in
/// that column.
pub proof fn lemma_encoded_entry<A: Arith>(
    fit: Fitting,
    x: Seq<F32>,
    columns: Seq<usize>,
    k: int,
    i: int,
)
    requires
        0 <= k < columns.len(),
        forall|j: int| 0 <= j < columns.len() && j != k ==> #[trigger] columns[j] != columns[k],
        columns[k] < fit.nf,
        0 <= i < fit.n,
        fit.n * fit.nf <= x.len(),
    ensures
        fit.encoded::<A>(x, columns, columns.len())[i * fit.nf + columns[k]] == fit.tally(
            x,
            columns[k] as int,
        ).left_out::<A>(i, fit.smoothing, mean_label::<A>(fit.y, fit.n)),
{
    let c = columns[k] as int;
    let p = i * fit.nf + c;
    let before = fit.encoded::<A>(x, columns, k as nat);
    lemma_row_place(i, c, fit.n, fit.nf);
    lemma_encoded_columns::<A>(fit, x, columns, k as nat);
    assert forall|r: int| 0 <= r < fit.n implies #[trigger] before[r * fit.nf + c] == x[r * fit.nf
        + c] by {
        lemma_row_place(r, c, fit.n, fit.nf);
        assert forall|j: int| 0 <= j < k implies #[trigger] columns[j] != (r * fit.nf + c)
            % fit.nf by {}
    }
    assert(fit.tally(before, c).keys =~= fit.tally(x, c).keys);
    lemma_encoded_rest::<A>(fit, x, columns, (k + 1) as nat, columns.len(), p);
}

/// A train row is encoded, in all its columns, with what the other folds say of its categories:
/// given the mean of all labels, the labels of its own fold do not matter.
pub proof fn lemma_rows_out_of_fold<A: Arith>(
    a: Fitting,
    b: Fitting,
    x: Seq<F32>,
    columns: Seq<usize>,
    i: int,
    c: int,
)
    requires
        b == (Fitting { y: b.y, ..a }),
        a.folds > 0,
        a.n * a.nf <= x.len(),
        0 <= i < a.n,
        0 <= c < a.nf,
        forall|k: int| 0 <= k < columns.len() ==> #[trigger] columns[k] < a.nf,
        forall|j: int, k: int|
            0 <= j < k < columns.len() ==> #[trigger] columns[j] != #[trigger] columns[k],
        forall|r: int|
            0 <= r < a.n && r % a.folds != i % a.folds ==> #[trigger] a.y[r] == b.y[r],
        mean_label::<A>(a.y, a.n) == mean_label::<A>(b.y, b.n),
        forall|k: int|
            0 <= k < columns.len() ==> a.tally(x, #[trigger] columns[k] as int).taken_out::<A>(i)
                && b.tally(x, columns[k] as int).taken_out::<A>(i),
    ensures
        a.encoded::<A>(x, columns, columns.len())[i * a.nf + c] == b.encoded::<A>(
            x,
            columns,
            columns.len(),
        )[i * a.nf + c],
{
    lemma_row_place(i, c, a.n, a.nf);
    if exists|k: int| 0 <= k < columns.len() && #[trigger] columns[k] == c {
        let k = choose|k: int| 0 <= k < columns.len() && #[trigger] columns[k] == c;
        assert forall|j: int| 0 <= j < columns.len() && j != k implies #[trigger] columns[j]
            != columns[k] by {}
        lemma_encoded_entry::<A>(a, x, columns, k, i);
        lemma_encoded_entry::<A>(b, x, columns, k, i);
        assert(a.tally(x, columns[k] as int).taken_out::<A>(i));
        lemma_out_of_fold::<A>(
            a.tally(x, c),
            b.tally(x, c),
            i,
            a.smoothing,
            mean_label::<A>(a.y, a.n),
        );
    } else {
        lemma_encoded_columns::<A>(a, x, columns, columns.len());
        lemma_encoded_columns::<A>(b, x, columns, columns.len());
        assert forall|j: int| 0 <= j < columns.len() implies #[trigger] columns[j] != (i * a.nf + c)
            % a.nf by {}
    }
}

} // verus!
