//! What out-of-fold encoding depends on where no sum of labels is rounded.

use vstd::prelude::*;

use crate::arith::difference64;
use crate::arith::sum64;
use crate::arith::widened;
use crate::arith::Arith;
use crate::encoding::label_sum;
use crate::encoding::lemma_rows_out_of_fold;
use crate::encoding::mean_label;
use crate::encoding::Fitting;
use crate::encoding::Tally;
use crate::float::F32;
use crate::float::F64;

verus! {

/// Numbers in double precision that are whole multiples of a unit.
pub struct WideScale {
    pub whole: spec_fn(F64) -> bool,
    /// How many units a number is.
    pub units: spec_fn(F64) -> int,
    /// How many units a sum may be without being rounded.
    pub reach: int,
}

impl WideScale {
    /// Both numbers are whole.
    pub open spec fn meets(self, a: F64, b: F64) -> bool {
        (self.whole)(a) && (self.whole)(b)
    }

    /// Sums and differences of whole numbers within reach are not rounded, and there is one
    /// whole number of as many units.
    pub open spec fn exact<A: Arith>(self) -> bool {
        &&& (self.whole)(F64 { bits: 0 })
        &&& (self.units)(F64 { bits: 0 }) == 0
        &&& forall|a: F64, b: F64| #[trigger]
            self.meets(a, b) && -self.reach <= (self.units)(a) + (self.units)(b) <= self.reach
                ==> (self.whole)(sum64::<A>(a, b)) && (self.units)(sum64::<A>(a, b)) == (
            self.units)(a) + (self.units)(b)
        &&& forall|a: F64, b: F64| #[trigger]
            self.meets(a, b) && -self.reach <= (self.units)(a) - (self.units)(b) <= self.reach
                ==> (self.whole)(difference64::<A>(a, b)) && (self.units)(difference64::<A>(a, b))
                == (self.units)(a) - (self.units)(b)
        &&& forall|a: F64, b: F64| #[trigger]
            self.meets(a, b) && (self.units)(a) == (self.units)(b) ==> a == b
    }

    /// How many units label `i` is.
    pub open spec fn label<A: Arith>(self, y: Seq<F32>, i: int) -> int {
        (self.units)(widened::<A>(y[i]))
    }

    /// The sum of those of the first `k` labels for which `pick` holds.
    pub open spec fn tally<A: Arith>(
        self,
        y: Seq<F32>,
        k: nat,
        pick: spec_fn(int) -> bool,
    ) -> int
        decreases k,
    {
        if k == 0 {
            0
        } else {
            self.tally::<A>(y, (k - 1) as nat, pick) + if pick(k - 1) {
                self.label::<A>(y, k - 1)
            } else {
                0
            }
        }
    }

    /// The sizes of the first `k` labels, added up.
    pub open spec fn size<A: Arith>(self, y: Seq<F32>, k: nat) -> int
        decreases k,
    {
        if k == 0 {
            0
        } else {
            let v = self.label::<A>(y, k - 1);
            self.size::<A>(y, (k - 1) as nat) + if v < 0 {
                -v
            } else {
                v
            }
        }
    }

    /// The labels are whole, and no sum of some of them is out of reach.
    pub open spec fn bears<A: Arith>(self, y: Seq<F32>) -> bool {
        &&& forall|i: int| 0 <= i < y.len() ==> (self.whole)(widened::<A>(#[trigger] y[i]))
        &&& self.size::<A>(y, y.len()) <= self.reach
    }

    /// A number holds the sum of those of the first `k` labels for which `pick` holds.
    pub open spec fn sums<A: Arith>(
        self,
        v: F64,
        y: Seq<F32>,
        k: nat,
        pick: spec_fn(int) -> bool,
    ) -> bool {
        (self.whole)(v) && (self.units)(v) == self.tally::<A>(y, k, pick)
    }
}

proof fn lemma_tally_bound<A: Arith>(
    s: WideScale,
    y: Seq<F32>,
    k: nat,
    m: nat,
    pick: spec_fn(int) -> bool,
)
    requires
        k <= m,
    ensures
        -s.size::<A>(y, m) <= s.tally::<A>(y, k, pick) <= s.size::<A>(y, m),
    decreases m,
{
    if k < m {
        lemma_tally_bound::<A>(s, y, k, (m - 1) as nat, pick);
    } else if k > 0 {
        lemma_tally_bound::<A>(s, y, (k - 1) as nat, (k - 1) as nat, pick);
    }
}

/// What falls into two parts adds up.
proof fn lemma_tally_parts<A: Arith>(
    s: WideScale,
    y: Seq<F32>,
    k: nat,
    p: spec_fn(int) -> bool,
    q: spec_fn(int) -> bool,
    r: spec_fn(int) -> bool,
)
    requires
        forall|i: int|
            0 <= i < k ==> #[trigger] p(i) == (q(i) || r(i)) && !(q(i) && r(i)),
    ensures
        s.tally::<A>(y, k, p) == s.tally::<A>(y, k, q) + s.tally::<A>(y, k, r),
    decreases k,
{
    if k > 0 {
        lemma_tally_parts::<A>(s, y, (k - 1) as nat, p, q, r);
        assert(p(k - 1) == (q(k - 1) || r(k - 1)));
    }
}

proof fn lemma_tally_same<A: Arith>(
    s: WideScale,
    y: Seq<F32>,
    k: nat,
    p: spec_fn(int) -> bool,
    q: spec_fn(int) -> bool,
)
    requires
        forall|i: int| 0 <= i < k ==> #[trigger] p(i) == q(i),
    ensures
        s.tally::<A>(y, k, p) == s.tally::<A>(y, k, q),
    decreases k,
{
    if k > 0 {
        lemma_tally_same::<A>(s, y, (k - 1) as nat, p, q);
        assert(p(k - 1) == q(k - 1));
    }
}

proof fn lemma_tally_none<A: Arith>(
    s: WideScale,
    y: Seq<F32>,
    k: nat,
    p: spec_fn(int) -> bool,
)
    requires
        forall|i: int| 0 <= i < k ==> !#[trigger] p(i),
    ensures
        s.tally::<A>(y, k, p) == 0,
    decreases k,
{
    if k > 0 {
        lemma_tally_none::<A>(s, y, (k - 1) as nat, p);
        assert(!p(k - 1));
    }
}

proof fn lemma_fold_exact<A: Arith>(s: WideScale, t: Tally, key: i64, fold: int, k: nat)
    requires
        s.exact::<A>(),
        s.bears::<A>(t.y),
        k <= t.y.len(),
    ensures
        s.sums::<A>(
            t.sum::<A>(key, fold, k),
            t.y,
            k,
            |i: int| t.keys[i] == key && i % t.folds == fold,
        ),
    decreases k,
{
    let pick = |i: int| t.keys[i] == key && i % t.folds == fold;
    if k > 0 {
        lemma_fold_exact::<A>(s, t, key, fold, (k - 1) as nat);
        lemma_tally_bound::<A>(s, t.y, k, t.y.len(), pick);
        assert(pick(k - 1) == (t.keys[k - 1] == key && (k - 1) % t.folds == fold));
        assert(s.meets(t.sum::<A>(key, fold, (k - 1) as nat), widened::<A>(t.y[k - 1])));
    }
}

proof fn lemma_total_exact<A: Arith>(s: WideScale, t: Tally, key: i64, j: nat)
    requires
        s.exact::<A>(),
        s.bears::<A>(t.y),
        t.keys.len() <= t.y.len(),
        0 < t.folds,
    ensures
        s.sums::<A>(
            t.total::<A>(key, j),
            t.y,
            t.keys.len(),
            |i: int| t.keys[i] == key && i % t.folds < j,
        ),
    decreases j,
{
    let n = t.keys.len();
    let upto = |i: int| t.keys[i] == key && i % t.folds < j;
    if j == 0 {
        lemma_tally_none::<A>(s, t.y, n, upto);
    } else {
        lemma_total_exact::<A>(s, t, key, (j - 1) as nat);
        lemma_fold_exact::<A>(s, t, key, j - 1, n);
        let before = |i: int| t.keys[i] == key && i % t.folds < (j - 1) as nat;
        let own = |i: int| t.keys[i] == key && i % t.folds == j - 1;
        lemma_tally_parts::<A>(s, t.y, n, upto, before, own);
        lemma_tally_bound::<A>(s, t.y, n, t.y.len(), upto);
        assert(s.meets(t.total::<A>(key, (j - 1) as nat), t.sum::<A>(key, j - 1, n)));
    }
}

proof fn lemma_rest_exact<A: Arith>(s: WideScale, t: Tally, key: i64, fold: int, j: nat)
    requires
        s.exact::<A>(),
        s.bears::<A>(t.y),
        t.keys.len() <= t.y.len(),
        0 < t.folds,
    ensures
        s.sums::<A>(
            t.rest::<A>(key, fold, j),
            t.y,
            t.keys.len(),
            |i: int| t.keys[i] == key && i % t.folds < j && i % t.folds != fold,
        ),
    decreases j,
{
    let n = t.keys.len();
    let upto = |i: int| t.keys[i] == key && i % t.folds < j && i % t.folds != fold;
    if j == 0 {
        lemma_tally_none::<A>(s, t.y, n, upto);
    } else {
        lemma_rest_exact::<A>(s, t, key, fold, (j - 1) as nat);
        let before = |i: int|
            t.keys[i] == key && i % t.folds < (j - 1) as nat && i % t.folds != fold;
        if j - 1 == fold {
            lemma_tally_same::<A>(s, t.y, n, before, upto);
        } else {
            lemma_fold_exact::<A>(s, t, key, j - 1, n);
            let own = |i: int| t.keys[i] == key && i % t.folds == j - 1;
            lemma_tally_parts::<A>(s, t.y, n, upto, before, own);
            lemma_tally_bound::<A>(s, t.y, n, t.y.len(), upto);
            assert(s.meets(t.rest::<A>(key, fold, (j - 1) as nat), t.sum::<A>(key, j - 1, n)));
        }
    }
}

/// Where no sum of labels is rounded, taking the labels of a fold back out leaves those of the
/// other folds.
pub proof fn lemma_taken_out<A: Arith>(s: WideScale, t: Tally, i: int)
    requires
        s.exact::<A>(),
        s.bears::<A>(t.y),
        t.keys.len() <= t.y.len(),
        0 < t.folds,
        0 <= i < t.keys.len(),
    ensures
        t.taken_out::<A>(i),
{
    let key = t.keys[i];
    let fold = i % t.folds;
    let n = t.keys.len();
    let folds = t.folds as nat;
    lemma_total_exact::<A>(s, t, key, folds);
    lemma_rest_exact::<A>(s, t, key, fold, folds);
    lemma_fold_exact::<A>(s, t, key, fold, n);
    let all = |r: int| t.keys[r] == key && r % t.folds < folds;
    let rest = |r: int| t.keys[r] == key && r % t.folds < folds && r % t.folds != fold;
    let own = |r: int| t.keys[r] == key && r % t.folds == fold;
    assert forall|r: int| 0 <= r < n implies #[trigger] all(r) == (rest(r) || own(r)) && !(rest(r)
        && own(r)) by {
        vstd::arithmetic::div_mod::lemma_mod_bound(r, t.folds);
    }
    lemma_tally_parts::<A>(s, t.y, n, all, rest, own);
    lemma_tally_bound::<A>(s, t.y, n, t.y.len(), rest);
    let total = t.total::<A>(key, folds);
    let part = t.sum::<A>(key, fold, n);
    assert(s.meets(total, part));
    assert(s.meets(difference64::<A>(total, part), t.rest::<A>(key, fold, folds)));
}

proof fn lemma_label_sum_exact<A: Arith>(s: WideScale, y: Seq<F32>, k: nat)
    requires
        s.exact::<A>(),
        s.bears::<A>(y),
        k <= y.len(),
    ensures
        s.sums::<A>(label_sum::<A>(y, k), y, k, |i: int| true),
    decreases k,
{
    if k > 0 {
        lemma_label_sum_exact::<A>(s, y, (k - 1) as nat);
        lemma_tally_bound::<A>(s, y, k, y.len(), |i: int| true);
        assert(s.meets(label_sum::<A>(y, (k - 1) as nat), widened::<A>(y[k - 1])));
    }
}

/// Where no sum of labels is rounded, the labels of a fold do not matter to how the rows of the
/// fold are encoded: other labels in their place, with the same sum, leave every column of every
/// row of the fold as it is.
pub proof fn lemma_fold_labels<A: Arith>(
    s: WideScale,
    a: Fitting,
    b: Fitting,
    x: Seq<F32>,
    columns: Seq<usize>,
    i: int,
    c: int,
)
    requires
        s.exact::<A>(),
        s.bears::<A>(a.y),
        s.bears::<A>(b.y),
        b == (Fitting { y: b.y, ..a }),
        a.folds > 0,
        a.n * a.nf <= x.len(),
        a.n <= a.y.len(),
        a.y.len() == b.y.len(),
        0 <= i < a.n,
        0 <= c < a.nf,
        forall|k: int| 0 <= k < columns.len() ==> #[trigger] columns[k] < a.nf,
        forall|j: int, k: int|
            0 <= j < k < columns.len() ==> #[trigger] columns[j] != #[trigger] columns[k],
        forall|r: int|
            0 <= r < a.n && r % a.folds != i % a.folds ==> #[trigger] a.y[r] == b.y[r],
        s.tally::<A>(a.y, a.y.len(), |r: int| true) == s.tally::<A>(b.y, b.y.len(), |r: int| true),
    ensures
        a.encoded::<A>(x, columns, columns.len())[i * a.nf + c] == b.encoded::<A>(
            x,
            columns,
            columns.len(),
        )[i * a.nf + c],
{
    lemma_label_sum_exact::<A>(s, a.y, a.y.len());
    lemma_label_sum_exact::<A>(s, b.y, b.y.len());
    assert(s.meets(label_sum::<A>(a.y, a.y.len()), label_sum::<A>(b.y, b.y.len())));
    assert(mean_label::<A>(a.y, a.n) == mean_label::<A>(b.y, b.n));
    assert forall|k: int| 0 <= k < columns.len() implies a.tally(
        x,
        #[trigger] columns[k] as int,
    ).taken_out::<A>(i) && b.tally(x, columns[k] as int).taken_out::<A>(i) by {
        lemma_taken_out::<A>(s, a.tally(x, columns[k] as int), i);
        lemma_taken_out::<A>(s, b.tally(x, columns[k] as int), i);
    }
    lemma_rows_out_of_fold::<A>(a, b, x, columns, i, c);
}

} // verus!
