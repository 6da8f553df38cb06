//! What the ranks of scores count.

use vstd::prelude::*;
use vstd::relations::injective_on;
use vstd::set_lib::lemma_int_range;
use vstd::set_lib::lemma_map_size;
use vstd::set_lib::set_int_range;

use crate::float::F32;
use crate::metrics::positive;
use crate::metrics::run_end;
use crate::metrics::run_start;
use crate::order::lemma_order_covers;
use crate::order::lemma_order_exists;
use crate::order::order_of;
use crate::order::precedes;
use crate::order::sorted;

verus! {

/// Twice the rank of row `r`, ties averaged.
pub open spec fn twice_rank(scores: Seq<F32>, r: int) -> int {
    let p = order_of(scores).index_of(r as usize) as nat;
    (run_start(sorted(scores), p) + 1 + run_end(sorted(scores), p)) as int
}

/// What a score counts against another: two where it is above it, one where they are equal.
pub open spec fn weight(a: F32, b: F32) -> int {
    if b.below(a) {
        2
    } else if b.equals(a) {
        1
    } else {
        0
    }
}

/// What a score counts against the first `k` scores.
pub open spec fn against(scores: Seq<F32>, v: F32, k: nat) -> int
    decreases k,
{
    if k == 0 {
        0
    } else {
        against(scores, v, (k - 1) as nat) + weight(v, scores[k - 1])
    }
}

/// What a score counts against those of the first `k` rows that are positive, or that are not.
pub open spec fn against_class(
    scores: Seq<F32>,
    labels: Seq<F32>,
    class: bool,
    v: F32,
    k: nat,
) -> int
    decreases k,
{
    if k == 0 {
        0
    } else {
        against_class(scores, labels, class, v, (k - 1) as nat) + if positive(labels[k - 1])
            == class {
            weight(v, scores[k - 1])
        } else {
            0
        }
    }
}

/// The number of positive rows among the first `k`.
pub open spec fn positive_count(labels: Seq<F32>, k: nat) -> int
    decreases k,
{
    if k == 0 {
        0
    } else {
        positive_count(labels, (k - 1) as nat) + if positive(labels[k - 1]) {
            1int
        } else {
            0int
        }
    }
}

/// Twice the sum of the ranks of the positive rows among the first `k`.
pub open spec fn twice_rank_sum(scores: Seq<F32>, labels: Seq<F32>, k: nat) -> int
    decreases k,
{
    if k == 0 {
        0
    } else {
        twice_rank_sum(scores, labels, (k - 1) as nat) + if positive(labels[k - 1]) {
            twice_rank(scores, k - 1)
        } else {
            0
        }
    }
}

/// What the positive rows among the first `k` count against the first `m` rows of a class.
pub open spec fn class_wins(
    scores: Seq<F32>,
    labels: Seq<F32>,
    class: bool,
    k: nat,
    m: nat,
) -> int
    decreases k,
{
    if k == 0 {
        0
    } else {
        class_wins(scores, labels, class, (k - 1) as nat, m) + if positive(labels[k - 1]) {
            against_class(scores, labels, class, scores[k - 1], m)
        } else {
            0
        }
    }
}

/// No score is a NaN.
pub open spec fn comparable(scores: Seq<F32>) -> bool {
    forall|k: int| 0 <= k < scores.len() ==> !(#[trigger] scores[k]).nan()
}

/// The first `k` places that hold a score below the given one.
spec fn below_set(scores: Seq<F32>, v: F32, k: nat) -> Set<int> {
    Set::new(|i: int| 0 <= i < k && scores[i].below(v))
}

/// The first `k` places that hold the given score or one below it.
spec fn up_to_set(scores: Seq<F32>, v: F32, k: nat) -> Set<int> {
    Set::new(|i: int| 0 <= i < k && scores[i].at_most(v))
}

/// A score counts one for each score below it, and one for each that is not above it.
proof fn lemma_against_sets(scores: Seq<F32>, v: F32, k: nat)
    requires
        comparable(scores),
        k <= scores.len(),
        !v.nan(),
    ensures
        below_set(scores, v, k).finite(),
        up_to_set(scores, v, k).finite(),
        against(scores, v, k) == below_set(scores, v, k).len() + up_to_set(scores, v, k).len(),
    decreases k,
{
    let b = below_set(scores, v, k);
    let u = up_to_set(scores, v, k);
    if k == 0 {
        assert(b =~= Set::empty());
        assert(u =~= Set::empty());
    } else {
        let low = (k - 1) as nat;
        lemma_against_sets(scores, v, low);
        let last = low as int;
        assert(!scores[last].nan());
        if scores[last].below(v) {
            assert(b =~= below_set(scores, v, low).insert(last));
        } else {
            assert(b =~= below_set(scores, v, low));
        }
        if scores[last].at_most(v) {
            assert(u =~= up_to_set(scores, v, low).insert(last));
        } else {
            assert(u =~= up_to_set(scores, v, low));
        }
    }
}

proof fn lemma_run_start(s: Seq<F32>, p: nat)
    requires
        p < s.len(),
        comparable(s),
        forall|i: int, j: int|
            0 <= i <= j < s.len() ==> (#[trigger] s[i]).at_most(#[trigger] s[j]),
    ensures
        run_start(s, p) <= p,
        forall|q: int| 0 <= q < s.len() ==> (#[trigger] s[q].below(s[p as int]) <==> q < run_start(s, p)),
    decreases p,
{
    let v = s[p as int];
    if p > 0 && v.equals(s[p - 1]) {
        lemma_run_start(s, (p - 1) as nat);
        assert forall|q: int| 0 <= q < s.len() implies (#[trigger] s[q].below(v) <==> q < run_start(
            s,
            p,
        )) by {
            assert(s[q].below(s[p - 1]) <==> q < run_start(s, (p - 1) as nat));
        }
    } else {
        assert forall|q: int| 0 <= q < s.len() implies (#[trigger] s[q].below(v) <==> q < run_start(
            s,
            p,
        )) by {
            if q < p {
                assert(s[q].at_most(s[p - 1]));
                assert(s[p - 1].at_most(v));
            } else {
                assert(v.at_most(s[q]));
            }
        }
    }
}

proof fn lemma_run_end(s: Seq<F32>, p: nat)
    requires
        p < s.len(),
        comparable(s),
        forall|i: int, j: int|
            0 <= i <= j < s.len() ==> (#[trigger] s[i]).at_most(#[trigger] s[j]),
    ensures
        p < run_end(s, p) <= s.len(),
        forall|q: int| 0 <= q < s.len() ==> (#[trigger] s[q].at_most(s[p as int]) <==> q < run_end(s, p)),
    decreases s.len() - p,
{
    let v = s[p as int];
    if p + 1 < s.len() && s[p as int + 1].equals(v) {
        lemma_run_end(s, p + 1);
        assert forall|q: int| 0 <= q < s.len() implies (#[trigger] s[q].at_most(v) <==> q < run_end(
            s,
            p,
        )) by {
            assert(s[q].at_most(s[p as int + 1]) <==> q < run_end(s, p + 1));
        }
    } else {
        assert forall|q: int| 0 <= q < s.len() implies (#[trigger] s[q].at_most(v) <==> q < run_end(
            s,
            p,
        )) by {
            if q > p {
                assert(s[p as int + 1].at_most(s[q]));
                assert(v.at_most(s[p as int + 1]));
            } else {
                assert(s[q].at_most(v));
            }
        }
    }
}

/// The places of a sorted list up to a bound stand for as many places of the list itself.
proof fn lemma_places(scores: Seq<F32>, bound: int, y: Set<int>)
    requires
        scores.len() <= usize::MAX,
        0 <= bound <= scores.len(),
        forall|i: int| y.contains(i) ==> 0 <= i < scores.len(),
        forall|q: int|
            0 <= q < scores.len() ==> (y.contains(#[trigger] order_of(scores)[q] as int) <==> q
                < bound),
    ensures
        y.len() == bound,
{
    let order = order_of(scores);
    lemma_order_exists(scores);
    let x = set_int_range(0, bound);
    lemma_int_range(0, bound);
    let f = |q: int| order[q] as int;
    assert(injective_on(f, x)) by {
        assert forall|a: int, b: int|
            x.contains(a) && x.contains(b) && #[trigger] f(a) == #[trigger] f(b) implies a == b by {
            if a < b {
                assert(precedes(scores, order[a] as int, order[b] as int));
            } else if b < a {
                assert(precedes(scores, order[b] as int, order[a] as int));
            }
        }
    }
    assert(x.map(f) =~= y) by {
        assert forall|i: int| x.map(f).contains(i) <==> y.contains(i) by {
            if x.map(f).contains(i) {
                let q = choose|q: int| x.contains(q) && f(q) == i;
                assert(y.contains(order[q] as int));
            }
            if y.contains(i) {
                lemma_order_covers(scores, order, i);
                let q = choose|q: int| 0 <= q < order.len() && order[q] == i as usize;
                assert(y.contains(order[q] as int));
                assert(x.contains(q) && f(q) == i);
            }
        }
    }
    lemma_map_size(x, y, f);
}

/// The rank of a row says how many scores are below its own, and how many are equal: twice the
/// rank is one more than twice the former and once the latter. The order of the rows does not
/// matter.
pub proof fn lemma_rank_counts(scores: Seq<F32>, r: int)
    requires
        scores.len() <= usize::MAX,
        comparable(scores),
        0 <= r < scores.len(),
    ensures
        twice_rank(scores, r) == 1 + against(scores, scores[r], scores.len()),
{
    let n = scores.len();
    let order = order_of(scores);
    let s = sorted(scores);
    lemma_order_exists(scores);
    lemma_order_covers(scores, order, r);
    let p = order.index_of(r as usize);
    assert(0 <= p < n && order[p] == r as usize);
    let v = scores[r];
    assert(s[p] == v);
    assert(comparable(s)) by {
        assert forall|k: int| 0 <= k < s.len() implies !(#[trigger] s[k]).nan() by {
            assert(!scores[order[k] as int].nan());
        }
    }
    assert forall|i: int, j: int| 0 <= i <= j < s.len() implies (#[trigger] s[i]).at_most(
        #[trigger] s[j],
    ) by {
        if i < j {
            assert(precedes(scores, order[i] as int, order[j] as int));
        }
        assert(!scores[order[i] as int].nan());
        assert(!scores[order[j] as int].nan());
    }
    lemma_run_start(s, p as nat);
    lemma_run_end(s, p as nat);
    lemma_against_sets(scores, v, n);
    let b = below_set(scores, v, n);
    let u = up_to_set(scores, v, n);
    assert forall|q: int| 0 <= q < n implies (b.contains(#[trigger] order[q] as int) <==> q
        < run_start(s, p as nat)) by {
        assert(s[q] == scores[order[q] as int]);
        assert(s[q].below(s[p]) <==> q < run_start(s, p as nat));
    }
    assert forall|q: int| 0 <= q < n implies (u.contains(#[trigger] order[q] as int) <==> q
        < run_end(s, p as nat)) by {
        assert(s[q] == scores[order[q] as int]);
        assert(s[q].at_most(s[p]) <==> q < run_end(s, p as nat));
    }
    lemma_places(scores, run_start(s, p as nat) as int, b);
    lemma_places(scores, run_end(s, p as nat) as int, u);
}

proof fn lemma_against_classes(scores: Seq<F32>, labels: Seq<F32>, v: F32, k: nat)
    ensures
        against(scores, v, k) == against_class(scores, labels, true, v, k) + against_class(
            scores,
            labels,
            false,
            v,
            k,
        ),
    decreases k,
{
    if k > 0 {
        lemma_against_classes(scores, labels, v, (k - 1) as nat);
    }
}

/// What positive rows count against one more row.
proof fn lemma_one_more(scores: Seq<F32>, labels: Seq<F32>, k: nat, m: nat)
    requires
        comparable(scores),
        k <= scores.len(),
        m < scores.len(),
        positive(labels[m as int]),
    ensures
        class_wins(scores, labels, true, k, m + 1) == class_wins(scores, labels, true, k, m) + 2
            * positive_count(labels, k) - against_class(scores, labels, true, scores[m as int], k),
    decreases k,
{
    if k > 0 {
        let low = (k - 1) as nat;
        lemma_one_more(scores, labels, low, m);
        assert(!scores[k - 1].nan() && !scores[m as int].nan());
        assert(weight(scores[k - 1], scores[m as int]) + weight(scores[m as int], scores[k - 1])
            == 2);
    }
}

proof fn lemma_same_class(scores: Seq<F32>, labels: Seq<F32>, k: nat, m: nat)
    requires
        m < scores.len(),
        !positive(labels[m as int]),
    ensures
        class_wins(scores, labels, true, k, m + 1) == class_wins(scores, labels, true, k, m),
    decreases k,
{
    if k > 0 {
        lemma_same_class(scores, labels, (k - 1) as nat, m);
    }
}

/// Among themselves, positive rows count one for each pair of them, in whatever order.
proof fn lemma_among_positives(scores: Seq<F32>, labels: Seq<F32>, k: nat)
    requires
        comparable(scores),
        k <= scores.len(),
    ensures
        class_wins(scores, labels, true, k, k) == positive_count(labels, k) * positive_count(
            labels,
            k,
        ),
    decreases k,
{
    if k > 0 {
        let low = (k - 1) as nat;
        let c = positive_count(labels, low);
        lemma_among_positives(scores, labels, low);
        assert(!scores[low as int].nan());
        if positive(labels[low as int]) {
            lemma_one_more(scores, labels, low, low);
            assert((c + 1) * (c + 1) == c * c + 2 * c + 1) by (nonlinear_arith);
        } else {
            lemma_same_class(scores, labels, low, low);
        }
    }
}

proof fn lemma_rank_sum(scores: Seq<F32>, labels: Seq<F32>, k: nat)
    requires
        scores.len() <= usize::MAX,
        comparable(scores),
        k <= scores.len(),
    ensures
        twice_rank_sum(scores, labels, k) == positive_count(labels, k) + class_wins(
            scores,
            labels,
            true,
            k,
            scores.len(),
        ) + class_wins(scores, labels, false, k, scores.len()),
    decreases k,
{
    if k > 0 {
        lemma_rank_sum(scores, labels, (k - 1) as nat);
        lemma_rank_counts(scores, k - 1);
        lemma_against_classes(scores, labels, scores[k - 1], scores.len());
    }
}

/// The identity behind the area under the ROC curve: twice the sum of the ranks of the
/// positive rows, less what they would have among themselves, counts the pairs of a positive
/// and another row, two for each that is ordered and one for each that is tied.
pub proof fn lemma_rank_sum_counts_pairs(scores: Seq<F32>, labels: Seq<F32>)
    requires
        scores.len() <= usize::MAX,
        comparable(scores),
    ensures
        ({
            let n = scores.len();
            let c = positive_count(labels, n);
            twice_rank_sum(scores, labels, n) - c * (c + 1) == class_wins(
                scores,
                labels,
                false,
                n,
                n,
            )
        }),
{
    let n = scores.len();
    let c = positive_count(labels, n);
    lemma_rank_sum(scores, labels, n);
    lemma_among_positives(scores, labels, n);
    assert(c * (c + 1) == c * c + c) by (nonlinear_arith);
}

} // verus!
