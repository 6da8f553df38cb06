//! Sorting: the order of a list of numbers, equal ones keeping their places.

use vstd::prelude::*;

use crate::float::F32;

verus! {

/// The number at place `a` comes before that at place `b`: it is smaller, or equal and listed
/// earlier. NaNs come first or last, by their signs.
pub open spec fn precedes(vals: Seq<F32>, a: int, b: int) -> bool {
    vals[a].key() < vals[b].key() || (vals[a].key() == vals[b].key() && a < b)
}

/// `order` lists the places from `low` to `high`, each once, in ascending order of the numbers
/// that stand there.
pub open spec fn orders(vals: Seq<F32>, order: Seq<usize>, low: int, high: int) -> bool {
    &&& order.len() == high - low
    &&& forall|i: int| 0 <= i < order.len() ==> low <= #[trigger] order[i] < high
    &&& forall|i: int, j: int|
        0 <= i < j < order.len() ==> precedes(
            vals,
            (#[trigger] order[i]) as int,
            (#[trigger] order[j]) as int,
        )
}

/// `order` lists the places of `vals` in ascending order of the numbers there.
pub open spec fn is_order(vals: Seq<F32>, order: Seq<usize>) -> bool {
    orders(vals, order, 0, vals.len() as int)
}

/// The places of `vals` in ascending order of the numbers there.
pub open spec fn order_of(vals: Seq<F32>) -> Seq<usize> {
    choose|order: Seq<usize>| is_order(vals, order)
}

/// The numbers of `vals` in ascending order.
pub open spec fn sorted(vals: Seq<F32>) -> Seq<F32> {
    Seq::new(vals.len(), |i: int| vals[order_of(vals)[i] as int])
}

/// An order leaves no place out.
pub proof fn lemma_order_covers(vals: Seq<F32>, order: Seq<usize>, place: int)
    requires
        is_order(vals, order),
        0 <= place < vals.len(),
        vals.len() <= usize::MAX,
    ensures
        order.contains(place as usize),
{
    if !order.contains(place as usize) {
        let all = Set::<usize>::new(|p: usize| p < vals.len());
        let listed = order.to_set();
        lemma_places(vals.len());
        assert(order.no_duplicates());
        order.unique_seq_to_set();
        assert(listed.subset_of(all.remove(place as usize)));
        vstd::set_lib::lemma_len_subset(listed, all.remove(place as usize));
    }
}

/// There are as many places below `n` as `n` says.
proof fn lemma_places(n: nat)
    requires
        n <= usize::MAX,
    ensures
        Set::<usize>::new(|p: usize| p < n).finite(),
        Set::<usize>::new(|p: usize| p < n).len() == n,
    decreases n,
{
    let all = Set::<usize>::new(|p: usize| p < n);
    if n == 0 {
        assert(all =~= Set::empty());
    } else {
        lemma_places((n - 1) as nat);
        let fewer = Set::<usize>::new(|p: usize| p < n - 1);
        assert(all =~= fewer.insert((n - 1) as usize));
    }
}

/// A list of numbers has one order.
pub proof fn lemma_order_unique(vals: Seq<F32>, a: Seq<usize>, b: Seq<usize>)
    requires
        is_order(vals, a),
        is_order(vals, b),
        vals.len() <= usize::MAX,
    ensures
        a == b,
{
    lemma_order_prefix(vals, a, b, vals.len());
    assert(a =~= b);
}

/// Two orders agree on their first `k` places.
proof fn lemma_order_prefix(vals: Seq<F32>, a: Seq<usize>, b: Seq<usize>, k: nat)
    requires
        is_order(vals, a),
        is_order(vals, b),
        vals.len() <= usize::MAX,
        k <= vals.len(),
    ensures
        forall|i: int| 0 <= i < k ==> #[trigger] a[i] == b[i],
    decreases k,
{
    if k > 0 {
        lemma_order_prefix(vals, a, b, (k - 1) as nat);
        let i = k - 1;
        if a[i] != b[i] {
            lemma_order_covers(vals, b, a[i] as int);
            lemma_order_covers(vals, a, b[i] as int);
            let p = choose|p: int| 0 <= p < b.len() && b[p] == a[i];
            let q = choose|q: int| 0 <= q < a.len() && a[q] == b[i];
            if p < i {
                assert(a[p] == b[p]);
            }
            if q < i {
                assert(a[q] == b[q]);
            }
            assert(precedes(vals, b[i] as int, b[p] as int));
            assert(precedes(vals, a[i] as int, a[q] as int));
        }
    }
}

/// Where to put place `x` among those listed: after the numbers that are not larger.
proof fn insertion_point(vals: Seq<F32>, order: Seq<usize>, x: int, k: int) -> (p: int)
    requires
        0 <= k <= order.len(),
        forall|i: int, j: int|
            0 <= i < j < order.len() ==> precedes(
                vals,
                (#[trigger] order[i]) as int,
                (#[trigger] order[j]) as int,
            ),
        forall|i: int|
            k <= i < order.len() ==> vals[x].key() < vals[(#[trigger] order[i]) as int].key(),
    ensures
        0 <= p <= k,
        forall|i: int|
            0 <= i < p ==> vals[(#[trigger] order[i]) as int].key() <= vals[x].key(),
        forall|i: int|
            p <= i < order.len() ==> vals[x].key() < vals[(#[trigger] order[i]) as int].key(),
    decreases k,
{
    if k == 0 || vals[order[k - 1] as int].key() <= vals[x].key() {
        k
    } else {
        insertion_point(vals, order, x, k - 1)
    }
}

/// The first `n` places have an order.
proof fn make_order(vals: Seq<F32>, n: nat) -> (order: Seq<usize>)
    requires
        n <= vals.len() <= usize::MAX,
    ensures
        orders(vals, order, 0, n as int),
    decreases n,
{
    if n == 0 {
        Seq::empty()
    } else {
        let fewer = make_order(vals, (n - 1) as nat);
        let p = insertion_point(vals, fewer, n - 1, fewer.len() as int);
        fewer.insert(p, (n - 1) as usize)
    }
}

/// Every list of numbers has an order, and [`order_of`] is it.
pub proof fn lemma_order_exists(vals: Seq<F32>)
    requires
        vals.len() <= usize::MAX,
    ensures
        is_order(vals, order_of(vals)),
{
    let order = make_order(vals, vals.len());
    assert(is_order(vals, order));
}

/// Sorted numbers ascend, as long as none is NaN, and are among the numbers sorted.
pub proof fn lemma_sorted_ascends(vals: Seq<F32>)
    requires
        vals.len() <= usize::MAX,
        forall|k: int| 0 <= k < vals.len() ==> !(#[trigger] vals[k]).nan(),
    ensures
        sorted(vals).len() == vals.len(),
        forall|i: int, j: int|
            0 <= i <= j < vals.len() ==> (#[trigger] sorted(vals)[i]).at_most(
                #[trigger] sorted(vals)[j],
            ),
        forall|i: int| 0 <= i < vals.len() ==> vals.contains(#[trigger] sorted(vals)[i]),
{
    lemma_order_exists(vals);
    let o = order_of(vals);
    assert forall|i: int| 0 <= i < vals.len() implies vals.contains(#[trigger] sorted(vals)[i]) by {
        assert(0 <= o[i] < vals.len());
    }
    assert forall|i: int, j: int| 0 <= i <= j < vals.len() implies (#[trigger] sorted(
        vals,
    )[i]).at_most(#[trigger] sorted(vals)[j]) by {
        assert(0 <= o[i] < vals.len());
        assert(0 <= o[j] < vals.len());
    }
}

/// `places` lists the places below `n`, each once.
pub open spec fn permutes(places: Seq<int>, n: nat) -> bool {
    &&& places.len() == n
    &&& places.no_duplicates()
    &&& forall|i: int| 0 <= i < n ==> 0 <= #[trigger] places[i] < n
}

proof fn lemma_int_places(n: nat)
    ensures
        Set::<int>::new(|p: int| 0 <= p < n).finite(),
        Set::<int>::new(|p: int| 0 <= p < n).len() == n,
    decreases n,
{
    let all = Set::<int>::new(|p: int| 0 <= p < n);
    if n == 0 {
        assert(all =~= Set::empty());
    } else {
        lemma_int_places((n - 1) as nat);
        let fewer = Set::<int>::new(|p: int| 0 <= p < n - 1);
        assert(all =~= fewer.insert(n - 1));
    }
}

proof fn lemma_permutation_covers(places: Seq<int>, n: nat, place: int)
    requires
        permutes(places, n),
        0 <= place < n,
    ensures
        places.contains(place),
{
    if !places.contains(place) {
        let all = Set::<int>::new(|p: int| 0 <= p < n);
        lemma_int_places(n);
        places.unique_seq_to_set();
        assert(places.to_set().subset_of(all.remove(place)));
        vstd::set_lib::lemma_len_subset(places.to_set(), all.remove(place));
    }
}

/// Of two ways to list all numbers in ascending order, neither has a smaller one in a place.
proof fn lemma_not_smaller(vals: Seq<F32>, a: Seq<int>, b: Seq<int>, i: int)
    requires
        permutes(a, vals.len()),
        permutes(b, vals.len()),
        forall|j: int, k: int|
            0 <= j <= k < a.len() ==> vals[#[trigger] a[j]].key() <= vals[#[trigger] a[k]].key(),
        forall|j: int, k: int|
            0 <= j <= k < b.len() ==> vals[#[trigger] b[j]].key() <= vals[#[trigger] b[k]].key(),
        0 <= i < vals.len(),
    ensures
        vals[b[i]].key() <= vals[a[i]].key(),
{
    if vals[a[i]].key() < vals[b[i]].key() {
        let few = a.take(i + 1);
        let fewer = b.take(i);
        assert(few.no_duplicates()) by {
            assert forall|j: int, k: int| 0 <= j < few.len() && 0 <= k < few.len() && j
                != k implies few[j] != few[k] by {
                assert(a[j] != a[k]);
            }
        }
        assert(fewer.no_duplicates()) by {
            assert forall|j: int, k: int| 0 <= j < fewer.len() && 0 <= k < fewer.len() && j
                != k implies fewer[j] != fewer[k] by {
                assert(b[j] != b[k]);
            }
        }
        few.unique_seq_to_set();
        fewer.unique_seq_to_set();
        assert(few.to_set().subset_of(fewer.to_set())) by {
            assert forall|p: int| few.to_set().contains(p) implies #[trigger] fewer.to_set().contains(
                p,
            ) by {
                let j = choose|j: int| 0 <= j < few.len() && few[j] == p;
                assert(a[j] == p);
                assert(vals[a[j]].key() <= vals[a[i]].key());
                lemma_permutation_covers(b, vals.len(), p);
                let k = choose|k: int| 0 <= k < b.len() && b[k] == p;
                if k >= i {
                    assert(vals[b[i]].key() <= vals[b[k]].key());
                }
                assert(fewer[k] == p);
            }
        }
        vstd::set_lib::lemma_len_subset(few.to_set(), fewer.to_set());
    }
}

/// Sorting does not depend on the order in which numbers are listed, as far as they are told
/// apart by value.
pub proof fn lemma_sorted_permuted(a: Seq<F32>, b: Seq<F32>, places: Seq<int>, i: int)
    requires
        a.len() == b.len(),
        a.len() <= usize::MAX,
        permutes(places, a.len()),
        forall|k: int| 0 <= k < b.len() ==> #[trigger] b[k] == a[places[k]],
        0 <= i < a.len(),
    ensures
        sorted(b)[i].key() == sorted(a)[i].key(),
        exists|k: int| 0 <= k < a.len() && sorted(b)[i] == #[trigger] a[k],
        exists|k: int| 0 <= k < a.len() && sorted(a)[i] == #[trigger] a[k],
{
    let n = a.len();
    lemma_order_exists(a);
    lemma_order_exists(b);
    let oa = order_of(a);
    let ob = order_of(b);
    let p = Seq::new(n, |k: int| oa[k] as int);
    let q = Seq::new(n, |k: int| places[ob[k] as int]);
    assert(permutes(p, n)) by {
        assert forall|j: int, k: int| 0 <= j < n && 0 <= k < n && j != k implies p[j] != p[k] by {
            if j < k {
                assert(precedes(a, oa[j] as int, oa[k] as int));
            } else {
                assert(precedes(a, oa[k] as int, oa[j] as int));
            }
        }
    }
    assert(permutes(q, n)) by {
        assert forall|j: int, k: int| 0 <= j < n && 0 <= k < n && j != k implies q[j] != q[k] by {
            if j < k {
                assert(precedes(b, ob[j] as int, ob[k] as int));
            } else {
                assert(precedes(b, ob[k] as int, ob[j] as int));
            }
            assert(places[ob[j] as int] != places[ob[k] as int]);
        }
        assert forall|k: int| 0 <= k < n implies 0 <= #[trigger] q[k] < n by {
            assert(0 <= ob[k] < n);
            assert(0 <= places[ob[k] as int] < n);
        }
    }
    assert forall|j: int, k: int| 0 <= j <= k < n implies a[#[trigger] p[j]].key() <= a[
        #[trigger] p[k]
    ].key() by {
        if j < k {
            assert(precedes(a, oa[j] as int, oa[k] as int));
        }
    }
    assert forall|j: int, k: int| 0 <= j <= k < n implies a[#[trigger] q[j]].key() <= a[
        #[trigger] q[k]
    ].key() by {
        assert(0 <= ob[j] < n && 0 <= ob[k] < n);
        assert(b[ob[j] as int] == a[q[j]]);
        assert(b[ob[k] as int] == a[q[k]]);
        if j < k {
            assert(precedes(b, ob[j] as int, ob[k] as int));
        }
    }
    lemma_not_smaller(a, p, q, i);
    lemma_not_smaller(a, q, p, i);
    assert(0 <= ob[i] < n);
    assert(sorted(b)[i] == a[q[i]]);
    assert(sorted(a)[i] == a[p[i]]);
}

/// The order of the places from `low` to `high`, by merging the orders of the two halves.
fn sort_between(vals: &[F32], low: usize, high: usize) -> (order: Vec<usize>)
    requires
        low <= high <= vals@.len(),
    ensures
        orders(vals@, order@, low as int, high as int),
    decreases high - low,
{
    let mut order: Vec<usize> = Vec::new();
    if high - low <= 1 {
        if low < high {
            order.push(low);
        }
        return order;
    }
    let mid: usize = low + (high - low) / 2;
    let left = sort_between(vals, low, mid);
    let right = sort_between(vals, mid, high);
    let mut i: usize = 0;
    let mut j: usize = 0;
    while i < left.len() || j < right.len()
        invariant
            low <= mid <= high <= vals@.len(),
            orders(vals@, left@, low as int, mid as int),
            orders(vals@, right@, mid as int, high as int),
            i <= left@.len(),
            j <= right@.len(),
            order@.len() == i + j,
            forall|k: int| 0 <= k < order@.len() ==> low <= #[trigger] order@[k] < high,
            forall|k: int, m: int|
                0 <= k < m < order@.len() ==> precedes(
                    vals@,
                    (#[trigger] order@[k]) as int,
                    (#[trigger] order@[m]) as int,
                ),
            forall|k: int, m: int|
                0 <= k < order@.len() && i <= m < left@.len() ==> precedes(
                    vals@,
                    (#[trigger] order@[k]) as int,
                    (#[trigger] left@[m]) as int,
                ),
            forall|k: int, m: int|
                0 <= k < order@.len() && j <= m < right@.len() ==> precedes(
                    vals@,
                    (#[trigger] order@[k]) as int,
                    (#[trigger] right@[m]) as int,
                ),
        decreases left@.len() - i + right@.len() - j,
    {
        let from_left: bool = if i >= left.len() {
            false
        } else if j >= right.len() {
            true
        } else {
            vals[left[i]].order_key() <= vals[right[j]].order_key()
        };
        if from_left {
            order.push(left[i]);
            i = i + 1;
        } else {
            order.push(right[j]);
            j = j + 1;
        }
    }
    order
}

/// The places of `vals` in ascending order of the numbers there, equal ones as listed.
pub fn sort_order(vals: &[F32]) -> (order: Vec<usize>)
    ensures
        is_order(vals@, order@),
        order@ == order_of(vals@),
{
    let order = sort_between(vals, 0, vals.len());
    proof {
        assert(is_order(vals@, order@));
        lemma_order_unique(vals@, order@, order_of(vals@));
    }
    order
}

} // verus!
