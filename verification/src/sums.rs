//! Sums of numbers over chosen places, as real numbers.

use vstd::prelude::*;

use crate::float::F32;
use crate::reals::fits32;
use crate::reals::fits64;

verus! {

/// The sum of those of the first `k` values for which `pick` holds.
pub open spec fn part(vals: Seq<F32>, k: nat, pick: spec_fn(int) -> bool) -> real
    decreases k,
{
    if k == 0 {
        0real
    } else {
        part(vals, (k - 1) as nat, pick) + if pick(k - 1) {
            vals[k - 1].amount()
        } else {
            0real
        }
    }
}

/// The number of those of the first `k` places for which `pick` holds.
pub open spec fn picked(k: nat, pick: spec_fn(int) -> bool) -> nat
    decreases k,
{
    if k == 0 {
        0
    } else {
        picked((k - 1) as nat, pick) + if pick(k - 1) {
            1nat
        } else {
            0nat
        }
    }
}

/// The first `n` values are finite, and the sum of any of them can be written in single
/// precision.
pub open spec fn parts_fit32(vals: Seq<F32>, n: nat) -> bool {
    &&& forall|i: int| 0 <= i < n ==> (#[trigger] vals[i]).finite()
    &&& forall|k: nat, pick: spec_fn(int) -> bool| k <= n ==> fits32(#[trigger] part(vals, k, pick))
}

/// The first `n` values are finite, and the sum of any of them can be written in double
/// precision.
pub open spec fn parts_fit64(vals: Seq<F32>, n: nat) -> bool {
    &&& forall|i: int| 0 <= i < n ==> (#[trigger] vals[i]).finite()
    &&& forall|k: nat, pick: spec_fn(int) -> bool| k <= n ==> fits64(#[trigger] part(vals, k, pick))
}

/// A count can be written in double precision.
pub open spec fn count_fits64(k: nat) -> bool {
    fits64(k as real)
}

/// Counts up to `n` can be written in double precision.
pub open spec fn counts_fit64(n: nat) -> bool {
    forall|k: nat| k <= n ==> #[trigger] count_fits64(k)
}

pub proof fn lemma_count_fits(n: nat, k: nat)
    requires
        counts_fit64(n),
        k <= n,
    ensures
        fits64(k as real),
{
    assert(count_fits64(k));
}

pub proof fn lemma_part_same(
    vals: Seq<F32>,
    k: nat,
    p: spec_fn(int) -> bool,
    q: spec_fn(int) -> bool,
)
    requires
        forall|i: int| 0 <= i < k ==> #[trigger] p(i) == q(i),
    ensures
        part(vals, k, p) == part(vals, k, q),
        picked(k, p) == picked(k, q),
    decreases k,
{
    if k > 0 {
        lemma_part_same(vals, (k - 1) as nat, p, q);
        assert(p(k - 1) == q(k - 1));
    }
}

/// What falls into two parts adds up.
pub proof fn lemma_part_split(
    vals: Seq<F32>,
    k: nat,
    p: spec_fn(int) -> bool,
    q: spec_fn(int) -> bool,
    r: spec_fn(int) -> bool,
)
    requires
        forall|i: int| 0 <= i < k ==> #[trigger] p(i) == (q(i) || r(i)) && !(q(i) && r(i)),
    ensures
        part(vals, k, p) == part(vals, k, q) + part(vals, k, r),
        picked(k, p) == picked(k, q) + picked(k, r),
    decreases k,
{
    if k > 0 {
        lemma_part_split(vals, (k - 1) as nat, p, q, r);
        assert(p(k - 1) == (q(k - 1) || r(k - 1)));
    }
}

pub proof fn lemma_part_none(vals: Seq<F32>, k: nat, p: spec_fn(int) -> bool)
    requires
        forall|i: int| 0 <= i < k ==> !#[trigger] p(i),
    ensures
        part(vals, k, p) == 0real,
        picked(k, p) == 0,
    decreases k,
{
    if k > 0 {
        lemma_part_none(vals, (k - 1) as nat, p);
        assert(!p(k - 1));
    }
}

/// Places beyond the chosen ones add nothing.
pub proof fn lemma_part_cut(vals: Seq<F32>, j: nat, k: nat, p: spec_fn(int) -> bool)
    requires
        j <= k,
        forall|i: int| j <= i < k ==> !#[trigger] p(i),
    ensures
        part(vals, k, p) == part(vals, j, p),
        picked(k, p) == picked(j, p),
    decreases k,
{
    if j < k {
        lemma_part_cut(vals, j, (k - 1) as nat, p);
        assert(!p(k - 1));
    }
}

pub proof fn lemma_picked_bound(k: nat, p: spec_fn(int) -> bool)
    ensures
        picked(k, p) <= k,
    decreases k,
{
    if k > 0 {
        lemma_picked_bound((k - 1) as nat, p);
    }
}

/// A chosen place is counted.
pub proof fn lemma_picked_some(k: nat, p: spec_fn(int) -> bool, i: int)
    requires
        0 <= i < k,
        p(i),
    ensures
        0 < picked(k, p),
    decreases k,
{
    if i < k - 1 {
        lemma_picked_some((k - 1) as nat, p, i);
    }
}

/// The sum of the first `k` terms.
pub open spec fn total(k: nat, f: spec_fn(int) -> real) -> real
    decreases k,
{
    if k == 0 {
        0real
    } else {
        total((k - 1) as nat, f) + f(k - 1)
    }
}

/// The sums of the first terms, up to `n` of them, can be written in double precision.
pub open spec fn totals_fit64(n: nat, f: spec_fn(int) -> real) -> bool {
    forall|k: nat| k <= n ==> fits64(#[trigger] total(k, f))
}

} // verus!
