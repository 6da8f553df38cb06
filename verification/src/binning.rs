//! Quantising feature values into bins.
//!
//! The bins of a feature are cut by ascending boundaries. A value is put into the bin whose
//! number is the count of boundaries below it, so that it lies in a bin above `t` exactly when
//! it is above boundary `t`.

use vstd::prelude::*;
use vstd::slice::slice_subrange;

use crate::float::F32;
use crate::par::par_map;

verus! {

/// Where the bisection of `bounds` between `low` and `high` ends for the value `v`.
pub open spec fn bisect(bounds: Seq<F32>, v: F32, low: int, high: int) -> int
    decreases high - low,
{
    if low < high {
        let mid = (low + high) / 2;
        if bounds[mid].below(v) {
            bisect(bounds, v, mid + 1, high)
        } else {
            bisect(bounds, v, low, mid)
        }
    } else {
        low
    }
}

/// The bin of the value `v`.
pub open spec fn bin_index(bounds: Seq<F32>, v: F32) -> int {
    bisect(bounds, v, 0, bounds.len() as int)
}

/// The boundaries ascend, and none is NaN.
pub open spec fn ascending(bounds: Seq<F32>) -> bool {
    forall|i: int, j: int|
        0 <= i <= j < bounds.len() ==> (#[trigger] bounds[i]).at_most(#[trigger] bounds[j])
}

/// The boundaries of feature `f` in a table that has `nb1` of them for each feature.
pub open spec fn bounds_of(table: Seq<F32>, f: int, nb1: int) -> Seq<F32> {
    table.subrange(f * nb1, f * nb1 + nb1)
}

/// A threshold is one of the boundaries of feature `f`.
pub open spec fn at_boundary(v: F32, table: Seq<F32>, f: int, nb1: int) -> bool {
    exists|b: int| 0 <= b < nb1 && v == #[trigger] table[f * nb1 + b]
}

/// The bins of all values of a row-major matrix with `nf` columns.
pub open spec fn bins_of(x: Seq<F32>, table: Seq<F32>, nf: int, nb1: int) -> Seq<u8> {
    Seq::new(x.len(), |i: int| bin_index(bounds_of(table, i % nf, nb1), x[i]) as u8)
}

proof fn lemma_bisect_range(bounds: Seq<F32>, v: F32, low: int, high: int)
    requires
        0 <= low <= high <= bounds.len(),
    ensures
        low <= bisect(bounds, v, low, high) <= high,
    decreases high - low,
{
    if low < high {
        let mid = (low + high) / 2;
        if bounds[mid].below(v) {
            lemma_bisect_range(bounds, v, mid + 1, high);
        } else {
            lemma_bisect_range(bounds, v, low, mid);
        }
    }
}

/// There are no more bins than boundaries and one.
pub proof fn lemma_bin_range(bounds: Seq<F32>, v: F32)
    ensures
        0 <= bin_index(bounds, v) <= bounds.len(),
{
    lemma_bisect_range(bounds, v, 0, bounds.len() as int);
}

proof fn lemma_bisect(bounds: Seq<F32>, v: F32, low: int, high: int)
    requires
        ascending(bounds),
        0 <= low <= high <= bounds.len(),
        forall|j: int| 0 <= j < low ==> (#[trigger] bounds[j]).below(v),
        forall|j: int| high <= j < bounds.len() ==> !(#[trigger] bounds[j]).below(v),
    ensures
        forall|j: int|
            0 <= j < bounds.len() ==> ((#[trigger] bounds[j]).below(v) <==> j < bisect(
                bounds,
                v,
                low,
                high,
            )),
    decreases high - low,
{
    if low < high {
        let mid = (low + high) / 2;
        if bounds[mid].below(v) {
            lemma_bisect(bounds, v, mid + 1, high);
        } else {
            lemma_bisect(bounds, v, low, mid);
        }
    }
}

/// A value lies in a bin above `t` exactly when it is above boundary `t`.
pub proof fn lemma_bin_splits(bounds: Seq<F32>, v: F32, t: int)
    requires
        ascending(bounds),
        0 <= t < bounds.len(),
    ensures
        bin_index(bounds, v) > t <==> bounds[t].below(v),
{
    lemma_bisect(bounds, v, 0, bounds.len() as int);
}

/// The bin of the value `v`, by bisection.
pub fn find_bin(bounds: &[F32], v: F32) -> (r: usize)
    ensures
        r == bin_index(bounds@, v),
        r <= bounds@.len(),
        ascending(bounds@) ==> forall|j: int|
            0 <= j < bounds@.len() ==> ((#[trigger] bounds@[j]).below(v) <==> j < r),
{
    let mut low: usize = 0;
    let mut high: usize = bounds.len();
    while low < high
        invariant
            low <= high <= bounds@.len(),
            bisect(bounds@, v, low as int, high as int) == bin_index(bounds@, v),
        decreases high - low,
    {
        let mid: usize = low + (high - low) / 2;
        if bounds[mid].less(v) {
            low = mid + 1;
        } else {
            high = mid;
        }
    }
    proof {
        if ascending(bounds@) {
            lemma_bisect(bounds@, v, 0, bounds@.len() as int);
        }
    }
    low
}

/// The bin of the value at position `i` of a row-major matrix.
fn bin_at(x: &[F32], i: usize, nf: usize, table: &[F32], nb1: usize) -> (b: u8)
    requires
        i < x@.len(),
        nf > 0,
        table@.len() == nf * nb1,
        nb1 <= 255,
    ensures
        b == bin_index(bounds_of(table@, i as int % nf as int, nb1 as int), x@[i as int]) as u8,
        b <= nb1,
{
    let f: usize = i % nf;
    assert(table.len() == nf * nb1);
    assert(0 <= f * nb1 && f * nb1 + nb1 <= nf * nb1) by (nonlinear_arith)
        requires
            0 <= f < nf,
            nb1 >= 0,
    ;
    find_bin(slice_subrange(table, f * nb1, f * nb1 + nb1), x[i]) as u8
}

/// The bins of all values of a row-major matrix with `nf` columns.
pub fn bin_matrix(x: &[F32], nf: usize, table: &[F32], nb1: usize) -> (bins: Vec<u8>)
    requires
        nf > 0,
        table@.len() == nf * nb1,
        nb1 <= 255,
    ensures
        bins@ == bins_of(x@, table@, nf as int, nb1 as int),
        forall|i: int| 0 <= i < bins@.len() ==> #[trigger] bins@[i] <= nb1,
{
    let bins: Vec<u8> = par_map(
        x.len(),
        |i: usize| -> (b: u8)
            requires
                i < x@.len(),
                nf > 0,
                table@.len() == nf * nb1,
                nb1 <= 255,
            ensures
                b == bin_index(bounds_of(table@, i as int % nf as int, nb1 as int), x@[i as int]) as u8,
                b <= nb1
            { bin_at(x, i, nf, table, nb1) },
    );
    assert(bins@ =~= bins_of(x@, table@, nf as int, nb1 as int));
    bins
}

} // verus!
