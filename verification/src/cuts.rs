//! What bin boundaries cut apart.

use vstd::prelude::*;

use crate::arith::counted64;
use crate::arith::product32;
use crate::arith::product64;
use crate::arith::quotient64;
use crate::arith::sum32;
use crate::arith::Arith;
use crate::binning::ascending;
use crate::binning::bin_index;
use crate::binning::bounds_of;
use crate::binning::lemma_bin_splits;
use crate::data::boundaries_of;
use crate::data::distinct;
use crate::data::feature_bounds;
use crate::data::lemma_feature_bounds_ascend;
use crate::data::midpoint;
use crate::data::midpoints;
use crate::data::midpoints_monotone;
use crate::data::quantile;
use crate::data::quantile_bound;
use crate::data::sample_of;
use crate::data::sample_stride;
use crate::float::F32;
use crate::float::F64;
use crate::float::HALF32;
use crate::order::lemma_order_covers;
use crate::order::lemma_order_exists;
use crate::order::lemma_sorted_ascends;
use crate::order::order_of;
use crate::order::sorted;
use crate::reals::faithful;
use crate::reals::fits32;
use crate::reals::fits64;
use crate::reals::lemma_constants;
use crate::reals::lemma_counted64;
use crate::reals::lemma_order32;
use crate::reals::lemma_product32;
use crate::reals::lemma_product64;
use crate::reals::lemma_quotient64;
use crate::reals::lemma_sum32;
use crate::rounding::lemma_nearest_count;
use crate::sums::counts_fit64;
use crate::sums::lemma_count_fits;

verus! {

/// Numbers can be added and halved without rounding.
pub open spec fn halvable(a: F32, b: F32) -> bool {
    &&& a.finite()
    &&& b.finite()
    &&& fits32(a.amount() + b.amount())
    &&& fits32((a.amount() + b.amount()) / 2real)
}

/// A midpoint is as far from the one number as from the other, and between them.
pub proof fn lemma_halfway<A: Arith>(a: F32, b: F32)
    requires
        faithful::<A>(),
        halvable(a, b),
    ensures
        midpoint::<A>(a, b).finite(),
        midpoint::<A>(a, b).amount() - a.amount() == b.amount() - midpoint::<A>(a, b).amount(),
        a.below(b) ==> a.below(midpoint::<A>(a, b)) && midpoint::<A>(a, b).below(b),
{
    lemma_constants();
    lemma_sum32::<A>(a, b);
    let s = sum32::<A>(a, b);
    let half = F32 { bits: HALF32 };
    assert(1real / 2real * s.amount() == s.amount() / 2real);
    lemma_product32::<A>(half, s);
    let m = midpoint::<A>(a, b);
    lemma_order32(a, b);
    lemma_order32(a, m);
    lemma_order32(m, b);
}

/// Leaving out repeated numbers leaves one that equals each of them, and no two that are equal.
proof fn lemma_distinct_values(s: Seq<F32>, k: nat)
    requires
        k <= s.len(),
        ascending(s),
    ensures
        forall|i: int|
            #![trigger s[i]]
            0 <= i < k ==> exists|j: int|
                0 <= j < distinct(s, k).len() && (#[trigger] distinct(s, k)[j]).equals(s[i]),
        forall|i: int, j: int|
            0 <= i < j < distinct(s, k).len() ==> (#[trigger] distinct(s, k)[i]).below(
                #[trigger] distinct(s, k)[j],
            ),
        k > 0 ==> distinct(s, k).len() > 0 && distinct(s, k).last().equals(s[k - 1]),
    decreases k,
{
    if k > 0 {
        let low = (k - 1) as nat;
        lemma_distinct_values(s, low);
        let before = distinct(s, low);
        let d = distinct(s, k);
        let v = s[k - 1];
        assert(v.at_most(v));
        if before.len() > 0 {
            assert(s[k - 2].at_most(v));
        }
        assert forall|i: int| #![trigger s[i]] 0 <= i < k implies exists|j: int|
            0 <= j < d.len() && (#[trigger] d[j]).equals(s[i]) by {
            if i < low {
                let j = choose|j: int|
                    0 <= j < before.len() && (#[trigger] before[j]).equals(s[i]);
                assert(d[j] == before[j]);
            } else {
                assert(d[d.len() - 1].equals(v));
            }
        }
        assert forall|i: int, j: int| 0 <= i < j < d.len() implies (#[trigger] d[i]).below(
            #[trigger] d[j],
        ) by {
            if j < before.len() {
                assert(before[i].below(before[j]));
            } else {
                assert(before.last().below(v));
                assert(d[i] == before[i]);
                if i < before.len() - 1 {
                    assert(before[i].below(before[before.len() - 1]));
                }
            }
        }
    }
}

/// Every value is among the sorted ones.
proof fn lemma_sorted_holds(vals: Seq<F32>, p: int)
    requires
        0 <= p < vals.len() <= usize::MAX,
    ensures
        exists|i: int| 0 <= i < vals.len() && #[trigger] sorted(vals)[i] == vals[p],
{
    lemma_order_exists(vals);
    lemma_order_covers(vals, order_of(vals), p);
    let i = choose|i: int| 0 <= i < order_of(vals).len() && order_of(vals)[i] == p as usize;
    assert(sorted(vals)[i] == vals[p]);
}

/// With boundaries between distinct values, and no more distinct values than bins, values that
/// differ are in different bins: the lower one in the lower bin.
pub proof fn lemma_values_apart<A: Arith>(vals: Seq<F32>, n_bins: int, p: int, q: int)
    requires
        faithful::<A>(),
        n_bins >= 1,
        0 < vals.len() <= usize::MAX,
        0 <= p < vals.len(),
        0 <= q < vals.len(),
        forall|k: int| 0 <= k < vals.len() ==> (#[trigger] vals[k]).finite(),
        forall|i: int, j: int|
            0 <= i < vals.len() && 0 <= j < vals.len() ==> halvable(
                #[trigger] vals[i],
                #[trigger] vals[j],
            ),
        midpoints_monotone::<A>(vals),
        distinct(sorted(vals), vals.len()).len() <= n_bins,
        vals[p].below(vals[q]),
    ensures
        bin_index(feature_bounds::<A>(vals, n_bins, true), vals[p]) < bin_index(
            feature_bounds::<A>(vals, n_bins, true),
            vals[q],
        ),
{
    let s = sorted(vals);
    let n = vals.len();
    let bounds = feature_bounds::<A>(vals, n_bins, true);
    assert forall|k: int| 0 <= k < vals.len() implies !(#[trigger] vals[k]).nan() by {
        assert(vals[k].finite());
    }
    lemma_sorted_ascends(vals);
    lemma_feature_bounds_ascend::<A>(vals, n_bins, true);
    lemma_distinct_values(s, n);
    let d = distinct(s, n);
    lemma_sorted_holds(vals, p);
    lemma_sorted_holds(vals, q);
    let sp = choose|i: int| 0 <= i < n && #[trigger] s[i] == vals[p];
    let sq = choose|i: int| 0 <= i < n && #[trigger] s[i] == vals[q];
    assert(s[sp] == vals[p] && s[sq] == vals[q]);
    let i = choose|j: int| 0 <= j < d.len() && (#[trigger] d[j]).equals(s[sp]);
    let k = choose|j: int| 0 <= j < d.len() && (#[trigger] d[j]).equals(s[sq]);
    assert(i < k) by {
        if k < i {
            assert(d[k].below(d[i]));
        }
    }
    assert(d[i].below(d[i + 1]));
    if i + 1 < k {
        assert(d[i + 1].below(d[k]));
    }
    lemma_among(s, n, i);
    lemma_among(s, n, i + 1);
    assert(vals.contains(d[i]) && vals.contains(d[i + 1]));
    let a = choose|a: int| 0 <= a < vals.len() && vals[a] == d[i];
    let b = choose|b: int| 0 <= b < vals.len() && vals[b] == d[i + 1];
    assert(halvable(vals[a], vals[b]));
    lemma_halfway::<A>(d[i], d[i + 1]);
    assert(midpoints::<A>(d)[i] == midpoint::<A>(d[i], d[i + 1]));
    assert(bounds[i] == midpoint::<A>(d[i], d[i + 1]));
    lemma_bin_splits(bounds, vals[p], i);
    lemma_bin_splits(bounds, vals[q], i);
}

/// What is left after leaving out repeated numbers was there before.
proof fn lemma_among(s: Seq<F32>, k: nat, i: int)
    requires
        k <= s.len(),
        0 <= i < distinct(s, k).len(),
    ensures
        s.contains(distinct(s, k)[i]),
    decreases k,
{
    if k > 0 {
        let before = distinct(s, (k - 1) as nat);
        if i < before.len() {
            lemma_among(s, (k - 1) as nat, i);
        } else {
            assert(distinct(s, k)[i] == s[k - 1]);
        }
    }
}

/// The steps towards the place of a quantile can be written down.
pub open spec fn rank_fits(last: int, n_bins: int, j: int) -> bool {
    let rank = ((j + 1) as real) / (n_bins as real);
    &&& fits64(rank)
    &&& fits64(rank * (last as real))
}

/// The place that the quantile of rank `j + 1` out of `n_bins` has: the nearest to that share of
/// the way from the first to the last of `m` values.
pub open spec fn at_rank(place: int, m: nat, n_bins: int, j: int) -> bool {
    &&& 0 <= place < m
    &&& -n_bins <= 2 * (place * n_bins - (j + 1) * (m - 1)) <= n_bins
}

proof fn lemma_quantile<A: Arith>(s: Seq<F32>, n_bins: int, j: int)
    requires
        faithful::<A>(),
        0 < s.len() < usize::MAX,
        0 <= j < n_bins - 1,
        n_bins <= 256,
        counts_fit64((s.len() + n_bins) as nat),
        rank_fits(s.len() - 1, n_bins, j),
    ensures
        exists|place: int|
            at_rank(place, s.len(), n_bins, j) && quantile::<A>(s, n_bins, j)
                == #[trigger] s[place],
{
    let last = s.len() - 1;
    let all = (s.len() + n_bins) as nat;
    lemma_count_fits(all, (j + 1) as nat);
    lemma_count_fits(all, n_bins as nat);
    lemma_count_fits(all, last as nat);
    lemma_counted64::<A>((j + 1) as u64);
    lemma_counted64::<A>(n_bins as u64);
    lemma_counted64::<A>(last as u64);
    let a = counted64::<A>((j + 1) as u64);
    let b = counted64::<A>(n_bins as u64);
    let c = counted64::<A>(last as u64);
    lemma_quotient64::<A>(a, b);
    let rank = quotient64::<A>(a, b);
    lemma_product64::<A>(rank, c);
    let v = product64::<A>(rank, c);
    let x = a.amount();
    let y = b.amount();
    let z = c.amount();
    assert(0real <= (x / y) * z && (x / y) * z <= z && (x / y) * z * y == x * z)
        by (nonlinear_arith)
        requires
            0real <= x,
            x <= y,
            0real < y,
            0real <= z,
    ;
    let w = v.amount();
    let place = v.nearest();
    lemma_place_bound(v, last);
    lemma_nearest_count(v);
    let p = place as real;
    assert(2real * (p * y - x * z) <= y && -y <= 2real * (p * y - x * z)) by (nonlinear_arith)
        requires
            p - 1real / 2real <= w,
            w < p + 1real / 2real,
            w * y == x * z,
            0real < y,
    ;
    assert((place * n_bins) as real == p * y) by (nonlinear_arith)
        requires
            p == place as real,
            y == n_bins as real,
    ;
    assert(((j + 1) * last) as real == x * z) by (nonlinear_arith)
        requires
            x == (j + 1) as real,
            z == last as real,
    ;
    assert(at_rank(place, s.len(), n_bins, j));
    assert(quantile::<A>(s, n_bins, j) == s[place]);
}

/// A number that is not above a count is nearest to no higher one.
proof fn lemma_place_bound(v: F64, last: int)
    requires
        v.finite(),
        0real <= v.amount() <= last as real,
        0 <= last < usize::MAX,
    ensures
        v.nearest() <= last,
{
    if v.nearest() == usize::MAX {
        crate::rounding::lemma_nearest_above(v);
    } else {
        lemma_nearest_count(v);
    }
}

/// Higher ranks do not have lower places.
proof fn lemma_ranks_ascend<A: Arith>(s: Seq<F32>, n_bins: int, j: nat)
    requires
        faithful::<A>(),
        0 < s.len() < usize::MAX,
        ascending(s),
        j < n_bins - 1,
        n_bins <= 256,
        counts_fit64((s.len() + n_bins) as nat),
        forall|k: int| 0 <= k <= j ==> #[trigger] rank_fits(s.len() - 1, n_bins, k),
    ensures
        exists|place: int|
            at_rank(place, s.len(), n_bins, j as int) && quantile_bound::<A>(s, n_bins, j).equals(
                #[trigger] s[place],
            ),
        !quantile_bound::<A>(s, n_bins, j).nan(),
    decreases j,
{
    assert(rank_fits(s.len() - 1, n_bins, j as int));
    lemma_quantile::<A>(s, n_bins, j as int);
    let q = quantile::<A>(s, n_bins, j as int);
    let p = choose|place: int|
        at_rank(place, s.len(), n_bins, j as int) && q == #[trigger] s[place];
    assert(s[p].at_most(s[p]));
    assert(q.equals(s[p]));
    if j > 0 {
        let low = (j - 1) as nat;
        lemma_ranks_ascend::<A>(s, n_bins, low);
        let before = quantile_bound::<A>(s, n_bins, low);
        let o = choose|place: int|
            at_rank(place, s.len(), n_bins, low as int) && before.equals(#[trigger] s[place]);
        let m = s.len() - 1;
        if p < o {
            lemma_tied_ranks(p, o, m, n_bins, j as int);
            assert(s[p].at_most(s[o]));
            if q.at_most(before) && !before.equals(q) {
                assert(at_rank(o, s.len(), n_bins, j as int));
            }
            if q.at_most(before) {
                assert(quantile_bound::<A>(s, n_bins, j) == before);
                assert(at_rank(o, s.len(), n_bins, j as int));
            }
        } else {
            assert(s[o].at_most(s[p]));
        }
    }
}

/// Where a lower place is nearest to a higher rank, both ranks are halfway between the places.
proof fn lemma_tied_ranks(p: int, o: int, m: int, n_bins: int, j: int)
    requires
        0 <= m,
        0 < n_bins,
        p < o <= m,
        -n_bins <= 2 * (p * n_bins - (j + 1) * m) <= n_bins,
        -n_bins <= 2 * (o * n_bins - j * m) <= n_bins,
    ensures
        -n_bins <= 2 * (o * n_bins - (j + 1) * m) <= n_bins,
{
    let a = p * n_bins;
    let b = o * n_bins;
    let c = j * m;
    assert((j + 1) * m == c + m) by (nonlinear_arith)
        requires
            c == j * m,
    ;
    assert(a + n_bins <= b) by (nonlinear_arith)
        requires
            p < o,
            a == p * n_bins,
            b == o * n_bins,
            0 < n_bins,
    ;
}

/// Boundaries at quantiles are values of the sample, each at the place that its rank has: they
/// cut the sorted sample into parts that are as large as each other, to within a value.
pub proof fn lemma_even_parts<A: Arith>(vals: Seq<F32>, n_bins: int, j: int)
    requires
        faithful::<A>(),
        0 < vals.len() < usize::MAX,
        forall|k: int| 0 <= k < vals.len() ==> !(#[trigger] vals[k]).nan(),
        0 <= j < n_bins - 1,
        n_bins <= 256,
        counts_fit64((vals.len() + n_bins) as nat),
        forall|k: int| 0 <= k <= j ==> #[trigger] rank_fits(vals.len() - 1, n_bins, k),
    ensures
        exists|place: int|
            at_rank(place, vals.len(), n_bins, j) && feature_bounds::<A>(
                vals,
                n_bins,
                false,
            )[j].equals(#[trigger] sorted(vals)[place]),
{
    lemma_sorted_ascends(vals);
    lemma_ranks_ascend::<A>(sorted(vals), n_bins, j as nat);
    assert(feature_bounds::<A>(vals, n_bins, false)[j] == quantile_bound::<A>(
        sorted(vals),
        n_bins,
        j as nat,
    ));
}

/// The boundaries of a feature are those of its own values, in every row of the sample.
pub proof fn lemma_own_boundaries<A: Arith>(
    x: Seq<F32>,
    n: int,
    nf: int,
    n_bins: int,
    sample: int,
    unique: bool,
    f: int,
    k: int,
)
    requires
        2 <= n_bins,
        0 < n,
        0 <= f < nf,
        x.len() == n * nf,
        0 <= k < sample_of(x, n, nf, f, sample_stride(n, sample)).len(),
    ensures
        ({
            let st = sample_stride(n, sample);
            let vals = sample_of(x, n, nf, f, st);
            &&& 0 <= k * st < n
            &&& vals[k] == x[(k * st) * nf + f]
            &&& bounds_of(
                boundaries_of::<A>(x, n, nf, n_bins, sample, unique),
                f,
                n_bins - 1,
            ) == feature_bounds::<A>(vals, n_bins, unique)
        }),
{
    let st = sample_stride(n, sample);
    let vals = sample_of(x, n, nf, f, st);
    let nb1 = n_bins - 1;
    assert(0 <= k * st < n) by (nonlinear_arith)
        requires
            st > 0,
            0 <= k < (n + st - 1) / st,
    ;
    assert(0 <= f * nb1 && f * nb1 + nb1 <= nf * nb1) by (nonlinear_arith)
        requires
            0 <= f < nf,
            nb1 >= 0,
    ;
    let all = boundaries_of::<A>(x, n, nf, n_bins, sample, unique);
    let own = bounds_of(all, f, nb1);
    let want = feature_bounds::<A>(vals, n_bins, unique);
    assert forall|j: int| 0 <= j < nb1 implies own[j] == want[j] by {
        let i = f * nb1 + j;
        vstd::arithmetic::div_mod::lemma_fundamental_div_mod_converse(i, nb1, f, j);
    }
    assert(own =~= want);
}

/// A sample has at least as many rows as are asked for, where there are as many, and every row
/// where there are fewer than twice as many.
pub proof fn lemma_sample_size(n: int, sample: int)
    requires
        0 < n,
        0 < sample,
    ensures
        ({
            let st = sample_stride(n, sample);
            let m = (n + st - 1) / st;
            &&& 1 <= st
            &&& sample <= n ==> sample <= m
            &&& n < 2 * sample ==> st == 1 && m == n
        }),
{
    let st = sample_stride(n, sample);
    let m = (n + st - 1) / st;
    let step = n / sample;
    vstd::arithmetic::div_mod::lemma_fundamental_div_mod(n, sample);
    vstd::arithmetic::div_mod::lemma_mod_bound(n, sample);
    assert(n < 2 * sample ==> step <= 1) by (nonlinear_arith)
        requires
            n == sample * step + n % sample,
            0 <= n % sample,
            0 < sample,
    ;
    if sample <= n {
        assert(sample * st <= n) by (nonlinear_arith)
            requires
                n == sample * step + n % sample,
                0 <= n % sample,
                0 < sample <= n,
                st == if step < 1 {
                    1
                } else {
                    step
                },
        ;
        vstd::arithmetic::div_mod::lemma_fundamental_div_mod(n + st - 1, st);
        vstd::arithmetic::div_mod::lemma_mod_bound(n + st - 1, st);
        assert(sample <= m) by (nonlinear_arith)
            requires
                n + st - 1 == st * m + (n + st - 1) % st,
                (n + st - 1) % st < st,
                sample * st <= n,
                0 < st,
        ;
    }
    if st == 1 {
        vstd::arithmetic::div_mod::lemma_fundamental_div_mod_converse(n, 1, n, 0);
        assert(n + st - 1 == n);
    }
}

} // verus!
