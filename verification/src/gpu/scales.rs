//! What histograms that are built as integers or in half precision hold.

use vstd::prelude::*;

use crate::arith::integral32;
use crate::arith::lengthened;
use crate::arith::product32;
use crate::arith::shortened;
use crate::arith::sum32;
use crate::arith::Arith;
use crate::float::F16;
use crate::float::F32;
use crate::gpu::hist::fixed_point;
use crate::gpu::hist::half_sum;
use crate::gpu::hist::half_sums;
use crate::gpu::hist::integer_sum;
use crate::gpu::hist::rescaled;
use crate::gpu::hist::shortened_all;
use crate::reals::faithful;
use crate::reals::fits16;
use crate::reals::fits32;
use crate::reals::lemma_constants;
use crate::reals::lemma_integral32;
use crate::reals::lemma_lengthened;
use crate::reals::lemma_product32;
use crate::reals::lemma_shortened;
use crate::reals::lemma_sum32;
use crate::rounding::lemma_nearest_integer;
use crate::sums::total;

verus! {

/// A value that is turned into an integer is the nearest one to the value times the scale.
pub proof fn lemma_fixed_point<A: Arith>(vals: Seq<F32>, scale: F32, i: int)
    requires
        faithful::<A>(),
        0 <= i < vals.len(),
        vals[i].finite(),
        scale.finite(),
        fits32(vals[i].amount() * scale.amount()),
        -0x7FFF_FFFF < product32::<A>(vals[i], scale).nearest_i64() < 0x7FFF_FFFF,
    ensures
        ({
            let off = (fixed_point::<A>(vals, scale)[i] as real) - vals[i].amount()
                * scale.amount();
            -(1real / 2real) <= off <= 1real / 2real
        }),
{
    lemma_product32::<A>(vals[i], scale);
    lemma_nearest_integer(product32::<A>(vals[i], scale));
}

/// What stands at place `i` of each replica.
pub open spec fn integers_at(a: Seq<i32>, stride: int, i: int) -> spec_fn(int) -> real {
    |r: int| a[r * stride + i] as real
}

/// What stands at place `i` of each replica.
pub open spec fn halves_at(a: Seq<F16>, stride: int, i: int) -> spec_fn(int) -> real {
    |r: int| a[r * stride + i].amount()
}

/// The first sums, up to `n` terms, can be written in single precision.
pub open spec fn totals_fit32(n: nat, f: spec_fn(int) -> real) -> bool {
    &&& forall|k: nat| k <= n ==> fits32(#[trigger] total(k, f))
    &&& forall|r: int| 0 <= r < n ==> fits32(#[trigger] f(r))
}

proof fn lemma_integer_sum<A: Arith>(a: Seq<i32>, stride: int, i: int, r: nat)
    requires
        faithful::<A>(),
        totals_fit32(r, integers_at(a, stride, i)),
    ensures
        integer_sum::<A>(a, stride, i, r).means(total(r, integers_at(a, stride, i))),
    decreases r,
{
    lemma_constants();
    if r > 0 {
        let f = integers_at(a, stride, i);
        lemma_integer_sum::<A>(a, stride, i, (r - 1) as nat);
        assert(fits32(f(r - 1)));
        assert(fits32(total(r, f)));
        let v = a[(r - 1) * stride + i];
        lemma_integral32::<A>(v);
        lemma_sum32::<A>(integer_sum::<A>(a, stride, i, (r - 1) as nat), integral32::<A>(v));
    }
}

/// A place of an integer histogram, scaled back, is the sum of its replicas divided by the scale
/// that the values were multiplied by.
pub proof fn lemma_rescaled<A: Arith>(
    a: Seq<i32>,
    replicas: nat,
    stride: nat,
    scale: real,
    inv_scale: F32,
    i: int,
)
    requires
        faithful::<A>(),
        0 <= i < stride,
        inv_scale.finite(),
        inv_scale.amount() * scale == 1real,
        totals_fit32(replicas, integers_at(a, stride as int, i)),
        fits32(total(replicas, integers_at(a, stride as int, i)) * inv_scale.amount()),
    ensures
        rescaled::<A>(a, replicas, stride, inv_scale)[i].finite(),
        rescaled::<A>(a, replicas, stride, inv_scale)[i].amount() * scale == total(
            replicas,
            integers_at(a, stride as int, i),
        ),
{
    lemma_integer_sum::<A>(a, stride as int, i, replicas);
    let sum = integer_sum::<A>(a, stride as int, i, replicas);
    lemma_product32::<A>(sum, inv_scale);
    let x = sum.amount();
    let y = inv_scale.amount();
    let v = rescaled::<A>(a, replicas, stride, inv_scale)[i].amount();
    assert(v * scale == x) by (nonlinear_arith)
        requires
            v == x * y,
            y * scale == 1real,
    ;
}

proof fn lemma_half_sum<A: Arith>(a: Seq<F16>, stride: int, i: int, r: nat)
    requires
        faithful::<A>(),
        totals_fit32(r, halves_at(a, stride, i)),
        forall|q: int| 0 <= q < r ==> a[#[trigger] (q * stride) + i].finite(),
    ensures
        half_sum::<A>(a, stride, i, r).means(total(r, halves_at(a, stride, i))),
    decreases r,
{
    lemma_constants();
    if r > 0 {
        let f = halves_at(a, stride, i);
        lemma_half_sum::<A>(a, stride, i, (r - 1) as nat);
        assert(fits32(total(r, f)));
        let v = a[((r - 1) * stride) + i];
        assert(v.finite());
        lemma_lengthened::<A>(v);
        lemma_sum32::<A>(half_sum::<A>(a, stride, i, (r - 1) as nat), lengthened::<A>(v));
    }
}

/// A place of a histogram in half precision is the sum of its replicas, and a value that can be
/// written in half precision keeps what it stands for.
pub proof fn lemma_halved<A: Arith>(
    a: Seq<F16>,
    replicas: nat,
    stride: nat,
    i: int,
    vals: Seq<F32>,
    k: int,
)
    requires
        faithful::<A>(),
        0 <= i < stride,
        totals_fit32(replicas, halves_at(a, stride as int, i)),
        forall|q: int| 0 <= q < replicas ==> a[#[trigger] (q * stride as int) + i].finite(),
        0 <= k < vals.len(),
        vals[k].finite(),
        fits16(vals[k].amount()),
    ensures
        half_sums::<A>(a, replicas, stride)[i].means(
            total(replicas, halves_at(a, stride as int, i)),
        ),
        shortened_all::<A>(vals)[k].means(vals[k].amount()),
{
    lemma_half_sum::<A>(a, stride as int, i, replicas);
    lemma_shortened::<A>(vals[k]);
}

} // verus!
