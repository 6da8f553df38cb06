//! What the quantiles of the normal distribution that hessians are clamped by satisfy.

use vstd::prelude::*;

use crate::arith::difference64;
use crate::arith::logarithm64;
use crate::arith::product64;
use crate::arith::root64;
use crate::arith::Arith;
use crate::float::F64;
use crate::float::HALF64;
use crate::float::ONE64;
use crate::gpu::setup::central_denominator;
use crate::gpu::setup::central_numerator;
use crate::gpu::setup::normal_quantile;
use crate::gpu::setup::polynomial;
use crate::gpu::setup::tail_denominator;
use crate::gpu::setup::tail_numerator;
use crate::gpu::setup::LOWER_TAIL64;
use crate::gpu::setup::MINUS_TWO64;
use crate::gpu::setup::UPPER_TAIL64;
use crate::reals::faithful;
use crate::reals::fits64;
use crate::reals::lemma_constants;
use crate::reals::lemma_difference64;
use crate::reals::lemma_order64;
use crate::reals::lemma_product64;
use crate::reals::lemma_quotient64;
use crate::reals::lemma_sign64;
use crate::reals::lemma_sum64;
use crate::reals::lemma_unique64;

verus! {

/// A polynomial at zero is its last coefficient.
proof fn lemma_constant_term<A: Arith>(coefs: Seq<u64>, x: F64, k: nat)
    requires
        faithful::<A>(),
        x.means(0real),
        1 <= k <= coefs.len(),
        forall|i: int| 0 <= i < coefs.len() ==> (F64 { bits: #[trigger] coefs[i] }).finite(),
    ensures
        polynomial::<A>(coefs, x, k).means((F64 { bits: coefs[k - 1] }).amount()),
    decreases k,
{
    let last = F64 { bits: coefs[k - 1] };
    assert(last.means(last.amount()));
    if k > 1 {
        let v = polynomial::<A>(coefs, x, (k - 1) as nat);
        lemma_constant_term::<A>(coefs, x, (k - 1) as nat);
        let a = v.amount();
        assert(a * 0real == 0real) by (nonlinear_arith);
        assert(x.means(a * x.amount()));
        lemma_product64::<A>(v, x);
        assert(last.means(product64::<A>(v, x).amount() + last.amount()));
        lemma_sum64::<A>(product64::<A>(v, x), last);
    }
}

/// The median of the normal distribution is zero.
pub proof fn lemma_median<A: Arith>(p: F64)
    requires
        faithful::<A>(),
        p.means(1real / 2real),
    ensures
        normal_quantile::<A>(p).means(0real),
{
    lemma_constants();
    let zero = F64 { bits: 0 };
    let half = F64 { bits: HALF64 };
    lemma_unique64(p, half);
    assert(zero.means(p.amount() - half.amount()));
    lemma_difference64::<A>(p, half);
    let q = difference64::<A>(p, half);
    assert(zero.means(q.amount() * q.amount()));
    lemma_product64::<A>(q, q);
    let r = product64::<A>(q, q);
    let top = central_numerator();
    let under = central_denominator();
    assert forall|i: int| 0 <= i < top.len() implies (F64 { bits: #[trigger] top[i] }).finite() by {
        assert(i == 0 || i == 1 || i == 2 || i == 3 || i == 4 || i == 5);
    }
    assert forall|i: int| 0 <= i < under.len() implies (F64 {
        bits: #[trigger] under[i],
    }).finite() by {
        assert(i == 0 || i == 1 || i == 2 || i == 3 || i == 4 || i == 5);
    }
    lemma_constant_term::<A>(top, r, 6);
    lemma_constant_term::<A>(under, r, 6);
    let t = polynomial::<A>(top, r, 6);
    let u = polynomial::<A>(under, r, 6);
    let x = t.amount();
    assert(x * 0real == 0real) by (nonlinear_arith);
    assert(zero.means(x * q.amount()));
    lemma_product64::<A>(t, q);
    assert(zero.means(product64::<A>(t, q).amount() / u.amount()));
    lemma_quotient64::<A>(product64::<A>(t, q), u);
}

/// The quotient that a quantile in a tail comes from.
pub open spec fn tail_parts<A: Arith>(p: F64) -> (F64, F64) {
    let q = root64::<A>(product64::<A>(F64 { bits: MINUS_TWO64 }, logarithm64::<A>(p)));
    (polynomial::<A>(tail_numerator(), q, 6), polynomial::<A>(tail_denominator(), q, 5))
}

/// The normal distribution is symmetric: the quantiles of two chances that make one together, in
/// the tails, are opposite.
pub proof fn lemma_mirrored_tails<A: Arith>(p: F64, r: F64)
    requires
        faithful::<A>(),
        p.finite(),
        r.finite(),
        p.amount() > 0real,
        p.amount() + r.amount() == 1real,
        p.below(F64 { bits: LOWER_TAIL64 }),
        (F64 { bits: UPPER_TAIL64 }).below(r),
        tail_parts::<A>(p).0.finite(),
        tail_parts::<A>(p).1.finite(),
        tail_parts::<A>(p).1.amount() != 0real,
        fits64(tail_parts::<A>(p).0.amount() / tail_parts::<A>(p).1.amount()),
    ensures
        normal_quantile::<A>(p).finite(),
        normal_quantile::<A>(r).means(-normal_quantile::<A>(p).amount()),
{
    lemma_constants();
    let one = F64 { bits: ONE64 };
    let lower = F64 { bits: LOWER_TAIL64 };
    let upper = F64 { bits: UPPER_TAIL64 };
    assert(p.means(one.amount() - r.amount()));
    lemma_difference64::<A>(one, r);
    lemma_unique64(difference64::<A>(one, r), p);
    assert(lower.finite() && upper.finite());
    assert(lower.at_most(upper));
    lemma_order64(lower, upper);
    lemma_order64(r, lower);
    lemma_order64(r, upper);
    lemma_order64(upper, r);
    let (n, d) = tail_parts::<A>(p);
    lemma_quotient64::<A>(n, d);
    lemma_sign64(n);
    let x = n.amount();
    let y = d.amount();
    assert((-x) / y == -(x / y)) by (nonlinear_arith)
        requires
            y != 0real,
    ;
    let v = normal_quantile::<A>(p);
    lemma_sign64(v);
    assert(v.opposite().means(n.opposite().amount() / d.amount()));
    lemma_quotient64::<A>(n.opposite(), d);
}

/// The distance of a chance from one half, its square, and the polynomials of the square.
pub open spec fn central_parts<A: Arith>(p: F64) -> (F64, F64, F64) {
    let q = difference64::<A>(p, F64 { bits: HALF64 });
    let r = product64::<A>(q, q);
    (
        q,
        polynomial::<A>(central_numerator(), r, 6),
        polynomial::<A>(central_denominator(), r, 6),
    )
}

/// The normal distribution is symmetric: the quantiles of two chances that make one together,
/// between the tails, are opposite.
pub proof fn lemma_mirrored_centre<A: Arith>(p: F64, r: F64)
    requires
        faithful::<A>(),
        p.finite(),
        r.finite(),
        p.amount() != 1real / 2real,
        p.amount() + r.amount() == 1real,
        !p.below(F64 { bits: LOWER_TAIL64 }),
        p.at_most(F64 { bits: UPPER_TAIL64 }),
        !r.below(F64 { bits: LOWER_TAIL64 }),
        r.at_most(F64 { bits: UPPER_TAIL64 }),
        fits64(p.amount() - 1real / 2real),
        fits64((p.amount() - 1real / 2real) * (p.amount() - 1real / 2real)),
        ({
            let (q, n, d) = central_parts::<A>(p);
            &&& n.finite()
            &&& d.finite()
            &&& d.amount() != 0real
            &&& fits64(n.amount() * q.amount())
            &&& fits64(n.amount() * q.amount() / d.amount())
        }),
    ensures
        normal_quantile::<A>(p).finite(),
        normal_quantile::<A>(r).means(-normal_quantile::<A>(p).amount()),
{
    lemma_constants();
    let half = F64 { bits: HALF64 };
    lemma_difference64::<A>(p, half);
    let (q, n, d) = central_parts::<A>(p);
    lemma_sign64(q);
    assert(q.opposite().means(r.amount() - half.amount()));
    lemma_difference64::<A>(r, half);
    let m = difference64::<A>(r, half);
    lemma_unique64(m, q.opposite());
    let a = q.amount();
    assert((-a) * (-a) == a * a && (a != 0real ==> a * a != 0real)) by (nonlinear_arith);
    lemma_product64::<A>(q, q);
    lemma_product64::<A>(m, m);
    lemma_unique64(product64::<A>(q, q), product64::<A>(m, m));
    lemma_product64::<A>(n, q);
    let x = n.amount();
    let y = d.amount();
    assert(x * (-a) == -(x * a)) by (nonlinear_arith);
    lemma_sign64(product64::<A>(n, q));
    assert(product64::<A>(n, q).opposite().means(x * m.amount()));
    lemma_product64::<A>(n, m);
    lemma_quotient64::<A>(product64::<A>(n, q), d);
    let z = x * a;
    assert((-z) / y == -(z / y)) by (nonlinear_arith)
        requires
            y != 0real,
    ;
    let v = normal_quantile::<A>(p);
    lemma_sign64(v);
    assert(v.opposite().means(product64::<A>(n, m).amount() / d.amount()));
    lemma_quotient64::<A>(product64::<A>(n, m), d);
}

} // verus!
