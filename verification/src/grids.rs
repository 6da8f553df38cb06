//! Multiples of a unit, whose sums are not rounded.

use vstd::prelude::*;

use crate::arith::difference32;
use crate::arith::sum32;
use crate::arith::widened;
use crate::arith::Arith;
use crate::exact::Scale;
use crate::float::F32;
use crate::reals::faithful;
use crate::reals::fits32;
use crate::reals::fits64;
use crate::reals::lemma_constants;
use crate::reals::lemma_difference32;
use crate::reals::lemma_sum32;
use crate::reals::lemma_widened;

verus! {

/// A number is `k` units.
pub open spec fn is_units(a: F32, unit: real, k: int) -> bool {
    a.amount() == (k as real) * unit
}

/// `k` units can be written in single precision.
pub open spec fn multiple_fits(unit: real, k: int) -> bool {
    fits32((k as real) * unit)
}

/// The multiples of a unit, up to `reach` of them, can be written in single precision.
pub open spec fn grid_fits(unit: real, reach: int) -> bool {
    &&& 0real < unit
    &&& 0 <= reach
    &&& forall|k: int| -reach <= k <= reach ==> #[trigger] multiple_fits(unit, k)
}

/// The multiples of a unit as numbers that are added without rounding.
pub open spec fn grid(unit: real, reach: int) -> Scale {
    Scale {
        whole: |a: F32| a.finite() && exists|k: int| #[trigger] is_units(a, unit, k),
        units: |a: F32| choose|k: int| #[trigger] is_units(a, unit, k),
        reach,
    }
}

/// A multiple of a unit is as many units as the grid says.
pub proof fn lemma_units(unit: real, reach: int, a: F32, k: int)
    requires
        0real < unit,
        a.finite(),
        is_units(a, unit, k),
    ensures
        (grid(unit, reach).whole)(a),
        (grid(unit, reach).units)(a) == k,
{
    let j = (grid(unit, reach).units)(a);
    assert(is_units(a, unit, j));
    let x = j as real;
    let y = k as real;
    assert(x == y) by (nonlinear_arith)
        requires
            x * unit == y * unit,
            unit > 0real,
    ;
}

/// What the grid says of a multiple of its unit.
pub proof fn lemma_amount(unit: real, reach: int, a: F32)
    requires
        (grid(unit, reach).whole)(a),
    ensures
        a.finite(),
        a.amount() == ((grid(unit, reach).units)(a) as real) * unit,
{
    let k = choose|k: int| #[trigger] is_units(a, unit, k);
    assert(is_units(a, unit, (grid(unit, reach).units)(a)));
}

/// Sums and differences on a grid are not rounded.
pub proof fn lemma_grid_exact<A: Arith>(unit: real, reach: int)
    requires
        faithful::<A>(),
        grid_fits(unit, reach),
    ensures
        grid(unit, reach).exact::<A>(),
{
    let s = grid(unit, reach);
    let zero = F32 { bits: 0 };
    lemma_constants();
    assert((0int as real) * unit == 0real) by (nonlinear_arith);
    lemma_units(unit, reach, zero, 0);
    assert forall|a: F32, b: F32| #[trigger]
        s.meets(a, b) && -s.reach <= (s.units)(a) + (s.units)(b) <= s.reach implies (s.whole)(
        sum32::<A>(a, b),
    ) && (s.units)(sum32::<A>(a, b)) == (s.units)(a) + (s.units)(b) by {
        lemma_amount(unit, reach, a);
        lemma_amount(unit, reach, b);
        let j = (s.units)(a);
        let k = (s.units)(b);
        assert(multiple_fits(unit, j + k));
        assert((j as real) * unit + (k as real) * unit == ((j + k) as real) * unit)
            by (nonlinear_arith);
        lemma_sum32::<A>(a, b);
        lemma_units(unit, reach, sum32::<A>(a, b), j + k);
    }
    assert forall|a: F32, b: F32| #[trigger]
        s.meets(a, b) && -s.reach <= (s.units)(a) - (s.units)(b) <= s.reach implies (s.whole)(
        difference32::<A>(a, b),
    ) && (s.units)(difference32::<A>(a, b)) == (s.units)(a) - (s.units)(b) by {
        lemma_amount(unit, reach, a);
        lemma_amount(unit, reach, b);
        let j = (s.units)(a);
        let k = (s.units)(b);
        assert(multiple_fits(unit, j - k));
        assert((j as real) * unit - (k as real) * unit == ((j - k) as real) * unit)
            by (nonlinear_arith);
        lemma_difference32::<A>(a, b);
        lemma_units(unit, reach, difference32::<A>(a, b), j - k);
    }
}

/// What can be written in single precision can be written in double precision.
pub proof fn lemma_fits_wider<A: Arith>(r: real)
    requires
        faithful::<A>(),
        fits32(r),
    ensures
        fits64(r),
{
    let a = choose|a: F32| a.means(r);
    lemma_widened::<A>(a);
    assert(widened::<A>(a).means(r));
}

} // verus!
