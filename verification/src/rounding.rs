//! What rounding a number to an integer does to what it stands for.

use vstd::arithmetic::div_mod::lemma_fundamental_div_mod;
use vstd::arithmetic::div_mod::lemma_mod_bound;
use vstd::arithmetic::power2::lemma_pow2_pos;
use vstd::arithmetic::power2::lemma_pow2_unfold;
use vstd::arithmetic::power2::pow2;
use vstd::prelude::*;

use crate::encoding::category;
use crate::float::scaled_floor;
use crate::float::scaled_nearest;
use crate::float::F32;
use crate::float::F64;
use crate::reals::lemma_sign32;
use crate::reals::twos;

verus! {

/// The integer nearest to a scaled significand is half a unit away at most, and a half goes up.
proof fn lemma_nearest(s: nat, e: int)
    ensures
        ({
            let near = scaled_nearest(s, e) as real;
            let v = (s as real) * twos(e);
            near - 1real / 2real <= v < near + 1real / 2real
        }),
{
    let near = scaled_nearest(s, e);
    if e >= 0 {
        assert((s as real) * (pow2(e as nat) as real) == (s * pow2(e as nat)) as real)
            by (nonlinear_arith);
    } else {
        let n = (-e) as nat;
        let half = pow2((n - 1) as nat) as int;
        let whole = pow2(n) as int;
        lemma_pow2_pos((n - 1) as nat);
        lemma_pow2_unfold(n);
        let a = s + half;
        lemma_fundamental_div_mod(a, whole);
        lemma_mod_bound(a, whole);
        let q = near as int;
        assert(near == (s + pow2((n - 1) as nat)) / pow2(n));
        assert(q == a / whole);
        let x = s as real;
        let w = whole as real;
        let r = q as real;
        assert(whole * q <= s + half < whole * q + whole);
        assert(w * r == (whole * q) as real) by (nonlinear_arith)
            requires
                w == whole as real,
                r == q as real,
        ;
        let h = half as real;
        assert(w == 2real * h);
        assert(r - 1real / 2real <= x * (1real / w) < r + 1real / 2real) by (nonlinear_arith)
            requires
                w * r <= x + h,
                x + h < w * r + w,
                w == 2real * h,
                h > 0real,
        ;
    }
}

/// The integer part of a scaled significand is less than a unit below it.
proof fn lemma_floor(s: nat, e: int)
    ensures
        ({
            let floor = scaled_floor(s, e) as real;
            let v = (s as real) * twos(e);
            floor <= v < floor + 1real
        }),
{
    let floor = scaled_floor(s, e);
    if e >= 0 {
        assert((s as real) * (pow2(e as nat) as real) == (s * pow2(e as nat)) as real)
            by (nonlinear_arith);
    } else {
        let n = (-e) as nat;
        let whole = pow2(n) as int;
        lemma_pow2_pos(n);
        lemma_fundamental_div_mod(s as int, whole);
        lemma_mod_bound(s as int, whole);
        let q = floor as int;
        assert(floor == s / pow2(n));
        assert(q == s as int / whole);
        let x = s as real;
        let w = whole as real;
        let r = q as real;
        assert(whole * q <= s < whole * q + whole);
        assert(w * r == (whole * q) as real) by (nonlinear_arith)
            requires
                w == whole as real,
                r == q as real,
        ;
        assert(r <= x * (1real / w) < r + 1real) by (nonlinear_arith)
            requires
                w * r <= x,
                x < w * r + w,
                w > 0real,
        ;
    }
}

/// A number is its significand, scaled.
proof fn lemma_scaled32(a: F32)
    ensures
        a.absolute().amount() == (a.significand() as real) * twos(a.exponent()),
{
    lemma_sign32(a);
}

/// A number is its significand, scaled.
proof fn lemma_scaled64(a: F64)
    ensures
        a.absolute().amount() == (a.significand() as real) * twos(a.exponent()),
{
}

/// Rounding to the nearest integer moves a number by half a unit at most, and a half away from
/// zero. Only numbers that no 64-bit integer is near to are moved further.
pub proof fn lemma_nearest_integer(a: F32)
    requires
        a.finite(),
        -0x7FFF_FFFF_FFFF_FFFF < a.nearest_i64() < 0x7FFF_FFFF_FFFF_FFFF,
    ensures
        ({
            let near = a.nearest_i64() as real;
            let v = a.amount();
            &&& near - 1real / 2real <= v <= near + 1real / 2real
            &&& 0real <= v ==> v < near + 1real / 2real && 0real <= near
            &&& v <= 0real ==> near - 1real / 2real < v && near <= 0real
        }),
{
    lemma_scaled32(a);
    lemma_sign32(a);
    lemma_nearest(a.significand(), a.exponent());
}

/// The integer part of a number that is not negative is less than a unit below it.
pub proof fn lemma_whole_part(a: F64)
    requires
        a.finite(),
        0real <= a.amount(),
        a.whole() < usize::MAX,
    ensures
        (a.whole() as real) <= a.amount(),
        a.amount() < (a.whole() as real) + 1real,
{
    lemma_scaled64(a);
    crate::reals::lemma_sign64(a);
    lemma_floor(a.significand(), a.exponent());
}

/// The nearest count of a number that is not negative is half a unit away at most, and a half
/// goes up.
pub proof fn lemma_nearest_count(a: F64)
    requires
        a.finite(),
        0real <= a.amount(),
        a.nearest() < usize::MAX,
    ensures
        (a.nearest() as real) - 1real / 2real <= a.amount(),
        a.amount() < (a.nearest() as real) + 1real / 2real,
{
    lemma_scaled64(a);
    crate::reals::lemma_sign64(a);
    lemma_nearest(a.significand(), a.exponent());
}

/// Codes of categories that are integers keep their categories apart, without hashing.
pub proof fn lemma_integer_codes(a: F32, k: int)
    requires
        -0x7FFF_FFFF_FFFF_FFFF < a.nearest_i64() < 0x7FFF_FFFF_FFFF_FFFF,
        a.means(k as real),
    ensures
        category(a, 0) == k,
{
    lemma_nearest_integer(a);
}

/// A number whose nearest count is the largest one is not far below it.
pub proof fn lemma_nearest_above(a: F64)
    requires
        a.finite(),
        0real <= a.amount(),
        a.nearest() == usize::MAX,
    ensures
        (usize::MAX as real) - 1real / 2real <= a.amount(),
{
    lemma_scaled64(a);
    crate::reals::lemma_sign64(a);
    lemma_nearest(a.significand(), a.exponent());
}

} // verus!
