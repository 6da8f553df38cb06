//! The real numbers that floating-point numbers stand for, and what an arithmetic that rounds
//! as little as it can does with them.
//!
//! Laws on what the booster computes are stated over real numbers: they say what a result
//! amounts to wherever the steps towards it can be written down without rounding.

use vstd::arithmetic::power2::lemma2_to64;
use vstd::arithmetic::power2::lemma2_to64_rest;
use vstd::arithmetic::power2::lemma_pow2_pos;
use vstd::arithmetic::power2::lemma_pow2_unfold;
use vstd::arithmetic::power2::pow2;
use vstd::prelude::*;

use crate::arith::counted32;
use crate::arith::counted64;
use crate::arith::difference32;
use crate::arith::difference64;
use crate::arith::exponential32;
use crate::arith::exponential64;
use crate::arith::integral32;
use crate::arith::lengthened;
use crate::arith::logarithm32;
use crate::arith::logarithm64;
use crate::arith::narrowed;
use crate::arith::product32;
use crate::arith::product64;
use crate::arith::quotient32;
use crate::arith::quotient64;
use crate::arith::root32;
use crate::arith::root64;
use crate::arith::shortened;
use crate::arith::sum16;
use crate::arith::sum32;
use crate::arith::sum64;
use crate::arith::widened;
use crate::arith::Arith;
use crate::float::F16;
use crate::float::F32;
use crate::float::F64;
use crate::float::HALF32;
use crate::float::HALF64;
use crate::float::ONE32;
use crate::float::ONE64;
use crate::float::TWO64;

verus! {

/// Two to the power of `e`, a fraction where `e` is negative.
pub open spec fn twos(e: int) -> real {
    if e >= 0 {
        pow2(e as nat) as real
    } else {
        1real / (pow2((-e) as nat) as real)
    }
}

/// What a magnitude amounts to: the `field` lowest bits of it are a fraction, scaled by the
/// power of two that the others stand for. The least power is that of `least`.
pub open spec fn size_of(magnitude: int, field: int, least: int) -> real {
    let e = magnitude / field;
    let f = magnitude % field;
    if e == 0 {
        (f as real) * twos(least)
    } else {
        ((f + field) as real) * twos(least + e - 1)
    }
}

impl F32 {
    /// The number is neither infinite nor NaN.
    pub open spec fn finite(self) -> bool {
        self.magnitude() < 0x7F80_0000
    }

    /// The real number that a finite number stands for.
    pub open spec fn amount(self) -> real {
        let size = size_of(self.magnitude(), 0x80_0000, -149);
        if self.is_negative() {
            -size
        } else {
            size
        }
    }

    /// The number is finite and stands for `r`.
    pub open spec fn means(self, r: real) -> bool {
        self.finite() && self.amount() == r
    }
}

impl F64 {
    /// The number is neither infinite nor NaN.
    pub open spec fn finite(self) -> bool {
        self.magnitude() < 0x7FF0_0000_0000_0000
    }

    /// The real number that a finite number stands for.
    pub open spec fn amount(self) -> real {
        let size = size_of(self.magnitude(), 0x10_0000_0000_0000, -1074);
        if self.is_negative() {
            -size
        } else {
            size
        }
    }

    /// The number is finite and stands for `r`.
    pub open spec fn means(self, r: real) -> bool {
        self.finite() && self.amount() == r
    }
}

impl F16 {
    /// The number without its sign bit.
    pub open spec fn magnitude(self) -> int {
        if self.bits >= 0x8000 {
            self.bits - 0x8000
        } else {
            self.bits as int
        }
    }

    /// The number is neither infinite nor NaN.
    pub open spec fn finite(self) -> bool {
        self.magnitude() < 0x7C00
    }

    /// The real number that a finite number stands for.
    pub open spec fn amount(self) -> real {
        let size = size_of(self.magnitude(), 0x400, -24);
        if self.bits >= 0x8000 {
            -size
        } else {
            size
        }
    }

    /// The number is finite and stands for `r`.
    pub open spec fn means(self, r: real) -> bool {
        self.finite() && self.amount() == r
    }
}

/// A number in half precision stands for `r`.
pub open spec fn fits16(r: real) -> bool {
    exists|a: F16| a.means(r)
}

/// A number in single precision stands for `r`.
pub open spec fn fits32(r: real) -> bool {
    exists|a: F32| a.means(r)
}

/// A number in double precision stands for `r`.
pub open spec fn fits64(r: real) -> bool {
    exists|a: F64| a.means(r)
}

pub proof fn lemma_twos(e: int)
    ensures
        twos(e) > 0real,
        twos(e + 1) == 2real * twos(e),
{
    if e >= 0 {
        lemma_pow2_pos(e as nat);
        lemma_pow2_unfold((e + 1) as nat);
    } else {
        let n = (-e) as nat;
        let half = pow2((n - 1) as nat) as real;
        let whole = pow2(n) as real;
        lemma_pow2_pos(n);
        lemma_pow2_pos((n - 1) as nat);
        lemma_pow2_unfold(n);
        lemma2_to64();
        assert(1real / whole > 0real && 1real / half == 2real * (1real / whole)) by (nonlinear_arith)
            requires
                whole == 2real * half,
                half > 0real,
        ;
        if e == -1 {
            assert(half == 1real);
            assert(1real / half == 1real) by (nonlinear_arith)
                requires
                    half == 1real,
            ;
        }
    }
}

/// The next magnitude is larger.
proof fn lemma_next_size(m: int, field: int, least: int)
    requires
        0 <= m,
        0 < field,
    ensures
        size_of(m, field, least) < size_of(m + 1, field, least),
        m == 0 ==> size_of(m, field, least) == 0real,
{
    let e = m / field;
    let f = m % field;
    vstd::arithmetic::div_mod::lemma_fundamental_div_mod(m, field);
    assert(e >= 0) by (nonlinear_arith)
        requires
            e == m / field,
            m >= 0,
            field > 0,
    ;
    let t = twos(least + e - 1);
    let u = twos(least + e);
    lemma_twos(least + e - 1);
    lemma_twos(least + e);
    lemma_twos(least);
    let v = twos(least);
    if f + 1 < field {
        assert(m + 1 == e * field + (f + 1)) by (nonlinear_arith)
            requires
                m == field * e + f,
        ;
        vstd::arithmetic::div_mod::lemma_fundamental_div_mod_converse(m + 1, field, e, f + 1);
        if e == 0 {
            assert((f as real) * v < ((f + 1) as real) * v) by (nonlinear_arith)
                requires
                    v > 0real,
            ;
        } else {
            assert(((f + field) as real) * t < ((f + 1 + field) as real) * t) by (nonlinear_arith)
                requires
                    t > 0real,
            ;
        }
    } else {
        assert(m + 1 == (e + 1) * field + 0) by (nonlinear_arith)
            requires
                m == field * e + f,
                f + 1 == field,
        ;
        vstd::arithmetic::div_mod::lemma_fundamental_div_mod_converse(m + 1, field, e + 1, 0);
        if e == 0 {
            assert((f as real) * v < ((0 + field) as real) * v) by (nonlinear_arith)
                requires
                    v > 0real,
                    f + 1 == field,
            ;
        } else {
            assert(((f + field) as real) * t < ((0 + field) as real) * u) by (nonlinear_arith)
                requires
                    t > 0real,
                    u == 2real * t,
                    f + 1 == field,
            ;
        }
    }
    if m == 0 {
        assert(e == 0 && f == 0) by (nonlinear_arith)
            requires
                m == 0,
                field > 0,
                e == m / field,
                f == m % field,
        ;
        assert((f as real) * v == 0real) by (nonlinear_arith)
            requires
                f == 0,
        ;
    }
}

/// Larger magnitudes amount to more.
proof fn lemma_sizes(m: int, n: int, field: int, least: int)
    requires
        0 <= m <= n,
        0 < field,
    ensures
        0real <= size_of(m, field, least) <= size_of(n, field, least),
        m < n ==> size_of(m, field, least) < size_of(n, field, least),
        size_of(0, field, least) == 0real,
    decreases n,
{
    lemma_next_size(0, field, least);
    if m < n {
        lemma_sizes(m, n - 1, field, least);
        lemma_next_size(n - 1, field, least);
    } else if 0 < m {
        lemma_sizes(m - 1, m - 1, field, least);
        lemma_next_size(m - 1, field, least);
    }
}

/// Numbers are ordered as what they stand for.
pub proof fn lemma_order32(a: F32, b: F32)
    requires
        a.finite(),
        b.finite(),
    ensures
        a.below(b) <==> a.amount() < b.amount(),
        a.at_most(b) <==> a.amount() <= b.amount(),
        a.equals(b) <==> a.amount() == b.amount(),
{
    let x = a.magnitude();
    let y = b.magnitude();
    if x <= y {
        lemma_sizes(x, y, 0x80_0000, -149);
    } else {
        lemma_sizes(y, x, 0x80_0000, -149);
    }
    lemma_sizes(0, x, 0x80_0000, -149);
    lemma_sizes(0, y, 0x80_0000, -149);
}

/// Numbers are ordered as what they stand for.
pub proof fn lemma_order64(a: F64, b: F64)
    requires
        a.finite(),
        b.finite(),
    ensures
        a.below(b) <==> a.amount() < b.amount(),
        a.at_most(b) <==> a.amount() <= b.amount(),
        a.equals(b) <==> a.amount() == b.amount(),
{
    let x = a.magnitude();
    let y = b.magnitude();
    let field = 0x10_0000_0000_0000int;
    if x <= y {
        lemma_sizes(x, y, field, -1074);
    } else {
        lemma_sizes(y, x, field, -1074);
    }
    lemma_sizes(0, x, field, -1074);
    lemma_sizes(0, y, field, -1074);
}

/// There is one number for every real number but zero.
pub proof fn lemma_unique64(a: F64, b: F64)
    requires
        a.finite(),
        b.finite(),
        a.amount() == b.amount(),
        a.amount() != 0real,
    ensures
        a == b,
{
    lemma_order64(a, b);
    lemma_sizes(0, a.magnitude(), 0x10_0000_0000_0000, -1074);
    lemma_sizes(0, b.magnitude(), 0x10_0000_0000_0000, -1074);
}

/// There is one number for every real number but zero.
pub proof fn lemma_unique32(a: F32, b: F32)
    requires
        a.finite(),
        b.finite(),
        a.amount() == b.amount(),
        a.amount() != 0real,
    ensures
        a == b,
{
    lemma_order32(a, b);
    lemma_sizes(0, a.magnitude(), 0x80_0000, -149);
    lemma_sizes(0, b.magnitude(), 0x80_0000, -149);
}

/// Turning the sign round negates what a number stands for; dropping it gives its size.
pub proof fn lemma_sign32(a: F32)
    ensures
        a.opposite().finite() == a.finite(),
        a.opposite().nan() == a.nan(),
        a.opposite().key() == -a.key(),
        a.opposite().opposite() == a,
        a.opposite().amount() == -a.amount(),
        a.absolute().finite() == a.finite(),
        a.absolute().amount() == if a.amount() < 0real {
            -a.amount()
        } else {
            a.amount()
        },
{
    lemma_sizes(0, a.magnitude(), 0x80_0000, -149);
}

/// Turning the sign round negates what a number stands for; dropping it gives its size.
pub proof fn lemma_sign64(a: F64)
    ensures
        a.opposite().finite() == a.finite(),
        a.opposite().nan() == a.nan(),
        a.opposite().key() == -a.key(),
        a.opposite().opposite() == a,
        a.opposite().amount() == -a.amount(),
        a.absolute().finite() == a.finite(),
        a.absolute().amount() == if a.amount() < 0real {
            -a.amount()
        } else {
            a.amount()
        },
{
    lemma_sizes(0, a.magnitude(), 0x10_0000_0000_0000, -1074);
}

/// What the constants stand for.
pub proof fn lemma_constants()
    ensures
        (F32 { bits: 0 }).means(0real),
        (F32 { bits: ONE32 }).means(1real),
        (F32 { bits: HALF32 }).means(1real / 2real),
        (F64 { bits: 0 }).means(0real),
        (F64 { bits: ONE64 }).means(1real),
        (F64 { bits: HALF64 }).means(1real / 2real),
        (F64 { bits: TWO64 }).means(2real),
{
    lemma2_to64();
    lemma2_to64_rest();
    lemma_sizes(0, 0, 0x80_0000, -149);
    lemma_sizes(0, 0, 0x10_0000_0000_0000, -1074);
    let a = (F32 { bits: ONE32 }).magnitude();
    assert(a / 0x80_0000 == 127 && a % 0x80_0000 == 0);
    let b = (F32 { bits: HALF32 }).magnitude();
    assert(b / 0x80_0000 == 126 && b % 0x80_0000 == 0);
    let c = (F64 { bits: ONE64 }).magnitude();
    assert(c / 0x10_0000_0000_0000 == 1023 && c % 0x10_0000_0000_0000 == 0);
    let d = (F64 { bits: HALF64 }).magnitude();
    assert(d / 0x10_0000_0000_0000 == 1022 && d % 0x10_0000_0000_0000 == 0);
    let e = (F64 { bits: TWO64 }).magnitude();
    assert(e / 0x10_0000_0000_0000 == 1024 && e % 0x10_0000_0000_0000 == 0);
    assert(pow2(23) == 0x80_0000 && pow2(24) == 0x100_0000);
    assert(pow2(51) == 0x8_0000_0000_0000 && pow2(52) == 0x10_0000_0000_0000 && pow2(53)
        == 0x20_0000_0000_0000);
    assert(twos(-23) == 1real / (0x80_0000 as real));
    assert(twos(-24) == 1real / (0x100_0000 as real));
    assert(twos(-51) == 1real / (0x8_0000_0000_0000 as real));
    assert(twos(-52) == 1real / (0x10_0000_0000_0000 as real));
    assert(twos(-53) == 1real / (0x20_0000_0000_0000 as real));
}

/// Every result of `A` that can be written down is not rounded: an operation on finite numbers
/// gives the number that stands for the true result, wherever there is one. Arithmetic that
/// rounds correctly is of this kind.
#[verifier::opaque]
pub open spec fn faithful<A: Arith>() -> bool {
    &&& forall|a: F32, b: F32|
        a.finite() && b.finite() && fits32(a.amount() + b.amount()) ==> (#[trigger] sum32::<A>(
            a,
            b,
        )).means(a.amount() + b.amount())
    &&& forall|a: F32, b: F32|
        a.finite() && b.finite() && fits32(a.amount() - b.amount()) ==> (#[trigger] difference32::<A>(
            a,
            b,
        )).means(a.amount() - b.amount())
    &&& forall|a: F32, b: F32|
        a.finite() && b.finite() && fits32(a.amount() * b.amount()) ==> (#[trigger] product32::<A>(
            a,
            b,
        )).means(a.amount() * b.amount())
    &&& forall|a: F32, b: F32|
        a.finite() && b.finite() && b.amount() != 0real && fits32(a.amount() / b.amount()) ==> (#[trigger] quotient32::<A>(
            a,
            b,
        )).means(a.amount() / b.amount())
    &&& forall|a: F32, r: real|
        a.finite() && 0real <= r && r * r == a.amount() && fits32(r) ==> #[trigger] root32::<A>(
            a,
        ).means(r)
    &&& forall|a: F32| a.means(0real) ==> (#[trigger] exponential32::<A>(a)).means(1real)
    &&& forall|a: F32| a.means(1real) ==> (#[trigger] logarithm32::<A>(a)).means(0real)
    &&& forall|k: u64| fits32(k as real) ==> (#[trigger] counted32::<A>(k)).means(k as real)
    &&& forall|a: F64, b: F64|
        a.finite() && b.finite() && fits64(a.amount() + b.amount()) ==> (#[trigger] sum64::<A>(
            a,
            b,
        )).means(a.amount() + b.amount())
    &&& forall|a: F64, b: F64|
        a.finite() && b.finite() && fits64(a.amount() - b.amount()) ==> (#[trigger] difference64::<A>(
            a,
            b,
        )).means(a.amount() - b.amount())
    &&& forall|a: F64, b: F64|
        a.finite() && b.finite() && fits64(a.amount() * b.amount()) ==> (#[trigger] product64::<A>(
            a,
            b,
        )).means(a.amount() * b.amount())
    &&& forall|a: F64, b: F64|
        a.finite() && b.finite() && b.amount() != 0real && fits64(a.amount() / b.amount()) ==> (#[trigger] quotient64::<A>(
            a,
            b,
        )).means(a.amount() / b.amount())
    &&& forall|a: F64, r: real|
        a.finite() && 0real <= r && r * r == a.amount() && fits64(r) ==> #[trigger] root64::<A>(
            a,
        ).means(r)
    &&& forall|a: F64| a.means(0real) ==> (#[trigger] exponential64::<A>(a)).means(1real)
    &&& forall|a: F64| a.means(1real) ==> (#[trigger] logarithm64::<A>(a)).means(0real)
    &&& forall|k: u64| fits64(k as real) ==> (#[trigger] counted64::<A>(k)).means(k as real)
    &&& forall|a: F32| a.finite() ==> (#[trigger] widened::<A>(a)).means(a.amount())
    &&& forall|a: F64|
        a.finite() && fits32(a.amount()) ==> (#[trigger] narrowed::<A>(a)).means(a.amount())
    &&& forall|k: i32| fits32(k as real) ==> (#[trigger] integral32::<A>(k)).means(k as real)
    &&& forall|a: F16| a.finite() ==> (#[trigger] lengthened::<A>(a)).means(a.amount())
    &&& forall|a: F32|
        a.finite() && fits16(a.amount()) ==> (#[trigger] shortened::<A>(a)).means(a.amount())
    &&& forall|a: F16, b: F16|
        a.finite() && b.finite() && fits16(a.amount() + b.amount()) ==> (#[trigger] sum16::<A>(
            a,
            b,
        )).means(a.amount() + b.amount())
}

pub proof fn lemma_integral32<A: Arith>(k: i32)
    requires
        faithful::<A>(),
        fits32(k as real),
    ensures
        integral32::<A>(k).means(k as real),
{
    reveal(faithful);
}

pub proof fn lemma_lengthened<A: Arith>(a: F16)
    requires
        faithful::<A>(),
        a.finite(),
    ensures
        lengthened::<A>(a).means(a.amount()),
{
    reveal(faithful);
}

pub proof fn lemma_shortened<A: Arith>(a: F32)
    requires
        faithful::<A>(),
        a.finite(),
        fits16(a.amount()),
    ensures
        shortened::<A>(a).means(a.amount()),
{
    reveal(faithful);
}

pub proof fn lemma_sum32<A: Arith>(a: F32, b: F32)
    requires
        faithful::<A>(),
        a.finite(),
        b.finite(),
        fits32(a.amount() + b.amount()),
    ensures
        sum32::<A>(a, b).means(a.amount() + b.amount()),
{
    reveal(faithful);
}

pub proof fn lemma_difference32<A: Arith>(a: F32, b: F32)
    requires
        faithful::<A>(),
        a.finite(),
        b.finite(),
        fits32(a.amount() - b.amount()),
    ensures
        difference32::<A>(a, b).means(a.amount() - b.amount()),
{
    reveal(faithful);
}

pub proof fn lemma_product32<A: Arith>(a: F32, b: F32)
    requires
        faithful::<A>(),
        a.finite(),
        b.finite(),
        fits32(a.amount() * b.amount()),
    ensures
        product32::<A>(a, b).means(a.amount() * b.amount()),
{
    reveal(faithful);
}

pub proof fn lemma_quotient32<A: Arith>(a: F32, b: F32)
    requires
        faithful::<A>(),
        a.finite(),
        b.finite(),
        b.amount() != 0real,
        fits32(a.amount() / b.amount()),
    ensures
        quotient32::<A>(a, b).means(a.amount() / b.amount()),
{
    reveal(faithful);
}

pub proof fn lemma_root32<A: Arith>(a: F32, r: real)
    requires
        faithful::<A>(),
        a.finite(),
        0real <= r,
        r * r == a.amount(),
        fits32(r),
    ensures
        root32::<A>(a).means(r),
{
    reveal(faithful);
}

pub proof fn lemma_counted32<A: Arith>(k: u64)
    requires
        faithful::<A>(),
        fits32(k as real),
    ensures
        counted32::<A>(k).means(k as real),
{
    reveal(faithful);
}

pub proof fn lemma_sum64<A: Arith>(a: F64, b: F64)
    requires
        faithful::<A>(),
        a.finite(),
        b.finite(),
        fits64(a.amount() + b.amount()),
    ensures
        sum64::<A>(a, b).means(a.amount() + b.amount()),
{
    reveal(faithful);
}

pub proof fn lemma_difference64<A: Arith>(a: F64, b: F64)
    requires
        faithful::<A>(),
        a.finite(),
        b.finite(),
        fits64(a.amount() - b.amount()),
    ensures
        difference64::<A>(a, b).means(a.amount() - b.amount()),
{
    reveal(faithful);
}

pub proof fn lemma_product64<A: Arith>(a: F64, b: F64)
    requires
        faithful::<A>(),
        a.finite(),
        b.finite(),
        fits64(a.amount() * b.amount()),
    ensures
        product64::<A>(a, b).means(a.amount() * b.amount()),
{
    reveal(faithful);
}

pub proof fn lemma_quotient64<A: Arith>(a: F64, b: F64)
    requires
        faithful::<A>(),
        a.finite(),
        b.finite(),
        b.amount() != 0real,
        fits64(a.amount() / b.amount()),
    ensures
        quotient64::<A>(a, b).means(a.amount() / b.amount()),
{
    reveal(faithful);
}

pub proof fn lemma_root64<A: Arith>(a: F64, r: real)
    requires
        faithful::<A>(),
        a.finite(),
        0real <= r,
        r * r == a.amount(),
        fits64(r),
    ensures
        root64::<A>(a).means(r),
{
    reveal(faithful);
}

pub proof fn lemma_counted64<A: Arith>(k: u64)
    requires
        faithful::<A>(),
        fits64(k as real),
    ensures
        counted64::<A>(k).means(k as real),
{
    reveal(faithful);
}

pub proof fn lemma_widened<A: Arith>(a: F32)
    requires
        faithful::<A>(),
        a.finite(),
    ensures
        widened::<A>(a).means(a.amount()),
{
    reveal(faithful);
}

pub proof fn lemma_narrowed<A: Arith>(a: F64)
    requires
        faithful::<A>(),
        a.finite(),
        fits32(a.amount()),
    ensures
        narrowed::<A>(a).means(a.amount()),
{
    reveal(faithful);
}

impl F32 {
    /// The number is above negative infinity.
    pub open spec fn bounded_below(self) -> bool {
        !self.nan() && self.key() > -0x7F80_0000
    }

    /// The number is positive, and may be infinite.
    pub open spec fn positive(self) -> bool {
        !self.nan() && self.key() > 0
    }

    /// The number is not negative, and may be infinite.
    pub open spec fn nonnegative(self) -> bool {
        !self.nan() && self.key() >= 0
    }
}

impl F64 {
    /// The number is above negative infinity.
    pub open spec fn bounded_below(self) -> bool {
        !self.nan() && self.key() > -0x7FF0_0000_0000_0000
    }

    /// The number is positive, and may be infinite.
    pub open spec fn positive(self) -> bool {
        !self.nan() && self.key() > 0
    }

    /// The number is not negative, and may be infinite.
    pub open spec fn nonnegative(self) -> bool {
        !self.nan() && self.key() >= 0
    }
}

/// The operations of `A` in single precision keep the order of their operands, as rounding to a nearest
/// number does: no result falls where the true result rises.
#[verifier::opaque]
pub open spec fn orderly32<A: Arith>() -> bool {
    &&& forall|a: F32, b: F32, c: F32, d: F32|
        #![trigger sum32::<A>(a, c), sum32::<A>(b, d)]
        a.at_most(b) && c.at_most(d) && a.bounded_below() && c.bounded_below() ==> sum32::<A>(
            a,
            c,
        ).at_most(sum32::<A>(b, d))
    &&& forall|a: F32, b: F32, c: F32, d: F32|
        #![trigger difference32::<A>(a, d), difference32::<A>(b, c)]
        a.at_most(b) && c.at_most(d) && c.finite() && d.finite() ==> difference32::<A>(
            a,
            d,
        ).at_most(difference32::<A>(b, c))
    &&& forall|a: F32, b: F32|
        a.below(b) && a.finite() && b.finite() ==> #[trigger] difference32::<A>(b, a).positive()
    &&& forall|a: F32, b: F32, c: F32, d: F32|
        #![trigger product32::<A>(a, c), product32::<A>(b, d)]
        a.nonnegative() && a.at_most(b) && c.nonnegative() && c.at_most(d) && b.finite()
            && d.finite() ==> product32::<A>(a, c).at_most(product32::<A>(b, d))
    &&& forall|a: F32, b: F32, c: F32, d: F32|
        #![trigger quotient32::<A>(a, d), quotient32::<A>(b, c)]
        a.nonnegative() && a.at_most(b) && b.finite() && c.positive() && c.at_most(d)
            ==> quotient32::<A>(a, d).at_most(quotient32::<A>(b, c))
    &&& forall|a: F32, b: F32, c: F32|
        #![trigger quotient32::<A>(a, c), quotient32::<A>(b, c)]
        a.at_most(b) && c.positive() && c.finite() ==> quotient32::<A>(a, c).at_most(
            quotient32::<A>(b, c),
        )
    &&& forall|a: F32, b: F32|
        a.nonnegative() && a.finite() && b.positive() ==> #[trigger] quotient32::<A>(
            a,
            b,
        ).nonnegative()
    &&& forall|a: F32, b: F32|
        #![trigger exponential32::<A>(a), exponential32::<A>(b)]
        a.at_most(b) ==> exponential32::<A>(a).at_most(exponential32::<A>(b))
    &&& forall|a: F32| !a.nan() ==> (#[trigger] exponential32::<A>(a)).nonnegative()
    &&& forall|a: F32, b: F32|
        #![trigger logarithm32::<A>(a), logarithm32::<A>(b)]
        a.nonnegative() && a.at_most(b) ==> logarithm32::<A>(a).at_most(logarithm32::<A>(b))
    &&& forall|a: F32|
        a.positive() && a.finite() ==> (#[trigger] logarithm32::<A>(a)).finite()
    &&& forall|a: F32, b: F32|
        #![trigger root32::<A>(a), root32::<A>(b)]
        a.nonnegative() && a.at_most(b) ==> root32::<A>(a).at_most(root32::<A>(b))
}

/// The operations of `A` in double precision keep the order of their operands, as rounding to a nearest
/// number does: no result falls where the true result rises.
#[verifier::opaque]
pub open spec fn orderly64<A: Arith>() -> bool {
    &&& forall|a: F64, b: F64, c: F64, d: F64|
        #![trigger sum64::<A>(a, c), sum64::<A>(b, d)]
        a.at_most(b) && c.at_most(d) && a.bounded_below() && c.bounded_below() ==> sum64::<A>(
            a,
            c,
        ).at_most(sum64::<A>(b, d))
    &&& forall|a: F64, b: F64, c: F64, d: F64|
        #![trigger difference64::<A>(a, d), difference64::<A>(b, c)]
        a.at_most(b) && c.at_most(d) && c.finite() && d.finite() ==> difference64::<A>(
            a,
            d,
        ).at_most(difference64::<A>(b, c))
    &&& forall|a: F64, b: F64|
        a.below(b) && a.finite() && b.finite() ==> #[trigger] difference64::<A>(b, a).positive()
    &&& forall|a: F64, b: F64, c: F64, d: F64|
        #![trigger product64::<A>(a, c), product64::<A>(b, d)]
        a.nonnegative() && a.at_most(b) && c.nonnegative() && c.at_most(d) && b.finite()
            && d.finite() ==> product64::<A>(a, c).at_most(product64::<A>(b, d))
    &&& forall|a: F64, b: F64, c: F64, d: F64|
        #![trigger quotient64::<A>(a, d), quotient64::<A>(b, c)]
        a.nonnegative() && a.at_most(b) && b.finite() && c.positive() && c.at_most(d)
            ==> quotient64::<A>(a, d).at_most(quotient64::<A>(b, c))
    &&& forall|a: F64, b: F64, c: F64|
        #![trigger quotient64::<A>(a, c), quotient64::<A>(b, c)]
        a.at_most(b) && c.positive() && c.finite() ==> quotient64::<A>(a, c).at_most(
            quotient64::<A>(b, c),
        )
    &&& forall|a: F64, b: F64|
        a.nonnegative() && a.finite() && b.positive() ==> #[trigger] quotient64::<A>(
            a,
            b,
        ).nonnegative()
    &&& forall|a: F64, b: F64|
        #![trigger exponential64::<A>(a), exponential64::<A>(b)]
        a.at_most(b) ==> exponential64::<A>(a).at_most(exponential64::<A>(b))
    &&& forall|a: F64| !a.nan() ==> (#[trigger] exponential64::<A>(a)).nonnegative()
    &&& forall|a: F64, b: F64|
        #![trigger logarithm64::<A>(a), logarithm64::<A>(b)]
        a.nonnegative() && a.at_most(b) ==> logarithm64::<A>(a).at_most(logarithm64::<A>(b))
    &&& forall|a: F64|
        a.positive() && a.finite() ==> (#[trigger] logarithm64::<A>(a)).finite()
    &&& forall|a: F64, b: F64|
        #![trigger root64::<A>(a), root64::<A>(b)]
        a.nonnegative() && a.at_most(b) ==> root64::<A>(a).at_most(root64::<A>(b))
}

/// Changing the precision keeps the order, and counts of something are positive.
#[verifier::opaque]
pub open spec fn orderly_precision<A: Arith>() -> bool {
    &&& forall|k: u64|
        0 < k ==> (#[trigger] counted32::<A>(k)).positive() && counted32::<A>(k).finite()
    &&& forall|k: u64|
        0 < k ==> (#[trigger] counted64::<A>(k)).positive() && counted64::<A>(k).finite()
    &&& forall|a: F32, b: F32|
        #![trigger widened::<A>(a), widened::<A>(b)]
        a.at_most(b) ==> widened::<A>(a).at_most(widened::<A>(b))
    &&& forall|a: F64, b: F64|
        #![trigger narrowed::<A>(a), narrowed::<A>(b)]
        a.at_most(b) ==> narrowed::<A>(a).at_most(narrowed::<A>(b))
}

} // verus!
