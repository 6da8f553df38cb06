//! Floating-point numbers as bit patterns.
//!
//! The booster stores, orders and serialises IEEE 754 numbers; all of that is decided by
//! their bits. A number is kept here as its pattern, and its order is stated over the
//! integers: dropping the sign bit leaves the *magnitude*, and the signed magnitude, the
//! *key*, orders the numbers that are not NaN, with both zeros at key zero.

use vstd::prelude::*;
use vstd::arithmetic::power2::lemma2_to64;
use vstd::arithmetic::power2::lemma2_to64_rest;
use vstd::arithmetic::power2::lemma_pow2_pos;
use vstd::arithmetic::power2::lemma_pow2_strictly_increases;
use vstd::arithmetic::power2::lemma_pow2_unfold;
use vstd::arithmetic::power2::pow2;
use vstd::bits::lemma_u64_pow2_no_overflow;
use vstd::bits::lemma_u64_shl_is_mul;
use vstd::bits::lemma_u64_shr_is_div;

verus! {

/// Bits of the number one in single precision.
pub const ONE32: u32 = 0x3F80_0000;

/// Bits of one millionth in single precision.
pub const MILLIONTH32: u32 = 0x3586_37BD;

/// Bits of one minus one millionth in single precision.
pub const ONE_LESS_MILLIONTH32: u32 = 0x3F7F_FFEF;

/// Bits of one half in single precision.
pub const HALF32: u32 = 0x3F00_0000;

/// Bits of positive infinity in single precision.
pub const INFINITY32: u32 = 0x7F80_0000;

/// Bits of the number one in double precision.
pub const ONE64: u64 = 0x3FF0_0000_0000_0000;

/// Bits of one half in double precision.
pub const HALF64: u64 = 0x3FE0_0000_0000_0000;

/// Bits of two in double precision.
pub const TWO64: u64 = 0x4000_0000_0000_0000;

/// Bits of one billionth in double precision.
pub const BILLIONTH64: u64 = 0x3E11_2E0B_E826_D695;

/// Bits of the quiet NaN in double precision.
pub const NAN64: u64 = 0x7FF8_0000_0000_0000;

/// Bits of negative infinity in double precision.
pub const MINUS_INFINITY64: u64 = 0xFFF0_0000_0000_0000;

/// A single-precision number. Rust's `==` on this type compares patterns; [`F32::same`]
/// compares numbers.
#[derive(Clone, Copy, PartialEq, Eq, Debug, Structural)]
pub struct F32 {
    pub bits: u32,
}

/// A half-precision number. Rust's `==` on this type compares patterns.
#[derive(Clone, Copy, PartialEq, Eq, Debug, Structural)]
pub struct F16 {
    pub bits: u16,
}

/// A double-precision number. Rust's `==` on this type compares patterns; [`F64::same`]
/// compares numbers.
#[derive(Clone, Copy, PartialEq, Eq, Debug, Structural)]
pub struct F64 {
    pub bits: u64,
}

/// The integer nearest to `significand * 2^exponent`, halves going up.
pub open spec fn scaled_nearest(significand: nat, exponent: int) -> nat {
    if exponent >= 0 {
        significand * pow2(exponent as nat)
    } else {
        (significand + pow2((-exponent - 1) as nat)) / pow2((-exponent) as nat)
    }
}

/// The integer part of `significand * 2^exponent`.
pub open spec fn scaled_floor(significand: nat, exponent: int) -> nat {
    if exponent >= 0 {
        significand * pow2(exponent as nat)
    } else {
        significand / pow2((-exponent) as nat)
    }
}

/// The smaller of `value` and the largest 64-bit count.
pub open spec fn capped(value: nat) -> nat {
    if value > u64::MAX {
        u64::MAX as nat
    } else {
        value
    }
}

/// Two to the power of `e`.
fn power_of_two(e: u64) -> (r: u64)
    requires
        e < 64,
    ensures
        r == pow2(e as nat),
        r > 0,
{
    proof {
        lemma_u64_pow2_no_overflow(e as nat);
        lemma_u64_shl_is_mul(1, e);
    }
    1u64 << e
}

/// A significand times a power of two that is not a fraction, capped.
fn scaled_up(significand: u64, exponent: u64) -> (r: u64)
    ensures
        r == capped(significand as nat * pow2(exponent as nat)),
{
    if significand == 0 {
        0
    } else if exponent >= 64 {
        proof {
            lemma2_to64();
            if exponent > 64 {
                lemma_pow2_strictly_increases(64, exponent as nat);
            }
            assert(significand * pow2(exponent as nat) >= pow2(exponent as nat)) by (nonlinear_arith)
                requires
                    significand >= 1,
            ;
        }
        u64::MAX
    } else {
        let power = power_of_two(exponent);
        assert(significand * power <= u64::MAX * u64::MAX) by (nonlinear_arith)
            requires
                significand <= u64::MAX,
                power <= u64::MAX,
        ;
        let product: u128 = significand as u128 * power as u128;
        if product > u64::MAX as u128 {
            u64::MAX
        } else {
            product as u64
        }
    }
}

/// A double-precision significand times a power of two, to the nearest count, capped.
fn nearest_capped(significand: u64, exponent: i64) -> (r: u64)
    requires
        significand < 0x20_0000_0000_0000,
        -2000 < exponent < 2000,
    ensures
        r == capped(scaled_nearest(significand as nat, exponent as int)),
{
    if exponent >= 0 {
        scaled_up(significand, exponent as u64)
    } else {
        let shift: u64 = (-exponent) as u64;
        proof {
            lemma_pow2_unfold(shift as nat);
            lemma_pow2_pos((shift - 1) as nat);
        }
        if shift > 60 {
            proof {
                lemma_pow2_strictly_increases(53, (shift - 1) as nat);
                lemma2_to64_rest();
                let sum: nat = significand as nat + pow2((shift - 1) as nat);
                assert(sum / pow2(shift as nat) == 0) by (nonlinear_arith)
                    requires
                        0 <= sum < pow2(shift as nat),
                ;
            }
            0
        } else {
            let half = power_of_two(shift - 1);
            proof {
                lemma_pow2_strictly_increases((shift - 1) as nat, 60);
                lemma2_to64_rest();
                lemma_u64_shr_is_div((significand + half) as u64, shift);
            }
            (significand + half) >> shift
        }
    }
}

/// A double-precision significand times a power of two, without its fraction, capped.
fn floor_capped(significand: u64, exponent: i64) -> (r: u64)
    requires
        significand < 0x20_0000_0000_0000,
        -2000 < exponent < 2000,
    ensures
        r == capped(scaled_floor(significand as nat, exponent as int)),
{
    if exponent >= 0 {
        scaled_up(significand, exponent as u64)
    } else {
        let shift: u64 = (-exponent) as u64;
        if shift > 60 {
            proof {
                lemma_pow2_strictly_increases(53, shift as nat);
                lemma2_to64_rest();
                assert(significand as nat / pow2(shift as nat) == 0) by (nonlinear_arith)
                    requires
                        0 <= significand < pow2(shift as nat),
                ;
            }
            0
        } else {
            proof {
                lemma_u64_shr_is_div(significand, shift);
            }
            significand >> shift
        }
    }
}

impl F32 {
    pub open spec fn is_negative(self) -> bool {
        self.bits >= 0x8000_0000
    }

    pub open spec fn magnitude(self) -> int {
        if self.bits >= 0x8000_0000 {
            self.bits - 0x8000_0000
        } else {
            self.bits as int
        }
    }

    pub open spec fn nan(self) -> bool {
        self.magnitude() > 0x7F80_0000
    }

    /// The signed magnitude.
    pub open spec fn key(self) -> int {
        if self.is_negative() {
            -self.magnitude()
        } else {
            self.magnitude()
        }
    }

    /// `self < other`.
    pub open spec fn below(self, other: F32) -> bool {
        !self.nan() && !other.nan() && self.key() < other.key()
    }

    /// `self <= other`.
    pub open spec fn at_most(self, other: F32) -> bool {
        !self.nan() && !other.nan() && self.key() <= other.key()
    }

    /// `self == other` as numbers.
    pub open spec fn equals(self, other: F32) -> bool {
        !self.nan() && !other.nan() && self.key() == other.key()
    }

    /// The number without its sign.
    pub open spec fn absolute(self) -> F32 {
        F32 { bits: self.magnitude() as u32 }
    }

    /// The number with its sign turned round.
    pub open spec fn opposite(self) -> F32 {
        F32 {
            bits: if self.is_negative() {
                (self.bits - 0x8000_0000) as u32
            } else {
                (self.bits + 0x8000_0000) as u32
            },
        }
    }

    /// The larger of the two; `other` where `self` is NaN, and `self` where `other` is NaN
    /// or the two are equal.
    pub open spec fn larger(self, other: F32) -> F32 {
        if self.nan() || self.below(other) {
            other
        } else {
            self
        }
    }

    /// `self` brought into the interval from `low` to `high`; a NaN stays.
    pub open spec fn within(self, low: F32, high: F32) -> F32 {
        if self.below(low) {
            low
        } else if high.below(self) {
            high
        } else {
            self
        }
    }

    /// The significand as an integer: the fraction, with the implicit bit where there is one.
    pub open spec fn significand(self) -> nat {
        let exponent = self.magnitude() / 0x80_0000;
        let fraction = self.magnitude() % 0x80_0000;
        if exponent == 0 {
            fraction as nat
        } else {
            (fraction + 0x80_0000) as nat
        }
    }

    /// The power of two that the significand is scaled by.
    pub open spec fn exponent(self) -> int {
        let exponent = self.magnitude() / 0x80_0000;
        if exponent == 0 {
            -149
        } else {
            exponent - 150
        }
    }

    /// The nearest 64-bit integer, halves going away from zero, numbers out of range going
    /// to the closest end, NaN to zero.
    pub open spec fn nearest_i64(self) -> int {
        let near = scaled_nearest(self.significand(), self.exponent());
        if self.nan() {
            0
        } else if self.is_negative() {
            if near > 0x8000_0000_0000_0000 {
                -0x8000_0000_0000_0000
            } else {
                -near
            }
        } else if near > 0x7FFF_FFFF_FFFF_FFFF {
            0x7FFF_FFFF_FFFF_FFFF
        } else {
            near as int
        }
    }

    pub fn is_nan(self) -> (r: bool)
        ensures
            r == self.nan(),
    {
        self.abs().bits > 0x7F80_0000
    }

    pub fn abs(self) -> (r: F32)
        ensures
            r == self.absolute(),
            r.bits < 0x8000_0000,
    {
        if self.bits >= 0x8000_0000 {
            F32 { bits: self.bits - 0x8000_0000 }
        } else {
            self
        }
    }

    pub fn neg(self) -> (r: F32)
        ensures
            r == self.opposite(),
    {
        if self.bits >= 0x8000_0000 {
            F32 { bits: self.bits - 0x8000_0000 }
        } else {
            F32 { bits: self.bits + 0x8000_0000 }
        }
    }

    pub fn order_key(self) -> (r: i64)
        ensures
            r == self.key(),
            -0x8000_0000 < r < 0x8000_0000,
    {
        if self.bits >= 0x8000_0000 {
            -((self.bits - 0x8000_0000) as i64)
        } else {
            self.bits as i64
        }
    }

    /// `self < other`.
    pub fn less(self, other: F32) -> (r: bool)
        ensures
            r == self.below(other),
    {
        !self.is_nan() && !other.is_nan() && self.order_key() < other.order_key()
    }

    /// `self >= other`.
    pub fn not_less(self, other: F32) -> (r: bool)
        ensures
            r == other.at_most(self),
    {
        !self.is_nan() && !other.is_nan() && self.order_key() >= other.order_key()
    }

    /// `self == other` as numbers.
    pub fn same(self, other: F32) -> (r: bool)
        ensures
            r == self.equals(other),
    {
        !self.is_nan() && !other.is_nan() && self.order_key() == other.order_key()
    }

    /// The nearest 64-bit integer, halves going away from zero.
    pub fn round_i64(self) -> (r: i64)
        ensures
            r == self.nearest_i64(),
    {
        if self.is_nan() {
            return 0;
        }
        let magnitude: u32 = self.abs().bits;
        let field: u32 = magnitude / 0x80_0000;
        let fraction: u32 = magnitude % 0x80_0000;
        let near: u64 = if field == 0 {
            nearest_capped(fraction as u64, -149)
        } else {
            nearest_capped((fraction + 0x80_0000) as u64, field as i64 - 150)
        };
        if self.bits >= 0x8000_0000 {
            if near >= 0x8000_0000_0000_0000 {
                i64::MIN
            } else {
                -(near as i64)
            }
        } else if near > 0x7FFF_FFFF_FFFF_FFFF {
            i64::MAX
        } else {
            near as i64
        }
    }

    pub fn max(self, other: F32) -> (r: F32)
        ensures
            r == self.larger(other),
    {
        if self.is_nan() || self.less(other) {
            other
        } else {
            self
        }
    }

    pub fn clamp(self, low: F32, high: F32) -> (r: F32)
        ensures
            r == self.within(low, high),
    {
        if self.less(low) {
            low
        } else if high.less(self) {
            high
        } else {
            self
        }
    }
}

impl F64 {
    pub open spec fn is_negative(self) -> bool {
        self.bits >= 0x8000_0000_0000_0000
    }

    pub open spec fn magnitude(self) -> int {
        if self.bits >= 0x8000_0000_0000_0000 {
            self.bits - 0x8000_0000_0000_0000
        } else {
            self.bits as int
        }
    }

    pub open spec fn nan(self) -> bool {
        self.magnitude() > 0x7FF0_0000_0000_0000
    }

    /// The signed magnitude.
    pub open spec fn key(self) -> int {
        if self.is_negative() {
            -self.magnitude()
        } else {
            self.magnitude()
        }
    }

    /// `self < other`.
    pub open spec fn below(self, other: F64) -> bool {
        !self.nan() && !other.nan() && self.key() < other.key()
    }

    /// `self <= other`.
    pub open spec fn at_most(self, other: F64) -> bool {
        !self.nan() && !other.nan() && self.key() <= other.key()
    }

    /// `self == other` as numbers.
    pub open spec fn equals(self, other: F64) -> bool {
        !self.nan() && !other.nan() && self.key() == other.key()
    }

    /// The number without its sign.
    pub open spec fn absolute(self) -> F64 {
        F64 { bits: self.magnitude() as u64 }
    }

    /// The number with its sign turned round.
    pub open spec fn opposite(self) -> F64 {
        F64 {
            bits: if self.is_negative() {
                (self.bits - 0x8000_0000_0000_0000) as u64
            } else {
                (self.bits + 0x8000_0000_0000_0000) as u64
            },
        }
    }

    /// The larger of the two; `other` where `self` is NaN, and `self` where `other` is NaN
    /// or the two are equal.
    pub open spec fn larger(self, other: F64) -> F64 {
        if self.nan() || self.below(other) {
            other
        } else {
            self
        }
    }

    /// `self` brought into the interval from `low` to `high`; a NaN stays.
    pub open spec fn within(self, low: F64, high: F64) -> F64 {
        if self.below(low) {
            low
        } else if high.below(self) {
            high
        } else {
            self
        }
    }

    /// The significand as an integer: the fraction, with the implicit bit where there is one.
    pub open spec fn significand(self) -> nat {
        let exponent = self.magnitude() / 0x10_0000_0000_0000;
        let fraction = self.magnitude() % 0x10_0000_0000_0000;
        if exponent == 0 {
            fraction as nat
        } else {
            (fraction + 0x10_0000_0000_0000) as nat
        }
    }

    /// The power of two that the significand is scaled by.
    pub open spec fn exponent(self) -> int {
        let exponent = self.magnitude() / 0x10_0000_0000_0000;
        if exponent == 0 {
            -1074
        } else {
            exponent - 1075
        }
    }

    /// The integer part as a count: zero below one and for NaN, at most `usize::MAX`.
    pub open spec fn whole(self) -> int {
        let floor = scaled_floor(self.significand(), self.exponent());
        if self.nan() || self.is_negative() {
            0
        } else if floor > usize::MAX {
            usize::MAX as int
        } else {
            floor as int
        }
    }

    /// The nearest count, halves going up: zero for negative numbers and NaN, at most
    /// `usize::MAX`.
    pub open spec fn nearest(self) -> int {
        let near = scaled_nearest(self.significand(), self.exponent());
        if self.nan() || self.is_negative() {
            0
        } else if near > usize::MAX {
            usize::MAX as int
        } else {
            near as int
        }
    }

    pub fn is_nan(self) -> (r: bool)
        ensures
            r == self.nan(),
    {
        self.abs().bits > 0x7FF0_0000_0000_0000
    }

    pub fn abs(self) -> (r: F64)
        ensures
            r == self.absolute(),
            r.bits < 0x8000_0000_0000_0000,
    {
        if self.bits >= 0x8000_0000_0000_0000 {
            F64 { bits: self.bits - 0x8000_0000_0000_0000 }
        } else {
            self
        }
    }

    pub fn neg(self) -> (r: F64)
        ensures
            r == self.opposite(),
    {
        if self.bits >= 0x8000_0000_0000_0000 {
            F64 { bits: self.bits - 0x8000_0000_0000_0000 }
        } else {
            F64 { bits: self.bits + 0x8000_0000_0000_0000 }
        }
    }

    pub fn order_key(self) -> (r: i64)
        ensures
            r == self.key(),
            -0x8000_0000_0000_0000 < r,
    {
        if self.bits >= 0x8000_0000_0000_0000 {
            -((self.bits - 0x8000_0000_0000_0000) as i64)
        } else {
            self.bits as i64
        }
    }

    /// `self < other`.
    pub fn less(self, other: F64) -> (r: bool)
        ensures
            r == self.below(other),
    {
        !self.is_nan() && !other.is_nan() && self.order_key() < other.order_key()
    }

    /// `self >= other`.
    pub fn not_less(self, other: F64) -> (r: bool)
        ensures
            r == other.at_most(self),
    {
        !self.is_nan() && !other.is_nan() && self.order_key() >= other.order_key()
    }

    /// `self == other` as numbers.
    pub fn same(self, other: F64) -> (r: bool)
        ensures
            r == self.equals(other),
    {
        !self.is_nan() && !other.is_nan() && self.order_key() == other.order_key()
    }

    /// The integer part as a count.
    pub fn to_usize(self) -> (r: usize)
        ensures
            r == self.whole(),
    {
        if self.is_nan() || self.bits >= 0x8000_0000_0000_0000 {
            return 0;
        }
        let field: u64 = self.bits / 0x10_0000_0000_0000;
        let fraction: u64 = self.bits % 0x10_0000_0000_0000;
        let floor: u64 = if field == 0 {
            floor_capped(fraction, -1074)
        } else {
            floor_capped(fraction + 0x10_0000_0000_0000, field as i64 - 1075)
        };
        if floor > usize::MAX as u64 {
            usize::MAX
        } else {
            floor as usize
        }
    }

    /// The nearest count, halves going up.
    pub fn round_usize(self) -> (r: usize)
        ensures
            r == self.nearest(),
    {
        if self.is_nan() || self.bits >= 0x8000_0000_0000_0000 {
            return 0;
        }
        let field: u64 = self.bits / 0x10_0000_0000_0000;
        let fraction: u64 = self.bits % 0x10_0000_0000_0000;
        let near: u64 = if field == 0 {
            nearest_capped(fraction, -1074)
        } else {
            nearest_capped(fraction + 0x10_0000_0000_0000, field as i64 - 1075)
        };
        if near > usize::MAX as u64 {
            usize::MAX
        } else {
            near as usize
        }
    }

    pub fn max(self, other: F64) -> (r: F64)
        ensures
            r == self.larger(other),
    {
        if self.is_nan() || self.less(other) {
            other
        } else {
            self
        }
    }

    pub fn clamp(self, low: F64, high: F64) -> (r: F64)
        ensures
            r == self.within(low, high),
    {
        if self.less(low) {
            low
        } else if high.less(self) {
            high
        } else {
            self
        }
    }
}

} // verus!
