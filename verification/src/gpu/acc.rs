//! What rows are added up in, and the precision that sums over bins and replicas are
//! accumulated in.

use vstd::prelude::*;

use crate::arith::add16;
use crate::arith::add32;
use crate::arith::add64;
use crate::arith::deterministic;
use crate::arith::difference32;
use crate::arith::difference64;
use crate::arith::div32;
use crate::arith::div64;
use crate::arith::mul32;
use crate::arith::mul64;
use crate::arith::narrow;
use crate::arith::narrowed;
use crate::arith::product32;
use crate::arith::product64;
use crate::arith::quotient32;
use crate::arith::quotient64;
use crate::arith::sub32;
use crate::arith::sub64;
use crate::arith::sum16;
use crate::arith::sum32;
use crate::arith::sum64;
use crate::arith::widen;
use crate::arith::widened;
use crate::arith::Arith;
use crate::float::F16;
use crate::float::F32;
use crate::float::F64;

verus! {

/// What the places of a histogram hold, to which values are added.
pub trait Addend<A: Arith>: Sized + Copy {
    spec fn joined(self, other: Self) -> Self;

    /// The sum of two values.
    fn join(self, other: Self) -> (r: Self)
        ensures
            deterministic::<A>() ==> r == self.joined(other),
    ;
}

impl<A: Arith> Addend<A> for F16 {
    open spec fn joined(self, other: F16) -> F16 {
        sum16::<A>(self, other)
    }

    fn join(self, other: F16) -> (r: F16) {
        add16::<A>(self, other)
    }
}

impl<A: Arith> Addend<A> for F32 {
    open spec fn joined(self, other: F32) -> F32 {
        sum32::<A>(self, other)
    }

    fn join(self, other: F32) -> (r: F32) {
        add32::<A>(self, other)
    }
}

/// Sums of integers wrap around.
impl<A: Arith> Addend<A> for i32 {
    open spec fn joined(self, other: i32) -> i32 {
        self.wrapping_add(other)
    }

    fn join(self, other: i32) -> (r: i32) {
        self.wrapping_add(other)
    }
}

/// A precision to accumulate in.
pub trait Accum<A: Arith>: Sized + Copy {
    spec fn nil() -> Self;

    spec fn lifted(v: F32) -> Self;

    spec fn lowered(self) -> F32;

    spec fn plus(self, other: Self) -> Self;

    spec fn minus(self, other: Self) -> Self;

    spec fn times(self, other: Self) -> Self;

    spec fn over(self, other: Self) -> Self;

    spec fn negative(self) -> Self;

    spec fn smaller(self, other: Self) -> bool;

    spec fn no_larger(self, other: Self) -> bool;

    /// Zero.
    fn zero() -> (r: Self)
        ensures
            r == Self::nil(),
    ;

    /// A number in this precision.
    fn lift(v: F32) -> (r: Self)
        ensures
            deterministic::<A>() ==> r == Self::lifted(v),
    ;

    /// The number in single precision.
    fn lower(self) -> (r: F32)
        ensures
            deterministic::<A>() ==> r == self.lowered(),
    ;

    fn add_to(self, other: Self) -> (r: Self)
        ensures
            deterministic::<A>() ==> r == self.plus(other),
    ;

    fn take(self, other: Self) -> (r: Self)
        ensures
            deterministic::<A>() ==> r == self.minus(other),
    ;

    fn multiply(self, other: Self) -> (r: Self)
        ensures
            deterministic::<A>() ==> r == self.times(other),
    ;

    fn divide(self, other: Self) -> (r: Self)
        ensures
            deterministic::<A>() ==> r == self.over(other),
    ;

    fn negate(self) -> (r: Self)
        ensures
            r == self.negative(),
    ;

    /// `self < other`.
    fn is_less(self, other: Self) -> (r: bool)
        ensures
            r == self.smaller(other),
    ;

    /// `self <= other`.
    fn is_at_most(self, other: Self) -> (r: bool)
        ensures
            r == self.no_larger(other),
    ;
}

impl<A: Arith> Accum<A> for F32 {
    open spec fn nil() -> F32 {
        F32 { bits: 0 }
    }

    open spec fn lifted(v: F32) -> F32 {
        v
    }

    open spec fn lowered(self) -> F32 {
        self
    }

    open spec fn plus(self, other: F32) -> F32 {
        sum32::<A>(self, other)
    }

    open spec fn minus(self, other: F32) -> F32 {
        difference32::<A>(self, other)
    }

    open spec fn times(self, other: F32) -> F32 {
        product32::<A>(self, other)
    }

    open spec fn over(self, other: F32) -> F32 {
        quotient32::<A>(self, other)
    }

    open spec fn negative(self) -> F32 {
        self.opposite()
    }

    open spec fn smaller(self, other: F32) -> bool {
        self.below(other)
    }

    open spec fn no_larger(self, other: F32) -> bool {
        self.at_most(other)
    }

    fn zero() -> (r: F32) {
        F32 { bits: 0 }
    }

    fn lift(v: F32) -> (r: F32) {
        v
    }

    fn lower(self) -> (r: F32) {
        self
    }

    fn add_to(self, other: F32) -> (r: F32) {
        add32::<A>(self, other)
    }

    fn take(self, other: F32) -> (r: F32) {
        sub32::<A>(self, other)
    }

    fn multiply(self, other: F32) -> (r: F32) {
        mul32::<A>(self, other)
    }

    fn divide(self, other: F32) -> (r: F32) {
        div32::<A>(self, other)
    }

    fn negate(self) -> (r: F32) {
        self.neg()
    }

    fn is_less(self, other: F32) -> (r: bool) {
        self.less(other)
    }

    fn is_at_most(self, other: F32) -> (r: bool) {
        other.not_less(self)
    }
}

impl<A: Arith> Accum<A> for F64 {
    open spec fn nil() -> F64 {
        F64 { bits: 0 }
    }

    open spec fn lifted(v: F32) -> F64 {
        widened::<A>(v)
    }

    open spec fn lowered(self) -> F32 {
        narrowed::<A>(self)
    }

    open spec fn plus(self, other: F64) -> F64 {
        sum64::<A>(self, other)
    }

    open spec fn minus(self, other: F64) -> F64 {
        difference64::<A>(self, other)
    }

    open spec fn times(self, other: F64) -> F64 {
        product64::<A>(self, other)
    }

    open spec fn over(self, other: F64) -> F64 {
        quotient64::<A>(self, other)
    }

    open spec fn negative(self) -> F64 {
        self.opposite()
    }

    open spec fn smaller(self, other: F64) -> bool {
        self.below(other)
    }

    open spec fn no_larger(self, other: F64) -> bool {
        self.at_most(other)
    }

    fn zero() -> (r: F64) {
        F64 { bits: 0 }
    }

    fn lift(v: F32) -> (r: F64) {
        widen::<A>(v)
    }

    fn lower(self) -> (r: F32) {
        narrow::<A>(self)
    }

    fn add_to(self, other: F64) -> (r: F64) {
        add64::<A>(self, other)
    }

    fn take(self, other: F64) -> (r: F64) {
        sub64::<A>(self, other)
    }

    fn multiply(self, other: F64) -> (r: F64) {
        mul64::<A>(self, other)
    }

    fn divide(self, other: F64) -> (r: F64) {
        div64::<A>(self, other)
    }

    fn negate(self) -> (r: F64) {
        self.neg()
    }

    fn is_less(self, other: F64) -> (r: bool) {
        self.less(other)
    }

    fn is_at_most(self, other: F64) -> (r: bool) {
        other.not_less(self)
    }
}

} // verus!
