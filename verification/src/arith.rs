//! The arithmetic that the booster computes with.
//!
//! Adding, multiplying and the rest are supplied by an implementation of [`Arith`], for
//! which nothing is taken for granted: the booster is verified for any of them. What a
//! function computes is stated for an arithmetic that is [`deterministic`], that is, gives
//! one result for given operands. [`sum32`] and its companions name that result.

use vstd::prelude::*;

use crate::float::F16;
use crate::float::F32;
use crate::float::F64;

verus! {

/// Arithmetic on floating-point numbers.
pub trait Arith {
    /// The sum of `a` and `b`.
    fn add16(a: F16, b: F16) -> F16;

    /// The sum of `a` and `b`.
    fn add32(a: F32, b: F32) -> F32;

    /// `b` taken from `a`.
    fn sub32(a: F32, b: F32) -> F32;

    /// The product of `a` and `b`.
    fn mul32(a: F32, b: F32) -> F32;

    /// `a` divided by `b`.
    fn div32(a: F32, b: F32) -> F32;

    /// E to the power of `a`.
    fn exp32(a: F32) -> F32;

    /// The natural logarithm of `a`.
    fn ln32(a: F32) -> F32;

    /// The square root of `a`.
    fn sqrt32(a: F32) -> F32;

    /// The sum of `a` and `b`.
    fn add64(a: F64, b: F64) -> F64;

    /// `b` taken from `a`.
    fn sub64(a: F64, b: F64) -> F64;

    /// The product of `a` and `b`.
    fn mul64(a: F64, b: F64) -> F64;

    /// `a` divided by `b`.
    fn div64(a: F64, b: F64) -> F64;

    /// E to the power of `a`.
    fn exp64(a: F64) -> F64;

    /// The natural logarithm of `a`.
    fn ln64(a: F64) -> F64;

    /// The square root of `a`.
    fn sqrt64(a: F64) -> F64;

    /// `a` in half precision.
    fn shorten(a: F32) -> F16;

    /// `a` in single precision.
    fn lengthen(a: F16) -> F32;

    /// `a` in double precision.
    fn widen(a: F32) -> F64;

    /// `a` in single precision.
    fn narrow(a: F64) -> F32;

    /// The count `a` in single precision.
    fn count32(a: u64) -> F32;

    /// The count `a` in double precision.
    fn count64(a: u64) -> F64;

    /// The integer `a` in single precision.
    fn integer32(a: i32) -> F32;

    /// The number that a decimal numeral stands for, where the text is one.
    fn parse32(text: &str) -> Option<F32>;
}

/// What [`Arith::add16`] gives: the sum of `a` and `b`.
#[verifier::opaque]
pub open spec fn sum16<A: Arith>(a: F16, b: F16) -> F16 {
    choose|r: F16| call_ensures(A::add16, (a, b), r)
}

/// What [`Arith::add32`] gives: the sum of `a` and `b`.
#[verifier::opaque]
pub open spec fn sum32<A: Arith>(a: F32, b: F32) -> F32 {
    choose|r: F32| call_ensures(A::add32, (a, b), r)
}

/// What [`Arith::sub32`] gives: `b` taken from `a`.
#[verifier::opaque]
pub open spec fn difference32<A: Arith>(a: F32, b: F32) -> F32 {
    choose|r: F32| call_ensures(A::sub32, (a, b), r)
}

/// What [`Arith::mul32`] gives: the product of `a` and `b`.
#[verifier::opaque]
pub open spec fn product32<A: Arith>(a: F32, b: F32) -> F32 {
    choose|r: F32| call_ensures(A::mul32, (a, b), r)
}

/// What [`Arith::div32`] gives: `a` divided by `b`.
#[verifier::opaque]
pub open spec fn quotient32<A: Arith>(a: F32, b: F32) -> F32 {
    choose|r: F32| call_ensures(A::div32, (a, b), r)
}

/// What [`Arith::exp32`] gives: e to the power of `a`.
#[verifier::opaque]
pub open spec fn exponential32<A: Arith>(a: F32) -> F32 {
    choose|r: F32| call_ensures(A::exp32, (a,), r)
}

/// What [`Arith::ln32`] gives: the natural logarithm of `a`.
#[verifier::opaque]
pub open spec fn logarithm32<A: Arith>(a: F32) -> F32 {
    choose|r: F32| call_ensures(A::ln32, (a,), r)
}

/// What [`Arith::sqrt32`] gives: the square root of `a`.
#[verifier::opaque]
pub open spec fn root32<A: Arith>(a: F32) -> F32 {
    choose|r: F32| call_ensures(A::sqrt32, (a,), r)
}

/// What [`Arith::add64`] gives: the sum of `a` and `b`.
#[verifier::opaque]
pub open spec fn sum64<A: Arith>(a: F64, b: F64) -> F64 {
    choose|r: F64| call_ensures(A::add64, (a, b), r)
}

/// What [`Arith::sub64`] gives: `b` taken from `a`.
#[verifier::opaque]
pub open spec fn difference64<A: Arith>(a: F64, b: F64) -> F64 {
    choose|r: F64| call_ensures(A::sub64, (a, b), r)
}

/// What [`Arith::mul64`] gives: the product of `a` and `b`.
#[verifier::opaque]
pub open spec fn product64<A: Arith>(a: F64, b: F64) -> F64 {
    choose|r: F64| call_ensures(A::mul64, (a, b), r)
}

/// What [`Arith::div64`] gives: `a` divided by `b`.
#[verifier::opaque]
pub open spec fn quotient64<A: Arith>(a: F64, b: F64) -> F64 {
    choose|r: F64| call_ensures(A::div64, (a, b), r)
}

/// What [`Arith::exp64`] gives: e to the power of `a`.
#[verifier::opaque]
pub open spec fn exponential64<A: Arith>(a: F64) -> F64 {
    choose|r: F64| call_ensures(A::exp64, (a,), r)
}

/// What [`Arith::ln64`] gives: the natural logarithm of `a`.
#[verifier::opaque]
pub open spec fn logarithm64<A: Arith>(a: F64) -> F64 {
    choose|r: F64| call_ensures(A::ln64, (a,), r)
}

/// What [`Arith::sqrt64`] gives: the square root of `a`.
#[verifier::opaque]
pub open spec fn root64<A: Arith>(a: F64) -> F64 {
    choose|r: F64| call_ensures(A::sqrt64, (a,), r)
}

/// What [`Arith::shorten`] gives: `a` in half precision.
#[verifier::opaque]
pub open spec fn shortened<A: Arith>(a: F32) -> F16 {
    choose|r: F16| call_ensures(A::shorten, (a,), r)
}

/// What [`Arith::lengthen`] gives: `a` in single precision.
#[verifier::opaque]
pub open spec fn lengthened<A: Arith>(a: F16) -> F32 {
    choose|r: F32| call_ensures(A::lengthen, (a,), r)
}

/// What [`Arith::widen`] gives: `a` in double precision.
#[verifier::opaque]
pub open spec fn widened<A: Arith>(a: F32) -> F64 {
    choose|r: F64| call_ensures(A::widen, (a,), r)
}

/// What [`Arith::narrow`] gives: `a` in single precision.
#[verifier::opaque]
pub open spec fn narrowed<A: Arith>(a: F64) -> F32 {
    choose|r: F32| call_ensures(A::narrow, (a,), r)
}

/// What [`Arith::count32`] gives: the count `a` in single precision.
#[verifier::opaque]
pub open spec fn counted32<A: Arith>(a: u64) -> F32 {
    choose|r: F32| call_ensures(A::count32, (a,), r)
}

/// What [`Arith::count64`] gives: the count `a` in double precision.
#[verifier::opaque]
pub open spec fn counted64<A: Arith>(a: u64) -> F64 {
    choose|r: F64| call_ensures(A::count64, (a,), r)
}

/// What [`Arith::integer32`] gives: the integer `a` in single precision.
#[verifier::opaque]
pub open spec fn integral32<A: Arith>(a: i32) -> F32 {
    choose|r: F32| call_ensures(A::integer32, (a,), r)
}

/// [`Arith::parse32`] may give `r` for the text made of the given characters.
pub open spec fn parses_to<A: Arith>(text: Seq<char>, r: Option<F32>) -> bool {
    exists|t: &str| #[trigger] call_ensures(A::parse32, (t,), r) && t@ == text
}

/// What [`Arith::parse32`] gives for the text made of the given characters.
#[verifier::opaque]
pub open spec fn parsed32<A: Arith>(text: Seq<char>) -> Option<F32> {
    choose|r: Option<F32>| parses_to::<A>(text, r)
}

/// Every operation of `A` gives one result for given operands.
#[verifier::opaque]
pub open spec fn deterministic<A: Arith>() -> bool {
    &&& forall|a: F16, b: F16, r: F16| #[trigger]
        call_ensures(A::add16, (a, b), r) ==> r == sum16::<A>(a, b)
    &&& forall|a: F32, b: F32, r: F32| #[trigger]
        call_ensures(A::add32, (a, b), r) ==> r == sum32::<A>(a, b)
    &&& forall|a: F32, b: F32, r: F32| #[trigger]
        call_ensures(A::sub32, (a, b), r) ==> r == difference32::<A>(a, b)
    &&& forall|a: F32, b: F32, r: F32| #[trigger]
        call_ensures(A::mul32, (a, b), r) ==> r == product32::<A>(a, b)
    &&& forall|a: F32, b: F32, r: F32| #[trigger]
        call_ensures(A::div32, (a, b), r) ==> r == quotient32::<A>(a, b)
    &&& forall|a: F32, r: F32| #[trigger]
        call_ensures(A::exp32, (a,), r) ==> r == exponential32::<A>(a)
    &&& forall|a: F32, r: F32| #[trigger]
        call_ensures(A::ln32, (a,), r) ==> r == logarithm32::<A>(a)
    &&& forall|a: F32, r: F32| #[trigger]
        call_ensures(A::sqrt32, (a,), r) ==> r == root32::<A>(a)
    &&& forall|a: F64, b: F64, r: F64| #[trigger]
        call_ensures(A::add64, (a, b), r) ==> r == sum64::<A>(a, b)
    &&& forall|a: F64, b: F64, r: F64| #[trigger]
        call_ensures(A::sub64, (a, b), r) ==> r == difference64::<A>(a, b)
    &&& forall|a: F64, b: F64, r: F64| #[trigger]
        call_ensures(A::mul64, (a, b), r) ==> r == product64::<A>(a, b)
    &&& forall|a: F64, b: F64, r: F64| #[trigger]
        call_ensures(A::div64, (a, b), r) ==> r == quotient64::<A>(a, b)
    &&& forall|a: F64, r: F64| #[trigger]
        call_ensures(A::exp64, (a,), r) ==> r == exponential64::<A>(a)
    &&& forall|a: F64, r: F64| #[trigger]
        call_ensures(A::ln64, (a,), r) ==> r == logarithm64::<A>(a)
    &&& forall|a: F64, r: F64| #[trigger]
        call_ensures(A::sqrt64, (a,), r) ==> r == root64::<A>(a)
    &&& forall|a: F32, r: F16| #[trigger]
        call_ensures(A::shorten, (a,), r) ==> r == shortened::<A>(a)
    &&& forall|a: F16, r: F32| #[trigger]
        call_ensures(A::lengthen, (a,), r) ==> r == lengthened::<A>(a)
    &&& forall|a: F32, r: F64| #[trigger]
        call_ensures(A::widen, (a,), r) ==> r == widened::<A>(a)
    &&& forall|a: F64, r: F32| #[trigger]
        call_ensures(A::narrow, (a,), r) ==> r == narrowed::<A>(a)
    &&& forall|a: u64, r: F32| #[trigger]
        call_ensures(A::count32, (a,), r) ==> r == counted32::<A>(a)
    &&& forall|a: u64, r: F64| #[trigger]
        call_ensures(A::count64, (a,), r) ==> r == counted64::<A>(a)
    &&& forall|a: i32, r: F32| #[trigger]
        call_ensures(A::integer32, (a,), r) ==> r == integral32::<A>(a)
    &&& forall|t: &str, r: Option<F32>| #[trigger]
        call_ensures(A::parse32, (t,), r) ==> r == parsed32::<A>(t@)
}

pub fn add16<A: Arith>(a: F16, b: F16) -> (r: F16)
    ensures
        deterministic::<A>() ==> r == sum16::<A>(a, b),
{
    reveal(deterministic);
    A::add16(a, b)
}

pub fn add32<A: Arith>(a: F32, b: F32) -> (r: F32)
    ensures
        deterministic::<A>() ==> r == sum32::<A>(a, b),
{
    reveal(deterministic);
    A::add32(a, b)
}

pub fn sub32<A: Arith>(a: F32, b: F32) -> (r: F32)
    ensures
        deterministic::<A>() ==> r == difference32::<A>(a, b),
{
    reveal(deterministic);
    A::sub32(a, b)
}

pub fn mul32<A: Arith>(a: F32, b: F32) -> (r: F32)
    ensures
        deterministic::<A>() ==> r == product32::<A>(a, b),
{
    reveal(deterministic);
    A::mul32(a, b)
}

pub fn div32<A: Arith>(a: F32, b: F32) -> (r: F32)
    ensures
        deterministic::<A>() ==> r == quotient32::<A>(a, b),
{
    reveal(deterministic);
    A::div32(a, b)
}

pub fn exp32<A: Arith>(a: F32) -> (r: F32)
    ensures
        deterministic::<A>() ==> r == exponential32::<A>(a),
{
    reveal(deterministic);
    A::exp32(a)
}

pub fn ln32<A: Arith>(a: F32) -> (r: F32)
    ensures
        deterministic::<A>() ==> r == logarithm32::<A>(a),
{
    reveal(deterministic);
    A::ln32(a)
}

pub fn sqrt32<A: Arith>(a: F32) -> (r: F32)
    ensures
        deterministic::<A>() ==> r == root32::<A>(a),
{
    reveal(deterministic);
    A::sqrt32(a)
}

pub fn add64<A: Arith>(a: F64, b: F64) -> (r: F64)
    ensures
        deterministic::<A>() ==> r == sum64::<A>(a, b),
{
    reveal(deterministic);
    A::add64(a, b)
}

pub fn sub64<A: Arith>(a: F64, b: F64) -> (r: F64)
    ensures
        deterministic::<A>() ==> r == difference64::<A>(a, b),
{
    reveal(deterministic);
    A::sub64(a, b)
}

pub fn mul64<A: Arith>(a: F64, b: F64) -> (r: F64)
    ensures
        deterministic::<A>() ==> r == product64::<A>(a, b),
{
    reveal(deterministic);
    A::mul64(a, b)
}

pub fn div64<A: Arith>(a: F64, b: F64) -> (r: F64)
    ensures
        deterministic::<A>() ==> r == quotient64::<A>(a, b),
{
    reveal(deterministic);
    A::div64(a, b)
}

pub fn exp64<A: Arith>(a: F64) -> (r: F64)
    ensures
        deterministic::<A>() ==> r == exponential64::<A>(a),
{
    reveal(deterministic);
    A::exp64(a)
}

pub fn ln64<A: Arith>(a: F64) -> (r: F64)
    ensures
        deterministic::<A>() ==> r == logarithm64::<A>(a),
{
    reveal(deterministic);
    A::ln64(a)
}

pub fn sqrt64<A: Arith>(a: F64) -> (r: F64)
    ensures
        deterministic::<A>() ==> r == root64::<A>(a),
{
    reveal(deterministic);
    A::sqrt64(a)
}

pub fn shorten<A: Arith>(a: F32) -> (r: F16)
    ensures
        deterministic::<A>() ==> r == shortened::<A>(a),
{
    reveal(deterministic);
    A::shorten(a)
}

pub fn lengthen<A: Arith>(a: F16) -> (r: F32)
    ensures
        deterministic::<A>() ==> r == lengthened::<A>(a),
{
    reveal(deterministic);
    A::lengthen(a)
}

pub fn widen<A: Arith>(a: F32) -> (r: F64)
    ensures
        deterministic::<A>() ==> r == widened::<A>(a),
{
    reveal(deterministic);
    A::widen(a)
}

pub fn narrow<A: Arith>(a: F64) -> (r: F32)
    ensures
        deterministic::<A>() ==> r == narrowed::<A>(a),
{
    reveal(deterministic);
    A::narrow(a)
}

pub fn count32<A: Arith>(a: u64) -> (r: F32)
    ensures
        deterministic::<A>() ==> r == counted32::<A>(a),
{
    reveal(deterministic);
    A::count32(a)
}

pub fn count64<A: Arith>(a: u64) -> (r: F64)
    ensures
        deterministic::<A>() ==> r == counted64::<A>(a),
{
    reveal(deterministic);
    A::count64(a)
}

pub fn integer32<A: Arith>(a: i32) -> (r: F32)
    ensures
        deterministic::<A>() ==> r == integral32::<A>(a),
{
    reveal(deterministic);
    A::integer32(a)
}

pub fn parse32<A: Arith>(text: &str) -> (r: Option<F32>)
    ensures
        parses_to::<A>(text@, r),
        deterministic::<A>() ==> r == parsed32::<A>(text@),
{
    reveal(deterministic);
    A::parse32(text)
}

} // verus!
