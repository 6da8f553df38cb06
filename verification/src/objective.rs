//! Gradients and hessians of the training objectives.

use vstd::prelude::*;

use crate::arith::add32;
use crate::arith::deterministic;
use crate::arith::difference32;
use crate::arith::div32;
use crate::arith::exp32;
use crate::arith::exponential32;
use crate::arith::mul32;
use crate::arith::product32;
use crate::arith::quotient32;
use crate::arith::sub32;
use crate::arith::sum32;
use crate::arith::Arith;
use crate::float::F32;
use crate::float::MILLIONTH32;
use crate::float::ONE32;
use crate::par::par_map;

verus! {

/// The probability that a score stands for: the logistic function of it.
pub open spec fn sigmoid<A: Arith>(p: F32) -> F32 {
    let one = F32 { bits: ONE32 };
    quotient32::<A>(one, sum32::<A>(one, exponential32::<A>(p.opposite())))
}

/// The gradient at score `p` of a row with label `y`.
pub open spec fn gradient<A: Arith>(logistic: bool, p: F32, y: F32) -> F32 {
    if logistic {
        difference32::<A>(sigmoid::<A>(p), y)
    } else {
        difference32::<A>(p, y)
    }
}

/// The hessian at score `p`; for the logistic objective it does not fall below a millionth.
pub open spec fn hessian<A: Arith>(logistic: bool, p: F32) -> F32 {
    let one = F32 { bits: ONE32 };
    if logistic {
        let pr = sigmoid::<A>(p);
        product32::<A>(pr, difference32::<A>(one, pr)).larger(F32 { bits: MILLIONTH32 })
    } else {
        one
    }
}

/// The gradients of all rows.
pub open spec fn gradients_of<A: Arith>(
    logistic: bool,
    pred: Seq<F32>,
    y: Seq<F32>,
) -> Seq<F32> {
    Seq::new(pred.len(), |i: int| gradient::<A>(logistic, pred[i], y[i]))
}

/// The hessians of all rows.
pub open spec fn hessians_of<A: Arith>(logistic: bool, pred: Seq<F32>) -> Seq<F32> {
    Seq::new(pred.len(), |i: int| hessian::<A>(logistic, pred[i]))
}

/// The probability that the score `p` stands for.
pub fn probability<A: Arith>(p: F32) -> (pr: F32)
    ensures
        deterministic::<A>() ==> pr == sigmoid::<A>(p),
{
    let one = F32 { bits: ONE32 };
    div32::<A>(one, add32::<A>(one, exp32::<A>(p.neg())))
}

/// The gradient at score `p` of a row with label `y`.
pub fn gradient_at<A: Arith>(logistic: bool, p: F32, y: F32) -> (g: F32)
    ensures
        deterministic::<A>() ==> g == gradient::<A>(logistic, p, y),
{
    if logistic {
        sub32::<A>(probability::<A>(p), y)
    } else {
        sub32::<A>(p, y)
    }
}

/// The hessian at score `p`.
pub fn hessian_at<A: Arith>(logistic: bool, p: F32) -> (h: F32)
    ensures
        deterministic::<A>() ==> h == hessian::<A>(logistic, p),
{
    let one = F32 { bits: ONE32 };
    if logistic {
        let pr = probability::<A>(p);
        mul32::<A>(pr, sub32::<A>(one, pr)).max(F32 { bits: MILLIONTH32 })
    } else {
        one
    }
}

/// The gradients and the hessians of all rows at the scores `pred`.
pub fn derivatives<A: Arith>(logistic: bool, pred: &[F32], y: &[F32]) -> (r: (Vec<F32>, Vec<F32>))
    requires
        pred@.len() <= y@.len(),
    ensures
        r.0@.len() == pred@.len(),
        r.1@.len() == pred@.len(),
        deterministic::<A>() ==> r.0@ == gradients_of::<A>(logistic, pred@, y@),
        deterministic::<A>() ==> r.1@ == hessians_of::<A>(logistic, pred@),
{
    let g: Vec<F32> = par_map(
        pred.len(),
        |i: usize| -> (g: F32)
            requires
                i < pred@.len(),
                pred@.len() <= y@.len(),
            ensures
                deterministic::<A>() ==> g == gradient::<A>(logistic, pred@[i as int], y@[i as int])
            { gradient_at::<A>(logistic, pred[i], y[i]) },
    );
    let h: Vec<F32> = par_map(
        pred.len(),
        |i: usize| -> (h: F32)
            requires
                i < pred@.len(),
            ensures
                deterministic::<A>() ==> h == hessian::<A>(logistic, pred@[i as int])
            { hessian_at::<A>(logistic, pred[i]) },
    );
    assert(deterministic::<A>() ==> g@ =~= gradients_of::<A>(logistic, pred@, y@));
    assert(deterministic::<A>() ==> h@ =~= hessians_of::<A>(logistic, pred@));
    (g, h)
}

} // verus!
