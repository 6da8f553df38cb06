//! How gradients and hessians follow scores and labels.

use vstd::prelude::*;

use crate::arith::difference32;
use crate::arith::exponential32;
use crate::arith::product32;
use crate::arith::quotient32;
use crate::arith::sum32;
use crate::arith::Arith;
use crate::cpu::Problem;
use crate::float::F32;
use crate::float::MILLIONTH32;
use crate::float::ONE32;
use crate::gpu::rows::logistic_hessian;
use crate::objective::gradient;
use crate::objective::hessian;
use crate::objective::sigmoid;
use crate::reals::faithful;
use crate::reals::fits32;
use crate::reals::lemma_constants;
use crate::reals::lemma_difference32;
use crate::reals::lemma_order32;
use crate::reals::lemma_product32;
use crate::reals::lemma_quotient32;
use crate::reals::lemma_sign32;
use crate::reals::lemma_sum32;
use crate::reals::orderly32;

verus! {

/// The probability does not fall as the score rises, and lies between zero and one.
pub proof fn lemma_probability_rises<A: Arith>(p: F32, q: F32)
    requires
        faithful::<A>(),
        orderly32::<A>(),
        p.at_most(q),
    ensures
        sigmoid::<A>(p).at_most(sigmoid::<A>(q)),
        (F32 { bits: 0 }).at_most(sigmoid::<A>(p)),
        sigmoid::<A>(q).at_most(F32 { bits: ONE32 }),
{
    reveal(orderly32);
    let zero = F32 { bits: 0 };
    let one = F32 { bits: ONE32 };
    lemma_constants();
    lemma_sign32(p);
    lemma_sign32(q);
    let a = exponential32::<A>(p.opposite());
    let b = exponential32::<A>(q.opposite());
    assert(b.at_most(a));
    lemma_sum32::<A>(one, zero);
    let s = sum32::<A>(one, a);
    let t = sum32::<A>(one, b);
    lemma_order32(sum32::<A>(one, zero), one);
    lemma_order32(zero, one);
    assert(zero.at_most(b));
    assert(sum32::<A>(one, zero).at_most(t));
    assert(t.at_most(s));
    let whole = sum32::<A>(one, zero);
    assert(whole.positive());
    assert(t.positive() && s.positive());
    assert(quotient32::<A>(one, s).at_most(quotient32::<A>(one, t)));
    assert(1real / 1real == 1real);
    lemma_quotient32::<A>(one, whole);
    lemma_order32(quotient32::<A>(one, whole), one);
    assert(quotient32::<A>(one, t).at_most(quotient32::<A>(one, whole)));
    assert(one.nonnegative() && one.finite());
    assert(quotient32::<A>(one, s).nonnegative());
}

/// The gradient of a row does not fall as its score rises. With the logistic objective it goes
/// to zero as the score goes in the direction of the label: it is not negative where the label
/// is zero, and not positive where it is one.
pub proof fn lemma_gradient_rises<A: Arith>(logistic: bool, p: F32, q: F32, y: F32)
    requires
        faithful::<A>(),
        orderly32::<A>(),
        p.at_most(q),
        y.finite(),
    ensures
        gradient::<A>(logistic, p, y).at_most(gradient::<A>(logistic, q, y)),
        logistic && y.means(0real) ==> (F32 { bits: 0 }).at_most(gradient::<A>(logistic, p, y)),
        logistic && y.means(1real) ==> gradient::<A>(logistic, q, y).at_most(F32 { bits: 0 }),
{
    reveal(orderly32);
    let zero = F32 { bits: 0 };
    let one = F32 { bits: ONE32 };
    lemma_constants();
    lemma_order32(y, y);
    if logistic {
        lemma_probability_rises::<A>(p, q);
        if y.means(0real) {
            lemma_difference32::<A>(zero, y);
            lemma_order32(difference32::<A>(zero, y), zero);
            assert(difference32::<A>(zero, y).at_most(gradient::<A>(logistic, p, y)));
        }
        if y.means(1real) {
            lemma_difference32::<A>(one, y);
            lemma_order32(difference32::<A>(one, y), zero);
            assert(gradient::<A>(logistic, q, y).at_most(difference32::<A>(one, y)));
        }
    }
}

/// The odds of a probability are e to the score: the chance of the other outcome is e to minus
/// the score times that of this one, where the steps towards it are not rounded.
pub proof fn lemma_odds<A: Arith>(p: F32)
    requires
        faithful::<A>(),
        exponential32::<A>(p.opposite()).finite(),
        0real <= exponential32::<A>(p.opposite()).amount(),
        fits32(1real + exponential32::<A>(p.opposite()).amount()),
        fits32(1real / (1real + exponential32::<A>(p.opposite()).amount())),
    ensures
        sigmoid::<A>(p).finite(),
        1real - sigmoid::<A>(p).amount() == sigmoid::<A>(p).amount() * exponential32::<A>(
            p.opposite(),
        ).amount(),
{
    let one = F32 { bits: ONE32 };
    let e = exponential32::<A>(p.opposite());
    lemma_constants();
    lemma_sum32::<A>(one, e);
    let s = sum32::<A>(one, e);
    lemma_quotient32::<A>(one, s);
    let x = e.amount();
    let r = sigmoid::<A>(p).amount();
    assert(1real - r == r * x) by (nonlinear_arith)
        requires
            0real <= x,
            r == 1real / (1real + x),
    ;
}

/// A gradient is the difference of what the score predicts, itself or its probability, and the
/// label; a hessian is one, or the variance of the probability, at least a millionth.
pub proof fn lemma_derivatives<A: Arith>(logistic: bool, p: F32, y: F32)
    requires
        faithful::<A>(),
        p.finite(),
        y.finite(),
        sigmoid::<A>(p).finite(),
        !logistic ==> fits32(p.amount() - y.amount()),
        logistic ==> fits32(sigmoid::<A>(p).amount() - y.amount()) && fits32(
            1real - sigmoid::<A>(p).amount(),
        ) && fits32(sigmoid::<A>(p).amount() * (1real - sigmoid::<A>(p).amount())),
    ensures
        !logistic ==> gradient::<A>(logistic, p, y).means(p.amount() - y.amount()),
        !logistic ==> hessian::<A>(logistic, p).means(1real),
        logistic ==> gradient::<A>(logistic, p, y).means(
            sigmoid::<A>(p).amount() - y.amount(),
        ),
        logistic ==> hessian::<A>(logistic, p).finite() && hessian::<A>(logistic, p).amount() == ({
            let v = sigmoid::<A>(p).amount() * (1real - sigmoid::<A>(p).amount());
            let least = (F32 { bits: MILLIONTH32 }).amount();
            if v < least {
                least
            } else {
                v
            }
        }),
{
    let one = F32 { bits: ONE32 };
    let pr = sigmoid::<A>(p);
    lemma_constants();
    if logistic {
        lemma_difference32::<A>(pr, y);
        lemma_difference32::<A>(one, pr);
        let rest = difference32::<A>(one, pr);
        lemma_product32::<A>(pr, rest);
        lemma_order32(product32::<A>(pr, rest), F32 { bits: MILLIONTH32 });
    } else {
        lemma_difference32::<A>(p, y);
    }
}

/// In a round of training without sampling by gradient, the gradients of the rows do not fall as
/// their scores rise, and a row whose score stays keeps its gradient and its hessian.
pub proof fn lemma_round_rises<A: Arith>(
    prob: Problem,
    pred: Seq<F32>,
    raised: Seq<F32>,
    t: nat,
    i: int,
)
    requires
        faithful::<A>(),
        orderly32::<A>(),
        !prob.goss,
        0 <= i < pred.len(),
        pred.len() == raised.len(),
        pred[i].at_most(raised[i]),
        prob.y[i].finite(),
    ensures
        prob.round::<A>(pred, t).g.len() == pred.len(),
        prob.round::<A>(pred, t).h.len() == pred.len(),
        prob.round::<A>(pred, t).g[i].at_most(prob.round::<A>(raised, t).g[i]),
        prob.logistic && prob.y[i].means(0real) ==> (F32 { bits: 0 }).at_most(
            prob.round::<A>(pred, t).g[i],
        ),
        prob.logistic && prob.y[i].means(1real) ==> prob.round::<A>(raised, t).g[i].at_most(
            F32 { bits: 0 },
        ),
        pred[i] == raised[i] ==> prob.round::<A>(pred, t).g[i] == prob.round::<A>(raised, t).g[i]
            && prob.round::<A>(pred, t).h[i] == prob.round::<A>(raised, t).h[i],
{
    lemma_gradient_rises::<A>(prob.logistic, pred[i], raised[i], prob.y[i]);
}

/// On a device the logistic hessian is the variance of the probability as well, at least a
/// millionth.
pub proof fn lemma_device_hessian<A: Arith>(p: F32)
    requires
        faithful::<A>(),
        sigmoid::<A>(p).finite(),
        fits32(1real - sigmoid::<A>(p).amount()),
        fits32(sigmoid::<A>(p).amount() * (1real - sigmoid::<A>(p).amount())),
    ensures
        logistic_hessian::<A>(p).finite(),
        logistic_hessian::<A>(p).amount() == ({
            let v = sigmoid::<A>(p).amount() * (1real - sigmoid::<A>(p).amount());
            let least = (F32 { bits: MILLIONTH32 }).amount();
            if v < least {
                least
            } else {
                v
            }
        }),
{
    let one = F32 { bits: ONE32 };
    let pr = sigmoid::<A>(p);
    lemma_constants();
    lemma_difference32::<A>(one, pr);
    let rest = difference32::<A>(one, pr);
    lemma_product32::<A>(pr, rest);
    lemma_order32(product32::<A>(pr, rest), F32 { bits: MILLIONTH32 });
}

} // verus!
