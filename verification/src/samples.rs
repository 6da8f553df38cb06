//! What sampling does to the sums that trees are grown from.

use vstd::arithmetic::div_mod::lemma_fundamental_div_mod;
use vstd::arithmetic::div_mod::lemma_mod_bound;
use vstd::prelude::*;

use crate::arith::counted64;
use crate::arith::difference64;
use crate::arith::narrowed;
use crate::arith::product32;
use crate::arith::product64;
use crate::arith::quotient64;
use crate::arith::widened;
use crate::arith::Arith;
use crate::booster::fitted_problem;
use crate::config::Config;
use crate::cpu::stride_of;
use crate::cpu::Problem;
use crate::cpu::ALL_ROWS32;
use crate::data::Dataset;
use crate::float::BILLIONTH64;
use crate::float::F32;
use crate::float::F64;
use crate::float::ONE64;
use crate::objective::gradient;
use crate::objective::gradients_of;
use crate::objective::hessian;
use crate::reals::faithful;
use crate::reals::fits32;
use crate::reals::fits64;
use crate::reals::lemma_constants;
use crate::reals::lemma_counted64;
use crate::reals::lemma_difference64;
use crate::reals::lemma_narrowed;
use crate::reals::lemma_order32;
use crate::reals::lemma_order64;
use crate::reals::lemma_product32;
use crate::reals::lemma_product64;
use crate::reals::lemma_quotient64;
use crate::reals::lemma_widened;
use crate::rounding::lemma_nearest_count;
use crate::rounding::lemma_whole_part;
use crate::sampling::goss_draw;
use crate::sampling::goss_rule;
use crate::sampling::lemma_goss_rows;
use crate::sampling::strided;
use crate::sampling::top_count;

verus! {

/// A stride lists the rows that are a whole number of steps after its first one, and no others.
pub proof fn lemma_strided(start: int, stride: int, n: int, r: int)
    requires
        0 <= start < stride,
        0 <= r < n <= u32::MAX,
    ensures
        strided(start, stride, n).contains(r as u32) <==> r % stride == start,
{
    let rows = strided(start, stride, n);
    lemma_fundamental_div_mod(r, stride);
    lemma_mod_bound(r, stride);
    if r % stride == start {
        let k = r / stride;
        assert(k >= 0) by (nonlinear_arith)
            requires
                k == r / stride,
                r >= 0,
                stride > 0,
        ;
        let m = n - start + stride - 1;
        assert(k * stride == stride * k) by (nonlinear_arith);
        lemma_fundamental_div_mod(m, stride);
        lemma_mod_bound(m, stride);
        let len = m / stride;
        assert(k < len) by (nonlinear_arith)
            requires
                m == stride * len + m % stride,
                m % stride < stride,
                stride * k + start < n,
                m == n - start + stride - 1,
                stride > 0,
        ;
        assert(rows[k] == r as u32);
    }
    if rows.contains(r as u32) {
        let k = choose|k: int| 0 <= k < rows.len() && rows[k] == r as u32;
        let m = n - start + stride - 1;
        lemma_fundamental_div_mod(m, stride);
        lemma_mod_bound(m, stride);
        let len = m / stride;
        assert(0 <= k * stride && start + k * stride < n) by (nonlinear_arith)
            requires
                0 <= k < len,
                m == stride * len + m % stride,
                0 <= m % stride,
                m == n - start + stride - 1,
                stride > 0,
        ;
        assert(start + k * stride == r);
        vstd::arithmetic::div_mod::lemma_fundamental_div_mod_converse(r, stride, k, start);
    }
}

/// The stride between sampled rows is the nearest whole number of rows to one for each share
/// that is asked for; all rows are taken from nearly all on.
pub proof fn lemma_stride<A: Arith>(share: F32)
    requires
        faithful::<A>(),
        share.finite(),
        0real < share.amount(),
        fits64(1real / share.amount()),
        stride_of::<A>(share) < usize::MAX,
        quotient64::<A>(F64 { bits: ONE64 }, widened::<A>(share)).nearest() < usize::MAX,
    ensures
        1 <= stride_of::<A>(share),
        !share.below(F32 { bits: ALL_ROWS32 }) ==> stride_of::<A>(share) == 1,
        share.below(F32 { bits: ALL_ROWS32 }) && 1real / share.amount() >= 1real / 2real ==> ({
            let gap = (stride_of::<A>(share) as real) - 1real / share.amount();
            -(1real / 2real) <= gap <= 1real / 2real
        }),
{
    let one = F64 { bits: ONE64 };
    lemma_constants();
    lemma_widened::<A>(share);
    let w = widened::<A>(share);
    lemma_quotient64::<A>(one, w);
    let q = quotient64::<A>(one, w);
    let s = share.amount();
    assert(0real < 1real / s) by (nonlinear_arith)
        requires
            0real < s,
    ;
    lemma_nearest_count(q);
}

/// The number of rows with top gradients is the integer part of the share of all rows that is
/// asked for, at least one and at most all.
pub proof fn lemma_top_rows<A: Arith>(top: F64, n: int)
    requires
        faithful::<A>(),
        top.finite(),
        0real <= top.amount(),
        0 < n <= u32::MAX,
        fits64(n as real),
        fits64(top.amount() * (n as real)),
        product64::<A>(top, counted64::<A>(n as u64)).whole() < usize::MAX,
    ensures
        ({
            let k = top_count::<A>(top, n);
            let share = top.amount() * (n as real);
            &&& 1 <= k <= n
            &&& 1real <= share && share < (n as real) + 1real ==> (k as real) <= share && share < (
            k as real) + 1real
            &&& share < 1real ==> k == 1
            &&& (n as real) <= share ==> k == n
        }),
{
    lemma_counted64::<A>(n as u64);
    let c = counted64::<A>(n as u64);
    lemma_product64::<A>(top, c);
    let t = top.amount();
    let m = n as real;
    assert(0real <= t * m) by (nonlinear_arith)
        requires
            0real <= t,
            0real <= m,
    ;
    lemma_whole_part(product64::<A>(top, c));
}

/// The steps towards the weight of sampled rows can be written down.
pub open spec fn weight_fits(top: real, other: real) -> bool {
    &&& (F64 { bits: BILLIONTH64 }).amount() <= other
    &&& (F64 { bits: BILLIONTH64 }).amount() <= 1real - top
    &&& other <= 1real - top
    &&& fits64(1real - top)
    &&& fits64(other / (1real - top))
    &&& fits64((1real - top) / other)
    &&& fits32((1real - top) / other)
}

/// Sampled rows stand for those that are left out: their weight times the share of rows that is
/// sampled is the share of rows without top gradients. The rate is the share that is sampled
/// among those.
pub proof fn lemma_goss_balance<A: Arith>(g: Seq<F32>, top: F64, other: F64, seed: u64)
    requires
        faithful::<A>(),
        top.finite(),
        other.finite(),
        weight_fits(top.amount(), other.amount()),
    ensures
        ({
            let rule = goss_rule::<A>(g, top, other, seed);
            &&& rule.factor.finite()
            &&& rule.factor.amount() * other.amount() == 1real - top.amount()
            &&& rule.rate.finite()
            &&& rule.rate.amount() * (1real - top.amount()) == other.amount()
        }),
{
    let one = F64 { bits: ONE64 };
    let zero = F64 { bits: 0 };
    let tiny = F64 { bits: BILLIONTH64 };
    lemma_constants();
    lemma_difference64::<A>(one, top);
    let rest = difference64::<A>(one, top);
    lemma_order64(rest, tiny);
    lemma_order64(other, tiny);
    lemma_order64(zero, tiny);
    let a = rest.amount();
    let b = other.amount();
    assert(0real < b && 0real < a);
    lemma_quotient64::<A>(other, rest);
    lemma_quotient64::<A>(rest, other);
    let rate = quotient64::<A>(other, rest);
    let factor = quotient64::<A>(rest, other);
    lemma_narrowed::<A>(factor);
    assert(b / a * a == b && a / b * b == a && 0real <= b / a && b / a <= 1real)
        by (nonlinear_arith)
        requires
            0real < a,
            0real < b,
            b <= a,
    ;
    lemma_order64(rate, zero);
    lemma_order64(one, rate);
}

/// In a round that is sampled by gradient, rows with top gradients count as they are; of the
/// others, those that are drawn are listed too, and their gradients and hessians are multiplied
/// by one weight.
pub proof fn lemma_round_weights<A: Arith>(prob: Problem, pred: Seq<F32>, t: nat, r: int)
    requires
        faithful::<A>(),
        prob.goss,
        pred.len() <= u32::MAX,
        0 <= r < pred.len(),
        ({
            let g = gradients_of::<A>(prob.logistic, pred, prob.y);
            let w = goss_rule::<A>(g, prob.goss_top, prob.goss_other, t as u64).factor;
            let own = gradient::<A>(prob.logistic, pred[r], prob.y[r]);
            let bend = hessian::<A>(prob.logistic, pred[r]);
            &&& own.finite()
            &&& bend.finite()
            &&& w.finite()
            &&& fits32(own.amount() * w.amount())
            &&& fits32(bend.amount() * w.amount())
        }),
    ensures
        ({
            let g = gradients_of::<A>(prob.logistic, pred, prob.y);
            let rule = goss_rule::<A>(g, prob.goss_top, prob.goss_other, t as u64);
            let own = gradient::<A>(prob.logistic, pred[r], prob.y[r]);
            let bend = hessian::<A>(prob.logistic, pred[r]);
            let round = prob.round::<A>(pred, t);
            let top = rule.thresh.at_most(own.absolute());
            &&& round.rows.contains(r as u32) <==> top || rule.is_drawn::<A>(r)
            &&& top ==> round.g[r] == own && round.h[r] == bend
            &&& !top && rule.is_drawn::<A>(r) ==> round.g[r].means(
                own.amount() * rule.factor.amount(),
            ) && round.h[r].means(bend.amount() * rule.factor.amount())
        }),
{
    let g = gradients_of::<A>(prob.logistic, pred, prob.y);
    let rule = goss_rule::<A>(g, prob.goss_top, prob.goss_other, t as u64);
    lemma_goss_rows::<A>(rule, g, r);
    lemma_product32::<A>(gradient::<A>(prob.logistic, pred[r], prob.y[r]), rule.factor);
    lemma_product32::<A>(hessian::<A>(prob.logistic, pred[r]), rule.factor);
}

/// A row is drawn just where its number, as a share of all numbers, is below the rate: none is
/// at rate zero, and all are at rate one.
pub proof fn lemma_draws<A: Arith>(g: Seq<F32>, top: F64, other: F64, seed: u64, r: int)
    requires
        faithful::<A>(),
        goss_rule::<A>(g, top, other, seed).rate.finite(),
        fits64(0x20_0000_0000_0000u64 as real),
        fits64((goss_draw(r as u64, seed) >> 11) as real),
        fits64(((goss_draw(r as u64, seed) >> 11) as real) / (0x20_0000_0000_0000u64 as real)),
    ensures
        ({
            let rule = goss_rule::<A>(g, top, other, seed);
            let rate = rule.rate.amount();
            let draw = goss_draw(r as u64, seed) >> 11;
            &&& rule.is_drawn::<A>(r) <==> (draw as real) < rate * (
            0x20_0000_0000_0000u64 as real)
            &&& rate <= 0real ==> !rule.is_drawn::<A>(r)
            &&& 1real <= rate ==> rule.is_drawn::<A>(r)
        }),
{
    let rule = goss_rule::<A>(g, top, other, seed);
    let d = goss_draw(r as u64, seed);
    let draw = d >> 11;
    assert(d >> 11 < 0x20_0000_0000_0000u64) by (bit_vector);
    lemma_counted64::<A>(draw);
    lemma_counted64::<A>(0x20_0000_0000_0000);
    let a = counted64::<A>(draw);
    let b = counted64::<A>(0x20_0000_0000_0000);
    lemma_quotient64::<A>(a, b);
    lemma_order64(quotient64::<A>(a, b), rule.rate);
    let x = a.amount();
    let y = b.amount();
    let q = rule.rate.amount();
    assert(x / y < q <==> x < q * y) by (nonlinear_arith)
        requires
            y > 0real,
    ;
    if q <= 0real {
        assert(q * y <= 0real) by (nonlinear_arith)
            requires
                q <= 0real,
                y > 0real,
        ;
    }
    if 1real <= q {
        assert(y <= q * y) by (nonlinear_arith)
            requires
                1real <= q,
                y > 0real,
        ;
    }
}

/// Without sampling by gradient, a tree is grown from every row that is a whole number of strides
/// after the one that it begins with; trees take turns in where they begin.
pub proof fn lemma_round_rows<A: Arith>(prob: Problem, pred: Seq<F32>, t: nat, r: int)
    requires
        !prob.goss,
        0 < prob.stride,
        0 <= r < prob.n <= u32::MAX,
    ensures
        prob.round::<A>(pred, t).rows.contains(r as u32) <==> r % (prob.stride as int) == t as int
            % (prob.stride as int),
{
    lemma_mod_bound(t as int, prob.stride as int);
    lemma_strided(t as int % (prob.stride as int), prob.stride as int, prob.n as int, r);
}

/// A fit on the host samples as the configuration asks for.
pub proof fn lemma_fitted_sampling<A: Arith>(ds: Dataset, cfg: Config, workers: nat)
    requires
        faithful::<A>(),
        cfg.goss_top.finite(),
        cfg.goss_other.finite(),
    ensures
        ({
            let p = fitted_problem::<A>(ds, cfg, workers);
            &&& p.goss <==> 0real < cfg.goss_top.amount()
            &&& p.goss_top.means(cfg.goss_top.amount())
            &&& p.goss_other.means(cfg.goss_other.amount())
            &&& p.stride == stride_of::<A>(cfg.subsample)
            &&& p.logistic <==> cfg.objective is Logistic
        }),
{
    lemma_constants();
    lemma_widened::<A>(cfg.goss_top);
    lemma_widened::<A>(cfg.goss_other);
    lemma_order32(F32 { bits: 0 }, cfg.goss_top);
}

} // verus!
