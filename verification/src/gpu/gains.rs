//! What splits gain on a device.

use vstd::prelude::*;

use crate::arith::Arith;
use crate::config::Config;
use crate::data::Dataset;
use crate::float::F32;
use crate::float::F64;
use crate::float::ONE32;
use crate::gains::worth;
use crate::gpu::acc::Accum;
use crate::gpu::fit::device_task;
use crate::gpu::machine::PairState;
use crate::gpu::split::cumulated;
use crate::gpu::split::node_score;
use crate::gpu::split::Rating;
use crate::gpu::split::NO_GAIN32;
use crate::reals::faithful;
use crate::reals::fits32;
use crate::reals::fits64;
use crate::reals::lemma_constants;
use crate::reals::lemma_difference32;
use crate::reals::lemma_difference64;
use crate::reals::lemma_narrowed;
use crate::reals::lemma_order32;
use crate::reals::lemma_order64;
use crate::reals::lemma_product32;
use crate::reals::lemma_product64;
use crate::reals::lemma_quotient32;
use crate::reals::lemma_quotient64;
use crate::reals::lemma_sign32;
use crate::reals::lemma_sign64;
use crate::reals::lemma_sum32;
use crate::reals::lemma_sum64;
use crate::reals::lemma_widened;
use crate::sums::total;

verus! {

/// A precision computes without rounding what can be written in it. `reads` says which real
/// number a number of it stands for, and `fits` which ones can be written.
#[verifier::opaque]
pub open spec fn computes<A: Arith, C: Accum<A>>(
    reads: spec_fn(C, real) -> bool,
    fits: spec_fn(real) -> bool,
) -> bool {
    &&& reads(C::nil(), 0real)
    &&& forall|a: F32| a.finite() ==> reads(#[trigger] C::lifted(a), a.amount())
    &&& forall|x: C, y: C, p: real, q: real| #[trigger]
        reads(x, p) && #[trigger] reads(y, q) ==> {
            &&& fits(p + q) ==> reads(x.plus(y), p + q)
            &&& fits(p - q) ==> reads(x.minus(y), p - q)
            &&& fits(p * q) ==> reads(x.times(y), p * q)
            &&& q != 0real && fits(p / q) ==> reads(x.over(y), p / q)
            &&& x.smaller(y) == (p < q)
            &&& x.no_larger(y) == (p <= q)
        }
    &&& forall|x: C, p: real| #[trigger] reads(x, p) ==> reads(x.negative(), -p)
    &&& forall|x: C, p: real| #[trigger] reads(x, p) && fits32(p) ==> x.lowered().means(p)
}

/// Single precision computes what can be written in it.
pub proof fn lemma_single_computes<A: Arith>()
    requires
        faithful::<A>(),
    ensures
        computes::<A, F32>(|x: F32, p: real| x.means(p), |p: real| fits32(p)),
{
    reveal(computes);
    let reads = |x: F32, p: real| x.means(p);
    let fits = |p: real| fits32(p);
    lemma_constants();
    assert forall|x: F32, y: F32, p: real, q: real| #[trigger]
        reads(x, p) && #[trigger] reads(y, q) implies {
        &&& fits(p + q) ==> reads(<F32 as Accum<A>>::plus(x, y), p + q)
        &&& fits(p - q) ==> reads(<F32 as Accum<A>>::minus(x, y), p - q)
        &&& fits(p * q) ==> reads(<F32 as Accum<A>>::times(x, y), p * q)
        &&& q != 0real && fits(p / q) ==> reads(<F32 as Accum<A>>::over(x, y), p / q)
        &&& <F32 as Accum<A>>::smaller(x, y) == (p < q)
        &&& <F32 as Accum<A>>::no_larger(x, y) == (p <= q)
    } by {
        lemma_order32(x, y);
        if fits(p + q) {
            lemma_sum32::<A>(x, y);
        }
        if fits(p - q) {
            lemma_difference32::<A>(x, y);
        }
        if fits(p * q) {
            lemma_product32::<A>(x, y);
        }
        if q != 0real && fits(p / q) {
            lemma_quotient32::<A>(x, y);
        }
    }
    assert forall|x: F32, p: real| #[trigger] reads(x, p) implies reads(
        <F32 as Accum<A>>::negative(x),
        -p,
    ) by {
        lemma_sign32(x);
    }
}

/// Double precision computes what can be written in it.
pub proof fn lemma_double_computes<A: Arith>()
    requires
        faithful::<A>(),
    ensures
        computes::<A, F64>(|x: F64, p: real| x.means(p), |p: real| fits64(p)),
{
    reveal(computes);
    let reads = |x: F64, p: real| x.means(p);
    let fits = |p: real| fits64(p);
    lemma_constants();
    assert forall|a: F32| a.finite() implies reads(
        #[trigger] <F64 as Accum<A>>::lifted(a),
        a.amount(),
    ) by {
        lemma_widened::<A>(a);
    }
    assert forall|x: F64, y: F64, p: real, q: real| #[trigger]
        reads(x, p) && #[trigger] reads(y, q) implies {
        &&& fits(p + q) ==> reads(<F64 as Accum<A>>::plus(x, y), p + q)
        &&& fits(p - q) ==> reads(<F64 as Accum<A>>::minus(x, y), p - q)
        &&& fits(p * q) ==> reads(<F64 as Accum<A>>::times(x, y), p * q)
        &&& q != 0real && fits(p / q) ==> reads(<F64 as Accum<A>>::over(x, y), p / q)
        &&& <F64 as Accum<A>>::smaller(x, y) == (p < q)
        &&& <F64 as Accum<A>>::no_larger(x, y) == (p <= q)
    } by {
        lemma_order64(x, y);
        if fits(p + q) {
            lemma_sum64::<A>(x, y);
        }
        if fits(p - q) {
            lemma_difference64::<A>(x, y);
        }
        if fits(p * q) {
            lemma_product64::<A>(x, y);
        }
        if q != 0real && fits(p / q) {
            lemma_quotient64::<A>(x, y);
        }
    }
    assert forall|x: F64, p: real| #[trigger] reads(x, p) implies reads(
        <F64 as Accum<A>>::negative(x),
        -p,
    ) by {
        lemma_sign64(x);
    }
    assert forall|x: F64, p: real| #[trigger] reads(x, p) && fits32(p) implies <F64 as Accum<
        A,
    >>::lowered(x).means(p) by {
        lemma_narrowed::<A>(x);
    }
}

proof fn lemma_two<A: Arith, C: Accum<A>>(
    reads: spec_fn(C, real) -> bool,
    fits: spec_fn(real) -> bool,
    x: C,
    y: C,
    p: real,
    q: real,
)
    requires
        computes::<A, C>(reads, fits),
        reads(x, p),
        reads(y, q),
    ensures
        fits(p + q) ==> reads(x.plus(y), p + q),
        fits(p - q) ==> reads(x.minus(y), p - q),
        fits(p * q) ==> reads(x.times(y), p * q),
        q != 0real && fits(p / q) ==> reads(x.over(y), p / q),
        x.smaller(y) == (p < q),
        x.no_larger(y) == (p <= q),
{
    reveal(computes);
}

proof fn lemma_one<A: Arith, C: Accum<A>>(
    reads: spec_fn(C, real) -> bool,
    fits: spec_fn(real) -> bool,
    x: C,
    p: real,
    a: F32,
)
    requires
        computes::<A, C>(reads, fits),
        reads(x, p),
    ensures
        reads(C::nil(), 0real),
        a.finite() ==> reads(C::lifted(a), a.amount()),
        reads(x.negative(), -p),
        fits32(p) ==> x.lowered().means(p),
{
    reveal(computes);
}

/// What stands in the bins of node `nd` and feature `f`, bin by bin.
pub open spec fn bins_at(r: Rating, hist: Seq<F32>, nd: int, f: int) -> spec_fn(int) -> real {
    |b: int| hist[(nd * r.nf + f) * r.nb + b].amount()
}

/// The sum of the first `k` bins of feature `f` at node `nd`: gradients, or hessians.
pub open spec fn bin_sum(r: Rating, hist: Seq<F32>, nd: int, f: int, k: int) -> real {
    total(k as nat, bins_at(r, hist, nd, f))
}

/// The bins of a feature at a node are finite, and their running sums can be written.
pub open spec fn bins_fit(
    fits: spec_fn(real) -> bool,
    r: Rating,
    hist: Seq<F32>,
    nd: int,
    f: int,
) -> bool {
    &&& forall|b: int|
        0 <= b < r.nb ==> (#[trigger] hist[(nd * r.nf + f) * r.nb + b]).finite()
    &&& forall|k: int| 0 <= k <= r.nb ==> fits(#[trigger] bin_sum(r, hist, nd, f, k))
}

proof fn lemma_cumulated<A: Arith, C: Accum<A>>(
    reads: spec_fn(C, real) -> bool,
    fits: spec_fn(real) -> bool,
    r: Rating,
    hist: Seq<F32>,
    nd: int,
    f: int,
    k: nat,
)
    requires
        computes::<A, C>(reads, fits),
        bins_fit(fits, r, hist, nd, f),
        k <= r.nb,
    ensures
        reads(
            cumulated::<A, C>(hist, (nd * r.nf + f) * r.nb, k),
            bin_sum(r, hist, nd, f, k as int),
        ),
    decreases k,
{
    let base = (nd * r.nf + f) * r.nb;
    if k == 0 {
        assert(reads(C::nil(), 0real)) by {
            reveal(computes);
        }
    } else {
        lemma_cumulated::<A, C>(reads, fits, r, hist, nd, f, (k - 1) as nat);
        let x = cumulated::<A, C>(hist, base, (k - 1) as nat);
        let v = hist[base + (k - 1)];
        assert(v.finite());
        lemma_one::<A, C>(reads, fits, x, bin_sum(r, hist, nd, f, k - 1), v);
        lemma_two::<A, C>(
            reads,
            fits,
            x,
            C::lifted(v),
            bin_sum(r, hist, nd, f, k - 1),
            v.amount(),
        );
        assert(fits(bin_sum(r, hist, nd, f, k as int)));
    }
}

/// The rows of a node that a split sends one way, by their gradient and hessian sums.
pub struct Shares {
    pub gl: real,
    pub hl: real,
    pub g: real,
    pub h: real,
}

/// What the split of feature `f` after bin `t` makes of node `nd`.
pub open spec fn shares(r: Rating, nd: int, f: int, t: int) -> Shares {
    Shares {
        gl: bin_sum(r, r.hist_g, nd, f, t + 1),
        hl: bin_sum(r, r.hist_h, nd, f, t + 1),
        g: bin_sum(r, r.hist_g, nd, f, r.nb),
        h: bin_sum(r, r.hist_h, nd, f, r.nb),
    }
}

/// What parting a node gains.
pub open spec fn share_gain(s: Shares, lambda: real) -> real {
    worth(s.gl, s.hl, lambda) + worth(s.g - s.gl, s.h - s.hl, lambda) - worth(s.g, s.h, lambda)
}

/// What a split gains at each node.
pub open spec fn share_gains(r: Rating, f: int, t: int) -> spec_fn(int) -> real {
    |nd: int| share_gain(shares(r, nd, f, t), r.lambda.amount())
}

/// The gradient sums of the left parts.
pub open spec fn lefts_g(r: Rating, f: int, t: int) -> spec_fn(int) -> real {
    |nd: int| shares(r, nd, f, t).gl
}

/// The hessian sums of the left parts.
pub open spec fn lefts_h(r: Rating, f: int, t: int) -> spec_fn(int) -> real {
    |nd: int| shares(r, nd, f, t).hl
}

/// The gradient sums of the right parts.
pub open spec fn rights_g(r: Rating, f: int, t: int) -> spec_fn(int) -> real {
    |nd: int| shares(r, nd, f, t).g - shares(r, nd, f, t).gl
}

/// The hessian sums of the right parts.
pub open spec fn rights_h(r: Rating, f: int, t: int) -> spec_fn(int) -> real {
    |nd: int| shares(r, nd, f, t).h - shares(r, nd, f, t).hl
}

/// Neither part of node `nd` has too small a hessian sum.
pub open spec fn large_enough(r: Rating, nd: int, f: int, t: int) -> bool {
    let s = shares(r, nd, f, t);
    r.min_child.amount() <= s.hl && r.min_child.amount() <= s.h - s.hl
}

/// What a node is worth can be written.
pub open spec fn worth_fits(fits: spec_fn(real) -> bool, g: real, h: real, lambda: real) -> bool {
    &&& h + lambda != 0real
    &&& fits(g * g)
    &&& fits(h + lambda)
    &&& fits(worth(g, h, lambda))
}

/// The steps towards what a split makes of node `nd` can be written.
pub open spec fn share_fits(
    fits: spec_fn(real) -> bool,
    r: Rating,
    f: int,
    t: int,
    nd: int,
) -> bool {
    let s = shares(r, nd, f, t);
    let lambda = r.lambda.amount();
    let a = worth(s.gl, s.hl, lambda);
    let b = worth(s.g - s.gl, s.h - s.hl, lambda);
    let after = (nd + 1) as nat;
    &&& bins_fit(fits, r, r.hist_g, nd, f)
    &&& bins_fit(fits, r, r.hist_h, nd, f)
    &&& fits(s.g - s.gl)
    &&& fits(s.h - s.hl)
    &&& worth_fits(fits, s.gl, s.hl, lambda)
    &&& worth_fits(fits, s.g - s.gl, s.h - s.hl, lambda)
    &&& worth_fits(fits, s.g, s.h, lambda)
    &&& fits(a + b)
    &&& fits(share_gain(s, lambda))
    &&& fits(total(after, share_gains(r, f, t)))
    &&& fits(total(after, lefts_g(r, f, t)))
    &&& fits(total(after, lefts_h(r, f, t)))
    &&& fits(total(after, rights_g(r, f, t)))
    &&& fits(total(after, rights_h(r, f, t)))
}

proof fn lemma_node_score<A: Arith, C: Accum<A>>(
    reads: spec_fn(C, real) -> bool,
    fits: spec_fn(real) -> bool,
    g: C,
    h: C,
    lam: C,
    p: real,
    q: real,
    lambda: real,
)
    requires
        computes::<A, C>(reads, fits),
        reads(g, p),
        reads(h, q),
        reads(lam, lambda),
        worth_fits(fits, p, q, lambda),
    ensures
        reads(node_score::<A, C>(g, h, lam), worth(p, q, lambda)),
{
    lemma_two::<A, C>(reads, fits, g, g, p, p);
    lemma_two::<A, C>(reads, fits, h, lam, q, lambda);
    lemma_two::<A, C>(reads, fits, g.times(g), h.plus(lam), p * p, q + lambda);
}

proof fn lemma_sides<A: Arith, C: Accum<A>>(
    reads: spec_fn(C, real) -> bool,
    fits: spec_fn(real) -> bool,
    r: Rating,
    f: int,
    t: int,
    k: nat,
)
    requires
        computes::<A, C>(reads, fits),
        0 <= t < r.nb - 1,
        r.lambda.finite(),
        r.min_child.finite(),
        forall|nd: int| 0 <= nd < k ==> #[trigger] share_fits(fits, r, f, t, nd),
    ensures
        ({
            let s = r.sides::<A, C>(f, t, k);
            &&& reads(s.gain, total(k, share_gains(r, f, t)))
            &&& reads(s.gl, total(k, lefts_g(r, f, t)))
            &&& reads(s.hl, total(k, lefts_h(r, f, t)))
            &&& reads(s.gr, total(k, rights_g(r, f, t)))
            &&& reads(s.hr, total(k, rights_h(r, f, t)))
            &&& s.feasible <==> exists|nd: int| 0 <= nd < k && #[trigger] large_enough(r, nd, f, t)
        }),
    decreases k,
{
    if k == 0 {
        assert(reads(C::nil(), 0real)) by {
            reveal(computes);
        }
    } else {
        let low = (k - 1) as nat;
        lemma_sides::<A, C>(reads, fits, r, f, t, low);
        let before = r.sides::<A, C>(f, t, low);
        let nd = k - 1;
        assert(share_fits(fits, r, f, t, nd));
        let s = shares(r, nd, f, t);
        let base = (nd * r.nf + f) * r.nb;
        let lambda = r.lambda.amount();
        lemma_cumulated::<A, C>(reads, fits, r, r.hist_g, nd, f, (t + 1) as nat);
        lemma_cumulated::<A, C>(reads, fits, r, r.hist_h, nd, f, (t + 1) as nat);
        lemma_cumulated::<A, C>(reads, fits, r, r.hist_g, nd, f, r.nb as nat);
        lemma_cumulated::<A, C>(reads, fits, r, r.hist_h, nd, f, r.nb as nat);
        let gl = cumulated::<A, C>(r.hist_g, base, (t + 1) as nat);
        let hl = cumulated::<A, C>(r.hist_h, base, (t + 1) as nat);
        let gt = cumulated::<A, C>(r.hist_g, base, r.nb as nat);
        let ht = cumulated::<A, C>(r.hist_h, base, r.nb as nat);
        lemma_two::<A, C>(reads, fits, gt, gl, s.g, s.gl);
        lemma_two::<A, C>(reads, fits, ht, hl, s.h, s.hl);
        let gr = gt.minus(gl);
        let hr = ht.minus(hl);
        lemma_one::<A, C>(reads, fits, gl, s.gl, r.lambda);
        lemma_one::<A, C>(reads, fits, gl, s.gl, r.min_child);
        let lam = C::lifted(r.lambda);
        let least = C::lifted(r.min_child);
        lemma_node_score::<A, C>(reads, fits, gl, hl, lam, s.gl, s.hl, lambda);
        lemma_node_score::<A, C>(reads, fits, gr, hr, lam, s.g - s.gl, s.h - s.hl, lambda);
        lemma_node_score::<A, C>(reads, fits, gt, ht, lam, s.g, s.h, lambda);
        let a = node_score::<A, C>(gl, hl, lam);
        let b = node_score::<A, C>(gr, hr, lam);
        let c = node_score::<A, C>(gt, ht, lam);
        let wa = worth(s.gl, s.hl, lambda);
        let wb = worth(s.g - s.gl, s.h - s.hl, lambda);
        let wc = worth(s.g, s.h, lambda);
        lemma_two::<A, C>(reads, fits, a, b, wa, wb);
        lemma_two::<A, C>(reads, fits, a.plus(b), c, wa + wb, wc);
        let own = a.plus(b).minus(c);
        lemma_two::<A, C>(
            reads,
            fits,
            before.gain,
            own,
            total(low, share_gains(r, f, t)),
            share_gain(s, lambda),
        );
        lemma_two::<A, C>(reads, fits, before.gl, gl, total(low, lefts_g(r, f, t)), s.gl);
        lemma_two::<A, C>(reads, fits, before.hl, hl, total(low, lefts_h(r, f, t)), s.hl);
        lemma_two::<A, C>(reads, fits, before.gr, gr, total(low, rights_g(r, f, t)), s.g - s.gl);
        lemma_two::<A, C>(reads, fits, before.hr, hr, total(low, rights_h(r, f, t)), s.h - s.hl);
        lemma_two::<A, C>(reads, fits, least, hl, r.min_child.amount(), s.hl);
        lemma_two::<A, C>(reads, fits, least, hr, r.min_child.amount(), s.h - s.hl);
        assert((least.no_larger(hl) && least.no_larger(hr)) == large_enough(r, nd, f, t));
        let now = r.sides::<A, C>(f, t, k);
        assert(now.feasible <==> exists|q: int| 0 <= q < k && #[trigger] large_enough(r, q, f, t))
            by {
            if exists|q: int| 0 <= q < k && #[trigger] large_enough(r, q, f, t) {
                let q = choose|q: int| 0 <= q < k && #[trigger] large_enough(r, q, f, t);
                if q < low {
                    assert(before.feasible);
                }
            }
        }
    }
}

/// The value that rows with the given sums would have as one leaf, before it is shrunk.
pub open spec fn leaf_weight(g: real, h: real, lambda: real) -> real {
    -g / (h + lambda)
}

/// That value can be written.
pub open spec fn weight_fits(fits: spec_fn(real) -> bool, g: real, h: real, lambda: real) -> bool {
    &&& h + lambda != 0real
    &&& fits(h + lambda)
    &&& fits(leaf_weight(g, h, lambda))
}

/// The left and the right rows of a split go against the direction that its feature has to go
/// in.
pub open spec fn goes_against(r: Rating, f: int, t: int) -> bool {
    let k = r.groups as nat;
    let lambda = r.lambda.amount();
    let wl = leaf_weight(total(k, lefts_g(r, f, t)), total(k, lefts_h(r, f, t)), lambda);
    let wr = leaf_weight(total(k, rights_g(r, f, t)), total(k, rights_h(r, f, t)), lambda);
    (r.monotone[f] > 0 && wr < wl) || (r.monotone[f] < 0 && wl < wr)
}

/// The steps towards the gain of a split can be written.
pub open spec fn split_fits(fits: spec_fn(real) -> bool, r: Rating, f: int, t: int) -> bool {
    let k = r.groups as nat;
    let lambda = r.lambda.amount();
    &&& r.lambda.finite()
    &&& r.min_child.finite()
    &&& forall|nd: int| 0 <= nd < k ==> #[trigger] share_fits(fits, r, f, t, nd)
    &&& weight_fits(fits, total(k, lefts_g(r, f, t)), total(k, lefts_h(r, f, t)), lambda)
    &&& weight_fits(fits, total(k, rights_g(r, f, t)), total(k, rights_h(r, f, t)), lambda)
    &&& fits32(total(k, share_gains(r, f, t)))
}

proof fn lemma_weight<A: Arith, C: Accum<A>>(
    reads: spec_fn(C, real) -> bool,
    fits: spec_fn(real) -> bool,
    g: C,
    h: C,
    lam: C,
    p: real,
    q: real,
    lambda: real,
)
    requires
        computes::<A, C>(reads, fits),
        reads(g, p),
        reads(h, q),
        reads(lam, lambda),
        weight_fits(fits, p, q, lambda),
    ensures
        reads(g.negative().over(h.plus(lam)), leaf_weight(p, q, lambda)),
{
    lemma_one::<A, C>(reads, fits, g, p, F32 { bits: 0 });
    lemma_two::<A, C>(reads, fits, h, lam, q, lambda);
    lemma_two::<A, C>(reads, fits, g.negative(), h.plus(lam), -p, q + lambda);
}

/// A split is worth what it gains at all nodes: at each, what the parts are worth more than the
/// whole. It may not be made after the last bin, where the parts of every node are too small, or
/// where the values of the two sides go against the direction of its feature; nor on a feature
/// that is left out, which none is where all features are asked for.
pub proof fn lemma_rated_gain<A: Arith, C: Accum<A>>(
    reads: spec_fn(C, real) -> bool,
    fits: spec_fn(real) -> bool,
    r: Rating,
    f: int,
    t: int,
)
    requires
        computes::<A, C>(reads, fits),
        0 <= f < r.nf,
        0 <= t < r.nb,
        0 <= r.groups,
        t + 1 < r.nb ==> split_fits(fits, r, f, t),
        !r.colsample.below(F32 { bits: ONE32 }),
    ensures
        ({
            let gain = r.gain::<A, C>(f * r.nb + t);
            let some = exists|nd: int| 0 <= nd < r.groups && #[trigger] large_enough(r, nd, f, t);
            &&& t + 1 == r.nb ==> gain == (F32 { bits: NO_GAIN32 })
            &&& t + 1 < r.nb && !some ==> gain == (F32 { bits: NO_GAIN32 })
            &&& t + 1 < r.nb && goes_against(r, f, t) ==> gain == (F32 { bits: NO_GAIN32 })
            &&& t + 1 < r.nb && some && !goes_against(r, f, t) ==> gain.means(
                total(r.groups as nat, share_gains(r, f, t)),
            )
        }),
{
    let id = f * r.nb + t;
    vstd::arithmetic::div_mod::lemma_fundamental_div_mod_converse(id, r.nb, f, t);
    assert(!r.dropped::<A>(f));
    if t + 1 < r.nb {
        let k = r.groups as nat;
        let lambda = r.lambda.amount();
        lemma_sides::<A, C>(reads, fits, r, f, t, k);
        let s = r.sides::<A, C>(f, t, k);
        let gain = total(k, share_gains(r, f, t));
        lemma_one::<A, C>(reads, fits, s.gain, gain, r.lambda);
        let lam = C::lifted(r.lambda);
        let gl = total(k, lefts_g(r, f, t));
        let hl = total(k, lefts_h(r, f, t));
        let gr = total(k, rights_g(r, f, t));
        let hr = total(k, rights_h(r, f, t));
        lemma_weight::<A, C>(reads, fits, s.gl, s.hl, lam, gl, hl, lambda);
        lemma_weight::<A, C>(reads, fits, s.gr, s.hr, lam, gr, hr, lambda);
        let wl = s.gl.negative().over(s.hl.plus(lam));
        let wr = s.gr.negative().over(s.hr.plus(lam));
        lemma_two::<A, C>(
            reads,
            fits,
            wl,
            wr,
            leaf_weight(gl, hl, lambda),
            leaf_weight(gr, hr, lambda),
        );
        lemma_two::<A, C>(
            reads,
            fits,
            wr,
            wl,
            leaf_weight(gr, hr, lambda),
            leaf_weight(gl, hl, lambda),
        );
        assert(r.against::<A, C>(f, s) == goes_against(r, f, t));
    }
}

/// Splits are rated with the regulariser, the least hessian sum, the share of features and the
/// directions that the configuration asks for.
pub proof fn lemma_rated_as_asked<A: Arith>(
    ds: Dataset,
    cfg: Config,
    halves: bool,
    hist: PairState,
    groups: int,
    seed: u32,
    f: int,
)
    requires
        0 <= f < ds.n_features,
    ensures
        ({
            let r = device_task::<A>(ds, cfg, halves).rating(hist, groups, seed);
            &&& r.hist_g == hist.g
            &&& r.hist_h == hist.h
            &&& r.groups == groups
            &&& r.lambda == cfg.lambda
            &&& r.min_child == cfg.min_child_h
            &&& r.colsample == cfg.colsample
            &&& f < cfg.monotone@.len() ==> r.monotone[f] == cfg.monotone@[f]
            &&& cfg.monotone@.len() <= f ==> r.monotone[f] == 0
        }),
{
}

} // verus!
