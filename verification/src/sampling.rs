//! Row sampling for one tree: gradient-based one-side sampling, and strides.

use vstd::prelude::*;

use crate::arith::count64;
use crate::arith::counted64;
use crate::arith::deterministic;
use crate::arith::difference64;
use crate::arith::div64;
use crate::arith::mul32;
use crate::arith::mul64;
use crate::arith::narrow;
use crate::arith::narrowed;
use crate::arith::product32;
use crate::arith::product64;
use crate::arith::quotient64;
use crate::arith::sub64;
use crate::arith::Arith;
use crate::float::BILLIONTH64;
use crate::float::F32;
use crate::float::F64;
use crate::float::ONE64;
use crate::order::lemma_order_exists;
use crate::order::sort_order;
use crate::order::sorted;
use crate::par::par_map;

verus! {

/// Mixed into every draw.
pub const GOSS_SALT: u64 = 0x0042_4552_455A_4B41;

/// The number drawn for row `r` under a seed.
pub open spec fn goss_draw(r: u64, seed: u64) -> u64 {
    let mixed = ((r ^ seed.wrapping_mul(0x9E37_79B9_7F4A_7C15)) ^ GOSS_SALT).wrapping_mul(
        0xD6E8_FEB8_6659_FD93,
    );
    mixed ^ (mixed >> 32)
}

/// What decides which rows are sampled: rows whose gradients reach the threshold are kept;
/// of the others, those whose draw is below the rate are kept and amplified by the factor.
pub struct GossRule {
    pub thresh: F32,
    pub rate: F64,
    pub factor: F32,
    pub seed: u64,
}

/// The gradients without their signs.
pub open spec fn absolutes(g: Seq<F32>) -> Seq<F32> {
    Seq::new(g.len(), |i: int| g[i].absolute())
}

/// How many rows the share `top` of `n` rows amounts to: at least one, at most all.
pub open spec fn top_count<A: Arith>(top: F64, n: int) -> int {
    let count = product64::<A>(top, counted64::<A>(n as u64)).whole();
    if count < 1 {
        1
    } else if count > n {
        n
    } else {
        count
    }
}

/// The rule that keeps the share `top` of the rows by gradient, and samples the share `other`
/// of the rest.
pub open spec fn goss_rule<A: Arith>(g: Seq<F32>, top: F64, other: F64, seed: u64) -> GossRule {
    let one = F64 { bits: ONE64 };
    let tiny = F64 { bits: BILLIONTH64 };
    let rest = difference64::<A>(one, top);
    GossRule {
        thresh: sorted(absolutes(g))[g.len() - top_count::<A>(top, g.len() as int)],
        rate: quotient64::<A>(other, rest.larger(tiny)).within(F64 { bits: 0 }, one),
        factor: narrowed::<A>(quotient64::<A>(rest, other.larger(tiny))),
        seed,
    }
}

impl GossRule {
    /// The gradient is large enough for its row to be kept as it is.
    pub open spec fn is_top(self, g: F32) -> bool {
        self.thresh.at_most(g.absolute())
    }

    /// Row `r` is drawn.
    pub open spec fn is_drawn<A: Arith>(self, r: int) -> bool {
        quotient64::<A>(
            counted64::<A>(goss_draw(r as u64, self.seed) >> 11),
            counted64::<A>(0x20_0000_0000_0000),
        ).below(self.rate)
    }

    /// Row `r` with gradient `g` is in the sample.
    pub open spec fn keeps<A: Arith>(self, g: F32, r: int) -> bool {
        self.is_top(g) || self.is_drawn::<A>(r)
    }

    /// `value`, the gradient or the hessian of row `r`, as it enters the sums: amplified where
    /// the row is in the sample without having a top gradient.
    pub open spec fn weigh<A: Arith>(self, value: F32, g: F32, r: int) -> F32 {
        if !self.is_top(g) && self.is_drawn::<A>(r) {
            product32::<A>(value, self.factor)
        } else {
            value
        }
    }
}

/// The places below `n` that are flagged.
pub open spec fn flagged(flags: Seq<bool>, n: nat) -> Seq<u32>
    decreases n,
{
    if n == 0 {
        Seq::empty()
    } else if flags[n - 1] {
        flagged(flags, (n - 1) as nat).push((n - 1) as u32)
    } else {
        flagged(flags, (n - 1) as nat)
    }
}

/// The rows that a rule keeps.
pub open spec fn goss_rows<A: Arith>(rule: GossRule, g: Seq<F32>) -> Seq<u32> {
    flagged(Seq::new(g.len(), |r: int| rule.keeps::<A>(g[r], r)), g.len())
}

/// What a rule makes of the values of all rows.
pub open spec fn goss_weighed<A: Arith>(rule: GossRule, vals: Seq<F32>, g: Seq<F32>) -> Seq<F32> {
    Seq::new(vals.len(), |r: int| rule.weigh::<A>(vals[r], g[r], r))
}

/// The rows listed are below `n` and ascend.
pub open spec fn ascending_rows(rows: Seq<u32>, n: int) -> bool {
    &&& forall|k: int| 0 <= k < rows.len() ==> #[trigger] rows[k] < n
    &&& forall|j: int, k: int|
        0 <= j < k < rows.len() ==> (#[trigger] rows[j]) < (#[trigger] rows[k])
}

/// No more rows are listed than there are.
pub proof fn lemma_ascending_rows(rows: Seq<u32>, n: int)
    requires
        ascending_rows(rows, n),
    ensures
        rows.len() <= n || rows.len() == 0,
    decreases rows.len(),
{
    if rows.len() > 1 {
        let k = rows.len() - 1;
        assert(rows[k - 1] < rows[k]);
        lemma_ascending_rows(rows.drop_last(), rows[k] as int);
    } else if rows.len() == 1 {
        assert(rows[0] < n);
    }
}

/// A flagged place is listed, a place that is not flagged is not.
proof fn lemma_flagged(flags: Seq<bool>, n: nat, r: int)
    requires
        n <= flags.len(),
        n <= u32::MAX,
        0 <= r < n,
    ensures
        flagged(flags, n).contains(r as u32) <==> flags[r],
        forall|k: int| 0 <= k < flagged(flags, n).len() ==> #[trigger] flagged(flags, n)[k] < n,
    decreases n,
{
    if n > 0 {
        lemma_flagged_range(flags, n);
        lemma_flagged_range(flags, (n - 1) as nat);
        let before = flagged(flags, (n - 1) as nat);
        let all = flagged(flags, n);
        if r < n - 1 {
            lemma_flagged(flags, (n - 1) as nat, r);
            if before.contains(r as u32) {
                let k = choose|k: int| 0 <= k < before.len() && before[k] == r as u32;
                assert(all[k] == r as u32);
            }
            if all.contains(r as u32) {
                let k = choose|k: int| 0 <= k < all.len() && all[k] == r as u32;
                assert(before[k] == r as u32);
            }
        } else if flags[r] {
            assert(all[before.len() as int] == r as u32);
        }
    }
}

proof fn lemma_flagged_range(flags: Seq<bool>, n: nat)
    requires
        n <= flags.len(),
        n <= u32::MAX,
    ensures
        ascending_rows(flagged(flags, n), n as int),
    decreases n,
{
    if n > 0 {
        lemma_flagged_range(flags, (n - 1) as nat);
    }
}

/// A row is in the sample exactly when its gradient is among the top ones or it is drawn.
pub proof fn lemma_goss_rows<A: Arith>(rule: GossRule, g: Seq<F32>, r: int)
    requires
        g.len() <= u32::MAX,
        0 <= r < g.len(),
    ensures
        goss_rows::<A>(rule, g).contains(r as u32) <==> rule.is_top(g[r]) || rule.is_drawn::<A>(r),
{
    lemma_flagged(Seq::new(g.len(), |r: int| rule.keeps::<A>(g[r], r)), g.len(), r);
}

/// At least the share `top` of the rows reaches the threshold: the rows with the largest
/// gradients are all in the sample.
pub proof fn lemma_goss_top<A: Arith>(g: Seq<F32>, top: F64, other: F64, seed: u64, i: int)
    requires
        0 < g.len() <= u32::MAX,
        forall|k: int| 0 <= k < g.len() ==> !(#[trigger] g[k]).nan(),
        g.len() - top_count::<A>(top, g.len() as int) <= i < g.len(),
    ensures
        goss_rule::<A>(g, top, other, seed).is_top(sorted(absolutes(g))[i]),
{
    let a = absolutes(g);
    crate::order::lemma_sorted_ascends(a);
    let s = sorted(a);
    let k = g.len() - top_count::<A>(top, g.len() as int);
    assert(s[k].at_most(s[i]));
    assert(a.contains(s[i]));
    let p = choose|p: int| 0 <= p < a.len() && a[p] == s[i];
    assert(g[p].absolute() == s[i]);
}

/// What the rule says of one row: its weighed gradient and hessian, and whether it is kept.
fn goss_row<A: Arith>(
    r: usize,
    g: F32,
    h: F32,
    thresh: F32,
    rate: F64,
    factor: F32,
    seed: u64,
) -> (out: (F32, F32, bool))
    ensures
        deterministic::<A>() ==> ({
            let rule = GossRule { thresh, rate, factor, seed };
            &&& out.0 == rule.weigh::<A>(g, g, r as int)
            &&& out.1 == rule.weigh::<A>(h, g, r as int)
            &&& out.2 == rule.keeps::<A>(g, r as int)
        }),
{
    if g.abs().not_less(thresh) {
        return (g, h, true);
    }
    let mixed: u64 = ((r as u64 ^ seed.wrapping_mul(0x9E37_79B9_7F4A_7C15))
        ^ GOSS_SALT).wrapping_mul(0xD6E8_FEB8_6659_FD93);
    let draw: u64 = mixed ^ (mixed >> 32);
    let unit = div64::<A>(count64::<A>(draw >> 11), count64::<A>(0x20_0000_0000_0000));
    if unit.less(rate) {
        (mul32::<A>(g, factor), mul32::<A>(h, factor), true)
    } else {
        (g, h, false)
    }
}

/// Gradient-based one-side sampling: keeps the share `top` of the rows by the size of their
/// gradients, samples the share `other` of the rest, and amplifies the gradient and the
/// hessian of those by `(1 - top) / other`, so that both sums stay unbiased. `out` is filled
/// with the chosen rows.
pub fn goss_sample<A: Arith>(
    g: &mut Vec<F32>,
    h: &mut Vec<F32>,
    top: F64,
    other: F64,
    seed: u64,
    out: &mut Vec<u32>,
)
    requires
        0 < old(g)@.len() <= u32::MAX,
        old(h)@.len() == old(g)@.len(),
    ensures
        final(g)@.len() == old(g)@.len(),
        final(h)@.len() == old(h)@.len(),
        ascending_rows(final(out)@, old(g)@.len() as int),
        deterministic::<A>() ==> ({
            let rule = goss_rule::<A>(old(g)@, top, other, seed);
            &&& final(g)@ == goss_weighed::<A>(rule, old(g)@, old(g)@)
            &&& final(h)@ == goss_weighed::<A>(rule, old(h)@, old(g)@)
            &&& final(out)@ == goss_rows::<A>(rule, old(g)@)
        }),
{
    let n: usize = g.len();
    let wanted: usize = mul64::<A>(top, count64::<A>(n as u64)).to_usize();
    let topn: usize = if wanted < 1 {
        1
    } else if wanted > n {
        n
    } else {
        wanted
    };
    let gs: &[F32] = g.as_slice();
    let hs: &[F32] = h.as_slice();
    let absg: Vec<F32> = par_map(
        n,
        |i: usize| -> (a: F32)
            requires
                i < gs@.len(),
            ensures
                a == gs@[i as int].absolute()
            { gs[i].abs() },
    );
    assert(absg@ =~= absolutes(gs@));
    let order = sort_order(absg.as_slice());
    let thresh = absg[order[n - topn]];
    proof {
        lemma_order_exists(absg@);
    }
    let one = F64 { bits: ONE64 };
    let tiny = F64 { bits: BILLIONTH64 };
    let rest = sub64::<A>(one, top);
    let rate = div64::<A>(other, rest.max(tiny)).clamp(F64 { bits: 0 }, one);
    let factor = narrow::<A>(div64::<A>(rest, other.max(tiny)));
    let ghost rule = GossRule { thresh, rate, factor, seed };
    assert(deterministic::<A>() ==> rule == goss_rule::<A>(gs@, top, other, seed));
    let parts: Vec<(F32, F32, bool)> = par_map(
        n,
        |r: usize| -> (p: (F32, F32, bool))
            requires
                r < gs@.len(),
                gs@.len() == hs@.len(),
                rule == (GossRule { thresh, rate, factor, seed }),
            ensures
                deterministic::<A>() ==> p.0 == rule.weigh::<A>(gs@[r as int], gs@[r as int], r as int),
                deterministic::<A>() ==> p.1 == rule.weigh::<A>(hs@[r as int], gs@[r as int], r as int),
                deterministic::<A>() ==> p.2 == rule.keeps::<A>(gs@[r as int], r as int)
            { goss_row::<A>(r, gs[r], hs[r], thresh, rate, factor, seed) },
    );
    let ghost flags = Seq::new(n as nat, |r: int| parts@[r].2);
    let mut new_g: Vec<F32> = Vec::new();
    let mut new_h: Vec<F32> = Vec::new();
    let mut rows: Vec<u32> = Vec::new();
    let mut r: usize = 0;
    while r < n
        invariant
            r <= n <= u32::MAX,
            parts@.len() == n,
            flags == Seq::new(n as nat, |r: int| parts@[r].2),
            new_g@.len() == r,
            new_h@.len() == r,
            forall|k: int| 0 <= k < r ==> #[trigger] new_g@[k] == parts@[k].0,
            forall|k: int| 0 <= k < r ==> #[trigger] new_h@[k] == parts@[k].1,
            rows@ == flagged(flags, r as nat),
        decreases n - r,
    {
        let part = parts[r];
        new_g.push(part.0);
        new_h.push(part.1);
        if part.2 {
            rows.push(r as u32);
        }
        r = r + 1;
    }
    proof {
        lemma_flagged_range(flags, n as nat);
        if deterministic::<A>() {
            assert forall|k: int| 0 <= k < n implies flags[k] == #[trigger] rule.keeps::<A>(
                gs@[k],
                k,
            ) by {
                let _ = parts@[k];
            }
            assert(flags =~= Seq::new(n as nat, |r: int| rule.keeps::<A>(gs@[r], r)));
            assert forall|k: int| 0 <= k < n implies #[trigger] new_g@[k] == rule.weigh::<A>(
                gs@[k],
                gs@[k],
                k,
            ) by {
                let _ = parts@[k];
            }
            assert forall|k: int| 0 <= k < n implies #[trigger] new_h@[k] == rule.weigh::<A>(
                hs@[k],
                gs@[k],
                k,
            ) by {
                let _ = parts@[k];
            }
            assert(new_g@ =~= goss_weighed::<A>(rule, gs@, gs@));
            assert(new_h@ =~= goss_weighed::<A>(rule, hs@, gs@));
        }
    }
    *g = new_g;
    *h = new_h;
    *out = rows;
}

/// Every `stride`-th row, beginning with `start`.
pub open spec fn strided(start: int, stride: int, n: int) -> Seq<u32> {
    if start < n {
        Seq::new(
            ((n - start + stride - 1) / stride) as nat,
            |k: int| (start + k * stride) as u32,
        )
    } else {
        Seq::empty()
    }
}

/// Lists every `stride`-th row below `n`, beginning with `start`.
pub fn strided_rows(start: usize, stride: usize, n: usize) -> (rows: Vec<u32>)
    requires
        stride > 0,
        n <= u32::MAX,
    ensures
        rows@ == strided(start as int, stride as int, n as int),
        ascending_rows(rows@, n as int),
{
    let mut rows: Vec<u32> = Vec::new();
    let mut at: usize = start;
    while at < n
        invariant
            stride > 0,
            n <= u32::MAX,
            at == start + rows@.len() * stride || (at >= n && start + rows@.len() * stride >= n),
            rows@.len() > 0 ==> start + (rows@.len() - 1) * stride < n,
            forall|k: int| 0 <= k < rows@.len() ==> #[trigger] rows@[k] == start + k * stride,
            ascending_rows(rows@, n as int),
        decreases n - at,
    {
        assert(at == start + rows@.len() * stride);
        proof {
            let len = rows@.len();
            assert((len + 1) * stride == len * stride + stride) by (nonlinear_arith);
            if len > 0 {
                assert((len - 1) * stride + stride == len * stride) by (nonlinear_arith);
            }
            assert forall|k: int| 0 <= k < len implies (#[trigger] rows@[k]) < at by {
                assert(k * stride < len * stride) by (nonlinear_arith)
                    requires
                        0 <= k < len,
                        stride > 0,
                ;
            }
        }
        rows.push(at as u32);
        if n - at <= stride {
            at = n;
        } else {
            at = at + stride;
        }
    }
    proof {
        let len = rows@.len() as int;
        if start < n {
            assert(len > 0) by {
                if len == 0 {
                    assert(0 * stride == 0);
                }
            }
            assert((n - start + stride - 1) / (stride as int) == len) by (nonlinear_arith)
                requires
                    stride > 0,
                    start + len * stride >= n,
                    start + (len - 1) * stride < n,
            ;
        } else if len > 0 {
            assert((len - 1) * stride >= 0) by (nonlinear_arith)
                requires
                    len >= 1,
                    stride > 0,
            ;
        }
        assert(rows@ =~= strided(start as int, stride as int, n as int));
    }
    rows
}

} // verus!
