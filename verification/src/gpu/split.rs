//! Kernels that rate the splits of a level and choose one.

use vstd::prelude::*;

use crate::arith::add32;
use crate::arith::deterministic;
use crate::arith::sum32;
use crate::arith::Arith;
use crate::float::F32;
use crate::float::ONE32;
use crate::gpu::acc::Accum;
use crate::gpu::rows::hash01;
use crate::gpu::rows::overwritten;
use crate::gpu::rows::sample_share;
use crate::gpu::rows::store;

verus! {

/// Bits of -10^30 in single precision: the gain of a split that may not be made.
pub const NO_GAIN32: u32 = 0xF149_F2CA;

/// Bits of -10^29 in single precision: gains above it are those of splits that may be made.
pub const LEAST_GAIN32: u32 = 0xEFA1_8F08;

/// Mixed into the seed of a tree to draw features.
pub const FEATURE_SALT: u32 = 0x5BD1_E995;

/// What the gains of the splits of a level are computed from.
pub struct Rating {
    pub hist_g: Seq<F32>,
    pub hist_h: Seq<F32>,
    pub nf: int,
    pub nb: int,
    pub groups: int,
    pub lambda: F32,
    pub min_child: F32,
    /// The share of the features that a tree may split on.
    pub colsample: F32,
    pub seed: u32,
    /// For each feature the direction in which leaf values have to go: up, down, or any.
    pub monotone: Seq<i32>,
}

/// What a split makes of the nodes of a level.
pub struct Sides<C> {
    pub gain: C,
    pub gl: C,
    pub hl: C,
    pub gr: C,
    pub hr: C,
    /// There is a node of which neither child is too small.
    pub feasible: bool,
}

/// The sum of the first `k` places from `base` on.
pub open spec fn cumulated<A: Arith, C: Accum<A>>(a: Seq<F32>, base: int, k: nat) -> C
    decreases k,
{
    if k == 0 {
        C::nil()
    } else {
        cumulated::<A, C>(a, base, (k - 1) as nat).plus(C::lifted(a[base + k - 1]))
    }
}

/// The score of a node with gradient sum `g` and hessian sum `h`.
pub open spec fn node_score<A: Arith, C: Accum<A>>(g: C, h: C, lambda: C) -> C {
    g.times(g).over(h.plus(lambda))
}

impl Rating {
    /// What the split of feature `f` after bin `t` makes of the first `k` nodes.
    pub open spec fn sides<A: Arith, C: Accum<A>>(self, f: int, t: int, k: nat) -> Sides<C>
        decreases k,
    {
        if k == 0 {
            Sides {
                gain: C::nil(),
                gl: C::nil(),
                hl: C::nil(),
                gr: C::nil(),
                hr: C::nil(),
                feasible: false,
            }
        } else {
            let before = self.sides::<A, C>(f, t, (k - 1) as nat);
            let base = ((k - 1) * self.nf + f) * self.nb;
            let gl = cumulated::<A, C>(self.hist_g, base, (t + 1) as nat);
            let hl = cumulated::<A, C>(self.hist_h, base, (t + 1) as nat);
            let gt = cumulated::<A, C>(self.hist_g, base, self.nb as nat);
            let ht = cumulated::<A, C>(self.hist_h, base, self.nb as nat);
            let gr = gt.minus(gl);
            let hr = ht.minus(hl);
            let lam = C::lifted(self.lambda);
            let least = C::lifted(self.min_child);
            Sides {
                gain: before.gain.plus(
                    node_score::<A, C>(gl, hl, lam).plus(node_score::<A, C>(gr, hr, lam)).minus(
                        node_score::<A, C>(gt, ht, lam),
                    ),
                ),
                gl: before.gl.plus(gl),
                hl: before.hl.plus(hl),
                gr: before.gr.plus(gr),
                hr: before.hr.plus(hr),
                feasible: before.feasible || (least.no_larger(hl) && least.no_larger(hr)),
            }
        }
    }

    /// The leaf values that the split makes go against the direction of its feature.
    pub open spec fn against<A: Arith, C: Accum<A>>(self, f: int, s: Sides<C>) -> bool {
        let lam = C::lifted(self.lambda);
        let wl = s.gl.negative().over(s.hl.plus(lam));
        let wr = s.gr.negative().over(s.hr.plus(lam));
        (self.monotone[f] > 0 && wr.smaller(wl)) || (self.monotone[f] < 0 && wl.smaller(wr))
    }

    /// The tree may not split on feature `f`.
    pub open spec fn dropped<A: Arith>(self, f: int) -> bool {
        self.colsample.below(F32 { bits: ONE32 }) && self.colsample.at_most(
            sample_share::<A>(f as u32, self.seed ^ FEATURE_SALT),
        )
    }

    /// The gain of the split of feature `id / nb` after bin `id % nb`.
    pub open spec fn gain<A: Arith, C: Accum<A>>(self, id: int) -> F32 {
        let f = id / self.nb;
        let t = id % self.nb;
        let s = self.sides::<A, C>(f, t, self.groups as nat);
        if self.dropped::<A>(f) || t + 1 >= self.nb || !s.feasible || self.against::<A, C>(f, s) {
            F32 { bits: NO_GAIN32 }
        } else {
            s.gain.lowered()
        }
    }

    /// There is a histogram for each node and feature, and a direction for each feature.
    pub open spec fn well_formed(self) -> bool {
        &&& 0 < self.nf <= u32::MAX
        &&& 0 < self.nb
        &&& 0 <= self.groups
        &&& self.groups * self.nf * self.nb <= self.hist_g.len()
        &&& self.groups * self.nf * self.nb <= self.hist_h.len()
        &&& self.nf <= self.monotone.len()
    }
}

/// The gain of the split of feature `f` after bin `t`.
fn rate_split<A: Arith, C: Accum<A>>(
    hist_g: &[F32],
    hist_h: &[F32],
    f: usize,
    t: usize,
    nf: usize,
    nb: usize,
    groups: usize,
    lambda: F32,
    min_child: F32,
    direction: i32,
    Ghost(r): Ghost<Rating>,
) -> (gain: F32)
    requires
        r.well_formed(),
        r.hist_g == hist_g@,
        r.hist_h == hist_h@,
        r.nf == nf,
        r.nb == nb,
        r.groups == groups,
        r.lambda == lambda,
        r.min_child == min_child,
        f < nf,
        t + 1 < nb,
        direction == r.monotone[f as int],
    ensures
        deterministic::<A>() ==> gain == ({
            let s = r.sides::<A, C>(f as int, t as int, groups as nat);
            if !s.feasible || r.against::<A, C>(f as int, s) {
                F32 { bits: NO_GAIN32 }
            } else {
                s.gain.lowered()
            }
        }),
{
    let lam: C = C::lift(lambda);
    let least: C = C::lift(min_child);
    let mut total_gain: C = C::zero();
    let mut gl_tot: C = C::zero();
    let mut hl_tot: C = C::zero();
    let mut gr_tot: C = C::zero();
    let mut hr_tot: C = C::zero();
    let mut feasible = false;
    let mut grp: usize = 0;
    while grp < groups
        invariant
            r.well_formed(),
            r.hist_g == hist_g@,
            r.hist_h == hist_h@,
            r.nf == nf,
            r.nb == nb,
            r.groups == groups,
            r.lambda == lambda,
            r.min_child == min_child,
            f < nf,
            t + 1 < nb,
            grp <= groups,
            deterministic::<A>() ==> lam == C::lifted(lambda),
            deterministic::<A>() ==> least == C::lifted(min_child),
            deterministic::<A>() ==> (Sides {
                gain: total_gain,
                gl: gl_tot,
                hl: hl_tot,
                gr: gr_tot,
                hr: hr_tot,
                feasible,
            }) == r.sides::<A, C>(f as int, t as int, grp as nat),
        decreases groups - grp,
    {
        proof {
            let u = grp * nf + f;
            assert(0 <= grp * nf && u + 1 <= groups * nf && u <= u * nb && u * nb + nb <= groups
                * nf * nb) by (nonlinear_arith)
                requires
                    0 <= grp < groups,
                    0 <= f < nf,
                    nb >= 1,
                    u == grp * nf + f,
            ;
        }
        assert(hist_g.len() >= groups * nf * nb);
        assert(hist_h.len() >= groups * nf * nb);
        let base: usize = (grp * nf + f) * nb;
        let mut gl: C = C::zero();
        let mut hl: C = C::zero();
        let mut gt: C = C::zero();
        let mut ht: C = C::zero();
        let mut b: usize = 0;
        while b < nb
            invariant
                b <= nb,
                t + 1 < nb,
                base + nb <= hist_g@.len(),
                base + nb <= hist_h@.len(),
                base + nb <= usize::MAX,
                deterministic::<A>() ==> gt == cumulated::<A, C>(hist_g@, base as int, b as nat),
                deterministic::<A>() ==> ht == cumulated::<A, C>(hist_h@, base as int, b as nat),
                deterministic::<A>() ==> gl == cumulated::<A, C>(
                    hist_g@,
                    base as int,
                    if b <= t {
                        b as nat
                    } else {
                        (t + 1) as nat
                    },
                ),
                deterministic::<A>() ==> hl == cumulated::<A, C>(
                    hist_h@,
                    base as int,
                    if b <= t {
                        b as nat
                    } else {
                        (t + 1) as nat
                    },
                ),
            decreases nb - b,
        {
            let gv: C = C::lift(hist_g[base + b]);
            let hv: C = C::lift(hist_h[base + b]);
            gt = gt.add_to(gv);
            ht = ht.add_to(hv);
            if b <= t {
                gl = gl.add_to(gv);
                hl = hl.add_to(hv);
            }
            b = b + 1;
        }
        let gr = gt.take(gl);
        let hr = ht.take(hl);
        if least.is_at_most(hl) && least.is_at_most(hr) {
            feasible = true;
        }
        gl_tot = gl_tot.add_to(gl);
        hl_tot = hl_tot.add_to(hl);
        gr_tot = gr_tot.add_to(gr);
        hr_tot = hr_tot.add_to(hr);
        let left = gl.multiply(gl).divide(hl.add_to(lam));
        let right = gr.multiply(gr).divide(hr.add_to(lam));
        let whole = gt.multiply(gt).divide(ht.add_to(lam));
        total_gain = total_gain.add_to(left.add_to(right).take(whole));
        grp = grp + 1;
    }
    if direction != 0 {
        let wl = gl_tot.negate().divide(hl_tot.add_to(lam));
        let wr = gr_tot.negate().divide(hr_tot.add_to(lam));
        if (direction > 0 && wr.is_less(wl)) || (direction < 0 && wl.is_less(wr)) {
            feasible = false;
        }
    }
    if feasible {
        total_gain.lower()
    } else {
        F32 { bits: NO_GAIN32 }
    }
}

/// Rates the splits of a level, the same for all its nodes: the gain of the split of feature
/// `f` after bin `t` goes to place `f * n_bins + t`. A split after the last bin, of a feature
/// that was not drawn, without a node of which both children are large enough, or against the
/// direction of its feature may not be made.
pub fn split_gain<A: Arith, C: Accum<A>>(
    hist_g: &[F32],
    hist_h: &[F32],
    gains: &mut Vec<F32>,
    n_features: u32,
    n_bins: u32,
    n_groups: u32,
    lambda: F32,
    min_child_h: F32,
    colsample: F32,
    tree_seed: u32,
    monotone: &[i32],
)
    requires
        (Rating {
            hist_g: hist_g@,
            hist_h: hist_h@,
            nf: n_features as int,
            nb: n_bins as int,
            groups: n_groups as int,
            lambda,
            min_child: min_child_h,
            colsample,
            seed: tree_seed,
            monotone: monotone@,
        }).well_formed(),
        n_features * n_bins <= usize::MAX,
    ensures
        final(gains)@.len() == old(gains)@.len(),
        forall|f: int|
            0 <= f < n_features && f * n_bins + n_bins <= old(gains)@.len() ==> (
            #[trigger] final(gains)@[f * n_bins + n_bins - 1]) == (F32 { bits: NO_GAIN32 }),
        deterministic::<A>() ==> final(gains)@ == overwritten(
            old(gains)@,
            Seq::new(
                (n_features * n_bins) as nat,
                |id: int|
                    (Rating {
                        hist_g: hist_g@,
                        hist_h: hist_h@,
                        nf: n_features as int,
                        nb: n_bins as int,
                        groups: n_groups as int,
                        lambda,
                        min_child: min_child_h,
                        colsample,
                        seed: tree_seed,
                        monotone: monotone@,
                    }).gain::<A, C>(id),
            ),
        ),
{
    let ghost r = Rating {
        hist_g: hist_g@,
        hist_h: hist_h@,
        nf: n_features as int,
        nb: n_bins as int,
        groups: n_groups as int,
        lambda,
        min_child: min_child_h,
        colsample,
        seed: tree_seed,
        monotone: monotone@,
    };
    let nf: usize = n_features as usize;
    let nb: usize = n_bins as usize;
    assert(0 <= nf * nb) by (nonlinear_arith);
    let total: usize = nf * nb;
    let mut vals: Vec<F32> = Vec::new();
    let mut id: usize = 0;
    while id < total
        invariant
            r == (Rating {
                hist_g: hist_g@,
                hist_h: hist_h@,
                nf: n_features as int,
                nb: n_bins as int,
                groups: n_groups as int,
                lambda,
                min_child: min_child_h,
                colsample,
                seed: tree_seed,
                monotone: monotone@,
            }),
            r.well_formed(),
            nf == n_features,
            nb == n_bins,
            total == nf * nb,
            id <= total,
            vals@.len() == id,
            forall|k: int|
                0 <= k < id && k % (nb as int) == nb - 1 ==> #[trigger] vals@[k] == (F32 {
                    bits: NO_GAIN32,
                }),
            deterministic::<A>() ==> forall|k: int|
                0 <= k < id ==> #[trigger] vals@[k] == r.gain::<A, C>(k),
        decreases total - id,
    {
        let f: usize = id / nb;
        let t: usize = id % nb;
        assert(0 <= f < nf) by (nonlinear_arith)
            requires
                0 <= id < nf * nb,
                nb > 0,
                f == id / nb,
        ;
        let dropped = colsample.less(F32 { bits: ONE32 }) && hash01::<A>(
            f as u32,
            tree_seed ^ FEATURE_SALT,
        ).not_less(colsample);
        let gain = if dropped || t == nb - 1 {
            F32 { bits: NO_GAIN32 }
        } else {
            rate_split::<A, C>(
                hist_g,
                hist_h,
                f,
                t,
                nf,
                nb,
                n_groups as usize,
                lambda,
                min_child_h,
                monotone[f],
                Ghost(r),
            )
        };
        vals.push(gain);
        id = id + 1;
    }
    let ghost before = gains@;
    store(gains, vals.as_slice());
    proof {
        assert forall|f: int| 0 <= f < n_features && f * n_bins + n_bins <= before.len() implies (
        #[trigger] gains@[f * n_bins + n_bins - 1]) == (F32 { bits: NO_GAIN32 }) by {
            let k = f * nb + (nb - 1);
            let n = nb as int;
            assert(0 <= k < nf * nb) by (nonlinear_arith)
                requires
                    0 <= f < nf,
                    nb > 0,
                    k == f * nb + (nb - 1),
            ;
            assert(k == n * f + (n - 1)) by (nonlinear_arith)
                requires
                    k == f * nb + (nb - 1),
                    n == nb,
            ;
            vstd::arithmetic::div_mod::lemma_fundamental_div_mod_converse(k, n, f, n - 1);
            assert(vals@[k] == (F32 { bits: NO_GAIN32 }));
        }
        if deterministic::<A>() {
            assert(vals@ =~= Seq::new((n_features * n_bins) as nat, |id: int| r.gain::<A, C>(id)));
        }
    }
}

/// The number of threads that choose a split.
pub const LANES: usize = 256;

/// The best of the first `k` gains that thread `lane` looks at, every 256th from its own index
/// on, with its place: the first of the largest. Nothing below -10^30 is looked at.
pub open spec fn lane_best(gains: Seq<F32>, total: int, lane: int, k: nat) -> (F32, int)
    decreases k,
{
    if k == 0 {
        (F32 { bits: NO_GAIN32 }, 0)
    } else {
        let before = lane_best(gains, total, lane, (k - 1) as nat);
        let i = lane + LANES * (k - 1);
        if i < total && before.0.below(gains[i]) {
            (gains[i], i)
        } else {
            before
        }
    }
}

/// The best gains of all threads.
pub open spec fn lanes_of(gains: Seq<F32>, total: int) -> Seq<(F32, int)> {
    Seq::new(
        LANES as nat,
        |lane: int| lane_best(gains, total, lane, (total / LANES as int + 1) as nat),
    )
}

/// One round of the comparison: each of the first `s` threads takes over what the thread `s`
/// places on has, where that is larger.
pub open spec fn compared(best: Seq<(F32, int)>, s: int) -> Seq<(F32, int)> {
    Seq::new(
        best.len(),
        |t: int|
            if t < s && best[t].0.below(best[t + s].0) {
                best[t + s]
            } else {
                best[t]
            },
    )
}

/// What the threads have after all rounds from `s` on.
pub open spec fn reduced(best: Seq<(F32, int)>, s: nat) -> Seq<(F32, int)>
    decreases s,
{
    if s == 0 {
        best
    } else {
        reduced(compared(best, s as int), s / 2)
    }
}

/// The gain that is chosen, with its place.
pub open spec fn winner(gains: Seq<F32>, total: int) -> (F32, int) {
    reduced(lanes_of(gains, total), 128)[0]
}

/// A choice is a gain above -10^30 with its place, or that bound and place zero.
pub open spec fn sound_choice(gains: Seq<F32>, total: int, c: (F32, int)) -> bool {
    &&& !c.0.nan()
    &&& c == (F32 { bits: NO_GAIN32 }, 0int) || (0 <= c.1 < total && c.0 == gains[c.1] && (F32 {
        bits: NO_GAIN32,
    }).below(c.0))
}

proof fn lemma_lane(gains: Seq<F32>, total: int, lane: int, k: nat)
    requires
        0 <= lane,
        0 <= total,
    ensures
        sound_choice(gains, total, lane_best(gains, total, lane, k)),
        forall|j: int|
            0 <= j < k && lane + LANES * j < total ==> !lane_best(gains, total, lane, k).0.below(
                #[trigger] gains[lane + LANES * j],
            ),
    decreases k,
{
    if k > 0 {
        lemma_lane(gains, total, lane, (k - 1) as nat);
        let before = lane_best(gains, total, lane, (k - 1) as nat);
        let now = lane_best(gains, total, lane, k);
        assert forall|j: int| 0 <= j < k && lane + LANES * j < total implies !now.0.below(
            #[trigger] gains[lane + LANES * j],
        ) by {
            if j < k - 1 {
                assert(!before.0.below(gains[lane + LANES * j]));
            }
        }
    }
}

/// All rounds keep the largest gain: what the first thread has in the end is no smaller than
/// what any of the first `2 * s` had.
proof fn lemma_reduced(gains: Seq<F32>, total: int, best: Seq<(F32, int)>, s: nat)
    requires
        best.len() == LANES,
        s == 128 || s == 64 || s == 32 || s == 16 || s == 8 || s == 4 || s == 2 || s == 1,
        forall|t: int| 0 <= t < LANES ==> sound_choice(gains, total, #[trigger] best[t]),
    ensures
        sound_choice(gains, total, reduced(best, s)[0]),
        forall|t: int|
            0 <= t < 2 * s ==> !reduced(best, s)[0].0.below((#[trigger] best[t]).0),
    decreases s,
{
    let next = compared(best, s as int);
    assert forall|t: int| 0 <= t < LANES implies sound_choice(gains, total, #[trigger] next[t]) by {
        if t < s {
            assert(sound_choice(gains, total, best[t + s]));
        }
        assert(sound_choice(gains, total, best[t]));
    }
    if s > 1 {
        lemma_reduced(gains, total, next, s / 2);
        let last = reduced(next, s / 2)[0];
        assert forall|t: int| 0 <= t < 2 * s implies !last.0.below((#[trigger] best[t]).0) by {
            let u = if t < s {
                t
            } else {
                t - s
            };
            assert(!last.0.below(next[u].0));
            assert(sound_choice(gains, total, next[u]));
            assert(sound_choice(gains, total, best[u]));
            assert(sound_choice(gains, total, best[u + s]));
        }
    } else {
        assert(reduced(next, 0) == next);
        assert(sound_choice(gains, total, next[0]));
        assert(sound_choice(gains, total, best[0]));
        assert(sound_choice(gains, total, best[1]));
        assert forall|t: int| 0 <= t < 2 * s implies !next[0].0.below((#[trigger] best[t]).0) by {
            if t == 1 {
                assert(best[0 + s as int] == best[1]);
            }
        }
    }
}

/// No gain is larger than the one that is chosen.
pub proof fn lemma_winner(gains: Seq<F32>, total: int)
    requires
        0 <= total <= gains.len(),
    ensures
        sound_choice(gains, total, winner(gains, total)),
        forall|i: int|
            0 <= i < total ==> !winner(gains, total).0.below(#[trigger] gains[i]),
{
    let lanes = lanes_of(gains, total);
    let k = (total / LANES as int + 1) as nat;
    assert forall|t: int| 0 <= t < LANES implies sound_choice(gains, total, #[trigger] lanes[t]) by {
        lemma_lane(gains, total, t, k);
    }
    lemma_reduced(gains, total, lanes, 128);
    let w = winner(gains, total);
    assert forall|i: int| 0 <= i < total implies !w.0.below(#[trigger] gains[i]) by {
        let t = i % LANES as int;
        let j = i / LANES as int;
        lemma_lane(gains, total, t, k);
        assert(i == t + LANES * j);
        assert(!lanes[t].0.below(gains[t + LANES * j]));
        assert(!w.0.below(lanes[t].0));
        assert(sound_choice(gains, total, lanes[t]));
    }
}

/// A gain with its place.
#[derive(Clone, Copy)]
struct Best {
    gain: F32,
    place: usize,
}

impl Best {
    spec fn pair(self) -> (F32, int) {
        (self.gain, self.place as int)
    }
}

/// The best of the gains that thread `lane` looks at.
fn best_of_lane(gains: &[F32], total: usize, lane: usize) -> (b: Best)
    requires
        lane < LANES,
        total <= gains@.len(),
    ensures
        b.pair() == lane_best(
            gains@,
            total as int,
            lane as int,
            (total as int / LANES as int + 1) as nat,
        ),
{
    let mut best = Best { gain: F32 { bits: NO_GAIN32 }, place: 0 };
    let rounds: usize = total / LANES + 1;
    let mut k: usize = 0;
    while k < rounds
        invariant
            lane < LANES,
            total <= gains@.len(),
                rounds == total as int / LANES as int + 1,
            k <= rounds,
            best.pair() == lane_best(gains@, total as int, lane as int, k as nat),
        decreases rounds - k,
    {
        let first: usize = LANES * k;
        if first < total && lane < total - first {
            let i: usize = first + lane;
            let g = gains[i];
            if best.gain.less(g) {
                best = Best { gain: g, place: i };
            }
        }
        k = k + 1;
    }
    best
}

/// The gain that is chosen, with its place.
fn choose_gain(gains: &[F32], total: usize) -> (b: Best)
    requires
        total <= gains@.len(),
    ensures
        b.pair() == winner(gains@, total as int),
{
    let mut best: Vec<Best> = Vec::new();
    let ghost lanes = lanes_of(gains@, total as int);
    while best.len() < LANES
        invariant
            total <= gains@.len(),
                lanes == lanes_of(gains@, total as int),
            best@.len() <= LANES,
            forall|t: int| 0 <= t < best@.len() ==> (#[trigger] best@[t]).pair() == lanes[t],
        decreases LANES - best@.len(),
    {
        let lane: usize = best.len();
        best.push(best_of_lane(gains, total, lane));
    }
    let mut s: usize = 128;
    let ghost mut now = lanes;
    while s > 0
        invariant
            best@.len() == LANES,
            now.len() == LANES,
            s <= 128,
            forall|t: int| 0 <= t < LANES ==> (#[trigger] best@[t]).pair() == now[t],
            reduced(now, s as nat) == reduced(lanes, 128),
        decreases s,
    {
        let mut t: usize = 0;
        let ghost next = compared(now, s as int);
        while t < s
            invariant
                best@.len() == LANES,
                now.len() == LANES,
                0 < s <= 128,
                t <= s,
                next == compared(now, s as int),
                forall|u: int|
                    0 <= u < LANES ==> (#[trigger] best@[u]).pair() == (if u < t {
                        next[u]
                    } else {
                        now[u]
                    }),
            decreases s - t,
        {
            let other = best[t + s];
            let own = best[t];
            assert(other.pair() == now[t + s]);
            assert(own.pair() == now[t as int]);
            if own.gain.less(other.gain) {
                best[t] = other;
            }
            t = t + 1;
        }
        proof {
            assert forall|u: int| 0 <= u < LANES implies (#[trigger] best@[u]).pair()
                == next[u] by {}
            now = next;
        }
        s = s / 2;
    }
    assert(best@[0].pair() == now[0]);
    best[0]
}

/// The place of the best gain is that of a split: the last bin of a feature is none.
pub(crate) proof fn lemma_winner_place(gains: Seq<F32>, nf: int, nb: int)
    requires
        nf >= 1,
        nb >= 2,
        nf * nb <= gains.len(),
        forall|f: int|
            0 <= f < nf ==> !(F32 { bits: NO_GAIN32 }).below(#[trigger] gains[f * nb + nb - 1]),
    ensures
        ({
            let place = winner(gains, nf * nb).1;
            &&& 0 <= place < nf * nb
            &&& 0 <= place / nb < nf
            &&& 0 <= place % nb < nb - 1
            &&& 0 <= place / nb * (nb - 1) + place % nb < nf * (nb - 1)
        }),
{
    let total = nf * nb;
    let place = winner(gains, total).1;
    assert(total > 0) by (nonlinear_arith)
        requires
            total == nf * nb,
            nf >= 1,
            nb >= 1,
    ;
    lemma_winner(gains, total);
    let f = place / nb;
    let t = place % nb;
    assert(0 <= f < nf) by (nonlinear_arith)
        requires
            0 <= place < nf * nb,
            nb > 0,
            f == place / nb,
    ;
    vstd::arithmetic::div_mod::lemma_fundamental_div_mod(place, nb);
    if t == nb - 1 {
        assert(place == f * nb + nb - 1) by (nonlinear_arith)
            requires
                place == nb * f + t,
                t == nb - 1,
        ;
        assert(!(F32 { bits: NO_GAIN32 }).below(gains[f * nb + nb - 1]));
    }
    assert(0 <= f * (nb - 1) && f * (nb - 1) + t < nf * (nb - 1)) by (nonlinear_arith)
        requires
            0 <= f < nf,
            0 <= t < nb - 1,
    ;
}

/// Chooses the split with the largest gain: enters its feature and bin into `split_ft`, its
/// feature and threshold into the forest at place `k`, and its gain into the importance of
/// its feature if it may be made.
pub fn argmax_split<A: Arith>(
    gains: &[F32],
    boundaries: &[F32],
    feat: &mut Vec<u32>,
    thr: &mut Vec<F32>,
    split_ft: &mut Vec<u32>,
    fi_gain: &mut Vec<F32>,
    fi_count: &mut Vec<F32>,
    k: u32,
    n_features: u32,
    n_bins: u32,
)
    requires
        n_bins >= 2,
        n_features >= 1,
        n_features * n_bins <= u32::MAX,
        n_features * n_bins <= gains@.len(),
        n_features * (n_bins - 1) <= boundaries@.len(),
        k < old(feat)@.len(),
        k < old(thr)@.len(),
        old(split_ft)@.len() >= 2,
        n_features <= old(fi_gain)@.len(),
        n_features <= old(fi_count)@.len(),
        forall|f: int|
            0 <= f < n_features ==> !(F32 { bits: NO_GAIN32 }).below(
                #[trigger] gains@[f * n_bins + n_bins - 1],
            ),
    ensures
        ({
            let (gain, place) = winner(gains@, n_features * n_bins);
            let f = place / n_bins as int;
            let t = place % n_bins as int;
            &&& 0 <= f < n_features
            &&& 0 <= t < n_bins - 1
            &&& final(split_ft)@ == old(split_ft)@.update(0, f as u32).update(1, t as u32)
            &&& final(feat)@ == old(feat)@.update(k as int, f as u32)
            &&& final(thr)@ == old(thr)@.update(k as int, boundaries@[f * (n_bins - 1) + t])
            &&& final(fi_gain)@.len() == old(fi_gain)@.len()
            &&& final(fi_count)@.len() == old(fi_count)@.len()
            &&& !(F32 { bits: LEAST_GAIN32 }).below(gain) ==> final(fi_gain)@ == old(fi_gain)@
                && final(fi_count)@ == old(fi_count)@
            &&& deterministic::<A>() && (F32 { bits: LEAST_GAIN32 }).below(gain) ==> final(fi_gain)@ == old(fi_gain)@.update(f, sum32::<A>(old(fi_gain)@[f], gain))
            &&& deterministic::<A>() && (F32 { bits: LEAST_GAIN32 }).below(gain) ==> final(fi_count)@ == old(fi_count)@.update(
                f,
                sum32::<A>(old(fi_count)@[f], F32 { bits: ONE32 }),
            )
        }),
{
    let nf: usize = n_features as usize;
    let nb: usize = n_bins as usize;
    assert(0 <= nf * nb) by (nonlinear_arith);
    let total: usize = nf * nb;
    let best = choose_gain(gains, total);
    let place: usize = best.place;
    let bf: usize = place / nb;
    let bt: usize = place % nb;
    proof {
        assert forall|f: int| 0 <= f < nf implies !(F32 { bits: NO_GAIN32 }).below(
            #[trigger] gains@[f * nb + nb - 1],
        ) by {
            assert(!(F32 { bits: NO_GAIN32 }).below(gains@[f * n_bins + n_bins - 1]));
        }
        lemma_winner_place(gains@, nf as int, nb as int);
    }
    assert(boundaries.len() >= nf * (nb - 1));
    split_ft[0] = bf as u32;
    split_ft[1] = bt as u32;
    feat[k as usize] = bf as u32;
    thr[k as usize] = boundaries[bf * (nb - 1) + bt];
    if (F32 { bits: LEAST_GAIN32 }).less(best.gain) {
        let a = add32::<A>(fi_gain[bf], best.gain);
        fi_gain[bf] = a;
        let b = add32::<A>(fi_count[bf], F32 { bits: ONE32 });
        fi_count[bf] = b;
    }
}

impl Rating {
    /// The split of feature `id / nb` after bin `id % nb` may be made: the tree may split on
    /// the feature, the bin is not the last, there is a node of which neither child is too
    /// small, and the leaf values go in the direction of the feature.
    pub open spec fn allowed<A: Arith, C: Accum<A>>(self, id: int) -> bool {
        let f = id / self.nb;
        let t = id % self.nb;
        let s = self.sides::<A, C>(f, t, self.groups as nat);
        !self.dropped::<A>(f) && t + 1 < self.nb && s.feasible && !self.against::<A, C>(f, s)
    }
}

/// A split that counts towards the importance of its feature may be made, and is worth at
/// least as much as every other split that may be made.
pub proof fn lemma_counted_split<A: Arith, C: Accum<A>>(r: Rating, gains: Seq<F32>)
    requires
        r.well_formed(),
        r.nf * r.nb <= gains.len(),
        forall|id: int| 0 <= id < r.nf * r.nb ==> #[trigger] gains[id] == r.gain::<A, C>(id),
        (F32 { bits: LEAST_GAIN32 }).below(winner(gains, r.nf * r.nb).0),
    ensures
        r.allowed::<A, C>(winner(gains, r.nf * r.nb).1),
        forall|id: int|
            0 <= id < r.nf * r.nb && #[trigger] r.allowed::<A, C>(id)
                ==> !winner(gains, r.nf * r.nb).0.below(r.gain::<A, C>(id)),
{
    let total = r.nf * r.nb;
    assert(total >= 0) by (nonlinear_arith)
        requires
            total == r.nf * r.nb,
            r.nf > 0,
            r.nb > 0,
    ;
    lemma_winner(gains, total);
    assert forall|id: int| 0 <= id < total && #[trigger] r.allowed::<A, C>(id) implies !winner(
        gains,
        total,
    ).0.below(r.gain::<A, C>(id)) by {
        assert(gains[id] == r.gain::<A, C>(id));
    }
}

} // verus!
