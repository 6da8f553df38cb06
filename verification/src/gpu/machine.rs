//! The buffers of a device, and what each launch does to them.
//!
//! A launch reads and writes buffers by places that follow from the sizes of the run. That
//! the places exist depends on what came before: rows can be counted by node only after they
//! have been put at nodes of the level. A stage says how far a tree has got, and which
//! launches may come next.

use vstd::arithmetic::power2::lemma_pow2_pos;
use vstd::arithmetic::power2::pow2;
use vstd::prelude::*;

use crate::arith::difference32;
use crate::arith::product32;
use crate::arith::sum32;
use crate::arith::Arith;
use crate::float::F16;
use crate::float::F32;
use crate::float::MILLIONTH32;
use crate::float::ONE32;
use crate::gpu::acc::Accum;
use crate::gpu::hist::evened;
use crate::gpu::hist::filled;
use crate::gpu::hist::fixed_point;
use crate::gpu::hist::folded;
use crate::gpu::hist::half_sums;
use crate::gpu::hist::rescaled;
use crate::gpu::hist::shortened_all;
use crate::gpu::hist::tiled;
use crate::gpu::hist::Counting;
use crate::gpu::leaf::squares;
use crate::gpu::leaf::step_of;
use crate::gpu::leaf::variance_of;
use crate::gpu::leaf::written_at;
use crate::gpu::leaf::LeafRows;
use crate::gpu::plan::lemma_level_sizes;
use crate::gpu::plan::Category;
use crate::gpu::plan::Launch;
use crate::gpu::plan::Shape;
use crate::gpu::plan::Side;
use crate::gpu::rows::added_up;
use crate::gpu::rows::goss_weight;
use crate::gpu::rows::hessian_range;
use crate::gpu::rows::logistic_hessian;
use crate::gpu::rows::normal_threshold;
use crate::gpu::rows::overwritten;
use crate::gpu::rows::split_nodes;
use crate::gpu::rows::BinView;
use crate::gpu::rows::Stat;
use crate::gpu::split::winner;
use crate::gpu::split::Rating;
use crate::gpu::split::LEAST_GAIN32;
use crate::gpu::split::NO_GAIN32;
use crate::objective::gradient;

verus! {

/// What does not change during a run: the binned rows, their labels, and the settings.
#[verifier::ext_equal]
pub struct Task {
    pub shape: Shape,
    /// The bins, feature by feature.
    pub bins: Seq<u8>,
    /// Two bins share a byte.
    pub packed: bool,
    /// The number of bytes of a feature.
    pub stride: u32,
    pub y: Seq<F32>,
    pub bounds: Seq<F32>,
    pub monotone: Seq<i32>,
    /// The score that all rows start from.
    pub base: F32,
    pub lambda: F32,
    pub lr: F32,
    pub min_child: F32,
    pub colsample: F32,
    pub subsample: F32,
    pub int_scale: F32,
    pub inv_scale: F32,
    /// How many standard deviations hessians may be off their mean.
    pub clamp_z: F32,
    pub goss_q: F32,
    pub amplify: F32,
    pub other_rate: F32,
}

impl Task {
    /// The bins as they are read.
    pub open spec fn view_bins(self) -> BinView {
        BinView { bytes: self.bins, packed: self.packed, stride: self.stride as int }
    }

    /// The data have the sizes that the shape says.
    pub open spec fn valid(self) -> bool {
        let nf = self.shape.nf as int;
        let nb = self.shape.nb as int;
        let n = self.shape.n as int;
        &&& self.shape.well_formed()
        &&& n + 4096 <= usize::MAX
        &&& self.view_bins().covers(n, nf)
        &&& forall|i: int, f: int|
            0 <= i < n && 0 <= f < nf ==> #[trigger] self.view_bins().bin(i, f) < nb
        &&& self.y.len() >= n
        &&& self.bounds.len() >= nf * (nb - 1)
        &&& self.monotone.len() >= nf
    }

    /// What rows are counted by, at nodes `leaf`.
    pub open spec fn counting(
        self,
        leaf: Seq<u32>,
        replicas: int,
        stride: int,
        seed: u32,
        odd_only: bool,
    ) -> Counting {
        Counting {
            view: self.view_bins(),
            leaf,
            nf: self.shape.nf as int,
            nb: self.shape.nb as int,
            replicas,
            stride,
            subsample: self.subsample,
            seed,
            odd_only,
        }
    }

    /// The rating of splits by the given histograms.
    pub open spec fn rating(self, hist: PairState, groups: int, seed: u32) -> Rating {
        Rating {
            hist_g: hist.g,
            hist_h: hist.h,
            nf: self.shape.nf as int,
            nb: self.shape.nb as int,
            groups,
            lambda: self.lambda,
            min_child: self.min_child,
            colsample: self.colsample,
            seed,
            monotone: self.monotone,
        }
    }

    /// What leaf sums are taken over.
    pub open spec fn leaf_rows(self, leaf: Seq<u32>, seed: u32) -> LeafRows {
        LeafRows {
            leaf,
            leaves: self.shape.leaves(),
            replicas: self.shape.replicas as int,
            subsample: self.subsample,
            seed,
        }
    }
}

/// The buffers with one place per row, and the statistics over them.
#[verifier::ext_equal]
pub struct RowState {
    pub pred: Seq<F32>,
    pub g: Seq<F32>,
    pub h: Seq<F32>,
    pub leaf: Seq<u32>,
    pub stats: Seq<F32>,
    pub thresh: Seq<F32>,
}

/// A pair of histograms.
#[verifier::ext_equal]
pub struct PairState {
    pub g: Seq<F32>,
    pub h: Seq<F32>,
}

/// A pair of histograms in half precision.
#[verifier::ext_equal]
pub struct HalfState {
    pub g: Seq<F16>,
    pub h: Seq<F16>,
}

/// A pair of integer histograms.
#[verifier::ext_equal]
pub struct WholeState {
    pub g: Seq<i32>,
    pub h: Seq<i32>,
}

/// The buffers that splits are chosen in.
#[verifier::ext_equal]
pub struct PickState {
    pub gains: Seq<F32>,
    pub split_ft: Seq<u32>,
    pub feat: Seq<u32>,
    pub thr: Seq<F32>,
    pub fi_gain: Seq<F32>,
    pub fi_count: Seq<F32>,
}

/// The buffers that leaf values are computed in.
#[verifier::ext_equal]
pub struct LeafState {
    pub g: Seq<F32>,
    pub h: Seq<F32>,
    pub g2: Seq<F32>,
    pub val: Seq<F32>,
    pub var: Seq<F32>,
}

/// All buffers of a run.
#[verifier::ext_equal]
pub struct Machine {
    pub rows: RowState,
    pub a: PairState,
    pub b: PairState,
    pub half: HalfState,
    pub whole: WholeState,
    pub pick: PickState,
    pub leaves: LeafState,
}

impl Machine {
    /// One of the pairs of histograms.
    pub open spec fn pair(self, side: Side) -> PairState {
        match side {
            Side::A => self.a,
            Side::B => self.b,
        }
    }

    /// One of the pairs of histograms is replaced.
    pub open spec fn with_pair(self, side: Side, p: PairState) -> Machine {
        match side {
            Side::A => Machine { a: p, ..self },
            Side::B => Machine { b: p, ..self },
        }
    }
}

/// The first `n` places become zero.
pub open spec fn zeroed(old: Seq<F32>, n: nat) -> Seq<F32> {
    overwritten(old, Seq::new(n, |i: int| F32 { bits: 0 }))
}

/// Launches that work row by row.
pub open spec fn row_step<A: Arith>(j: Task, r: RowState, l: Launch) -> RowState {
    let n = j.shape.n as nat;
    match l {
        Launch::GradLogistic => RowState {
            g: overwritten(
                r.g,
                Seq::new(n, |i: int| gradient::<A>(true, r.pred[i], j.y[i])),
            ),
            h: overwritten(r.h, Seq::new(n, |i: int| logistic_hessian::<A>(r.pred[i]))),
            ..r
        },
        Launch::GradL2 => RowState {
            g: overwritten(r.g, Seq::new(n, |i: int| difference32::<A>(r.pred[i], j.y[i]))),
            h: overwritten(r.h, Seq::new(n, |i: int| F32 { bits: ONE32 })),
            ..r
        },
        Launch::ClearStats => RowState {
            stats: zeroed(r.stats, 2),
            thresh: zeroed(r.thresh, 2),
            ..r
        },
        Launch::HessStats => RowState {
            stats: r.stats.update(0, added_up::<A>(r.stats[0], Stat::Value, r.h, n)).update(
                1,
                added_up::<A>(r.stats[1], Stat::Square, r.h, n),
            ),
            ..r
        },
        Launch::HessClamp => {
            let eps = F32 { bits: MILLIONTH32 };
            let range = hessian_range::<A>(r.stats, j.shape.n, j.clamp_z, eps);
            RowState {
                h: overwritten(r.h, Seq::new(n, |i: int| r.h[i].within(range.0, range.1))),
                ..r
            }
        },
        Launch::GossStats => RowState {
            stats: r.stats.update(0, added_up::<A>(r.stats[0], Stat::Size, r.g, n)),
            ..r
        },
        Launch::GossThresh => RowState {
            thresh: r.thresh.update(
                0,
                normal_threshold::<A>(r.stats[0], j.shape.n, j.goss_q),
            ),
            ..r
        },
        Launch::GossApply { seed } => {
            let w = |i: int|
                goss_weight::<A>(r.g[i], r.thresh[0], j.amplify, j.other_rate, seed, i);
            RowState {
                g: overwritten(r.g, Seq::new(n, |i: int| product32::<A>(r.g[i], w(i)))),
                h: overwritten(r.h, Seq::new(n, |i: int| product32::<A>(r.h[i], w(i)))),
                ..r
            }
        },
        Launch::ZeroLeaf => RowState {
            leaf: overwritten(r.leaf, Seq::new(n, |i: int| 0u32)),
            ..r
        },
        _ => r,
    }
}

/// A pair of histograms with the rows counted in.
pub open spec fn built<A: Arith>(j: Task, r: RowState, p: PairState, c: Counting) -> PairState {
    let n = j.shape.n as nat;
    PairState { g: filled::<A, F32>(c, p.g, r.g, n), h: filled::<A, F32>(c, p.h, r.h, n) }
}

/// A pair of histograms with the rows counted in by blocks.
pub open spec fn built_by_blocks<A: Arith>(
    j: Task,
    r: RowState,
    p: PairState,
    c: Counting,
    tiles: nat,
) -> PairState {
    let n = j.shape.n as int;
    PairState {
        g: tiled::<A>(c, p.g, r.g, r.g, r.h, n, tiles),
        h: tiled::<A>(c, p.h, r.h, r.g, r.h, n, tiles),
    }
}

/// A pair of histograms in half precision with the rows counted in.
pub open spec fn built_half<A: Arith>(j: Task, r: RowState, w: HalfState, c: Counting) -> HalfState {
    let n = j.shape.n as nat;
    HalfState {
        g: filled::<A, F16>(c, w.g, shortened_all::<A>(r.g), n),
        h: filled::<A, F16>(c, w.h, shortened_all::<A>(r.h), n),
    }
}

/// A pair of integer histograms with the rows counted in.
pub open spec fn built_whole<A: Arith>(
    j: Task,
    r: RowState,
    w: WholeState,
    c: Counting,
) -> WholeState {
    let n = j.shape.n as nat;
    WholeState {
        g: filled::<A, i32>(c, w.g, fixed_point::<A>(r.g, j.int_scale), n),
        h: filled::<A, i32>(c, w.h, fixed_point::<A>(r.h, j.int_scale), n),
    }
}

/// Split `k` is the best one by the gains.
pub open spec fn picked<A: Arith>(j: Task, p: PickState, k: int) -> PickState {
    let nb = j.shape.nb as int;
    let (gain, place) = winner(p.gains, j.shape.nf * nb);
    let f = place / nb;
    let t = place % nb;
    let counts = (F32 { bits: LEAST_GAIN32 }).below(gain);
    PickState {
        split_ft: p.split_ft.update(0, f as u32).update(1, t as u32),
        feat: p.feat.update(k, f as u32),
        thr: p.thr.update(k, j.bounds[f * (nb - 1) + t]),
        fi_gain: if counts {
            p.fi_gain.update(f, sum32::<A>(p.fi_gain[f], gain))
        } else {
            p.fi_gain
        },
        fi_count: if counts {
            p.fi_count.update(f, sum32::<A>(p.fi_count[f], F32 { bits: ONE32 }))
        } else {
            p.fi_count
        },
        ..p
    }
}

/// Launches that compute leaf values.
pub open spec fn leaf_step<A: Arith, C: Accum<A>>(
    j: Task,
    r: RowState,
    v: LeafState,
    l: Launch,
) -> LeafState {
    let n = j.shape.n as nat;
    let leaves = j.shape.leaves() as nat;
    let replicas = j.shape.replicas as nat;
    match l {
        Launch::ZeroLeafSums { len } => LeafState {
            g: zeroed(v.g, len as nat),
            h: zeroed(v.h, len as nat),
            ..v
        },
        Launch::ZeroLeafSquares { len } => LeafState { g2: zeroed(v.g2, len as nat), ..v },
        Launch::LeafHist { seed } => {
            let rows = j.leaf_rows(r.leaf, seed);
            LeafState {
                g: rows.summed::<A>(v.g, r.g, n),
                h: rows.summed::<A>(v.h, r.h, n),
                g2: rows.summed::<A>(v.g2, squares::<A>(r.g), n),
                ..v
            }
        },
        Launch::ReduceLeafSums => LeafState {
            g: folded::<A, C>(v.g, replicas, leaves),
            h: folded::<A, C>(v.h, replicas, leaves),
            ..v
        },
        Launch::ReduceLeafSquares => LeafState {
            g2: folded::<A, C>(v.g2, replicas, leaves),
            ..v
        },
        Launch::LeafValues { base } => LeafState {
            val: written_at(
                v.val,
                base as int,
                Seq::new(leaves, |k: int| step_of::<A>(v.g[k], v.h[k], j.lr, j.lambda)),
            ),
            var: written_at(
                v.var,
                base as int,
                Seq::new(leaves, |k: int| variance_of::<A>(v.g[k], v.h[k], v.g2[k], j.lr)),
            ),
            ..v
        },
        _ => v,
    }
}

/// What a launch does to the buffers.
#[verifier::opaque]
pub open spec fn step<A: Arith, C: Accum<A>>(j: Task, m: Machine, l: Launch) -> Machine {
    let n = j.shape.n as nat;
    let replicas = j.shape.replicas as int;
    match l {
        Launch::ZeroHalf { len } => Machine {
            half: HalfState {
                g: overwritten(m.half.g, Seq::new(len as nat, |i: int| F16 { bits: 0 })),
                h: overwritten(m.half.h, Seq::new(len as nat, |i: int| F16 { bits: 0 })),
            },
            ..m
        },
        Launch::ZeroInt { len } => Machine {
            whole: WholeState {
                g: overwritten(m.whole.g, Seq::new(len as nat, |i: int| 0i32)),
                h: overwritten(m.whole.h, Seq::new(len as nat, |i: int| 0i32)),
            },
            ..m
        },
        Launch::ZeroHist { side, len } => m.with_pair(
            side,
            PairState {
                g: zeroed(m.pair(side).g, len as nat),
                h: zeroed(m.pair(side).h, len as nat),
            },
        ),
        Launch::BuildSmem { side, groups, tiles, seed, odd_only } => m.with_pair(
            side,
            built_by_blocks::<A>(
                j,
                m.rows,
                m.pair(side),
                j.counting(m.rows.leaf, 1, j.shape.hist_len(groups as int), seed, odd_only),
                tiles as nat,
            ),
        ),
        Launch::BuildHalf { hist_len, seed, odd_only } => Machine {
            half: built_half::<A>(
                j,
                m.rows,
                m.half,
                j.counting(m.rows.leaf, replicas, hist_len as int, seed, odd_only),
            ),
            ..m
        },
        Launch::ReduceHalf { side, hist_len } => m.with_pair(
            side,
            PairState {
                g: overwritten(
                    m.pair(side).g,
                    half_sums::<A>(m.half.g, replicas as nat, hist_len as nat),
                ),
                h: overwritten(
                    m.pair(side).h,
                    half_sums::<A>(m.half.h, replicas as nat, hist_len as nat),
                ),
            },
        ),
        Launch::BuildInt { hist_len, seed, odd_only } => Machine {
            whole: built_whole::<A>(
                j,
                m.rows,
                m.whole,
                j.counting(m.rows.leaf, replicas, hist_len as int, seed, odd_only),
            ),
            ..m
        },
        Launch::ReduceInt { side, hist_len } => m.with_pair(
            side,
            PairState {
                g: overwritten(
                    m.pair(side).g,
                    rescaled::<A>(m.whole.g, replicas as nat, hist_len as nat, j.inv_scale),
                ),
                h: overwritten(
                    m.pair(side).h,
                    rescaled::<A>(m.whole.h, replicas as nat, hist_len as nat, j.inv_scale),
                ),
            },
        ),
        Launch::BuildHist { side, hist_len, seed, odd_only } => m.with_pair(
            side,
            built::<A>(
                j,
                m.rows,
                m.pair(side),
                j.counting(m.rows.leaf, replicas, hist_len as int, seed, odd_only),
            ),
        ),
        Launch::ReduceHist { side, hist_len } => m.with_pair(
            side,
            PairState {
                g: folded::<A, C>(m.pair(side).g, replicas as nat, hist_len as nat),
                h: folded::<A, C>(m.pair(side).h, replicas as nat, hist_len as nat),
            },
        ),
        Launch::SubtractEven { side, prev_groups } => {
            let prev = m.pair(crate::gpu::plan::other(side));
            let size = j.shape.nf * j.shape.nb;
            m.with_pair(
                side,
                PairState {
                    g: evened::<A>(m.pair(side).g, prev.g, prev_groups as int, size),
                    h: evened::<A>(m.pair(side).h, prev.h, prev_groups as int, size),
                },
            )
        },
        Launch::SplitGain { side, groups, seed } => Machine {
            pick: PickState {
                gains: overwritten(
                    m.pick.gains,
                    Seq::new(
                        (j.shape.nf * j.shape.nb) as nat,
                        |id: int|
                            j.rating(m.pair(side), groups as int, seed).gain::<A, C>(id),
                    ),
                ),
                ..m.pick
            },
            ..m
        },
        Launch::ArgmaxSplit { k } => Machine { pick: picked::<A>(j, m.pick, k as int), ..m },
        Launch::ApplySplit => Machine {
            rows: RowState {
                leaf: overwritten(
                    m.rows.leaf,
                    split_nodes(
                        m.rows.leaf,
                        j.view_bins(),
                        m.pick.split_ft[0] as int,
                        m.pick.split_ft[1] as int,
                        n,
                    ),
                ),
                ..m.rows
            },
            ..m
        },
        Launch::UpdatePred { base } => Machine {
            rows: RowState {
                pred: overwritten(
                    m.rows.pred,
                    Seq::new(
                        n,
                        |i: int|
                            sum32::<A>(m.rows.pred[i], m.leaves.val[base + m.rows.leaf[i]]),
                    ),
                ),
                ..m.rows
            },
            ..m
        },
        _ => Machine {
            rows: row_step::<A>(j, m.rows, l),
            leaves: leaf_step::<A, C>(j, m.rows, m.leaves, l),
            ..m
        },
    }
}

/// What launches do, one after the other.
pub open spec fn run<A: Arith, C: Accum<A>>(j: Task, m: Machine, ls: Seq<Launch>) -> Machine
    decreases ls.len(),
{
    if ls.len() == 0 {
        m
    } else {
        run::<A, C>(j, step::<A, C>(j, m, ls[0]), ls.skip(1))
    }
}

/// How far a tree has got.
pub struct Stage {
    /// The level of the nodes that the rows are at.
    pub level: int,
    /// Splits have been rated.
    pub rated: bool,
    /// A split has been chosen.
    pub chosen: bool,
}

/// The stage after a launch.
pub open spec fn next_stage(s: Stage, l: Launch) -> Stage {
    match l {
        Launch::ZeroLeaf => Stage { level: 0, ..s },
        Launch::SplitGain { .. } => Stage { rated: true, ..s },
        Launch::ArgmaxSplit { .. } => Stage { chosen: true, ..s },
        Launch::ApplySplit => Stage { level: s.level + 1, ..s },
        _ => s,
    }
}

/// A launch may come at a stage: all places that it reads and writes exist.
pub open spec fn may_come(shape: Shape, s: Stage, l: Launch) -> bool {
    let growing = 0 <= s.level < shape.depth;
    let groups = pow2(s.level as nat) as int;
    match l {
        Launch::BuildSmem { groups: g, tiles, .. } => {
            &&& growing
            &&& g == groups
            &&& groups * shape.nb <= 4096
            &&& 0 < tiles <= 4096
        },
        Launch::BuildHalf { hist_len, .. } => {
            &&& growing
            &&& shape.half
            &&& hist_len == shape.hist_len(groups)
        },
        Launch::ReduceHalf { hist_len, .. } => {
            &&& growing
            &&& shape.half
            &&& hist_len == shape.hist_len(groups)
        },
        Launch::BuildInt { hist_len, .. } => {
            &&& growing
            &&& shape.integer
            &&& hist_len == shape.hist_len(groups)
        },
        Launch::ReduceInt { hist_len, .. } => {
            &&& growing
            &&& shape.integer
            &&& hist_len == shape.hist_len(groups)
        },
        Launch::BuildHist { hist_len, .. } => growing && hist_len == shape.hist_len(groups),
        Launch::ReduceHist { hist_len, .. } => growing && hist_len == shape.hist_len(groups),
        Launch::SubtractEven { prev_groups, .. } => {
            &&& growing
            &&& s.level >= 1
            &&& prev_groups == pow2((s.level - 1) as nat)
        },
        Launch::SplitGain { groups: g, .. } => growing && g == groups,
        Launch::ArgmaxSplit { k } => s.rated && k < shape.n_trees * shape.depth,
        Launch::ApplySplit => growing && s.chosen,
        Launch::LeafHist { .. } => s.level == shape.depth,
        Launch::LeafValues { base } => base + shape.leaves() <= shape.n_trees * shape.leaves(),
        Launch::UpdatePred { base } => {
            &&& s.level == shape.depth
            &&& base + shape.leaves() <= shape.n_trees * shape.leaves()
        },
        _ => true,
    }
}

/// The stage after some launches.
pub open spec fn stage_after(s: Stage, ls: Seq<Launch>) -> Stage
    decreases ls.len(),
{
    if ls.len() == 0 {
        s
    } else {
        stage_after(next_stage(s, ls[0]), ls.skip(1))
    }
}

/// Each of the launches may come at the stage that those before it lead to.
pub open spec fn sound(shape: Shape, s: Stage, ls: Seq<Launch>) -> bool
    decreases ls.len(),
{
    ls.len() == 0 || (may_come(shape, s, ls[0]) && sound(
        shape,
        next_stage(s, ls[0]),
        ls.skip(1),
    ))
}

impl Machine {
    /// The buffers have the sizes that a run needs.
    pub open spec fn sized(self, shape: Shape) -> bool {
        let most = shape.replicas * shape.hist_len(shape.max_groups());
        let sums = shape.replicas * shape.leaves();
        &&& self.rows.pred.len() == shape.n
        &&& self.rows.g.len() == shape.n
        &&& self.rows.h.len() == shape.n
        &&& self.rows.leaf.len() == shape.n
        &&& self.rows.stats.len() == 2
        &&& self.rows.thresh.len() == 1
        &&& self.a.g.len() == most
        &&& self.a.h.len() == most
        &&& self.b.g.len() == most
        &&& self.b.h.len() == most
        &&& shape.half ==> self.half.g.len() == most && self.half.h.len() == most
        &&& shape.integer ==> self.whole.g.len() == most && self.whole.h.len() == most
        &&& self.pick.gains.len() == shape.nf * shape.nb
        &&& self.pick.split_ft.len() == 2
        &&& self.pick.feat.len() == shape.n_trees * shape.depth
        &&& self.pick.thr.len() == shape.n_trees * shape.depth
        &&& self.pick.fi_gain.len() == shape.nf
        &&& self.pick.fi_count.len() == shape.nf
        &&& self.leaves.g.len() == sums
        &&& self.leaves.h.len() == sums
        &&& self.leaves.g2.len() == sums
        &&& self.leaves.val.len() == shape.n_trees * shape.leaves()
        &&& self.leaves.var.len() == shape.n_trees * shape.leaves()
    }

    /// The buffers hold what the stage says, and only features that exist.
    pub open spec fn at_stage(self, shape: Shape, s: Stage) -> bool {
        &&& self.sized(shape)
        &&& 0 <= s.level <= shape.depth
        &&& forall|i: int| 0 <= i < shape.n ==> #[trigger] self.rows.leaf[i] < pow2(s.level as nat)
        &&& s.rated ==> forall|f: int|
            0 <= f < shape.nf ==> (#[trigger] self.pick.gains[f * shape.nb + shape.nb - 1]) == (F32 {
                bits: NO_GAIN32,
            })
        &&& s.chosen ==> self.pick.split_ft[0] < shape.nf
        &&& forall|k: int|
            0 <= k < self.pick.feat.len() ==> #[trigger] self.pick.feat[k] < shape.nf
    }
}

/// The stage between two trees.
pub open spec fn between_trees(shape: Shape) -> Stage {
    Stage { level: shape.depth as int, rated: false, chosen: false }
}

proof fn lemma_sound_append(shape: Shape, s: Stage, a: Seq<Launch>, b: Seq<Launch>)
    requires
        sound(shape, s, a),
        sound(shape, stage_after(s, a), b),
    ensures
        sound(shape, s, a + b),
        stage_after(s, a + b) == stage_after(stage_after(s, a), b),
    decreases a.len(),
{
    if a.len() == 0 {
        assert(a + b =~= b);
    } else {
        lemma_sound_append(shape, next_stage(s, a[0]), a.skip(1), b);
        assert((a + b).skip(1) =~= a.skip(1) + b);
    }
}

/// One launch of a series.
proof fn lemma_sound_one(shape: Shape, s: Stage, l: Launch)
    requires
        may_come(shape, s, l),
    ensures
        sound(shape, s, seq![l]),
        stage_after(s, seq![l]) == next_stage(s, l),
{
    assert(seq![l].skip(1) =~= Seq::empty());
    reveal_with_fuel(sound, 2);
    reveal_with_fuel(stage_after, 2);
}

/// One more launch.
proof fn lemma_sound_push(shape: Shape, s: Stage, a: Seq<Launch>, l: Launch)
    requires
        sound(shape, s, a),
        may_come(shape, stage_after(s, a), l),
    ensures
        sound(shape, s, a.push(l)),
        stage_after(s, a.push(l)) == next_stage(stage_after(s, a), l),
{
    lemma_sound_one(shape, stage_after(s, a), l);
    lemma_sound_append(shape, s, a, seq![l]);
    assert(a.push(l) =~= a + seq![l]);
}

/// Launches that may come at any stage, and leave it as it is.
pub open spec fn indifferent(l: Launch) -> bool {
    match l {
        Launch::Mark(_) => true,
        Launch::GradLogistic => true,
        Launch::GradL2 => true,
        Launch::ClearStats => true,
        Launch::HessStats => true,
        Launch::HessClamp => true,
        Launch::GossStats => true,
        Launch::GossThresh => true,
        Launch::GossApply { .. } => true,
        Launch::ZeroHalf { .. } => true,
        Launch::ZeroInt { .. } => true,
        Launch::ZeroHist { .. } => true,
        Launch::ZeroLeafSums { .. } => true,
        Launch::ZeroLeafSquares { .. } => true,
        Launch::ReduceLeafSums => true,
        Launch::ReduceLeafSquares => true,
        _ => false,
    }
}

proof fn lemma_sound_indifferent(shape: Shape, s: Stage, ls: Seq<Launch>)
    requires
        forall|i: int| 0 <= i < ls.len() ==> indifferent(#[trigger] ls[i]),
    ensures
        sound(shape, s, ls),
        stage_after(s, ls) == s,
    decreases ls.len(),
{
    if ls.len() > 0 {
        assert(indifferent(ls[0]));
        assert forall|i: int| 0 <= i < ls.skip(1).len() implies indifferent(
            #[trigger] ls.skip(1)[i],
        ) by {
            assert(ls.skip(1)[i] == ls[i + 1]);
        }
        lemma_sound_indifferent(shape, s, ls.skip(1));
    }
}

proof fn lemma_level_sound(shape: Shape, s: Stage, tree: int, d: int)
    requires
        shape.well_formed(),
        0 <= tree < shape.n_trees,
        0 <= d < shape.depth,
        s.level == d,
    ensures
        sound(shape, s, shape.level_plan(tree, d)),
        stage_after(s, shape.level_plan(tree, d)).level == d + 1,
{
    lemma_level_sizes(shape, d);
    if d >= 1 {
        lemma_level_sizes(shape, d - 1);
    }
    let t = tree;
    let dp = shape.depth as int;
    let nt = shape.n_trees as int;
    assert(0 <= t * dp && t * dp + dp <= nt * dp) by (nonlinear_arith)
        requires
            0 <= t < nt,
            dp >= 0,
    ;
    let zero = shape.zero_plan(d).push(Launch::Mark(Category::ZeroHist));
    lemma_sound_indifferent(shape, s, zero);
    let build = shape.build_plan(tree, d);
    assert(sound(shape, s, build) && stage_after(s, build) == s) by {
        lemma_sound_one(shape, s, build[0]);
        assert(stage_after(s, seq![build[0]]) == s);
        if build.len() == 2 {
            lemma_sound_push(shape, s, seq![build[0]], build[1]);
            assert(build =~= seq![build[0]].push(build[1]));
        } else {
            assert(build =~= seq![build[0]]);
        }
    }
    let subtract = shape.subtract_plan(d);
    assert(sound(shape, s, subtract) && stage_after(s, subtract) == s) by {
        if subtract.len() == 1 {
            lemma_sound_one(shape, s, subtract[0]);
            assert(subtract =~= seq![subtract[0]]);
        }
    }
    lemma_sound_append(shape, s, zero, build);
    lemma_sound_append(shape, s, zero + build, subtract);
    let split = shape.split_plan(tree, d);
    let p1 = seq![split[0]];
    let p2 = p1.push(split[1]);
    let p3 = p2.push(split[2]);
    let p4 = p3.push(split[3]);
    let p5 = p4.push(split[4]);
    let p6 = p5.push(split[5]);
    lemma_sound_one(shape, s, split[0]);
    lemma_sound_push(shape, s, p1, split[1]);
    lemma_sound_push(shape, s, p2, split[2]);
    lemma_sound_push(shape, s, p3, split[3]);
    lemma_sound_push(shape, s, p4, split[4]);
    lemma_sound_push(shape, s, p5, split[5]);
    lemma_sound_push(shape, s, p6, split[6]);
    assert(split =~= p6.push(split[6]));
    lemma_sound_append(shape, s, zero + build + subtract, split);
}

proof fn lemma_levels_sound(shape: Shape, s: Stage, tree: int, d: nat)
    requires
        shape.well_formed(),
        0 <= tree < shape.n_trees,
        d <= shape.depth,
        s.level == 0,
    ensures
        sound(shape, s, shape.levels_plan(tree, d)),
        stage_after(s, shape.levels_plan(tree, d)).level == d,
    decreases d,
{
    if d > 0 {
        let before = shape.levels_plan(tree, (d - 1) as nat);
        lemma_levels_sound(shape, s, tree, (d - 1) as nat);
        lemma_level_sound(shape, stage_after(s, before), tree, d - 1);
        lemma_sound_append(shape, s, before, shape.level_plan(tree, d - 1));
    }
}

/// Every launch of a tree may come when it comes: no launch reads or writes a place that does
/// not exist. Trees can be grown one after the other.
pub proof fn lemma_plan_sound(shape: Shape, tree: int)
    requires
        shape.well_formed(),
        0 <= tree < shape.n_trees,
    ensures
        sound(shape, between_trees(shape), shape.tree_plan(tree)),
        stage_after(between_trees(shape), shape.tree_plan(tree)).level == shape.depth,
{
    let s = between_trees(shape);
    let head = shape.head_plan(tree);
    let k = head.len() - 2;
    let first = head.take(k);
    assert(sound(shape, s, head) && stage_after(s, head).level == 0) by {
        assert forall|i: int| 0 <= i < first.len() implies indifferent(#[trigger] first[i]) by {}
        lemma_sound_indifferent(shape, s, first);
        lemma_sound_push(shape, s, first, Launch::ZeroLeaf);
        lemma_sound_push(
            shape,
            s,
            first.push(Launch::ZeroLeaf),
            Launch::Mark(Category::Gradients),
        );
        assert(head =~= first.push(Launch::ZeroLeaf).push(Launch::Mark(Category::Gradients)));
    }
    let s1 = stage_after(s, head);
    let levels = shape.levels_plan(tree, shape.depth as nat);
    lemma_levels_sound(shape, s1, tree, shape.depth as nat);
    lemma_sound_append(shape, s, head, levels);
    let s2 = stage_after(s1, levels);
    let tail = shape.tail_plan(tree);
    assert(sound(shape, s2, tail) && stage_after(s2, tail) == s2) by {
        let l = shape.leaves();
        let nt = shape.n_trees as int;
        lemma_pow2_pos(shape.depth as nat);
        assert(0 <= tree * l && tree * l + l <= nt * l) by (nonlinear_arith)
            requires
                0 <= tree < nt,
                l >= 0,
        ;
        let p1 = tail.take(2);
        assert forall|i: int| 0 <= i < p1.len() implies indifferent(#[trigger] p1[i]) by {}
        lemma_sound_indifferent(shape, s2, p1);
        lemma_sound_push(shape, s2, p1, tail[2]);
        let p2 = p1.push(tail[2]);
        let e = tail.len() - 4;
        let fold = tail.subrange(3, e);
        assert forall|i: int| 0 <= i < fold.len() implies indifferent(#[trigger] fold[i]) by {}
        lemma_sound_indifferent(shape, s2, fold);
        lemma_sound_append(shape, s2, p2, fold);
        let p3 = p2 + fold;
        let p4 = p3.push(tail[e]);
        let p5 = p4.push(tail[e + 1]);
        let p6 = p5.push(tail[e + 2]);
        lemma_sound_push(shape, s2, p3, tail[e]);
        lemma_sound_push(shape, s2, p4, tail[e + 1]);
        lemma_sound_push(shape, s2, p5, tail[e + 2]);
        lemma_sound_push(shape, s2, p6, tail[e + 3]);
        assert(tail =~= p6.push(tail[e + 3]));
    }
    lemma_sound_append(shape, s, head + levels, tail);
}

} // verus!
