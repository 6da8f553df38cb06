//! Growing a forest of oblivious trees on the host.
//!
//! Each round computes the gradients and hessians at the present scores, samples rows, and
//! grows one tree level by level: the histograms of the level's nodes are built from the
//! sampled rows, the best split is taken, and all rows move on to the children. The histogram
//! of an even child can be had by taking that of its odd sibling from the parent's.

use vstd::arithmetic::power2::lemma2_to64;
use vstd::arithmetic::power2::lemma_pow2_unfold;
use vstd::arithmetic::power2::pow2;
use vstd::prelude::*;

use crate::arith::add32;
use crate::arith::deterministic;
use crate::arith::difference32;
use crate::arith::div64;
use crate::arith::narrow;
use crate::arith::narrowed;
use crate::arith::quotient64;
use crate::arith::sub32;
use crate::arith::sum32;
use crate::arith::widen;
use crate::arith::widened;
use crate::arith::Arith;
use crate::binning::ascending;
use crate::binning::at_boundary;
use crate::binning::bin_matrix;
use crate::binning::bins_of;
use crate::binning::bounds_of;
use crate::binning::lemma_bin_range;
use crate::binning::lemma_bin_splits;
use crate::config::Config;
use crate::config::Objective;
use crate::float::F32;
use crate::float::F64;
use crate::float::ONE32;
use crate::float::ONE64;
use crate::forest::leaf_count;
use crate::forest::leaf_of;
use crate::forest::lemma_leaf_same;
use crate::forest::lemma_score_same;
use crate::forest::row_of;
use crate::forest::Forest;
use crate::histogram::build_hist;
use crate::histogram::countable;
use crate::histogram::histogram;
use crate::histogram::Assignment;
use crate::leaf::compute_leaf_values;
use crate::leaf::leaf_values;
use crate::objective::derivatives;
use crate::objective::gradients_of;
use crate::objective::hessians_of;
use crate::par::par_map;
use crate::sampling::ascending_rows;
use crate::sampling::goss_rows;
use crate::sampling::goss_rule;
use crate::sampling::goss_sample;
use crate::sampling::goss_weighed;
use crate::sampling::lemma_ascending_rows;
use crate::sampling::strided;
use crate::sampling::strided_rows;
use crate::split::best_split;
use crate::split::lemma_best;
use crate::split::Choice;
use crate::split::Level;

verus! {

/// Bits of 0.999 in single precision: sampling rates from here on mean all rows.
pub const ALL_ROWS32: u32 = 0x3F7F_BE77;

/// What a forest is grown from.
pub struct Problem {
    /// The bins of the rows, row by row.
    pub bins: Seq<u8>,
    /// The labels of the rows.
    pub y: Seq<F32>,
    /// The bin boundaries, feature by feature.
    pub bounds: Seq<F32>,
    pub n: nat,
    pub nf: nat,
    pub nbins: nat,
    pub depth: nat,
    /// The score that all rows start from.
    pub base: F32,
    pub lambda: F64,
    pub lr: F64,
    pub min_child: F64,
    pub logistic: bool,
    pub subtract: bool,
    /// Every `stride`-th row is used for a tree, unless the rows are sampled by gradient.
    pub stride: nat,
    pub goss: bool,
    pub goss_top: F64,
    pub goss_other: F64,
    pub workers: nat,
}

/// The gradients, hessians and rows that one tree is grown from.
pub struct Round {
    pub g: Seq<F32>,
    pub h: Seq<F32>,
    pub rows: Seq<u32>,
}

/// A tree in the making: the nodes that the rows are at, the histogram that the last split
/// was chosen from, and the splits.
pub struct Growth {
    pub node: Seq<u32>,
    pub hist: Seq<F32>,
    pub splits: Seq<Choice>,
}

/// A forest in the making.
pub struct State {
    pub pred: Seq<F32>,
    pub feat: Seq<u32>,
    pub thr: Seq<F32>,
    pub leafval: Seq<F32>,
    pub fi_gain: Seq<F32>,
    pub fi_count: Seq<F32>,
}

/// The histogram of a level from that of its parents and that of its odd nodes: an even node
/// has what its parent has and its odd sibling has not. A node takes `size` entries.
pub open spec fn completed<A: Arith>(prev: Seq<F32>, odd: Seq<F32>, size: int) -> Seq<F32> {
    Seq::new(
        odd.len() * 2,
        |i: int|
            {
                let k = i / size / 2 * size + i % size;
                if i / size % 2 == 1 {
                    odd[k]
                } else {
                    difference32::<A>(prev[k], odd[k])
                }
            },
    )
}

/// The gains of the first `k` splits added to the importance of their features. A split that
/// gains nothing adds nothing.
pub open spec fn tally_gain<A: Arith>(fi: Seq<F32>, splits: Seq<Choice>, k: nat) -> Seq<F32>
    decreases k,
{
    if k == 0 {
        fi
    } else {
        let before = tally_gain::<A>(fi, splits, (k - 1) as nat);
        let f = splits[k - 1].feature;
        before.update(
            f,
            sum32::<A>(before[f], narrowed::<A>(splits[k - 1].gain.larger(F64 { bits: 0 }))),
        )
    }
}

/// The first `k` splits counted for their features.
pub open spec fn tally_count<A: Arith>(fi: Seq<F32>, splits: Seq<Choice>, k: nat) -> Seq<F32>
    decreases k,
{
    if k == 0 {
        fi
    } else {
        let before = tally_count::<A>(fi, splits, (k - 1) as nat);
        let f = splits[k - 1].feature;
        before.update(f, sum32::<A>(before[f], F32 { bits: ONE32 }))
    }
}

/// The features of the splits of a tree.
pub open spec fn split_features(splits: Seq<Choice>) -> Seq<u32> {
    Seq::new(splits.len(), |k: int| splits[k].feature as u32)
}

/// The thresholds of the splits of a tree.
pub open spec fn split_bounds(splits: Seq<Choice>, bounds: Seq<F32>, nb1: int) -> Seq<F32> {
    Seq::new(splits.len(), |k: int| bounds[splits[k].feature * nb1 + splits[k].bin])
}

/// The scores of the rows after a tree whose leaf values are `values`.
pub open spec fn raised<A: Arith>(pred: Seq<F32>, node: Seq<u32>, values: Seq<F32>) -> Seq<F32> {
    Seq::new(pred.len(), |i: int| sum32::<A>(pred[i], values[node[i] as int]))
}

impl Problem {
    /// The sizes belong together.
    pub open spec fn well_formed(self) -> bool {
        &&& 0 < self.n <= u32::MAX
        &&& 0 < self.nf <= u32::MAX
        &&& 2 <= self.nbins <= 256
        &&& self.depth < 32
        &&& 0 < self.stride
        &&& 0 < self.workers
        &&& self.bins.len() == self.n * self.nf
        &&& self.y.len() >= self.n
        &&& self.bounds.len() == self.nf * (self.nbins - 1)
        &&& forall|k: int| 0 <= k < self.bins.len() ==> #[trigger] self.bins[k] < self.nbins
    }

    /// The histogram of the deepest level and the shares of the workers can be addressed.
    pub open spec fn addressable(self) -> bool {
        &&& self.n + self.workers <= usize::MAX
        &&& self.depth > 0 ==> pow2((self.depth - 1) as nat) * self.nf * self.nbins * 2
            <= usize::MAX
    }

    /// What tree `t` is grown from when the rows have the scores `pred`.
    pub open spec fn round<A: Arith>(self, pred: Seq<F32>, t: nat) -> Round {
        let g = gradients_of::<A>(self.logistic, pred, self.y);
        let h = hessians_of::<A>(self.logistic, pred);
        if self.goss {
            let rule = goss_rule::<A>(g, self.goss_top, self.goss_other, t as u64);
            Round {
                g: goss_weighed::<A>(rule, g, g),
                h: goss_weighed::<A>(rule, h, g),
                rows: goss_rows::<A>(rule, g),
            }
        } else {
            Round {
                g,
                h,
                rows: strided((t % self.stride) as int, self.stride as int, self.n as int),
            }
        }
    }

    /// How rows at the given nodes are counted.
    pub open spec fn assignment(self, node: Seq<u32>, odd_only: bool) -> Assignment {
        Assignment {
            node,
            bins: self.bins,
            nf: self.nf as int,
            nbins: self.nbins as int,
            odd_only,
        }
    }

    /// The histogram of the level after `level` splits, where the rows are at the given nodes
    /// and the histogram of the level before is `prev`.
    pub open spec fn level_hist<A: Arith>(
        self,
        round: Round,
        node: Seq<u32>,
        prev: Seq<F32>,
        level: nat,
    ) -> Seq<F32> {
        if level == 0 || !self.subtract {
            histogram::<A>(
                self.assignment(node, false),
                round.rows,
                round.g,
                round.h,
                self.workers,
                pow2(level),
            )
        } else {
            completed::<A>(
                prev,
                histogram::<A>(
                    self.assignment(node, true),
                    round.rows,
                    round.g,
                    round.h,
                    self.workers,
                    pow2((level - 1) as nat),
                ),
                (self.nf * self.nbins * 2) as int,
            )
        }
    }

    /// What the split of the level after `level` splits is chosen from.
    pub open spec fn level<A: Arith>(self, round: Round, grown: Growth, level: nat) -> Level {
        Level {
            hist: self.level_hist::<A>(round, grown.node, grown.hist, level),
            nodes: pow2(level),
            nf: self.nf,
            nbins: self.nbins,
            lambda: self.lambda,
            min_child: self.min_child,
        }
    }

    /// The nodes of the rows after one more split.
    pub open spec fn descended(self, node: Seq<u32>, feature: int, bin: int) -> Seq<u32> {
        Seq::new(
            node.len(),
            |i: int|
                (node[i] * 2 + if self.bins[i * self.nf + feature] > bin {
                    1int
                } else {
                    0int
                }) as u32,
        )
    }

    /// The tree after `level` splits.
    pub open spec fn grown<A: Arith>(self, round: Round, level: nat) -> Growth
        decreases level,
    {
        if level == 0 {
            Growth {
                node: Seq::new(self.n, |i: int| 0u32),
                hist: Seq::empty(),
                splits: Seq::empty(),
            }
        } else {
            let before = self.grown::<A>(round, (level - 1) as nat);
            let lv = self.level::<A>(round, before, (level - 1) as nat);
            let best = lv.best::<A>();
            Growth {
                node: self.descended(before.node, best.feature, best.bin),
                hist: lv.hist,
                splits: before.splits.push(best),
            }
        }
    }

    /// The leaf values of a finished tree.
    pub open spec fn values<A: Arith>(self, round: Round, tree: Growth) -> Seq<F32> {
        leaf_values::<A>(
            tree.node,
            round.rows,
            round.g,
            round.h,
            self.workers,
            pow2(self.depth),
            self.lr,
            self.lambda,
        )
    }

    /// The forest after `t` trees.
    pub open spec fn after<A: Arith>(self, t: nat) -> State
        decreases t,
    {
        if t == 0 {
            State {
                pred: Seq::new(self.n, |i: int| self.base),
                feat: Seq::empty(),
                thr: Seq::empty(),
                leafval: Seq::empty(),
                fi_gain: Seq::new(self.nf, |f: int| F32 { bits: 0 }),
                fi_count: Seq::new(self.nf, |f: int| F32 { bits: 0 }),
            }
        } else {
            let before = self.after::<A>((t - 1) as nat);
            let round = self.round::<A>(before.pred, (t - 1) as nat);
            let tree = self.grown::<A>(round, self.depth);
            let values = self.values::<A>(round, tree);
            State {
                pred: raised::<A>(before.pred, tree.node, values),
                feat: before.feat + split_features(tree.splits),
                thr: before.thr + split_bounds(tree.splits, self.bounds, self.nbins - 1),
                leafval: before.leafval + values,
                fi_gain: tally_gain::<A>(before.fi_gain, tree.splits, tree.splits.len()),
                fi_count: tally_count::<A>(before.fi_count, tree.splits, tree.splits.len()),
            }
        }
    }
}

/// The step between sampled rows that a sampling rate asks for.
pub open spec fn stride_of<A: Arith>(subsample: F32) -> int {
    let step = quotient64::<A>(F64 { bits: ONE64 }, widened::<A>(subsample)).nearest();
    if subsample.below(F32 { bits: ALL_ROWS32 }) && step > 1 {
        step
    } else {
        1
    }
}

/// The problem of fitting the rows of `x` under a configuration.
pub open spec fn problem_of<A: Arith>(
    x: Seq<F32>,
    y: Seq<F32>,
    n: nat,
    nf: nat,
    bounds: Seq<F32>,
    base: F32,
    cfg: Config,
    workers: nat,
) -> Problem {
    Problem {
        bins: bins_of(x, bounds, nf as int, cfg.n_bins - 1),
        y,
        bounds,
        n,
        nf,
        nbins: cfg.n_bins as nat,
        depth: cfg.depth as nat,
        base,
        lambda: widened::<A>(cfg.lambda),
        lr: widened::<A>(cfg.learning_rate),
        min_child: widened::<A>(cfg.min_child_h),
        logistic: cfg.objective == Objective::Logistic,
        subtract: cfg.subtract,
        stride: stride_of::<A>(cfg.subsample) as nat,
        goss: (F32 { bits: 0 }).below(cfg.goss_top),
        goss_top: widened::<A>(cfg.goss_top),
        goss_other: widened::<A>(cfg.goss_other),
        workers,
    }
}

/// A split of a tree, and what it is worth.
#[derive(Clone, Copy)]
pub struct Split {
    pub gain: F64,
    pub feature: usize,
    pub bin: usize,
}

impl Split {
    pub open spec fn choice(self) -> Choice {
        Choice { gain: self.gain, feature: self.feature as int, bin: self.bin as int }
    }
}

/// The splits as they are chosen.
pub open spec fn choices(splits: Seq<Split>) -> Seq<Choice> {
    Seq::new(splits.len(), |k: int| splits[k].choice())
}

/// The splits ask of features and bins that there are.
pub open spec fn splits_fit(splits: Seq<Split>, nf: nat, nbins: nat) -> bool {
    forall|k: int|
        0 <= k < splits.len() ==> (#[trigger] splits[k]).feature < nf && splits[k].bin < nbins - 1
}

/// A problem at hand.
pub struct Setup<'a> {
    pub bins: &'a [u8],
    pub y: &'a [F32],
    pub bounds: &'a [F32],
    pub n: usize,
    pub nf: usize,
    pub nbins: usize,
    pub depth: usize,
    pub base: F32,
    pub lambda: F64,
    pub lr: F64,
    pub min_child: F64,
    pub logistic: bool,
    pub subtract: bool,
    pub stride: usize,
    pub goss: bool,
    pub goss_top: F64,
    pub goss_other: F64,
    pub workers: usize,
}

impl<'a> Setup<'a> {
    pub open spec fn problem(self) -> Problem {
        Problem {
            bins: self.bins@,
            y: self.y@,
            bounds: self.bounds@,
            n: self.n as nat,
            nf: self.nf as nat,
            nbins: self.nbins as nat,
            depth: self.depth as nat,
            base: self.base,
            lambda: self.lambda,
            lr: self.lr,
            min_child: self.min_child,
            logistic: self.logistic,
            subtract: self.subtract,
            stride: self.stride as nat,
            goss: self.goss,
            goss_top: self.goss_top,
            goss_other: self.goss_other,
            workers: self.workers as nat,
        }
    }
}

/// The histogram of a level from that of its parents and that of its odd nodes. There are
/// `nodes` parents, and a node takes `size` entries.
fn complete_hist<A: Arith>(prev: &[F32], odd: &[F32], nodes: usize, size: usize) -> (hist: Vec<F32>)
    requires
        size > 0,
        prev@.len() == nodes * size,
        odd@.len() == nodes * size,
        nodes * size * 2 <= usize::MAX,
    ensures
        hist@.len() == nodes * size * 2,
        deterministic::<A>() ==> hist@ == completed::<A>(prev@, odd@, size as int),
{
    let mut hist: Vec<F32> = Vec::new();
    let total: usize = odd.len() * 2;
    while hist.len() < total
        invariant
            size > 0,
            prev@.len() == nodes * size,
            odd@.len() == nodes * size,
            total == nodes * size * 2,
            hist@.len() <= total,
            deterministic::<A>() ==> forall|i: int|
                0 <= i < hist@.len() ==> #[trigger] hist@[i] == completed::<A>(
                    prev@,
                    odd@,
                    size as int,
                )[i],
        decreases total - hist@.len(),
    {
        let i: usize = hist.len();
        let nd: usize = i / size;
        let x: usize = i % size;
        assert(0 <= nd / 2 * size && nd / 2 * size + x < nodes * size) by (nonlinear_arith)
            requires
                size > 0,
                0 <= i < nodes * size * 2,
                nd == i / size,
                0 <= x < size,
        {
            assert(nd < nodes * 2) by (nonlinear_arith)
                requires
                    size > 0,
                    0 <= i < nodes * size * 2,
                    nd == i / size,
            ;
        }
        assert(odd.len() == nodes * size);
        let k: usize = nd / 2 * size + x;
        let v = if nd % 2 == 1 {
            odd[k]
        } else {
            sub32::<A>(prev[k], odd[k])
        };
        hist.push(v);
    }
    assert(deterministic::<A>() ==> hist@ =~= completed::<A>(prev@, odd@, size as int));
    hist
}

/// The nodes of the rows after one more split.
fn descend(s: &Setup, node: &[u32], feature: usize, bin: usize, level: usize) -> (next: Vec<u32>)
    requires
        s.problem().well_formed(),
        node@.len() == s.n,
        feature < s.nf,
        level < s.depth,
        forall|i: int| 0 <= i < node@.len() ==> #[trigger] node@[i] < pow2(level as nat),
    ensures
        next@ == s.problem().descended(node@, feature as int, bin as int),
        next@.len() == s.n,
        forall|i: int| 0 <= i < next@.len() ==> #[trigger] next@[i] < pow2((level + 1) as nat),
{
    let n: usize = s.n;
    let nf: usize = s.nf;
    let bins = s.bins;
    proof {
        lemma_pow2_unfold((level + 1) as nat);
        lemma_pow2_bound((level + 1) as nat);
    }
    let next: Vec<u32> = par_map(
        n,
        |i: usize| -> (r: u32)
            requires
                i < n,
                node@.len() == n,
                bins@.len() == n * nf,
                feature < nf,
                node@[i as int] * 2 + 1 <= u32::MAX,
            ensures
                r == (node@[i as int] * 2 + if bins@[i * nf + feature] > bin {
                    1int
                } else {
                    0int
                })
            { child(node[i], bins, i, nf, feature, bin, n) },
    );
    assert(next@ =~= s.problem().descended(node@, feature as int, bin as int));
    next
}

/// The child that row `i` at node `node` moves on to.
fn child(
    node: u32,
    bins: &[u8],
    i: usize,
    nf: usize,
    feature: usize,
    bin: usize,
    n: usize,
) -> (r: u32)
    requires
        i < n,
        bins@.len() == n * nf,
        feature < nf,
        node * 2 + 1 <= u32::MAX,
    ensures
        r == node * 2 + if bins@[i * nf + feature] > bin {
            1int
        } else {
            0int
        },
{
    assert(0 <= i * nf && i * nf + feature < n * nf) by (nonlinear_arith)
        requires
            0 <= i < n,
            0 <= feature < nf,
    ;
    assert(bins.len() == n * nf);
    if bins[i * nf + feature] as usize > bin {
        node * 2 + 1
    } else {
        node * 2
    }
}

/// Trees have fewer leaves than a node index can tell apart.
pub(crate) proof fn lemma_pow2_bound(d: nat)
    requires
        d < 33,
    ensures
        0 < pow2(d) <= 0x1_0000_0000,
{
    lemma2_to64();
    vstd::arithmetic::power2::lemma2_to64_rest();
    vstd::arithmetic::power2::lemma_pow2_pos(d);
    if d < 32 {
        vstd::arithmetic::power2::lemma_pow2_strictly_increases(d, 32);
    }
}

/// Sizes of the histograms of a level.
proof fn lemma_level_size(p: Problem, level: nat)
    requires
        p.well_formed(),
        p.addressable(),
        level < p.depth,
    ensures
        pow2(level) * p.nf * p.nbins * 2 <= usize::MAX,
        pow2(level) * p.nf * p.nbins * 2 == pow2(level) * (p.nf * p.nbins * 2),
        p.nf * p.nbins * 2 <= usize::MAX,
        p.nf * p.nbins * 2 > 0,
{
    let top = (p.depth - 1) as nat;
    if level < top {
        vstd::arithmetic::power2::lemma_pow2_strictly_increases(level, top);
    }
    let a = pow2(level) as int;
    let b = pow2(top) as int;
    let nf = p.nf as int;
    let nbins = p.nbins as int;
    vstd::arithmetic::power2::lemma_pow2_pos(level);
    assert(a * nf * nbins * 2 <= b * nf * nbins * 2) by (nonlinear_arith)
        requires
            a <= b,
            nf > 0,
            nbins > 0,
    ;
    assert(a * nf * nbins * 2 == a * (nf * nbins * 2)) by (nonlinear_arith);
    assert(nf * nbins * 2 <= a * nf * nbins * 2) by (nonlinear_arith)
        requires
            a >= 1,
            nf > 0,
            nbins > 0,
    ;
    assert(nf * nbins * 2 > 0) by (nonlinear_arith)
        requires
            nf > 0,
            nbins > 0,
    ;
}

/// The histogram of the level after `level` splits.
fn level_histogram<A: Arith>(
    s: &Setup,
    rows: &[u32],
    g: &[F32],
    h: &[F32],
    node: &[u32],
    prev: &[F32],
    level: usize,
) -> (hist: Vec<F32>)
    requires
        s.problem().well_formed(),
        s.problem().addressable(),
        g@.len() == s.n,
        h@.len() == s.n,
        ascending_rows(rows@, s.n as int),
        node@.len() == s.n,
        level < s.depth,
        forall|i: int| 0 <= i < node@.len() ==> #[trigger] node@[i] < pow2(level as nat),
        level > 0 ==> prev@.len() == pow2((level - 1) as nat) * s.nf * s.nbins * 2,
    ensures
        hist@.len() == pow2(level as nat) * s.nf * s.nbins * 2,
        deterministic::<A>() ==> hist@ == s.problem().level_hist::<A>(
            Round { g: g@, h: h@, rows: rows@ },
            node@,
            prev@,
            level as nat,
        ),
{
    let ghost p = s.problem();
    proof {
        lemma_level_size(p, level as nat);
        lemma_ascending_rows(rows@, s.n as int);
    }
    let n_nodes: usize = leaf_count(level);
    if level == 0 || !s.subtract {
        assert(countable(p.assignment(node@, false), rows@, g@, h@, n_nodes as int)) by {
            lemma_rows_fit(p, node@, rows@, false, n_nodes as int, n_nodes as int);
        }
        build_hist::<A>(
            rows,
            s.workers,
            n_nodes,
            s.nf,
            s.nbins,
            node,
            g,
            h,
            s.bins,
            false,
        )
    } else {
        let prev_nodes: usize = leaf_count(level - 1);
        proof {
            lemma_level_size(p, (level - 1) as nat);
            lemma_pow2_unfold(level as nat);
            assert(countable(p.assignment(node@, true), rows@, g@, h@, prev_nodes as int)) by {
                lemma_rows_fit(p, node@, rows@, true, prev_nodes as int, n_nodes as int);
            }
        }
        let odd = build_hist::<A>(
            rows,
            s.workers,
            prev_nodes,
            s.nf,
            s.nbins,
            node,
            g,
            h,
            s.bins,
            true,
        );
        proof {
            let a = prev_nodes as int;
            let z = s.nf * s.nbins * 2;
            assert(a * z * 2 == (2 * a) * z) by (nonlinear_arith);
            assert(0 <= s.nf * s.nbins) by (nonlinear_arith)
                requires
                    s.nf >= 0,
                    s.nbins >= 0,
            ;
        }
        let size: usize = s.nf * s.nbins * 2;
        complete_hist::<A>(prev, odd.as_slice(), prev_nodes, size)
    }
}

/// Rows at nodes of a level can be counted; so can those at odd nodes, under half their index.
proof fn lemma_rows_fit(
    p: Problem,
    node: Seq<u32>,
    rows: Seq<u32>,
    odd_only: bool,
    nodes: int,
    all: int,
)
    requires
        p.well_formed(),
        node.len() == p.n,
        forall|i: int| 0 <= i < node.len() ==> #[trigger] node[i] < all,
        forall|k: int| 0 <= k < rows.len() ==> #[trigger] rows[k] < p.n,
        nodes == if odd_only {
            all / 2
        } else {
            all
        },
    ensures
        forall|k: int|
            0 <= k < rows.len() ==> p.assignment(node, odd_only).fits_row(
                #[trigger] rows[k] as int,
                nodes,
            ),
{
    let asg = p.assignment(node, odd_only);
    let nf = p.nf as int;
    let n = p.n as int;
    assert forall|k: int| 0 <= k < rows.len() implies asg.fits_row(
        #[trigger] rows[k] as int,
        nodes,
    ) by {
        let r = rows[k] as int;
        assert(node[r] < all);
        assert(0 <= r * nf && r * nf + nf <= n * nf) by (nonlinear_arith)
            requires
                0 <= r < n,
                nf >= 0,
        ;
        assert forall|f: int| 0 <= f < nf implies #[trigger] asg.bins[r * nf + f] < asg.nbins by {}
    }
}

/// Grows a tree: the nodes that the rows end at, and the splits.
fn grow<A: Arith>(s: &Setup, rows: &[u32], g: &[F32], h: &[F32]) -> (out: (Vec<u32>, Vec<Split>))
    requires
        s.problem().well_formed(),
        s.problem().addressable(),
        g@.len() == s.n,
        h@.len() == s.n,
        ascending_rows(rows@, s.n as int),
    ensures
        out.0@.len() == s.n,
        forall|i: int| 0 <= i < out.0@.len() ==> #[trigger] out.0@[i] < pow2(s.depth as nat),
        out.1@.len() == s.depth,
        splits_fit(out.1@, s.nf as nat, s.nbins as nat),
        deterministic::<A>() ==> ({
            let tree = s.problem().grown::<A>(Round { g: g@, h: h@, rows: rows@ }, s.depth as nat);
            &&& out.0@ == tree.node
            &&& choices(out.1@) == tree.splits
        }),
{
    let ghost p = s.problem();
    let ghost round = Round { g: g@, h: h@, rows: rows@ };
    let n: usize = s.n;
    let mut node: Vec<u32> = vec![0u32;n];
    let mut hist: Vec<F32> = Vec::new();
    let mut splits: Vec<Split> = Vec::new();
    proof {
        lemma2_to64();
        assert(node@ =~= p.grown::<A>(round, 0).node);
        assert(hist@ =~= p.grown::<A>(round, 0).hist);
        assert(choices(splits@) =~= p.grown::<A>(round, 0).splits);
    }
    let mut level: usize = 0;
    while level < s.depth
        invariant
            p == s.problem(),
            p.well_formed(),
            p.addressable(),
            round == (Round { g: g@, h: h@, rows: rows@ }),
            g@.len() == s.n,
            h@.len() == s.n,
            ascending_rows(rows@, s.n as int),
            level <= s.depth,
            node@.len() == s.n,
            forall|i: int| 0 <= i < node@.len() ==> #[trigger] node@[i] < pow2(level as nat),
            level > 0 ==> hist@.len() == pow2((level - 1) as nat) * s.nf * s.nbins * 2,
            splits@.len() == level,
            splits_fit(splits@, s.nf as nat, s.nbins as nat),
            deterministic::<A>() ==> ({
                let tree = p.grown::<A>(round, level as nat);
                &&& node@ == tree.node
                &&& hist@ == tree.hist
                &&& choices(splits@) == tree.splits
            }),
        decreases s.depth - level,
    {
        let ghost tree = Growth { node: node@, hist: hist@, splits: choices(splits@) };
        let ghost before = splits@;
        let next_hist = level_histogram::<A>(
            s,
            rows,
            g,
            h,
            node.as_slice(),
            hist.as_slice(),
            level,
        );
        let n_nodes: usize = leaf_count(level);
        let (gain, feature, bin) = best_split::<A>(
            next_hist.as_slice(),
            n_nodes,
            s.nf,
            s.nbins,
            s.lambda,
            s.min_child,
        );
        let next_node = descend(s, node.as_slice(), feature, bin, level);
        splits.push(Split { gain, feature, bin });
        proof {
            if deterministic::<A>() {
                assert(tree == p.grown::<A>(round, level as nat));
                assert(choices(splits@) =~= choices(before).push(
                    Choice { gain, feature: feature as int, bin: bin as int },
                ));
            }
        }
        node = next_node;
        hist = next_hist;
        level = level + 1;
    }
    (node, splits)
}

/// The arrays of a trained forest, and the importance of the features: what the splits on
/// each gained, and how many there are.
pub struct CpuFit {
    pub feat: Vec<u32>,
    pub thr: Vec<F32>,
    pub leafval: Vec<F32>,
    pub fi_gain: Vec<F32>,
    pub fi_count: Vec<F32>,
}

impl CpuFit {
    /// The arrays have the sizes of `trees` trees.
    pub open spec fn sized(self, trees: nat, p: Problem) -> bool {
        &&& self.feat@.len() == trees * p.depth
        &&& self.thr@.len() == trees * p.depth
        &&& self.leafval@.len() == trees * pow2(p.depth)
        &&& self.fi_gain@.len() == p.nf
        &&& self.fi_count@.len() == p.nf
        &&& forall|k: int| 0 <= k < self.feat@.len() ==> #[trigger] self.feat@[k] < p.nf
        &&& forall|k: int|
            0 <= k < self.thr@.len() ==> at_boundary(
                #[trigger] self.thr@[k],
                p.bounds,
                self.feat@[k] as int,
                p.nbins - 1,
            )
    }

    /// The arrays are those of the forest in `state`.
    pub open spec fn holds(self, state: State) -> bool {
        &&& self.feat@ == state.feat
        &&& self.thr@ == state.thr
        &&& self.leafval@ == state.leafval
        &&& self.fi_gain@ == state.fi_gain
        &&& self.fi_count@ == state.fi_count
    }
}

/// Enters the splits of a tree.
fn record<A: Arith>(s: &Setup, splits: &[Split], fit: &mut CpuFit)
    requires
        s.problem().well_formed(),
        splits_fit(splits@, s.nf as nat, s.nbins as nat),
        old(fit).fi_gain@.len() == s.nf,
        old(fit).fi_count@.len() == s.nf,
    ensures
        final(fit).leafval@ == old(fit).leafval@,
        final(fit).feat@ == old(fit).feat@ + split_features(choices(splits@)),
        final(fit).thr@ == old(fit).thr@ + split_bounds(
            choices(splits@),
            s.bounds@,
            s.nbins - 1,
        ),
        final(fit).fi_gain@.len() == s.nf,
        final(fit).fi_count@.len() == s.nf,
        deterministic::<A>() ==> final(fit).fi_gain@ == tally_gain::<A>(
            old(fit).fi_gain@,
            choices(splits@),
            splits@.len(),
        ),
        deterministic::<A>() ==> final(fit).fi_count@ == tally_count::<A>(
            old(fit).fi_count@,
            choices(splits@),
            splits@.len(),
        ),
{
    let nb1: usize = s.nbins - 1;
    let ghost before = *fit;
    let ghost all = choices(splits@);
    assert(fit.feat@ =~= before.feat@ + split_features(all).take(0));
    assert(fit.thr@ =~= before.thr@ + split_bounds(all, s.bounds@, s.nbins - 1).take(0));
    let mut k: usize = 0;
    while k < splits.len()
        invariant
            s.problem().well_formed(),
            nb1 == s.nbins - 1,
            splits_fit(splits@, s.nf as nat, s.nbins as nat),
            all == choices(splits@),
            k <= splits@.len(),
            fit.leafval@ == before.leafval@,
            fit.feat@ == before.feat@ + split_features(all).take(k as int),
            fit.thr@ == before.thr@ + split_bounds(all, s.bounds@, s.nbins - 1).take(k as int),
            fit.fi_gain@.len() == s.nf,
            fit.fi_count@.len() == s.nf,
            deterministic::<A>() ==> fit.fi_gain@ == tally_gain::<A>(
                before.fi_gain@,
                all,
                k as nat,
            ),
            deterministic::<A>() ==> fit.fi_count@ == tally_count::<A>(
                before.fi_count@,
                all,
                k as nat,
            ),
        decreases splits@.len() - k,
    {
        let split = splits[k];
        let f: usize = split.feature;
        assert(all[k as int] == split.choice());
        assert(0 <= f * nb1 && f * nb1 + split.bin < s.nf * nb1) by (nonlinear_arith)
            requires
                0 <= f < s.nf,
                0 <= split.bin < nb1,
        ;
        assert(s.bounds.len() == s.nf * nb1);
        fit.feat.push(f as u32);
        fit.thr.push(s.bounds[f * nb1 + split.bin]);
        let gained = narrow::<A>(split.gain.max(F64 { bits: 0 }));
        let gain = add32::<A>(fit.fi_gain[f], gained);
        fit.fi_gain[f] = gain;
        let count = add32::<A>(fit.fi_count[f], F32 { bits: ONE32 });
        fit.fi_count[f] = count;
        proof {
            let feats = split_features(all);
            let thrs = split_bounds(all, s.bounds@, s.nbins - 1);
            assert(feats.take(k + 1) =~= feats.take(k as int).push(feats[k as int]));
            assert(thrs.take(k + 1) =~= thrs.take(k as int).push(thrs[k as int]));
            assert(fit.feat@ =~= before.feat@ + feats.take(k + 1));
            assert(fit.thr@ =~= before.thr@ + thrs.take(k + 1));
        }
        k = k + 1;
    }
    proof {
        let feats = split_features(all);
        let thrs = split_bounds(all, s.bounds@, s.nbins - 1);
        assert(feats.take(k as int) =~= feats);
        assert(thrs.take(k as int) =~= thrs);
    }
}

/// The scores of the rows after a tree whose leaf values are `values`.
fn raise<A: Arith>(pred: &[F32], node: &[u32], values: &[F32]) -> (next: Vec<F32>)
    requires
        node@.len() == pred@.len(),
        forall|i: int| 0 <= i < node@.len() ==> #[trigger] node@[i] < values@.len(),
    ensures
        next@.len() == pred@.len(),
        deterministic::<A>() ==> next@ == raised::<A>(pred@, node@, values@),
{
    let next: Vec<F32> = par_map(
        pred.len(),
        |i: usize| -> (r: F32)
            requires
                i < pred@.len(),
                i < node@.len(),
                node@[i as int] < values@.len(),
            ensures
                deterministic::<A>() ==> r == sum32::<A>(pred@[i as int], values@[node@[i as int] as int])
            { add32::<A>(pred[i], values[node[i] as usize]) },
    );
    assert(deterministic::<A>() ==> next@ =~= raised::<A>(pred@, node@, values@));
    next
}

/// What tree `t` is grown from: gradients, hessians and rows.
fn prepare<A: Arith>(s: &Setup, pred: &[F32], t: usize) -> (out: (Vec<F32>, Vec<F32>, Vec<u32>))
    requires
        s.problem().well_formed(),
        pred@.len() == s.n,
    ensures
        out.0@.len() == s.n,
        out.1@.len() == s.n,
        ascending_rows(out.2@, s.n as int),
        deterministic::<A>() ==> (Round { g: out.0@, h: out.1@, rows: out.2@ })
            == s.problem().round::<A>(pred@, t as nat),
{
    let (mut g, mut h) = derivatives::<A>(s.logistic, pred, s.y);
    if s.goss {
        let mut rows: Vec<u32> = Vec::new();
        goss_sample::<A>(&mut g, &mut h, s.goss_top, s.goss_other, t as u64, &mut rows);
        (g, h, rows)
    } else {
        let rows = strided_rows(t % s.stride, s.stride, s.n);
        (g, h, rows)
    }
}

/// Adds one tree to a forest.
fn add_tree<A: Arith>(s: &Setup, fit: &mut CpuFit, pred: &mut Vec<F32>, t: usize)
    requires
        s.problem().well_formed(),
        s.problem().addressable(),
        old(fit).sized(t as nat, s.problem()),
        old(pred)@.len() == s.n,
    ensures
        final(fit).sized((t + 1) as nat, s.problem()),
        final(pred)@.len() == s.n,
        deterministic::<A>() && old(fit).holds(s.problem().after::<A>(t as nat)) && old(pred)@
            == s.problem().after::<A>(t as nat).pred ==> final(fit).holds(
            s.problem().after::<A>((t + 1) as nat),
        ) && final(pred)@ == s.problem().after::<A>((t + 1) as nat).pred,
{
    let ghost p = s.problem();
    let ghost before = *fit;
    let (g, h, rows) = prepare::<A>(s, pred.as_slice(), t);
    let (node, splits) = grow::<A>(s, rows.as_slice(), g.as_slice(), h.as_slice());
    let leaves: usize = leaf_count(s.depth);
    proof {
        lemma_ascending_rows(rows@, s.n as int);
    }
    let mut values = compute_leaf_values::<A>(
        rows.as_slice(),
        s.workers,
        leaves,
        node.as_slice(),
        g.as_slice(),
        h.as_slice(),
        s.lr,
        s.lambda,
    );
    record::<A>(s, splits.as_slice(), fit);
    let next = raise::<A>(pred.as_slice(), node.as_slice(), values.as_slice());
    *pred = next;
    let ghost given = values@;
    fit.leafval.append(&mut values);
    proof {
        assert(fit.leafval@ == before.leafval@ + given);
        assert((t + 1) * p.depth == t * p.depth + p.depth) by (nonlinear_arith);
        assert((t + 1) * pow2(p.depth) == t * pow2(p.depth) + pow2(p.depth)) by (nonlinear_arith);
        assert forall|k: int| 0 <= k < fit.feat@.len() implies #[trigger] fit.feat@[k] < p.nf by {
            if k < before.feat@.len() {
                assert(fit.feat@[k] == before.feat@[k]);
            } else {
                let j = k - before.feat@.len();
                assert(fit.feat@[k] == split_features(choices(splits@))[j]);
                assert(splits@[j].feature < s.nf);
            }
        }
        assert forall|k: int| 0 <= k < fit.thr@.len() implies at_boundary(
            #[trigger] fit.thr@[k],
            p.bounds,
            fit.feat@[k] as int,
            p.nbins - 1,
        ) by {
            if k < before.thr@.len() {
                assert(fit.thr@[k] == before.thr@[k]);
                assert(fit.feat@[k] == before.feat@[k]);
            } else {
                let j = k - before.thr@.len();
                assert(fit.feat@[k] == split_features(choices(splits@))[j]);
                assert(fit.thr@[k] == split_bounds(choices(splits@), s.bounds@, s.nbins - 1)[j]);
                assert(splits@[j].feature < s.nf);
                assert(fit.thr@[k] == p.bounds[fit.feat@[k] * (p.nbins - 1) + splits@[j].bin]);
            }
        }
    }
}

/// The number of threads to train with: the one asked for, where it is positive. Otherwise
/// all of the `avail` cores of a small machine; of a large one half, since building
/// histograms is bound by bandwidth, and no more than 32.
pub fn thread_count(asked: Option<usize>, avail: usize) -> (nt: usize)
    ensures
        nt > 0,
        asked is Some && asked->0 > 0 ==> nt == asked->0,
        !(asked is Some && asked->0 > 0) ==> nt == (if avail == 0 {
            1
        } else if avail <= 16 {
            avail as int
        } else if avail / 2 <= 32 {
            avail as int / 2
        } else {
            32
        }),
{
    if let Some(t) = asked {
        if t > 0 {
            return t;
        }
    }
    let share: usize = if avail <= 16 {
        avail
    } else if avail / 2 < 32 {
        avail / 2
    } else {
        32
    };
    if share < 1 {
        1
    } else {
        share
    }
}

/// Trains on the host with `nt` workers. `xtr` is row-major, with categories already encoded;
/// `boundaries` is the table of bin boundaries, `n_bins - 1` of them for each feature; all
/// rows start from `base_score`.
pub fn train<A: Arith>(
    xtr: &[F32],
    ytr: &[F32],
    n: usize,
    nf: usize,
    boundaries: &[F32],
    base_score: F32,
    cfg: &Config,
    nt: usize,
) -> (fit: CpuFit)
    requires
        0 < n <= u32::MAX,
        0 < nf <= u32::MAX,
        2 <= cfg.n_bins <= 256,
        cfg.depth < 32,
        0 < nt,
        xtr@.len() == n * nf,
        ytr@.len() >= n,
        boundaries@.len() == nf * (cfg.n_bins - 1),
        n + nt <= usize::MAX,
        cfg.depth > 0 ==> pow2((cfg.depth - 1) as nat) * nf * cfg.n_bins * 2 <= usize::MAX,
    ensures
        fit.feat@.len() == cfg.n_trees * cfg.depth,
        fit.thr@.len() == cfg.n_trees * cfg.depth,
        fit.leafval@.len() == cfg.n_trees * pow2(cfg.depth as nat),
        fit.fi_gain@.len() == nf,
        fit.fi_count@.len() == nf,
        forall|k: int| 0 <= k < fit.feat@.len() ==> #[trigger] fit.feat@[k] < nf,
        forall|k: int|
            0 <= k < fit.thr@.len() ==> at_boundary(
                #[trigger] fit.thr@[k],
                boundaries@,
                fit.feat@[k] as int,
                cfg.n_bins - 1,
            ),
        deterministic::<A>() ==> fit.holds(
            problem_of::<A>(
                xtr@,
                ytr@,
                n as nat,
                nf as nat,
                boundaries@,
                base_score,
                *cfg,
                nt as nat,
            ).after::<A>(cfg.n_trees as nat),
        ),
{
    let nb1: usize = cfg.n_bins - 1;
    let bins = bin_matrix(xtr, nf, boundaries, nb1);
    let stride: usize = if cfg.subsample.less(F32 { bits: ALL_ROWS32 }) {
        let step: usize = div64::<A>(F64 { bits: ONE64 }, widen::<A>(cfg.subsample)).round_usize();
        if step > 1 {
            step
        } else {
            1
        }
    } else {
        1
    };
    let logistic = match cfg.objective {
        Objective::Logistic => true,
        Objective::SquaredError => false,
    };
    let s = Setup {
        bins: bins.as_slice(),
        y: ytr,
        bounds: boundaries,
        n,
        nf,
        nbins: cfg.n_bins,
        depth: cfg.depth,
        base: base_score,
        lambda: widen::<A>(cfg.lambda),
        lr: widen::<A>(cfg.learning_rate),
        min_child: widen::<A>(cfg.min_child_h),
        logistic,
        subtract: cfg.subtract,
        stride,
        goss: (F32 { bits: 0 }).less(cfg.goss_top),
        goss_top: widen::<A>(cfg.goss_top),
        goss_other: widen::<A>(cfg.goss_other),
        workers: nt,
    };
    let ghost p = s.problem();
    let mut pred: Vec<F32> = vec![base_score;n];
    let mut fit = CpuFit {
        feat: Vec::new(),
        thr: Vec::new(),
        leafval: Vec::new(),
        fi_gain: vec![F32 { bits: 0 };nf],
        fi_count: vec![F32 { bits: 0 };nf],
    };
    proof {
        assert(pred@ =~= p.after::<A>(0).pred);
        assert(fit.feat@ =~= p.after::<A>(0).feat);
        assert(fit.thr@ =~= p.after::<A>(0).thr);
        assert(fit.leafval@ =~= p.after::<A>(0).leafval);
        assert(fit.fi_gain@ =~= p.after::<A>(0).fi_gain);
        assert(fit.fi_count@ =~= p.after::<A>(0).fi_count);
    }
    let mut t: usize = 0;
    while t < cfg.n_trees
        invariant
            p == s.problem(),
            p.well_formed(),
            p.addressable(),
            t <= cfg.n_trees,
            fit.sized(t as nat, p),
            pred@.len() == n,
            s.n == n,
            deterministic::<A>() ==> fit.holds(p.after::<A>(t as nat)),
            deterministic::<A>() ==> pred@ == p.after::<A>(t as nat).pred,
        decreases cfg.n_trees - t,
    {
        add_tree::<A>(&s, &mut fit, &mut pred, t);
        t = t + 1;
    }
    proof {
        if deterministic::<A>() {
            assert(p == problem_of::<A>(
                xtr@,
                ytr@,
                n as nat,
                nf as nat,
                boundaries@,
                base_score,
                *cfg,
                nt as nat,
            ));
        }
    }
    fit
}

/// The forest in the making, as it scores rows.
pub open spec fn forest_of<A: Arith>(p: Problem, t: nat) -> Forest {
    let state = p.after::<A>(t);
    Forest {
        n_features: p.nf,
        depth: p.depth,
        base: p.base,
        feat: state.feat,
        thr: state.thr,
        leafval: state.leafval,
    }
}

/// A growing tree has as many splits as levels, of features and bins that there are, and its
/// rows are at nodes of the level.
pub(crate) proof fn lemma_grown<A: Arith>(p: Problem, round: Round, level: nat)
    requires
        p.well_formed(),
        level <= p.depth,
    ensures
        ({
            let tree = p.grown::<A>(round, level);
            &&& tree.node.len() == p.n
            &&& forall|i: int| 0 <= i < p.n ==> #[trigger] tree.node[i] < pow2(level)
            &&& tree.splits.len() == level
            &&& forall|k: int|
                0 <= k < level ==> 0 <= (#[trigger] tree.splits[k]).feature < p.nf && 0
                    <= tree.splits[k].bin < p.nbins - 1
            &&& level > 0 ==> tree.hist.len() == pow2((level - 1) as nat) * p.nf * p.nbins * 2
        }),
    decreases level,
{
    lemma2_to64();
    if level > 0 {
        let low = (level - 1) as nat;
        lemma_grown::<A>(p, round, low);
        lemma_pow2_unfold(level);
        lemma_pow2_bound(level);
        let before = p.grown::<A>(round, low);
        let lv = p.level::<A>(round, before, low);
        if low > 0 {
            lemma_pow2_unfold(low);
            let a = pow2((low - 1) as nat) as int;
            let nf = p.nf as int;
            let nbins = p.nbins as int;
            assert(a * nf * nbins * 2 * 2 == (2 * a) * nf * nbins * 2) by (nonlinear_arith);
        }
        assert(lv.hist.len() == pow2(low) * p.nf * p.nbins * 2);
        lemma_best::<A>(lv);
        let tree = p.grown::<A>(round, level);
        assert forall|i: int| 0 <= i < p.n implies #[trigger] tree.node[i] < pow2(level) by {
            assert(before.node[i] < pow2(low));
        }
    }
}

/// Row `i` is in a bin above `b` of feature `f` exactly when its value is above the boundary.
proof fn lemma_row_splits(p: Problem, x: Seq<F32>, i: int, f: int, b: int)
    requires
        p.well_formed(),
        x.len() == p.n * p.nf,
        p.bins == bins_of(x, p.bounds, p.nf as int, p.nbins - 1),
        ascending(bounds_of(p.bounds, f, p.nbins - 1)),
        0 <= i < p.n,
        0 <= f < p.nf,
        0 <= b < p.nbins - 1,
    ensures
        p.bins[i * p.nf + f] > b <==> p.bounds[f * (p.nbins - 1) + b].below(
            row_of(x, i, p.nf as int)[f],
        ),
{
    let nf = p.nf as int;
    let nb1 = p.nbins - 1;
    let n = p.n as int;
    assert(0 <= i * nf && i * nf + nf <= n * nf) by (nonlinear_arith)
        requires
            0 <= i < n,
            nf >= 0,
    ;
    assert(0 <= f * nb1 && f * nb1 + nb1 <= nf * nb1) by (nonlinear_arith)
        requires
            0 <= f < nf,
            nb1 >= 0,
    ;
    assert((i * nf + f) % nf == f) by {
        vstd::arithmetic::div_mod::lemma_mod_multiples_vanish(i, f, nf);
        vstd::arithmetic::div_mod::lemma_small_mod(f as nat, nf as nat);
        assert(nf * i + f == i * nf + f) by (nonlinear_arith);
    }
    let bounds = bounds_of(p.bounds, f, nb1);
    let v = x[i * nf + f];
    lemma_bin_range(bounds, v);
    lemma_bin_splits(bounds, v, b);
    assert(bounds[b] == p.bounds[f * nb1 + b]);
}

/// The node that a row is at is the leaf that its values lead to.
pub(crate) proof fn lemma_grown_leaf<A: Arith>(p: Problem, x: Seq<F32>, round: Round, i: int, level: nat)
    requires
        p.well_formed(),
        x.len() == p.n * p.nf,
        p.bins == bins_of(x, p.bounds, p.nf as int, p.nbins - 1),
        forall|f: int|
            0 <= f < p.nf ==> ascending(#[trigger] bounds_of(p.bounds, f, p.nbins - 1)),
        0 <= i < p.n,
        level <= p.depth,
    ensures
        ({
            let tree = p.grown::<A>(round, level);
            tree.node[i] == leaf_of(
                split_features(tree.splits),
                split_bounds(tree.splits, p.bounds, p.nbins - 1),
                row_of(x, i, p.nf as int),
                0,
                level,
            )
        }),
    decreases level,
{
    if level > 0 {
        let low = (level - 1) as nat;
        lemma_grown_leaf::<A>(p, x, round, i, low);
        lemma_grown::<A>(p, round, level);
        lemma_grown::<A>(p, round, low);
        lemma_pow2_unfold(level);
        lemma_pow2_bound(level);
        let before = p.grown::<A>(round, low);
        let tree = p.grown::<A>(round, level);
        let best = tree.splits[low as int];
        let nb1 = p.nbins - 1;
        let row = row_of(x, i, p.nf as int);
        let feat = split_features(tree.splits);
        let thr = split_bounds(tree.splits, p.bounds, nb1);
        let feat0 = split_features(before.splits);
        let thr0 = split_bounds(before.splits, p.bounds, nb1);
        assert(ascending(bounds_of(p.bounds, best.feature, nb1)));
        lemma_row_splits(p, x, i, best.feature, best.bin);
        assert forall|k: int| 0 <= k < low implies #[trigger] feat[0 + k] == feat0[0 + k]
            && thr[0 + k] == thr0[0 + k] by {
            assert(tree.splits[k] == before.splits[k]);
        }
        lemma_leaf_same(feat, thr, feat0, thr0, row, 0, 0, low);
        assert(before.node[i] < pow2(low));
        assert(feat[low as int] == best.feature as u32);
        assert(best.feature as u32 == best.feature);
    }
}

/// The arrays of a forest in the making have the sizes of its trees.
pub proof fn lemma_state_sizes<A: Arith>(p: Problem, t: nat)
    requires
        p.well_formed(),
    ensures
        p.after::<A>(t).pred.len() == p.n,
        p.after::<A>(t).feat.len() == t * p.depth,
        p.after::<A>(t).thr.len() == t * p.depth,
        p.after::<A>(t).leafval.len() == t * pow2(p.depth),
        forest_of::<A>(p, t).well_formed(t),
    decreases t,
{
    if t > 0 {
        let low = (t - 1) as nat;
        lemma_state_sizes::<A>(p, low);
        let before = p.after::<A>(low);
        let round = p.round::<A>(before.pred, low);
        lemma_grown::<A>(p, round, p.depth);
        let tree = p.grown::<A>(round, p.depth);
        assert(t * p.depth == low * p.depth + p.depth) by (nonlinear_arith)
            requires
                t == low + 1,
        ;
        assert(t * pow2(p.depth) == low * pow2(p.depth) + pow2(p.depth)) by (nonlinear_arith)
            requires
                t == low + 1,
        ;
        let feat = p.after::<A>(t).feat;
        assert forall|k: int| 0 <= k < t * p.depth implies (#[trigger] feat[k]) < p.nf by {
            if k < before.feat.len() {
                assert(feat[k] == before.feat[k]);
                assert(forest_of::<A>(p, low).feat[k] < p.nf);
            } else {
                assert(feat[k] == split_features(tree.splits)[k - before.feat.len()]);
                assert(tree.splits[k - before.feat.len()].feature < p.nf);
            }
        }
    } else {
        assert(0 * p.depth == 0) by (nonlinear_arith);
        assert(0 * pow2(p.depth) == 0) by (nonlinear_arith);
    }
}

/// A forest gives to the rows that it was grown from the scores that they had when it was
/// grown: a row's bins lead it to the leaf that its values lead it to, in every tree.
pub proof fn lemma_fitted_scores<A: Arith>(p: Problem, x: Seq<F32>, i: int, t: nat)
    requires
        p.well_formed(),
        x.len() == p.n * p.nf,
        p.bins == bins_of(x, p.bounds, p.nf as int, p.nbins - 1),
        forall|f: int|
            0 <= f < p.nf ==> ascending(#[trigger] bounds_of(p.bounds, f, p.nbins - 1)),
        0 <= i < p.n,
    ensures
        p.after::<A>(t).pred[i] == forest_of::<A>(p, t).score::<A>(row_of(x, i, p.nf as int), t),
    decreases t,
{
    if t > 0 {
        let low = (t - 1) as nat;
        lemma_fitted_scores::<A>(p, x, i, low);
        lemma_state_sizes::<A>(p, low);
        lemma_state_sizes::<A>(p, t);
        let before = p.after::<A>(low);
        let after = p.after::<A>(t);
        let round = p.round::<A>(before.pred, low);
        let tree = p.grown::<A>(round, p.depth);
        let values = p.values::<A>(round, tree);
        let row = row_of(x, i, p.nf as int);
        lemma_grown::<A>(p, round, p.depth);
        lemma_grown_leaf::<A>(p, x, round, i, p.depth);
        lemma_score_same::<A>(forest_of::<A>(p, t), forest_of::<A>(p, low), row, low);
        let first = (low * p.depth) as int;
        let feat = split_features(tree.splits);
        let thr = split_bounds(tree.splits, p.bounds, p.nbins - 1);
        assert forall|k: int| 0 <= k < p.depth implies #[trigger] after.feat[first + k] == feat[0
            + k] && after.thr[first + k] == thr[0 + k] by {}
        lemma_leaf_same(after.feat, after.thr, feat, thr, row, first, 0, p.depth);
        let leaf = tree.node[i] as int;
        assert(tree.node[i] < pow2(p.depth));
        assert(after.leafval[low * pow2(p.depth) + leaf] == values[leaf]);
    }
}

} // verus!
