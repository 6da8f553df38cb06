//! The launches that a forest is grown with on a device.
//!
//! Nothing is waited for between launches: each works on what those before it have left in
//! the buffers of the device. Two pairs of histogram buffers take turns from level to level,
//! so that the histograms of a level are still there when the next one needs them.

use vstd::arithmetic::power2::lemma_pow2_pos;
use vstd::arithmetic::power2::lemma_pow2_strictly_increases;
use vstd::arithmetic::power2::lemma_pow2_unfold;
use vstd::arithmetic::power2::pow2;
use vstd::prelude::*;

use crate::forest::leaf_count;
use crate::gpu::setup::seed_of;
use crate::gpu::setup::tile_count;
use crate::gpu::setup::tiles_for;
use crate::gpu::setup::tree_seed;

verus! {

/// The kinds of launches that a profile tells apart, in the order of a round.
#[derive(Clone, Copy, PartialEq, Eq, Debug, Structural)]
pub enum Category {
    Gradients,
    ZeroHist,
    BuildHist,
    SplitGain,
    ArgmaxSplit,
    ApplySplit,
    LeafHist,
    LeafValues,
    UpdatePred,
}

/// One of the two pairs of histogram buffers.
#[derive(Clone, Copy, PartialEq, Eq, Debug, Structural)]
pub enum Side {
    A,
    B,
}

/// A launch, or a mark that ends the launches of a category.
#[derive(Clone, Copy, PartialEq, Eq, Debug, Structural)]
pub enum Launch {
    /// The launches since the last mark are of the given kind.
    Mark(Category),
    /// Logistic gradients and hessians.
    GradLogistic,
    /// Squared-error gradients and hessians.
    GradL2,
    /// Clears the statistics and the threshold.
    ClearStats,
    /// Adds up hessians and their squares.
    HessStats,
    /// Brings the hessians into an interval about their mean.
    HessClamp,
    /// Adds up the sizes of the gradients.
    GossStats,
    /// Turns the sum into a threshold.
    GossThresh,
    /// Weighs the rows by the threshold, drawing with the given seed.
    GossApply { seed: u32 },
    /// Puts all rows at the root.
    ZeroLeaf,
    /// Zeroes the histograms in half precision.
    ZeroHalf { len: u32 },
    /// Zeroes the integer histograms.
    ZeroInt { len: u32 },
    /// Zeroes a pair of histograms.
    ZeroHist { side: Side, len: u32 },
    /// Builds a pair of histograms by blocks.
    BuildSmem { side: Side, groups: u32, tiles: u32, seed: u32, odd_only: bool },
    /// Builds the histograms in half precision.
    BuildHalf { hist_len: u32, seed: u32, odd_only: bool },
    /// Folds the histograms in half precision into a pair of histograms.
    ReduceHalf { side: Side, hist_len: u32 },
    /// Builds the integer histograms.
    BuildInt { hist_len: u32, seed: u32, odd_only: bool },
    /// Folds the integer histograms into a pair of histograms.
    ReduceInt { side: Side, hist_len: u32 },
    /// Builds a pair of histograms.
    BuildHist { side: Side, hist_len: u32, seed: u32, odd_only: bool },
    /// Folds the replicas of a pair of histograms.
    ReduceHist { side: Side, hist_len: u32 },
    /// Fills in the even nodes of a pair of histograms, from the other pair.
    SubtractEven { side: Side, prev_groups: u32 },
    /// Rates the splits by a pair of histograms.
    SplitGain { side: Side, groups: u32, seed: u32 },
    /// Chooses split `k` of the forest.
    ArgmaxSplit { k: u32 },
    /// Moves the rows on.
    ApplySplit,
    /// Zeroes the leaf sums.
    ZeroLeafSums { len: u32 },
    /// Zeroes the leaf sums of squares.
    ZeroLeafSquares { len: u32 },
    /// Adds up gradients, hessians and squares by leaf.
    LeafHist { seed: u32 },
    /// Folds the replicas of the leaf sums.
    ReduceLeafSums,
    /// Folds the replicas of the leaf sums of squares.
    ReduceLeafSquares,
    /// Computes leaf values and variances, which go from place `base` on.
    LeafValues { base: u32 },
    /// Adds the leaf values from place `base` on to the scores.
    UpdatePred { base: u32 },
}

/// What the launches depend on.
#[derive(Clone, Copy)]
pub struct Shape {
    pub n: u32,
    pub nf: u32,
    pub nb: u32,
    pub depth: u32,
    pub n_trees: u32,
    pub replicas: u32,
    pub logistic: bool,
    pub clamp: bool,
    pub goss: bool,
    pub subtract: bool,
    pub smem: bool,
    pub half: bool,
    pub integer: bool,
}

impl Shape {
    /// The number of places of a histogram with `groups` nodes.
    pub open spec fn hist_len(self, groups: int) -> int {
        groups * self.nf * self.nb
    }

    /// The number of leaves of a tree.
    pub open spec fn leaves(self) -> int {
        pow2(self.depth as nat) as int
    }

    /// The number of nodes of the last level.
    pub open spec fn max_groups(self) -> int {
        pow2((self.depth - 1) as nat) as int
    }

    /// The sizes are such that all counts can be written as 32-bit words.
    pub open spec fn well_formed(self) -> bool {
        &&& 0 < self.n
        &&& 0 < self.nf
        &&& 2 <= self.nb <= 256
        &&& 0 < self.depth < 32
        &&& 0 < self.replicas
        &&& self.replicas * self.hist_len(self.max_groups()) <= u32::MAX
        &&& self.replicas * self.leaves() <= u32::MAX
        &&& self.n_trees * self.depth <= u32::MAX
        &&& self.n_trees * self.leaves() <= u32::MAX
        &&& self.n * self.nf <= u32::MAX
    }

    /// The histograms of a level with `groups` nodes are built by blocks.
    pub open spec fn by_blocks(self, groups: int) -> bool {
        self.smem && groups * self.nb <= 4096
    }

    /// The histograms of a level with `groups` nodes are built in half precision.
    pub open spec fn by_halves(self, groups: int) -> bool {
        self.half && !self.by_blocks(groups)
    }

    /// The histograms of a level with `groups` nodes are built as integers.
    pub open spec fn by_integers(self, groups: int) -> bool {
        self.integer && !self.by_blocks(groups) && !self.by_halves(groups)
    }

    /// The launches that zero the histograms of level `d`.
    pub open spec fn zero_plan(self, d: int) -> Seq<Launch> {
        let groups = pow2(d as nat) as int;
        let len = self.hist_len(groups);
        if self.by_halves(groups) {
            seq![Launch::ZeroHalf { len: (self.replicas * len) as u32 }]
        } else if self.by_integers(groups) {
            seq![Launch::ZeroInt { len: (self.replicas * len) as u32 }]
        } else if self.by_blocks(groups) {
            seq![Launch::ZeroHist { side: side_of(d), len: len as u32 }]
        } else {
            seq![Launch::ZeroHist { side: side_of(d), len: (self.replicas * len) as u32 }]
        }
    }

    /// The launches that build the histograms of level `d`.
    pub open spec fn build_plan(self, tree: int, d: int) -> Seq<Launch> {
        let groups = pow2(d as nat) as int;
        let len = self.hist_len(groups) as u32;
        let side = side_of(d);
        let seed = seed_of(tree as u32);
        let odd_only = self.subtract && d >= 1;
        if self.by_blocks(groups) {
            seq![
                Launch::BuildSmem {
                    side,
                    groups: groups as u32,
                    tiles: tiles_for(self.n as int) as u32,
                    seed,
                    odd_only,
                },
            ]
        } else if self.by_halves(groups) {
            seq![
                Launch::BuildHalf { hist_len: len, seed, odd_only },
                Launch::ReduceHalf { side, hist_len: len },
            ]
        } else if self.by_integers(groups) {
            seq![
                Launch::BuildInt { hist_len: len, seed, odd_only },
                Launch::ReduceInt { side, hist_len: len },
            ]
        } else if self.replicas > 1 {
            seq![
                Launch::BuildHist { side, hist_len: len, seed, odd_only },
                Launch::ReduceHist { side, hist_len: len },
            ]
        } else {
            seq![Launch::BuildHist { side, hist_len: len, seed, odd_only }]
        }
    }

    /// The launch that fills in the even nodes of level `d`, where they are not built.
    pub open spec fn subtract_plan(self, d: int) -> Seq<Launch> {
        if self.subtract && d >= 1 {
            seq![
                Launch::SubtractEven {
                    side: side_of(d),
                    prev_groups: pow2((d - 1) as nat) as u32,
                },
            ]
        } else {
            Seq::empty()
        }
    }

    /// The launches that split level `d`.
    pub open spec fn split_plan(self, tree: int, d: int) -> Seq<Launch> {
        seq![
            Launch::Mark(Category::BuildHist),
            Launch::SplitGain {
                side: side_of(d),
                groups: pow2(d as nat) as u32,
                seed: seed_of(tree as u32),
            },
            Launch::Mark(Category::SplitGain),
            Launch::ArgmaxSplit { k: (tree * self.depth + d) as u32 },
            Launch::Mark(Category::ArgmaxSplit),
            Launch::ApplySplit,
            Launch::Mark(Category::ApplySplit),
        ]
    }

    /// The launches of level `d`.
    pub open spec fn level_plan(self, tree: int, d: int) -> Seq<Launch> {
        self.zero_plan(d).push(Launch::Mark(Category::ZeroHist)) + self.build_plan(tree, d)
            + self.subtract_plan(d) + self.split_plan(tree, d)
    }

    /// The launches of the first `d` levels.
    pub open spec fn levels_plan(self, tree: int, d: nat) -> Seq<Launch>
        decreases d,
    {
        if d == 0 {
            Seq::empty()
        } else {
            self.levels_plan(tree, (d - 1) as nat) + self.level_plan(tree, d - 1)
        }
    }

    /// The launches before the first level: gradients, and sampling.
    pub open spec fn head_plan(self, tree: int) -> Seq<Launch> {
        let grad = seq![
            if self.logistic {
                Launch::GradLogistic
            } else {
                Launch::GradL2
            },
        ];
        let clamp = if self.clamp {
            seq![Launch::ClearStats, Launch::HessStats, Launch::HessClamp]
        } else {
            Seq::empty()
        };
        let goss = if self.goss {
            seq![
                Launch::ClearStats,
                Launch::GossStats,
                Launch::GossThresh,
                Launch::GossApply { seed: seed_of(tree as u32) ^ 0x00A5_A5A5 },
            ]
        } else {
            Seq::empty()
        };
        grad + clamp + goss + seq![Launch::ZeroLeaf, Launch::Mark(Category::Gradients)]
    }

    /// The launches after the last level: leaf values, and scores.
    pub open spec fn tail_plan(self, tree: int) -> Seq<Launch> {
        let total = (self.replicas * self.leaves()) as u32;
        let base = (tree * self.leaves()) as u32;
        let fold = if self.replicas > 1 {
            seq![Launch::ReduceLeafSums, Launch::ReduceLeafSquares]
        } else {
            Seq::empty()
        };
        seq![
            Launch::ZeroLeafSums { len: total },
            Launch::ZeroLeafSquares { len: total },
            Launch::LeafHist { seed: seed_of(tree as u32) },
        ] + fold + seq![
            Launch::Mark(Category::LeafHist),
            Launch::LeafValues { base },
            Launch::Mark(Category::LeafValues),
            Launch::UpdatePred { base },
            Launch::Mark(Category::UpdatePred),
        ]
    }

    /// The launches of one tree.
    pub open spec fn tree_plan(self, tree: int) -> Seq<Launch> {
        self.head_plan(tree) + self.levels_plan(tree, self.depth as nat) + self.tail_plan(tree)
    }
}

/// The pair of histograms of level `d`.
pub open spec fn side_of(d: int) -> Side {
    if d % 2 == 0 {
        Side::A
    } else {
        Side::B
    }
}

/// The other pair.
pub open spec fn other(side: Side) -> Side {
    match side {
        Side::A => Side::B,
        Side::B => Side::A,
    }
}

/// The sizes of the levels of a tree.
pub(crate) proof fn lemma_level_sizes(s: Shape, d: int)
    requires
        s.well_formed(),
        0 <= d < s.depth,
    ensures
        1 <= pow2(d as nat) <= s.max_groups() <= u32::MAX,
        0 < s.hist_len(pow2(d as nat) as int) <= s.hist_len(s.max_groups()),
        s.hist_len(s.max_groups()) <= s.replicas * s.hist_len(s.max_groups()),
        s.replicas * s.hist_len(pow2(d as nat) as int) <= s.replicas * s.hist_len(s.max_groups()),
        s.hist_len(pow2(d as nat) as int) <= s.replicas * s.hist_len(pow2(d as nat) as int),
        pow2((d + 1) as nat) == 2 * pow2(d as nat),
        pow2((d + 1) as nat) <= s.leaves(),
        s.leaves() <= s.replicas * s.leaves(),
        0 < s.nf * s.nb <= s.hist_len(pow2(d as nat) as int),
{
    let top = (s.depth - 1) as nat;
    lemma_pow2_pos(d as nat);
    lemma_pow2_unfold((d + 1) as nat);
    lemma_pow2_unfold(s.depth as nat);
    if d < top {
        lemma_pow2_strictly_increases(d as nat, top);
        lemma_pow2_strictly_increases((d + 1) as nat, s.depth as nat);
    }
    let a = pow2(d as nat) as int;
    let b = pow2(top) as int;
    let nf = s.nf as int;
    let nb = s.nb as int;
    let r = s.replicas as int;
    assert(0 < nf * nb && nf * nb <= a * nf * nb && a * nf * nb <= b * nf * nb) by (nonlinear_arith)
        requires
            1 <= a <= b,
            nf > 0,
            nb > 0,
    ;
    let x = a * nf * nb;
    let y = b * nf * nb;
    assert(y <= r * y && r * x <= r * y && x <= r * x) by (nonlinear_arith)
        requires
            0 < x <= y,
            r >= 1,
    ;
    assert(b <= b * nf * nb) by (nonlinear_arith)
        requires
            b >= 1,
            nf >= 1,
            nb >= 1,
    ;
    let l = s.leaves();
    assert(l <= r * l) by (nonlinear_arith)
        requires
            l >= 0,
            r >= 1,
    ;
}

/// Appends launches.
fn extend(plan: &mut Vec<Launch>, more: Vec<Launch>)
    ensures
        final(plan)@ == old(plan)@ + more@,
{
    let mut more = more;
    plan.append(&mut more);
}

impl Shape {
    /// The launches before the first level.
    fn plan_head(&self, tree: u32) -> (plan: Vec<Launch>)
        ensures
            plan@ == self.head_plan(tree as int),
    {
        let mut plan: Vec<Launch> = Vec::new();
        plan.push(
            if self.logistic {
                Launch::GradLogistic
            } else {
                Launch::GradL2
            },
        );
        if self.clamp {
            plan.push(Launch::ClearStats);
            plan.push(Launch::HessStats);
            plan.push(Launch::HessClamp);
        }
        if self.goss {
            plan.push(Launch::ClearStats);
            plan.push(Launch::GossStats);
            plan.push(Launch::GossThresh);
            plan.push(Launch::GossApply { seed: tree_seed(tree) ^ 0x00A5_A5A5 });
        }
        plan.push(Launch::ZeroLeaf);
        plan.push(Launch::Mark(Category::Gradients));
        assert(plan@ =~= self.head_plan(tree as int));
        plan
    }

    /// The launches of level `d`.
    fn plan_level(&self, tree: u32, d: u32) -> (plan: Vec<Launch>)
        requires
            self.well_formed(),
            d < self.depth,
            tree < self.n_trees,
        ensures
            plan@ == self.level_plan(tree as int, d as int),
    {
        proof {
            lemma_level_sizes(*self, d as int);
            let t = tree as int;
            let dp = self.depth as int;
            let nt = self.n_trees as int;
            assert(0 <= t * dp && t * dp + dp <= nt * dp) by (nonlinear_arith)
                requires
                    0 <= t < nt,
                    dp >= 0,
            ;
            let g = pow2(d as nat) as int;
            let nf = self.nf as int;
            let nb = self.nb as int;
            assert(0 <= g * nf <= g * nf * nb && g * nb <= g * nf * nb) by (nonlinear_arith)
                requires
                    g >= 0,
                    nf >= 1,
                    nb >= 1,
            ;
        }
        let side = if d % 2 == 0 {
            Side::A
        } else {
            Side::B
        };
        let groups: u32 = leaf_count(d as usize) as u32;
        let hist_len: u32 = groups * self.nf * self.nb;
        let total: u32 = self.replicas * hist_len;
        let seed: u32 = tree_seed(tree);
        let smem = self.smem && groups * self.nb <= 4096;
        let half = self.half && !smem;
        let integer = self.integer && !smem && !half;
        let use_sub = self.subtract && d >= 1;
        let mut plan: Vec<Launch> = Vec::new();
        if half {
            plan.push(Launch::ZeroHalf { len: total });
        } else if integer {
            plan.push(Launch::ZeroInt { len: total });
        } else {
            plan.push(
                Launch::ZeroHist {
                    side,
                    len: if smem {
                        hist_len
                    } else {
                        total
                    },
                },
            );
        }
        assert(plan@ =~= self.zero_plan(d as int));
        plan.push(Launch::Mark(Category::ZeroHist));
        let mut build: Vec<Launch> = Vec::new();
        if smem {
            build.push(
                Launch::BuildSmem {
                    side,
                    groups,
                    tiles: tile_count(self.n),
                    seed,
                    odd_only: use_sub,
                },
            );
        } else if half {
            build.push(Launch::BuildHalf { hist_len, seed, odd_only: use_sub });
            build.push(Launch::ReduceHalf { side, hist_len });
        } else if integer {
            build.push(Launch::BuildInt { hist_len, seed, odd_only: use_sub });
            build.push(Launch::ReduceInt { side, hist_len });
        } else {
            build.push(Launch::BuildHist { side, hist_len, seed, odd_only: use_sub });
            if self.replicas > 1 {
                build.push(Launch::ReduceHist { side, hist_len });
            }
        }
        assert(build@ =~= self.build_plan(tree as int, d as int));
        extend(&mut plan, build);
        let mut rest: Vec<Launch> = Vec::new();
        if use_sub {
            let prev_groups: u32 = leaf_count(d as usize - 1) as u32;
            proof {
                lemma_level_sizes(*self, d - 1);
            }
            rest.push(Launch::SubtractEven { side, prev_groups });
        }
        assert(rest@ =~= self.subtract_plan(d as int));
        extend(&mut plan, rest);
        let mut split: Vec<Launch> = Vec::new();
        split.push(Launch::Mark(Category::BuildHist));
        split.push(Launch::SplitGain { side, groups, seed });
        split.push(Launch::Mark(Category::SplitGain));
        split.push(Launch::ArgmaxSplit { k: tree * self.depth + d });
        split.push(Launch::Mark(Category::ArgmaxSplit));
        split.push(Launch::ApplySplit);
        split.push(Launch::Mark(Category::ApplySplit));
        assert(split@ =~= self.split_plan(tree as int, d as int));
        extend(&mut plan, split);
        plan
    }

    /// The launches after the last level.
    fn plan_tail(&self, tree: u32) -> (plan: Vec<Launch>)
        requires
            self.well_formed(),
            tree < self.n_trees,
        ensures
            plan@ == self.tail_plan(tree as int),
    {
        proof {
            let t = tree as int;
            let l = self.leaves();
            let nt = self.n_trees as int;
            lemma_pow2_pos(self.depth as nat);
            assert(0 <= t * l && t * l + l <= nt * l) by (nonlinear_arith)
                requires
                    0 <= t < nt,
                    l >= 0,
            ;
            lemma_level_sizes(*self, 0);
        }
        let leaves: u32 = leaf_count(self.depth as usize) as u32;
        let total: u32 = self.replicas * leaves;
        let base: u32 = tree * leaves;
        let mut plan: Vec<Launch> = Vec::new();
        plan.push(Launch::ZeroLeafSums { len: total });
        plan.push(Launch::ZeroLeafSquares { len: total });
        plan.push(Launch::LeafHist { seed: tree_seed(tree) });
        if self.replicas > 1 {
            plan.push(Launch::ReduceLeafSums);
            plan.push(Launch::ReduceLeafSquares);
        }
        plan.push(Launch::Mark(Category::LeafHist));
        plan.push(Launch::LeafValues { base });
        plan.push(Launch::Mark(Category::LeafValues));
        plan.push(Launch::UpdatePred { base });
        plan.push(Launch::Mark(Category::UpdatePred));
        assert(plan@ =~= self.tail_plan(tree as int));
        plan
    }

    /// The launches of one tree, in their order.
    pub fn plan_tree(&self, tree: u32) -> (plan: Vec<Launch>)
        requires
            self.well_formed(),
            tree < self.n_trees,
        ensures
            plan@ == self.tree_plan(tree as int),
    {
        let mut plan = self.plan_head(tree);
        let ghost head = plan@;
        let mut d: u32 = 0;
        assert(plan@ =~= head + self.levels_plan(tree as int, 0));
        while d < self.depth
            invariant
                self.well_formed(),
                tree < self.n_trees,
                d <= self.depth,
                head == self.head_plan(tree as int),
                plan@ == head + self.levels_plan(tree as int, d as nat),
            decreases self.depth - d,
        {
            let level = self.plan_level(tree, d);
            let ghost before = plan@;
            extend(&mut plan, level);
            assert(plan@ =~= head + self.levels_plan(tree as int, (d + 1) as nat));
            d = d + 1;
        }
        let tail = self.plan_tail(tree);
        extend(&mut plan, tail);
        plan
    }
}

} // verus!
