//! Scoring rows with a forest of oblivious trees.
//!
//! Tree `t` of a forest of depth `d` is made of the splits `t * d`, ..., `t * d + d - 1` and
//! of `2^d` leaf values. Each split asks one question of the row, the same at every node of
//! its level, and the answers are the bits of the index of the leaf, first answer highest.

use vstd::arithmetic::power2::lemma_pow2_unfold;
use vstd::arithmetic::power2::lemma2_to64;
use vstd::arithmetic::power2::pow2;
use vstd::bits::lemma_usize_pow2_no_overflow;
use vstd::bits::lemma_usize_shl_is_mul;
use vstd::prelude::*;

use crate::arith::add32;
use crate::arith::deterministic;
use crate::arith::sum32;
use crate::arith::Arith;
use crate::float::F32;

verus! {

/// The splits and leaf values of a forest, and the score it starts from.
pub struct Forest {
    pub n_features: nat,
    pub depth: nat,
    pub base: F32,
    pub feat: Seq<u32>,
    pub thr: Seq<F32>,
    pub leafval: Seq<F32>,
}

/// The leaf that `row` reaches by the `d` splits from `first` on.
pub open spec fn leaf_of(feat: Seq<u32>, thr: Seq<F32>, row: Seq<F32>, first: int, d: nat) -> int
    decreases d,
{
    if d == 0 {
        0
    } else {
        let k = first + d - 1;
        let above: int = if thr[k].below(row[feat[k] as int]) {
            1
        } else {
            0
        };
        2 * leaf_of(feat, thr, row, first, (d - 1) as nat) + above
    }
}

impl Forest {
    /// The first `trees` trees are complete, and ask of features that rows have.
    pub open spec fn well_formed(self, trees: nat) -> bool {
        &&& trees * self.depth <= self.feat.len()
        &&& trees * self.depth <= self.thr.len()
        &&& trees * pow2(self.depth) <= self.leafval.len()
        &&& forall|k: int|
            0 <= k < trees * self.depth ==> (#[trigger] self.feat[k]) < self.n_features
    }

    /// The value that tree `t` gives to `row`.
    pub open spec fn tree_value(self, row: Seq<F32>, t: int) -> F32 {
        self.leafval[t * pow2(self.depth) + leaf_of(
            self.feat,
            self.thr,
            row,
            t * self.depth,
            self.depth,
        )]
    }

    /// The score of `row` after the first `trees` trees.
    pub open spec fn score<A: Arith>(self, row: Seq<F32>, trees: nat) -> F32
        decreases trees,
    {
        if trees == 0 {
            self.base
        } else {
            sum32::<A>(
                self.score::<A>(row, (trees - 1) as nat),
                self.tree_value(row, trees - 1),
            )
        }
    }
}

/// Row `i` of a row-major matrix with `nf` columns.
pub open spec fn row_of(x: Seq<F32>, i: int, nf: int) -> Seq<F32> {
    x.subrange(i * nf, i * nf + nf)
}

/// A leaf index has as many bits as the tree has levels.
pub proof fn lemma_leaf_range(
    feat: Seq<u32>,
    thr: Seq<F32>,
    row: Seq<F32>,
    first: int,
    d: nat,
)
    ensures
        0 <= leaf_of(feat, thr, row, first, d) < pow2(d),
    decreases d,
{
    lemma2_to64();
    if d > 0 {
        lemma_leaf_range(feat, thr, row, first, (d - 1) as nat);
        lemma_pow2_unfold(d);
    }
}

/// The leaf depends on the splits that lead to it alone.
pub proof fn lemma_leaf_same(
    feat: Seq<u32>,
    thr: Seq<F32>,
    feat2: Seq<u32>,
    thr2: Seq<F32>,
    row: Seq<F32>,
    first: int,
    first2: int,
    d: nat,
)
    requires
        forall|k: int|
            0 <= k < d ==> #[trigger] feat[first + k] == feat2[first2 + k] && thr[first + k]
                == thr2[first2 + k],
    ensures
        leaf_of(feat, thr, row, first, d) == leaf_of(feat2, thr2, row, first2, d),
    decreases d,
{
    if d > 0 {
        lemma_leaf_same(feat, thr, feat2, thr2, row, first, first2, (d - 1) as nat);
        assert(feat[first + (d - 1)] == feat2[first2 + (d - 1)]);
    }
}

/// The number of leaves of a tree with `depth` levels.
pub fn leaf_count(depth: usize) -> (r: usize)
    requires
        depth < 32,
    ensures
        r == pow2(depth as nat),
        r >= 1,
{
    proof {
        lemma_usize_pow2_no_overflow(depth as nat);
        lemma_usize_shl_is_mul(1, depth);
    }
    1usize << depth
}

/// The leaf that `row` reaches in tree `t`.
fn find_leaf(
    feat: &[u32],
    thr: &[F32],
    row: &[F32],
    t: usize,
    depth: usize,
) -> (leaf: usize)
    requires
        depth < 32,
        (t + 1) * depth <= feat@.len(),
        (t + 1) * depth <= thr@.len(),
        forall|k: int| t * depth <= k < (t + 1) * depth ==> (#[trigger] feat@[k]) < row@.len(),
    ensures
        leaf == leaf_of(feat@, thr@, row@, t * depth, depth as nat),
        leaf < pow2(depth as nat),
{
    assert(feat.len() >= (t + 1) * depth);
    assert((t + 1) * depth == t * depth + depth) by (nonlinear_arith);
    assert(t * depth >= 0) by (nonlinear_arith)
        requires
            t >= 0,
            depth >= 0,
    ;
    proof {
        lemma2_to64();
    }
    let first: usize = t * depth;
    let mut leaf: usize = 0;
    let mut d: usize = 0;
    while d < depth
        invariant
            d <= depth < 32,
            first == t * depth,
            first + depth <= feat@.len(),
            first + depth <= thr@.len(),
            first + depth <= usize::MAX,
            forall|k: int|
                first <= k < first + depth ==> (#[trigger] feat@[k]) < row@.len(),
            leaf == leaf_of(feat@, thr@, row@, first as int, d as nat),
            leaf < pow2(d as nat),
        decreases depth - d,
    {
        let k: usize = first + d;
        let above: usize = if thr[k].less(row[feat[k] as usize]) {
            1
        } else {
            0
        };
        proof {
            lemma_pow2_unfold((d + 1) as nat);
            lemma_usize_pow2_no_overflow((d + 1) as nat);
        }
        leaf = leaf * 2 + above;
        d = d + 1;
    }
    proof {
        lemma_leaf_range(feat@, thr@, row@, first as int, depth as nat);
    }
    leaf
}

/// The score of one row.
fn score_row<A: Arith>(
    row: &[F32],
    n_trees: usize,
    depth: usize,
    base: F32,
    feat: &[u32],
    thr: &[F32],
    leafval: &[F32],
) -> (acc: F32)
    requires
        depth < 32,
        (Forest {
            n_features: row@.len(),
            depth: depth as nat,
            base,
            feat: feat@,
            thr: thr@,
            leafval: leafval@,
        }).well_formed(n_trees as nat),
    ensures
        deterministic::<A>() ==> acc == (Forest {
            n_features: row@.len(),
            depth: depth as nat,
            base,
            feat: feat@,
            thr: thr@,
            leafval: leafval@,
        }).score::<A>(row@, n_trees as nat),
{
    let ghost forest = Forest {
        n_features: row@.len(),
        depth: depth as nat,
        base,
        feat: feat@,
        thr: thr@,
        leafval: leafval@,
    };
    let leaves: usize = leaf_count(depth);
    let mut acc = base;
    let mut t: usize = 0;
    while t < n_trees
        invariant
            t <= n_trees,
            depth < 32,
            leaves == pow2(depth as nat),
            forest == (Forest {
                n_features: row@.len(),
                depth: depth as nat,
                base,
                feat: feat@,
                thr: thr@,
                leafval: leafval@,
            }),
            forest.well_formed(n_trees as nat),
            deterministic::<A>() ==> acc == forest.score::<A>(row@, t as nat),
        decreases n_trees - t,
    {
        assert(t * depth >= 0 && (t + 1) * depth <= n_trees * depth) by (nonlinear_arith)
            requires
                0 <= t < n_trees,
                depth >= 0,
        ;
        let leaf = find_leaf(feat, thr, row, t, depth);
        assert(0 <= t * leaves && t * leaves + leaf < n_trees * leaves) by (nonlinear_arith)
            requires
                0 <= t < n_trees,
                0 <= leaf < leaves,
        ;
        assert(leafval.len() >= n_trees * leaves);
        acc = add32::<A>(acc, leafval[t * leaves + leaf]);
        t = t + 1;
    }
    acc
}

/// Scores the first `n` rows of the row-major matrix `x` into the first `n` places of `out`.
pub fn score_rows<A: Arith>(
    x: &[F32],
    n: usize,
    nf: usize,
    n_trees: usize,
    depth: usize,
    base: F32,
    feat: &[u32],
    thr: &[F32],
    leafval: &[F32],
    out: &mut Vec<F32>,
)
    requires
        depth < 32,
        n * nf <= x@.len(),
        n <= old(out)@.len(),
        (Forest {
            n_features: nf as nat,
            depth: depth as nat,
            base,
            feat: feat@,
            thr: thr@,
            leafval: leafval@,
        }).well_formed(n_trees as nat),
    ensures
        final(out)@.len() == old(out)@.len(),
        deterministic::<A>() ==> forall|i: int|
            0 <= i < n ==> #[trigger] final(out)@[i] == (Forest {
                n_features: nf as nat,
                depth: depth as nat,
                base,
                feat: feat@,
                thr: thr@,
                leafval: leafval@,
            }).score::<A>(row_of(x@, i, nf as int), n_trees as nat),
        forall|i: int|
            n <= i < old(out)@.len() ==> #[trigger] final(out)@[i] == old(out)@[i],
{
    let ghost before = out@;
    let ghost forest = Forest {
        n_features: nf as nat,
        depth: depth as nat,
        base,
        feat: feat@,
        thr: thr@,
        leafval: leafval@,
    };
    let mut i: usize = 0;
    while i < n
        invariant
            i <= n,
            depth < 32,
            n * nf <= x@.len(),
            n <= out@.len(),
            out@.len() == before.len(),
            forest == (Forest {
                n_features: nf as nat,
                depth: depth as nat,
                base,
                feat: feat@,
                thr: thr@,
                leafval: leafval@,
            }),
            forest.well_formed(n_trees as nat),
            deterministic::<A>() ==> forall|j: int|
                0 <= j < i ==> #[trigger] out@[j] == forest.score::<A>(
                    row_of(x@, j, nf as int),
                    n_trees as nat,
                ),
            forall|j: int| i <= j < before.len() ==> #[trigger] out@[j] == before[j],
        decreases n - i,
    {
        assert(0 <= i * nf && i * nf + nf <= n * nf) by (nonlinear_arith)
            requires
                0 <= i < n,
                nf >= 0,
        ;
        assert(x.len() >= n * nf);
        let row = vstd::slice::slice_subrange(x, i * nf, i * nf + nf);
        assert(row@ == row_of(x@, i as int, nf as int));
        out[i] = score_row::<A>(row, n_trees, depth, base, feat, thr, leafval);
        i = i + 1;
    }
}

/// A score depends on the trees that it counts alone.
pub(crate) proof fn lemma_score_same<A: Arith>(a: Forest, b: Forest, row: Seq<F32>, trees: nat)
    requires
        a.depth == b.depth,
        a.base == b.base,
        forall|k: int|
            0 <= k < trees * a.depth ==> #[trigger] a.feat[k] == b.feat[k] && a.thr[k] == b.thr[k],
        forall|k: int|
            0 <= k < trees * pow2(a.depth) ==> #[trigger] a.leafval[k] == b.leafval[k],
    ensures
        a.score::<A>(row, trees) == b.score::<A>(row, trees),
    decreases trees,
{
    if trees > 0 {
        let low = (trees - 1) as nat;
        let d = a.depth;
        let leaves = pow2(d);
        assert(trees * d == low * d + d) by (nonlinear_arith)
            requires
                trees == low + 1,
        ;
        assert(trees * leaves == low * leaves + leaves) by (nonlinear_arith)
            requires
                trees == low + 1,
        ;
        assert(0 <= low * d && 0 <= low * leaves) by (nonlinear_arith)
            requires
                low >= 0,
                d >= 0,
                leaves >= 0,
        ;
        lemma_score_same::<A>(a, b, row, low);
        let first = (low * d) as int;
        assert forall|k: int| 0 <= k < d implies #[trigger] a.feat[first + k] == b.feat[first + k]
            && a.thr[first + k] == b.thr[first + k] by {}
        lemma_leaf_same(a.feat, a.thr, b.feat, b.thr, row, first, first, d);
        lemma_leaf_range(a.feat, a.thr, row, first, d);
        let leaf = leaf_of(a.feat, a.thr, row, first, d);
        assert(a.leafval[low * leaves + leaf] == b.leafval[low * leaves + leaf]);
    }
}

} // verus!
