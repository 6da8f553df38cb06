//! Kernels that compute leaf values and score rows.

use vstd::prelude::*;

use crate::arith::add32;
use crate::arith::deterministic;
use crate::arith::difference32;
use crate::arith::div32;
use crate::arith::mul32;
use crate::arith::product32;
use crate::arith::quotient32;
use crate::arith::sub32;
use crate::arith::sum32;
use crate::arith::Arith;
use crate::float::F32;
use crate::float::ONE32;
use crate::forest::row_of;
use crate::forest::score_rows;
use crate::forest::Forest;
use crate::gpu::hist::BLOCK;
use crate::gpu::rows::hash01;
use crate::gpu::rows::overwritten;
use crate::gpu::rows::sample_share;
use crate::gpu::rows::store;

verus! {

/// What the rows of a finished tree are summed by.
pub struct LeafRows {
    pub leaf: Seq<u32>,
    pub leaves: int,
    pub replicas: int,
    pub subsample: F32,
    pub seed: u32,
}

impl LeafRows {
    /// Row `i` is drawn: the same rows as for the histograms.
    pub open spec fn drawn<A: Arith>(self, i: int) -> bool {
        !(self.subsample.below(F32 { bits: ONE32 }) && self.subsample.at_most(
            sample_share::<A>(i as u32, self.seed),
        ))
    }

    /// The place that row `i` is added to.
    pub open spec fn place(self, i: int) -> int {
        i / BLOCK as int % self.replicas * self.leaves + self.leaf[i]
    }

    /// What stands at place `at` after the first `k` rows have been added.
    pub open spec fn added<A: Arith>(self, start: F32, vals: Seq<F32>, k: nat, at: int) -> F32
        decreases k,
    {
        if k == 0 {
            start
        } else {
            let before = self.added::<A>(start, vals, (k - 1) as nat, at);
            if self.drawn::<A>(k - 1) && self.place(k - 1) == at {
                sum32::<A>(before, vals[k - 1])
            } else {
                before
            }
        }
    }

    /// Leaf sums to which the first `n` rows have been added.
    pub open spec fn summed<A: Arith>(self, old: Seq<F32>, vals: Seq<F32>, n: nat) -> Seq<F32> {
        Seq::new(old.len(), |at: int| self.added::<A>(old[at], vals, n, at))
    }
}

/// The squares of the values.
pub open spec fn squares<A: Arith>(vals: Seq<F32>) -> Seq<F32> {
    Seq::new(vals.len(), |i: int| product32::<A>(vals[i], vals[i]))
}

/// Adds values to leaf sums.
fn add_to_leaves<A: Arith>(
    leaf: &[u32],
    keep: &[bool],
    vals: &[F32],
    sums: &mut Vec<F32>,
    n: usize,
    leaves: usize,
    replicas: usize,
    Ghost(r): Ghost<LeafRows>,
)
    requires
        r.leaf == leaf@,
        r.leaves == leaves,
        r.replicas == replicas,
        replicas > 0,
        n <= leaf@.len(),
        n <= vals@.len(),
        keep@.len() == n,
        replicas * leaves <= old(sums)@.len(),
        forall|i: int| 0 <= i < n ==> #[trigger] leaf@[i] < leaves,
        deterministic::<A>() ==> forall|i: int|
            0 <= i < n ==> #[trigger] keep@[i] == r.drawn::<A>(i),
    ensures
        final(sums)@.len() == old(sums)@.len(),
        deterministic::<A>() ==> final(sums)@ == r.summed::<A>(old(sums)@, vals@, n as nat),
{
    let ghost start = sums@;
    let total: usize = sums.len();
    let mut i: usize = 0;
    while i < n
        invariant
            r.leaf == leaf@,
            r.leaves == leaves,
            r.replicas == replicas,
            replicas > 0,
            n <= leaf@.len(),
            n <= vals@.len(),
            keep@.len() == n,
            total == start.len(),
            sums@.len() == total,
            replicas * leaves <= total,
            forall|k: int| 0 <= k < n ==> #[trigger] leaf@[k] < leaves,
            deterministic::<A>() ==> forall|k: int|
                0 <= k < n ==> #[trigger] keep@[k] == r.drawn::<A>(k),
            i <= n,
            deterministic::<A>() ==> forall|at: int|
                0 <= at < total ==> #[trigger] sums@[at] == r.added::<A>(
                    start[at],
                    vals@,
                    i as nat,
                    at,
                ),
        decreases n - i,
    {
        let ghost before = sums@;
        if keep[i] {
            let l: usize = leaf[i] as usize;
            let rep: usize = i / BLOCK % replicas;
            assert(0 <= rep * leaves && rep * leaves + leaves <= replicas * leaves)
                by (nonlinear_arith)
                requires
                    0 <= rep < replicas,
                    leaves >= 0,
            ;
            let at: usize = rep * leaves + l;
            let s = add32::<A>(sums[at], vals[i]);
            sums[at] = s;
        }
        proof {
            if deterministic::<A>() {
                assert forall|p: int| 0 <= p < total implies #[trigger] sums@[p] == r.added::<A>(
                    start[p],
                    vals@,
                    (i + 1) as nat,
                    p,
                ) by {
                    let _ = before[p];
                }
            }
        }
        i = i + 1;
    }
    assert(deterministic::<A>() ==> sums@ =~= r.summed::<A>(start, vals@, n as nat));
}

/// Adds up gradients, hessians and squared gradients by leaf, with replicas, over the rows
/// that are drawn.
pub fn leaf_hist<A: Arith>(
    leaf: &[u32],
    g: &[F32],
    h: &[F32],
    leaf_g: &mut Vec<F32>,
    leaf_h: &mut Vec<F32>,
    leaf_g2: &mut Vec<F32>,
    n: u32,
    n_leaves: u32,
    n_replicas: u32,
    subsample: F32,
    tree_seed: u32,
)
    requires
        n <= leaf@.len(),
        n <= g@.len(),
        n <= h@.len(),
        n_replicas > 0,
        n_replicas * n_leaves <= old(leaf_g)@.len(),
        n_replicas * n_leaves <= old(leaf_h)@.len(),
        n_replicas * n_leaves <= old(leaf_g2)@.len(),
        forall|i: int| 0 <= i < n ==> #[trigger] leaf@[i] < n_leaves,
    ensures
        final(leaf_g)@.len() == old(leaf_g)@.len(),
        final(leaf_h)@.len() == old(leaf_h)@.len(),
        final(leaf_g2)@.len() == old(leaf_g2)@.len(),
        deterministic::<A>() ==> ({
            let r = LeafRows {
                leaf: leaf@,
                leaves: n_leaves as int,
                replicas: n_replicas as int,
                subsample,
                seed: tree_seed,
            };
            &&& final(leaf_g)@ == r.summed::<A>(old(leaf_g)@, g@, n as nat)
            &&& final(leaf_h)@ == r.summed::<A>(old(leaf_h)@, h@, n as nat)
            &&& final(leaf_g2)@ == r.summed::<A>(old(leaf_g2)@, squares::<A>(g@), n as nat)
        }),
{
    let ghost r = LeafRows {
        leaf: leaf@,
        leaves: n_leaves as int,
        replicas: n_replicas as int,
        subsample,
        seed: tree_seed,
    };
    let nn: usize = n as usize;
    let mut keep: Vec<bool> = Vec::new();
    let mut i: usize = 0;
    while i < nn
        invariant
            i <= nn,
            nn == n,
            r.subsample == subsample,
            r.seed == tree_seed,
            keep@.len() == i,
            deterministic::<A>() ==> forall|k: int|
                0 <= k < i ==> #[trigger] keep@[k] == r.drawn::<A>(k),
        decreases nn - i,
    {
        keep.push(
            !(subsample.less(F32 { bits: ONE32 }) && hash01::<A>(i as u32, tree_seed).not_less(
                subsample,
            )),
        );
        i = i + 1;
    }
    let mut g2: Vec<F32> = Vec::new();
    let mut j: usize = 0;
    while j < g.len()
        invariant
            j <= g@.len(),
            g2@.len() == j,
            deterministic::<A>() ==> forall|k: int|
                0 <= k < j ==> #[trigger] g2@[k] == product32::<A>(g@[k], g@[k]),
        decreases g@.len() - j,
    {
        g2.push(mul32::<A>(g[j], g[j]));
        j = j + 1;
    }
    assert(deterministic::<A>() ==> g2@ =~= squares::<A>(g@));
    let leaves: usize = n_leaves as usize;
    let reps: usize = n_replicas as usize;
    add_to_leaves::<A>(leaf, keep.as_slice(), g, leaf_g, nn, leaves, reps, Ghost(r));
    add_to_leaves::<A>(leaf, keep.as_slice(), h, leaf_h, nn, leaves, reps, Ghost(r));
    add_to_leaves::<A>(leaf, keep.as_slice(), g2.as_slice(), leaf_g2, nn, leaves, reps, Ghost(r));
}

/// The value of a leaf with gradient sum `g` and hessian sum `cnt`.
pub open spec fn step_of<A: Arith>(g: F32, cnt: F32, lr: F32, lambda: F32) -> F32 {
    quotient32::<A>(product32::<A>(lr.opposite(), g), sum32::<A>(cnt, lambda))
}

/// The variance that a leaf contributes: that of the gradients in it, scaled by the squared
/// learning rate.
pub open spec fn variance_of<A: Arith>(g: F32, cnt: F32, g2: F32, lr: F32) -> F32 {
    let zero = F32 { bits: 0 };
    let mean = quotient32::<A>(g, cnt);
    let v = difference32::<A>(quotient32::<A>(g2, cnt), product32::<A>(mean, mean));
    product32::<A>(
        product32::<A>(lr, lr),
        if (F32 { bits: ONE32 }).below(cnt) && zero.below(v) {
            v
        } else {
            zero
        },
    )
}

/// The variance that a leaf contributes.
fn leaf_variance<A: Arith>(g: F32, cnt: F32, g2: F32, lr: F32) -> (r: F32)
    ensures
        deterministic::<A>() ==> r == variance_of::<A>(g, cnt, g2, lr),
{
    let zero = F32 { bits: 0 };
    let var_g = if (F32 { bits: ONE32 }).less(cnt) {
        let m = div32::<A>(g, cnt);
        let v = sub32::<A>(div32::<A>(g2, cnt), mul32::<A>(m, m));
        if zero.less(v) {
            v
        } else {
            zero
        }
    } else {
        zero
    };
    mul32::<A>(mul32::<A>(lr, lr), var_g)
}

/// A buffer in which a run of places from `base` on has been written.
pub open spec fn written_at(old: Seq<F32>, base: int, vals: Seq<F32>) -> Seq<F32> {
    Seq::new(
        old.len(),
        |i: int|
            if base <= i < base + vals.len() {
                vals[i - base]
            } else {
                old[i]
            },
    )
}

/// Computes the values and the variances of the leaves of a tree, and enters them into the
/// forest from place `base` on.
pub fn compute_leaf_values<A: Arith>(
    leaf_g: &[F32],
    leaf_h: &[F32],
    leaf_g2: &[F32],
    leafval: &mut Vec<F32>,
    leafvar: &mut Vec<F32>,
    base: u32,
    lr: F32,
    lambda: F32,
    n_leaves: u32,
)
    requires
        n_leaves <= leaf_g@.len(),
        n_leaves <= leaf_h@.len(),
        n_leaves <= leaf_g2@.len(),
        base + n_leaves <= old(leafval)@.len(),
        base + n_leaves <= old(leafvar)@.len(),
    ensures
        final(leafval)@.len() == old(leafval)@.len(),
        final(leafvar)@.len() == old(leafvar)@.len(),
        deterministic::<A>() ==> final(leafval)@ == written_at(
            old(leafval)@,
            base as int,
            Seq::new(n_leaves as nat, |l: int| step_of::<A>(leaf_g@[l], leaf_h@[l], lr, lambda)),
        ),
        deterministic::<A>() ==> final(leafvar)@ == written_at(
            old(leafvar)@,
            base as int,
            Seq::new(
                n_leaves as nat,
                |l: int| variance_of::<A>(leaf_g@[l], leaf_h@[l], leaf_g2@[l], lr),
            ),
        ),
{
    let ghost start_val = leafval@;
    let ghost start_var = leafvar@;
    let first: usize = base as usize;
    let n: usize = n_leaves as usize;
    let total: usize = leafval.len();
    let ghost vals = Seq::new(
        n_leaves as nat,
        |l: int| step_of::<A>(leaf_g@[l], leaf_h@[l], lr, lambda),
    );
    let ghost vars = Seq::new(
        n_leaves as nat,
        |l: int| variance_of::<A>(leaf_g@[l], leaf_h@[l], leaf_g2@[l], lr),
    );
    let mut l: usize = 0;
    while l < n
        invariant
            l <= n,
            n == n_leaves,
            first == base,
            n <= leaf_g@.len(),
            n <= leaf_h@.len(),
            n <= leaf_g2@.len(),
            total == start_val.len(),
            first + n <= total,
            first + n <= start_var.len(),
            leafval@.len() == start_val.len(),
            leafvar@.len() == start_var.len(),
            vals == Seq::new(
                n_leaves as nat,
                |l: int| step_of::<A>(leaf_g@[l], leaf_h@[l], lr, lambda),
            ),
            vars == Seq::new(
                n_leaves as nat,
                |l: int| variance_of::<A>(leaf_g@[l], leaf_h@[l], leaf_g2@[l], lr),
            ),
            deterministic::<A>() ==> leafval@ == written_at(
                start_val,
                base as int,
                vals.take(l as int),
            ),
            deterministic::<A>() ==> leafvar@ == written_at(
                start_var,
                base as int,
                vars.take(l as int),
            ),
        decreases n - l,
    {
        let g = leaf_g[l];
        let cnt = leaf_h[l];
        let val = div32::<A>(mul32::<A>(lr.neg(), g), add32::<A>(cnt, lambda));
        let var = leaf_variance::<A>(g, cnt, leaf_g2[l], lr);
        leafval[first + l] = val;
        leafvar[first + l] = var;
        proof {
            if deterministic::<A>() {
                assert(leafval@ =~= written_at(start_val, base as int, vals.take(l + 1)));
                assert(leafvar@ =~= written_at(start_var, base as int, vars.take(l + 1)));
            }
        }
        l = l + 1;
    }
    proof {
        assert(vals.take(n as int) =~= vals);
        assert(vars.take(n as int) =~= vars);
    }
}

/// Adds the values of the leaves that the first `n` rows are at, which stand from place `base`
/// on, to the scores of the rows.
pub fn update_pred<A: Arith>(leaf: &[u32], leafval: &[F32], base: u32, pred: &mut Vec<F32>, n: u32)
    requires
        n <= leaf@.len(),
        n <= old(pred)@.len(),
        forall|i: int| 0 <= i < n ==> base + #[trigger] leaf@[i] < leafval@.len(),
    ensures
        final(pred)@.len() == old(pred)@.len(),
        forall|i: int| n <= i < old(pred)@.len() ==> #[trigger] final(pred)@[i] == old(pred)@[i],
        deterministic::<A>() ==> final(pred)@ == overwritten(
            old(pred)@,
            Seq::new(
                n as nat,
                |i: int| sum32::<A>(old(pred)@[i], leafval@[base + leaf@[i]]),
            ),
        ),
{
    let nn: usize = n as usize;
    let first: usize = base as usize;
    let total: usize = leafval.len();
    let mut vals: Vec<F32> = Vec::new();
    let mut i: usize = 0;
    while i < nn
        invariant
            i <= nn,
            nn == n,
            first == base,
            total == leafval@.len(),
            nn <= leaf@.len(),
            nn <= pred@.len(),
            forall|k: int| 0 <= k < n ==> base + #[trigger] leaf@[k] < leafval@.len(),
            vals@.len() == i,
            deterministic::<A>() ==> forall|k: int|
                0 <= k < i ==> #[trigger] vals@[k] == sum32::<A>(
                    pred@[k],
                    leafval@[base + leaf@[k]],
                ),
        decreases nn - i,
    {
        assert(base + leaf@[i as int] < leafval@.len());
        vals.push(add32::<A>(pred[i], leafval[first + leaf[i] as usize]));
        i = i + 1;
    }
    assert(deterministic::<A>() ==> vals@ =~= Seq::new(
        n as nat,
        |i: int| sum32::<A>(old(pred)@[i], leafval@[base + leaf@[i]]),
    ));
    store(pred, vals.as_slice());
}

/// Scores the first `n` rows of a row-major matrix with a forest.
pub fn predict<A: Arith>(
    x: &[F32],
    feat: &[u32],
    thr: &[F32],
    leafval: &[F32],
    out: &mut Vec<F32>,
    n: u32,
    n_features: u32,
    depth: u32,
    n_trees: u32,
    base: F32,
)
    requires
        depth < 32,
        n * n_features <= x@.len(),
        n <= old(out)@.len(),
        (Forest {
            n_features: n_features as nat,
            depth: depth as nat,
            base,
            feat: feat@,
            thr: thr@,
            leafval: leafval@,
        }).well_formed(n_trees as nat),
    ensures
        final(out)@.len() == old(out)@.len(),
        forall|i: int| n <= i < old(out)@.len() ==> #[trigger] final(out)@[i] == old(out)@[i],
        deterministic::<A>() ==> forall|i: int|
            0 <= i < n ==> #[trigger] final(out)@[i] == (Forest {
                n_features: n_features as nat,
                depth: depth as nat,
                base,
                feat: feat@,
                thr: thr@,
                leafval: leafval@,
            }).score::<A>(row_of(x@, i, n_features as int), n_trees as nat),
{
    score_rows::<A>(
        x,
        n as usize,
        n_features as usize,
        n_trees as usize,
        depth as usize,
        base,
        feat,
        thr,
        leafval,
        out,
    );
}

/// Adds up the variances of the leaves that the first `n` rows of a row-major matrix reach in
/// a forest.
pub fn predict_var<A: Arith>(
    x: &[F32],
    feat: &[u32],
    thr: &[F32],
    leafvar: &[F32],
    out_var: &mut Vec<F32>,
    n: u32,
    n_features: u32,
    depth: u32,
    n_trees: u32,
)
    requires
        depth < 32,
        n * n_features <= x@.len(),
        n <= old(out_var)@.len(),
        (Forest {
            n_features: n_features as nat,
            depth: depth as nat,
            base: F32 { bits: 0 },
            feat: feat@,
            thr: thr@,
            leafval: leafvar@,
        }).well_formed(n_trees as nat),
    ensures
        final(out_var)@.len() == old(out_var)@.len(),
        forall|i: int|
            n <= i < old(out_var)@.len() ==> #[trigger] final(out_var)@[i] == old(out_var)@[i],
        deterministic::<A>() ==> forall|i: int|
            0 <= i < n ==> #[trigger] final(out_var)@[i] == (Forest {
                n_features: n_features as nat,
                depth: depth as nat,
                base: F32 { bits: 0 },
                feat: feat@,
                thr: thr@,
                leafval: leafvar@,
            }).score::<A>(row_of(x@, i, n_features as int), n_trees as nat),
{
    predict::<A>(
        x,
        feat,
        thr,
        leafvar,
        out_var,
        n,
        n_features,
        depth,
        n_trees,
        F32 { bits: 0 },
    );
}

} // verus!
