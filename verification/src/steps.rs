//! What the leaves of trees are worth.

use vstd::arithmetic::power2::pow2;
use vstd::prelude::*;

use crate::arith::narrowed;
use crate::arith::product64;
use crate::arith::quotient64;
use crate::arith::sum64;
use crate::arith::widened;
use crate::arith::Arith;
use crate::binning::ascending;
use crate::binning::bins_of;
use crate::binning::bounds_of;
use crate::booster::encoded_features;
use crate::booster::fittable;
use crate::booster::fitted_problem;
use crate::booster::lemma_ascending_bounds;
use crate::booster::lemma_fitted_problem;
use crate::config::Config;
use crate::config::Objective;
use crate::cpu::forest_of;
use crate::cpu::lemma_fitted_scores;
use crate::cpu::lemma_grown;
use crate::cpu::lemma_grown_leaf;
use crate::cpu::lemma_state_sizes;
use crate::cpu::split_bounds;
use crate::cpu::split_features;
use crate::cpu::Growth;
use crate::cpu::Problem;
use crate::cpu::Round;
use crate::cpu::ALL_ROWS32;
use crate::data::midpoints_monotone;
use crate::data::Dataset;
use crate::exact::lemma_shares;
use crate::exact::share_start;
use crate::float::F32;
use crate::float::F64;
use crate::forest::leaf_of;
use crate::forest::lemma_leaf_same;
use crate::forest::lemma_score_same;
use crate::forest::row_of;
use crate::forest::Forest;
use crate::histogram::share;
use crate::leaf::joined_leaf_sum;
use crate::leaf::leaf_sum;
use crate::leaf::leaf_value;
use crate::objective::gradient;
use crate::objective::hessian;
use crate::reals::faithful;
use crate::reals::fits32;
use crate::reals::fits64;
use crate::reals::lemma_constants;
use crate::reals::lemma_narrowed;
use crate::reals::lemma_product64;
use crate::reals::lemma_quotient64;
use crate::reals::lemma_sign64;
use crate::reals::lemma_sum64;
use crate::reals::lemma_widened;
use crate::sums::lemma_part_cut;
use crate::sums::lemma_part_none;
use crate::sums::lemma_part_same;
use crate::sums::lemma_part_split;
use crate::sums::part;
use crate::sums::parts_fit64;

verus! {

/// A leaf value is a step against the gradient sum, shrunk by the learning rate: times the
/// regularised hessian sum it is minus the learning rate times the gradient sum.
pub open spec fn newton(value: real, g: real, h: real, lr: real, lambda: real) -> bool {
    value * (h + lambda) == -(lr * g)
}

/// The gradients of the train rows at the scores that the first `trees` trees of a forest give
/// them.
pub open spec fn gradients_after<A: Arith>(
    f: Forest,
    x: Seq<F32>,
    y: Seq<F32>,
    n: nat,
    logistic: bool,
    trees: nat,
) -> Seq<F32> {
    Seq::new(
        n,
        |i: int|
            gradient::<A>(
                logistic,
                f.score::<A>(row_of(x, i, f.n_features as int), trees),
                y[i],
            ),
    )
}

/// The rows that tree `tree` of a forest sends to leaf `l`.
pub open spec fn sent_to(f: Forest, x: Seq<F32>, tree: int, l: int) -> spec_fn(int) -> bool {
    |i: int|
        leaf_of(
            f.feat,
            f.thr,
            row_of(x, i, f.n_features as int),
            tree * f.depth,
            f.depth,
        ) == l
}

/// The hessians of the train rows at the scores that the first `trees` trees of a forest give
/// them.
pub open spec fn hessians_after<A: Arith>(
    f: Forest,
    x: Seq<F32>,
    n: nat,
    logistic: bool,
    trees: nat,
) -> Seq<F32> {
    Seq::new(
        n,
        |i: int|
            hessian::<A>(logistic, f.score::<A>(row_of(x, i, f.n_features as int), trees)),
    )
}

/// The values of the listed rows.
pub open spec fn listed(vals: Seq<F32>, rows: Seq<u32>) -> Seq<F32> {
    Seq::new(rows.len(), |k: int| vals[rows[k] as int])
}

/// The places from `low` to `high` of a list whose rows are at leaf `l`.
pub open spec fn ended_at(
    node: Seq<u32>,
    rows: Seq<u32>,
    low: int,
    high: int,
    l: int,
) -> spec_fn(int) -> bool {
    |k: int| low <= k < high && node[rows[k] as int] == l
}

proof fn lemma_share_sum<A: Arith>(
    node: Seq<u32>,
    rows: Seq<u32>,
    vals: Seq<F32>,
    low: int,
    high: int,
    k: nat,
    l: int,
)
    requires
        faithful::<A>(),
        parts_fit64(listed(vals, rows), rows.len()),
        0 <= low <= high <= rows.len(),
        k <= high - low,
    ensures
        leaf_sum::<A>(node, rows.subrange(low, high), vals, k, l).means(
            part(listed(vals, rows), (low + k) as nat, ended_at(node, rows, low, high, l)),
        ),
    decreases k,
{
    let all = listed(vals, rows);
    let pick = ended_at(node, rows, low, high, l);
    lemma_constants();
    if k == 0 {
        lemma_part_none(all, low as nat, pick);
    } else {
        let run = rows.subrange(low, high);
        lemma_share_sum::<A>(node, rows, vals, low, high, (k - 1) as nat, l);
        assert(run[k - 1] == rows[low + k - 1]);
        assert(all[low + k - 1] == vals[rows[low + k - 1] as int]);
        assert(fits64(part(all, (low + k) as nat, pick)));
        assert(((low + k) as nat - 1) as nat == (low + (k - 1) as nat) as nat);
        assert(pick(low + k - 1) == (node[run[k - 1] as int] == l));
        if node[run[k - 1] as int] == l {
            let v = vals[run[k - 1] as int];
            lemma_widened::<A>(v);
            lemma_sum64::<A>(
                leaf_sum::<A>(node, run, vals, (k - 1) as nat, l),
                widened::<A>(v),
            );
        }
    }
}

proof fn lemma_joined_sum<A: Arith>(
    node: Seq<u32>,
    rows: Seq<u32>,
    vals: Seq<F32>,
    workers: int,
    j: nat,
    l: int,
)
    requires
        faithful::<A>(),
        parts_fit64(listed(vals, rows), rows.len()),
        0 < workers,
        j <= workers,
    ensures
        joined_leaf_sum::<A>(node, rows, vals, workers, j, l).means(
            part(
                listed(vals, rows),
                rows.len(),
                ended_at(node, rows, 0, share_start(rows.len() as int, j as int, workers), l),
            ),
        ),
    decreases j,
{
    let m = rows.len();
    let all = listed(vals, rows);
    lemma_constants();
    if j == 0 {
        lemma_shares(m as int, 0, workers);
        lemma_part_none(all, m, ended_at(node, rows, 0, 0, l));
    } else {
        let low = share_start(m as int, j - 1, workers);
        let high = share_start(m as int, j as int, workers);
        let run = share(rows, j - 1, workers);
        lemma_joined_sum::<A>(node, rows, vals, workers, (j - 1) as nat, l);
        lemma_shares(m as int, j - 1, workers);
        assert(run == rows.subrange(low, high));
        lemma_share_sum::<A>(node, rows, vals, low, high, run.len(), l);
        let own = ended_at(node, rows, low, high, l);
        let before = ended_at(node, rows, 0, low, l);
        let upto = ended_at(node, rows, 0, high, l);
        lemma_part_cut(all, high as nat, m, own);
        lemma_part_split(all, m, upto, before, own);
        assert(fits64(part(all, m, upto)));
        lemma_sum64::<A>(
            joined_leaf_sum::<A>(node, rows, vals, workers, (j - 1) as nat, l),
            leaf_sum::<A>(node, run, vals, run.len(), l),
        );
    }
}

/// The steps towards a leaf value can be written down.
pub open spec fn step_fits(g: real, h: real, lr: real, lambda: real) -> bool {
    &&& h + lambda != 0real
    &&& fits64(h + lambda)
    &&& fits64(-(lr * g))
    &&& fits64(-(lr * g) / (h + lambda))
    &&& fits32(-(lr * g) / (h + lambda))
}

proof fn lemma_step<A: Arith>(g: F64, h: F64, lr: F64, lambda: F64)
    requires
        faithful::<A>(),
        g.finite(),
        h.finite(),
        lr.finite(),
        lambda.finite(),
        step_fits(g.amount(), h.amount(), lr.amount(), lambda.amount()),
    ensures
        leaf_value::<A>(g, h, lr, lambda).finite(),
        newton(
            leaf_value::<A>(g, h, lr, lambda).amount(),
            g.amount(),
            h.amount(),
            lr.amount(),
            lambda.amount(),
        ),
{
    lemma_sign64(lr);
    let a = lr.amount();
    let b = g.amount();
    assert((-a) * b == -(a * b)) by (nonlinear_arith);
    lemma_product64::<A>(lr.opposite(), g);
    lemma_sum64::<A>(h, lambda);
    let top = product64::<A>(lr.opposite(), g);
    let bottom = sum64::<A>(h, lambda);
    lemma_quotient64::<A>(top, bottom);
    lemma_narrowed::<A>(quotient64::<A>(top, bottom));
    let v = leaf_value::<A>(g, h, lr, lambda).amount();
    let x = top.amount();
    let y = bottom.amount();
    assert(v * y == x) by (nonlinear_arith)
        requires
            v == x / y,
            y != 0real,
    ;
}

/// Where sums of gradients and of hessians are not rounded, each leaf of a finished tree is worth
/// a Newton step over the listed rows that ended at it, between however many threads they are
/// split.
pub proof fn lemma_grown_value<A: Arith>(p: Problem, round: Round, tree: Growth, l: int)
    requires
        faithful::<A>(),
        0 < p.workers,
        0 <= l < pow2(p.depth),
        p.lr.finite(),
        p.lambda.finite(),
        parts_fit64(listed(round.g, round.rows), round.rows.len()),
        parts_fit64(listed(round.h, round.rows), round.rows.len()),
        ({
            let n = round.rows.len();
            let pick = ended_at(tree.node, round.rows, 0, n as int, l);
            step_fits(
                part(listed(round.g, round.rows), n, pick),
                part(listed(round.h, round.rows), n, pick),
                p.lr.amount(),
                p.lambda.amount(),
            )
        }),
    ensures
        ({
            let n = round.rows.len();
            let pick = ended_at(tree.node, round.rows, 0, n as int, l);
            let v = p.values::<A>(round, tree)[l];
            &&& v.finite()
            &&& newton(
                v.amount(),
                part(listed(round.g, round.rows), n, pick),
                part(listed(round.h, round.rows), n, pick),
                p.lr.amount(),
                p.lambda.amount(),
            )
        }),
{
    let w = p.workers as int;
    lemma_joined_sum::<A>(tree.node, round.rows, round.g, w, p.workers, l);
    lemma_joined_sum::<A>(tree.node, round.rows, round.h, w, p.workers, l);
    lemma_shares(round.rows.len() as int, 0, w);
    lemma_step::<A>(
        joined_leaf_sum::<A>(tree.node, round.rows, round.g, w, p.workers, l),
        joined_leaf_sum::<A>(tree.node, round.rows, round.h, w, p.workers, l),
        p.lr,
        p.lambda,
    );
}

/// Later trees change nothing in a forest in the making.
proof fn lemma_kept<A: Arith>(p: Problem, s: nat, t: nat)
    requires
        p.well_formed(),
        s <= t,
    ensures
        ({
            let a = p.after::<A>(s);
            let b = p.after::<A>(t);
            &&& forall|k: int| 0 <= k < a.feat.len() ==> #[trigger] b.feat[k] == a.feat[k]
            &&& forall|k: int| 0 <= k < a.thr.len() ==> #[trigger] b.thr[k] == a.thr[k]
            &&& forall|k: int| 0 <= k < a.leafval.len() ==> #[trigger] b.leafval[k] == a.leafval[k]
        }),
    decreases t,
{
    if s < t {
        let low = (t - 1) as nat;
        lemma_kept::<A>(p, s, low);
        lemma_state_sizes::<A>(p, s);
        lemma_state_sizes::<A>(p, low);
        let d = p.depth;
        let l = pow2(p.depth);
        assert(s * d <= low * d && s * l <= low * l) by (nonlinear_arith)
            requires
                s <= low,
        ;
        let a = p.after::<A>(s);
        let c = p.after::<A>(low);
        let b = p.after::<A>(t);
        assert forall|k: int| 0 <= k < a.feat.len() implies #[trigger] b.feat[k] == a.feat[k] by {
            assert(c.feat[k] == a.feat[k]);
        }
        assert forall|k: int| 0 <= k < a.thr.len() implies #[trigger] b.thr[k] == a.thr[k] by {
            assert(c.thr[k] == a.thr[k]);
        }
        assert forall|k: int| 0 <= k < a.leafval.len() implies #[trigger] b.leafval[k]
            == a.leafval[k] by {
            assert(c.leafval[k] == a.leafval[k]);
        }
    }
}

/// What a tree was grown from is what the finished forest says of the train rows.
proof fn lemma_tree_sources<A: Arith>(p: Problem, x: Seq<F32>, tree: nat, t: nat, i: int)
    requires
        p.well_formed(),
        x.len() == p.n * p.nf,
        p.bins == bins_of(x, p.bounds, p.nf as int, p.nbins - 1),
        forall|f: int|
            0 <= f < p.nf ==> ascending(#[trigger] bounds_of(p.bounds, f, p.nbins - 1)),
        tree < t,
        0 <= i < p.n,
    ensures
        ({
            let f = forest_of::<A>(p, t);
            let before = p.after::<A>(tree);
            let node = p.grown::<A>(p.round::<A>(before.pred, tree), p.depth).node;
            let row = row_of(x, i, p.nf as int);
            &&& before.pred[i] == f.score::<A>(row, tree)
            &&& node[i] == leaf_of(f.feat, f.thr, row, tree * p.depth as int, p.depth)
        }),
{
    let f = forest_of::<A>(p, t);
    let row = row_of(x, i, p.nf as int);
    let before = p.after::<A>(tree);
    let after = p.after::<A>(tree + 1);
    let round = p.round::<A>(before.pred, tree);
    let grown = p.grown::<A>(round, p.depth);
    let d = p.depth;
    lemma_fitted_scores::<A>(p, x, i, tree);
    lemma_state_sizes::<A>(p, tree);
    lemma_state_sizes::<A>(p, tree + 1);
    lemma_kept::<A>(p, tree, t);
    lemma_kept::<A>(p, tree + 1, t);
    lemma_score_same::<A>(f, forest_of::<A>(p, tree), row, tree);
    lemma_grown::<A>(p, round, d);
    lemma_grown_leaf::<A>(p, x, round, i, d);
    let first = (tree * d) as int;
    let feat = split_features(grown.splits);
    let thr = split_bounds(grown.splits, p.bounds, p.nbins - 1);
    assert((tree + 1) * d == tree * d + d) by (nonlinear_arith);
    assert forall|k: int| 0 <= k < d implies #[trigger] f.feat[first + k] == feat[0 + k]
        && f.thr[first + k] == thr[0 + k] by {
        assert(f.feat[first + k] == after.feat[first + k]);
        assert(f.thr[first + k] == after.thr[first + k]);
    }
    lemma_leaf_same(f.feat, f.thr, feat, thr, row, first, 0, d);
}

/// After a fit on the host on all rows, each leaf value times the regularised hessian sum of its
/// rows is minus the configured learning rate times their gradient sum. The rows are those that
/// the fitted forest sends to the leaf, and the gradients those at the scores of the trees
/// before; no sum may be rounded.
pub proof fn lemma_fitted_leaf<A: Arith>(
    ds: Dataset,
    cfg: Config,
    workers: nat,
    tree: int,
    l: int,
)
    requires
        faithful::<A>(),
        fittable(ds, cfg, workers as int),
        forall|k: int|
            0 <= k < ds.x_train@.len() ==> !(#[trigger] encoded_features::<A>(ds, cfg)[k]).nan(),
        cfg.unique_bins ==> midpoints_monotone::<A>(encoded_features::<A>(ds, cfg)),
        !(F32 { bits: 0 }).below(cfg.goss_top),
        !cfg.subsample.below(F32 { bits: ALL_ROWS32 }),
        0 <= tree < cfg.n_trees,
        0 <= l < pow2(cfg.depth as nat),
        cfg.learning_rate.finite(),
        cfg.lambda.finite(),
        ({
            let f = forest_of::<A>(
                fitted_problem::<A>(ds, cfg, workers),
                cfg.n_trees as nat,
            );
            let x = encoded_features::<A>(ds, cfg);
            let n = ds.n_train as nat;
            let lg = cfg.objective == Objective::Logistic;
            let g = gradients_after::<A>(f, x, ds.y_train@, n, lg, tree as nat);
            let h = hessians_after::<A>(f, x, n, lg, tree as nat);
            &&& parts_fit64(g, n)
            &&& parts_fit64(h, n)
            &&& step_fits(
                part(g, n, sent_to(f, x, tree, l)),
                part(h, n, sent_to(f, x, tree, l)),
                cfg.learning_rate.amount(),
                cfg.lambda.amount(),
            )
        }),
    ensures
        ({
            let f = forest_of::<A>(
                fitted_problem::<A>(ds, cfg, workers),
                cfg.n_trees as nat,
            );
            let x = encoded_features::<A>(ds, cfg);
            let n = ds.n_train as nat;
            let lg = cfg.objective == Objective::Logistic;
            let g = gradients_after::<A>(f, x, ds.y_train@, n, lg, tree as nat);
            let h = hessians_after::<A>(f, x, n, lg, tree as nat);
            let v = f.leafval[tree * pow2(cfg.depth as nat) + l];
            &&& v.finite()
            &&& newton(
                v.amount(),
                part(g, n, sent_to(f, x, tree, l)),
                part(h, n, sent_to(f, x, tree, l)),
                cfg.learning_rate.amount(),
                cfg.lambda.amount(),
            )
        }),
{
    let p = fitted_problem::<A>(ds, cfg, workers);
    let x = encoded_features::<A>(ds, cfg);
    let t = cfg.n_trees as nat;
    let f = forest_of::<A>(p, t);
    let n = ds.n_train as nat;
    let lg = cfg.objective == Objective::Logistic;
    let g = gradients_after::<A>(f, x, ds.y_train@, n, lg, tree as nat);
    let h = hessians_after::<A>(f, x, n, lg, tree as nat);
    lemma_fitted_problem::<A>(ds, cfg, workers);
    lemma_ascending_bounds::<A>(ds, cfg, workers);
    lemma_widened::<A>(cfg.lambda);
    lemma_widened::<A>(cfg.learning_rate);
    let before = p.after::<A>(tree as nat);
    let round = p.round::<A>(before.pred, tree as nat);
    let grown = p.grown::<A>(round, p.depth);
    lemma_state_sizes::<A>(p, tree as nat);
    assert(p.stride == 1);
    assert(tree as nat % 1 == 0);
    assert(round.rows.len() == n);
    assert forall|k: int| 0 <= k < n implies #[trigger] round.rows[k] == k by {}
    assert forall|i: int| 0 <= i < n implies before.pred[i] == f.score::<A>(
        row_of(x, i, p.nf as int),
        tree as nat,
    ) && grown.node[i] == leaf_of(
        f.feat,
        f.thr,
        row_of(x, i, p.nf as int),
        tree * p.depth,
        p.depth,
    ) by {
        lemma_tree_sources::<A>(p, x, tree as nat, t, i);
    }
    assert(listed(round.g, round.rows) =~= g);
    assert(listed(round.h, round.rows) =~= h);
    let pick = ended_at(grown.node, round.rows, 0, n as int, l);
    assert forall|i: int| 0 <= i < n implies #[trigger] pick(i) == sent_to(f, x, tree, l)(i) by {
        assert(round.rows[i] == i);
        assert(grown.node[i] == leaf_of(
            f.feat,
            f.thr,
            row_of(x, i, p.nf as int),
            tree * p.depth,
            p.depth,
        ));
    }
    lemma_part_same(g, n, pick, sent_to(f, x, tree, l));
    lemma_part_same(h, n, pick, sent_to(f, x, tree, l));
    lemma_grown_value::<A>(p, round, grown, l);
    lemma_kept::<A>(p, (tree + 1) as nat, t);
    lemma_state_sizes::<A>(p, (tree + 1) as nat);
    let leaves = pow2(p.depth) as int;
    assert((tree + 1) * leaves == tree * leaves + leaves && 0 <= tree * leaves) by (nonlinear_arith)
        requires
            0 <= tree,
            0 <= leaves,
    ;
    let k = tree * leaves + l;
    assert(f.leafval[k] == p.after::<A>((tree + 1) as nat).leafval[k]);
}

} // verus!
