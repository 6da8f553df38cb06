//! What holds of a run as a whole.

use vstd::arithmetic::power2::lemma2_to64;
use vstd::arithmetic::power2::lemma_pow2_pos;
use vstd::arithmetic::power2::lemma_pow2_strictly_increases;
use vstd::arithmetic::power2::pow2;
use vstd::prelude::*;

use crate::arith::sum32;
use crate::arith::Arith;
use crate::float::F32;
use crate::forest::leaf_of;
use crate::forest::lemma_leaf_range;
use crate::forest::lemma_leaf_same;
use crate::forest::lemma_score_same;
use crate::forest::row_of;
use crate::forest::Forest;
use crate::gpu::acc::Accum;
use crate::gpu::machine::run;
use crate::gpu::machine::step;
use crate::gpu::machine::Machine;
use crate::gpu::machine::Task;
use crate::gpu::plan::lemma_level_sizes;
use crate::gpu::plan::other;
use crate::gpu::plan::side_of;
use crate::gpu::plan::Category;
use crate::gpu::plan::Launch;
use crate::gpu::plan::Side;
use crate::gpu::run::grown;
use crate::gpu::setup::seed_of;
use crate::gpu::split::lemma_winner_place;
use crate::gpu::split::NO_GAIN32;

verus! {

pub(crate) proof fn lemma_run_append<A: Arith, C: Accum<A>>(
    j: Task,
    m: Machine,
    a: Seq<Launch>,
    b: Seq<Launch>,
)
    ensures
        run::<A, C>(j, m, a + b) == run::<A, C>(j, run::<A, C>(j, m, a), b),
    decreases a.len(),
{
    if a.len() == 0 {
        assert(a + b =~= b);
    } else {
        lemma_run_append::<A, C>(j, step::<A, C>(j, m, a[0]), a.skip(1), b);
        assert((a + b).skip(1) =~= a.skip(1) + b);
    }
}

pub(crate) proof fn lemma_run_push<A: Arith, C: Accum<A>>(j: Task, m: Machine, a: Seq<Launch>, l: Launch)
    ensures
        run::<A, C>(j, m, a.push(l)) == step::<A, C>(j, run::<A, C>(j, m, a), l),
{
    lemma_run_append::<A, C>(j, m, a, seq![l]);
    assert(a.push(l) =~= a + seq![l]);
    assert(seq![l].skip(1) =~= Seq::empty());
    let k = run::<A, C>(j, m, a);
    assert(run::<A, C>(j, k, seq![l]) == step::<A, C>(j, k, l)) by {
        reveal_with_fuel(run, 2);
    }
}

/// What two machines have in common when no launch between them has moved a row, chosen a
/// split, or computed leaf values or scores.
pub open spec fn alike(a: Machine, b: Machine) -> bool {
    &&& a.rows.pred == b.rows.pred
    &&& a.rows.leaf == b.rows.leaf
    &&& a.pick == b.pick
    &&& a.leaves.val == b.leaves.val
}

/// Launches that move no row, rate and choose no split, and compute no leaf values or scores.
pub open spec fn quiet(l: Launch) -> bool {
    match l {
        Launch::ZeroLeaf => false,
        Launch::SplitGain { .. } => false,
        Launch::ArgmaxSplit { .. } => false,
        Launch::ApplySplit => false,
        Launch::LeafValues { .. } => false,
        Launch::UpdatePred { .. } => false,
        _ => true,
    }
}

proof fn lemma_quiet<A: Arith, C: Accum<A>>(j: Task, m: Machine, ls: Seq<Launch>)
    requires
        forall|i: int| 0 <= i < ls.len() ==> quiet(#[trigger] ls[i]),
    ensures
        alike(run::<A, C>(j, m, ls), m),
    decreases ls.len(),
{
    reveal(step);
    if ls.len() > 0 {
        assert(quiet(ls[0]));
        let k = step::<A, C>(j, m, ls[0]);
        assert(alike(k, m));
        assert forall|i: int| 0 <= i < ls.skip(1).len() implies quiet(#[trigger] ls.skip(1)[i]) by {
            assert(ls.skip(1)[i] == ls[i + 1]);
        }
        lemma_quiet::<A, C>(j, k, ls.skip(1));
    }
}

/// Launches that leave a pair of histograms as it is.
pub open spec fn spares(l: Launch, side: Side) -> bool {
    match l {
        Launch::ZeroHist { side: s, .. } => s != side,
        Launch::BuildSmem { side: s, .. } => s != side,
        Launch::ReduceHalf { side: s, .. } => s != side,
        Launch::ReduceInt { side: s, .. } => s != side,
        Launch::BuildHist { side: s, .. } => s != side,
        Launch::ReduceHist { side: s, .. } => s != side,
        Launch::SubtractEven { side: s, .. } => s != side,
        _ => true,
    }
}

pub(crate) proof fn lemma_spared<A: Arith, C: Accum<A>>(j: Task, m: Machine, ls: Seq<Launch>, side: Side)
    requires
        forall|i: int| 0 <= i < ls.len() ==> spares(#[trigger] ls[i], side),
    ensures
        run::<A, C>(j, m, ls).pair(side) == m.pair(side),
    decreases ls.len(),
{
    reveal(step);
    if ls.len() > 0 {
        assert(spares(ls[0], side));
        let k = step::<A, C>(j, m, ls[0]);
        assert(k.pair(side) == m.pair(side));
        assert forall|i: int| 0 <= i < ls.skip(1).len() implies spares(
            #[trigger] ls.skip(1)[i],
            side,
        ) by {
            assert(ls.skip(1)[i] == ls[i + 1]);
        }
        lemma_spared::<A, C>(j, k, ls.skip(1), side);
    }
}

/// The histograms of a level are still there when the next level is through: what the even
/// nodes of a level are computed from is what the level above was split by.
pub proof fn lemma_parent_kept<A: Arith, C: Accum<A>>(j: Task, m: Machine, tree: int, d: int)
    requires
        d >= 0,
    ensures
        run::<A, C>(j, m, j.shape.split_plan(tree, d)).pair(side_of(d)) == m.pair(side_of(d)),
        run::<A, C>(j, m, j.shape.level_plan(tree, d + 1)).pair(side_of(d)) == m.pair(side_of(d)),
{
    let split = j.shape.split_plan(tree, d);
    assert forall|i: int| 0 <= i < split.len() implies spares(#[trigger] split[i], side_of(d)) by {}
    lemma_spared::<A, C>(j, m, split, side_of(d));
    let level = j.shape.level_plan(tree, d + 1);
    assert(other(side_of(d + 1)) == side_of(d));
    assert forall|i: int| 0 <= i < level.len() implies spares(#[trigger] level[i], side_of(d)) by {
        let zero = j.shape.zero_plan(d + 1).push(
            Launch::Mark(Category::ZeroHist),
        );
        let build = j.shape.build_plan(tree, d + 1);
        let subtract = j.shape.subtract_plan(d + 1);
        let next = j.shape.split_plan(tree, d + 1);
        if i < zero.len() {
            assert(level[i] == zero[i]);
        } else if i < zero.len() + build.len() {
            assert(level[i] == build[i - zero.len()]);
        } else if i < zero.len() + build.len() + subtract.len() {
            assert(level[i] == subtract[i - zero.len() - build.len()]);
        } else {
            assert(level[i] == next[i - zero.len() - build.len() - subtract.len()]);
        }
    }
    lemma_spared::<A, C>(j, m, level, side_of(d));
}

/// Row `i` has a bin above `b` for feature `f` just where its value is above the boundary.
pub open spec fn bin_splits(j: Task, x: Seq<F32>, i: int, f: int, b: int) -> bool {
    j.view_bins().bin(i, f) > b <==> j.bounds[f * (j.shape.nb - 1) + b].below(
        x[i * j.shape.nf + f],
    )
}

/// The rows of a job are those of a row-major matrix.
pub open spec fn holds_rows(j: Task, x: Seq<F32>) -> bool {
    &&& x.len() == j.shape.n * j.shape.nf
    &&& forall|i: int, f: int, b: int|
        0 <= i < j.shape.n && 0 <= f < j.shape.nf && 0 <= b < j.shape.nb - 1
            ==> #[trigger] bin_splits(j, x, i, f, b)
}

/// The sizes of the buffers that rows, splits and values are in.
spec fn kept_sizes(j: Task, m: Machine) -> bool {
    &&& m.rows.pred.len() == j.shape.n
    &&& m.rows.leaf.len() == j.shape.n
    &&& m.pick.gains.len() == j.shape.nf * j.shape.nb
    &&& m.pick.split_ft.len() == 2
    &&& m.pick.feat.len() == j.shape.n_trees * j.shape.depth
    &&& m.pick.thr.len() == j.shape.n_trees * j.shape.depth
    &&& m.leaves.val.len() == j.shape.n_trees * j.shape.leaves()
}

/// The rows are where the `d` splits from place `first` on send them.
spec fn rows_follow(j: Task, x: Seq<F32>, m: Machine, first: int, d: nat) -> bool {
    forall|i: int|
        0 <= i < j.shape.n ==> #[trigger] m.rows.leaf[i] == leaf_of(
            m.pick.feat,
            m.pick.thr,
            row_of(x, i, j.shape.nf as int),
            first,
            d,
        )
}

/// Two machines have the same splits but for those from place `low` to place `high`.
spec fn same_splits(a: Machine, b: Machine, low: int, high: int) -> bool {
    &&& a.pick.feat.len() == b.pick.feat.len()
    &&& a.pick.thr.len() == b.pick.thr.len()
    &&& forall|k: int|
        0 <= k < a.pick.feat.len() && !(low <= k < high) ==> #[trigger] a.pick.feat[k]
            == b.pick.feat[k]
    &&& forall|k: int|
        0 <= k < a.pick.thr.len() && !(low <= k < high) ==> #[trigger] a.pick.thr[k]
            == b.pick.thr[k]
}

/// Splits are chosen among features and bins that there are.
proof fn lemma_picked<A: Arith, C: Accum<A>>(
    j: Task,
    m: Machine,
    side: Side,
    groups: u32,
    seed: u32,
    k: u32,
)
    requires
        j.valid(),
        kept_sizes(j, m),
        k < j.shape.n_trees * j.shape.depth,
    ensures
        ({
            let rated = step::<A, C>(j, m, Launch::SplitGain { side, groups, seed });
            let after = step::<A, C>(j, rated, Launch::ArgmaxSplit { k });
            let f = after.pick.split_ft[0] as int;
            let t = after.pick.split_ft[1] as int;
            &&& kept_sizes(j, after)
            &&& after.rows == m.rows
            &&& after.leaves == m.leaves
            &&& 0 <= f < j.shape.nf
            &&& 0 <= t < j.shape.nb - 1
            &&& after.pick.feat == m.pick.feat.update(k as int, f as u32)
            &&& after.pick.thr == m.pick.thr.update(
                k as int,
                j.bounds[f * (j.shape.nb - 1) + t],
            )
        }),
{
    reveal(step);
    let rated = step::<A, C>(j, m, Launch::SplitGain { side, groups, seed });
    let nf = j.shape.nf as int;
    let nb = j.shape.nb as int;
    let gains = rated.pick.gains;
    lemma_level_sizes(j.shape, 0);
    assert forall|f: int| 0 <= f < nf implies !(F32 { bits: NO_GAIN32 }).below(
        #[trigger] gains[f * nb + nb - 1],
    ) by {
        let id = f * nb + nb - 1;
        assert(0 <= id < nf * nb) by (nonlinear_arith)
            requires
                id == f * nb + nb - 1,
                0 <= f < nf,
                nb >= 1,
        ;
        assert(id == nb * f + (nb - 1)) by (nonlinear_arith)
            requires
                id == f * nb + nb - 1,
        ;
        vstd::arithmetic::div_mod::lemma_fundamental_div_mod_converse(id, nb, f, nb - 1);
        assert(gains[id] == j.rating(m.pair(side), groups as int, seed).gain::<A, C>(id));
    }
    lemma_winner_place(gains, nf, nb);
}

/// The launches that split a level, without the marks.
pub(crate) proof fn lemma_split_run<A: Arith, C: Accum<A>>(j: Task, m: Machine, tree: int, d: int)
    ensures
        run::<A, C>(j, m, j.shape.split_plan(tree, d)) == ({
            let split = j.shape.split_plan(tree, d);
            step::<A, C>(
                j,
                step::<A, C>(j, step::<A, C>(j, m, split[1]), split[3]),
                split[5],
            )
        }),
{
    let split = j.shape.split_plan(tree, d);
    let p0: Seq<Launch> = Seq::empty();
    let p1 = p0.push(split[0]);
    let p2 = p1.push(split[1]);
    let p3 = p2.push(split[2]);
    let p4 = p3.push(split[3]);
    let p5 = p4.push(split[4]);
    let p6 = p5.push(split[5]);
    lemma_run_push::<A, C>(j, m, p0, split[0]);
    lemma_marked::<A, C>(j, m, Category::BuildHist);
    lemma_run_push::<A, C>(j, m, p1, split[1]);
    let rated = step::<A, C>(j, m, split[1]);
    lemma_run_push::<A, C>(j, m, p2, split[2]);
    lemma_marked::<A, C>(j, rated, Category::SplitGain);
    lemma_run_push::<A, C>(j, m, p3, split[3]);
    let chosen = step::<A, C>(j, rated, split[3]);
    lemma_run_push::<A, C>(j, m, p4, split[4]);
    lemma_marked::<A, C>(j, chosen, Category::ArgmaxSplit);
    lemma_run_push::<A, C>(j, m, p5, split[5]);
    let moved = step::<A, C>(j, chosen, split[5]);
    lemma_run_push::<A, C>(j, m, p6, split[6]);
    lemma_marked::<A, C>(j, moved, Category::ApplySplit);
    assert(split =~= p6.push(split[6]));
}

/// The launches before a level is split change neither rows nor splits.
pub(crate) proof fn lemma_built_level<A: Arith, C: Accum<A>>(j: Task, m: Machine, tree: int, d: int)
    ensures
        ({
            let q = j.shape.zero_plan(d).push(Launch::Mark(Category::ZeroHist))
                + j.shape.build_plan(tree, d) + j.shape.subtract_plan(d);
            &&& alike(run::<A, C>(j, m, q), m)
            &&& run::<A, C>(j, m, j.shape.level_plan(tree, d)) == run::<A, C>(
                j,
                run::<A, C>(j, m, q),
                j.shape.split_plan(tree, d),
            )
        }),
{
    let zero = j.shape.zero_plan(d).push(Launch::Mark(Category::ZeroHist));
    let build = j.shape.build_plan(tree, d);
    let subtract = j.shape.subtract_plan(d);
    let q = zero + build + subtract;
    assert forall|i: int| 0 <= i < q.len() implies quiet(#[trigger] q[i]) by {
        if i < zero.len() {
            assert(q[i] == zero[i]);
        } else if i < zero.len() + build.len() {
            assert(q[i] == build[i - zero.len()]);
        } else {
            assert(q[i] == subtract[i - zero.len() - build.len()]);
        }
    }
    lemma_quiet::<A, C>(j, m, q);
    lemma_run_append::<A, C>(j, m, q, j.shape.split_plan(tree, d));
}

/// A row goes where the split that has been chosen sends it.
proof fn lemma_moved_row<A: Arith, C: Accum<A>>(
    j: Task,
    x: Seq<F32>,
    m: Machine,
    chosen: Machine,
    first: int,
    d: int,
    i: int,
)
    requires
        j.valid(),
        holds_rows(j, x),
        kept_sizes(j, m),
        kept_sizes(j, chosen),
        chosen.rows == m.rows,
        0 <= d < j.shape.depth,
        0 <= first,
        first + d < j.shape.n_trees * j.shape.depth,
        0 <= i < j.shape.n,
        m.rows.leaf[i] == leaf_of(
            m.pick.feat,
            m.pick.thr,
            row_of(x, i, j.shape.nf as int),
            first,
            d as nat,
        ),
        chosen.pick.split_ft[0] < j.shape.nf,
        chosen.pick.split_ft[1] < j.shape.nb - 1,
        chosen.pick.feat == m.pick.feat.update(first + d, chosen.pick.split_ft[0]),
        chosen.pick.thr == m.pick.thr.update(
            first + d,
            j.bounds[chosen.pick.split_ft[0] * (j.shape.nb - 1) + chosen.pick.split_ft[1]],
        ),
    ensures
        step::<A, C>(j, chosen, Launch::ApplySplit).rows.leaf[i] == leaf_of(
            chosen.pick.feat,
            chosen.pick.thr,
            row_of(x, i, j.shape.nf as int),
            first,
            (d + 1) as nat,
        ),
{
    reveal(step);
    let f = chosen.pick.split_ft[0] as int;
    let t = chosen.pick.split_ft[1] as int;
    let nf = j.shape.nf as int;
    let n = j.shape.n as int;
    let row = row_of(x, i, nf);
    assert forall|q: int| 0 <= q < d implies #[trigger] chosen.pick.feat[first + q]
        == m.pick.feat[first + q] && chosen.pick.thr[first + q] == m.pick.thr[first + q] by {}
    lemma_leaf_same(
        chosen.pick.feat,
        chosen.pick.thr,
        m.pick.feat,
        m.pick.thr,
        row,
        first,
        first,
        d as nat,
    );
    lemma_leaf_range(m.pick.feat, m.pick.thr, row, first, d as nat);
    assert(0 <= i * nf && i * nf + nf <= n * nf) by (nonlinear_arith)
        requires
            0 <= i < n,
            nf >= 0,
    ;
    assert(row[f] == x[i * nf + f]);
    assert(bin_splits(j, x, i, f, t));
    assert(chosen.pick.feat[first + d] == f);
    assert(chosen.pick.thr[first + d] == j.bounds[f * (j.shape.nb - 1) + t]);
    lemma_level_sizes(j.shape, d);
    assert(pow2((d + 1) as nat) <= 0x1_0000_0000) by {
        lemma2_to64();
        if d + 1 < 32 {
            lemma_pow2_strictly_increases((d + 1) as nat, 32);
        }
    }
}

/// Moving the rows changes nothing else.
proof fn lemma_applied<A: Arith, C: Accum<A>>(j: Task, m: Machine)
    ensures
        ({
            let after = step::<A, C>(j, m, Launch::ApplySplit);
            &&& after.pick == m.pick
            &&& after.leaves == m.leaves
            &&& after.rows.pred == m.rows.pred
            &&& after.rows.leaf.len() == m.rows.leaf.len()
        }),
{
    reveal(step);
}

/// A level sends the rows one level on, by the split that it adds.
proof fn lemma_level_rows<A: Arith, C: Accum<A>>(
    j: Task,
    x: Seq<F32>,
    m: Machine,
    tree: int,
    d: int,
)
    requires
        j.valid(),
        holds_rows(j, x),
        kept_sizes(j, m),
        0 <= tree < j.shape.n_trees,
        0 <= d < j.shape.depth,
        rows_follow(j, x, m, tree * j.shape.depth, d as nat),
    ensures
        ({
            let after = run::<A, C>(j, m, j.shape.level_plan(tree, d));
            let k = tree * j.shape.depth + d;
            &&& kept_sizes(j, after)
            &&& after.rows.pred == m.rows.pred
            &&& after.leaves.val == m.leaves.val
            &&& same_splits(after, m, k, k + 1)
            &&& after.pick.feat[k] < j.shape.nf
            &&& rows_follow(j, x, after, tree * j.shape.depth, (d + 1) as nat)
        }),
{
    let shape = j.shape;
    let first = tree * shape.depth;
    let k = first + d;
    let nt = shape.n_trees as int;
    let dp = shape.depth as int;
    assert(0 <= tree * dp && tree * dp + dp <= nt * dp) by (nonlinear_arith)
        requires
            0 <= tree < nt,
            dp >= 0,
    ;
    let q = shape.zero_plan(d).push(Launch::Mark(Category::ZeroHist)) + shape.build_plan(tree, d)
        + shape.subtract_plan(d);
    let m1 = run::<A, C>(j, m, q);
    lemma_built_level::<A, C>(j, m, tree, d);
    lemma_split_run::<A, C>(j, m1, tree, d);
    let side = side_of(d);
    let groups = pow2(d as nat) as u32;
    let seed = seed_of(tree as u32);
    let rated = step::<A, C>(j, m1, Launch::SplitGain { side, groups, seed });
    let chosen = step::<A, C>(j, rated, Launch::ArgmaxSplit { k: k as u32 });
    let after = run::<A, C>(j, m, shape.level_plan(tree, d));
    assert(after == step::<A, C>(j, chosen, Launch::ApplySplit));
    lemma_picked::<A, C>(j, m1, side, groups, seed, k as u32);
    lemma_applied::<A, C>(j, chosen);
    assert(same_splits(after, m, k, k + 1));
    assert forall|i: int| 0 <= i < shape.n implies #[trigger] after.rows.leaf[i] == leaf_of(
        after.pick.feat,
        after.pick.thr,
        row_of(x, i, shape.nf as int),
        first,
        (d + 1) as nat,
    ) by {
        assert(m.rows.leaf[i] == leaf_of(
            m.pick.feat,
            m.pick.thr,
            row_of(x, i, shape.nf as int),
            first,
            d as nat,
        ));
        lemma_moved_row::<A, C>(j, x, m1, chosen, first, d, i);
    }
}

pub(crate) proof fn lemma_marked<A: Arith, C: Accum<A>>(j: Task, m: Machine, c: Category)
    ensures
        step::<A, C>(j, m, Launch::Mark(c)) == m,
{
    reveal(step);
}

/// The levels of a tree send the rows to its leaves.
proof fn lemma_levels_rows<A: Arith, C: Accum<A>>(
    j: Task,
    x: Seq<F32>,
    m: Machine,
    tree: int,
    d: nat,
)
    requires
        j.valid(),
        holds_rows(j, x),
        kept_sizes(j, m),
        0 <= tree < j.shape.n_trees,
        d <= j.shape.depth,
        forall|i: int| 0 <= i < j.shape.n ==> #[trigger] m.rows.leaf[i] == 0,
    ensures
        ({
            let after = run::<A, C>(j, m, j.shape.levels_plan(tree, d));
            let first = tree * j.shape.depth;
            &&& kept_sizes(j, after)
            &&& after.rows.pred == m.rows.pred
            &&& after.leaves.val == m.leaves.val
            &&& same_splits(after, m, first, first + d)
            &&& forall|k: int| first <= k < first + d ==> #[trigger] after.pick.feat[k] < j.shape.nf
            &&& rows_follow(j, x, after, first, d)
        }),
    decreases d,
{
    if d > 0 {
        let low = (d - 1) as nat;
        lemma_levels_rows::<A, C>(j, x, m, tree, low);
        let before = run::<A, C>(j, m, j.shape.levels_plan(tree, low));
        lemma_level_rows::<A, C>(j, x, before, tree, d - 1);
        lemma_run_append::<A, C>(
            j,
            m,
            j.shape.levels_plan(tree, low),
            j.shape.level_plan(tree, d - 1),
        );
        let after = run::<A, C>(j, m, j.shape.levels_plan(tree, d));
        let first = tree * j.shape.depth;
        assert forall|k: int| first <= k < first + d implies #[trigger] after.pick.feat[k]
            < j.shape.nf by {
            let dp = j.shape.depth as int;
            let nt = j.shape.n_trees as int;
            assert(0 <= tree * dp && tree * dp + dp <= nt * dp) by (nonlinear_arith)
                requires
                    0 <= tree < nt,
                    dp >= 0,
            ;
            if k < first + d - 1 {
                assert(before.pick.feat[k] < j.shape.nf);
                assert(after.pick.feat[k] == before.pick.feat[k]);
            }
        }
    }
}

/// The launches before the first level put all rows at the root.
proof fn lemma_head_rows<A: Arith, C: Accum<A>>(j: Task, m: Machine, tree: int)
    requires
        m.rows.leaf.len() == j.shape.n,
    ensures
        ({
            let after = run::<A, C>(j, m, j.shape.head_plan(tree));
            &&& after.rows.pred == m.rows.pred
            &&& after.pick == m.pick
            &&& after.leaves.val == m.leaves.val
            &&& after.rows.leaf.len() == j.shape.n
            &&& forall|i: int| 0 <= i < j.shape.n ==> #[trigger] after.rows.leaf[i] == 0
        }),
{
    let head = j.shape.head_plan(tree);
    let first = head.take(head.len() - 2);
    assert forall|i: int| 0 <= i < first.len() implies quiet(#[trigger] first[i]) by {}
    lemma_quiet::<A, C>(j, m, first);
    let m1 = run::<A, C>(j, m, first);
    lemma_run_push::<A, C>(j, m, first, Launch::ZeroLeaf);
    let m2 = step::<A, C>(j, m1, Launch::ZeroLeaf);
    lemma_run_push::<A, C>(
        j,
        m,
        first.push(Launch::ZeroLeaf),
        Launch::Mark(Category::Gradients),
    );
    assert(head =~= first.push(Launch::ZeroLeaf).push(Launch::Mark(Category::Gradients)));
    lemma_marked::<A, C>(j, m2, Category::Gradients);
    reveal(step);
}

/// The launches after the last level write the values of the leaves, and add to each score
/// the value of the leaf that the row is at.
proof fn lemma_tail_rows<A: Arith, C: Accum<A>>(j: Task, m: Machine, tree: int)
    requires
        m.rows.pred.len() == j.shape.n,
        0 <= tree * j.shape.leaves() <= u32::MAX,
    ensures
        ({
            let after = run::<A, C>(j, m, j.shape.tail_plan(tree));
            let base = tree * j.shape.leaves();
            &&& after.rows.leaf == m.rows.leaf
            &&& after.pick == m.pick
            &&& after.rows.pred.len() == j.shape.n
            &&& after.leaves.val.len() == m.leaves.val.len()
            &&& forall|k: int|
                0 <= k < m.leaves.val.len() && !(base <= k < base + j.shape.leaves())
                    ==> #[trigger] after.leaves.val[k] == m.leaves.val[k]
            &&& forall|i: int|
                0 <= i < j.shape.n ==> #[trigger] after.rows.pred[i] == sum32::<A>(
                    m.rows.pred[i],
                    after.leaves.val[base + m.rows.leaf[i]],
                )
        }),
{
    let tail = j.shape.tail_plan(tree);
    let base = (tree * j.shape.leaves()) as u32;
    let e = tail.len() - 4;
    let p0 = tail.take(e);
    assert forall|i: int| 0 <= i < p0.len() implies quiet(#[trigger] p0[i]) by {}
    lemma_quiet::<A, C>(j, m, p0);
    let m0 = run::<A, C>(j, m, p0);
    let p1 = p0.push(Launch::LeafValues { base });
    let p2 = p1.push(Launch::Mark(Category::LeafValues));
    let p3 = p2.push(Launch::UpdatePred { base });
    lemma_run_push::<A, C>(j, m, p0, Launch::LeafValues { base });
    let m1 = step::<A, C>(j, m0, Launch::LeafValues { base });
    lemma_run_push::<A, C>(j, m, p1, Launch::Mark(Category::LeafValues));
    lemma_marked::<A, C>(j, m1, Category::LeafValues);
    lemma_run_push::<A, C>(j, m, p2, Launch::UpdatePred { base });
    let m2 = step::<A, C>(j, m1, Launch::UpdatePred { base });
    lemma_run_push::<A, C>(j, m, p3, Launch::Mark(Category::UpdatePred));
    lemma_marked::<A, C>(j, m2, Category::UpdatePred);
    assert(tail =~= p3.push(Launch::Mark(Category::UpdatePred)));
    lemma_pow2_pos(j.shape.depth as nat);
    reveal(step);
}

/// A tree adds to each score the value of the leaf that its splits send the row to.
proof fn lemma_tree_rows<A: Arith, C: Accum<A>>(j: Task, x: Seq<F32>, m: Machine, tree: int)
    requires
        j.valid(),
        holds_rows(j, x),
        kept_sizes(j, m),
        0 <= tree < j.shape.n_trees,
    ensures
        ({
            let after = run::<A, C>(j, m, j.shape.tree_plan(tree));
            let first = tree * j.shape.depth;
            let base = tree * j.shape.leaves();
            &&& kept_sizes(j, after)
            &&& same_splits(after, m, first, first + j.shape.depth)
            &&& forall|k: int|
                first <= k < first + j.shape.depth ==> #[trigger] after.pick.feat[k] < j.shape.nf
            &&& forall|k: int|
                0 <= k < m.leaves.val.len() && !(base <= k < base + j.shape.leaves())
                    ==> #[trigger] after.leaves.val[k] == m.leaves.val[k]
            &&& forall|i: int|
                0 <= i < j.shape.n ==> #[trigger] after.rows.pred[i] == sum32::<A>(
                    m.rows.pred[i],
                    after.leaves.val[base + leaf_of(
                        after.pick.feat,
                        after.pick.thr,
                        row_of(x, i, j.shape.nf as int),
                        first,
                        j.shape.depth as nat,
                    )],
                )
        }),
{
    let head = j.shape.head_plan(tree);
    let levels = j.shape.levels_plan(tree, j.shape.depth as nat);
    let tail = j.shape.tail_plan(tree);
    lemma_run_append::<A, C>(j, m, head + levels, tail);
    lemma_run_append::<A, C>(j, m, head, levels);
    lemma_head_rows::<A, C>(j, m, tree);
    let m1 = run::<A, C>(j, m, head);
    lemma_levels_rows::<A, C>(j, x, m1, tree, j.shape.depth as nat);
    let m2 = run::<A, C>(j, m1, levels);
    let l = j.shape.leaves();
    let nt = j.shape.n_trees as int;
    lemma_pow2_pos(j.shape.depth as nat);
    assert(0 <= tree * l && tree * l + l <= nt * l) by (nonlinear_arith)
        requires
            0 <= tree < nt,
            l >= 0,
    ;
    lemma_tail_rows::<A, C>(j, m2, tree);
    let after = run::<A, C>(j, m, j.shape.tree_plan(tree));
    assert forall|i: int| 0 <= i < j.shape.n implies #[trigger] after.rows.pred[i] == sum32::<A>(
        m.rows.pred[i],
        after.leaves.val[tree * j.shape.leaves() + leaf_of(
            after.pick.feat,
            after.pick.thr,
            row_of(x, i, j.shape.nf as int),
            tree * j.shape.depth,
            j.shape.depth as nat,
        )],
    ) by {
        assert(m2.rows.leaf[i] == leaf_of(
            m2.pick.feat,
            m2.pick.thr,
            row_of(x, i, j.shape.nf as int),
            tree * j.shape.depth,
            j.shape.depth as nat,
        ));
    }
}

/// The forest that the buffers hold.
pub open spec fn forest_in(j: Task, m: Machine) -> Forest {
    Forest {
        n_features: j.shape.nf as nat,
        depth: j.shape.depth as nat,
        base: j.base,
        feat: m.pick.feat,
        thr: m.pick.thr,
        leafval: m.leaves.val,
    }
}

/// The scores that a run ends with are those that its forest gives the rows: what is computed
/// from bins while the forest grows is what is computed from features afterwards.
pub proof fn lemma_device_scores<A: Arith, C: Accum<A>>(j: Task, x: Seq<F32>, t: nat)
    requires
        j.valid(),
        holds_rows(j, x),
        t <= j.shape.n_trees,
    ensures
        forest_in(j, grown::<A, C>(j, t)).well_formed(t),
        forall|i: int|
            0 <= i < j.shape.n ==> #[trigger] grown::<A, C>(j, t).rows.pred[i] == forest_in(
                j,
                grown::<A, C>(j, t),
            ).score::<A>(row_of(x, i, j.shape.nf as int), t),
{
    lemma_device_trees::<A, C>(j, x, t);
}

proof fn lemma_device_trees<A: Arith, C: Accum<A>>(j: Task, x: Seq<F32>, t: nat)
    requires
        j.valid(),
        holds_rows(j, x),
        t <= j.shape.n_trees,
    ensures
        kept_sizes(j, grown::<A, C>(j, t)),
        forest_in(j, grown::<A, C>(j, t)).well_formed(t),
        forall|i: int|
            0 <= i < j.shape.n ==> #[trigger] grown::<A, C>(j, t).rows.pred[i] == forest_in(
                j,
                grown::<A, C>(j, t),
            ).score::<A>(row_of(x, i, j.shape.nf as int), t),
    decreases t,
{
    let nt = j.shape.n_trees as int;
    let dp = j.shape.depth as int;
    let l = j.shape.leaves();
    lemma_pow2_pos(j.shape.depth as nat);
    lemma_level_sizes(j.shape, 0);
    if t == 0 {
        assert(0 * dp == 0 && 0 * l == 0);
        assert(0 <= nt * dp && 0 <= nt * l) by (nonlinear_arith)
            requires
                nt >= 0,
                dp >= 0,
                l >= 0,
        ;
    } else {
        let low = (t - 1) as nat;
        lemma_device_trees::<A, C>(j, x, low);
        let before = grown::<A, C>(j, low);
        let after = grown::<A, C>(j, t);
        lemma_tree_rows::<A, C>(j, x, before, low as int);
        let a = forest_in(j, after);
        let b = forest_in(j, before);
        assert(t * dp == low * dp + dp && t * l == low * l + l && 0 <= low * dp && 0 <= low * l
            && t * dp <= nt * dp && t * l <= nt * l) by (nonlinear_arith)
            requires
                t == low + 1,
                0 <= low,
                t <= nt,
                dp >= 0,
                l >= 0,
        ;
        assert forall|k: int| 0 <= k < t * dp implies #[trigger] after.pick.feat[k] < j.shape.nf by {
            if k < low * dp {
                assert(before.pick.feat[k] < j.shape.nf);
            }
        }
        assert forall|i: int| 0 <= i < j.shape.n implies #[trigger] after.rows.pred[i] == a.score::<
            A,
        >(row_of(x, i, j.shape.nf as int), t) by {
            let row = row_of(x, i, j.shape.nf as int);
            assert(before.rows.pred[i] == b.score::<A>(row, low));
            lemma_score_same::<A>(a, b, row, low);
        }
    }
}

/// The buffers when the rows have reached the leaves of a tree whose values are still to be
/// computed.
pub open spec fn poised<A: Arith, C: Accum<A>>(j: Task, tree: int) -> Machine {
    run::<A, C>(
        j,
        grown::<A, C>(j, tree as nat),
        j.shape.head_plan(tree) + j.shape.levels_plan(tree, j.shape.depth as nat),
    )
}

/// Before its leaf values are computed, the rows are at the leaves that the splits of the tree
/// send them to, and have the scores of the trees before it.
pub proof fn lemma_poised<A: Arith, C: Accum<A>>(j: Task, x: Seq<F32>, tree: int)
    requires
        j.valid(),
        holds_rows(j, x),
        0 <= tree < j.shape.n_trees,
    ensures
        ({
            let at = poised::<A, C>(j, tree);
            let after = grown::<A, C>(j, (tree + 1) as nat);
            &&& after == run::<A, C>(j, at, j.shape.tail_plan(tree))
            &&& at.rows.pred == grown::<A, C>(j, tree as nat).rows.pred
            &&& at.rows.pred.len() == j.shape.n
            &&& at.rows.leaf.len() == j.shape.n
            &&& at.leaves.val.len() == j.shape.n_trees * j.shape.leaves()
            &&& forall|i: int|
                0 <= i < j.shape.n ==> #[trigger] at.rows.leaf[i] < j.shape.leaves()
            &&& forall|i: int|
                0 <= i < j.shape.n ==> #[trigger] at.rows.leaf[i] == leaf_of(
                    after.pick.feat,
                    after.pick.thr,
                    row_of(x, i, j.shape.nf as int),
                    tree * j.shape.depth,
                    j.shape.depth as nat,
                )
        }),
{
    let head = j.shape.head_plan(tree);
    let levels = j.shape.levels_plan(tree, j.shape.depth as nat);
    let tail = j.shape.tail_plan(tree);
    let m = grown::<A, C>(j, tree as nat);
    lemma_device_trees::<A, C>(j, x, tree as nat);
    lemma_run_append::<A, C>(j, m, head + levels, tail);
    lemma_run_append::<A, C>(j, m, head, levels);
    lemma_head_rows::<A, C>(j, m, tree);
    let m1 = run::<A, C>(j, m, head);
    lemma_levels_rows::<A, C>(j, x, m1, tree, j.shape.depth as nat);
    let at = poised::<A, C>(j, tree);
    let l = j.shape.leaves();
    let nt = j.shape.n_trees as int;
    lemma_pow2_pos(j.shape.depth as nat);
    assert(0 <= tree * l && tree * l + l <= nt * l) by (nonlinear_arith)
        requires
            0 <= tree < nt,
            l >= 0,
    ;
    lemma_tail_rows::<A, C>(j, at, tree);
    let after = grown::<A, C>(j, (tree + 1) as nat);
    assert forall|i: int| 0 <= i < j.shape.n implies #[trigger] at.rows.leaf[i] == leaf_of(
        after.pick.feat,
        after.pick.thr,
        row_of(x, i, j.shape.nf as int),
        tree * j.shape.depth,
        j.shape.depth as nat,
    ) && at.rows.leaf[i] < l by {
        lemma_leaf_range(
            after.pick.feat,
            after.pick.thr,
            row_of(x, i, j.shape.nf as int),
            tree * j.shape.depth,
            j.shape.depth as nat,
        );
    }
}

/// Later trees change nothing in the splits and the leaf values of a tree.
pub proof fn lemma_tree_kept<A: Arith, C: Accum<A>>(j: Task, x: Seq<F32>, tree: int, t: nat)
    requires
        j.valid(),
        holds_rows(j, x),
        0 <= tree < t <= j.shape.n_trees,
    ensures
        ({
            let own = grown::<A, C>(j, (tree + 1) as nat);
            let m = grown::<A, C>(j, t);
            let l = j.shape.leaves();
            let d = j.shape.depth as int;
            &&& forall|k: int|
                tree * l <= k < tree * l + l ==> #[trigger] m.leaves.val[k] == own.leaves.val[k]
            &&& forall|k: int|
                tree * d <= k < tree * d + d ==> #[trigger] m.pick.feat[k] == own.pick.feat[k]
            &&& forall|k: int|
                tree * d <= k < tree * d + d ==> #[trigger] m.pick.thr[k] == own.pick.thr[k]
        }),
    decreases t,
{
    if tree + 1 < t {
        let low = (t - 1) as nat;
        let l = j.shape.leaves();
        let d = j.shape.depth as int;
        let nt = j.shape.n_trees as int;
        lemma_tree_kept::<A, C>(j, x, tree, low);
        lemma_device_trees::<A, C>(j, x, low);
        let before = grown::<A, C>(j, low);
        lemma_tree_rows::<A, C>(j, x, before, low as int);
        lemma_pow2_pos(j.shape.depth as nat);
        assert(0 <= tree * l && tree * l + l <= low * l && low * l <= nt * l && 0 <= tree * d
            && tree * d + d <= low * d && low * d <= nt * d) by (nonlinear_arith)
            requires
                0 <= tree,
                tree + 1 <= low,
                low <= nt,
                l >= 0,
                d >= 0,
        ;
        let m = grown::<A, C>(j, t);
        let own = grown::<A, C>(j, (tree + 1) as nat);
        assert forall|k: int| tree * l <= k < tree * l + l implies #[trigger] m.leaves.val[k]
            == own.leaves.val[k] by {
            assert(before.leaves.val[k] == own.leaves.val[k]);
        }
        assert forall|k: int| tree * d <= k < tree * d + d implies #[trigger] m.pick.feat[k]
            == own.pick.feat[k] by {
            assert(before.pick.feat[k] == own.pick.feat[k]);
        }
        assert forall|k: int| tree * d <= k < tree * d + d implies #[trigger] m.pick.thr[k]
            == own.pick.thr[k] by {
            assert(before.pick.thr[k] == own.pick.thr[k]);
        }
    }
}

} // verus!
