//! What the importance of a feature says of the splits that a device has chosen.

use vstd::prelude::*;

use crate::arith::counted32;
use crate::arith::sum32;
use crate::arith::Arith;
use crate::float::F32;
use crate::float::ONE32;
use crate::gpu::acc::Accum;
use crate::gpu::laws::lemma_built_level;
use crate::gpu::laws::lemma_run_append;
use crate::gpu::laws::lemma_split_run;
use crate::gpu::machine::run;
use crate::gpu::machine::step;
use crate::gpu::machine::Machine;
use crate::gpu::machine::Task;
use crate::gpu::plan::Launch;
use crate::gpu::run::grown;
use crate::gpu::split::lemma_winner;
use crate::gpu::split::winner;
use crate::gpu::split::LEAST_GAIN32;
use crate::importance::counts_up;
use crate::importance::splits_on;
use crate::reals::faithful;
use crate::reals::fits32;
use crate::reals::lemma_constants;
use crate::reals::lemma_sum32;
use crate::sums::total;

verus! {

/// The gain that level `d` is split by, with the place of the split.
pub open spec fn level_pick<A: Arith, C: Accum<A>>(
    j: Task,
    m: Machine,
    tree: int,
    d: int,
) -> (F32, int) {
    let ready = run::<A, C>(j, m, j.hist_plan(tree, d));
    let rated = step::<A, C>(j, ready, j.shape.split_plan(tree, d)[1]);
    winner(rated.pick.gains, j.shape.nf * j.shape.nb)
}

/// The gains that the first `d` levels of a tree are split by.
pub open spec fn tree_picks<A: Arith, C: Accum<A>>(
    j: Task,
    m: Machine,
    tree: int,
    d: nat,
) -> Seq<(F32, int)>
    decreases d,
{
    if d == 0 {
        Seq::empty()
    } else {
        tree_picks::<A, C>(j, m, tree, (d - 1) as nat).push(
            level_pick::<A, C>(
                j,
                run::<A, C>(j, m, j.shape.levels_plan(tree, (d - 1) as nat)),
                tree,
                d - 1,
            ),
        )
    }
}

/// The gains that the first `t` trees are split by.
pub open spec fn picks<A: Arith, C: Accum<A>>(j: Task, t: nat) -> Seq<(F32, int)>
    decreases t,
{
    if t == 0 {
        Seq::empty()
    } else {
        let before = grown::<A, C>(j, (t - 1) as nat);
        picks::<A, C>(j, (t - 1) as nat) + tree_picks::<A, C>(
            j,
            run::<A, C>(j, before, j.shape.head_plan(t - 1)),
            t - 1,
            j.shape.depth as nat,
        )
    }
}

/// A split counts towards the importance of feature `f`: it is on that feature, and its gain is
/// that of a split that may be made.
pub open spec fn counts_for(j: Task, pick: (F32, int), f: int) -> bool {
    pick.1 / j.shape.nb as int == f && (F32 { bits: LEAST_GAIN32 }).below(pick.0)
}

/// How many of the first `k` splits count towards the importance of feature `f`.
pub open spec fn counted_on(j: Task, list: Seq<(F32, int)>, f: int, k: nat) -> nat
    decreases k,
{
    if k == 0 {
        0
    } else if counts_for(j, list[k - 1], f) {
        counted_on(j, list, f, (k - 1) as nat) + 1
    } else {
        counted_on(j, list, f, (k - 1) as nat)
    }
}

proof fn lemma_counted_bound(j: Task, list: Seq<(F32, int)>, f: int, k: nat)
    ensures
        counted_on(j, list, f, k) <= k,
    decreases k,
{
    if k > 0 {
        lemma_counted_bound(j, list, f, (k - 1) as nat);
    }
}

proof fn lemma_counted_prefix(
    j: Task,
    a: Seq<(F32, int)>,
    b: Seq<(F32, int)>,
    f: int,
    k: nat,
)
    requires
        forall|i: int| 0 <= i < k ==> #[trigger] a[i] == b[i],
    ensures
        counted_on(j, a, f, k) == counted_on(j, b, f, k),
    decreases k,
{
    if k > 0 {
        lemma_counted_prefix(j, a, b, f, (k - 1) as nat);
        assert(a[k - 1] == b[k - 1]);
    }
}

proof fn lemma_counted_append(
    j: Task,
    a: Seq<(F32, int)>,
    b: Seq<(F32, int)>,
    f: int,
    k: nat,
)
    requires
        k <= b.len(),
    ensures
        counted_on(j, a + b, f, a.len() + k) == counted_on(j, a, f, a.len()) + counted_on(
            j,
            b,
            f,
            k,
        ),
    decreases k,
{
    if k > 0 {
        lemma_counted_append(j, a, b, f, (k - 1) as nat);
        assert((a + b)[a.len() + k - 1] == b[k - 1]);
        assert((a.len() + k - 1) as nat == a.len() + (k - 1) as nat);
    } else {
        lemma_counted_prefix(j, a + b, a, f, a.len());
    }
}

/// Where every split may be made, all of them count.
pub(crate) proof fn lemma_all_counted(
    j: Task,
    list: Seq<(F32, int)>,
    feat: Seq<u32>,
    f: int,
    k: nat,
)
    requires
        forall|i: int|
            0 <= i < k ==> feat[i] == (#[trigger] list[i]).1 / j.shape.nb as int && (F32 {
                bits: LEAST_GAIN32,
            }).below(list[i].0),
    ensures
        counted_on(j, list, f, k) == splits_on(feat, f, k),
    decreases k,
{
    if k > 0 {
        lemma_all_counted(j, list, feat, f, (k - 1) as nat);
        assert(feat[k - 1] == list[k - 1].1 / j.shape.nb as int);
    }
}

/// The buffers that splits are entered into have the sizes of the forest.
pub open spec fn has_room(j: Task, m: Machine) -> bool {
    &&& m.pick.gains.len() == j.shape.nf * j.shape.nb
    &&& m.pick.feat.len() == j.shape.n_trees * j.shape.depth
    &&& m.pick.fi_gain.len() == j.shape.nf
    &&& m.pick.fi_count.len() == j.shape.nf
}

/// Launches that leave splits and importances as they are.
spec fn spares_picks(l: Launch) -> bool {
    match l {
        Launch::SplitGain { .. } => false,
        Launch::ArgmaxSplit { .. } => false,
        _ => true,
    }
}

proof fn lemma_picks_spared<A: Arith, C: Accum<A>>(j: Task, m: Machine, ls: Seq<Launch>)
    requires
        forall|i: int| 0 <= i < ls.len() ==> spares_picks(#[trigger] ls[i]),
    ensures
        run::<A, C>(j, m, ls).pick == m.pick,
    decreases ls.len(),
{
    reveal(step);
    if ls.len() > 0 {
        assert(spares_picks(ls[0]));
        let k = step::<A, C>(j, m, ls[0]);
        assert(k.pick == m.pick);
        assert forall|i: int| 0 <= i < ls.skip(1).len() implies spares_picks(
            #[trigger] ls.skip(1)[i],
        ) by {
            assert(ls.skip(1)[i] == ls[i + 1]);
        }
        lemma_picks_spared::<A, C>(j, k, ls.skip(1));
    }
}

/// A level enters its split, and counts it where it may be made.
proof fn lemma_level_pick<A: Arith, C: Accum<A>>(
    j: Task,
    m: Machine,
    tree: int,
    d: int,
    f: int,
)
    requires
        j.valid(),
        has_room(j, m),
        0 <= tree < j.shape.n_trees,
        0 <= d < j.shape.depth,
        0 <= f < j.shape.nf,
    ensures
        ({
            let after = run::<A, C>(j, m, j.shape.level_plan(tree, d));
            let pick = level_pick::<A, C>(j, m, tree, d);
            &&& has_room(j, after)
            &&& 0 <= pick.1 / j.shape.nb as int
            &&& pick.1 / j.shape.nb as int <= u32::MAX
            &&& tree * j.shape.depth + d < j.shape.n_trees * j.shape.depth
            &&& after.pick.feat == m.pick.feat.update(
                tree * j.shape.depth + d,
                (pick.1 / j.shape.nb as int) as u32,
            )
            &&& after.pick.fi_count[f] == if counts_for(j, pick, f) {
                sum32::<A>(m.pick.fi_count[f], F32 { bits: ONE32 })
            } else {
                m.pick.fi_count[f]
            }
            &&& after.pick.fi_gain[f] == if counts_for(j, pick, f) {
                sum32::<A>(m.pick.fi_gain[f], pick.0)
            } else {
                m.pick.fi_gain[f]
            }
        }),
{
    let nf = j.shape.nf as int;
    let nb = j.shape.nb as int;
    let nt = j.shape.n_trees as int;
    let dp = j.shape.depth as int;
    assert(0 <= tree * dp && tree * dp + d < nt * dp) by (nonlinear_arith)
        requires
            0 <= tree < nt,
            0 <= d < dp,
    ;
    let split = j.shape.split_plan(tree, d);
    let ready = run::<A, C>(j, m, j.hist_plan(tree, d));
    lemma_built_level::<A, C>(j, m, tree, d);
    lemma_split_run::<A, C>(j, ready, tree, d);
    assert(nf * nb > 0) by (nonlinear_arith)
        requires
            nf > 0,
            nb > 0,
    ;
    let rated = step::<A, C>(j, ready, split[1]);
    assert(has_room(j, rated) && rated.pick.fi_count == m.pick.fi_count && rated.pick.fi_gain
        == m.pick.fi_gain && rated.pick.feat == m.pick.feat) by {
        reveal(step);
    }
    lemma_winner(rated.pick.gains, nf * nb);
    let pick = winner(rated.pick.gains, nf * nb);
    assert(0 <= pick.1 < nf * nb);
    let g = pick.1 / nb;
    assert(0 <= g < nf) by (nonlinear_arith)
        requires
            0 <= pick.1 < nf * nb,
            nb > 0,
            g == pick.1 / nb,
    ;
    let chosen = step::<A, C>(j, rated, split[3]);
    assert(chosen.pick.feat == m.pick.feat.update(tree * dp + d, g as u32)) by {
        reveal(step);
    }
    assert(has_room(j, chosen)) by {
        reveal(step);
    }
    assert(chosen.pick.fi_count[f] == if counts_for(j, pick, f) {
        sum32::<A>(m.pick.fi_count[f], F32 { bits: ONE32 })
    } else {
        m.pick.fi_count[f]
    }) by {
        reveal(step);
    }
    assert(chosen.pick.fi_gain[f] == if counts_for(j, pick, f) {
        sum32::<A>(m.pick.fi_gain[f], pick.0)
    } else {
        m.pick.fi_gain[f]
    }) by {
        reveal(step);
    }
    assert(step::<A, C>(j, chosen, split[5]).pick == chosen.pick) by {
        reveal(step);
    }
}

/// The splits of the first levels of a tree are entered and counted.
proof fn lemma_tree_picks<A: Arith, C: Accum<A>>(
    j: Task,
    m: Machine,
    tree: int,
    d: nat,
    f: int,
    had: nat,
    most: nat,
)
    requires
        j.valid(),
        has_room(j, m),
        0 <= tree < j.shape.n_trees,
        d <= j.shape.depth,
        0 <= f < j.shape.nf,
        counts_up::<A>(most),
        had + d <= most <= u32::MAX,
        m.pick.fi_count[f] == counted32::<A>(had as u64),
    ensures
        ({
            let after = run::<A, C>(j, m, j.shape.levels_plan(tree, d));
            let list = tree_picks::<A, C>(j, m, tree, d);
            let first = tree * j.shape.depth;
            &&& has_room(j, after)
            &&& list.len() == d
            &&& first + d <= j.shape.n_trees * j.shape.depth
            &&& forall|k: int|
                0 <= k < after.pick.feat.len() && !(first <= k < first + d)
                    ==> #[trigger] after.pick.feat[k] == m.pick.feat[k]
            &&& forall|k: int|
                0 <= k < d ==> after.pick.feat[first + k] == (#[trigger] list[k]).1
                    / j.shape.nb as int
            &&& counted_on(j, list, f, d) <= d
            &&& after.pick.fi_count[f] == counted32::<A>((had + counted_on(j, list, f, d)) as u64)
            &&& counted_on(j, list, f, d) == 0 ==> after.pick.fi_gain[f] == m.pick.fi_gain[f]
        }),
    decreases d,
{
    let nt = j.shape.n_trees as int;
    let dp = j.shape.depth as int;
    let first = tree * dp;
    assert(0 <= first && first + d <= nt * dp) by (nonlinear_arith)
        requires
            first == tree * dp,
            0 <= tree < nt,
            0 <= d <= dp,
    ;
    if d > 0 {
        let l = (d - 1) as nat;
        lemma_tree_picks::<A, C>(j, m, tree, l, f, had, most);
        let before = run::<A, C>(j, m, j.shape.levels_plan(tree, l));
        lemma_run_append::<A, C>(
            j,
            m,
            j.shape.levels_plan(tree, l),
            j.shape.level_plan(tree, l as int),
        );
        lemma_level_pick::<A, C>(j, before, tree, l as int, f);
        let few = tree_picks::<A, C>(j, m, tree, l);
        let list = tree_picks::<A, C>(j, m, tree, d);
        let pick = level_pick::<A, C>(j, before, tree, l as int);
        assert(list == few.push(pick));
        lemma_counted_prefix(j, few, list, f, l);
        lemma_counted_bound(j, list, f, d);
        let after = run::<A, C>(j, m, j.shape.levels_plan(tree, d));
        assert(after.pick.feat == before.pick.feat.update(
            first + l,
            (pick.1 / j.shape.nb as int) as u32,
        ));
        assert forall|k: int| 0 <= k < d implies after.pick.feat[first + k] == (
        #[trigger] list[k]).1 / j.shape.nb as int by {
            if k < l {
                assert(list[k] == few[k]);
                assert(before.pick.feat[first + k] == few[k].1 / j.shape.nb as int);
            }
        }
    }
}

proof fn lemma_head_tail_spare(j: Task, tree: int)
    ensures
        forall|i: int|
            0 <= i < j.shape.head_plan(tree).len() ==> spares_picks(
                #[trigger] j.shape.head_plan(tree)[i],
            ),
        forall|i: int|
            0 <= i < j.shape.tail_plan(tree).len() ==> spares_picks(
                #[trigger] j.shape.tail_plan(tree)[i],
            ),
{
}

/// Splits are chosen by the levels of a tree alone.
proof fn lemma_tree_frame<A: Arith, C: Accum<A>>(j: Task, t: nat)
    requires
        t > 0,
    ensures
        ({
            let before = grown::<A, C>(j, (t - 1) as nat);
            let m = run::<A, C>(j, before, j.shape.head_plan(t - 1));
            let k = run::<A, C>(j, m, j.shape.levels_plan(t - 1, j.shape.depth as nat));
            &&& m.pick == before.pick
            &&& grown::<A, C>(j, t).pick == k.pick
        }),
{
    let tree = t - 1;
    let before = grown::<A, C>(j, (t - 1) as nat);
    let head = j.shape.head_plan(tree);
    let levels = j.shape.levels_plan(tree, j.shape.depth as nat);
    let tail = j.shape.tail_plan(tree);
    let m = run::<A, C>(j, before, head);
    lemma_run_append::<A, C>(j, before, head + levels, tail);
    lemma_run_append::<A, C>(j, before, head, levels);
    lemma_head_tail_spare(j, tree);
    lemma_picks_spared::<A, C>(j, before, head);
    lemma_picks_spared::<A, C>(j, run::<A, C>(j, m, levels), tail);
}

/// On a device the count of a feature is the number of its splits that may be made, as long as
/// counting is exact; a feature without such splits has gained nothing. The splits are those of
/// the forest, in their order.
pub proof fn lemma_device_importance<A: Arith, C: Accum<A>>(j: Task, t: nat, f: int, most: nat)
    requires
        j.valid(),
        t <= j.shape.n_trees,
        0 <= f < j.shape.nf,
        counts_up::<A>(most),
        t * j.shape.depth <= most <= u32::MAX,
    ensures
        ({
            let m = grown::<A, C>(j, t);
            let list = picks::<A, C>(j, t);
            let k = (t * j.shape.depth) as nat;
            &&& has_room(j, m)
            &&& list.len() == k
            &&& k <= m.pick.feat.len()
            &&& forall|i: int|
                0 <= i < k ==> m.pick.feat[i] == (#[trigger] list[i]).1 / j.shape.nb as int
            &&& counted_on(j, list, f, k) <= k
            &&& m.pick.fi_count[f] == counted32::<A>(counted_on(j, list, f, k) as u64)
            &&& counted_on(j, list, f, k) == 0 ==> m.pick.fi_gain[f] == (F32 { bits: 0 })
        }),
    decreases t,
{
    let d = j.shape.depth as nat;
    let nt = j.shape.n_trees as nat;
    assert(t * d <= nt * d) by (nonlinear_arith)
        requires
            t <= nt,
    ;
    if t == 0 {
        assert(t * d == 0) by (nonlinear_arith)
            requires
                t == 0,
        ;
    } else {
        let l = (t - 1) as nat;
        assert(t * d == l * d + d && 0 <= l * d) by (nonlinear_arith)
            requires
                t == l + 1,
        ;
        lemma_device_importance::<A, C>(j, l, f, most);
        let before = grown::<A, C>(j, l);
        let m = run::<A, C>(j, before, j.shape.head_plan(l as int));
        let k = run::<A, C>(j, m, j.shape.levels_plan(l as int, d));
        lemma_tree_frame::<A, C>(j, t);
        let some = picks::<A, C>(j, l);
        let own = tree_picks::<A, C>(j, m, l as int, d);
        let had = counted_on(j, some, f, (l * d) as nat);
        lemma_tree_picks::<A, C>(j, m, l as int, d, f, had, most);
        lemma_counted_append(j, some, own, f, d);
        let list = picks::<A, C>(j, t);
        assert(list == some + own);
        assert forall|i: int| 0 <= i < t * d implies grown::<A, C>(j, t).pick.feat[i] == (
        #[trigger] list[i]).1 / j.shape.nb as int by {
            if i < l * d {
                assert(list[i] == some[i]);
                assert(k.pick.feat[i] == m.pick.feat[i]);
            } else {
                assert(list[i] == own[i - l * d]);
            }
        }
    }
}

/// What each split adds to the gain of feature `f`: what it gains, where it counts.
pub open spec fn earned(j: Task, list: Seq<(F32, int)>, f: int) -> spec_fn(int) -> real {
    |k: int|
        if counts_for(j, list[k], f) {
            list[k].0.amount()
        } else {
            0real
        }
}

/// The gains of the splits that count are finite, and can be added up for feature `f`.
pub open spec fn earned_fits(j: Task, list: Seq<(F32, int)>, f: int) -> bool {
    &&& forall|k: int|
        0 <= k < list.len() && counts_for(j, #[trigger] list[k], f) ==> list[k].0.finite()
    &&& forall|m: nat| m <= list.len() ==> fits32(#[trigger] total(m, earned(j, list, f)))
}

proof fn lemma_earned_prefix(
    j: Task,
    a: Seq<(F32, int)>,
    b: Seq<(F32, int)>,
    f: int,
    k: nat,
)
    requires
        forall|i: int| 0 <= i < k ==> #[trigger] a[i] == b[i],
    ensures
        total(k, earned(j, a, f)) == total(k, earned(j, b, f)),
    decreases k,
{
    if k > 0 {
        lemma_earned_prefix(j, a, b, f, (k - 1) as nat);
        assert(a[k - 1] == b[k - 1]);
    }
}

proof fn lemma_tree_earned<A: Arith, C: Accum<A>>(
    j: Task,
    m: Machine,
    tree: int,
    d: nat,
    f: int,
    had: Seq<(F32, int)>,
    all: Seq<(F32, int)>,
)
    requires
        faithful::<A>(),
        j.valid(),
        has_room(j, m),
        0 <= tree < j.shape.n_trees,
        d <= j.shape.depth,
        0 <= f < j.shape.nf,
        earned_fits(j, all, f),
        had.len() + d <= all.len(),
        forall|i: int|
            0 <= i < d ==> #[trigger] tree_picks::<A, C>(j, m, tree, d)[i] == all[had.len() + i],
        m.pick.fi_gain[f].means(total(had.len(), earned(j, all, f))),
    ensures
        has_room(j, run::<A, C>(j, m, j.shape.levels_plan(tree, d))),
        tree_picks::<A, C>(j, m, tree, d).len() == d,
        run::<A, C>(j, m, j.shape.levels_plan(tree, d)).pick.fi_gain[f].means(
            total(had.len() + d, earned(j, all, f)),
        ),
    decreases d,
{
    if d > 0 {
        let l = (d - 1) as nat;
        let few = tree_picks::<A, C>(j, m, tree, l);
        let list = tree_picks::<A, C>(j, m, tree, d);
        let before = run::<A, C>(j, m, j.shape.levels_plan(tree, l));
        let pick = level_pick::<A, C>(j, before, tree, l as int);
        assert(list == few.push(pick));
        lemma_tree_length::<A, C>(j, m, tree, l);
        assert forall|i: int| 0 <= i < l implies #[trigger] few[i] == all[had.len() + i] by {
            assert(list[i] == few[i]);
        }
        lemma_tree_earned::<A, C>(j, m, tree, l, f, had, all);
        lemma_run_append::<A, C>(
            j,
            m,
            j.shape.levels_plan(tree, l),
            j.shape.level_plan(tree, l as int),
        );
        lemma_level_pick::<A, C>(j, before, tree, l as int, f);
        let at = had.len() + l;
        assert(list[l as int] == pick);
        assert(all[had.len() + l as int] == pick);
        assert(fits32(total(at + 1, earned(j, all, f))));
        assert(total(at + 1, earned(j, all, f)) == total(at, earned(j, all, f)) + earned(
            j,
            all,
            f,
        )(at as int));
        if counts_for(j, pick, f) {
            assert(counts_for(j, all[at as int], f));
            lemma_sum32::<A>(before.pick.fi_gain[f], pick.0);
        }
    }
}

proof fn lemma_tree_length<A: Arith, C: Accum<A>>(j: Task, m: Machine, tree: int, d: nat)
    ensures
        tree_picks::<A, C>(j, m, tree, d).len() == d,
    decreases d,
{
    if d > 0 {
        lemma_tree_length::<A, C>(j, m, tree, (d - 1) as nat);
    }
}

/// On a device what a feature has gained is the sum of what the splits on it gain that may be
/// made.
pub proof fn lemma_device_credit<A: Arith, C: Accum<A>>(j: Task, t: nat, f: int)
    requires
        faithful::<A>(),
        j.valid(),
        t <= j.shape.n_trees,
        0 <= f < j.shape.nf,
        earned_fits(j, picks::<A, C>(j, t), f),
    ensures
        has_room(j, grown::<A, C>(j, t)),
        grown::<A, C>(j, t).pick.fi_gain[f].means(
            total(picks::<A, C>(j, t).len(), earned(j, picks::<A, C>(j, t), f)),
        ),
    decreases t,
{
    lemma_constants();
    if t > 0 {
        let l = (t - 1) as nat;
        let d = j.shape.depth as nat;
        let had = picks::<A, C>(j, l);
        let all = picks::<A, C>(j, t);
        let before = grown::<A, C>(j, l);
        let m = run::<A, C>(j, before, j.shape.head_plan(l as int));
        let own = tree_picks::<A, C>(j, m, l as int, d);
        lemma_tree_length::<A, C>(j, m, l as int, d);
        assert(all == had + own);
        assert forall|k: nat| k <= had.len() implies fits32(
            #[trigger] total(k, earned(j, had, f)),
        ) by {
            assert forall|i: int| 0 <= i < k implies #[trigger] had[i] == all[i] by {}
            lemma_earned_prefix(j, had, all, f, k);
            assert(fits32(total(k, earned(j, all, f))));
        }
        assert forall|k: int| 0 <= k < had.len() && counts_for(j, #[trigger] had[k], f) implies had[
            k
        ].0.finite() by {
            assert(had[k] == all[k]);
        }
        lemma_device_credit::<A, C>(j, l, f);
        assert forall|i: int| 0 <= i < had.len() implies #[trigger] had[i] == all[i] by {}
        lemma_earned_prefix(j, had, all, f, had.len());
        lemma_tree_frame::<A, C>(j, t);
        assert forall|i: int| 0 <= i < d implies #[trigger] own[i] == all[had.len() + i] by {}
        lemma_tree_earned::<A, C>(j, m, l as int, d, f, had, all);
    } else {
        assert(0 <= j.shape.n_trees * j.shape.depth && 0 <= j.shape.nf * j.shape.nb)
            by (nonlinear_arith)
            requires
                0 <= j.shape.n_trees,
                0 <= j.shape.depth,
                0 <= j.shape.nf,
                0 <= j.shape.nb,
        ;
    }
}

} // verus!
