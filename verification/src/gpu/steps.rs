//! What the leaves of trees that are grown by launches are worth.

use vstd::arithmetic::power2::lemma_pow2_pos;
use vstd::prelude::*;

use crate::arith::product32;
use crate::arith::quotient32;
use crate::arith::sum32;
use crate::arith::widened;
use crate::arith::Arith;
use crate::float::F32;
use crate::float::F64;
use crate::float::ONE32;
use crate::gpu::acc::Accum;
use crate::gpu::hist::folded;
use crate::gpu::hist::replica_sum;
use crate::gpu::hist::BLOCK;
use crate::gpu::laws::holds_rows;
use crate::gpu::laws::lemma_marked;
use crate::gpu::laws::lemma_poised;
use crate::gpu::laws::lemma_run_append;
use crate::gpu::laws::lemma_run_push;
use crate::gpu::laws::lemma_tree_kept;
use crate::gpu::laws::poised;
use crate::gpu::leaf::squares;
use crate::gpu::leaf::step_of;
use crate::gpu::leaf::variance_of;
use crate::gpu::leaf::LeafRows;
use crate::gpu::machine::run;
use crate::gpu::machine::step;
use crate::gpu::machine::zeroed;
use crate::gpu::machine::Machine;
use crate::gpu::machine::Task;
use crate::gpu::plan::Category;
use crate::gpu::plan::Launch;
use crate::gpu::plan::Shape;
use crate::gpu::rows::logistic_hessian;
use crate::gpu::run::grown;
use crate::gpu::setup::seed_of;
use crate::objective::gradient;
use crate::reals::faithful;
use crate::reals::fits32;
use crate::reals::fits64;
use crate::reals::lemma_constants;
use crate::reals::lemma_narrowed;
use crate::reals::lemma_product32;
use crate::reals::lemma_quotient32;
use crate::reals::lemma_sign32;
use crate::reals::lemma_sum32;
use crate::reals::lemma_sum64;
use crate::reals::lemma_widened;
use crate::steps::newton;
use crate::sums::lemma_part_same;
use crate::sums::lemma_part_split;
use crate::sums::part;
use crate::sums::parts_fit32;

verus! {

/// A precision adds without rounding what can be written in single precision. `reads` says which
/// real number a number of it stands for.
#[verifier::opaque]
pub open spec fn accumulates<A: Arith, C: Accum<A>>(reads: spec_fn(C, real) -> bool) -> bool {
    &&& forall|a: F32| a.finite() ==> reads(#[trigger] C::lifted(a), a.amount())
    &&& forall|x: C, y: C, p: real, q: real| #[trigger]
        reads(x, p) && #[trigger] reads(y, q) && fits32(p + q) ==> reads(x.plus(y), p + q)
    &&& forall|x: C, p: real| #[trigger] reads(x, p) && fits32(p) ==> x.lowered().means(p)
}

/// Single precision accumulates as it is.
pub proof fn lemma_single_accumulates<A: Arith>()
    requires
        faithful::<A>(),
    ensures
        accumulates::<A, F32>(|x: F32, p: real| x.means(p)),
{
    reveal(accumulates);
    let reads = |x: F32, p: real| x.means(p);
    assert forall|x: F32, y: F32, p: real, q: real| #[trigger]
        reads(x, p) && #[trigger] reads(y, q) && fits32(p + q) implies reads(
        <F32 as Accum<A>>::plus(x, y),
        p + q,
    ) by {
        lemma_sum32::<A>(x, y);
    }
}

/// Double precision accumulates what can be written in single precision.
pub proof fn lemma_double_accumulates<A: Arith>()
    requires
        faithful::<A>(),
    ensures
        accumulates::<A, F64>(|x: F64, p: real| x.means(p)),
{
    reveal(accumulates);
    let reads = |x: F64, p: real| x.means(p);
    assert forall|a: F32| a.finite() implies reads(
        #[trigger] <F64 as Accum<A>>::lifted(a),
        a.amount(),
    ) by {
        lemma_widened::<A>(a);
    }
    assert forall|x: F64, y: F64, p: real, q: real| #[trigger]
        reads(x, p) && #[trigger] reads(y, q) && fits32(p + q) implies reads(
        <F64 as Accum<A>>::plus(x, y),
        p + q,
    ) by {
        let s = p + q;
        let a = choose|a: F32| a.means(s);
        lemma_widened::<A>(a);
        assert(widened::<A>(a).means(s));
        lemma_sum64::<A>(x, y);
    }
    assert forall|x: F64, p: real| #[trigger] reads(x, p) && fits32(p) implies <F64 as Accum<
        A,
    >>::lowered(x).means(p) by {
        lemma_narrowed::<A>(x);
    }
}

proof fn lemma_lifted<A: Arith, C: Accum<A>>(reads: spec_fn(C, real) -> bool, a: F32)
    requires
        accumulates::<A, C>(reads),
        a.finite(),
    ensures
        reads(C::lifted(a), a.amount()),
{
    reveal(accumulates);
}

proof fn lemma_plus<A: Arith, C: Accum<A>>(
    reads: spec_fn(C, real) -> bool,
    x: C,
    y: C,
    p: real,
    q: real,
)
    requires
        accumulates::<A, C>(reads),
        reads(x, p),
        reads(y, q),
        fits32(p + q),
    ensures
        reads(x.plus(y), p + q),
{
    reveal(accumulates);
}

proof fn lemma_lowered<A: Arith, C: Accum<A>>(reads: spec_fn(C, real) -> bool, x: C, p: real)
    requires
        accumulates::<A, C>(reads),
        reads(x, p),
        fits32(p),
    ensures
        x.lowered().means(p),
{
    reveal(accumulates);
}

/// The copy of the leaf sums that row `i` is added to.
spec fn copy_of(r: LeafRows, i: int) -> int {
    i / BLOCK as int % r.replicas
}

proof fn lemma_place(r: LeafRows, i: int, c: int, l: int)
    requires
        0 < r.replicas,
        0 <= r.leaf[i] < r.leaves,
        0 <= l < r.leaves,
        0 <= i,
    ensures
        0 <= copy_of(r, i) < r.replicas,
        r.place(i) == c * r.leaves + l <==> copy_of(r, i) == c && r.leaf[i] == l,
{
    let k = copy_of(r, i);
    vstd::arithmetic::div_mod::lemma_mod_bound(i / BLOCK as int, r.replicas);
    let at = c * r.leaves + l;
    if r.place(i) == at {
        vstd::arithmetic::div_mod::lemma_fundamental_div_mod_converse(at, r.leaves, c, l);
        vstd::arithmetic::div_mod::lemma_fundamental_div_mod_converse(
            at,
            r.leaves,
            k,
            r.leaf[i] as int,
        );
    }
}

proof fn lemma_added<A: Arith>(r: LeafRows, vals: Seq<F32>, n: nat, k: nat, at: int)
    requires
        faithful::<A>(),
        parts_fit32(vals, n),
        k <= n,
    ensures
        r.added::<A>(F32 { bits: 0 }, vals, k, at).means(
            part(vals, k, |i: int| r.drawn::<A>(i) && r.place(i) == at),
        ),
    decreases k,
{
    let pick = |i: int| r.drawn::<A>(i) && r.place(i) == at;
    lemma_constants();
    if k > 0 {
        lemma_added::<A>(r, vals, n, (k - 1) as nat, at);
        assert(fits32(part(vals, k, pick)));
        let before = r.added::<A>(F32 { bits: 0 }, vals, (k - 1) as nat, at);
        if pick(k - 1) {
            lemma_sum32::<A>(before, vals[k - 1]);
        }
    }
}

proof fn lemma_copies<A: Arith, C: Accum<A>>(
    reads: spec_fn(C, real) -> bool,
    r: LeafRows,
    sums: Seq<F32>,
    vals: Seq<F32>,
    n: nat,
    c: nat,
    l: int,
)
    requires
        faithful::<A>(),
        accumulates::<A, C>(reads),
        parts_fit32(vals, n),
        0 < c <= r.replicas,
        0 <= l < r.leaves,
        forall|i: int| 0 <= i < n ==> #[trigger] r.leaf[i] < r.leaves,
        forall|q: int|
            0 <= q < r.replicas ==> sums[#[trigger] (q * r.leaves) + l] == r.added::<A>(
                F32 { bits: 0 },
                vals,
                n,
                q * r.leaves + l,
            ),
    ensures
        reads(
            replica_sum::<A, C>(sums, r.leaves, l, c),
            part(vals, n, |i: int| r.drawn::<A>(i) && r.leaf[i] == l && copy_of(r, i) < c),
        ),
    decreases c,
{
    let upto = |i: int| r.drawn::<A>(i) && r.leaf[i] == l && copy_of(r, i) < c;
    let last = c - 1;
    let at = last * r.leaves + l;
    let own = |i: int| r.drawn::<A>(i) && r.place(i) == at;
    lemma_added::<A>(r, vals, n, n, at);
    assert(sums[(last * r.leaves) + l] == r.added::<A>(F32 { bits: 0 }, vals, n, at));
    assert(fits32(part(vals, n, upto)));
    lemma_lifted::<A, C>(reads, sums[at]);
    if c == 1 {
        assert(0 * r.leaves == 0);
        assert forall|i: int| 0 <= i < n implies #[trigger] own(i) == upto(i) by {
            lemma_place(r, i, last, l);
        }
        lemma_part_same(vals, n, own, upto);
    } else {
        lemma_copies::<A, C>(reads, r, sums, vals, n, (c - 1) as nat, l);
        let before = |i: int|
            r.drawn::<A>(i) && r.leaf[i] == l && copy_of(r, i) < (c - 1) as nat;
        assert forall|i: int| 0 <= i < n implies #[trigger] upto(i) == (before(i) || own(i)) && !(
        before(i) && own(i)) by {
            lemma_place(r, i, last, l);
        }
        lemma_part_split(vals, n, upto, before, own);
        let x = replica_sum::<A, C>(sums, r.leaves, l, (c - 1) as nat);
        let y = C::lifted(sums[at]);
        lemma_plus::<A, C>(reads, x, y, part(vals, n, before), sums[at].amount());
    }
}

/// The rows that are drawn and at leaf `l`.
pub open spec fn at_leaf<A: Arith>(r: LeafRows, l: int) -> spec_fn(int) -> bool {
    |i: int| r.drawn::<A>(i) && r.leaf[i] == l
}

/// The sum of the values of those of the first `n` rows that are drawn and at leaf `l`.
pub open spec fn drawn_at<A: Arith>(r: LeafRows, vals: Seq<F32>, n: nat, l: int) -> real {
    part(vals, n, at_leaf::<A>(r, l))
}

/// What stands for leaf `l` after the rows have been added up and the copies folded.
pub(crate) open spec fn leaf_total<A: Arith, C: Accum<A>>(
    r: LeafRows,
    zeros: Seq<F32>,
    vals: Seq<F32>,
    n: nat,
) -> Seq<F32> {
    let sums = r.summed::<A>(zeros, vals, n);
    if r.replicas > 1 {
        folded::<A, C>(sums, r.replicas as nat, r.leaves as nat)
    } else {
        sums
    }
}

proof fn lemma_leaf_total<A: Arith, C: Accum<A>>(
    reads: spec_fn(C, real) -> bool,
    r: LeafRows,
    zeros: Seq<F32>,
    vals: Seq<F32>,
    n: nat,
    l: int,
)
    requires
        faithful::<A>(),
        accumulates::<A, C>(reads),
        parts_fit32(vals, n),
        0 < r.replicas,
        0 <= l < r.leaves,
        forall|i: int| 0 <= i < n ==> #[trigger] r.leaf[i] < r.leaves,
        zeros.len() == r.replicas * r.leaves,
        forall|p: int| 0 <= p < zeros.len() ==> #[trigger] zeros[p] == (F32 { bits: 0 }),
    ensures
        leaf_total::<A, C>(r, zeros, vals, n)[l].means(drawn_at::<A>(r, vals, n, l)),
{
    let sums = r.summed::<A>(zeros, vals, n);
    let all = at_leaf::<A>(r, l);
    assert forall|q: int| 0 <= q < r.replicas implies sums[#[trigger] (q * r.leaves) + l]
        == r.added::<A>(F32 { bits: 0 }, vals, n, q * r.leaves + l) by {
        assert(0 <= q * r.leaves && q * r.leaves + l < r.replicas * r.leaves) by (nonlinear_arith)
            requires
                0 <= q < r.replicas,
                0 <= l < r.leaves,
        ;
    }
    assert(l < r.replicas * r.leaves) by (nonlinear_arith)
        requires
            0 <= l < r.leaves,
            r.replicas >= 1,
    ;
    assert(fits32(part(vals, n, all)));
    if r.replicas > 1 {
        let c = r.replicas as nat;
        lemma_copies::<A, C>(reads, r, sums, vals, n, c, l);
        let upto = |i: int| r.drawn::<A>(i) && r.leaf[i] == l && copy_of(r, i) < c;
        assert forall|i: int| 0 <= i < n implies #[trigger] upto(i) == all(i) by {
            lemma_place(r, i, 0, l);
        }
        lemma_part_same(vals, n, upto, all);
        lemma_lowered::<A, C>(
            reads,
            replica_sum::<A, C>(sums, r.leaves, l, c),
            part(vals, n, all),
        );
    } else {
        assert(0 * r.leaves == 0);
        assert(sums[(0 * r.leaves) + l] == r.added::<A>(F32 { bits: 0 }, vals, n, l));
        lemma_added::<A>(r, vals, n, n, l);
        let own = |i: int| r.drawn::<A>(i) && r.place(i) == l;
        assert forall|i: int| 0 <= i < n implies #[trigger] own(i) == all(i) by {
            lemma_place(r, i, 0, l);
        }
        lemma_part_same(vals, n, own, all);
    }
}

/// The buffers of two machines have the same sizes where rows and leaf sums are concerned.
spec fn same_sizes(a: Machine, b: Machine) -> bool {
    &&& a.rows.g.len() == b.rows.g.len()
    &&& a.rows.h.len() == b.rows.h.len()
    &&& a.leaves.g.len() == b.leaves.g.len()
    &&& a.leaves.h.len() == b.leaves.h.len()
    &&& a.leaves.g2.len() == b.leaves.g2.len()
    &&& a.leaves.val.len() == b.leaves.val.len()
    &&& a.leaves.var.len() == b.leaves.var.len()
}

proof fn lemma_sizes<A: Arith, C: Accum<A>>(j: Task, m: Machine, ls: Seq<Launch>)
    ensures
        same_sizes(run::<A, C>(j, m, ls), m),
    decreases ls.len(),
{
    if ls.len() > 0 {
        let k = step::<A, C>(j, m, ls[0]);
        assert(same_sizes(k, m)) by {
            reveal(step);
        }
        lemma_sizes::<A, C>(j, k, ls.skip(1));
    }
}

proof fn lemma_grown_sizes<A: Arith, C: Accum<A>>(j: Task, t: nat)
    ensures
        same_sizes(grown::<A, C>(j, t), grown::<A, C>(j, 0)),
    decreases t,
{
    if t > 0 {
        lemma_grown_sizes::<A, C>(j, (t - 1) as nat);
        lemma_sizes::<A, C>(j, grown::<A, C>(j, (t - 1) as nat), j.shape.tree_plan(t - 1));
    }
}

/// Launches that leave gradients as they are.
pub(crate) open spec fn spares_gradients(l: Launch) -> bool {
    match l {
        Launch::GradLogistic => false,
        Launch::GradL2 => false,
        Launch::GossApply { .. } => false,
        _ => true,
    }
}

/// Launches that leave gradients and hessians as they are.
pub(crate) open spec fn spares_derivatives(l: Launch) -> bool {
    match l {
        Launch::HessClamp => false,
        _ => spares_gradients(l),
    }
}

proof fn lemma_gradients_spared<A: Arith, C: Accum<A>>(j: Task, m: Machine, ls: Seq<Launch>)
    requires
        forall|i: int| 0 <= i < ls.len() ==> spares_gradients(#[trigger] ls[i]),
    ensures
        run::<A, C>(j, m, ls).rows.g == m.rows.g,
        (forall|i: int| 0 <= i < ls.len() ==> spares_derivatives(#[trigger] ls[i])) ==> run::<
            A,
            C,
        >(j, m, ls).rows.h == m.rows.h,
    decreases ls.len(),
{
    if ls.len() > 0 {
        assert(spares_gradients(ls[0]));
        let k = step::<A, C>(j, m, ls[0]);
        assert(k.rows.g == m.rows.g && (spares_derivatives(ls[0]) ==> k.rows.h == m.rows.h)) by {
            reveal(step);
        }
        assert forall|i: int| 0 <= i < ls.skip(1).len() implies spares_gradients(
            #[trigger] ls.skip(1)[i],
        ) by {
            assert(ls.skip(1)[i] == ls[i + 1]);
        }
        lemma_gradients_spared::<A, C>(j, k, ls.skip(1));
        if forall|i: int| 0 <= i < ls.len() ==> spares_derivatives(#[trigger] ls[i]) {
            assert(spares_derivatives(ls[0]));
            assert forall|i: int| 0 <= i < ls.skip(1).len() implies spares_derivatives(
                #[trigger] ls.skip(1)[i],
            ) by {
                assert(ls.skip(1)[i] == ls[i + 1]);
            }
        }
    }
}

/// Levels change neither gradients nor hessians.
pub(crate) proof fn lemma_levels_spare(s: Shape, tree: int, d: nat)
    ensures
        forall|i: int|
            0 <= i < s.levels_plan(tree, d).len() ==> spares_derivatives(
                #[trigger] s.levels_plan(tree, d)[i],
            ) && !(s.levels_plan(tree, d)[i] is LeafValues),
    decreases d,
{
    if d > 0 {
        let low = (d - 1) as nat;
        lemma_levels_spare(s, tree, low);
        let before = s.levels_plan(tree, low);
        let zero = s.zero_plan(d - 1).push(Launch::Mark(Category::ZeroHist));
        let build = s.build_plan(tree, d - 1);
        let subtract = s.subtract_plan(d - 1);
        let next = s.split_plan(tree, d - 1);
        let level = s.level_plan(tree, d - 1);
        assert forall|i: int| 0 <= i < s.levels_plan(tree, d).len() implies spares_derivatives(
            #[trigger] s.levels_plan(tree, d)[i],
        ) && !(s.levels_plan(tree, d)[i] is LeafValues) by {
            if i < before.len() {
                assert(s.levels_plan(tree, d)[i] == before[i]);
            } else {
                let k = i - before.len();
                assert(s.levels_plan(tree, d)[i] == level[k]);
                if k < zero.len() {
                    assert(level[k] == zero[k]);
                } else if k < zero.len() + build.len() {
                    assert(level[k] == build[k - zero.len()]);
                } else if k < zero.len() + build.len() + subtract.len() {
                    assert(level[k] == subtract[k - zero.len() - build.len()]);
                } else {
                    assert(level[k] == next[k - zero.len() - build.len() - subtract.len()]);
                }
            }
        }
    }
}

/// There is room for the gradients of all rows, for all copies of the leaf sums, and for all
/// leaf values.
pub(crate) open spec fn has_sums(j: Task, m: Machine) -> bool {
    let values = j.shape.n_trees * j.shape.leaves();
    let sums = j.shape.replicas * j.shape.leaves();
    &&& m.rows.g.len() == j.shape.n
    &&& m.rows.h.len() == j.shape.n
    &&& m.leaves.g.len() == sums
    &&& m.leaves.h.len() == sums
    &&& m.leaves.g2.len() == sums
    &&& m.leaves.val.len() == values
    &&& m.leaves.var.len() == values
}

proof fn lemma_fresh_sums<A: Arith, C: Accum<A>>(j: Task)
    ensures
        has_sums(j, grown::<A, C>(j, 0)),
{
    let leaves = j.shape.leaves();
    lemma_pow2_pos(j.shape.depth as nat);
    assert(0 <= j.shape.replicas * leaves && 0 <= j.shape.n_trees * leaves) by (nonlinear_arith)
        requires
            0 <= j.shape.replicas,
            0 <= j.shape.n_trees,
            0 <= leaves,
    ;
}

pub(crate) proof fn lemma_poised_sums<A: Arith, C: Accum<A>>(j: Task, tree: int)
    requires
        0 <= tree,
    ensures
        has_sums(j, grown::<A, C>(j, tree as nat)),
        has_sums(j, poised::<A, C>(j, tree)),
{
    lemma_fresh_sums::<A, C>(j);
    lemma_grown_sizes::<A, C>(j, tree as nat);
    lemma_sizes::<A, C>(
        j,
        grown::<A, C>(j, tree as nat),
        j.shape.head_plan(tree) + j.shape.levels_plan(tree, j.shape.depth as nat),
    );
}

/// After the first launch of a tree, nothing but sampling and clamping changes gradients and
/// hessians.
proof fn lemma_rest_spares(s: Shape, tree: int)
    requires
        !s.goss,
    ensures
        ({
            let rest = s.head_plan(tree).skip(1) + s.levels_plan(tree, s.depth as nat);
            &&& s.head_plan(tree).len() > 0
            &&& s.head_plan(tree)[0] == (if s.logistic {
                Launch::GradLogistic
            } else {
                Launch::GradL2
            })
            &&& (s.head_plan(tree) + s.levels_plan(tree, s.depth as nat)).skip(1) == rest
            &&& forall|q: int| 0 <= q < rest.len() ==> spares_gradients(#[trigger] rest[q])
            &&& !s.clamp ==> forall|q: int|
                0 <= q < rest.len() ==> spares_derivatives(#[trigger] rest[q])
        }),
{
    let head = s.head_plan(tree);
    let levels = s.levels_plan(tree, s.depth as nat);
    let rest = head.skip(1) + levels;
    lemma_levels_spare(s, tree, s.depth as nat);
    assert((head + levels).skip(1) =~= rest);
    assert forall|q: int| 0 <= q < rest.len() implies spares_gradients(#[trigger] rest[q]) && (
    !s.clamp ==> spares_derivatives(rest[q])) by {
        if q < head.len() - 1 {
            assert(rest[q] == head[q + 1]);
        } else {
            assert(rest[q] == levels[q - (head.len() - 1)]);
            assert(spares_derivatives(levels[q - (head.len() - 1)]));
        }
    }
}

/// What the launch for gradients leaves of row `i`.
proof fn lemma_gradient_step<A: Arith, C: Accum<A>>(j: Task, m: Machine, i: int)
    requires
        0 <= i < j.shape.n,
        m.rows.g.len() == j.shape.n,
        m.rows.h.len() == j.shape.n,
    ensures
        ({
            let k = step::<A, C>(
                j,
                m,
                if j.shape.logistic {
                    Launch::GradLogistic
                } else {
                    Launch::GradL2
                },
            );
            let p = m.rows.pred[i];
            &&& k.rows.g[i] == gradient::<A>(j.shape.logistic, p, j.y[i])
            &&& k.rows.h[i] == (if j.shape.logistic {
                logistic_hessian::<A>(p)
            } else {
                F32 { bits: ONE32 }
            })
        }),
{
    reveal(step);
}

/// The gradients and hessians that a tree is grown from are those at the scores of the trees
/// before it, where neither sampling nor clamping changes them.
pub proof fn lemma_poised_derivatives<A: Arith, C: Accum<A>>(j: Task, tree: int, i: int)
    requires
        !j.shape.goss,
        0 <= tree,
        0 <= i < j.shape.n,
    ensures
        ({
            let at = poised::<A, C>(j, tree);
            let p = grown::<A, C>(j, tree as nat).rows.pred[i];
            &&& at.rows.g.len() == j.shape.n
            &&& at.rows.h.len() == j.shape.n
            &&& at.rows.g[i] == gradient::<A>(j.shape.logistic, p, j.y[i])
            &&& !j.shape.clamp && !j.shape.logistic ==> at.rows.h[i] == (F32 { bits: ONE32 })
            &&& !j.shape.clamp && j.shape.logistic ==> at.rows.h[i] == logistic_hessian::<A>(p)
        }),
{
    let m = grown::<A, C>(j, tree as nat);
    let head = j.shape.head_plan(tree);
    let levels = j.shape.levels_plan(tree, j.shape.depth as nat);
    let rest = head.skip(1) + levels;
    lemma_poised_sums::<A, C>(j, tree);
    lemma_rest_spares(j.shape, tree);
    let k = step::<A, C>(j, m, head[0]);
    assert((head + levels)[0] == head[0]);
    assert(poised::<A, C>(j, tree) == run::<A, C>(j, k, rest));
    lemma_gradient_step::<A, C>(j, m, i);
    lemma_gradients_spared::<A, C>(j, k, rest);
}

/// The launches after the last level enter the values of the leaves: steps by the sums over the
/// rows at them.
#[verifier::rlimit(60)]
#[verifier::spinoff_prover]
pub(crate) proof fn lemma_tail_values<A: Arith, C: Accum<A>>(j: Task, m: Machine, tree: int, l: int)
    requires
        j.shape.well_formed(),
        0 <= tree < j.shape.n_trees,
        0 <= l < j.shape.leaves(),
        m.leaves.val.len() == j.shape.n_trees * j.shape.leaves(),
        m.leaves.var.len() == j.shape.n_trees * j.shape.leaves(),
        m.leaves.g.len() == j.shape.replicas * j.shape.leaves(),
        m.leaves.h.len() == j.shape.replicas * j.shape.leaves(),
        m.leaves.g2.len() == j.shape.replicas * j.shape.leaves(),
    ensures
        ({
            let r = j.leaf_rows(m.rows.leaf, seed_of(tree as u32));
            let n = j.shape.n as nat;
            let total = (j.shape.replicas * j.shape.leaves()) as nat;
            let after = run::<A, C>(j, m, j.shape.tail_plan(tree)).leaves;
            let place = tree * j.shape.leaves() + l;
            let g = leaf_total::<A, C>(r, zeroed(m.leaves.g, total), m.rows.g, n)[l];
            let h = leaf_total::<A, C>(r, zeroed(m.leaves.h, total), m.rows.h, n)[l];
            let g2 = leaf_total::<A, C>(
                r,
                zeroed(m.leaves.g2, total),
                squares::<A>(m.rows.g),
                n,
            )[l];
            &&& after.val[place] == step_of::<A>(g, h, j.lr, j.lambda)
            &&& after.var[place] == variance_of::<A>(g, h, g2, j.lr)
        }),
{
    let tail = j.shape.tail_plan(tree);
    let total = (j.shape.replicas * j.shape.leaves()) as u32;
    let base = (tree * j.shape.leaves()) as u32;
    let seed = seed_of(tree as u32);
    let leaves = j.shape.leaves();
    let nt = j.shape.n_trees as int;
    lemma_pow2_pos(j.shape.depth as nat);
    assert(0 <= tree * leaves && tree * leaves + leaves <= nt * leaves) by (nonlinear_arith)
        requires
            0 <= tree < nt,
            leaves >= 0,
    ;
    assert(0 <= j.shape.replicas * leaves) by (nonlinear_arith)
        requires
            0 <= j.shape.replicas,
            0 <= leaves,
    ;
    let none = Seq::<Launch>::empty();
    let z1 = Launch::ZeroLeafSums { len: total };
    let z2 = Launch::ZeroLeafSquares { len: total };
    let add = Launch::LeafHist { seed };
    let p1 = none.push(z1);
    let p2 = p1.push(z2);
    let p3 = p2.push(add);
    lemma_run_push::<A, C>(j, m, none, z1);
    lemma_run_push::<A, C>(j, m, p1, z2);
    lemma_run_push::<A, C>(j, m, p2, add);
    let m1 = step::<A, C>(j, m, z1);
    let m2 = step::<A, C>(j, m1, z2);
    let m3 = step::<A, C>(j, m2, add);
    let p5 = if j.shape.replicas > 1 {
        p3.push(Launch::ReduceLeafSums).push(Launch::ReduceLeafSquares)
    } else {
        p3
    };
    let m5 = if j.shape.replicas > 1 {
        step::<A, C>(
            j,
            step::<A, C>(j, m3, Launch::ReduceLeafSums),
            Launch::ReduceLeafSquares,
        )
    } else {
        m3
    };
    if j.shape.replicas > 1 {
        lemma_run_push::<A, C>(j, m, p3, Launch::ReduceLeafSums);
        lemma_run_push::<A, C>(
            j,
            m,
            p3.push(Launch::ReduceLeafSums),
            Launch::ReduceLeafSquares,
        );
    }
    let p6 = p5.push(Launch::Mark(Category::LeafHist));
    let p7 = p6.push(Launch::LeafValues { base });
    let p8 = p7.push(Launch::Mark(Category::LeafValues));
    let p9 = p8.push(Launch::UpdatePred { base });
    lemma_run_push::<A, C>(j, m, p5, Launch::Mark(Category::LeafHist));
    lemma_marked::<A, C>(j, m5, Category::LeafHist);
    lemma_run_push::<A, C>(j, m, p6, Launch::LeafValues { base });
    let m7 = step::<A, C>(j, m5, Launch::LeafValues { base });
    lemma_run_push::<A, C>(j, m, p7, Launch::Mark(Category::LeafValues));
    lemma_marked::<A, C>(j, m7, Category::LeafValues);
    lemma_run_push::<A, C>(j, m, p8, Launch::UpdatePred { base });
    let m9 = step::<A, C>(j, m7, Launch::UpdatePred { base });
    lemma_run_push::<A, C>(j, m, p9, Launch::Mark(Category::UpdatePred));
    lemma_marked::<A, C>(j, m9, Category::UpdatePred);
    assert(tail =~= p9.push(Launch::Mark(Category::UpdatePred)));
    assert(run::<A, C>(j, m, none) == m);
    reveal(step);
}

/// The steps towards a leaf value can be written in single precision.
pub open spec fn step_fits(g: real, h: real, lr: real, lambda: real) -> bool {
    &&& h + lambda != 0real
    &&& fits32(h + lambda)
    &&& fits32(-(lr * g))
    &&& fits32(-(lr * g) / (h + lambda))
}

proof fn lemma_step<A: Arith>(g: F32, h: F32, lr: F32, lambda: F32)
    requires
        faithful::<A>(),
        g.finite(),
        h.finite(),
        lr.finite(),
        lambda.finite(),
        step_fits(g.amount(), h.amount(), lr.amount(), lambda.amount()),
    ensures
        step_of::<A>(g, h, lr, lambda).finite(),
        newton(
            step_of::<A>(g, h, lr, lambda).amount(),
            g.amount(),
            h.amount(),
            lr.amount(),
            lambda.amount(),
        ),
{
    lemma_sign32(lr);
    let a = lr.amount();
    let b = g.amount();
    assert((-a) * b == -(a * b)) by (nonlinear_arith);
    lemma_product32::<A>(lr.opposite(), g);
    lemma_sum32::<A>(h, lambda);
    let top = product32::<A>(lr.opposite(), g);
    let bottom = sum32::<A>(h, lambda);
    lemma_quotient32::<A>(top, bottom);
    let v = step_of::<A>(g, h, lr, lambda).amount();
    let x = top.amount();
    let y = bottom.amount();
    assert(v * y == x) by (nonlinear_arith)
        requires
            v == x / y,
            y != 0real,
    ;
}

/// The sum of the values of the rows that are drawn for a tree and at leaf `l`.
pub open spec fn row_total<A: Arith>(
    j: Task,
    vals: Seq<F32>,
    leaf: Seq<u32>,
    tree: int,
    l: int,
) -> real {
    drawn_at::<A>(j.leaf_rows(leaf, seed_of(tree as u32)), vals, j.shape.n as nat, l)
}

/// Buffers are zero once they have been zeroed.
proof fn lemma_zeroed(buffer: Seq<F32>, total: nat)
    requires
        buffer.len() == total,
    ensures
        zeroed(buffer, total).len() == total,
        forall|p: int| 0 <= p < total ==> #[trigger] zeroed(buffer, total)[p] == (F32 { bits: 0 }),
{
}

pub(crate) proof fn lemma_row_total<A: Arith, C: Accum<A>>(
    reads: spec_fn(C, real) -> bool,
    j: Task,
    buffer: Seq<F32>,
    vals: Seq<F32>,
    leaf: Seq<u32>,
    tree: int,
    l: int,
)
    requires
        faithful::<A>(),
        accumulates::<A, C>(reads),
        0 < j.shape.replicas,
        buffer.len() == j.shape.replicas * j.shape.leaves(),
        0 <= l < j.shape.leaves(),
        forall|i: int| 0 <= i < j.shape.n ==> #[trigger] leaf[i] < j.shape.leaves(),
        parts_fit32(vals, j.shape.n as nat),
    ensures
        leaf_total::<A, C>(
            j.leaf_rows(leaf, seed_of(tree as u32)),
            zeroed(buffer, (j.shape.replicas * j.shape.leaves()) as nat),
            vals,
            j.shape.n as nat,
        )[l].means(row_total::<A>(j, vals, leaf, tree, l)),
{
    let n = j.shape.n as nat;
    let r = j.leaf_rows(leaf, seed_of(tree as u32));
    let zeros = zeroed(buffer, (j.shape.replicas * j.shape.leaves()) as nat);
    lemma_zeroed(buffer, (j.shape.replicas * j.shape.leaves()) as nat);
    lemma_leaf_total::<A, C>(reads, r, zeros, vals, n, l);
}

proof fn lemma_tail_leaf<A: Arith, C: Accum<A>>(
    reads: spec_fn(C, real) -> bool,
    j: Task,
    m: Machine,
    tree: int,
    l: int,
)
    requires
        faithful::<A>(),
        accumulates::<A, C>(reads),
        j.shape.well_formed(),
        has_sums(j, m),
        0 <= tree < j.shape.n_trees,
        0 <= l < j.shape.leaves(),
        forall|i: int| 0 <= i < j.shape.n ==> #[trigger] m.rows.leaf[i] < j.shape.leaves(),
        j.lr.finite(),
        j.lambda.finite(),
        parts_fit32(m.rows.g, j.shape.n as nat),
        parts_fit32(m.rows.h, j.shape.n as nat),
        step_fits(
            row_total::<A>(j, m.rows.g, m.rows.leaf, tree, l),
            row_total::<A>(j, m.rows.h, m.rows.leaf, tree, l),
            j.lr.amount(),
            j.lambda.amount(),
        ),
    ensures
        ({
            let v = run::<A, C>(j, m, j.shape.tail_plan(tree)).leaves.val[tree * j.shape.leaves()
                + l];
            &&& v.finite()
            &&& newton(
                v.amount(),
                row_total::<A>(j, m.rows.g, m.rows.leaf, tree, l),
                row_total::<A>(j, m.rows.h, m.rows.leaf, tree, l),
                j.lr.amount(),
                j.lambda.amount(),
            )
        }),
{
    let n = j.shape.n as nat;
    let total = (j.shape.replicas * j.shape.leaves()) as nat;
    let r = j.leaf_rows(m.rows.leaf, seed_of(tree as u32));
    lemma_tail_values::<A, C>(j, m, tree, l);
    lemma_row_total::<A, C>(reads, j, m.leaves.g, m.rows.g, m.rows.leaf, tree, l);
    lemma_row_total::<A, C>(reads, j, m.leaves.h, m.rows.h, m.rows.leaf, tree, l);
    let g = leaf_total::<A, C>(r, zeroed(m.leaves.g, total), m.rows.g, n)[l];
    let h = leaf_total::<A, C>(r, zeroed(m.leaves.h, total), m.rows.h, n)[l];
    lemma_step::<A>(g, h, j.lr, j.lambda);
}

/// The gradient sum of a leaf, over the rows that are drawn for the tree and at the leaf.
pub open spec fn leaf_gradient<A: Arith, C: Accum<A>>(j: Task, tree: int, l: int) -> real {
    let rows = poised::<A, C>(j, tree).rows;
    row_total::<A>(j, rows.g, rows.leaf, tree, l)
}

/// The hessian sum of a leaf, over the rows that are drawn for the tree and at the leaf.
pub open spec fn leaf_hessian<A: Arith, C: Accum<A>>(j: Task, tree: int, l: int) -> real {
    let rows = poised::<A, C>(j, tree).rows;
    row_total::<A>(j, rows.h, rows.leaf, tree, l)
}

/// Where sums of gradients and of hessians are not rounded, each leaf of a run is worth a Newton
/// step over the rows that are drawn and at it, shrunk by the learning rate of the run.
pub proof fn lemma_run_leaf<A: Arith, C: Accum<A>>(
    reads: spec_fn(C, real) -> bool,
    j: Task,
    x: Seq<F32>,
    tree: int,
    t: nat,
    l: int,
)
    requires
        faithful::<A>(),
        accumulates::<A, C>(reads),
        j.valid(),
        holds_rows(j, x),
        0 <= tree < t <= j.shape.n_trees,
        0 <= l < j.shape.leaves(),
        j.lr.finite(),
        j.lambda.finite(),
        parts_fit32(poised::<A, C>(j, tree).rows.g, j.shape.n as nat),
        parts_fit32(poised::<A, C>(j, tree).rows.h, j.shape.n as nat),
        step_fits(
            leaf_gradient::<A, C>(j, tree, l),
            leaf_hessian::<A, C>(j, tree, l),
            j.lr.amount(),
            j.lambda.amount(),
        ),
    ensures
        ({
            let v = grown::<A, C>(j, t).leaves.val[tree * j.shape.leaves() + l];
            &&& v.finite()
            &&& newton(
                v.amount(),
                leaf_gradient::<A, C>(j, tree, l),
                leaf_hessian::<A, C>(j, tree, l),
                j.lr.amount(),
                j.lambda.amount(),
            )
        }),
{
    let at = poised::<A, C>(j, tree);
    lemma_poised::<A, C>(j, x, tree);
    lemma_tree_kept::<A, C>(j, x, tree, t);
    lemma_poised_sums::<A, C>(j, tree);
    lemma_tail_leaf::<A, C>(reads, j, at, tree, l);
    let k = tree * j.shape.leaves() + l;
    assert(grown::<A, C>(j, t).leaves.val[k] == grown::<A, C>(j, (tree + 1) as nat).leaves.val[k]);
}

} // verus!
