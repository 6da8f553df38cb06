//! What the histograms of the levels of a tree hold where no sum is rounded.

use vstd::arithmetic::power2::lemma2_to64;
use vstd::arithmetic::power2::lemma_pow2_strictly_increases;
use vstd::arithmetic::power2::pow2;
use vstd::prelude::*;

use crate::arith::Arith;
use crate::cells::node_of;
use crate::exact::Scale;
use crate::float::F32;
use crate::gpu::exact::lemma_evened_exact;
use crate::gpu::exact::lemma_folded_exact;
use crate::gpu::exact::lemma_tally_same;
use crate::gpu::exact::lemma_tiled_exact;
use crate::gpu::hist::lemma_groups;
use crate::gpu::hist::Counting;
use crate::gpu::laws::lemma_marked;
use crate::gpu::laws::lemma_run_append;
use crate::gpu::laws::lemma_run_push;
use crate::gpu::laws::lemma_spared;
use crate::gpu::laws::lemma_split_run;
use crate::gpu::laws::spares;
use crate::gpu::machine::run;
use crate::gpu::machine::step;
use crate::gpu::machine::Machine;
use crate::gpu::machine::PairState;
use crate::gpu::machine::RowState;
use crate::gpu::machine::Task;
use crate::gpu::plan::lemma_level_sizes;
use crate::gpu::plan::other;
use crate::gpu::plan::side_of;
use crate::gpu::plan::Category;
use crate::gpu::plan::Launch;
use crate::gpu::plan::Side;
use crate::gpu::setup::seed_of;
use crate::gpu::setup::tiles_for;

verus! {

/// A number holds the sum over the rows that belong to cell `at`.
pub open spec fn cell_holds<A: Arith>(
    s: Scale,
    v: F32,
    vals: Seq<F32>,
    n: nat,
    c: Counting,
    at: int,
) -> bool {
    s.sums(v, vals, n, |i: int| c.belongs::<A>(i, at))
}

/// A pair of histograms holds the sums over the rows of its cells.
pub open spec fn pair_holds<A: Arith>(
    s: Scale,
    pair: PairState,
    rows: RowState,
    n: nat,
    c: Counting,
    len: int,
) -> bool {
    &&& forall|at: int|
        0 <= at < len ==> cell_holds::<A>(s, #[trigger] pair.g[at], rows.g, n, c, at)
    &&& forall|at: int|
        0 <= at < len ==> cell_holds::<A>(s, #[trigger] pair.h[at], rows.h, n, c, at)
}

impl Task {
    /// What the rows of a level with `groups` nodes are counted by.
    pub open spec fn level_counting(
        self,
        leaf: Seq<u32>,
        groups: int,
        tree: int,
        odd_only: bool,
    ) -> Counting {
        self.counting(leaf, 1, self.shape.hist_len(groups), seed_of(tree as u32), odd_only)
    }

    /// The launches of level `d` before it is split.
    pub open spec fn hist_plan(self, tree: int, d: int) -> Seq<Launch> {
        self.shape.zero_plan(d).push(Launch::Mark(Category::ZeroHist)) + self.shape.build_plan(
            tree,
            d,
        ) + self.shape.subtract_plan(d)
    }

    /// Histograms are built in single precision, and sums of gradients and hessians are exact.
    pub open spec fn sums_exactly<A: Arith>(self, s: Scale, rows: RowState) -> bool {
        &&& self.valid()
        &&& !self.shape.half
        &&& !self.shape.integer
        &&& !self.subsample.nan()
        &&& s.exact::<A>()
        &&& s.bears(rows.g, self.shape.n as nat)
        &&& s.bears(rows.h, self.shape.n as nat)
        &&& forall|v: F32| #[trigger]
            (s.whole)(v) && v.equals(F32 { bits: 0 }) ==> (s.units)(v) == 0
    }

    /// The rows are at nodes of level `d`, and there is room for all histograms.
    pub open spec fn has_rows(self, m: Machine, d: int) -> bool {
        let most = self.shape.replicas * self.shape.hist_len(self.shape.max_groups());
        &&& m.rows.leaf.len() == self.shape.n
        &&& forall|i: int| 0 <= i < self.shape.n ==> #[trigger] m.rows.leaf[i] < pow2(d as nat)
        &&& m.a.g.len() == most
        &&& m.a.h.len() == most
        &&& m.b.g.len() == most
        &&& m.b.h.len() == most
    }
}

/// The launches that zero and build the histograms of a level, without the marks.
proof fn lemma_build_run<A: Arith>(j: Task, m: Machine, tree: int, d: int)
    requires
        j.valid(),
        !j.shape.half,
        !j.shape.integer,
        j.has_rows(m, d),
        0 <= d < j.shape.depth,
    ensures
        ({
            let zero = j.shape.zero_plan(d).push(Launch::Mark(Category::ZeroHist));
            let build = j.shape.build_plan(tree, d);
            let k = run::<A, F32>(j, m, zero + build);
            let cleared = step::<A, F32>(j, m, zero[0]);
            let first = step::<A, F32>(j, cleared, build[0]);
            &&& build.len() == 1 ==> k == first
            &&& build.len() == 2 ==> k == step::<A, F32>(j, first, build[1])
            &&& k.rows == m.rows
            &&& k.pair(other(side_of(d))) == m.pair(other(side_of(d)))
            &&& j.has_rows(k, d)
        }),
{
    let zero = j.shape.zero_plan(d).push(Launch::Mark(Category::ZeroHist));
    let build = j.shape.build_plan(tree, d);
    let none: Seq<Launch> = Seq::empty();
    let z = none.push(zero[0]);
    let cleared = step::<A, F32>(j, m, zero[0]);
    lemma_run_push::<A, F32>(j, m, none, zero[0]);
    assert(zero =~= z.push(zero[1]));
    lemma_run_push::<A, F32>(j, m, z, zero[1]);
    lemma_marked::<A, F32>(j, cleared, Category::ZeroHist);
    lemma_run_append::<A, F32>(j, m, zero, build);
    lemma_run_push::<A, F32>(j, cleared, none, build[0]);
    if build.len() == 1 {
        assert(build =~= none.push(build[0]));
    } else {
        assert(build =~= none.push(build[0]).push(build[1]));
        lemma_run_push::<A, F32>(j, cleared, none.push(build[0]), build[1]);
    }
    reveal(step);
}

/// A level that is built holds the sums over the rows of its cells; with subtraction, those of
/// its odd nodes.
proof fn lemma_built<A: Arith>(s: Scale, j: Task, m: Machine, tree: int, d: int)
    requires
        j.sums_exactly::<A>(s, m.rows),
        j.has_rows(m, d),
        0 <= d < j.shape.depth,
    ensures
        ({
            let groups = pow2(d as nat) as int;
            let k = run::<A, F32>(
                j,
                m,
                j.shape.zero_plan(d).push(Launch::Mark(Category::ZeroHist)) + j.shape.build_plan(
                    tree,
                    d,
                ),
            );
            pair_holds::<A>(
                s,
                k.pair(side_of(d)),
                m.rows,
                j.shape.n as nat,
                j.level_counting(m.rows.leaf, groups, tree, j.shape.subtract && d >= 1),
                j.shape.hist_len(groups),
            )
        }),
{
    let shape = j.shape;
    let n = shape.n as nat;
    let groups = pow2(d as nat) as int;
    let len = shape.hist_len(groups);
    let side = side_of(d);
    let replicas = shape.replicas as int;
    let odd_only = shape.subtract && d >= 1;
    let zero = shape.zero_plan(d).push(Launch::Mark(Category::ZeroHist));
    let build = shape.build_plan(tree, d);
    let k = run::<A, F32>(j, m, zero + build);
    let cleared = step::<A, F32>(j, m, zero[0]);
    let c = j.level_counting(m.rows.leaf, groups, tree, odd_only);
    let rc = j.counting(m.rows.leaf, replicas, len, seed_of(tree as u32), odd_only);
    lemma_level_sizes(shape, d);
    lemma_build_run::<A>(j, m, tree, d);
    assert(cleared.rows == m.rows) by {
        reveal(step);
    }
    let zeros_g = cleared.pair(side).g;
    let zeros_h = cleared.pair(side).h;
    let cut = if shape.by_blocks(groups) {
        len
    } else {
        replicas * len
    };
    assert(forall|p: int| 0 <= p < cut ==> #[trigger] zeros_g[p] == (F32 { bits: 0 })) by {
        reveal(step);
    }
    assert(forall|p: int| 0 <= p < cut ==> #[trigger] zeros_h[p] == (F32 { bits: 0 })) by {
        reveal(step);
    }
    assert(zeros_g.len() == m.pair(side).g.len() && zeros_h.len() == m.pair(side).h.len()) by {
        reveal(step);
    }
    lemma_groups(c, groups);
    assert(c.fits(n as int));
    assert forall|at: int| 0 <= at < len implies cell_holds::<A>(
        s,
        #[trigger] k.pair(side).g[at],
        m.rows.g,
        n,
        c,
        at,
    ) && cell_holds::<A>(s, k.pair(side).h[at], m.rows.h, n, c, at) by {
        if shape.by_blocks(groups) {
            let tiles = tiles_for(n as int) as u32;
            lemma_tiled_exact::<A>(
                s,
                c,
                zeros_g,
                m.rows.g,
                m.rows.g,
                m.rows.h,
                n,
                tiles as nat,
                at,
            );
            lemma_tiled_exact::<A>(
                s,
                c,
                zeros_h,
                m.rows.h,
                m.rows.g,
                m.rows.h,
                n,
                tiles as nat,
                at,
            );
            reveal(step);
        } else {
            lemma_folded_exact::<A>(s, rc, zeros_g, m.rows.g, n, at);
            lemma_folded_exact::<A>(s, rc, zeros_h, m.rows.h, n, at);
            lemma_tally_same(
                s,
                m.rows.g,
                n,
                |i: int| rc.belongs::<A>(i, at),
                |i: int| c.belongs::<A>(i, at),
            );
            lemma_tally_same(
                s,
                m.rows.h,
                n,
                |i: int| rc.belongs::<A>(i, at),
                |i: int| c.belongs::<A>(i, at),
            );
            reveal(step);
        }
    }
    assert forall|at: int| 0 <= at < len implies cell_holds::<A>(
        s,
        #[trigger] k.pair(side).h[at],
        m.rows.h,
        n,
        c,
        at,
    ) by {
        assert(cell_holds::<A>(s, k.pair(side).g[at], m.rows.g, n, c, at));
    }
}

/// A level holds the sums over the rows of its cells, where the level above does.
proof fn lemma_level<A: Arith>(
    s: Scale,
    j: Task,
    m: Machine,
    above: Seq<u32>,
    tree: int,
    d: int,
)
    requires
        j.sums_exactly::<A>(s, m.rows),
        j.has_rows(m, d),
        0 <= d < j.shape.depth,
        d >= 1 ==> pair_holds::<A>(
            s,
            m.pair(other(side_of(d))),
            m.rows,
            j.shape.n as nat,
            j.level_counting(above, pow2((d - 1) as nat) as int, tree, false),
            j.shape.hist_len(pow2((d - 1) as nat) as int),
        ),
        d >= 1 ==> forall|i: int|
            0 <= i < j.shape.n ==> #[trigger] m.rows.leaf[i] as int / 2 == above[i],
    ensures
        ({
            let groups = pow2(d as nat) as int;
            let k = run::<A, F32>(j, m, j.hist_plan(tree, d));
            &&& k.rows == m.rows
            &&& j.has_rows(k, d)
            &&& pair_holds::<A>(
                s,
                k.pair(side_of(d)),
                m.rows,
                j.shape.n as nat,
                j.level_counting(m.rows.leaf, groups, tree, false),
                j.shape.hist_len(groups),
            )
        }),
{
    let shape = j.shape;
    let n = shape.n as nat;
    let side = side_of(d);
    let groups = pow2(d as nat) as int;
    let len = shape.hist_len(groups);
    let first = shape.zero_plan(d).push(Launch::Mark(Category::ZeroHist)) + shape.build_plan(
        tree,
        d,
    );
    let last = shape.subtract_plan(d);
    let k = run::<A, F32>(j, m, first);
    lemma_build_run::<A>(j, m, tree, d);
    lemma_built::<A>(s, j, m, tree, d);
    lemma_run_append::<A, F32>(j, m, first, last);
    assert(j.hist_plan(tree, d) == first + last);
    if shape.subtract && d >= 1 {
        let half = pow2((d - 1) as nat) as int;
        let none: Seq<Launch> = Seq::empty();
        let l = last[0];
        lemma_run_push::<A, F32>(j, k, none, l);
        assert(last =~= none.push(l));
        lemma_level_sizes(shape, d);
        lemma_level_sizes(shape, d - 1);
        let nf = shape.nf as int;
        let nb = shape.nb as int;
        assert(len == 2 * half * nf * nb);
        let up = j.level_counting(above, half, tree, false);
        let next = j.level_counting(m.rows.leaf, groups, tree, false);
        let odd = j.level_counting(m.rows.leaf, groups, tree, true);
        let prev = m.pair(other(side));
        let cur = k.pair(side);
        let after = step::<A, F32>(j, k, l);
        assert(other(side) != side);
        assert forall|p: int|
            0 <= p < 2 * half * nf * nb && node_of(p, next.nf, next.nb) % 2 == 1 implies s.sums(
            #[trigger] cur.g[p],
            m.rows.g,
            n,
            |i: int| next.belongs::<A>(i, p),
        ) by {
            assert(cell_holds::<A>(s, cur.g[p], m.rows.g, n, odd, p));
            lemma_tally_same(
                s,
                m.rows.g,
                n,
                |i: int| odd.belongs::<A>(i, p),
                |i: int| next.belongs::<A>(i, p),
            );
        }
        assert forall|p: int|
            0 <= p < 2 * half * nf * nb && node_of(p, next.nf, next.nb) % 2 == 1 implies s.sums(
            #[trigger] cur.h[p],
            m.rows.h,
            n,
            |i: int| next.belongs::<A>(i, p),
        ) by {
            assert(cell_holds::<A>(s, cur.h[p], m.rows.h, n, odd, p));
            lemma_tally_same(
                s,
                m.rows.h,
                n,
                |i: int| odd.belongs::<A>(i, p),
                |i: int| next.belongs::<A>(i, p),
            );
        }
        assert forall|p: int| 0 <= p < half * nf * nb implies s.sums(
            #[trigger] prev.g[p],
            m.rows.g,
            n,
            |i: int| up.belongs::<A>(i, p),
        ) by {
            assert(cell_holds::<A>(s, prev.g[p], m.rows.g, n, up, p));
        }
        assert forall|p: int| 0 <= p < half * nf * nb implies s.sums(
            #[trigger] prev.h[p],
            m.rows.h,
            n,
            |i: int| up.belongs::<A>(i, p),
        ) by {
            assert(cell_holds::<A>(s, prev.h[p], m.rows.h, n, up, p));
        }
        assert(after.rows == k.rows && j.has_rows(after, d)) by {
            reveal(step);
        }
        assert forall|at: int| 0 <= at < len implies cell_holds::<A>(
            s,
            #[trigger] after.pair(side).g[at],
            m.rows.g,
            n,
            next,
            at,
        ) by {
            lemma_evened_exact::<A>(s, up, next, prev.g, cur.g, m.rows.g, n, half, at);
            reveal(step);
        }
        assert forall|at: int| 0 <= at < len implies cell_holds::<A>(
            s,
            #[trigger] after.pair(side).h[at],
            m.rows.h,
            n,
            next,
            at,
        ) by {
            lemma_evened_exact::<A>(s, up, next, prev.h, cur.h, m.rows.h, n, half, at);
            reveal(step);
        }
    } else {
        assert(last =~= Seq::<Launch>::empty());
    }
}

/// Splitting a level moves every row to a child of its node, and leaves the histograms.
proof fn lemma_split_level<A: Arith>(j: Task, m: Machine, tree: int, d: int)
    requires
        j.valid(),
        j.has_rows(m, d),
        0 <= d < j.shape.depth,
    ensures
        ({
            let after = run::<A, F32>(j, m, j.shape.split_plan(tree, d));
            &&& after.rows.g == m.rows.g
            &&& after.rows.h == m.rows.h
            &&& after.a == m.a
            &&& after.b == m.b
            &&& j.has_rows(after, d + 1)
            &&& forall|i: int|
                0 <= i < j.shape.n ==> #[trigger] after.rows.leaf[i] as int / 2 == m.rows.leaf[i]
        }),
{
    let split = j.shape.split_plan(tree, d);
    lemma_split_run::<A, F32>(j, m, tree, d);
    assert forall|i: int| 0 <= i < split.len() implies spares(#[trigger] split[i], Side::A) by {}
    assert forall|i: int| 0 <= i < split.len() implies spares(#[trigger] split[i], Side::B) by {}
    lemma_spared::<A, F32>(j, m, split, Side::A);
    lemma_spared::<A, F32>(j, m, split, Side::B);
    lemma_level_sizes(j.shape, d);
    assert(pow2((d + 1) as nat) <= 0x1_0000_0000) by {
        lemma2_to64();
        if d + 1 < 32 {
            lemma_pow2_strictly_increases((d + 1) as nat, 32);
        }
    }
    let after = run::<A, F32>(j, m, split);
    assert forall|i: int| 0 <= i < j.shape.n implies #[trigger] after.rows.leaf[i] as int / 2
        == m.rows.leaf[i] && after.rows.leaf[i] < pow2((d + 1) as nat) by {
        assert(m.rows.leaf[i] < pow2(d as nat));
        reveal(step);
    }
    reveal(step);
}

proof fn lemma_levels<A: Arith>(s: Scale, j: Task, m: Machine, tree: int, d: nat)
    requires
        j.sums_exactly::<A>(s, m.rows),
        j.has_rows(m, 0),
        d <= j.shape.depth,
    ensures
        ({
            let now = run::<A, F32>(j, m, j.shape.levels_plan(tree, d));
            &&& now.rows.g == m.rows.g
            &&& now.rows.h == m.rows.h
            &&& j.has_rows(now, d as int)
            &&& d >= 1 ==> ({
                let before = run::<A, F32>(j, m, j.shape.levels_plan(tree, (d - 1) as nat));
                let groups = pow2((d - 1) as nat) as int;
                &&& pair_holds::<A>(
                    s,
                    now.pair(side_of(d - 1)),
                    m.rows,
                    j.shape.n as nat,
                    j.level_counting(before.rows.leaf, groups, tree, false),
                    j.shape.hist_len(groups),
                )
                &&& forall|i: int|
                    0 <= i < j.shape.n ==> #[trigger] now.rows.leaf[i] as int / 2
                        == before.rows.leaf[i]
            })
        }),
    decreases d,
{
    if d > 0 {
        let l = d - 1;
        lemma_levels::<A>(s, j, m, tree, l as nat);
        let before = run::<A, F32>(j, m, j.shape.levels_plan(tree, l as nat));
        let above = if l > 0 {
            run::<A, F32>(j, m, j.shape.levels_plan(tree, (l - 1) as nat)).rows.leaf
        } else {
            Seq::empty()
        };
        assert(l >= 1 ==> other(side_of(l)) == side_of(l - 1));
        lemma_same_values::<A>(
            s,
            before.pair(other(side_of(l))),
            m.rows,
            before.rows,
            j.shape.n as nat,
            j.level_counting(above, pow2((l - 1) as nat) as int, tree, false),
            j.shape.hist_len(pow2((l - 1) as nat) as int),
        );
        lemma_level::<A>(s, j, before, above, tree, l);
        let k = run::<A, F32>(j, before, j.hist_plan(tree, l));
        lemma_split_level::<A>(j, k, tree, l);
        lemma_run_append::<A, F32>(
            j,
            m,
            j.shape.levels_plan(tree, l as nat),
            j.shape.level_plan(tree, l),
        );
        lemma_run_append::<A, F32>(j, before, j.hist_plan(tree, l), j.shape.split_plan(tree, l));
        assert(j.shape.level_plan(tree, l) == j.hist_plan(tree, l) + j.shape.split_plan(tree, l));
        let now = run::<A, F32>(j, m, j.shape.levels_plan(tree, d));
        lemma_same_values::<A>(
            s,
            now.pair(side_of(l)),
            before.rows,
            m.rows,
            j.shape.n as nat,
            j.level_counting(before.rows.leaf, pow2(l as nat) as int, tree, false),
            j.shape.hist_len(pow2(l as nat) as int),
        );
    }
}

/// What a pair of histograms holds depends on the gradients and hessians of the rows alone.
proof fn lemma_same_values<A: Arith>(
    s: Scale,
    pair: PairState,
    a: RowState,
    b: RowState,
    n: nat,
    c: Counting,
    len: int,
)
    requires
        a.g == b.g,
        a.h == b.h,
    ensures
        pair_holds::<A>(s, pair, a, n, c, len) == pair_holds::<A>(s, pair, b, n, c, len),
{
}

/// Where no sum is rounded, the histograms that a level is split by hold the sums over the rows
/// of their cells: with copies or by blocks, built or derived from the level above.
pub proof fn lemma_levels_exact<A: Arith>(s: Scale, j: Task, m: Machine, tree: int, d: int)
    requires
        j.sums_exactly::<A>(s, m.rows),
        j.has_rows(m, 0),
        0 <= d < j.shape.depth,
    ensures
        ({
            let now = run::<A, F32>(j, m, j.shape.levels_plan(tree, d as nat));
            let ready = run::<A, F32>(j, now, j.hist_plan(tree, d));
            let groups = pow2(d as nat) as int;
            &&& ready.rows == now.rows
            &&& pair_holds::<A>(
                s,
                ready.pair(side_of(d)),
                now.rows,
                j.shape.n as nat,
                j.level_counting(now.rows.leaf, groups, tree, false),
                j.shape.hist_len(groups),
            )
        }),
{
    lemma_levels::<A>(s, j, m, tree, d as nat);
    let now = run::<A, F32>(j, m, j.shape.levels_plan(tree, d as nat));
    let above = if d > 0 {
        run::<A, F32>(j, m, j.shape.levels_plan(tree, (d - 1) as nat)).rows.leaf
    } else {
        Seq::empty()
    };
    assert(d >= 1 ==> other(side_of(d)) == side_of(d - 1));
    lemma_same_values::<A>(
        s,
        now.pair(other(side_of(d))),
        m.rows,
        now.rows,
        j.shape.n as nat,
        j.level_counting(above, pow2((d - 1) as nat) as int, tree, false),
        j.shape.hist_len(pow2((d - 1) as nat) as int),
    );
    lemma_level::<A>(s, j, now, above, tree, d);
}

} // verus!
