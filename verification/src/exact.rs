//! What histograms hold where no sum is rounded.
//!
//! Deriving the histograms of even nodes from those of the level above, and splitting the rows
//! between threads, change the order in which numbers are added. Both are harmless as long as
//! sums are exact: then every cell holds the sum over the rows of its node and bin.

use vstd::arithmetic::div_mod::lemma_fundamental_div_mod;
use vstd::arithmetic::power2::lemma_pow2_unfold;
use vstd::arithmetic::power2::pow2;
use vstd::prelude::*;

use crate::arith::difference32;
use crate::arith::sum32;
use crate::arith::Arith;
use crate::cells::cell;
use crate::cells::lemma_cell;
use crate::cpu::completed;
use crate::cpu::lemma_grown;
use crate::cpu::lemma_pow2_bound;
use crate::cpu::Problem;
use crate::cpu::Round;
use crate::float::F32;
use crate::histogram::cell_sum;
use crate::histogram::histogram;
use crate::histogram::joined_sum;
use crate::histogram::share;
use crate::histogram::Assignment;

verus! {

/// Numbers that are whole multiples of a unit.
pub struct Scale {
    pub whole: spec_fn(F32) -> bool,
    /// How many units a number is.
    pub units: spec_fn(F32) -> int,
    /// How many units a sum may be without being rounded.
    pub reach: int,
}

impl Scale {
    /// Sums and differences of whole numbers within reach are not rounded.
    pub open spec fn exact<A: Arith>(self) -> bool {
        &&& (self.whole)(F32 { bits: 0 })
        &&& (self.units)(F32 { bits: 0 }) == 0
        &&& forall|a: F32, b: F32| #[trigger]
            self.meets(a, b) && -self.reach <= (self.units)(a) + (self.units)(b) <= self.reach
                ==> (self.whole)(sum32::<A>(a, b)) && (self.units)(sum32::<A>(a, b)) == (
            self.units)(a) + (self.units)(b)
        &&& forall|a: F32, b: F32| #[trigger]
            self.meets(a, b) && -self.reach <= (self.units)(a) - (self.units)(b) <= self.reach
                ==> (self.whole)(difference32::<A>(a, b)) && (self.units)(difference32::<A>(a, b))
                == (self.units)(a) - (self.units)(b)
    }

    /// Both numbers are whole.
    pub open spec fn meets(self, a: F32, b: F32) -> bool {
        (self.whole)(a) && (self.whole)(b)
    }

    /// The sizes of the values of the first `k` rows, added up.
    pub open spec fn weight(self, rows: Seq<u32>, vals: Seq<F32>, k: nat) -> int
        decreases k,
    {
        if k == 0 {
            0
        } else {
            let v = (self.units)(vals[rows[k - 1] as int]);
            self.weight(rows, vals, (k - 1) as nat) + if v < 0 {
                -v
            } else {
                v
            }
        }
    }

    /// The values of the rows are whole, and no sum of some of them is out of reach.
    pub open spec fn carries(self, rows: Seq<u32>, vals: Seq<F32>) -> bool {
        &&& forall|k: int| 0 <= k < rows.len() ==> (self.whole)(vals[#[trigger] rows[k] as int])
        &&& self.weight(rows, vals, rows.len()) <= self.reach
    }

    /// The sum of the values of those of the first `k` rows that belong to cell `c`.
    pub open spec fn cell_units(
        self,
        asg: Assignment,
        rows: Seq<u32>,
        vals: Seq<F32>,
        k: nat,
        c: int,
    ) -> int
        decreases k,
    {
        if k == 0 {
            0
        } else {
            let before = self.cell_units(asg, rows, vals, (k - 1) as nat, c);
            if asg.hits(rows[k - 1] as int, c) {
                before + (self.units)(vals[rows[k - 1] as int])
            } else {
                before
            }
        }
    }

    /// A number holds the sum over the rows that belong to cell `c`.
    pub open spec fn holds(
        self,
        v: F32,
        asg: Assignment,
        rows: Seq<u32>,
        vals: Seq<F32>,
        c: int,
    ) -> bool {
        (self.whole)(v) && (self.units)(v) == self.cell_units(asg, rows, vals, rows.len(), c)
    }
}

/// No sum over some of the rows is larger than the sum of their sizes.
proof fn lemma_units_bound(
    s: Scale,
    asg: Assignment,
    rows: Seq<u32>,
    vals: Seq<F32>,
    k: nat,
    c: int,
)
    ensures
        -s.weight(rows, vals, k) <= s.cell_units(asg, rows, vals, k, c) <= s.weight(rows, vals, k),
    decreases k,
{
    if k > 0 {
        lemma_units_bound(s, asg, rows, vals, (k - 1) as nat, c);
    }
}

/// More rows do not weigh less.
proof fn lemma_weight_grows(s: Scale, rows: Seq<u32>, vals: Seq<F32>, j: nat, k: nat)
    requires
        j <= k,
    ensures
        0 <= s.weight(rows, vals, j) <= s.weight(rows, vals, k),
    decreases k,
{
    if j < k {
        lemma_weight_grows(s, rows, vals, j, (k - 1) as nat);
    } else if k > 0 {
        lemma_weight_grows(s, rows, vals, (k - 1) as nat, (k - 1) as nat);
    }
}

proof fn lemma_cell_exact<A: Arith>(
    s: Scale,
    asg: Assignment,
    rows: Seq<u32>,
    vals: Seq<F32>,
    k: nat,
    c: int,
)
    requires
        s.exact::<A>(),
        s.carries(rows, vals),
        k <= rows.len(),
    ensures
        (s.whole)(cell_sum::<A>(asg, rows, vals, k, c)),
        (s.units)(cell_sum::<A>(asg, rows, vals, k, c)) == s.cell_units(asg, rows, vals, k, c),
    decreases k,
{
    if k > 0 {
        lemma_cell_exact::<A>(s, asg, rows, vals, (k - 1) as nat, c);
        lemma_units_bound(s, asg, rows, vals, k, c);
        lemma_weight_grows(s, rows, vals, k, rows.len());
        let before = cell_sum::<A>(asg, rows, vals, (k - 1) as nat, c);
        let v = vals[rows[k - 1] as int];
        assert(s.meets(before, v));
    }
}

/// The sums over a run of rows, after those over the rows before it.
proof fn lemma_run(
    s: Scale,
    asg: Assignment,
    rows: Seq<u32>,
    vals: Seq<F32>,
    low: nat,
    high: nat,
    k: nat,
    c: int,
)
    requires
        low <= high <= rows.len(),
        k <= high - low,
    ensures
        s.cell_units(asg, rows, vals, low + k, c) == s.cell_units(asg, rows, vals, low, c)
            + s.cell_units(asg, rows.subrange(low as int, high as int), vals, k, c),
        s.weight(rows, vals, low + k) == s.weight(rows, vals, low) + s.weight(
            rows.subrange(low as int, high as int),
            vals,
            k,
        ),
    decreases k,
{
    if k > 0 {
        lemma_run(s, asg, rows, vals, low, high, (k - 1) as nat, c);
        assert(rows.subrange(low as int, high as int)[k - 1] == rows[low + k - 1]);
        assert(low + (k - 1) as nat == (low + k - 1) as nat);
    }
}

/// Where the share of worker `i` begins.
pub open spec fn share_start(m: int, i: int, workers: int) -> int {
    let run = (m + workers - 1) / workers;
    if i * run < m {
        i * run
    } else {
        m
    }
}

pub(crate) proof fn lemma_shares(m: int, i: int, workers: int)
    requires
        0 <= m,
        0 <= i < workers,
    ensures
        share_start(m, 0, workers) == 0,
        0 <= share_start(m, i, workers) <= share_start(m, i + 1, workers) <= m,
        share_start(m, workers, workers) == m,
{
    let run = (m + workers - 1) / workers;
    assert(0 <= run && workers * run >= m) by (nonlinear_arith)
        requires
            0 <= m,
            0 < workers,
            run == (m + workers - 1) / workers,
    ;
    assert(0 <= i * run <= (i + 1) * run && 0 * run == 0) by (nonlinear_arith)
        requires
            0 <= i,
            0 <= run,
    ;
}

proof fn lemma_joined_exact<A: Arith>(
    s: Scale,
    asg: Assignment,
    rows: Seq<u32>,
    vals: Seq<F32>,
    workers: int,
    j: nat,
    c: int,
)
    requires
        s.exact::<A>(),
        s.carries(rows, vals),
        j <= workers,
        0 < workers,
    ensures
        (s.whole)(joined_sum::<A>(asg, rows, vals, workers, j, c)),
        (s.units)(joined_sum::<A>(asg, rows, vals, workers, j, c)) == s.cell_units(
            asg,
            rows,
            vals,
            share_start(rows.len() as int, j as int, workers) as nat,
            c,
        ),
    decreases j,
{
    let m = rows.len() as int;
    if j == 0 {
        lemma_shares(m, 0, workers);
    } else {
        let part = share(rows, j - 1, workers);
        let low = share_start(m, j - 1, workers) as nat;
        let high = share_start(m, j as int, workers) as nat;
        lemma_joined_exact::<A>(s, asg, rows, vals, workers, (j - 1) as nat, c);
        lemma_shares(m, j - 1, workers);
        assert(part == rows.subrange(low as int, high as int));
        assert(part.len() == high - low);
        lemma_run(s, asg, rows, vals, low, high, part.len(), c);
        lemma_weight_grows(s, rows, vals, 0, low);
        lemma_weight_grows(s, rows, vals, high, rows.len());
        assert(s.carries(part, vals)) by {
            assert forall|k: int| 0 <= k < part.len() implies (s.whole)(
                vals[#[trigger] part[k] as int],
            ) by {
                assert(part[k] == rows[low + k]);
            }
        }
        lemma_cell_exact::<A>(s, asg, part, vals, part.len(), c);
        lemma_units_bound(s, asg, rows, vals, high, c);
        let before = joined_sum::<A>(asg, rows, vals, workers, (j - 1) as nat, c);
        let own = cell_sum::<A>(asg, part, vals, part.len(), c);
        assert(s.meets(before, own));
    }
}

/// Where no sum is rounded, a histogram holds the sums over the rows of its cells, between
/// however many threads they are split.
pub proof fn lemma_built_exact<A: Arith>(
    s: Scale,
    asg: Assignment,
    rows: Seq<u32>,
    g: Seq<F32>,
    h: Seq<F32>,
    workers: nat,
    nodes: nat,
    i: int,
)
    requires
        s.exact::<A>(),
        s.carries(rows, g),
        s.carries(rows, h),
        0 < workers,
        0 <= i < histogram::<A>(asg, rows, g, h, workers, nodes).len(),
    ensures
        s.holds(
            histogram::<A>(asg, rows, g, h, workers, nodes)[i],
            asg,
            rows,
            if i % 2 == 0 {
                g
            } else {
                h
            },
            i / 2,
        ),
{
    let vals = if i % 2 == 0 {
        g
    } else {
        h
    };
    lemma_joined_exact::<A>(s, asg, rows, vals, workers as int, workers, i / 2);
    lemma_shares(rows.len() as int, 0, workers as int);
}

/// The rows of a node are those of its two children. Its even child has those that the odd
/// child does not have.
proof fn lemma_children(
    s: Scale,
    above: Assignment,
    next: Assignment,
    rows: Seq<u32>,
    vals: Seq<F32>,
    k: nat,
    nodes: int,
    q: int,
    f: int,
    b: int,
)
    requires
        k <= rows.len(),
        0 <= q < nodes,
        0 <= f < above.nf,
        0 <= b < above.nbins,
        !above.odd_only,
        !next.odd_only,
        next.bins == above.bins,
        next.nf == above.nf,
        next.nbins == above.nbins,
        forall|j: int|
            0 <= j < rows.len() ==> next.node[#[trigger] rows[j] as int] as int / 2
                == above.node[rows[j] as int],
    ensures
        s.cell_units(next, rows, vals, k, cell(2 * q, f, b, next.nf, next.nbins)) + s.cell_units(
            next,
            rows,
            vals,
            k,
            cell(2 * q + 1, f, b, next.nf, next.nbins),
        ) == s.cell_units(above, rows, vals, k, cell(q, f, b, above.nf, above.nbins)),
        s.cell_units(
            Assignment { odd_only: true, ..next },
            rows,
            vals,
            k,
            cell(q, f, b, next.nf, next.nbins),
        ) == s.cell_units(next, rows, vals, k, cell(2 * q + 1, f, b, next.nf, next.nbins)),
    decreases k,
{
    if k > 0 {
        lemma_children(s, above, next, rows, vals, (k - 1) as nat, nodes, q, f, b);
        lemma_cell(q, f, b, nodes, above.nf, above.nbins);
        lemma_cell(2 * q, f, b, 2 * nodes, above.nf, above.nbins);
        lemma_cell(2 * q + 1, f, b, 2 * nodes, above.nf, above.nbins);
        let r = rows[k - 1] as int;
        assert(next.node[r] as int / 2 == above.node[r]);
    }
}

/// Where entry `i` of a level stands in the level above.
proof fn lemma_entry(i: int, nodes: int, nf: int, nbins: int)
    requires
        0 < nf,
        0 < nbins,
        0 <= i < 2 * nodes * (nf * nbins * 2),
    ensures
        ({
            let size = nf * nbins * 2;
            let q = i / size / 2;
            let k = q * size + i % size;
            let c = i % size / 2;
            let f = c / nbins;
            let b = c % nbins;
            &&& 0 <= q < nodes
            &&& 0 <= f < nf
            &&& 0 <= b < nbins
            &&& 0 <= k < nodes * size
            &&& k % 2 == i % 2
            &&& k / 2 == cell(q, f, b, nf, nbins)
            &&& i / 2 == cell(i / size, f, b, nf, nbins)
        }),
{
    let w = nf * nbins;
    let size = nf * nbins * 2;
    let nd = i / size;
    let q = nd / 2;
    let inner = i % size;
    let k = q * size + inner;
    let c = inner / 2;
    let f = c / nbins;
    let b = c % nbins;
    assert(w > 0) by (nonlinear_arith)
        requires
            w == nf * nbins,
            nf > 0,
            nbins > 0,
    ;
    lemma_fundamental_div_mod(i, size);
    assert(0 <= nd < 2 * nodes) by (nonlinear_arith)
        requires
            i == size * nd + inner,
            0 <= inner < size,
            0 <= i < 2 * nodes * size,
            size > 0,
    ;
    assert(0 <= q * size && k < nodes * size) by (nonlinear_arith)
        requires
            0 <= q < nodes,
            0 <= inner < size,
            k == q * size + inner,
    ;
    assert(q * size == 2 * (q * w) && size * nd == 2 * (nd * w)) by (nonlinear_arith)
        requires
            size == w * 2,
    ;
    lemma_fundamental_div_mod(c, nbins);
    assert(0 <= f < nf) by (nonlinear_arith)
        requires
            0 <= c < w,
            w == nf * nbins,
            c == nbins * f + b,
            0 <= b < nbins,
    ;
    assert(cell(q, f, b, nf, nbins) == q * w + c && cell(nd, f, b, nf, nbins) == nd * w + c)
        by (nonlinear_arith)
        requires
            cell(q, f, b, nf, nbins) == (q * nf + f) * nbins + b,
            cell(nd, f, b, nf, nbins) == (nd * nf + f) * nbins + b,
            c == nbins * f + b,
            w == nf * nbins,
    ;
}

/// Where no sum is rounded, what is derived from the histograms above is what would be built.
proof fn lemma_derived_exact<A: Arith>(
    s: Scale,
    above: Assignment,
    next: Assignment,
    rows: Seq<u32>,
    g: Seq<F32>,
    h: Seq<F32>,
    prev: Seq<F32>,
    odd: Seq<F32>,
    nodes: int,
    i: int,
)
    requires
        s.exact::<A>(),
        s.carries(rows, g),
        s.carries(rows, h),
        0 < above.nf,
        0 < above.nbins,
        !above.odd_only,
        !next.odd_only,
        next.bins == above.bins,
        next.nf == above.nf,
        next.nbins == above.nbins,
        forall|j: int|
            0 <= j < rows.len() ==> next.node[#[trigger] rows[j] as int] as int / 2
                == above.node[rows[j] as int],
        prev.len() == nodes * (above.nf * above.nbins * 2),
        odd.len() == nodes * (above.nf * above.nbins * 2),
        forall|k: int|
            0 <= k < prev.len() ==> s.holds(
                #[trigger] prev[k],
                above,
                rows,
                if k % 2 == 0 {
                    g
                } else {
                    h
                },
                k / 2,
            ),
        forall|k: int|
            0 <= k < odd.len() ==> s.holds(
                #[trigger] odd[k],
                Assignment { odd_only: true, ..next },
                rows,
                if k % 2 == 0 {
                    g
                } else {
                    h
                },
                k / 2,
            ),
        0 <= i < 2 * odd.len(),
    ensures
        s.holds(
            completed::<A>(prev, odd, above.nf * above.nbins * 2)[i],
            next,
            rows,
            if i % 2 == 0 {
                g
            } else {
                h
            },
            i / 2,
        ),
{
    let size = above.nf * above.nbins * 2;
    let vals = if i % 2 == 0 {
        g
    } else {
        h
    };
    assert(2 * odd.len() == 2 * nodes * size) by (nonlinear_arith)
        requires
            odd.len() == nodes * size,
    ;
    lemma_entry(i, nodes, above.nf, above.nbins);
    let nd = i / size;
    let q = nd / 2;
    let k = q * size + i % size;
    let c = i % size / 2;
    let f = c / above.nbins;
    let b = c % above.nbins;
    lemma_children(s, above, next, rows, vals, rows.len(), nodes, q, f, b);
    lemma_units_bound(s, next, rows, vals, rows.len(), cell(2 * q, f, b, next.nf, next.nbins));
    assert(s.holds(prev[k], above, rows, vals, k / 2));
    assert(s.holds(odd[k], Assignment { odd_only: true, ..next }, rows, vals, k / 2));
    assert(s.meets(prev[k], odd[k]));
}

/// Where no sum is rounded, the histograms of every level of a tree hold the sums over the rows
/// of their cells, whether they are built or derived from the level above.
pub proof fn lemma_level_exact<A: Arith>(
    s: Scale,
    p: Problem,
    round: Round,
    level: nat,
    i: int,
)
    requires
        s.exact::<A>(),
        p.well_formed(),
        level < p.depth,
        forall|k: int| 0 <= k < round.rows.len() ==> #[trigger] round.rows[k] < p.n,
        s.carries(round.rows, round.g),
        s.carries(round.rows, round.h),
        0 <= i < pow2(level) * p.nf * p.nbins * 2,
    ensures
        s.holds(
            p.level::<A>(round, p.grown::<A>(round, level), level).hist[i],
            p.assignment(p.grown::<A>(round, level).node, false),
            round.rows,
            if i % 2 == 0 {
                round.g
            } else {
                round.h
            },
            i / 2,
        ),
    decreases level,
{
    let grown = p.grown::<A>(round, level);
    let next = p.assignment(grown.node, false);
    let rows = round.rows;
    let g = round.g;
    let h = round.h;
    if level == 0 || !p.subtract {
        lemma_built_exact::<A>(s, next, rows, g, h, p.workers, pow2(level), i);
    } else {
        let l = (level - 1) as nat;
        let before = p.grown::<A>(round, l);
        let above = p.assignment(before.node, false);
        let best = p.level::<A>(round, before, l).best::<A>();
        let nf = p.nf as int;
        let nbins = p.nbins as int;
        let nodes = pow2(l);
        let size = nf * nbins * 2;
        let odd_asg = p.assignment(grown.node, true);
        let odd = histogram::<A>(odd_asg, rows, g, h, p.workers, nodes);
        lemma_pow2_unfold(level);
        lemma_pow2_bound(level);
        lemma_grown::<A>(p, round, l);
        lemma_grown::<A>(p, round, level);
        assert(nodes * nf * nbins * 2 == nodes * size && pow2(level) * nf * nbins * 2 == 2 * (nodes
            * size) && nodes * size >= 0) by (nonlinear_arith)
            requires
                size == nf * nbins * 2,
                pow2(level) == 2 * nodes,
                nodes >= 0,
                nf >= 0,
                nbins >= 0,
        ;
        assert(odd.len() == nodes * size);
        assert(grown.hist.len() == nodes * size);
        assert forall|k: int| 0 <= k < grown.hist.len() implies s.holds(
            #[trigger] grown.hist[k],
            above,
            rows,
            if k % 2 == 0 {
                g
            } else {
                h
            },
            k / 2,
        ) by {
            lemma_level_exact::<A>(s, p, round, l, k);
        }
        assert forall|k: int| 0 <= k < odd.len() implies s.holds(
            #[trigger] odd[k],
            Assignment { odd_only: true, ..next },
            rows,
            if k % 2 == 0 {
                g
            } else {
                h
            },
            k / 2,
        ) by {
            lemma_built_exact::<A>(s, odd_asg, rows, g, h, p.workers, nodes, k);
        }
        assert forall|j: int| 0 <= j < rows.len() implies next.node[
            #[trigger] rows[j] as int
        ] as int / 2 == above.node[rows[j] as int] by {
            let r = rows[j] as int;
            assert(before.node[r] < pow2(l));
            assert(grown.node == p.descended(before.node, best.feature, best.bin));
        }
        lemma_derived_exact::<A>(
            s,
            above,
            next,
            rows,
            g,
            h,
            grown.hist,
            odd,
            nodes as int,
            i,
        );
    }
}

impl Scale {
    /// There is one whole number of as many units.
    pub open spec fn unique(self) -> bool {
        forall|a: F32, b: F32| #[trigger]
            self.meets(a, b) && (self.units)(a) == (self.units)(b) ==> a == b
    }
}

/// Where no sum is rounded, a tree has the same splits and takes its rows to the same leaves
/// whether histograms are derived or built, and between however many threads rows are split.
pub proof fn lemma_same_tree<A: Arith>(
    s: Scale,
    p: Problem,
    subtract: bool,
    workers: nat,
    round: Round,
    level: nat,
)
    requires
        s.exact::<A>(),
        s.unique(),
        p.well_formed(),
        0 < workers,
        level <= p.depth,
        forall|k: int| 0 <= k < round.rows.len() ==> #[trigger] round.rows[k] < p.n,
        s.carries(round.rows, round.g),
        s.carries(round.rows, round.h),
    ensures
        (Problem { subtract, workers, ..p }).grown::<A>(round, level) == p.grown::<A>(
            round,
            level,
        ),
    decreases level,
{
    if level > 0 {
        let o = Problem { subtract, workers, ..p };
        let l = (level - 1) as nat;
        lemma_same_tree::<A>(s, p, subtract, workers, round, l);
        let before = p.grown::<A>(round, l);
        let a = p.level::<A>(round, before, l);
        let b = o.level::<A>(round, before, l);
        lemma_grown::<A>(p, round, level);
        lemma_grown::<A>(o, round, level);
        assert(p.grown::<A>(round, level).hist == a.hist);
        assert(o.grown::<A>(round, level).hist == b.hist);
        assert forall|i: int| 0 <= i < a.hist.len() implies a.hist[i] == b.hist[i] by {
            lemma_level_exact::<A>(s, p, round, l, i);
            lemma_level_exact::<A>(s, o, round, l, i);
            assert(p.assignment(before.node, false) == o.assignment(before.node, false));
            assert(s.meets(a.hist[i], b.hist[i]));
        }
        assert(a.hist =~= b.hist);
        assert(a == b);
        let best = a.best::<A>();
        assert(p.descended(before.node, best.feature, best.bin) =~= o.descended(
            before.node,
            best.feature,
            best.bin,
        ));
    }
}

} // verus!
