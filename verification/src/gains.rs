//! What splits gain, over the rows that they part.

use vstd::arithmetic::power2::lemma_pow2_pos;
use vstd::arithmetic::power2::pow2;
use vstd::prelude::*;

use crate::arith::difference64;
use crate::arith::product64;
use crate::arith::quotient64;
use crate::arith::sum64;
use crate::arith::widened;
use crate::arith::Arith;
use crate::cells::cell;
use crate::cells::lemma_cell;
use crate::cpu::lemma_grown;
use crate::cpu::Problem;
use crate::cpu::Round;
use crate::exact::lemma_level_exact;
use crate::exact::Scale;
use crate::float::F32;
use crate::float::F64;
use crate::float::ONE64;
use crate::grids::grid;
use crate::grids::grid_fits;
use crate::grids::lemma_amount;
use crate::grids::lemma_fits_wider;
use crate::grids::lemma_grid_exact;
use crate::grids::multiple_fits;
use crate::histogram::Assignment;
use crate::reals::faithful;
use crate::reals::fits64;
use crate::reals::lemma_constants;
use crate::reals::lemma_difference64;
use crate::reals::lemma_order64;
use crate::reals::lemma_product64;
use crate::reals::lemma_quotient64;
use crate::reals::lemma_sum64;
use crate::reals::lemma_widened;
use crate::split::lemma_best;
use crate::split::lemma_best_value;
use crate::split::score;
use crate::split::Level;
use crate::steps::listed;
use crate::sums::lemma_part_none;
use crate::sums::lemma_part_same;
use crate::sums::lemma_part_split;
use crate::sums::part;
use crate::sums::total;
use crate::sums::totals_fit64;

verus! {

/// The number of units of those of the first `k` listed values for which `pick` holds.
spec fn units_of(
    s: Scale,
    vals: Seq<F32>,
    rows: Seq<u32>,
    k: nat,
    pick: spec_fn(int) -> bool,
) -> int
    decreases k,
{
    if k == 0 {
        0
    } else {
        units_of(s, vals, rows, (k - 1) as nat, pick) + if pick(k - 1) {
            (s.units)(vals[rows[k - 1] as int])
        } else {
            0
        }
    }
}

/// No sum of some of the rows is out of reach, and every sum is as many units as it says.
proof fn lemma_units_of(
    unit: real,
    reach: int,
    vals: Seq<F32>,
    rows: Seq<u32>,
    k: nat,
    pick: spec_fn(int) -> bool,
)
    requires
        forall|i: int|
            0 <= i < rows.len() ==> (grid(unit, reach).whole)(vals[#[trigger] rows[i] as int]),
        k <= rows.len(),
    ensures
        ({
            let s = grid(unit, reach);
            let sum = units_of(s, vals, rows, k, pick);
            &&& -s.weight(rows, vals, k) <= sum <= s.weight(rows, vals, k)
            &&& part(listed(vals, rows), k, pick) == (sum as real) * unit
        }),
    decreases k,
{
    let s = grid(unit, reach);
    if k == 0 {
        assert((0int as real) * unit == 0real) by (nonlinear_arith);
    } else {
        lemma_units_of(unit, reach, vals, rows, (k - 1) as nat, pick);
        let v = vals[rows[k - 1] as int];
        assert(listed(vals, rows)[k - 1] == v);
        assert((s.whole)(v));
        lemma_amount(unit, reach, v);
        let a = units_of(s, vals, rows, (k - 1) as nat, pick);
        let b = (s.units)(v);
        assert((a as real) * unit + (b as real) * unit == ((a + b) as real) * unit)
            by (nonlinear_arith);
    }
}

/// The rows of cell `c`.
spec fn in_cell(asg: Assignment, rows: Seq<u32>, c: int) -> spec_fn(int) -> bool {
    |i: int| asg.hits(rows[i] as int, c)
}

proof fn lemma_cell_units(
    s: Scale,
    asg: Assignment,
    rows: Seq<u32>,
    vals: Seq<F32>,
    k: nat,
    c: int,
)
    ensures
        s.cell_units(asg, rows, vals, k, c) == units_of(s, vals, rows, k, in_cell(asg, rows, c)),
    decreases k,
{
    if k > 0 {
        lemma_cell_units(s, asg, rows, vals, (k - 1) as nat, c);
        assert(in_cell(asg, rows, c)(k - 1) == asg.hits(rows[k - 1] as int, c));
    }
}

/// The listed rows at node `nd` whose bin of feature `f` is below `b`.
pub open spec fn left_of(
    p: Problem,
    node: Seq<u32>,
    rows: Seq<u32>,
    nd: int,
    f: int,
    b: int,
) -> spec_fn(int) -> bool {
    |i: int| node[rows[i] as int] == nd && p.bins[rows[i] * p.nf + f] < b
}

/// The gradients and hessians of the listed rows are multiples of a unit, and no sum of some of
/// them is rounded.
pub open spec fn on_grid(p: Problem, round: Round, unit: real, reach: int) -> bool {
    &&& p.well_formed()
    &&& grid_fits(unit, reach)
    &&& forall|k: int| 0 <= k < round.rows.len() ==> #[trigger] round.rows[k] < p.n
    &&& grid(unit, reach).carries(round.rows, round.g)
    &&& grid(unit, reach).carries(round.rows, round.h)
}

/// The gradients with `side` zero, the hessians with `side` one.
pub open spec fn side_of(round: Round, side: int) -> Seq<F32> {
    if side == 0 {
        round.g
    } else {
        round.h
    }
}

/// The sum over the listed rows at node `nd` whose bin of feature `f` is below `b`.
pub open spec fn left_sum<A: Arith>(
    p: Problem,
    round: Round,
    level: nat,
    nd: int,
    f: int,
    b: int,
    side: int,
) -> real {
    part(
        listed(side_of(round, side), round.rows),
        round.rows.len(),
        left_of(p, p.grown::<A>(round, level).node, round.rows, nd, f, b),
    )
}

proof fn lemma_cell_amount<A: Arith>(
    p: Problem,
    round: Round,
    level: nat,
    nd: int,
    f: int,
    b: int,
    side: int,
    unit: real,
    reach: int,
)
    requires
        faithful::<A>(),
        on_grid(p, round, unit, reach),
        level < p.depth,
        0 <= nd < pow2(level),
        0 <= f < p.nf,
        0 <= b < p.nbins,
        side == 0 || side == 1,
    ensures
        ({
            let lv = p.level::<A>(round, p.grown::<A>(round, level), level);
            let v = lv.hist[cell(nd, f, b, p.nf as int, p.nbins as int) * 2 + side];
            let asg = p.assignment(p.grown::<A>(round, level).node, false);
            v.means(
                part(
                    listed(side_of(round, side), round.rows),
                    round.rows.len(),
                    in_cell(asg, round.rows, cell(nd, f, b, p.nf as int, p.nbins as int)),
                ),
            )
        }),
{
    let s = grid(unit, reach);
    let c = cell(nd, f, b, p.nf as int, p.nbins as int);
    let vals = side_of(round, side);
    let asg = p.assignment(p.grown::<A>(round, level).node, false);
    lemma_cell(nd, f, b, pow2(level) as int, p.nf as int, p.nbins as int);
    lemma_grid_exact::<A>(unit, reach);
    lemma_level_exact::<A>(s, p, round, level, c * 2 + side);
    lemma_cell_units(s, asg, round.rows, vals, round.rows.len(), c);
    lemma_units_of(
        unit,
        reach,
        vals,
        round.rows,
        round.rows.len(),
        in_cell(asg, round.rows, c),
    );
    let lv = p.level::<A>(round, p.grown::<A>(round, level), level);
    lemma_amount(unit, reach, lv.hist[c * 2 + side]);
}

proof fn lemma_running<A: Arith>(
    p: Problem,
    round: Round,
    level: nat,
    nd: int,
    f: int,
    k: nat,
    side: int,
    unit: real,
    reach: int,
)
    requires
        faithful::<A>(),
        on_grid(p, round, unit, reach),
        level < p.depth,
        0 <= nd < pow2(level),
        0 <= f < p.nf,
        k <= p.nbins,
        side == 0 || side == 1,
    ensures
        p.level::<A>(round, p.grown::<A>(round, level), level).running::<A>(
            nd,
            f,
            side,
            k,
        ).means(left_sum::<A>(p, round, level, nd, f, k as int, side)),
    decreases k,
{
    let lv = p.level::<A>(round, p.grown::<A>(round, level), level);
    let node = p.grown::<A>(round, level).node;
    let rows = round.rows;
    let n = rows.len();
    let vals = side_of(round, side);
    let all = listed(vals, rows);
    let upto = left_of(p, node, rows, nd, f, k as int);
    lemma_constants();
    if k == 0 {
        lemma_part_none(all, n, upto);
    } else {
        let c = cell(nd, f, k - 1, p.nf as int, p.nbins as int);
        let asg = p.assignment(node, false);
        let before = left_of(p, node, rows, nd, f, k - 1);
        let own = in_cell(asg, rows, c);
        lemma_running::<A>(p, round, level, nd, f, (k - 1) as nat, side, unit, reach);
        lemma_cell_amount::<A>(p, round, level, nd, f, k - 1, side, unit, reach);
        lemma_cell(nd, f, k - 1, pow2(level) as int, p.nf as int, p.nbins as int);
        lemma_part_split(all, n, upto, before, own);
        lemma_left_fits::<A>(vals, rows, upto, unit, reach);
        let v = lv.hist[c * 2 + side];
        lemma_widened::<A>(v);
        lemma_sum64::<A>(lv.running::<A>(nd, f, side, (k - 1) as nat), widened::<A>(v));
    }
}

/// Sums of listed rows on a grid can be written in double precision.
proof fn lemma_left_fits<A: Arith>(
    vals: Seq<F32>,
    rows: Seq<u32>,
    pick: spec_fn(int) -> bool,
    unit: real,
    reach: int,
)
    requires
        faithful::<A>(),
        grid_fits(unit, reach),
        grid(unit, reach).carries(rows, vals),
    ensures
        fits64(part(listed(vals, rows), rows.len(), pick)),
{
    lemma_units_of(unit, reach, vals, rows, rows.len(), pick);
    let k = units_of(grid(unit, reach), vals, rows, rows.len(), pick);
    assert(multiple_fits(unit, k));
    lemma_fits_wider::<A>((k as real) * unit);
}

/// What the rows of a node are worth together, with gradient sum `g` and hessian sum `h`.
pub open spec fn worth(g: real, h: real, lambda: real) -> real {
    (g * g) / (h + lambda)
}

/// What parting a node gains: what its parts are worth more than the whole; nothing where a part
/// has too small a hessian sum.
pub open spec fn parting(
    gl: real,
    hl: real,
    g: real,
    h: real,
    lambda: real,
    min_child: real,
) -> real {
    if min_child <= hl && min_child <= h - hl {
        worth(gl, hl, lambda) + worth(g - gl, h - hl, lambda) - worth(g, h, lambda)
    } else {
        0real
    }
}

/// What a node is worth can be written down.
pub open spec fn worth_fits(g: real, h: real, lambda: real) -> bool {
    &&& h + lambda != 0real
    &&& fits64(g * g)
    &&& fits64(h + lambda)
    &&& fits64(worth(g, h, lambda))
}

/// The steps towards the gain of parting a node can be written down.
pub open spec fn parting_fits(gl: real, hl: real, g: real, h: real, lambda: real) -> bool {
    let a = worth(gl, hl, lambda);
    let b = worth(g - gl, h - hl, lambda);
    &&& fits64(g - gl)
    &&& fits64(h - hl)
    &&& worth_fits(gl, hl, lambda)
    &&& worth_fits(g - gl, h - hl, lambda)
    &&& worth_fits(g, h, lambda)
    &&& fits64(a + b)
    &&& fits64(a + b - worth(g, h, lambda))
}

proof fn lemma_worth<A: Arith>(g: F64, h: F64, lambda: F64)
    requires
        faithful::<A>(),
        g.finite(),
        h.finite(),
        lambda.finite(),
        worth_fits(g.amount(), h.amount(), lambda.amount()),
    ensures
        score::<A>(g, h, lambda).means(worth(g.amount(), h.amount(), lambda.amount())),
{
    lemma_product64::<A>(g, g);
    lemma_sum64::<A>(h, lambda);
    lemma_quotient64::<A>(product64::<A>(g, g), sum64::<A>(h, lambda));
}

/// What splitting node `nd` of a level after bin `b` of feature `f` gains, over the listed rows.
pub open spec fn true_node_gain<A: Arith>(
    p: Problem,
    round: Round,
    level: nat,
    nd: int,
    f: int,
    b: int,
) -> real {
    parting(
        left_sum::<A>(p, round, level, nd, f, b + 1, 0),
        left_sum::<A>(p, round, level, nd, f, b + 1, 1),
        left_sum::<A>(p, round, level, nd, f, p.nbins as int, 0),
        left_sum::<A>(p, round, level, nd, f, p.nbins as int, 1),
        p.lambda.amount(),
        p.min_child.amount(),
    )
}

/// The steps towards that gain can be written down.
pub open spec fn node_gain_fits<A: Arith>(
    p: Problem,
    round: Round,
    level: nat,
    nd: int,
    f: int,
    b: int,
) -> bool {
    parting_fits(
        left_sum::<A>(p, round, level, nd, f, b + 1, 0),
        left_sum::<A>(p, round, level, nd, f, b + 1, 1),
        left_sum::<A>(p, round, level, nd, f, p.nbins as int, 0),
        left_sum::<A>(p, round, level, nd, f, p.nbins as int, 1),
        p.lambda.amount(),
    )
}

proof fn lemma_node_gain<A: Arith>(
    p: Problem,
    round: Round,
    level: nat,
    nd: int,
    f: int,
    b: int,
    unit: real,
    reach: int,
)
    requires
        faithful::<A>(),
        on_grid(p, round, unit, reach),
        level < p.depth,
        0 <= nd < pow2(level),
        0 <= f < p.nf,
        0 <= b < p.nbins - 1,
        p.lambda.finite(),
        p.min_child.finite(),
        node_gain_fits::<A>(p, round, level, nd, f, b),
    ensures
        p.level::<A>(round, p.grown::<A>(round, level), level).node_gain::<A>(nd, f, b).means(
            true_node_gain::<A>(p, round, level, nd, f, b),
        ),
{
    let lv = p.level::<A>(round, p.grown::<A>(round, level), level);
    lemma_running::<A>(p, round, level, nd, f, (b + 1) as nat, 0, unit, reach);
    lemma_running::<A>(p, round, level, nd, f, (b + 1) as nat, 1, unit, reach);
    lemma_running::<A>(p, round, level, nd, f, p.nbins, 0, unit, reach);
    lemma_running::<A>(p, round, level, nd, f, p.nbins, 1, unit, reach);
    let gl = lv.running::<A>(nd, f, 0, (b + 1) as nat);
    let hl = lv.running::<A>(nd, f, 1, (b + 1) as nat);
    let gt = lv.running::<A>(nd, f, 0, lv.nbins);
    let ht = lv.running::<A>(nd, f, 1, lv.nbins);
    lemma_difference64::<A>(gt, gl);
    lemma_difference64::<A>(ht, hl);
    let gr = difference64::<A>(gt, gl);
    let hr = difference64::<A>(ht, hl);
    lemma_worth::<A>(gl, hl, lv.lambda);
    lemma_worth::<A>(gr, hr, lv.lambda);
    lemma_worth::<A>(gt, ht, lv.lambda);
    lemma_order64(lv.min_child, hl);
    lemma_order64(lv.min_child, hr);
    let a = score::<A>(gl, hl, lv.lambda);
    let c = score::<A>(gr, hr, lv.lambda);
    let t = score::<A>(gt, ht, lv.lambda);
    lemma_sum64::<A>(a, c);
    let both = sum64::<A>(a, c);
    lemma_difference64::<A>(both, t);
    let more = difference64::<A>(both, t);
    lemma_constants();
    let one = F64 { bits: ONE64 };
    let zero = F64 { bits: 0 };
    let m = more.amount();
    assert(1real * m == m && 0real * m == 0real) by (nonlinear_arith);
    assert(zero.means(0real) && more.means(m));
    lemma_product64::<A>(one, more);
    lemma_product64::<A>(zero, more);
}

/// What splitting the nodes of a level after bin `b` of feature `f` gains.
pub open spec fn node_gains<A: Arith>(
    p: Problem,
    round: Round,
    level: nat,
    f: int,
    b: int,
) -> spec_fn(int) -> real {
    |nd: int| true_node_gain::<A>(p, round, level, nd, f, b)
}

/// The steps towards the gain of a split can be written down.
pub open spec fn gain_fits<A: Arith>(
    p: Problem,
    round: Round,
    level: nat,
    f: int,
    b: int,
) -> bool {
    &&& totals_fit64(pow2(level), node_gains::<A>(p, round, level, f, b))
    &&& forall|nd: int|
        0 <= nd < pow2(level) ==> #[trigger] node_gain_fits::<A>(p, round, level, nd, f, b)
}

proof fn lemma_gain<A: Arith>(
    p: Problem,
    round: Round,
    level: nat,
    f: int,
    b: int,
    k: nat,
    unit: real,
    reach: int,
)
    requires
        faithful::<A>(),
        on_grid(p, round, unit, reach),
        level < p.depth,
        0 <= f < p.nf,
        0 <= b < p.nbins - 1,
        p.lambda.finite(),
        p.min_child.finite(),
        gain_fits::<A>(p, round, level, f, b),
        k <= pow2(level),
    ensures
        p.level::<A>(round, p.grown::<A>(round, level), level).gain::<A>(f, b, k).means(
            total(k, node_gains::<A>(p, round, level, f, b)),
        ),
    decreases k,
{
    lemma_constants();
    if k > 0 {
        let lv = p.level::<A>(round, p.grown::<A>(round, level), level);
        let gains = node_gains::<A>(p, round, level, f, b);
        lemma_gain::<A>(p, round, level, f, b, (k - 1) as nat, unit, reach);
        assert(node_gain_fits::<A>(p, round, level, k - 1, f, b));
        lemma_node_gain::<A>(p, round, level, k - 1, f, b, unit, reach);
        assert(fits64(total(k, gains)));
        lemma_sum64::<A>(
            lv.gain::<A>(f, b, (k - 1) as nat),
            lv.node_gain::<A>(k - 1, f, b),
        );
    }
}

/// The split that a level of a tree is given gains at least as much as any other, over the
/// listed rows: a split gains, at each node, what the parts of its rows are worth more than the
/// whole. No sum may be rounded.
pub proof fn lemma_chosen_split<A: Arith>(
    p: Problem,
    round: Round,
    level: nat,
    f: int,
    b: int,
    unit: real,
    reach: int,
)
    requires
        faithful::<A>(),
        on_grid(p, round, unit, reach),
        level < p.depth,
        0 <= f < p.nf,
        0 <= b < p.nbins - 1,
        p.lambda.finite(),
        p.min_child.finite(),
        forall|e: int, c: int|
            0 <= e < p.nf && 0 <= c < p.nbins - 1 ==> #[trigger] gain_fits::<A>(
                p,
                round,
                level,
                e,
                c,
            ),
    ensures
        ({
            let best = p.grown::<A>(round, level + 1).splits[level as int];
            let nodes = pow2(level);
            &&& 0 <= best.feature < p.nf
            &&& 0 <= best.bin < p.nbins - 1
            &&& best.gain.means(
                total(nodes, node_gains::<A>(p, round, level, best.feature, best.bin)),
            )
            &&& total(nodes, node_gains::<A>(p, round, level, f, b)) <= best.gain.amount()
            &&& f < best.feature || (f == best.feature && b < best.bin) ==> total(
                nodes,
                node_gains::<A>(p, round, level, f, b),
            ) < best.gain.amount()
        }),
{
    let before = p.grown::<A>(round, level);
    let lv = p.level::<A>(round, before, level);
    let best = lv.best::<A>();
    lemma_grown::<A>(p, round, level);
    lemma_grown::<A>(p, round, level + 1);
    assert(p.grown::<A>(round, level + 1).splits[level as int] == best);
    assert(lv.well_formed()) by {
        assert(p.grown::<A>(round, level + 1).hist == lv.hist);
    }
    lemma_best::<A>(lv);
    let nodes = pow2(level);
    assert forall|e: int, c: int| 0 <= e < lv.nf && 0 <= c < lv.nbins - 1 implies (
    #[trigger] lv.gain::<A>(e, c, lv.nodes)).finite() by {
        assert(gain_fits::<A>(p, round, level, e, c));
        lemma_gain::<A>(p, round, level, e, c, nodes, unit, reach);
    }
    lemma_best_gain::<A>(lv, f, b);
    assert(gain_fits::<A>(p, round, level, f, b));
    assert(gain_fits::<A>(p, round, level, best.feature, best.bin));
    lemma_gain::<A>(p, round, level, f, b, nodes, unit, reach);
    lemma_gain::<A>(p, round, level, best.feature, best.bin, nodes, unit, reach);
    let own = lv.gain::<A>(best.feature, best.bin, nodes);
    let other = lv.gain::<A>(f, b, nodes);
    lemma_order64(best.gain, other);
    lemma_order64(other, best.gain);
}

/// The best split is worth what it gains, where some split gains more than negative infinity.
proof fn lemma_best_gain<A: Arith>(lv: Level, f: int, b: int)
    requires
        lv.well_formed(),
        0 <= f < lv.nf,
        0 <= b < lv.nbins - 1,
        forall|e: int, c: int|
            0 <= e < lv.nf && 0 <= c < lv.nbins - 1 ==> (#[trigger] lv.gain::<A>(
                e,
                c,
                lv.nodes,
            )).finite(),
    ensures
        lv.best::<A>().gain == lv.gain::<A>(lv.best::<A>().feature, lv.best::<A>().bin, lv.nodes),
{
    lemma_best_value::<A>(lv);
    lemma_best::<A>(lv);
    let g = lv.gain::<A>(f, b, lv.nodes);
    assert(g.finite());
}

} // verus!
