//! What the variances of leaves and the statistics over rows measure.

use vstd::arithmetic::power2::lemma2_to64;
use vstd::arithmetic::power2::lemma_pow2_pos;
use vstd::arithmetic::power2::pow2;
use vstd::prelude::*;

use crate::arith::counted32;
use crate::arith::difference32;
use crate::arith::product32;
use crate::arith::quotient32;
use crate::arith::root32;
use crate::arith::sum32;
use crate::arith::Arith;
use crate::config::Config;
use crate::data::Dataset;
use crate::float::F32;
use crate::float::HALF32;
use crate::float::MILLIONTH32;
use crate::float::ONE32;
use crate::gpu::acc::Accum;
use crate::gpu::fit::device_task;
use crate::gpu::fit::std_of;
use crate::gpu::laws::holds_rows;
use crate::gpu::laws::lemma_poised;
use crate::gpu::laws::poised;
use crate::gpu::leaf::squares;
use crate::gpu::leaf::variance_of;
use crate::gpu::machine::row_step;
use crate::gpu::machine::run;
use crate::gpu::machine::step;
use crate::gpu::machine::zeroed;
use crate::gpu::machine::Machine;
use crate::gpu::machine::RowState;
use crate::gpu::machine::Task;
use crate::gpu::plan::Launch;
use crate::gpu::plan::Shape;
use crate::gpu::rows::added_up;
use crate::gpu::rows::draw_of;
use crate::gpu::rows::hessian_range;
use crate::gpu::rows::lemma_share_range;
use crate::gpu::rows::normal_threshold;
use crate::gpu::rows::pseudo_value;
use crate::gpu::rows::sample_share;
use crate::gpu::rows::share_of;
use crate::gpu::rows::stat_of;
use crate::gpu::rows::Stat;
use crate::gpu::rows::EIGHT32;
use crate::gpu::rows::GEN_SALT;
use crate::gpu::rows::HALF_NORMAL_MEAN32;
use crate::gpu::run::grown;
use crate::gpu::setup::seed_of;
use crate::gpu::steps::accumulates;
use crate::gpu::steps::has_sums;
use crate::gpu::steps::leaf_gradient;
use crate::gpu::steps::leaf_hessian;
use crate::gpu::steps::leaf_total;
use crate::gpu::steps::lemma_levels_spare;
use crate::gpu::steps::lemma_poised_sums;
use crate::gpu::steps::lemma_row_total;
use crate::gpu::steps::lemma_tail_values;
use crate::gpu::steps::row_total;
use crate::reals::faithful;
use crate::reals::fits32;
use crate::reals::lemma_constants;
use crate::reals::lemma_counted32;
use crate::reals::lemma_difference32;
use crate::reals::lemma_order32;
use crate::reals::lemma_product32;
use crate::reals::lemma_quotient32;
use crate::reals::lemma_root32;
use crate::reals::lemma_sign32;
use crate::reals::lemma_sum32;
use crate::reals::size_of;
use crate::reals::twos;
use crate::sums::parts_fit32;
use crate::sums::total;

verus! {

/// A launch leaves place `k` of the variances as it is.
spec fn spares_place(l: Launch, leaves: int, k: int) -> bool {
    match l {
        Launch::LeafValues { base } => !(base <= k < base + leaves),
        _ => true,
    }
}

proof fn lemma_place_spared<A: Arith, C: Accum<A>>(j: Task, m: Machine, ls: Seq<Launch>, k: int)
    requires
        0 <= k < m.leaves.var.len(),
        0 <= j.shape.leaves(),
        forall|i: int| 0 <= i < ls.len() ==> spares_place(#[trigger] ls[i], j.shape.leaves(), k),
    ensures
        run::<A, C>(j, m, ls).leaves.var.len() == m.leaves.var.len(),
        run::<A, C>(j, m, ls).leaves.var[k] == m.leaves.var[k],
    decreases ls.len(),
{
    if ls.len() > 0 {
        assert(spares_place(ls[0], j.shape.leaves(), k));
        let next = step::<A, C>(j, m, ls[0]);
        assert(next.leaves.var.len() == m.leaves.var.len() && next.leaves.var[k]
            == m.leaves.var[k]) by {
            reveal(step);
        }
        assert forall|i: int| 0 <= i < ls.skip(1).len() implies spares_place(
            #[trigger] ls.skip(1)[i],
            j.shape.leaves(),
            k,
        ) by {
            assert(ls.skip(1)[i] == ls[i + 1]);
        }
        lemma_place_spared::<A, C>(j, next, ls.skip(1), k);
    }
}

/// A tree enters the variances of its own leaves alone.
proof fn lemma_tree_spares(s: Shape, tree: int, k: int)
    requires
        s.well_formed(),
        0 <= tree < s.n_trees,
        0 <= k < tree * s.leaves(),
    ensures
        forall|i: int|
            0 <= i < s.tree_plan(tree).len() ==> spares_place(
                #[trigger] s.tree_plan(tree)[i],
                s.leaves(),
                k,
            ),
{
    let head = s.head_plan(tree);
    let levels = s.levels_plan(tree, s.depth as nat);
    let tail = s.tail_plan(tree);
    let leaves = s.leaves();
    let nt = s.n_trees as int;
    lemma_pow2_pos(s.depth as nat);
    assert(0 <= tree * leaves <= nt * leaves) by (nonlinear_arith)
        requires
            0 <= tree < nt,
            leaves >= 0,
    ;
    lemma_levels_spare(s, tree, s.depth as nat);
    assert forall|i: int| 0 <= i < head.len() implies spares_place(#[trigger] head[i], leaves, k) by {}
    assert forall|i: int| 0 <= i < tail.len() implies spares_place(#[trigger] tail[i], leaves, k) by {}
    assert forall|i: int| 0 <= i < s.tree_plan(tree).len() implies spares_place(
        #[trigger] s.tree_plan(tree)[i],
        leaves,
        k,
    ) by {
        if i < head.len() {
            assert(s.tree_plan(tree)[i] == head[i]);
        } else if i < head.len() + levels.len() {
            assert(s.tree_plan(tree)[i] == levels[i - head.len()]);
        } else {
            assert(s.tree_plan(tree)[i] == tail[i - head.len() - levels.len()]);
        }
    }
}

proof fn lemma_variance_kept<A: Arith, C: Accum<A>>(j: Task, tree: int, t: nat, l: int)
    requires
        j.shape.well_formed(),
        0 <= tree < t <= j.shape.n_trees,
        0 <= l < j.shape.leaves(),
    ensures
        ({
            let k = tree * j.shape.leaves() + l;
            grown::<A, C>(j, t).leaves.var[k] == grown::<A, C>(
                j,
                (tree + 1) as nat,
            ).leaves.var[k]
        }),
    decreases t,
{
    if tree + 1 < t {
        let low = (t - 1) as nat;
        let leaves = j.shape.leaves();
        let k = tree * leaves + l;
        let nt = j.shape.n_trees as int;
        lemma_variance_kept::<A, C>(j, tree, low, l);
        lemma_poised_sums::<A, C>(j, low as int);
        lemma_pow2_pos(j.shape.depth as nat);
        assert(0 <= k && k < low * leaves && low * leaves <= nt * leaves) by (nonlinear_arith)
            requires
                0 <= tree,
                tree + 1 <= low,
                low <= nt,
                0 <= l < leaves,
                k == tree * leaves + l,
        ;
        lemma_tree_spares(j.shape, low as int, k);
        lemma_place_spared::<A, C>(j, grown::<A, C>(j, low), j.shape.tree_plan(low as int), k);
    }
}

/// The variance of a leaf with gradient sum `g`, hessian sum `h` and sum of squares `g2`, scaled
/// by the squared learning rate. Where the hessians are one, the sums are those over `h` rows.
pub open spec fn scattered(v: real, g: real, h: real, g2: real, lr: real) -> bool {
    let s = h * g2 - g * g;
    &&& h <= 1real ==> v == 0real
    &&& 1real < h ==> v * (h * h) == lr * lr * (if s < 0real {
        0real
    } else {
        s
    })
}

/// The steps towards the variance of a leaf can be written down.
pub open spec fn scatter_fits(g: real, h: real, g2: real, lr: real) -> bool {
    let mean = g / h;
    let v = g2 / h - mean * mean;
    &&& h != 0real
    &&& fits32(mean)
    &&& fits32(g2 / h)
    &&& fits32(mean * mean)
    &&& fits32(v)
    &&& fits32(lr * lr)
    &&& fits32(lr * lr * v)
}

proof fn lemma_variance<A: Arith>(g: F32, h: F32, g2: F32, lr: F32)
    requires
        faithful::<A>(),
        g.finite(),
        h.finite(),
        g2.finite(),
        lr.finite(),
        scatter_fits(g.amount(), h.amount(), g2.amount(), lr.amount()),
    ensures
        variance_of::<A>(g, h, g2, lr).finite(),
        scattered(
            variance_of::<A>(g, h, g2, lr).amount(),
            g.amount(),
            h.amount(),
            g2.amount(),
            lr.amount(),
        ),
{
    let zero = F32 { bits: 0 };
    let one = F32 { bits: ONE32 };
    lemma_constants();
    lemma_quotient32::<A>(g, h);
    lemma_quotient32::<A>(g2, h);
    let mean = quotient32::<A>(g, h);
    lemma_product32::<A>(mean, mean);
    lemma_difference32::<A>(quotient32::<A>(g2, h), product32::<A>(mean, mean));
    let v = difference32::<A>(quotient32::<A>(g2, h), product32::<A>(mean, mean));
    lemma_order32(one, h);
    lemma_order32(zero, v);
    lemma_product32::<A>(lr, lr);
    let rate = product32::<A>(lr, lr);
    let r = rate.amount();
    assert(r * 0real == 0real) by (nonlinear_arith);
    assert(zero.means(0real));
    lemma_product32::<A>(rate, v);
    lemma_product32::<A>(rate, zero);
    let x = g.amount();
    let y = h.amount();
    let z = g2.amount();
    let d = v.amount();
    assert(d * (y * y) == y * z - x * x) by (nonlinear_arith)
        requires
            d == z / y - (x / y) * (x / y),
            y != 0real,
    ;
    if 1real < y {
        let s = y * z - x * x;
        assert(0real < d <==> 0real < s) by (nonlinear_arith)
            requires
                d * (y * y) == s,
                1real < y,
        ;
        assert((r * d) * (y * y) == r * s) by (nonlinear_arith)
            requires
                d * (y * y) == s,
        ;
        assert(0real * (y * y) == 0real) by (nonlinear_arith);
    }
}

/// The sum of the squared gradients of a leaf, over the rows that are drawn and at it.
pub open spec fn leaf_squares<A: Arith, C: Accum<A>>(j: Task, tree: int, l: int) -> real {
    let rows = poised::<A, C>(j, tree).rows;
    row_total::<A>(j, squares::<A>(rows.g), rows.leaf, tree, l)
}

proof fn lemma_tail_variance<A: Arith, C: Accum<A>>(
    reads: spec_fn(C, real) -> bool,
    j: Task,
    m: Machine,
    tree: int,
    l: int,
)
    requires
        faithful::<A>(),
        accumulates::<A, C>(reads),
        j.shape.well_formed(),
        has_sums(j, m),
        0 <= tree < j.shape.n_trees,
        0 <= l < j.shape.leaves(),
        forall|i: int| 0 <= i < j.shape.n ==> #[trigger] m.rows.leaf[i] < j.shape.leaves(),
        j.lr.finite(),
        parts_fit32(m.rows.g, j.shape.n as nat),
        parts_fit32(m.rows.h, j.shape.n as nat),
        parts_fit32(squares::<A>(m.rows.g), j.shape.n as nat),
        scatter_fits(
            row_total::<A>(j, m.rows.g, m.rows.leaf, tree, l),
            row_total::<A>(j, m.rows.h, m.rows.leaf, tree, l),
            row_total::<A>(j, squares::<A>(m.rows.g), m.rows.leaf, tree, l),
            j.lr.amount(),
        ),
    ensures
        ({
            let v = run::<A, C>(j, m, j.shape.tail_plan(tree)).leaves.var[tree * j.shape.leaves()
                + l];
            &&& v.finite()
            &&& scattered(
                v.amount(),
                row_total::<A>(j, m.rows.g, m.rows.leaf, tree, l),
                row_total::<A>(j, m.rows.h, m.rows.leaf, tree, l),
                row_total::<A>(j, squares::<A>(m.rows.g), m.rows.leaf, tree, l),
                j.lr.amount(),
            )
        }),
{
    let n = j.shape.n as nat;
    let total = (j.shape.replicas * j.shape.leaves()) as nat;
    let r = j.leaf_rows(m.rows.leaf, seed_of(tree as u32));
    lemma_tail_values::<A, C>(j, m, tree, l);
    lemma_row_total::<A, C>(reads, j, m.leaves.g, m.rows.g, m.rows.leaf, tree, l);
    lemma_row_total::<A, C>(reads, j, m.leaves.h, m.rows.h, m.rows.leaf, tree, l);
    lemma_row_total::<A, C>(
        reads,
        j,
        m.leaves.g2,
        squares::<A>(m.rows.g),
        m.rows.leaf,
        tree,
        l,
    );
    let g = leaf_total::<A, C>(r, zeroed(m.leaves.g, total), m.rows.g, n)[l];
    let h = leaf_total::<A, C>(r, zeroed(m.leaves.h, total), m.rows.h, n)[l];
    let g2 = leaf_total::<A, C>(r, zeroed(m.leaves.g2, total), squares::<A>(m.rows.g), n)[l];
    lemma_variance::<A>(g, h, g2, j.lr);
}

/// Where no sum is rounded, each leaf of a run has the variance of the gradients of the rows that
/// are drawn and at it, scaled by the squared learning rate; leaves of one row have none.
pub proof fn lemma_run_variance<A: Arith, C: Accum<A>>(
    reads: spec_fn(C, real) -> bool,
    j: Task,
    x: Seq<F32>,
    tree: int,
    t: nat,
    l: int,
)
    requires
        faithful::<A>(),
        accumulates::<A, C>(reads),
        j.valid(),
        holds_rows(j, x),
        0 <= tree < t <= j.shape.n_trees,
        0 <= l < j.shape.leaves(),
        j.lr.finite(),
        parts_fit32(poised::<A, C>(j, tree).rows.g, j.shape.n as nat),
        parts_fit32(poised::<A, C>(j, tree).rows.h, j.shape.n as nat),
        parts_fit32(squares::<A>(poised::<A, C>(j, tree).rows.g), j.shape.n as nat),
        scatter_fits(
            leaf_gradient::<A, C>(j, tree, l),
            leaf_hessian::<A, C>(j, tree, l),
            leaf_squares::<A, C>(j, tree, l),
            j.lr.amount(),
        ),
    ensures
        ({
            let v = grown::<A, C>(j, t).leaves.var[tree * j.shape.leaves() + l];
            &&& v.finite()
            &&& scattered(
                v.amount(),
                leaf_gradient::<A, C>(j, tree, l),
                leaf_hessian::<A, C>(j, tree, l),
                leaf_squares::<A, C>(j, tree, l),
                j.lr.amount(),
            )
        }),
{
    let at = poised::<A, C>(j, tree);
    lemma_poised::<A, C>(j, x, tree);
    lemma_variance_kept::<A, C>(j, tree, t, l);
    lemma_poised_sums::<A, C>(j, tree);
    lemma_tail_variance::<A, C>(reads, j, at, tree, l);
}

/// The square of a standard deviation is the variance, and zero where that is negative.
pub proof fn lemma_std<A: Arith>(var: F32, r: real)
    requires
        faithful::<A>(),
        var.finite(),
        0real <= r,
        fits32(r),
        r * r == if var.amount() < 0real {
            0real
        } else {
            var.amount()
        },
    ensures
        std_of::<A>(var).means(r),
{
    let zero = F32 { bits: 0 };
    lemma_constants();
    lemma_order32(var, zero);
    lemma_root32::<A>(var.larger(zero), r);
}

/// What is summed for the variance of leaves is the squares of the gradients.
pub proof fn lemma_squared<A: Arith>(vals: Seq<F32>, i: int)
    requires
        faithful::<A>(),
        0 <= i < vals.len(),
        vals[i].finite(),
        fits32(vals[i].amount() * vals[i].amount()),
    ensures
        squares::<A>(vals)[i].means(vals[i].amount() * vals[i].amount()),
{
    lemma_product32::<A>(vals[i], vals[i]);
}

/// What one row adds to a statistic: its value, the square of it, or its size.
pub open spec fn stat_amount(stat: Stat, v: real) -> real {
    match stat {
        Stat::Value => v,
        Stat::Square => v * v,
        Stat::Size => if v < 0real {
            -v
        } else {
            v
        },
    }
}

/// What the rows add to a statistic.
pub open spec fn stat_amounts(stat: Stat, vals: Seq<F32>) -> spec_fn(int) -> real {
    |i: int| stat_amount(stat, vals[i].amount())
}

/// A statistic is the sum over the rows of their values, of the squares of them, or of their
/// sizes.
pub proof fn lemma_statistic<A: Arith>(stat: Stat, vals: Seq<F32>, k: nat)
    requires
        faithful::<A>(),
        k <= vals.len(),
        forall|i: int|
            0 <= i < k ==> (#[trigger] vals[i]).finite() && fits32(stat_amounts(stat, vals)(i)),
        forall|m: nat| m <= k ==> fits32(#[trigger] total(m, stat_amounts(stat, vals))),
    ensures
        added_up::<A>(F32 { bits: 0 }, stat, vals, k).means(total(k, stat_amounts(stat, vals))),
    decreases k,
{
    let zero = F32 { bits: 0 };
    lemma_constants();
    if k > 0 {
        lemma_statistic::<A>(stat, vals, (k - 1) as nat);
        let v = vals[k - 1];
        assert(v.finite());
        lemma_sign32(v);
        lemma_order32(v, zero);
        if stat is Square {
            lemma_product32::<A>(v, v);
        }
        assert(stat_of::<A>(stat, v).means(stat_amounts(stat, vals)(k - 1)));
        assert(fits32(total(k, stat_amounts(stat, vals))));
        lemma_sum32::<A>(
            added_up::<A>(zero, stat, vals, (k - 1) as nat),
            stat_of::<A>(stat, v),
        );
    }
}

/// The steps towards the interval of hessians can be written down; `std` is their deviation.
pub open spec fn range_fits(sum: real, squares: real, n: real, z: real, std: real) -> bool {
    let mean = sum / n;
    let var = squares / n - mean * mean;
    &&& fits32(n)
    &&& fits32(mean)
    &&& fits32(squares / n)
    &&& fits32(mean * mean)
    &&& fits32(var)
    &&& 0real < var
    &&& 0real <= std
    &&& std * std == var
    &&& fits32(std)
    &&& fits32(z * std)
    &&& fits32(mean - z * std)
    &&& fits32(mean + z * std)
}

/// Hessians are kept within the given number of deviations of their mean, and not below a least
/// one: the ends of the interval are as far from the mean as each other.
pub proof fn lemma_range<A: Arith>(stats: Seq<F32>, n: u32, z: F32, eps: F32, std: real)
    requires
        faithful::<A>(),
        0 < n,
        stats[0].finite(),
        stats[1].finite(),
        z.finite(),
        eps.finite(),
        range_fits(stats[0].amount(), stats[1].amount(), n as real, z.amount(), std),
    ensures
        ({
            let range = hessian_range::<A>(stats, n, z, eps);
            let mean = stats[0].amount() / (n as real);
            let low = mean - z.amount() * std;
            &&& range.0.means(
                if low < eps.amount() {
                    eps.amount()
                } else {
                    low
                },
            )
            &&& range.1.means(mean + z.amount() * std)
        }),
{
    let zero = F32 { bits: 0 };
    lemma_constants();
    lemma_counted32::<A>(n as u64);
    let count = counted32::<A>(n as u64);
    lemma_quotient32::<A>(stats[0], count);
    lemma_quotient32::<A>(stats[1], count);
    let mean = quotient32::<A>(stats[0], count);
    lemma_product32::<A>(mean, mean);
    let var = difference32::<A>(quotient32::<A>(stats[1], count), product32::<A>(mean, mean));
    lemma_difference32::<A>(quotient32::<A>(stats[1], count), product32::<A>(mean, mean));
    lemma_order32(zero, var);
    lemma_root32::<A>(var, std);
    let root = root32::<A>(var);
    lemma_product32::<A>(z, root);
    let off = product32::<A>(z, root);
    lemma_difference32::<A>(mean, off);
    lemma_sum32::<A>(mean, off);
    lemma_order32(difference32::<A>(mean, off), eps);
}

/// The threshold of gradient sizes, times the number of rows and the mean size of a standard
/// normal variable, is the number of deviations times the sum of the sizes.
pub proof fn lemma_threshold<A: Arith>(sum: F32, n: u32, q: F32)
    requires
        faithful::<A>(),
        0 < n,
        sum.finite(),
        q.finite(),
        ({
            let c = (F32 { bits: HALF_NORMAL_MEAN32 }).amount();
            let mean = sum.amount() / (n as real);
            &&& fits32(n as real)
            &&& fits32(mean)
            &&& fits32(mean / c)
            &&& fits32(mean / c * q.amount())
        }),
    ensures
        normal_threshold::<A>(sum, n, q).finite(),
        normal_threshold::<A>(sum, n, q).amount() * (n as real) * (F32 {
            bits: HALF_NORMAL_MEAN32,
        }).amount() == q.amount() * sum.amount(),
{
    let c = F32 { bits: HALF_NORMAL_MEAN32 };
    let zero = F32 { bits: 0 };
    lemma_constants();
    lemma_order32(zero, c);
    lemma_counted32::<A>(n as u64);
    let count = counted32::<A>(n as u64);
    lemma_quotient32::<A>(sum, count);
    let mean = quotient32::<A>(sum, count);
    lemma_quotient32::<A>(mean, c);
    let sigma = quotient32::<A>(mean, c);
    lemma_product32::<A>(sigma, q);
    let t = normal_threshold::<A>(sum, n, q).amount();
    let s = sum.amount();
    let m = n as real;
    let d = c.amount();
    let w = q.amount();
    assert(t * m * d == w * s) by (nonlinear_arith)
        requires
            t == ((s / m) / d) * w,
            m > 0real,
            d > 0real,
    ;
}

/// Sampling by gradient leaves a row whose gradient reaches the threshold as it is. A row that
/// does not counts with the amplified weight where it is drawn, and not at all elsewhere.
pub proof fn lemma_sampled_row<A: Arith>(j: Task, r: RowState, seed: u32, i: int)
    requires
        faithful::<A>(),
        0 <= i < j.shape.n,
        r.g.len() == j.shape.n,
        r.h.len() == j.shape.n,
        r.g[i].finite(),
        r.h[i].finite(),
        r.thresh[0].finite(),
        j.amplify.finite(),
        fits32(r.g[i].amount() * j.amplify.amount()),
        fits32(r.h[i].amount() * j.amplify.amount()),
    ensures
        ({
            let after = row_step::<A>(j, r, Launch::GossApply { seed });
            let size = if r.g[i].amount() < 0real {
                -r.g[i].amount()
            } else {
                r.g[i].amount()
            };
            let drawn = sample_share::<A>(i as u32, seed).below(j.other_rate);
            let w = if r.thresh[0].amount() <= size {
                1real
            } else if drawn {
                j.amplify.amount()
            } else {
                0real
            };
            &&& after.g[i].means(r.g[i].amount() * w)
            &&& after.h[i].means(r.h[i].amount() * w)
            &&& after.pred == r.pred
            &&& after.leaf == r.leaf
        }),
{
    let zero = F32 { bits: 0 };
    let one = F32 { bits: ONE32 };
    let g = r.g[i];
    let h = r.h[i];
    lemma_constants();
    lemma_sign32(g);
    lemma_order32(g, zero);
    lemma_order32(r.thresh[0], g);
    lemma_order32(r.thresh[0], g.opposite());
    let a = g.amount();
    let b = h.amount();
    assert(a * 1real == a && b * 1real == b && a * 0real == 0real && b * 0real == 0real)
        by (nonlinear_arith);
    assert(g.means(a) && h.means(b) && zero.means(0real));
    lemma_product32::<A>(g, one);
    lemma_product32::<A>(h, one);
    lemma_product32::<A>(g, zero);
    lemma_product32::<A>(h, zero);
    lemma_product32::<A>(g, j.amplify);
    lemma_product32::<A>(h, j.amplify);
}

/// The amplified weight of sampled rows, times the share of rows that is sampled, is the share of
/// rows without top gradients; and the scale of integer histograms and its inverse cancel out.
pub proof fn lemma_run_weights<A: Arith>(ds: Dataset, cfg: Config, halves: bool)
    requires
        faithful::<A>(),
        cfg.goss_top.finite(),
        cfg.goss_other.finite(),
        cfg.int_scale.finite(),
        cfg.int_scale.amount() != 0real,
        (F32 { bits: MILLIONTH32 }).amount() <= cfg.goss_other.amount(),
        fits32(1real - cfg.goss_top.amount()),
        fits32((1real - cfg.goss_top.amount()) / cfg.goss_other.amount()),
        fits32(1real / cfg.int_scale.amount()),
    ensures
        ({
            let j = device_task::<A>(ds, cfg, halves);
            &&& j.amplify.finite()
            &&& j.amplify.amount() * cfg.goss_other.amount() == 1real - cfg.goss_top.amount()
            &&& j.other_rate == cfg.goss_other
            &&& j.inv_scale.finite()
            &&& j.inv_scale.amount() * j.int_scale.amount() == 1real
            &&& j.int_scale == cfg.int_scale
            &&& j.subsample == cfg.subsample
        }),
{
    let zero = F32 { bits: 0 };
    let one = F32 { bits: ONE32 };
    let tiny = F32 { bits: MILLIONTH32 };
    lemma_constants();
    lemma_difference32::<A>(one, cfg.goss_top);
    let rest = difference32::<A>(one, cfg.goss_top);
    lemma_order32(cfg.goss_other, tiny);
    lemma_order32(zero, tiny);
    lemma_quotient32::<A>(rest, cfg.goss_other);
    lemma_quotient32::<A>(one, cfg.int_scale);
    let a = rest.amount();
    let b = cfg.goss_other.amount();
    let c = cfg.int_scale.amount();
    assert(a / b * b == a && 1real / c * c == 1real) by (nonlinear_arith)
        requires
            b > 0real,
            c != 0real,
    ;
}

/// A generated value is as far from minus four, as a share of eight, as the draw is from zero, as a
/// share of one.
pub proof fn lemma_pseudo_value<A: Arith>(id: u32, seed: u32)
    requires
        faithful::<A>(),
        ({
            let share = share_of::<A>(draw_of(id, seed ^ GEN_SALT)).amount();
            &&& fits32(share - 1real / 2real)
            &&& fits32((share - 1real / 2real) * 8real)
        }),
    ensures
        ({
            let v = pseudo_value::<A>(id, seed);
            let share = share_of::<A>(draw_of(id, seed ^ GEN_SALT));
            &&& v.finite()
            &&& v.amount() + 4real == share.amount() * 8real
            &&& -4real <= v.amount() < 4real
        }),
{
    lemma2_to64();
    lemma_constants();
    let share = share_of::<A>(draw_of(id, seed ^ GEN_SALT));
    lemma_share_range::<A>(draw_of(id, seed ^ GEN_SALT));
    let half = F32 { bits: HALF32 };
    let eight = F32 { bits: EIGHT32 };
    let a = eight.magnitude();
    assert(a / 0x80_0000 == 130 && a % 0x80_0000 == 0);
    assert(pow2(20) == 0x10_0000);
    assert(twos(-20) == 1real / (0x10_0000int as real));
    assert(size_of(a, 0x80_0000, -149) == (0x80_0000int as real) * twos(-20));
    lemma_order32(F32 { bits: 0 }, share);
    lemma_order32(share, F32 { bits: ONE32 });
    lemma_difference32::<A>(share, half);
    lemma_product32::<A>(difference32::<A>(share, half), eight);
}

} // verus!
