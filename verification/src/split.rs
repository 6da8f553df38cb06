//! Choosing the split of a tree level.
//!
//! An oblivious tree splits all nodes of a level by one feature and one bin. A split is worth
//! the sum over the nodes of what parting each of them at that bin gains.

use vstd::prelude::*;

use crate::arith::add64;
use crate::arith::deterministic;
use crate::arith::difference64;
use crate::arith::div64;
use crate::arith::mul64;
use crate::arith::product64;
use crate::arith::quotient64;
use crate::arith::sub64;
use crate::arith::sum64;
use crate::arith::widen;
use crate::arith::widened;
use crate::arith::Arith;
use crate::cells::cell;
use crate::cells::lemma_cell;
use crate::float::F32;
use crate::float::F64;
use crate::float::MINUS_INFINITY64;
use crate::float::ONE64;
use crate::par::par_map;

verus! {

/// What the gains of a level are computed from: the histogram of its nodes, the regulariser
/// that is added to a hessian sum, and the least hessian sum that a child may have.
pub struct Level {
    pub hist: Seq<F32>,
    pub nodes: nat,
    pub nf: nat,
    pub nbins: nat,
    pub lambda: F64,
    pub min_child: F64,
}

/// A split, and what it is worth.
pub struct Choice {
    pub gain: F64,
    pub feature: int,
    pub bin: int,
}

impl Level {
    /// The sum of the first `k` bins of feature `f` at node `nd`: of the gradients with
    /// `side` zero, of the hessians with `side` one.
    pub open spec fn running<A: Arith>(self, nd: int, f: int, side: int, k: nat) -> F64
        decreases k,
    {
        if k == 0 {
            F64 { bits: 0 }
        } else {
            sum64::<A>(
                self.running::<A>(nd, f, side, (k - 1) as nat),
                widened::<A>(
                    self.hist[cell(nd, f, k - 1, self.nf as int, self.nbins as int) * 2 + side],
                ),
            )
        }
    }

    /// What parting node `nd` after bin `b` of feature `f` gains; zero times that where a
    /// child would have too small a hessian sum.
    pub open spec fn node_gain<A: Arith>(self, nd: int, f: int, b: int) -> F64 {
        let gl = self.running::<A>(nd, f, 0, (b + 1) as nat);
        let hl = self.running::<A>(nd, f, 1, (b + 1) as nat);
        let gt = self.running::<A>(nd, f, 0, self.nbins);
        let ht = self.running::<A>(nd, f, 1, self.nbins);
        let gr = difference64::<A>(gt, gl);
        let hr = difference64::<A>(ht, hl);
        let valid = if self.min_child.at_most(hl) && self.min_child.at_most(hr) {
            F64 { bits: ONE64 }
        } else {
            F64 { bits: 0 }
        };
        product64::<A>(
            valid,
            difference64::<A>(
                sum64::<A>(score::<A>(gl, hl, self.lambda), score::<A>(gr, hr, self.lambda)),
                score::<A>(gt, ht, self.lambda),
            ),
        )
    }

    /// What splitting the first `k` nodes after bin `b` of feature `f` gains.
    pub open spec fn gain<A: Arith>(self, f: int, b: int, k: nat) -> F64
        decreases k,
    {
        if k == 0 {
            F64 { bits: 0 }
        } else {
            sum64::<A>(self.gain::<A>(f, b, (k - 1) as nat), self.node_gain::<A>(k - 1, f, b))
        }
    }

    /// The gains of the splits of feature `f`.
    pub open spec fn gains<A: Arith>(self, f: int) -> Seq<F64> {
        Seq::new((self.nbins - 1) as nat, |b: int| self.gain::<A>(f, b, self.nodes))
    }

    /// The best split of the first `k` features.
    pub open spec fn best_of<A: Arith>(self, k: nat) -> Choice
        decreases k,
    {
        if k == 0 {
            Choice { gain: F64 { bits: MINUS_INFINITY64 }, feature: 0, bin: 0 }
        } else {
            let before = self.best_of::<A>((k - 1) as nat);
            let (gain, bin) = leading(self.gains::<A>(k - 1), (self.nbins - 1) as nat);
            if before.gain.below(gain) {
                Choice { gain, feature: k - 1, bin }
            } else {
                before
            }
        }
    }

    /// The best split of the level.
    pub open spec fn best<A: Arith>(self) -> Choice {
        self.best_of::<A>(self.nf)
    }

    /// The histogram has a cell for each node, feature and bin.
    pub open spec fn well_formed(self) -> bool {
        &&& self.nbins >= 2
        &&& self.nf >= 1
        &&& self.hist.len() == self.nodes * self.nf * self.nbins * 2
    }
}

/// The score of a node with gradient sum `g` and hessian sum `h`.
pub open spec fn score<A: Arith>(g: F64, h: F64, lambda: F64) -> F64 {
    quotient64::<A>(product64::<A>(g, g), sum64::<A>(h, lambda))
}

/// The first of the largest among the first `k` gains, with its place; negative infinity
/// where none is larger than that.
pub open spec fn leading(gains: Seq<F64>, k: nat) -> (F64, int)
    decreases k,
{
    if k == 0 {
        (F64 { bits: MINUS_INFINITY64 }, 0)
    } else {
        let before = leading(gains, (k - 1) as nat);
        if before.0.below(gains[k - 1]) {
            (gains[k - 1], k - 1)
        } else {
            before
        }
    }
}

/// No gain exceeds the leading one, and those before it are less.
proof fn lemma_leading(gains: Seq<F64>, k: nat)
    requires
        k <= gains.len(),
    ensures
        !leading(gains, k).0.nan(),
        0 <= leading(gains, k).1,
        k > 0 ==> leading(gains, k).1 < k,
        forall|j: int| 0 <= j < k ==> !leading(gains, k).0.below(#[trigger] gains[j]),
        forall|j: int|
            0 <= j < leading(gains, k).1 ==> (#[trigger] gains[j]).nan() || gains[j].below(
                leading(gains, k).0,
            ),
        leading(gains, k).0 == (F64 { bits: MINUS_INFINITY64 }) || (k > 0 && leading(gains, k).0
            == gains[leading(gains, k).1]),
        leading(gains, k).0 == (F64 { bits: MINUS_INFINITY64 }) ==> leading(gains, k).1 == 0,
    decreases k,
{
    if k > 0 {
        lemma_leading(gains, (k - 1) as nat);
    }
}

/// No split of the first `k` features exceeds the best one of them.
proof fn lemma_best_of<A: Arith>(lv: Level, k: nat)
    requires
        lv.well_formed(),
        k <= lv.nf,
    ensures
        !lv.best_of::<A>(k).gain.nan(),
        0 <= lv.best_of::<A>(k).feature < lv.nf,
        k > 0 ==> lv.best_of::<A>(k).feature < k,
        0 <= lv.best_of::<A>(k).bin < lv.nbins - 1,
        forall|f: int, b: int|
            0 <= f < k && 0 <= b < lv.nbins - 1 ==> !lv.best_of::<A>(k).gain.below(
                #[trigger] lv.gain::<A>(f, b, lv.nodes),
            ),
        forall|f: int, b: int|
            (0 <= f < lv.best_of::<A>(k).feature && 0 <= b < lv.nbins - 1) || (f == lv.best_of::<
                A,
            >(k).feature && 0 <= b < lv.best_of::<A>(k).bin) ==> (#[trigger] lv.gain::<A>(
                f,
                b,
                lv.nodes,
            )).nan() || lv.gain::<A>(f, b, lv.nodes).below(lv.best_of::<A>(k).gain),
        lv.best_of::<A>(k).gain == (F64 { bits: MINUS_INFINITY64 }) || lv.best_of::<A>(k).gain
            == lv.gain::<A>(lv.best_of::<A>(k).feature, lv.best_of::<A>(k).bin, lv.nodes),
    decreases k,
{
    if k > 0 {
        lemma_best_of::<A>(lv, (k - 1) as nat);
        let gains = lv.gains::<A>(k - 1);
        lemma_leading(gains, (lv.nbins - 1) as nat);
        assert forall|b: int| 0 <= b < lv.nbins - 1 implies gains[b] == #[trigger] lv.gain::<A>(
            k - 1,
            b,
            lv.nodes,
        ) by {}
    }
}

/// The best split of a level is worth at least as much as every other split, and more than
/// those of lower features and of lower bins of its own feature, gains that are NaN aside.
pub proof fn lemma_best<A: Arith>(lv: Level)
    requires
        lv.well_formed(),
    ensures
        0 <= lv.best::<A>().feature < lv.nf,
        0 <= lv.best::<A>().bin < lv.nbins - 1,
        forall|f: int, b: int|
            0 <= f < lv.nf && 0 <= b < lv.nbins - 1 ==> !lv.best::<A>().gain.below(
                #[trigger] lv.gain::<A>(f, b, lv.nodes),
            ),
        forall|f: int, b: int|
            (0 <= f < lv.best::<A>().feature && 0 <= b < lv.nbins - 1) || (f == lv.best::<
                A,
            >().feature && 0 <= b < lv.best::<A>().bin) ==> (#[trigger] lv.gain::<A>(
                f,
                b,
                lv.nodes,
            )).nan() || lv.gain::<A>(f, b, lv.nodes).below(lv.best::<A>().gain),
{
    lemma_best_of::<A>(lv, lv.nf);
}

/// The best split is worth what it gains, or nothing was found above negative infinity.
pub(crate) proof fn lemma_best_value<A: Arith>(lv: Level)
    requires
        lv.well_formed(),
    ensures
        lv.best::<A>().gain == (F64 { bits: MINUS_INFINITY64 }) || lv.best::<A>().gain == lv.gain::<
            A,
        >(lv.best::<A>().feature, lv.best::<A>().bin, lv.nodes),
{
    lemma_best_of::<A>(lv, lv.nf);
}

/// The running sums of the bins of feature `f` at node `nd`.
fn running_sums<A: Arith>(
    hist: &[F32],
    nd: usize,
    f: usize,
    nf: usize,
    nbins: usize,
    Ghost(lv): Ghost<Level>,
) -> (r: (Vec<F64>, Vec<F64>))
    requires
        lv.well_formed(),
        lv.hist == hist@,
        lv.nf == nf,
        lv.nbins == nbins,
        nd < lv.nodes,
        f < nf,
    ensures
        r.0@.len() == nbins,
        r.1@.len() == nbins,
        deterministic::<A>() ==> forall|b: int|
            0 <= b < nbins ==> #[trigger] r.0@[b] == lv.running::<A>(
                nd as int,
                f as int,
                0,
                (b + 1) as nat,
            ),
        deterministic::<A>() ==> forall|b: int|
            0 <= b < nbins ==> #[trigger] r.1@[b] == lv.running::<A>(
                nd as int,
                f as int,
                1,
                (b + 1) as nat,
            ),
{
    let mut pg: Vec<F64> = Vec::new();
    let mut ph: Vec<F64> = Vec::new();
    let mut gl = F64 { bits: 0 };
    let mut hl = F64 { bits: 0 };
    let mut b: usize = 0;
    while b < nbins
        invariant
            lv.well_formed(),
            lv.hist == hist@,
            lv.nf == nf,
            lv.nbins == nbins,
            nd < lv.nodes,
            f < nf,
            b <= nbins,
            pg@.len() == b,
            ph@.len() == b,
            deterministic::<A>() ==> gl == lv.running::<A>(nd as int, f as int, 0, b as nat),
            deterministic::<A>() ==> hl == lv.running::<A>(nd as int, f as int, 1, b as nat),
            deterministic::<A>() ==> forall|j: int|
                0 <= j < b ==> #[trigger] pg@[j] == lv.running::<A>(
                    nd as int,
                    f as int,
                    0,
                    (j + 1) as nat,
                ),
            deterministic::<A>() ==> forall|j: int|
                0 <= j < b ==> #[trigger] ph@[j] == lv.running::<A>(
                    nd as int,
                    f as int,
                    1,
                    (j + 1) as nat,
                ),
        decreases nbins - b,
    {
        let ghost c = cell(nd as int, f as int, b as int, nf as int, nbins as int);
        proof {
            lemma_cell(nd as int, f as int, b as int, lv.nodes as int, nf as int, nbins as int);
            assert(hist.len() == lv.nodes * nf * nbins * 2);
            assert(0 <= nd * nf) by (nonlinear_arith)
                requires
                    nd >= 0,
                    nf >= 0,
            ;
            assert(nd * nf + f <= (nd * nf + f) * nbins) by (nonlinear_arith)
                requires
                    nd * nf + f >= 0,
                    nbins >= 1,
            ;
        }
        let at: usize = ((nd * nf + f) * nbins + b) * 2;
        gl = add64::<A>(gl, widen::<A>(hist[at]));
        hl = add64::<A>(hl, widen::<A>(hist[at + 1]));
        pg.push(gl);
        ph.push(hl);
        b = b + 1;
    }
    (pg, ph)
}

/// The score of a node.
fn node_score<A: Arith>(g: F64, h: F64, lambda: F64) -> (r: F64)
    ensures
        deterministic::<A>() ==> r == score::<A>(g, h, lambda),
{
    div64::<A>(mul64::<A>(g, g), add64::<A>(h, lambda))
}

/// What parting a node gains, from its sums and those of its left child.
fn parting_gain<A: Arith>(
    gl: F64,
    hl: F64,
    gt: F64,
    ht: F64,
    parent: F64,
    lambda: F64,
    min_child: F64,
) -> (r: F64)
    ensures
        deterministic::<A>() ==> r == ({
            let gr = difference64::<A>(gt, gl);
            let hr = difference64::<A>(ht, hl);
            let valid = if min_child.at_most(hl) && min_child.at_most(hr) {
                F64 { bits: ONE64 }
            } else {
                F64 { bits: 0 }
            };
            product64::<A>(
                valid,
                difference64::<A>(
                    sum64::<A>(score::<A>(gl, hl, lambda), score::<A>(gr, hr, lambda)),
                    parent,
                ),
            )
        }),
{
    let gr = sub64::<A>(gt, gl);
    let hr = sub64::<A>(ht, hl);
    let valid = if hl.not_less(min_child) && hr.not_less(min_child) {
        F64 { bits: ONE64 }
    } else {
        F64 { bits: 0 }
    };
    let children = add64::<A>(
        node_score::<A>(gl, hl, lambda),
        node_score::<A>(gr, hr, lambda),
    );
    mul64::<A>(valid, sub64::<A>(children, parent))
}

/// The best split of feature `f`: what it is worth, and its bin.
fn feature_best<A: Arith>(
    hist: &[F32],
    f: usize,
    n_nodes: usize,
    nf: usize,
    nbins: usize,
    lambda: F64,
    min_child: F64,
) -> (r: (F64, usize))
    requires
        (Level {
            hist: hist@,
            nodes: n_nodes as nat,
            nf: nf as nat,
            nbins: nbins as nat,
            lambda,
            min_child,
        }).well_formed(),
        f < nf,
    ensures
        r.1 < nbins - 1,
        deterministic::<A>() ==> (r.0, r.1 as int) == leading(
            (Level {
                hist: hist@,
                nodes: n_nodes as nat,
                nf: nf as nat,
                nbins: nbins as nat,
                lambda,
                min_child,
            }).gains::<A>(f as int),
            (nbins - 1) as nat,
        ),
{
    let ghost lv = Level {
        hist: hist@,
        nodes: n_nodes as nat,
        nf: nf as nat,
        nbins: nbins as nat,
        lambda,
        min_child,
    };
    let nsplit: usize = nbins - 1;
    let mut gain: Vec<F64> = vec![F64 { bits: 0 };nsplit];
    let mut nd: usize = 0;
    while nd < n_nodes
        invariant
            lv == (Level {
                hist: hist@,
                nodes: n_nodes as nat,
                nf: nf as nat,
                nbins: nbins as nat,
                lambda,
                min_child,
            }),
            lv.well_formed(),
            f < nf,
            nsplit == nbins - 1,
            nd <= n_nodes,
            gain@.len() == nsplit,
            deterministic::<A>() ==> forall|b: int|
                0 <= b < nsplit ==> #[trigger] gain@[b] == lv.gain::<A>(f as int, b, nd as nat),
        decreases n_nodes - nd,
    {
        let (pg, ph) = running_sums::<A>(hist, nd, f, nf, nbins, Ghost(lv));
        let gt = pg[nbins - 1];
        let ht = ph[nbins - 1];
        let parent = node_score::<A>(gt, ht, lambda);
        let ghost before = gain@;
        let mut b: usize = 0;
        while b < nsplit
            invariant
                lv == (Level {
                    hist: hist@,
                    nodes: n_nodes as nat,
                    nf: nf as nat,
                    nbins: nbins as nat,
                    lambda,
                    min_child,
                }),
                lv.well_formed(),
                nsplit == nbins - 1,
                b <= nsplit,
                nd < n_nodes,
                gain@.len() == nsplit,
                before.len() == nsplit,
                pg@.len() == nbins,
                ph@.len() == nbins,
                deterministic::<A>() ==> forall|j: int|
                    0 <= j < nbins ==> #[trigger] pg@[j] == lv.running::<A>(
                        nd as int,
                        f as int,
                        0,
                        (j + 1) as nat,
                    ),
                deterministic::<A>() ==> forall|j: int|
                    0 <= j < nbins ==> #[trigger] ph@[j] == lv.running::<A>(
                        nd as int,
                        f as int,
                        1,
                        (j + 1) as nat,
                    ),
                gt == pg@[nbins - 1],
                ht == ph@[nbins - 1],
                deterministic::<A>() ==> parent == score::<A>(gt, ht, lambda),
                deterministic::<A>() ==> forall|j: int|
                    0 <= j < nsplit ==> #[trigger] before[j] == lv.gain::<A>(
                        f as int,
                        j,
                        nd as nat,
                    ),
                forall|j: int| b <= j < nsplit ==> #[trigger] gain@[j] == before[j],
                deterministic::<A>() ==> forall|j: int|
                    0 <= j < b ==> #[trigger] gain@[j] == lv.gain::<A>(
                        f as int,
                        j,
                        (nd + 1) as nat,
                    ),
            decreases nsplit - b,
        {
            let part = parting_gain::<A>(pg[b], ph[b], gt, ht, parent, lambda, min_child);
            assert(deterministic::<A>() ==> part == lv.node_gain::<A>(nd as int, f as int, b as int));
            assert(deterministic::<A>() ==> before[b as int] == lv.gain::<A>(
                f as int,
                b as int,
                nd as nat,
            ));
            gain[b] = add64::<A>(gain[b], part);
            b = b + 1;
        }
        nd = nd + 1;
    }
    let mut bg = F64 { bits: MINUS_INFINITY64 };
    let mut bb: usize = 0;
    let mut b: usize = 0;
    while b < nsplit
        invariant
            nsplit == nbins - 1,
            nsplit >= 1,
            b <= nsplit,
            bb < nsplit,
            gain@.len() == nsplit,
            (bg, bb as int) == leading(gain@, b as nat),
        decreases nsplit - b,
    {
        if bg.less(gain[b]) {
            bg = gain[b];
            bb = b;
        }
        b = b + 1;
    }
    proof {
        if deterministic::<A>() {
            assert(gain@ =~= lv.gains::<A>(f as int));
        }
    }
    (bg, bb)
}

/// The best split of a level: what it is worth, its feature and its bin. Features are
/// examined in parallel.
pub fn best_split<A: Arith>(
    hist: &[F32],
    n_nodes: usize,
    nf: usize,
    nbins: usize,
    lambda: F64,
    min_child: F64,
) -> (r: (F64, usize, usize))
    requires
        (Level {
            hist: hist@,
            nodes: n_nodes as nat,
            nf: nf as nat,
            nbins: nbins as nat,
            lambda,
            min_child,
        }).well_formed(),
    ensures
        r.1 < nf,
        r.2 < nbins - 1,
        deterministic::<A>() ==> (Choice { gain: r.0, feature: r.1 as int, bin: r.2 as int }) == (
        Level {
            hist: hist@,
            nodes: n_nodes as nat,
            nf: nf as nat,
            nbins: nbins as nat,
            lambda,
            min_child,
        }).best::<A>(),
{
    let ghost lv = Level {
        hist: hist@,
        nodes: n_nodes as nat,
        nf: nf as nat,
        nbins: nbins as nat,
        lambda,
        min_child,
    };
    let per: Vec<(F64, usize)> = par_map(
        nf,
        |f: usize| -> (r: (F64, usize))
            requires
                lv.well_formed() && lv.hist == hist@ && lv.nodes == n_nodes && lv.nf == nf,
                lv.nbins == nbins && lv.lambda == lambda && lv.min_child == min_child,
                f < nf,
            ensures
                r.1 < nbins - 1,
                deterministic::<A>() ==> (r.0, r.1 as int) == leading(lv.gains::<A>(f as int), (nbins - 1) as nat)
            { feature_best::<A>(hist, f, n_nodes, nf, nbins, lambda, min_child) },
    );
    let mut best = (F64 { bits: MINUS_INFINITY64 }, 0usize, 0usize);
    let mut f: usize = 0;
    while f < nf
        invariant
            f <= nf,
            per@.len() == nf,
            lv.nbins == nbins,
            nbins >= 2,
            nf >= 1,
            best.1 < nf,
            best.2 < nbins - 1,
            forall|j: int|
                #![trigger per@[j]]
                0 <= j < nf ==> {
                    &&& per@[j].1 < nbins - 1
                    &&& deterministic::<A>() ==> (per@[j].0, per@[j].1 as int) == leading(
                        lv.gains::<A>(j),
                        (nbins - 1) as nat,
                    )
                },
            deterministic::<A>() ==> (Choice {
                gain: best.0,
                feature: best.1 as int,
                bin: best.2 as int,
            }) == lv.best_of::<A>(f as nat),
        decreases nf - f,
    {
        let (gain, bin) = per[f];
        if best.0.less(gain) {
            best = (gain, f, bin);
        }
        f = f + 1;
    }
    best
}

} // verus!
