//! Gradient and hessian histograms of the rows at the nodes of one tree level.

use vstd::prelude::*;
use vstd::slice::slice_subrange;

use crate::arith::add32;
use crate::arith::deterministic;
use crate::arith::sum32;
use crate::arith::Arith;
use crate::cells::bin_of;
use crate::cells::cell;
use crate::cells::feature_of;
use crate::cells::lemma_cell;
use crate::cells::lemma_cell_parts;
use crate::cells::node_of;
use crate::float::F32;
use crate::par::par_map;

verus! {

/// How rows are assigned to the cells of a histogram: `node[r]` is the node that row `r` is
/// at, and `bins[r * nf + f]` its bin for feature `f`. With `odd_only`, the rows at odd nodes
/// alone are counted, under the index of their parent.
pub struct Assignment {
    pub node: Seq<u32>,
    pub bins: Seq<u8>,
    pub nf: int,
    pub nbins: int,
    pub odd_only: bool,
}

impl Assignment {
    /// The node that row `r` is counted under.
    pub open spec fn slot(self, r: int) -> Option<int> {
        if self.odd_only {
            if self.node[r] % 2 == 0 {
                None
            } else {
                Some(self.node[r] as int / 2)
            }
        } else {
            Some(self.node[r] as int)
        }
    }

    /// Row `r` is counted in cell `c`.
    pub open spec fn hits(self, r: int, c: int) -> bool {
        &&& self.slot(r) == Some(node_of(c, self.nf, self.nbins))
        &&& self.bins[r * self.nf + feature_of(c, self.nf, self.nbins)] == bin_of(c, self.nbins)
    }

    /// Row `r` lies at one of the first `nodes` nodes and in the first `nbins` bins, unless it is
    /// not counted.
    pub open spec fn fits_row(self, r: int, nodes: int) -> bool {
        &&& 0 <= r < self.node.len()
        &&& self.slot(r) matches Some(s) ==> {
            &&& s < nodes
            &&& r * self.nf + self.nf <= self.bins.len()
            &&& forall|f: int|
                0 <= f < self.nf ==> #[trigger] self.bins[r * self.nf + f] < self.nbins
        }
    }
}

/// The listed rows can be counted in a histogram of `nodes` nodes.
pub open spec fn countable(
    asg: Assignment,
    rows: Seq<u32>,
    g: Seq<F32>,
    h: Seq<F32>,
    nodes: int,
) -> bool {
    &&& 0 < asg.nf
    &&& 0 < asg.nbins
    &&& forall|k: int|
        0 <= k < rows.len() ==> asg.fits_row(#[trigger] rows[k] as int, nodes) && (asg.slot(
            rows[k] as int,
        ) is Some ==> rows[k] < g.len() && rows[k] < h.len())
}

/// The sum of `vals` over those of the first `k` listed rows that are counted in cell `c`, in
/// the order of the list.
pub open spec fn cell_sum<A: Arith>(
    asg: Assignment,
    rows: Seq<u32>,
    vals: Seq<F32>,
    k: nat,
    c: int,
) -> F32
    decreases k,
{
    if k == 0 {
        F32 { bits: 0 }
    } else {
        let before = cell_sum::<A>(asg, rows, vals, (k - 1) as nat, c);
        if asg.hits(rows[k - 1] as int, c) {
            sum32::<A>(before, vals[rows[k - 1] as int])
        } else {
            before
        }
    }
}

/// The rows of a list that worker `i` of `workers` takes: equal runs, the last ones shorter.
pub open spec fn share(rows: Seq<u32>, i: int, workers: int) -> Seq<u32> {
    let run = (rows.len() + workers - 1) / workers;
    let low = if i * run < rows.len() {
        i * run
    } else {
        rows.len() as int
    };
    let high = if (i + 1) * run < rows.len() {
        (i + 1) * run
    } else {
        rows.len() as int
    };
    rows.subrange(low, high)
}

/// The sum of cell `c` over the shares of the first `j` workers, added up worker by worker.
pub open spec fn joined_sum<A: Arith>(
    asg: Assignment,
    rows: Seq<u32>,
    vals: Seq<F32>,
    workers: int,
    j: nat,
    c: int,
) -> F32
    decreases j,
{
    if j == 0 {
        F32 { bits: 0 }
    } else {
        let part = share(rows, j - 1, workers);
        sum32::<A>(
            joined_sum::<A>(asg, rows, vals, workers, (j - 1) as nat, c),
            cell_sum::<A>(asg, part, vals, part.len(), c),
        )
    }
}

/// The histogram of a level: for each cell the gradient sum, then the hessian sum.
pub open spec fn histogram<A: Arith>(
    asg: Assignment,
    rows: Seq<u32>,
    g: Seq<F32>,
    h: Seq<F32>,
    workers: nat,
    nodes: nat,
) -> Seq<F32> {
    Seq::new(
        (nodes * asg.nf * asg.nbins * 2) as nat,
        |i: int|
            joined_sum::<A>(
                asg,
                rows,
                if i % 2 == 0 {
                    g
                } else {
                    h
                },
                workers as int,
                workers,
                i / 2,
            ),
    )
}

/// The rows at hand can be counted by worker `i` of `workers` in a histogram of `nodes` nodes.
pub open spec fn ready(
    asg: Assignment,
    rows: Seq<u32>,
    g: Seq<F32>,
    h: Seq<F32>,
    nodes: int,
    workers: int,
    i: int,
) -> bool {
    &&& countable(asg, rows, g, h, nodes)
    &&& 0 <= i < workers
    &&& rows.len() + workers <= usize::MAX
    &&& 0 <= nodes
    &&& nodes * asg.nf * asg.nbins * 2 <= usize::MAX
}

/// `hist` holds the gradient and hessian sums of the listed rows, cell by cell.
pub open spec fn holds_sums<A: Arith>(
    hist: Seq<F32>,
    asg: Assignment,
    rows: Seq<u32>,
    g: Seq<F32>,
    h: Seq<F32>,
) -> bool {
    forall|i: int|
        0 <= i < hist.len() ==> #[trigger] hist[i] == cell_sum::<A>(
            asg,
            rows,
            if i % 2 == 0 {
                g
            } else {
                h
            },
            rows.len(),
            i / 2,
        )
}

/// The histogram of the given rows, in which cell `i / 2` holds what [`cell_sum`] says when
/// its feature is below `f` and what it says of one row less otherwise.
spec fn partway<A: Arith>(
    asg: Assignment,
    rows: Seq<u32>,
    g: Seq<F32>,
    h: Seq<F32>,
    k: nat,
    f: int,
    i: int,
) -> F32 {
    let vals = if i % 2 == 0 {
        g
    } else {
        h
    };
    if feature_of(i / 2, asg.nf, asg.nbins) < f {
        cell_sum::<A>(asg, rows, vals, k + 1, i / 2)
    } else {
        cell_sum::<A>(asg, rows, vals, k, i / 2)
    }
}

/// Of the cells of feature `f`, row `r` is counted in none but that of its node and bin.
proof fn lemma_one_hit(asg: Assignment, r: int, c: int, f: int, nodes: int)
    requires
        0 <= c < nodes * asg.nf * asg.nbins,
        0 < asg.nf,
        0 < asg.nbins,
        feature_of(c, asg.nf, asg.nbins) == f,
        asg.hits(r, c),
    ensures
        c == cell(asg.slot(r)->0, f, asg.bins[r * asg.nf + f] as int, asg.nf, asg.nbins),
{
    lemma_cell_parts(c, nodes, asg.nf, asg.nbins);
}

/// The histogram of one worker's rows.
fn build_share<A: Arith>(
    rows: &[u32],
    index_nodes: usize,
    nf: usize,
    nbins: usize,
    node: &[u32],
    g: &[F32],
    h: &[F32],
    bins: &[u8],
    odd_only: bool,
) -> (loc: Vec<F32>)
    requires
        countable(
            Assignment {
                node: node@,
                bins: bins@,
                nf: nf as int,
                nbins: nbins as int,
                odd_only,
            },
            rows@,
            g@,
            h@,
            index_nodes as int,
        ),
        index_nodes * nf * nbins * 2 <= usize::MAX,
    ensures
        loc@.len() == index_nodes * nf * nbins * 2,
        deterministic::<A>() ==> holds_sums::<A>(
            loc@,
            Assignment {
                node: node@,
                bins: bins@,
                nf: nf as int,
                nbins: nbins as int,
                odd_only,
            },
            rows@,
            g@,
            h@,
        ),
{
    let ghost asg = Assignment {
        node: node@,
        bins: bins@,
        nf: nf as int,
        nbins: nbins as int,
        odd_only,
    };
    let ghost nodes = index_nodes as int;
    assert(index_nodes * nf <= index_nodes * nf * nbins * 2) by (nonlinear_arith)
        requires
            index_nodes >= 0,
            nf >= 0,
            nbins >= 1,
    ;
    let size: usize = index_nodes * nf * nbins;
    let mut loc: Vec<F32> = vec![F32 { bits: 0 };size * 2];
    let mut k: usize = 0;
    while k < rows.len()
        invariant
            asg == (Assignment {
                node: node@,
                bins: bins@,
                nf: nf as int,
                nbins: nbins as int,
                odd_only,
            }),
            nodes == index_nodes,
            countable(asg, rows@, g@, h@, nodes),
            size == nodes * nf * nbins,
            loc@.len() == size * 2,
            k <= rows@.len(),
            deterministic::<A>() ==> forall|i: int|
                0 <= i < loc@.len() ==> #[trigger] loc@[i] == partway::<A>(
                    asg,
                    rows@,
                    g@,
                    h@,
                    k as nat,
                    0,
                    i,
                ),
        decreases rows@.len() - k,
    {
        let r: usize = rows[k] as usize;
        assert(asg.fits_row(rows@[k as int] as int, nodes));
        let nv: u32 = node[r];
        assert(asg.slot(r as int) == asg.slot(rows@[k as int] as int));
        if odd_only && nv % 2 == 0 {
            assert forall|i: int| 0 <= i < loc@.len() implies partway::<A>(
                asg,
                rows@,
                g@,
                h@,
                k as nat,
                0,
                i,
            ) == #[trigger] partway::<A>(asg, rows@, g@, h@, (k + 1) as nat, 0, i) by {
                assert(!asg.hits(r as int, i / 2));
                lemma_cell_parts(i / 2, nodes, nf as int, nbins as int);
            }
            k = k + 1;
            continue;
        }
        let idx_node: usize = if odd_only {
            (nv / 2) as usize
        } else {
            nv as usize
        };
        assert(asg.slot(r as int) == Some(idx_node as int));
        let gr = g[r];
        let hr = h[r];
        let mut f: usize = 0;
        while f < nf
            invariant
                asg == (Assignment {
                    node: node@,
                    bins: bins@,
                    nf: nf as int,
                    nbins: nbins as int,
                    odd_only,
                }),
                nodes == index_nodes,
                asg.fits_row(r as int, nodes),
                0 < nbins,
                k < rows@.len(),
                r == rows@[k as int],
                gr == g@[r as int],
                hr == h@[r as int],
                idx_node < nodes,
                asg.slot(r as int) == Some(idx_node as int),
                size == nodes * nf * nbins,
                loc@.len() == size * 2,
                f <= nf,
                deterministic::<A>() ==> forall|i: int|
                    0 <= i < loc@.len() ==> #[trigger] loc@[i] == partway::<A>(
                        asg,
                        rows@,
                        g@,
                        h@,
                        k as nat,
                        f as int,
                        i,
                    ),
            decreases nf - f,
        {
            assert(0 <= r * nf) by (nonlinear_arith)
                requires
                    0 <= r,
                    0 <= nf,
            ;
            assert(r * nf + nf <= bins.len());
            let b: usize = bins[r * nf + f] as usize;
            let ghost c0 = cell(idx_node as int, f as int, b as int, nf as int, nbins as int);
            proof {
                lemma_cell(idx_node as int, f as int, b as int, nodes, nf as int, nbins as int);
                assert(idx_node * nf <= idx_node * nf * nbins) by (nonlinear_arith)
                    requires
                        idx_node >= 0,
                        nf >= 0,
                        nbins >= 1,
                ;
                assert(idx_node * nf * nbins + f * nbins + b == c0) by (nonlinear_arith)
                    requires
                        c0 == (idx_node * nf + f) * nbins + b,
                ;
                assert(0 <= f * nbins) by (nonlinear_arith)
                    requires
                        f >= 0,
                        nbins >= 0,
                ;
                assert(0 <= idx_node * nf * nbins) by (nonlinear_arith)
                    requires
                        idx_node >= 0,
                        nf >= 0,
                        nbins >= 0,
                ;
            }
            assert(loc.len() == size * 2);
            let at: usize = (idx_node * nf * nbins + f * nbins + b) * 2;
            let ghost before = loc@;
            loc[at] = add32::<A>(loc[at], gr);
            loc[at + 1] = add32::<A>(loc[at + 1], hr);
            proof {
                assert(asg.hits(r as int, c0));
                if deterministic::<A>() {
                    assert forall|i: int| 0 <= i < loc@.len() implies #[trigger] loc@[i]
                        == partway::<A>(asg, rows@, g@, h@, k as nat, f + 1, i) by {
                        let _ = before[i];
                        lemma_cell_parts(i / 2, nodes, nf as int, nbins as int);
                        if i == at || i == at + 1 {
                            assert(i / 2 == c0);
                        } else if feature_of(i / 2, nf as int, nbins as int) == f {
                            assert(i / 2 != c0);
                            if asg.hits(r as int, i / 2) {
                                lemma_one_hit(asg, r as int, i / 2, f as int, nodes);
                            }
                        }
                    }
                }
            }
            f = f + 1;
        }
        proof {
            assert forall|i: int| 0 <= i < loc@.len() implies partway::<A>(
                asg,
                rows@,
                g@,
                h@,
                k as nat,
                nf as int,
                i,
            ) == #[trigger] partway::<A>(asg, rows@, g@, h@, (k + 1) as nat, 0, i) by {
                lemma_cell_parts(i / 2, nodes, nf as int, nbins as int);
            }
        }
        k = k + 1;
    }
    proof {
        assert forall|i: int| 0 <= i < loc@.len() implies #[trigger] partway::<A>(
            asg,
            rows@,
            g@,
            h@,
            k as nat,
            0,
            i,
        ) == cell_sum::<A>(
            asg,
            rows@,
            if i % 2 == 0 {
                g@
            } else {
                h@
            },
            rows@.len(),
            i / 2,
        ) by {
            lemma_cell_parts(i / 2, nodes, nf as int, nbins as int);
        }
    }
    loc
}

/// Adds the second histogram to the first, cell by cell.
fn add_into<A: Arith>(acc: &mut Vec<F32>, part: &Vec<F32>)
    requires
        old(acc)@.len() == part@.len(),
    ensures
        final(acc)@.len() == part@.len(),
        deterministic::<A>() ==> forall|i: int|
            0 <= i < part@.len() ==> #[trigger] final(acc)@[i] == sum32::<A>(old(acc)@[i], part@[i]),
{
    let ghost before = acc@;
    let mut i: usize = 0;
    while i < part.len()
        invariant
            i <= part@.len(),
            acc@.len() == part@.len(),
            before.len() == part@.len(),
            forall|j: int| i <= j < part@.len() ==> #[trigger] acc@[j] == before[j],
            deterministic::<A>() ==> forall|j: int|
                0 <= j < i ==> #[trigger] acc@[j] == sum32::<A>(before[j], part@[j]),
        decreases part@.len() - i,
    {
        acc[i] = add32::<A>(acc[i], part[i]);
        i = i + 1;
    }
}

/// The histogram of the share of worker `i`.
fn build_worker<A: Arith>(
    i: usize,
    rows: &[u32],
    nt: usize,
    index_nodes: usize,
    nf: usize,
    nbins: usize,
    node: &[u32],
    g: &[F32],
    h: &[F32],
    bins: &[u8],
    odd_only: bool,
) -> (loc: Vec<F32>)
    requires
        ready(
            Assignment {
                node: node@,
                bins: bins@,
                nf: nf as int,
                nbins: nbins as int,
                odd_only,
            },
            rows@,
            g@,
            h@,
            index_nodes as int,
            nt as int,
            i as int,
        ),
    ensures
        loc@.len() == index_nodes * nf * nbins * 2,
        deterministic::<A>() ==> holds_sums::<A>(
            loc@,
            Assignment {
                node: node@,
                bins: bins@,
                nf: nf as int,
                nbins: nbins as int,
                odd_only,
            },
            share(rows@, i as int, nt as int),
            g@,
            h@,
        ),
{
    let m: usize = rows.len();
    let run: usize = (m + (nt - 1)) / nt;
    proof {
        lemma_share_bounds(m as int, nt as int, i as int);
    }
    let low: usize = if i * run < m {
        i * run
    } else {
        m
    };
    let high: usize = if (i + 1) * run < m {
        (i + 1) * run
    } else {
        m
    };
    proof {
        assert forall|k: int| 0 <= k < high - low implies #[trigger] rows@.subrange(
            low as int,
            high as int,
        )[k] == rows@[low + k] by {}
    }
    build_share::<A>(
        slice_subrange(rows, low, high),
        index_nodes,
        nf,
        nbins,
        node,
        g,
        h,
        bins,
        odd_only,
    )
}

/// The histogram of the listed rows over `index_nodes` nodes, `nf` features and `nbins` bins.
///
/// Position `2 * c` of the result is the gradient sum of cell `c`, position `2 * c + 1` its
/// hessian sum. The rows are split over `nt` workers, each of which adds up its share in the
/// order of the list; the shares are then joined in the order of the workers. With
/// `odd_only`, rows at odd nodes alone are counted, under `node / 2`: the half of a level
/// from which the other half follows by subtraction.
pub fn build_hist<A: Arith>(
    rows: &[u32],
    nt: usize,
    index_nodes: usize,
    nf: usize,
    nbins: usize,
    node: &[u32],
    g: &[F32],
    h: &[F32],
    bins: &[u8],
    odd_only: bool,
) -> (hist: Vec<F32>)
    requires
        ready(
            Assignment {
                node: node@,
                bins: bins@,
                nf: nf as int,
                nbins: nbins as int,
                odd_only,
            },
            rows@,
            g@,
            h@,
            index_nodes as int,
            nt as int,
            0,
        ),
    ensures
        hist@.len() == index_nodes * nf * nbins * 2,
        deterministic::<A>() ==> hist@ == histogram::<A>(
            Assignment {
                node: node@,
                bins: bins@,
                nf: nf as int,
                nbins: nbins as int,
                odd_only,
            },
            rows@,
            g@,
            h@,
            nt as nat,
            index_nodes as nat,
        ),
{
    let ghost asg = Assignment {
        node: node@,
        bins: bins@,
        nf: nf as int,
        nbins: nbins as int,
        odd_only,
    };
    let parts: Vec<Vec<F32>> = par_map(
        nt,
        |i: usize| -> (loc: Vec<F32>)
            requires
                ready(asg, rows@, g@, h@, index_nodes as int, nt as int, i as int),
            ensures
                loc@.len() == index_nodes * nf * nbins * 2,
                deterministic::<A>() ==> holds_sums::<A>(loc@, asg, share(rows@, i as int, nt as int), g@, h@)
            { build_worker::<A>(i, rows, nt, index_nodes, nf, nbins, node, g, h, bins, odd_only) },
    );
    assert(index_nodes * nf <= index_nodes * nf * nbins * 2) by (nonlinear_arith)
        requires
            index_nodes >= 0,
            nf >= 0,
            nbins >= 1,
    ;
    let size: usize = index_nodes * nf * nbins * 2;
    let mut hist: Vec<F32> = vec![F32 { bits: 0 };size];
    let mut j: usize = 0;
    while j < nt
        invariant
            j <= nt,
            parts@.len() == nt,
            hist@.len() == size,
            forall|w: int|
                #![trigger parts@[w]]
                0 <= w < nt ==> {
                    &&& parts@[w]@.len() == size
                    &&& deterministic::<A>() ==> holds_sums::<A>(
                        parts@[w]@,
                        asg,
                        share(rows@, w, nt as int),
                        g@,
                        h@,
                    )
                },
            deterministic::<A>() ==> forall|i: int|
                0 <= i < size ==> #[trigger] hist@[i] == joined_sum::<A>(
                    asg,
                    rows@,
                    if i % 2 == 0 {
                        g@
                    } else {
                        h@
                    },
                    nt as int,
                    j as nat,
                    i / 2,
                ),
        decreases nt - j,
    {
        let ghost before = hist@;
        add_into::<A>(&mut hist, &parts[j]);
        proof {
            if deterministic::<A>() {
                assert forall|i: int| 0 <= i < size implies #[trigger] hist@[i] == joined_sum::<A>(
                    asg,
                    rows@,
                    if i % 2 == 0 {
                        g@
                    } else {
                        h@
                    },
                    nt as int,
                    (j + 1) as nat,
                    i / 2,
                ) by {
                    let _ = before[i];
                    let _ = parts@[j as int]@[i];
                }
            }
        }
        j = j + 1;
    }
    hist
}

/// The runs of the workers follow one another and stay small enough to index with.
pub(crate) proof fn lemma_share_bounds(m: int, workers: int, i: int)
    requires
        0 <= m,
        0 <= i < workers,
    ensures
        0 <= i * ((m + workers - 1) / workers),
        i * ((m + workers - 1) / workers) <= (i + 1) * ((m + workers - 1) / workers) <= m + workers
            - 1,
{
    let run = (m + workers - 1) / workers;
    assert(0 <= run && run * workers <= m + workers - 1) by (nonlinear_arith)
        requires
            run == (m + workers - 1) / workers,
            0 <= m,
            0 < workers,
    ;
    assert(0 <= i * run <= (i + 1) * run <= run * workers) by (nonlinear_arith)
        requires
            0 <= run,
            0 <= i < workers,
    ;
}

} // verus!
