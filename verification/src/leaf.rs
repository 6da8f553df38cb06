//! The values of the leaves of a grown tree.

use vstd::prelude::*;
use vstd::slice::slice_subrange;

use crate::arith::add64;
use crate::arith::deterministic;
use crate::arith::div64;
use crate::arith::mul64;
use crate::arith::narrow;
use crate::arith::narrowed;
use crate::arith::product64;
use crate::arith::quotient64;
use crate::arith::sum64;
use crate::arith::widen;
use crate::arith::widened;
use crate::arith::Arith;
use crate::float::F32;
use crate::float::F64;
use crate::histogram::lemma_share_bounds;
use crate::histogram::share;
use crate::par::par_map;

verus! {

/// The sum of `vals` over those of the first `k` listed rows that are at leaf `l`.
pub open spec fn leaf_sum<A: Arith>(
    node: Seq<u32>,
    rows: Seq<u32>,
    vals: Seq<F32>,
    k: nat,
    l: int,
) -> F64
    decreases k,
{
    if k == 0 {
        F64 { bits: 0 }
    } else {
        let before = leaf_sum::<A>(node, rows, vals, (k - 1) as nat, l);
        if node[rows[k - 1] as int] == l {
            sum64::<A>(before, widened::<A>(vals[rows[k - 1] as int]))
        } else {
            before
        }
    }
}

/// The sum at leaf `l` over the shares of the first `j` workers, added up worker by worker.
pub open spec fn joined_leaf_sum<A: Arith>(
    node: Seq<u32>,
    rows: Seq<u32>,
    vals: Seq<F32>,
    workers: int,
    j: nat,
    l: int,
) -> F64
    decreases j,
{
    if j == 0 {
        F64 { bits: 0 }
    } else {
        let part = share(rows, j - 1, workers);
        sum64::<A>(
            joined_leaf_sum::<A>(node, rows, vals, workers, (j - 1) as nat, l),
            leaf_sum::<A>(node, part, vals, part.len(), l),
        )
    }
}

/// The value of a leaf with gradient sum `g` and hessian sum `h`: a Newton step, shrunk by the
/// learning rate.
pub open spec fn leaf_value<A: Arith>(g: F64, h: F64, lr: F64, lambda: F64) -> F32 {
    narrowed::<A>(
        quotient64::<A>(product64::<A>(lr.opposite(), g), sum64::<A>(h, lambda)),
    )
}

/// The values of the leaves of a tree whose rows ended at the given nodes.
pub open spec fn leaf_values<A: Arith>(
    node: Seq<u32>,
    rows: Seq<u32>,
    g: Seq<F32>,
    h: Seq<F32>,
    workers: nat,
    leaves: nat,
    lr: F64,
    lambda: F64,
) -> Seq<F32> {
    Seq::new(
        leaves,
        |l: int|
            leaf_value::<A>(
                joined_leaf_sum::<A>(node, rows, g, workers as int, workers, l),
                joined_leaf_sum::<A>(node, rows, h, workers as int, workers, l),
                lr,
                lambda,
            ),
    )
}

/// The rows at hand can be summed by leaf by worker `i` of `workers`.
pub open spec fn summable(
    node: Seq<u32>,
    rows: Seq<u32>,
    g: Seq<F32>,
    h: Seq<F32>,
    workers: int,
    leaves: int,
    i: int,
) -> bool {
    &&& g.len() >= node.len()
    &&& h.len() >= node.len()
    &&& forall|r: int| 0 <= r < node.len() ==> #[trigger] node[r] < leaves
    &&& forall|k: int| 0 <= k < rows.len() ==> #[trigger] rows[k] < node.len()
    &&& 0 <= i < workers
    &&& rows.len() + workers <= usize::MAX
}

/// `sums` holds the sum of the listed rows for every leaf.
spec fn holds_leaf_sums<A: Arith>(
    sums: Seq<F64>,
    node: Seq<u32>,
    rows: Seq<u32>,
    vals: Seq<F32>,
    k: nat,
) -> bool {
    forall|l: int| 0 <= l < sums.len() ==> #[trigger] sums[l] == leaf_sum::<A>(node, rows, vals, k, l)
}

/// The gradient and hessian sums by leaf of the share of worker `i`.
fn leaf_share<A: Arith>(
    i: usize,
    rows: &[u32],
    nt: usize,
    leaves: usize,
    node: &[u32],
    g: &[F32],
    h: &[F32],
) -> (r: (Vec<F64>, Vec<F64>))
    requires
        summable(node@, rows@, g@, h@, nt as int, leaves as int, i as int),
    ensures
        r.0@.len() == leaves,
        r.1@.len() == leaves,
        deterministic::<A>() ==> ({
            let part = share(rows@, i as int, nt as int);
            &&& holds_leaf_sums::<A>(r.0@, node@, part, g@, part.len())
            &&& holds_leaf_sums::<A>(r.1@, node@, part, h@, part.len())
        }),
{
    let m: usize = rows.len();
    let run: usize = (m + (nt - 1)) / nt;
    proof {
        lemma_share_bounds(m as int, nt as int, i as int);
    }
    let low: usize = if i * run < m {
        i * run
    } else {
        m
    };
    let high: usize = if (i + 1) * run < m {
        (i + 1) * run
    } else {
        m
    };
    let part = slice_subrange(rows, low, high);
    assert(part@ == share(rows@, i as int, nt as int));
    let mut lg: Vec<F64> = vec![F64 { bits: 0 };leaves];
    let mut lh: Vec<F64> = vec![F64 { bits: 0 };leaves];
    let mut k: usize = 0;
    while k < part.len()
        invariant
            k <= part@.len(),
            g@.len() >= node@.len(),
            h@.len() >= node@.len(),
            forall|r: int| 0 <= r < node@.len() ==> #[trigger] node@[r] < leaves,
            forall|j: int| 0 <= j < part@.len() ==> #[trigger] part@[j] < node@.len(),
            lg@.len() == leaves,
            lh@.len() == leaves,
            deterministic::<A>() ==> holds_leaf_sums::<A>(lg@, node@, part@, g@, k as nat),
            deterministic::<A>() ==> holds_leaf_sums::<A>(lh@, node@, part@, h@, k as nat),
        decreases part@.len() - k,
    {
        let r: usize = part[k] as usize;
        let l: usize = node[r] as usize;
        let ghost before_g = lg@;
        let ghost before_h = lh@;
        lg[l] = add64::<A>(lg[l], widen::<A>(g[r]));
        lh[l] = add64::<A>(lh[l], widen::<A>(h[r]));
        proof {
            if deterministic::<A>() {
                assert forall|j: int| 0 <= j < leaves implies #[trigger] lg@[j] == leaf_sum::<A>(
                    node@,
                    part@,
                    g@,
                    (k + 1) as nat,
                    j,
                ) by {
                    let _ = before_g[j];
                }
                assert forall|j: int| 0 <= j < leaves implies #[trigger] lh@[j] == leaf_sum::<A>(
                    node@,
                    part@,
                    h@,
                    (k + 1) as nat,
                    j,
                ) by {
                    let _ = before_h[j];
                }
            }
        }
        k = k + 1;
    }
    (lg, lh)
}

/// The values of the leaves of a tree whose rows ended at the given nodes. The rows are split
/// over `nt` workers, whose sums are joined in the order of the workers.
pub fn compute_leaf_values<A: Arith>(
    rows: &[u32],
    nt: usize,
    leaves: usize,
    node: &[u32],
    g: &[F32],
    h: &[F32],
    lr: F64,
    lambda: F64,
) -> (values: Vec<F32>)
    requires
        summable(node@, rows@, g@, h@, nt as int, leaves as int, 0),
    ensures
        values@.len() == leaves,
        deterministic::<A>() ==> values@ == leaf_values::<A>(
            node@,
            rows@,
            g@,
            h@,
            nt as nat,
            leaves as nat,
            lr,
            lambda,
        ),
{
    let parts: Vec<(Vec<F64>, Vec<F64>)> = par_map(
        nt,
        |i: usize| -> (r: (Vec<F64>, Vec<F64>))
            requires
                summable(node@, rows@, g@, h@, nt as int, leaves as int, i as int),
            ensures
                r.0@.len() == leaves,
                r.1@.len() == leaves,
                deterministic::<A>() ==> ({
                    let part = share(rows@, i as int, nt as int);
                    &&& holds_leaf_sums::<A>(r.0@, node@, part, g@, part.len())
                    &&& holds_leaf_sums::<A>(r.1@, node@, part, h@, part.len())
                })
            { leaf_share::<A>(i, rows, nt, leaves, node, g, h) },
    );
    let mut values: Vec<F32> = Vec::new();
    let mut l: usize = 0;
    while l < leaves
        invariant
            l <= leaves,
            parts@.len() == nt,
            forall|w: int|
                #![trigger parts@[w]]
                0 <= w < nt ==> {
                    let part = share(rows@, w, nt as int);
                    &&& parts@[w].0@.len() == leaves
                    &&& parts@[w].1@.len() == leaves
                    &&& deterministic::<A>() ==> holds_leaf_sums::<A>(
                        parts@[w].0@,
                        node@,
                        part,
                        g@,
                        part.len(),
                    )
                    &&& deterministic::<A>() ==> holds_leaf_sums::<A>(
                        parts@[w].1@,
                        node@,
                        part,
                        h@,
                        part.len(),
                    )
                },
            values@.len() == l,
            deterministic::<A>() ==> forall|j: int|
                0 <= j < l ==> #[trigger] values@[j] == leaf_value::<A>(
                    joined_leaf_sum::<A>(node@, rows@, g@, nt as int, nt as nat, j),
                    joined_leaf_sum::<A>(node@, rows@, h@, nt as int, nt as nat, j),
                    lr,
                    lambda,
                ),
        decreases leaves - l,
    {
        let mut sg = F64 { bits: 0 };
        let mut sh = F64 { bits: 0 };
        let mut w: usize = 0;
        while w < nt
            invariant
                w <= nt,
                l < leaves,
                parts@.len() == nt,
                forall|w: int|
                    #![trigger parts@[w]]
                    0 <= w < nt ==> {
                        let part = share(rows@, w, nt as int);
                        &&& parts@[w].0@.len() == leaves
                        &&& parts@[w].1@.len() == leaves
                        &&& deterministic::<A>() ==> holds_leaf_sums::<A>(
                            parts@[w].0@,
                            node@,
                            part,
                            g@,
                            part.len(),
                        )
                        &&& deterministic::<A>() ==> holds_leaf_sums::<A>(
                            parts@[w].1@,
                            node@,
                            part,
                            h@,
                            part.len(),
                        )
                    },
                deterministic::<A>() ==> sg == joined_leaf_sum::<A>(
                    node@,
                    rows@,
                    g@,
                    nt as int,
                    w as nat,
                    l as int,
                ),
                deterministic::<A>() ==> sh == joined_leaf_sum::<A>(
                    node@,
                    rows@,
                    h@,
                    nt as int,
                    w as nat,
                    l as int,
                ),
            decreases nt - w,
        {
            let part = &parts[w];
            sg = add64::<A>(sg, part.0[l]);
            sh = add64::<A>(sh, part.1[l]);
            w = w + 1;
        }
        let step = div64::<A>(mul64::<A>(lr.neg(), sg), add64::<A>(sh, lambda));
        values.push(narrow::<A>(step));
        l = l + 1;
    }
    proof {
        if deterministic::<A>() {
            assert(values@ =~= leaf_values::<A>(
                node@,
                rows@,
                g@,
                h@,
                nt as nat,
                leaves as nat,
                lr,
                lambda,
            ));
        }
    }
    values
}

} // verus!
