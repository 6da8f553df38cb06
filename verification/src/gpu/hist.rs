//! Kernels that build and combine histograms.
//!
//! To keep threads from adding to the same places, a histogram may be held in several copies,
//! replicas, one after the other: a block of threads adds to the replica that its index says.
//! The replicas are folded into the first one afterwards.

use vstd::prelude::*;

use crate::arith::add32;
use crate::arith::deterministic;
use crate::arith::difference32;
use crate::arith::integer32;
use crate::arith::integral32;
use crate::arith::lengthen;
use crate::arith::lengthened;
use crate::arith::mul32;
use crate::arith::product32;
use crate::arith::shorten;
use crate::arith::shortened;
use crate::arith::sub32;
use crate::arith::sum32;
use crate::arith::Arith;
use crate::cells::bin_of;
use crate::cells::cell;
use crate::cells::feature_of;
use crate::cells::lemma_cell;
use crate::cells::lemma_cell_parts;
use crate::cells::node_of;
use crate::float::F16;
use crate::float::F32;
use crate::float::ONE32;
use crate::gpu::acc::Accum;
use crate::gpu::acc::Addend;
use crate::gpu::rows::hash01;
use crate::gpu::rows::read_bin;
use crate::gpu::rows::round_i32;
use crate::gpu::rows::rounded;
use crate::gpu::rows::sample_share;
use crate::gpu::rows::store;
use crate::gpu::rows::overwritten;
use crate::gpu::rows::BinView;

verus! {

/// The number of threads of a block.
pub const BLOCK: usize = 256;

/// What the rows of a launch are counted by: their bins, and the nodes that they are at. A
/// histogram has `nb` bins for each of `nf` features and takes `stride` places; there are
/// `replicas` of them. With a rate `subsample` below one, rows are drawn. With `odd_only`,
/// rows at even nodes do not count.
pub struct Counting {
    pub view: BinView,
    pub leaf: Seq<u32>,
    pub nf: int,
    pub nb: int,
    pub replicas: int,
    pub stride: int,
    pub subsample: F32,
    pub seed: u32,
    pub odd_only: bool,
}

impl Counting {
    /// Row `i` is drawn.
    pub open spec fn drawn<A: Arith>(self, i: int) -> bool {
        !(self.subsample.below(F32 { bits: ONE32 }) && self.subsample.at_most(
            sample_share::<A>(i as u32, self.seed),
        ))
    }

    /// Row `i` counts.
    pub open spec fn counts<A: Arith>(self, i: int) -> bool {
        self.drawn::<A>(i) && !(self.odd_only && self.leaf[i] % 2 == 0)
    }

    /// Where the replica that row `i` is added to begins.
    pub open spec fn base(self, i: int) -> int {
        i / BLOCK as int % self.replicas * self.stride
    }

    /// Row `i` is added to place `at`.
    pub open spec fn hits<A: Arith>(self, i: int, at: int) -> bool {
        let c = at - self.base(i);
        &&& self.counts::<A>(i)
        &&& 0 <= c < self.stride
        &&& node_of(c, self.nf, self.nb) == self.leaf[i]
        &&& self.view.bin(i, feature_of(c, self.nf, self.nb)) == bin_of(c, self.nb)
    }

    /// The number of nodes of a histogram.
    pub open spec fn groups(self) -> int {
        self.stride / (self.nf * self.nb)
    }

    /// The first `n` rows have nodes and bins that the histogram has.
    pub open spec fn fits(self, n: int) -> bool {
        &&& 0 < self.nf
        &&& 0 < self.nb
        &&& 0 < self.replicas
        &&& 0 <= self.stride
        &&& self.stride == self.groups() * self.nf * self.nb
        &&& n <= self.leaf.len()
        &&& self.view.covers(n, self.nf)
        &&& forall|i: int| 0 <= i < n ==> #[trigger] self.leaf[i] < self.groups()
        &&& forall|i: int, f: int|
            0 <= i < n && 0 <= f < self.nf ==> #[trigger] self.view.bin(i, f) < self.nb
    }
}

/// What stands at place `at` after the first `k` rows have been added.
pub open spec fn scattered<A: Arith, T: Addend<A>>(
    c: Counting,
    start: T,
    vals: Seq<T>,
    k: nat,
    at: int,
) -> T
    decreases k,
{
    if k == 0 {
        start
    } else {
        let before = scattered::<A, T>(c, start, vals, (k - 1) as nat, at);
        if c.hits::<A>(k - 1, at) {
            before.joined(vals[k - 1])
        } else {
            before
        }
    }
}

/// A histogram to which the first `n` rows have been added.
pub open spec fn filled<A: Arith, T: Addend<A>>(
    c: Counting,
    old: Seq<T>,
    vals: Seq<T>,
    n: nat,
) -> Seq<T> {
    Seq::new(old.len(), |at: int| scattered::<A, T>(c, old[at], vals, n, at))
}

/// Values in fixed point: scaled and rounded.
pub open spec fn fixed_point<A: Arith>(vals: Seq<F32>, scale: F32) -> Seq<i32> {
    Seq::new(vals.len(), |i: int| rounded(product32::<A>(vals[i], scale)) as i32)
}

/// Values in half precision.
pub open spec fn shortened_all<A: Arith>(vals: Seq<F32>) -> Seq<F16> {
    Seq::new(vals.len(), |i: int| shortened::<A>(vals[i]))
}

/// The place that row `i` is added to for feature `f`.
pub open spec fn place_of(c: Counting, i: int, f: int) -> int {
    c.base(i) + cell(c.leaf[i] as int, f, c.view.bin(i, f), c.nf, c.nb)
}

/// A row that counts is added to one place for each feature, which lies in a replica.
proof fn lemma_place<A: Arith>(c: Counting, n: int, i: int, f: int)
    requires
        c.fits(n),
        0 <= i < n,
        0 <= f < c.nf,
    ensures
        0 <= c.base(i) <= place_of(c, i, f) < c.base(i) + c.stride <= c.replicas * c.stride,
        c.counts::<A>(i) ==> c.hits::<A>(i, place_of(c, i, f)),
        feature_of(place_of(c, i, f) - c.base(i), c.nf, c.nb) == f,
        forall|at: int|
            #![trigger c.hits::<A>(i, at)]
            c.hits::<A>(i, at) && feature_of(at - c.base(i), c.nf, c.nb) == f ==> at == place_of(
                c,
                i,
                f,
            ),
{
    let r = i / BLOCK as int % c.replicas;
    assert(0 <= r < c.replicas);
    assert(0 <= r * c.stride && r * c.stride + c.stride <= c.replicas * c.stride) by (nonlinear_arith)
        requires
            0 <= r < c.replicas,
            c.stride >= 0,
    ;
    assert(c.view.bin(i, f) < c.nb);
    assert(c.leaf[i] < c.groups());
    lemma_bin_nonneg(c.view, i, f);
    lemma_cell(c.leaf[i] as int, f, c.view.bin(i, f), c.groups(), c.nf, c.nb);
    assert forall|at: int|
        #![trigger c.hits::<A>(i, at)]
        c.hits::<A>(i, at) && feature_of(at - c.base(i), c.nf, c.nb) == f implies at == place_of(
        c,
        i,
        f,
    ) by {
        lemma_cell_parts(at - c.base(i), c.groups(), c.nf, c.nb);
    }
}

proof fn lemma_bin_nonneg(view: BinView, i: int, f: int)
    ensures
        view.bin(i, f) >= 0,
{
}

/// The place that row `i` is added to for feature `f`.
fn find_place(
    bins: &[u8],
    packed: bool,
    rs: usize,
    leaf: u32,
    i: usize,
    f: usize,
    nf: usize,
    nb: usize,
    replicas: usize,
    stride: usize,
    Ghost(c): Ghost<Counting>,
    Ghost(n): Ghost<int>,
    Ghost(total): Ghost<int>,
) -> (at: usize)
    requires
        c.fits(n),
        c.view == (BinView { bytes: bins@, packed, stride: rs as int }),
        c.nf == nf,
        c.nb == nb,
        c.replicas == replicas,
        c.stride == stride,
        i < n,
        f < nf,
        leaf == c.leaf[i as int],
        replicas * stride <= total <= usize::MAX,
    ensures
        at == place_of(c, i as int, f as int),
        at < total,
{
    proof {
        let r = i as int / BLOCK as int % replicas as int;
        assert(0 <= r < replicas);
        assert(0 <= r * stride && r * stride + stride <= replicas * stride) by (nonlinear_arith)
            requires
                0 <= r < replicas,
                stride >= 0,
        ;
        assert(c.view.bin(i as int, f as int) < nb);
        assert(c.leaf[i as int] < c.groups());
        lemma_bin_nonneg(c.view, i as int, f as int);
        lemma_cell(
            leaf as int,
            f as int,
            c.view.bin(i as int, f as int),
            c.groups(),
            nf as int,
            nb as int,
        );
        assert(0 <= leaf * nf && leaf * nf + f <= (leaf * nf + f) * nb && 0 <= (leaf * nf + f) * nb)
            by (nonlinear_arith)
            requires
                leaf >= 0,
                nf >= 0,
                f >= 0,
                nb >= 1,
        ;
    }
    let b: usize = read_bin(bins, packed, rs, i, f, Ghost(n), Ghost(c.nf));
    let base: usize = i / BLOCK % replicas * stride;
    base + (leaf as usize * nf + f) * nb + b
}

/// Row `i` counts.
fn row_counts<A: Arith>(
    i: usize,
    leaf: u32,
    subsample: F32,
    seed: u32,
    odd_only: bool,
    Ghost(c): Ghost<Counting>,
) -> (r: bool)
    requires
        i <= u32::MAX,
        c.subsample == subsample,
        c.seed == seed,
        c.odd_only == odd_only,
        leaf == c.leaf[i as int],
    ensures
        deterministic::<A>() ==> r == c.counts::<A>(i as int),
{
    if subsample.less(F32 { bits: ONE32 }) && hash01::<A>(i as u32, seed).not_less(subsample) {
        return false;
    }
    !(odd_only && leaf % 2 == 0)
}

/// The rows that count.
fn counting_rows<A: Arith>(
    leaf: &[u32],
    n: usize,
    subsample: F32,
    seed: u32,
    odd_only: bool,
    Ghost(c): Ghost<Counting>,
) -> (keep: Vec<bool>)
    requires
        n <= u32::MAX,
        n <= leaf@.len(),
        c.subsample == subsample,
        c.seed == seed,
        c.odd_only == odd_only,
        c.leaf == leaf@,
    ensures
        keep@.len() == n,
        deterministic::<A>() ==> forall|i: int|
            0 <= i < n ==> #[trigger] keep@[i] == c.counts::<A>(i),
{
    let mut keep: Vec<bool> = Vec::new();
    let mut i: usize = 0;
    while i < n
        invariant
            i <= n,
            n <= u32::MAX,
            n <= leaf@.len(),
            c.subsample == subsample,
            c.seed == seed,
            c.odd_only == odd_only,
            c.leaf == leaf@,
            keep@.len() == i,
            deterministic::<A>() ==> forall|k: int|
                0 <= k < i ==> #[trigger] keep@[k] == c.counts::<A>(k),
        decreases n - i,
    {
        keep.push(row_counts::<A>(i, leaf[i], subsample, seed, odd_only, Ghost(c)));
        i = i + 1;
    }
    keep
}

/// What stands at place `at` when `k` rows have been added, and one more for the features
/// below `f`.
spec fn midway<A: Arith, T: Addend<A>>(
    c: Counting,
    start: T,
    vals: Seq<T>,
    k: nat,
    f: int,
    at: int,
) -> T {
    if feature_of(at - c.base(k as int), c.nf, c.nb) < f {
        scattered::<A, T>(c, start, vals, k + 1, at)
    } else {
        scattered::<A, T>(c, start, vals, k, at)
    }
}

/// A place belongs to a feature.
proof fn lemma_feature_range(c: Counting, at: int)
    requires
        0 < c.nf,
    ensures
        0 <= feature_of(at, c.nf, c.nb) < c.nf,
{
    assert(0 <= at / c.nb % c.nf < c.nf) by {
        vstd::arithmetic::div_mod::lemma_mod_bound(at / c.nb, c.nf);
    }
}

/// Adds the values of the rows that count to a histogram.
fn scatter<A: Arith, T: Addend<A>>(
    bins: &[u8],
    packed: bool,
    rs: usize,
    leaf: &[u32],
    keep: &[bool],
    vals: &[T],
    hist: &mut Vec<T>,
    n: usize,
    nf: usize,
    nb: usize,
    replicas: usize,
    stride: usize,
    Ghost(c): Ghost<Counting>,
)
    requires
        c.fits(n as int),
        c.view == (BinView { bytes: bins@, packed, stride: rs as int }),
        c.leaf == leaf@,
        c.nf == nf,
        c.nb == nb,
        c.replicas == replicas,
        c.stride == stride,
        n <= vals@.len(),
        keep@.len() == n,
        replicas * stride <= old(hist)@.len(),
        deterministic::<A>() ==> forall|i: int|
            0 <= i < n ==> #[trigger] keep@[i] == c.counts::<A>(i),
    ensures
        final(hist)@.len() == old(hist)@.len(),
        deterministic::<A>() ==> final(hist)@ == filled::<A, T>(c, old(hist)@, vals@, n as nat),
{
    let ghost start = hist@;
    let total: usize = hist.len();
    let mut i: usize = 0;
    while i < n
        invariant
            c.fits(n as int),
            c.view == (BinView { bytes: bins@, packed, stride: rs as int }),
            c.leaf == leaf@,
            c.nf == nf,
            c.nb == nb,
            c.replicas == replicas,
            c.stride == stride,
            n <= vals@.len(),
            keep@.len() == n,
            total == start.len(),
            replicas * stride <= total,
            hist@.len() == total,
            deterministic::<A>() ==> forall|k: int|
                0 <= k < n ==> #[trigger] keep@[k] == c.counts::<A>(k),
            i <= n,
            deterministic::<A>() ==> forall|at: int|
                0 <= at < total ==> #[trigger] hist@[at] == scattered::<A, T>(
                    c,
                    start[at],
                    vals@,
                    i as nat,
                    at,
                ),
        decreases n - i,
    {
        if keep[i] {
            let l: u32 = leaf[i];
            let v = vals[i];
            let mut f: usize = 0;
            proof {
                assert forall|at: int| 0 <= at < total implies midway::<A, T>(
                    c,
                    start[at],
                    vals@,
                    i as nat,
                    0,
                    at,
                ) == #[trigger] scattered::<A, T>(c, start[at], vals@, i as nat, at) by {
                    lemma_feature_range(c, at - c.base(i as int));
                }
            }
            while f < nf
                invariant
                    c.fits(n as int),
                    c.view == (BinView { bytes: bins@, packed, stride: rs as int }),
                    c.leaf == leaf@,
                    c.nf == nf,
                    c.nb == nb,
                    c.replicas == replicas,
                    c.stride == stride,
                    n <= vals@.len(),
                    i < n,
                    l == leaf@[i as int],
                    v == vals@[i as int],
                    total == start.len(),
                    replicas * stride <= total,
                    hist@.len() == total,
                    deterministic::<A>() ==> c.counts::<A>(i as int),
                    f <= nf,
                    deterministic::<A>() ==> forall|at: int|
                        0 <= at < total ==> #[trigger] hist@[at] == midway::<A, T>(
                            c,
                            start[at],
                            vals@,
                            i as nat,
                            f as int,
                            at,
                        ),
                decreases nf - f,
            {
                let at: usize = find_place(
                    bins,
                    packed,
                    rs,
                    l,
                    i,
                    f,
                    nf,
                    nb,
                    replicas,
                    stride,
                    Ghost(c),
                    Ghost(n as int),
                    Ghost(total as int),
                );
                let ghost before = hist@;
                let sum = hist[at].join(v);
                hist[at] = sum;
                proof {
                    lemma_place::<A>(c, n as int, i as int, f as int);
                    if deterministic::<A>() {
                        assert forall|p: int| 0 <= p < total implies #[trigger] hist@[p]
                            == midway::<A, T>(c, start[p], vals@, i as nat, f + 1, p) by {
                            let _ = before[p];
                            if p != at && feature_of(p - c.base(i as int), c.nf, c.nb) == f {
                                assert(!c.hits::<A>(i as int, p));
                            }
                        }
                    }
                }
                f = f + 1;
            }
            proof {
                assert forall|at: int| 0 <= at < total implies midway::<A, T>(
                    c,
                    start[at],
                    vals@,
                    i as nat,
                    nf as int,
                    at,
                ) == #[trigger] scattered::<A, T>(c, start[at], vals@, (i + 1) as nat, at) by {
                    lemma_feature_range(c, at - c.base(i as int));
                }
            }
        }
        i = i + 1;
    }
    assert(deterministic::<A>() ==> hist@ =~= filled::<A, T>(c, start, vals@, n as nat));
}

/// The gradient and hessian histograms of the rows of a level, with replicas: the rows that
/// count are added to what the two buffers hold.
pub fn build_hist<A: Arith>(
    bins: &[u8],
    leaf: &[u32],
    g: &[F32],
    h: &[F32],
    hist_g: &mut Vec<F32>,
    hist_h: &mut Vec<F32>,
    n: u32,
    n_features: u32,
    n_bins: u32,
    n_replicas: u32,
    replica_stride: u32,
    subsample: F32,
    tree_seed: u32,
    odd_only: bool,
    packed: bool,
    bin_row_stride: u32,
)
    requires
        (Counting {
            view: BinView { bytes: bins@, packed, stride: bin_row_stride as int },
            leaf: leaf@,
            nf: n_features as int,
            nb: n_bins as int,
            replicas: n_replicas as int,
            stride: replica_stride as int,
            subsample,
            seed: tree_seed,
            odd_only,
        }).fits(n as int),
        n <= g@.len(),
        n <= h@.len(),
        n_replicas * replica_stride <= old(hist_g)@.len(),
        n_replicas * replica_stride <= old(hist_h)@.len(),
    ensures
        final(hist_g)@.len() == old(hist_g)@.len(),
        final(hist_h)@.len() == old(hist_h)@.len(),
        deterministic::<A>() ==> ({
            let c = Counting {
                view: BinView { bytes: bins@, packed, stride: bin_row_stride as int },
                leaf: leaf@,
                nf: n_features as int,
                nb: n_bins as int,
                replicas: n_replicas as int,
                stride: replica_stride as int,
                subsample,
                seed: tree_seed,
                odd_only,
            };
            &&& final(hist_g)@ == filled::<A, F32>(c, old(hist_g)@, g@, n as nat)
            &&& final(hist_h)@ == filled::<A, F32>(c, old(hist_h)@, h@, n as nat)
        }),
{
    let ghost c = Counting {
        view: BinView { bytes: bins@, packed, stride: bin_row_stride as int },
        leaf: leaf@,
        nf: n_features as int,
        nb: n_bins as int,
        replicas: n_replicas as int,
        stride: replica_stride as int,
        subsample,
        seed: tree_seed,
        odd_only,
    };
    let nn: usize = n as usize;
    let keep = counting_rows::<A>(leaf, nn, subsample, tree_seed, odd_only, Ghost(c));
    scatter::<A, F32>(
        bins,
        packed,
        bin_row_stride as usize,
        leaf,
        keep.as_slice(),
        g,
        hist_g,
        nn,
        n_features as usize,
        n_bins as usize,
        n_replicas as usize,
        replica_stride as usize,
        Ghost(c),
    );
    scatter::<A, F32>(
        bins,
        packed,
        bin_row_stride as usize,
        leaf,
        keep.as_slice(),
        h,
        hist_h,
        nn,
        n_features as usize,
        n_bins as usize,
        n_replicas as usize,
        replica_stride as usize,
        Ghost(c),
    );
}

/// Values in fixed point.
fn to_fixed_point<A: Arith>(vals: &[F32], scale: F32) -> (q: Vec<i32>)
    ensures
        q@.len() == vals@.len(),
        deterministic::<A>() ==> q@ == fixed_point::<A>(vals@, scale),
{
    let mut q: Vec<i32> = Vec::new();
    let mut i: usize = 0;
    while i < vals.len()
        invariant
            i <= vals@.len(),
            q@.len() == i,
            deterministic::<A>() ==> forall|k: int|
                0 <= k < i ==> #[trigger] q@[k] == rounded(product32::<A>(vals@[k], scale)) as i32,
        decreases vals@.len() - i,
    {
        q.push(round_i32(mul32::<A>(vals[i], scale)));
        i = i + 1;
    }
    assert(deterministic::<A>() ==> q@ =~= fixed_point::<A>(vals@, scale));
    q
}

/// The gradient and hessian histograms of the rows of a level in fixed point, with replicas:
/// the rows that count are scaled, rounded and added to what the two buffers hold. A sum that
/// does not fit wraps around.
pub fn build_hist_int<A: Arith>(
    bins: &[u8],
    leaf: &[u32],
    g: &[F32],
    h: &[F32],
    hist_g: &mut Vec<i32>,
    hist_h: &mut Vec<i32>,
    n: u32,
    n_features: u32,
    n_bins: u32,
    n_replicas: u32,
    replica_stride: u32,
    subsample: F32,
    tree_seed: u32,
    odd_only: bool,
    packed: bool,
    bin_row_stride: u32,
    scale: F32,
)
    requires
        (Counting {
            view: BinView { bytes: bins@, packed, stride: bin_row_stride as int },
            leaf: leaf@,
            nf: n_features as int,
            nb: n_bins as int,
            replicas: n_replicas as int,
            stride: replica_stride as int,
            subsample,
            seed: tree_seed,
            odd_only,
        }).fits(n as int),
        n <= g@.len(),
        n <= h@.len(),
        n_replicas * replica_stride <= old(hist_g)@.len(),
        n_replicas * replica_stride <= old(hist_h)@.len(),
    ensures
        final(hist_g)@.len() == old(hist_g)@.len(),
        final(hist_h)@.len() == old(hist_h)@.len(),
        deterministic::<A>() ==> ({
            let c = Counting {
                view: BinView { bytes: bins@, packed, stride: bin_row_stride as int },
                leaf: leaf@,
                nf: n_features as int,
                nb: n_bins as int,
                replicas: n_replicas as int,
                stride: replica_stride as int,
                subsample,
                seed: tree_seed,
                odd_only,
            };
            &&& final(hist_g)@ == filled::<A, i32>(c, old(hist_g)@, fixed_point::<A>(g@, scale), n as nat)
            &&& final(hist_h)@ == filled::<A, i32>(c, old(hist_h)@, fixed_point::<A>(h@, scale), n as nat)
        }),
{
    let ghost c = Counting {
        view: BinView { bytes: bins@, packed, stride: bin_row_stride as int },
        leaf: leaf@,
        nf: n_features as int,
        nb: n_bins as int,
        replicas: n_replicas as int,
        stride: replica_stride as int,
        subsample,
        seed: tree_seed,
        odd_only,
    };
    let nn: usize = n as usize;
    let gq = to_fixed_point::<A>(g, scale);
    let hq = to_fixed_point::<A>(h, scale);
    let keep = counting_rows::<A>(leaf, nn, subsample, tree_seed, odd_only, Ghost(c));
    scatter::<A, i32>(
        bins,
        packed,
        bin_row_stride as usize,
        leaf,
        keep.as_slice(),
        gq.as_slice(),
        hist_g,
        nn,
        n_features as usize,
        n_bins as usize,
        n_replicas as usize,
        replica_stride as usize,
        Ghost(c),
    );
    scatter::<A, i32>(
        bins,
        packed,
        bin_row_stride as usize,
        leaf,
        keep.as_slice(),
        hq.as_slice(),
        hist_h,
        nn,
        n_features as usize,
        n_bins as usize,
        n_replicas as usize,
        replica_stride as usize,
        Ghost(c),
    );
}

/// Values in half precision.
fn to_half<A: Arith>(vals: &[F32]) -> (q: Vec<F16>)
    ensures
        q@.len() == vals@.len(),
        deterministic::<A>() ==> q@ == shortened_all::<A>(vals@),
{
    let mut q: Vec<F16> = Vec::new();
    let mut i: usize = 0;
    while i < vals.len()
        invariant
            i <= vals@.len(),
            q@.len() == i,
            deterministic::<A>() ==> forall|k: int|
                0 <= k < i ==> #[trigger] q@[k] == shortened::<A>(vals@[k]),
        decreases vals@.len() - i,
    {
        q.push(shorten::<A>(vals[i]));
        i = i + 1;
    }
    assert(deterministic::<A>() ==> q@ =~= shortened_all::<A>(vals@));
    q
}

/// The gradient and hessian histograms of the rows of a level in half precision, with replicas:
/// the rows that count are added to what the two buffers hold.
pub fn build_hist_f16<A: Arith>(
    bins: &[u8],
    leaf: &[u32],
    g: &[F32],
    h: &[F32],
    hist_g: &mut Vec<F16>,
    hist_h: &mut Vec<F16>,
    n: u32,
    n_features: u32,
    n_bins: u32,
    n_replicas: u32,
    replica_stride: u32,
    subsample: F32,
    tree_seed: u32,
    odd_only: bool,
    packed: bool,
    bin_row_stride: u32,
)
    requires
        (Counting {
            view: BinView { bytes: bins@, packed, stride: bin_row_stride as int },
            leaf: leaf@,
            nf: n_features as int,
            nb: n_bins as int,
            replicas: n_replicas as int,
            stride: replica_stride as int,
            subsample,
            seed: tree_seed,
            odd_only,
        }).fits(n as int),
        n <= g@.len(),
        n <= h@.len(),
        n_replicas * replica_stride <= old(hist_g)@.len(),
        n_replicas * replica_stride <= old(hist_h)@.len(),
    ensures
        final(hist_g)@.len() == old(hist_g)@.len(),
        final(hist_h)@.len() == old(hist_h)@.len(),
        deterministic::<A>() ==> ({
            let c = Counting {
                view: BinView { bytes: bins@, packed, stride: bin_row_stride as int },
                leaf: leaf@,
                nf: n_features as int,
                nb: n_bins as int,
                replicas: n_replicas as int,
                stride: replica_stride as int,
                subsample,
                seed: tree_seed,
                odd_only,
            };
            &&& final(hist_g)@ == filled::<A, F16>(c, old(hist_g)@, shortened_all::<A>(g@), n as nat)
            &&& final(hist_h)@ == filled::<A, F16>(c, old(hist_h)@, shortened_all::<A>(h@), n as nat)
        }),
{
    let ghost c = Counting {
        view: BinView { bytes: bins@, packed, stride: bin_row_stride as int },
        leaf: leaf@,
        nf: n_features as int,
        nb: n_bins as int,
        replicas: n_replicas as int,
        stride: replica_stride as int,
        subsample,
        seed: tree_seed,
        odd_only,
    };
    let nn: usize = n as usize;
    let gq = to_half::<A>(g);
    let hq = to_half::<A>(h);
    let keep = counting_rows::<A>(leaf, nn, subsample, tree_seed, odd_only, Ghost(c));
    scatter::<A, F16>(
        bins,
        packed,
        bin_row_stride as usize,
        leaf,
        keep.as_slice(),
        gq.as_slice(),
        hist_g,
        nn,
        n_features as usize,
        n_bins as usize,
        n_replicas as usize,
        replica_stride as usize,
        Ghost(c),
    );
    scatter::<A, F16>(
        bins,
        packed,
        bin_row_stride as usize,
        leaf,
        keep.as_slice(),
        hq.as_slice(),
        hist_h,
        nn,
        n_features as usize,
        n_bins as usize,
        n_replicas as usize,
        replica_stride as usize,
        Ghost(c),
    );
}

/// The sum of place `i` over the first `r` replicas, from the first one on.
pub open spec fn replica_sum<A: Arith, C: Accum<A>>(a: Seq<F32>, stride: int, i: int, r: nat) -> C
    decreases r,
{
    if r <= 1 {
        C::lifted(a[i])
    } else {
        replica_sum::<A, C>(a, stride, i, (r - 1) as nat).plus(C::lifted(a[(r - 1) * stride + i]))
    }
}

/// A buffer whose replicas have been folded into the first one.
pub open spec fn folded<A: Arith, C: Accum<A>>(a: Seq<F32>, replicas: nat, stride: nat) -> Seq<
    F32,
> {
    overwritten(
        a,
        Seq::new(
            stride,
            |i: int| replica_sum::<A, C>(a, stride as int, i, replicas).lowered(),
        ),
    )
}

/// The sum of place `i` over the replicas.
fn sum_replicas<A: Arith, C: Accum<A>>(
    a: &[F32],
    replicas: usize,
    stride: usize,
    i: usize,
) -> (r: F32)
    requires
        i < stride,
        stride <= a@.len(),
        replicas * stride <= a@.len(),
    ensures
        deterministic::<A>() ==> r == replica_sum::<A, C>(
            a@,
            stride as int,
            i as int,
            replicas as nat,
        ).lowered(),
{
    let mut sum: C = C::lift(a[i]);
    let mut r: usize = 1;
    while r < replicas
        invariant
            1 <= r,
            r <= replicas || r == 1,
            i < stride,
            replicas * stride <= a@.len(),
            deterministic::<A>() ==> sum == replica_sum::<A, C>(
                a@,
                stride as int,
                i as int,
                r as nat,
            ),
        decreases replicas - r,
    {
        assert(a.len() >= replicas * stride);
        assert(0 <= r * stride && r * stride + stride <= replicas * stride) by (nonlinear_arith)
            requires
                0 <= r < replicas,
                stride >= 0,
        ;
        sum = sum.add_to(C::lift(a[r * stride + i]));
        r = r + 1;
    }
    sum.lower()
}

/// Folds the replicas of a buffer into the first one.
pub fn reduce1<A: Arith, C: Accum<A>>(a: &mut Vec<F32>, n_replicas: u32, stride: u32)
    requires
        stride <= old(a)@.len(),
        n_replicas * stride <= old(a)@.len(),
    ensures
        final(a)@.len() == old(a)@.len(),
        forall|i: int| stride <= i < old(a)@.len() ==> #[trigger] final(a)@[i] == old(a)@[i],
        deterministic::<A>() ==> final(a)@ == folded::<A, C>(
            old(a)@,
            n_replicas as nat,
            stride as nat,
        ),
{
    let st: usize = stride as usize;
    let mut vals: Vec<F32> = Vec::new();
    let mut i: usize = 0;
    while i < st
        invariant
            i <= st,
            st == stride,
            st <= a@.len(),
            n_replicas * stride <= a@.len(),
            vals@.len() == i,
            deterministic::<A>() ==> forall|k: int|
                0 <= k < i ==> #[trigger] vals@[k] == replica_sum::<A, C>(
                    a@,
                    st as int,
                    k,
                    n_replicas as nat,
                ).lowered(),
        decreases st - i,
    {
        vals.push(sum_replicas::<A, C>(a.as_slice(), n_replicas as usize, st, i));
        i = i + 1;
    }
    assert(deterministic::<A>() ==> vals@ =~= Seq::new(
        stride as nat,
        |i: int| replica_sum::<A, C>(a@, stride as int, i, n_replicas as nat).lowered(),
    ));
    store(a, vals.as_slice());
}

/// Folds the replicas of two buffers into the first ones.
pub fn reduce2<A: Arith, C: Accum<A>>(
    a: &mut Vec<F32>,
    b: &mut Vec<F32>,
    n_replicas: u32,
    stride: u32,
)
    requires
        stride <= old(a)@.len(),
        stride <= old(b)@.len(),
        n_replicas * stride <= old(a)@.len(),
        n_replicas * stride <= old(b)@.len(),
    ensures
        final(a)@.len() == old(a)@.len(),
        final(b)@.len() == old(b)@.len(),
        forall|i: int| stride <= i < old(a)@.len() ==> #[trigger] final(a)@[i] == old(a)@[i],
        forall|i: int| stride <= i < old(b)@.len() ==> #[trigger] final(b)@[i] == old(b)@[i],
        deterministic::<A>() ==> final(a)@ == folded::<A, C>(
            old(a)@,
            n_replicas as nat,
            stride as nat,
        ),
        deterministic::<A>() ==> final(b)@ == folded::<A, C>(
            old(b)@,
            n_replicas as nat,
            stride as nat,
        ),
{
    reduce1::<A, C>(a, n_replicas, stride);
    reduce1::<A, C>(b, n_replicas, stride);
}

/// The sum of place `i` over the first `r` replicas of integers.
pub open spec fn integer_sum<A: Arith>(a: Seq<i32>, stride: int, i: int, r: nat) -> F32
    decreases r,
{
    if r == 0 {
        F32 { bits: 0 }
    } else {
        sum32::<A>(
            integer_sum::<A>(a, stride, i, (r - 1) as nat),
            integral32::<A>(a[(r - 1) * stride + i]),
        )
    }
}

/// The sums of integer replicas, scaled back.
pub open spec fn rescaled<A: Arith>(
    a: Seq<i32>,
    replicas: nat,
    stride: nat,
    inv_scale: F32,
) -> Seq<F32> {
    Seq::new(
        stride,
        |i: int|
            product32::<A>(integer_sum::<A>(a, stride as int, i, replicas), inv_scale),
    )
}

/// The sums of integer replicas, scaled back.
fn rescale<A: Arith>(src: &[i32], replicas: usize, stride: usize, inv_scale: F32) -> (vals: Vec<
    F32,
>)
    requires
        replicas * stride <= src@.len(),
    ensures
        vals@.len() == stride,
        deterministic::<A>() ==> vals@ == rescaled::<A>(
            src@,
            replicas as nat,
            stride as nat,
            inv_scale,
        ),
{
    let mut vals: Vec<F32> = Vec::new();
    let mut i: usize = 0;
    while i < stride
        invariant
            i <= stride,
            replicas * stride <= src@.len(),
            vals@.len() == i,
            deterministic::<A>() ==> forall|k: int|
                0 <= k < i ==> #[trigger] vals@[k] == product32::<A>(
                    integer_sum::<A>(src@, stride as int, k, replicas as nat),
                    inv_scale,
                ),
        decreases stride - i,
    {
        let mut sum = F32 { bits: 0 };
        let mut r: usize = 0;
        while r < replicas
            invariant
                r <= replicas,
                i < stride,
                replicas * stride <= src@.len(),
                deterministic::<A>() ==> sum == integer_sum::<A>(
                    src@,
                    stride as int,
                    i as int,
                    r as nat,
                ),
            decreases replicas - r,
        {
            assert(src.len() >= replicas * stride);
            assert(0 <= r * stride && r * stride + stride <= replicas * stride) by (nonlinear_arith)
                requires
                    0 <= r < replicas,
                    stride >= 0,
            ;
            sum = add32::<A>(sum, integer32::<A>(src[r * stride + i]));
            r = r + 1;
        }
        vals.push(mul32::<A>(sum, inv_scale));
        i = i + 1;
    }
    assert(deterministic::<A>() ==> vals@ =~= rescaled::<A>(
        src@,
        replicas as nat,
        stride as nat,
        inv_scale,
    ));
    vals
}

/// Folds the replicas of two integer histograms into two histograms, scaled back.
pub fn reduce2_int_to_f32<A: Arith>(
    src_g: &[i32],
    src_h: &[i32],
    dst_g: &mut Vec<F32>,
    dst_h: &mut Vec<F32>,
    n_replicas: u32,
    stride: u32,
    inv_scale: F32,
)
    requires
        n_replicas * stride <= src_g@.len(),
        n_replicas * stride <= src_h@.len(),
        stride <= old(dst_g)@.len(),
        stride <= old(dst_h)@.len(),
    ensures
        final(dst_g)@.len() == old(dst_g)@.len(),
        final(dst_h)@.len() == old(dst_h)@.len(),
        deterministic::<A>() ==> final(dst_g)@ == overwritten(
            old(dst_g)@,
            rescaled::<A>(src_g@, n_replicas as nat, stride as nat, inv_scale),
        ),
        deterministic::<A>() ==> final(dst_h)@ == overwritten(
            old(dst_h)@,
            rescaled::<A>(src_h@, n_replicas as nat, stride as nat, inv_scale),
        ),
{
    let gs = rescale::<A>(src_g, n_replicas as usize, stride as usize, inv_scale);
    let hs = rescale::<A>(src_h, n_replicas as usize, stride as usize, inv_scale);
    store(dst_g, gs.as_slice());
    store(dst_h, hs.as_slice());
}

/// The sum of place `i` over the first `r` replicas in half precision.
pub open spec fn half_sum<A: Arith>(a: Seq<F16>, stride: int, i: int, r: nat) -> F32
    decreases r,
{
    if r == 0 {
        F32 { bits: 0 }
    } else {
        sum32::<A>(
            half_sum::<A>(a, stride, i, (r - 1) as nat),
            lengthened::<A>(a[(r - 1) * stride + i]),
        )
    }
}

/// The sums of replicas in half precision.
pub open spec fn half_sums<A: Arith>(a: Seq<F16>, replicas: nat, stride: nat) -> Seq<F32> {
    Seq::new(stride, |i: int| half_sum::<A>(a, stride as int, i, replicas))
}

/// The sums of replicas in half precision.
fn sum_halves<A: Arith>(src: &[F16], replicas: usize, stride: usize) -> (vals: Vec<F32>)
    requires
        replicas * stride <= src@.len(),
    ensures
        vals@.len() == stride,
        deterministic::<A>() ==> vals@ == half_sums::<A>(
            src@,
            replicas as nat,
            stride as nat,
        ),
{
    let mut vals: Vec<F32> = Vec::new();
    let mut i: usize = 0;
    while i < stride
        invariant
            i <= stride,
            replicas * stride <= src@.len(),
            vals@.len() == i,
            deterministic::<A>() ==> forall|k: int|
                0 <= k < i ==> #[trigger] vals@[k] == half_sum::<A>(
                    src@,
                    stride as int,
                    k,
                    replicas as nat,
                ),
        decreases stride - i,
    {
        let mut sum = F32 { bits: 0 };
        let mut r: usize = 0;
        while r < replicas
            invariant
                r <= replicas,
                i < stride,
                replicas * stride <= src@.len(),
                deterministic::<A>() ==> sum == half_sum::<A>(
                    src@,
                    stride as int,
                    i as int,
                    r as nat,
                ),
            decreases replicas - r,
        {
            assert(src.len() >= replicas * stride);
            assert(0 <= r * stride && r * stride + stride <= replicas * stride) by (nonlinear_arith)
                requires
                    0 <= r < replicas,
                    stride >= 0,
            ;
            sum = add32::<A>(sum, lengthen::<A>(src[r * stride + i]));
            r = r + 1;
        }
        vals.push(sum);
        i = i + 1;
    }
    assert(deterministic::<A>() ==> vals@ =~= half_sums::<A>(
        src@,
        replicas as nat,
        stride as nat,
    ));
    vals
}

/// Folds the replicas of two histograms in half precision into two histograms.
pub fn reduce2_f16to32<A: Arith>(
    src_g: &[F16],
    src_h: &[F16],
    dst_g: &mut Vec<F32>,
    dst_h: &mut Vec<F32>,
    n_replicas: u32,
    stride: u32,
)
    requires
        n_replicas * stride <= src_g@.len(),
        n_replicas * stride <= src_h@.len(),
        stride <= old(dst_g)@.len(),
        stride <= old(dst_h)@.len(),
    ensures
        final(dst_g)@.len() == old(dst_g)@.len(),
        final(dst_h)@.len() == old(dst_h)@.len(),
        deterministic::<A>() ==> final(dst_g)@ == overwritten(
            old(dst_g)@,
            half_sums::<A>(src_g@, n_replicas as nat, stride as nat),
        ),
        deterministic::<A>() ==> final(dst_h)@ == overwritten(
            old(dst_h)@,
            half_sums::<A>(src_h@, n_replicas as nat, stride as nat),
        ),
{
    let gs = sum_halves::<A>(src_g, n_replicas as usize, stride as usize);
    let hs = sum_halves::<A>(src_h, n_replicas as usize, stride as usize);
    store(dst_g, gs.as_slice());
    store(dst_h, hs.as_slice());
}

/// The histogram of a level whose odd nodes have been counted, with the even nodes had from
/// the level before: an even node has what its parent has and its odd sibling has not. A node
/// takes `size` places.
pub open spec fn evened<A: Arith>(cur: Seq<F32>, prev: Seq<F32>, groups: int, size: int) -> Seq<
    F32,
> {
    Seq::new(
        cur.len(),
        |i: int|
            if i < 2 * groups * size && i / size % 2 == 0 {
                difference32::<A>(prev[i / size / 2 * size + i % size], cur[i + size])
            } else {
                cur[i]
            },
    )
}

/// Fills in the even nodes of one histogram.
fn even_out<A: Arith>(cur: &mut Vec<F32>, prev: &[F32], groups: usize, size: usize)
    requires
        size > 0,
        2 * groups * size <= old(cur)@.len(),
        groups * size <= prev@.len(),
    ensures
        final(cur)@.len() == old(cur)@.len(),
        deterministic::<A>() ==> final(cur)@ == evened::<A>(
            old(cur)@,
            prev@,
            groups as int,
            size as int,
        ),
{
    let ghost start = cur@;
    let mut g: usize = 0;
    while g < groups
        invariant
            size > 0,
            g <= groups,
            cur@.len() == start.len(),
            2 * groups * size <= start.len(),
            groups * size <= prev@.len(),
            deterministic::<A>() ==> forall|i: int|
                0 <= i < start.len() ==> #[trigger] cur@[i] == (if i < 2 * g * size {
                    evened::<A>(start, prev@, groups as int, size as int)[i]
                } else {
                    start[i]
                }),
        decreases groups - g,
    {
        let mut e: usize = 0;
        let ghost low = 2 * g * size;
        assert(low == g * (2 * size)) by (nonlinear_arith)
            requires
                low == 2 * g * size,
        ;
        while e < size
            invariant
                size > 0,
                g < groups,
                e <= size,
                low == 2 * g * size,
                cur@.len() == start.len(),
                2 * groups * size <= start.len(),
                groups * size <= prev@.len(),
                deterministic::<A>() ==> forall|i: int|
                    0 <= i < start.len() ==> #[trigger] cur@[i] == (if i < low + e {
                        evened::<A>(start, prev@, groups as int, size as int)[i]
                    } else {
                        start[i]
                    }),
            decreases size - e,
        {
            proof {
                assert(low + 2 * size <= 2 * groups * size && 0 <= low && 0 <= g * size && g * size
                    + size <= groups * size && low == 2 * (g * size)) by (nonlinear_arith)
                    requires
                        0 <= g < groups,
                        size > 0,
                        low == 2 * g * size,
                ;
            }
            assert(cur.len() >= low + 2 * size);
            assert(prev.len() >= g * size + size);
            let even: usize = 2 * (g * size) + e;
            let odd: usize = even + size;
            let ghost before = cur@;
            let v = sub32::<A>(prev[g * size + e], cur[odd]);
            cur[even] = v;
            proof {
                let sz = size as int;
                assert(even as int / sz == 2 * g && even as int % sz == e) by {
                    assert(even == sz * (2 * g) + e) by (nonlinear_arith)
                        requires
                            even == 2 * (g * size) + e,
                            sz == size,
                    ;
                    vstd::arithmetic::div_mod::lemma_fundamental_div_mod_converse(
                        even as int,
                        sz,
                        2 * g as int,
                        e as int,
                    );
                }
                if deterministic::<A>() {
                    assert(before[odd as int] == start[odd as int]);
                    assert forall|i: int| 0 <= i < start.len() implies #[trigger] cur@[i] == (if i
                        < low + e + 1 {
                        evened::<A>(start, prev@, groups as int, sz)[i]
                    } else {
                        start[i]
                    }) by {
                        let _ = before[i];
                        if i == even {
                            assert(2 * g / 2 == g);
                            assert(evened::<A>(start, prev@, groups as int, sz)[i] == v);
                        }
                    }
                }
            }
            e = e + 1;
        }
        proof {
            let sz = size as int;
            if deterministic::<A>() {
                assert(2 * (g + 1) * size == low + 2 * size) by (nonlinear_arith)
                    requires
                        low == 2 * g * size,
                ;
                assert forall|i: int| 0 <= i < start.len() implies #[trigger] cur@[i] == (if i < 2
                    * (g + 1) * size {
                    evened::<A>(start, prev@, groups as int, sz)[i]
                } else {
                    start[i]
                }) by {
                    if low + size <= i < low + 2 * size {
                        let r = i - low - size;
                        assert(i == sz * (2 * g + 1) + r) by (nonlinear_arith)
                            requires
                                r == i - low - size,
                                low == 2 * g * size,
                                sz == size,
                        ;
                        vstd::arithmetic::div_mod::lemma_fundamental_div_mod_converse(
                            i,
                            sz,
                            2 * g + 1,
                            r,
                        );
                    }
                }
            }
        }
        g = g + 1;
    }
    assert(deterministic::<A>() ==> cur@ =~= evened::<A>(
        start,
        prev@,
        groups as int,
        size as int,
    ));
}

/// Fills in the even nodes of a level from those of the level before and the odd ones.
pub fn subtract_even<A: Arith>(
    cur_g: &mut Vec<F32>,
    cur_h: &mut Vec<F32>,
    prev_g: &[F32],
    prev_h: &[F32],
    prev_groups: u32,
    n_features: u32,
    n_bins: u32,
)
    requires
        0 < n_features * n_bins <= u32::MAX,
        2 * prev_groups * (n_features * n_bins) <= old(cur_g)@.len(),
        2 * prev_groups * (n_features * n_bins) <= old(cur_h)@.len(),
        prev_groups * (n_features * n_bins) <= prev_g@.len(),
        prev_groups * (n_features * n_bins) <= prev_h@.len(),
    ensures
        final(cur_g)@.len() == old(cur_g)@.len(),
        final(cur_h)@.len() == old(cur_h)@.len(),
        deterministic::<A>() ==> final(cur_g)@ == evened::<A>(
            old(cur_g)@,
            prev_g@,
            prev_groups as int,
            n_features * n_bins,
        ),
        deterministic::<A>() ==> final(cur_h)@ == evened::<A>(
            old(cur_h)@,
            prev_h@,
            prev_groups as int,
            n_features * n_bins,
        ),
{
    let size: usize = n_features as usize * n_bins as usize;
    even_out::<A>(cur_g, prev_g, prev_groups as usize, size);
    even_out::<A>(cur_h, prev_h, prev_groups as usize, size);
}

/// The running sum of a segment of `nb` places from `base` on, up to its place `b`.
pub open spec fn segment_sum<A: Arith>(a: Seq<F32>, base: int, k: nat) -> F32
    decreases k,
{
    if k == 0 {
        F32 { bits: 0 }
    } else {
        sum32::<A>(segment_sum::<A>(a, base, (k - 1) as nat), a[base + k - 1])
    }
}

/// A buffer whose first `segments` segments of `nb` places hold running sums.
pub open spec fn scanned<A: Arith>(a: Seq<F32>, segments: int, nb: int) -> Seq<F32> {
    Seq::new(
        a.len(),
        |i: int|
            if i < segments * nb {
                segment_sum::<A>(a, i / nb * nb, (i % nb + 1) as nat)
            } else {
                a[i]
            },
    )
}

/// Puts running sums into the segments of one buffer.
fn scan<A: Arith>(a: &mut Vec<F32>, segments: usize, nb: usize)
    requires
        nb > 0,
        segments * nb <= old(a)@.len(),
    ensures
        final(a)@.len() == old(a)@.len(),
        deterministic::<A>() ==> final(a)@ == scanned::<A>(old(a)@, segments as int, nb as int),
{
    let ghost start = a@;
    let mut s: usize = 0;
    while s < segments
        invariant
            nb > 0,
            s <= segments,
            a@.len() == start.len(),
            segments * nb <= start.len(),
            deterministic::<A>() ==> forall|i: int|
                0 <= i < start.len() ==> #[trigger] a@[i] == (if i < s * nb {
                    scanned::<A>(start, segments as int, nb as int)[i]
                } else {
                    start[i]
                }),
        decreases segments - s,
    {
        assert(a.len() >= segments * nb);
        assert(0 <= s * nb && s * nb + nb <= segments * nb) by (nonlinear_arith)
            requires
                0 <= s < segments,
                nb > 0,
        ;
        let base: usize = s * nb;
        let mut acc = F32 { bits: 0 };
        let mut b: usize = 0;
        while b < nb
            invariant
                nb > 0,
                s < segments,
                base == s * nb,
                base + nb <= segments * nb <= start.len(),
                base + nb <= usize::MAX,
                b <= nb,
                a@.len() == start.len(),
                deterministic::<A>() ==> acc == segment_sum::<A>(start, base as int, b as nat),
                deterministic::<A>() ==> forall|i: int|
                    0 <= i < start.len() ==> #[trigger] a@[i] == (if i < base + b {
                        scanned::<A>(start, segments as int, nb as int)[i]
                    } else {
                        start[i]
                    }),
            decreases nb - b,
        {
            let at: usize = base + b;
            let ghost before = a@;
            acc = add32::<A>(acc, a[at]);
            a[at] = acc;
            proof {
                let n = nb as int;
                assert(at == n * s + b) by (nonlinear_arith)
                    requires
                        at == s * nb + b,
                        n == nb,
                ;
                vstd::arithmetic::div_mod::lemma_fundamental_div_mod_converse(
                    at as int,
                    n,
                    s as int,
                    b as int,
                );
                if deterministic::<A>() {
                    assert(before[at as int] == start[at as int]);
                    assert forall|i: int| 0 <= i < start.len() implies #[trigger] a@[i] == (if i
                        < base + b + 1 {
                        scanned::<A>(start, segments as int, n)[i]
                    } else {
                        start[i]
                    }) by {
                        let _ = before[i];
                    }
                }
            }
            b = b + 1;
        }
        assert((s + 1) * nb == s * nb + nb) by (nonlinear_arith);
        s = s + 1;
    }
    assert(deterministic::<A>() ==> a@ =~= scanned::<A>(start, segments as int, nb as int));
}

/// Puts running sums along the bins into two histograms, for each node and feature.
pub fn prefix_scan<A: Arith>(
    hist_g: &mut Vec<F32>,
    hist_h: &mut Vec<F32>,
    n_features: u32,
    n_bins: u32,
    n_groups: u32,
)
    requires
        n_bins > 0,
        n_groups * n_features * n_bins <= old(hist_g)@.len(),
        n_groups * n_features * n_bins <= old(hist_h)@.len(),
    ensures
        final(hist_g)@.len() == old(hist_g)@.len(),
        final(hist_h)@.len() == old(hist_h)@.len(),
        deterministic::<A>() ==> final(hist_g)@ == scanned::<A>(
            old(hist_g)@,
            n_groups * n_features,
            n_bins as int,
        ),
        deterministic::<A>() ==> final(hist_h)@ == scanned::<A>(
            old(hist_h)@,
            n_groups * n_features,
            n_bins as int,
        ),
{
    assert(hist_g.len() >= n_groups * n_features * n_bins);
    assert(0 <= n_groups * n_features <= n_groups * n_features * n_bins) by (nonlinear_arith)
        requires
            n_groups >= 0,
            n_features >= 0,
            n_bins >= 1,
    ;
    let segments: usize = n_groups as usize * n_features as usize;
    scan::<A>(hist_g, segments, n_bins as usize);
    scan::<A>(hist_h, segments, n_bins as usize);
}

/// The rows of a tile: a run of equal length for each of `tiles`, the last ones shorter.
pub open spec fn tile_start(n: int, tiles: int, t: int) -> int {
    t * ((n + tiles - 1) / tiles)
}

pub open spec fn tile_end(n: int, tiles: int, t: int) -> int {
    let end = tile_start(n, tiles, t) + (n + tiles - 1) / tiles;
    if end > n {
        n
    } else {
        end
    }
}

impl Counting {
    /// Row `i` is drawn, where the rate does not leave it in by default.
    pub open spec fn drawn_in<A: Arith>(self, i: int) -> bool {
        (F32 { bits: ONE32 }).at_most(self.subsample) || sample_share::<A>(
            i as u32,
            self.seed,
        ).below(self.subsample)
    }

    /// Row `i` is added to place `off` of the histogram that a block builds for feature `f`.
    pub open spec fn hits_block<A: Arith>(self, i: int, f: int, off: int) -> bool {
        &&& self.drawn_in::<A>(i)
        &&& !(self.odd_only && self.leaf[i] % 2 == 0)
        &&& self.leaf[i] * self.nb + self.view.bin(i, f) == off
    }
}

/// What stands at place `off` of a block's histogram after the rows from `low` up to `k` have
/// been added.
pub open spec fn block_sum<A: Arith>(
    c: Counting,
    vals: Seq<F32>,
    f: int,
    low: int,
    k: int,
    off: int,
) -> F32
    decreases k - low,
{
    if k <= low {
        F32 { bits: 0 }
    } else {
        let before = block_sum::<A>(c, vals, f, low, k - 1, off);
        if c.hits_block::<A>(k - 1, f, off) {
            sum32::<A>(before, vals[k - 1])
        } else {
            before
        }
    }
}

/// What stands at place `at` of a histogram after the blocks of the first `t` tiles have added
/// what they have. A block that has nothing in a place adds nothing there.
pub open spec fn flushed<A: Arith>(
    c: Counting,
    start: F32,
    vals: Seq<F32>,
    g: Seq<F32>,
    h: Seq<F32>,
    n: int,
    tiles: int,
    t: nat,
    at: int,
) -> F32
    decreases t,
{
    if t == 0 {
        start
    } else {
        let before = flushed::<A>(c, start, vals, g, h, n, tiles, (t - 1) as nat, at);
        let f = feature_of(at, c.nf, c.nb);
        let off = node_of(at, c.nf, c.nb) * c.nb + bin_of(at, c.nb);
        let low = tile_start(n, tiles, t - 1);
        let high = tile_end(n, tiles, t - 1);
        let zero = F32 { bits: 0 };
        if block_sum::<A>(c, g, f, low, high, off).equals(zero) && block_sum::<A>(
            c,
            h,
            f,
            low,
            high,
            off,
        ).equals(zero) {
            before
        } else {
            sum32::<A>(before, block_sum::<A>(c, vals, f, low, high, off))
        }
    }
}

/// A histogram to which the blocks of all tiles have added what they have.
pub open spec fn tiled<A: Arith>(
    c: Counting,
    old: Seq<F32>,
    vals: Seq<F32>,
    g: Seq<F32>,
    h: Seq<F32>,
    n: int,
    tiles: nat,
) -> Seq<F32> {
    Seq::new(
        old.len(),
        |at: int|
            if at < c.stride {
                flushed::<A>(c, old[at], vals, g, h, n, tiles as int, tiles, at)
            } else {
                old[at]
            },
    )
}

/// The histograms that a block builds for feature `f` from the rows from `low` up to `high`.
fn block_hist<A: Arith>(
    bins: &[u8],
    packed: bool,
    rs: usize,
    leaf: &[u32],
    g: &[F32],
    h: &[F32],
    f: usize,
    low: usize,
    high: usize,
    nb: usize,
    size: usize,
    subsample: F32,
    seed: u32,
    odd_only: bool,
    Ghost(c): Ghost<Counting>,
    Ghost(n): Ghost<int>,
) -> (r: (Vec<F32>, Vec<F32>))
    requires
        c.fits(n),
        c.view == (BinView { bytes: bins@, packed, stride: rs as int }),
        c.leaf == leaf@,
        c.nb == nb,
        c.subsample == subsample,
        c.seed == seed,
        c.odd_only == odd_only,
        f < c.nf,
        high <= n <= u32::MAX,
        n <= g@.len(),
        n <= h@.len(),
        size == c.groups() * nb,
    ensures
        r.0@.len() == size,
        r.1@.len() == size,
        deterministic::<A>() ==> forall|off: int|
            0 <= off < size ==> #[trigger] r.0@[off] == block_sum::<A>(
                c,
                g@,
                f as int,
                low as int,
                high as int,
                off,
            ),
        deterministic::<A>() ==> forall|off: int|
            0 <= off < size ==> #[trigger] r.1@[off] == block_sum::<A>(
                c,
                h@,
                f as int,
                low as int,
                high as int,
                off,
            ),
{
    let mut sg: Vec<F32> = vec![F32 { bits: 0 };size];
    let mut sh: Vec<F32> = vec![F32 { bits: 0 };size];
    let mut i: usize = low;
    while i < high
        invariant
            c.fits(n),
            c.view == (BinView { bytes: bins@, packed, stride: rs as int }),
            c.leaf == leaf@,
            c.nb == nb,
            c.subsample == subsample,
            c.seed == seed,
            c.odd_only == odd_only,
            f < c.nf,
            low <= i,
            i <= high || i == low,
            high <= n <= u32::MAX,
            n <= g@.len(),
            n <= h@.len(),
            size == c.groups() * nb,
            sg@.len() == size,
            sh@.len() == size,
            deterministic::<A>() ==> forall|off: int|
                0 <= off < size ==> #[trigger] sg@[off] == block_sum::<A>(
                    c,
                    g@,
                    f as int,
                    low as int,
                    i as int,
                    off,
                ),
            deterministic::<A>() ==> forall|off: int|
                0 <= off < size ==> #[trigger] sh@[off] == block_sum::<A>(
                    c,
                    h@,
                    f as int,
                    low as int,
                    i as int,
                    off,
                ),
        decreases high - i,
    {
        let l: u32 = leaf[i];
        let keep = subsample.not_less(F32 { bits: ONE32 }) || hash01::<A>(i as u32, seed).less(
            subsample,
        );
        if keep && !(odd_only && l % 2 == 0) {
            let b: usize = read_bin(bins, packed, rs, i, f, Ghost(n), Ghost(c.nf));
            proof {
                assert(c.view.bin(i as int, f as int) < nb);
                assert(c.leaf[i as int] < c.groups());
                let groups = c.groups();
                assert(0 <= l * nb && l * nb + nb <= groups * nb) by (nonlinear_arith)
                    requires
                        0 <= l < groups,
                        nb >= 0,
                ;
            }
            let off: usize = l as usize * nb + b;
            let ghost before_g = sg@;
            let ghost before_h = sh@;
            sg[off] = add32::<A>(sg[off], g[i]);
            sh[off] = add32::<A>(sh[off], h[i]);
            proof {
                if deterministic::<A>() {
                    assert forall|p: int| 0 <= p < size implies #[trigger] sg@[p] == block_sum::<A>(
                        c,
                        g@,
                        f as int,
                        low as int,
                        i + 1,
                        p,
                    ) by {
                        let _ = before_g[p];
                    }
                    assert forall|p: int| 0 <= p < size implies #[trigger] sh@[p] == block_sum::<A>(
                        c,
                        h@,
                        f as int,
                        low as int,
                        i + 1,
                        p,
                    ) by {
                        let _ = before_h[p];
                    }
                }
            }
        }
        i = i + 1;
    }
    (sg, sh)
}

/// The number of tiles whose blocks have added to place `at`, when those for the features
/// below `f` are done, and for feature `f` those of the first `t` tiles and the places below
/// `s` of the next one.
spec fn tiles_done(c: Counting, tiles: nat, f: int, t: nat, s: int, at: int) -> nat {
    let g = feature_of(at, c.nf, c.nb);
    let off = node_of(at, c.nf, c.nb) * c.nb + bin_of(at, c.nb);
    if g < f {
        tiles
    } else if g > f {
        0
    } else if off < s {
        t + 1
    } else {
        t
    }
}

/// Every place of a histogram is that of one node, feature and bin.
proof fn lemma_flush_place(c: Counting, f: int, s: int)
    requires
        0 < c.nf,
        0 < c.nb,
        0 <= f < c.nf,
        0 <= s < c.groups() * c.nb,
        c.stride == c.groups() * c.nf * c.nb,
    ensures
        ({
            let at = cell(s / c.nb, f, s % c.nb, c.nf, c.nb);
            &&& 0 <= at < c.stride
            &&& feature_of(at, c.nf, c.nb) == f
            &&& node_of(at, c.nf, c.nb) * c.nb + bin_of(at, c.nb) == s
        }),
        forall|at: int|
            #![trigger feature_of(at, c.nf, c.nb)]
            0 <= at < c.stride && feature_of(at, c.nf, c.nb) == f && node_of(at, c.nf, c.nb) * c.nb
                + bin_of(at, c.nb) == s ==> at == cell(s / c.nb, f, s % c.nb, c.nf, c.nb),
{
    let nb = c.nb;
    let groups = c.groups();
    let nd = s / nb;
    let b = s % nb;
    vstd::arithmetic::div_mod::lemma_fundamental_div_mod(s, nb);
    assert(0 <= nd < groups) by (nonlinear_arith)
        requires
            0 <= s < groups * nb,
            nb > 0,
            nd == s / nb,
    ;
    assert(nb * nd == nd * nb) by (nonlinear_arith);
    lemma_cell(nd, f, b, groups, c.nf, nb);
    assert forall|at: int|
        #![trigger feature_of(at, c.nf, c.nb)]
        0 <= at < c.stride && feature_of(at, c.nf, c.nb) == f && node_of(at, c.nf, c.nb) * c.nb
            + bin_of(at, c.nb) == s implies at == cell(s / c.nb, f, s % c.nb, c.nf, c.nb) by {
        lemma_cell_parts(at, groups, c.nf, nb);
        let nd2 = node_of(at, c.nf, nb);
        let b2 = bin_of(at, nb);
        assert(s == nb * nd2 + b2) by (nonlinear_arith)
            requires
                nd2 * nb + b2 == s,
        ;
        vstd::arithmetic::div_mod::lemma_fundamental_div_mod_converse(s, nb, nd2, b2);
    }
}

/// The places of a block's histogram are those of its nodes and bins.
proof fn lemma_flush_range(c: Counting, at: int)
    requires
        0 < c.nf,
        0 < c.nb,
        0 <= at < c.stride,
        c.stride == c.groups() * c.nf * c.nb,
    ensures
        0 <= node_of(at, c.nf, c.nb) * c.nb + bin_of(at, c.nb) < c.groups() * c.nb,
        0 <= feature_of(at, c.nf, c.nb) < c.nf,
{
    lemma_cell_parts(at, c.groups(), c.nf, c.nb);
    let nd = node_of(at, c.nf, c.nb);
    let b = bin_of(at, c.nb);
    let nb = c.nb;
    let groups = c.groups();
    assert(0 <= nd * nb && nd * nb + nb <= groups * nb) by (nonlinear_arith)
        requires
            0 <= nd < groups,
            nb > 0,
    ;
}

/// The gradient and hessian histograms of the rows of a level, built by blocks of threads of
/// their own: there is a block for each feature and tile of rows. A block builds the histogram
/// of its feature and rows for itself, which takes `groups * n_bins` places, at most 4096, and
/// adds it to what the two buffers hold.
pub fn build_hist_smem<A: Arith>(
    bins: &[u8],
    leaf: &[u32],
    g: &[F32],
    h: &[F32],
    hist_g: &mut Vec<F32>,
    hist_h: &mut Vec<F32>,
    n: u32,
    n_features: u32,
    n_bins: u32,
    groups: u32,
    n_tiles: u32,
    subsample: F32,
    tree_seed: u32,
    odd_only: bool,
    packed: bool,
    bin_row_stride: u32,
)
    requires
        groups * n_bins <= 4096,
        n_tiles > 0,
        n + n_tiles <= usize::MAX,
        groups * n_features * n_bins <= u32::MAX,
        (Counting {
            view: BinView { bytes: bins@, packed, stride: bin_row_stride as int },
            leaf: leaf@,
            nf: n_features as int,
            nb: n_bins as int,
            replicas: 1,
            stride: groups * n_features * n_bins,
            subsample,
            seed: tree_seed,
            odd_only,
        }).fits(n as int),
        n <= g@.len(),
        n <= h@.len(),
        groups * n_features * n_bins <= old(hist_g)@.len(),
        groups * n_features * n_bins <= old(hist_h)@.len(),
    ensures
        final(hist_g)@.len() == old(hist_g)@.len(),
        final(hist_h)@.len() == old(hist_h)@.len(),
        deterministic::<A>() ==> ({
            let c = Counting {
                view: BinView { bytes: bins@, packed, stride: bin_row_stride as int },
                leaf: leaf@,
                nf: n_features as int,
                nb: n_bins as int,
                replicas: 1,
                stride: groups * n_features * n_bins,
                subsample,
                seed: tree_seed,
                odd_only,
            };
            &&& final(hist_g)@ == tiled::<A>(c, old(hist_g)@, g@, g@, h@, n as int, n_tiles as nat)
            &&& final(hist_h)@ == tiled::<A>(c, old(hist_h)@, h@, g@, h@, n as int, n_tiles as nat)
        }),
{
    let ghost c = Counting {
        view: BinView { bytes: bins@, packed, stride: bin_row_stride as int },
        leaf: leaf@,
        nf: n_features as int,
        nb: n_bins as int,
        replicas: 1,
        stride: groups * n_features * n_bins,
        subsample,
        seed: tree_seed,
        odd_only,
    };
    let nf: usize = n_features as usize;
    let nb: usize = n_bins as usize;
    let nn: usize = n as usize;
    let tiles: usize = n_tiles as usize;
    let rs: usize = bin_row_stride as usize;
    let size: usize = groups as usize * nb;
    proof {
        lemma_groups(c, groups as int);
    }
    let chunk: usize = (nn + tiles - 1) / tiles;
    let ghost start_g = hist_g@;
    let ghost start_h = hist_h@;
    let mut f: usize = 0;
    while f < nf
        invariant
            c.fits(n as int),
            c.view == (BinView { bytes: bins@, packed, stride: rs as int }),
            c.leaf == leaf@,
            c.nf == nf,
            c.nb == nb,
            c.subsample == subsample,
            c.seed == tree_seed,
            c.odd_only == odd_only,
            c.stride <= u32::MAX,
            c.stride == groups * nf * nb,
            c.groups() == groups,
            size == groups * nb,
            nn == n,
            tiles == n_tiles,
            tiles > 0,
            chunk == (nn + tiles - 1) / (tiles as int),
            nn <= g@.len(),
            nn <= h@.len(),
            nn <= u32::MAX,
            c.stride <= start_g.len(),
            c.stride <= start_h.len(),
            hist_g@.len() == start_g.len(),
            hist_h@.len() == start_h.len(),
            f <= nf,
            deterministic::<A>() ==> forall|at: int|
                0 <= at < start_g.len() ==> #[trigger] hist_g@[at] == (if at < c.stride {
                    flushed::<A>(
                        c,
                        start_g[at],
                        g@,
                        g@,
                        h@,
                        n as int,
                        tiles as int,
                        tiles_done(c, tiles as nat, f as int, 0, 0, at),
                        at,
                    )
                } else {
                    start_g[at]
                }),
            deterministic::<A>() ==> forall|at: int|
                0 <= at < start_h.len() ==> #[trigger] hist_h@[at] == (if at < c.stride {
                    flushed::<A>(
                        c,
                        start_h[at],
                        h@,
                        g@,
                        h@,
                        n as int,
                        tiles as int,
                        tiles_done(c, tiles as nat, f as int, 0, 0, at),
                        at,
                    )
                } else {
                    start_h[at]
                }),
        decreases nf - f,
    {
        let mut t: usize = 0;
        while t < tiles
            invariant
                c.fits(n as int),
                c.view == (BinView { bytes: bins@, packed, stride: rs as int }),
                c.leaf == leaf@,
                c.nf == nf,
                c.nb == nb,
                c.subsample == subsample,
                c.seed == tree_seed,
                c.odd_only == odd_only,
                c.stride <= u32::MAX,
                c.stride == groups * nf * nb,
                c.groups() == groups,
                size == groups * nb,
                nn == n,
                tiles == n_tiles,
                tiles > 0,
                chunk == (nn + tiles - 1) / (tiles as int),
                nn <= g@.len(),
                nn <= h@.len(),
                nn <= u32::MAX,
                c.stride <= start_g.len(),
                c.stride <= start_h.len(),
                hist_g@.len() == start_g.len(),
                hist_h@.len() == start_h.len(),
                f < nf,
                t <= tiles,
                deterministic::<A>() ==> forall|at: int|
                    0 <= at < start_g.len() ==> #[trigger] hist_g@[at] == (if at < c.stride {
                        flushed::<A>(
                            c,
                            start_g[at],
                            g@,
                            g@,
                            h@,
                            n as int,
                            tiles as int,
                            tiles_done(c, tiles as nat, f as int, t as nat, 0, at),
                            at,
                        )
                    } else {
                        start_g[at]
                    }),
                deterministic::<A>() ==> forall|at: int|
                    0 <= at < start_h.len() ==> #[trigger] hist_h@[at] == (if at < c.stride {
                        flushed::<A>(
                            c,
                            start_h[at],
                            h@,
                            g@,
                            h@,
                            n as int,
                            tiles as int,
                            tiles_done(c, tiles as nat, f as int, t as nat, 0, at),
                            at,
                        )
                    } else {
                        start_h[at]
                    }),
            decreases tiles - t,
        {
            flush_block::<A>(
                bins,
                packed,
                rs,
                leaf,
                g,
                h,
                hist_g,
                hist_h,
                f,
                t,
                nn,
                nf,
                nb,
                size,
                tiles,
                chunk,
                subsample,
                tree_seed,
                odd_only,
                Ghost(c),
                Ghost(start_g),
                Ghost(start_h),
            );
            t = t + 1;
        }
        proof {
            if deterministic::<A>() {
                assert forall|at: int| 0 <= at < c.stride implies #[trigger] tiles_done(
                    c,
                    tiles as nat,
                    f as int,
                    tiles as nat,
                    0,
                    at,
                ) == tiles_done(c, tiles as nat, f + 1, 0, 0, at) by {
                    lemma_flush_range(c, at);
                }
            }
        }
        f = f + 1;
    }
    proof {
        if deterministic::<A>() {
            assert forall|at: int| 0 <= at < c.stride implies #[trigger] tiles_done(
                c,
                tiles as nat,
                nf as int,
                0,
                0,
                at,
            ) == tiles by {
                lemma_flush_range(c, at);
            }
            assert(hist_g@ =~= tiled::<A>(c, start_g, g@, g@, h@, n as int, n_tiles as nat));
            assert(hist_h@ =~= tiled::<A>(c, start_h, h@, g@, h@, n as int, n_tiles as nat));
        }
    }
}

/// A histogram has the nodes that its length says.
pub(crate) proof fn lemma_groups(c: Counting, groups: int)
    requires
        0 < c.nf,
        0 < c.nb,
        c.stride == groups * c.nf * c.nb,
    ensures
        c.groups() == groups,
{
    let k = c.nf * c.nb;
    let nf = c.nf;
    let nb = c.nb;
    assert(k > 0) by (nonlinear_arith)
        requires
            nf > 0,
            nb > 0,
            k == nf * nb,
    ;
    assert(groups * nf * nb == k * groups) by (nonlinear_arith)
        requires
            k == nf * nb,
    ;
    vstd::arithmetic::div_mod::lemma_fundamental_div_mod_converse(c.stride, k, groups, 0);
}

/// Builds the histogram of the block for feature `f` and tile `t`, and adds it.
fn flush_block<A: Arith>(
    bins: &[u8],
    packed: bool,
    rs: usize,
    leaf: &[u32],
    g: &[F32],
    h: &[F32],
    hist_g: &mut Vec<F32>,
    hist_h: &mut Vec<F32>,
    f: usize,
    t: usize,
    nn: usize,
    nf: usize,
    nb: usize,
    size: usize,
    tiles: usize,
    chunk: usize,
    subsample: F32,
    seed: u32,
    odd_only: bool,
    Ghost(c): Ghost<Counting>,
    Ghost(start_g): Ghost<Seq<F32>>,
    Ghost(start_h): Ghost<Seq<F32>>,
)
    requires
        c.fits(nn as int),
        c.view == (BinView { bytes: bins@, packed, stride: rs as int }),
        c.leaf == leaf@,
        c.nf == nf,
        c.nb == nb,
        c.subsample == subsample,
        c.seed == seed,
        c.odd_only == odd_only,
        c.stride <= u32::MAX,
        size == c.groups() * nb,
        f < nf,
        t < tiles,
        chunk == (nn + tiles - 1) / (tiles as int),
        nn <= g@.len(),
        nn <= h@.len(),
        nn <= u32::MAX,
        tiles <= u32::MAX,
        c.stride <= start_g.len(),
        c.stride <= start_h.len(),
        old(hist_g)@.len() == start_g.len(),
        old(hist_h)@.len() == start_h.len(),
        deterministic::<A>() ==> forall|at: int|
            0 <= at < start_g.len() ==> #[trigger] old(hist_g)@[at] == (if at < c.stride {
                flushed::<A>(
                    c,
                    start_g[at],
                    g@,
                    g@,
                    h@,
                    nn as int,
                    tiles as int,
                    tiles_done(c, tiles as nat, f as int, t as nat, 0, at),
                    at,
                )
            } else {
                start_g[at]
            }),
        deterministic::<A>() ==> forall|at: int|
            0 <= at < start_h.len() ==> #[trigger] old(hist_h)@[at] == (if at < c.stride {
                flushed::<A>(
                    c,
                    start_h[at],
                    h@,
                    g@,
                    h@,
                    nn as int,
                    tiles as int,
                    tiles_done(c, tiles as nat, f as int, t as nat, 0, at),
                    at,
                )
            } else {
                start_h[at]
            }),
    ensures
        final(hist_g)@.len() == start_g.len(),
        final(hist_h)@.len() == start_h.len(),
        deterministic::<A>() ==> forall|at: int|
            0 <= at < start_g.len() ==> #[trigger] final(hist_g)@[at] == (if at < c.stride {
                flushed::<A>(
                    c,
                    start_g[at],
                    g@,
                    g@,
                    h@,
                    nn as int,
                    tiles as int,
                    tiles_done(c, tiles as nat, f as int, (t + 1) as nat, 0, at),
                    at,
                )
            } else {
                start_g[at]
            }),
        deterministic::<A>() ==> forall|at: int|
            0 <= at < start_h.len() ==> #[trigger] final(hist_h)@[at] == (if at < c.stride {
                flushed::<A>(
                    c,
                    start_h[at],
                    h@,
                    g@,
                    h@,
                    nn as int,
                    tiles as int,
                    tiles_done(c, tiles as nat, f as int, (t + 1) as nat, 0, at),
                    at,
                )
            } else {
                start_h[at]
            }),
{
    proof {
        let ti = tiles as int;
        assert(chunk <= nn) by (nonlinear_arith)
            requires
                chunk == (nn + ti - 1) / ti,
                ti >= 1,
                nn >= 0,
        ;
        assert(0 <= t * chunk <= u32::MAX * u32::MAX) by (nonlinear_arith)
            requires
                0 <= t <= u32::MAX,
                0 <= chunk <= u32::MAX,
        ;
    }
    let first: u128 = t as u128 * chunk as u128;
    let low: usize = if first < nn as u128 {
        first as usize
    } else {
        nn
    };
    let high: usize = if nn - low < chunk {
        nn
    } else {
        low + chunk
    };
    let ghost lo = tile_start(nn as int, tiles as int, t as int);
    let ghost hi = tile_end(nn as int, tiles as int, t as int);
    let (sg, sh) = block_hist::<A>(
        bins,
        packed,
        rs,
        leaf,
        g,
        h,
        f,
        low,
        high,
        nb,
        size,
        subsample,
        seed,
        odd_only,
        Ghost(c),
        Ghost(nn as int),
    );
    proof {
        assert forall|vals: Seq<F32>, off: int| #[trigger] block_sum::<A>(
            c,
            vals,
            f as int,
            low as int,
            high as int,
            off,
        ) == block_sum::<A>(c, vals, f as int, lo, hi, off) by {}
    }
    let mut s: usize = 0;
    while s < size
        invariant
            c.fits(nn as int),
            c.nf == nf,
            c.nb == nb,
            c.stride <= u32::MAX,
            size == c.groups() * nb,
            f < nf,
            t < tiles,
            c.stride <= start_g.len(),
            c.stride <= start_h.len(),
            hist_g@.len() == start_g.len(),
            hist_h@.len() == start_h.len(),
            sg@.len() == size,
            sh@.len() == size,
            s <= size,
            lo == tile_start(nn as int, tiles as int, t as int),
            hi == tile_end(nn as int, tiles as int, t as int),
            deterministic::<A>() ==> forall|off: int|
                0 <= off < size ==> #[trigger] sg@[off] == block_sum::<A>(
                    c,
                    g@,
                    f as int,
                    lo,
                    hi,
                    off,
                ),
            deterministic::<A>() ==> forall|off: int|
                0 <= off < size ==> #[trigger] sh@[off] == block_sum::<A>(
                    c,
                    h@,
                    f as int,
                    lo,
                    hi,
                    off,
                ),
            deterministic::<A>() ==> forall|at: int|
                0 <= at < start_g.len() ==> #[trigger] hist_g@[at] == (if at < c.stride {
                    flushed::<A>(
                        c,
                        start_g[at],
                        g@,
                        g@,
                        h@,
                        nn as int,
                        tiles as int,
                        tiles_done(c, tiles as nat, f as int, t as nat, s as int, at),
                        at,
                    )
                } else {
                    start_g[at]
                }),
            deterministic::<A>() ==> forall|at: int|
                0 <= at < start_h.len() ==> #[trigger] hist_h@[at] == (if at < c.stride {
                    flushed::<A>(
                        c,
                        start_h[at],
                        h@,
                        g@,
                        h@,
                        nn as int,
                        tiles as int,
                        tiles_done(c, tiles as nat, f as int, t as nat, s as int, at),
                        at,
                    )
                } else {
                    start_h[at]
                }),
        decreases size - s,
    {
        let vg = sg[s];
        let vh = sh[s];
        let zero = F32 { bits: 0 };
        let ghost before_g = hist_g@;
        let ghost before_h = hist_h@;
        let ghost at0 = cell(
            s as int / nb as int,
            f as int,
            s as int % nb as int,
            nf as int,
            nb as int,
        );
        proof {
            lemma_flush_place(c, f as int, s as int);
        }
        if !vg.same(zero) || !vh.same(zero) {
            let grp: usize = s / nb;
            let bin: usize = s % nb;
            proof {
                let u = grp * nf + f;
                assert(0 <= grp * nf && 0 <= u && u <= u * nb) by (nonlinear_arith)
                    requires
                        grp >= 0,
                        nf >= 0,
                        f >= 0,
                        nb >= 1,
                        u == grp * nf + f,
                ;
            }
            let at: usize = (grp * nf + f) * nb + bin;
            let a = add32::<A>(hist_g[at], vg);
            hist_g[at] = a;
            let b = add32::<A>(hist_h[at], vh);
            hist_h[at] = b;
        }
        proof {
            if deterministic::<A>() {
                assert forall|at: int| 0 <= at < start_g.len() implies #[trigger] hist_g@[at] == (
                if at < c.stride {
                    flushed::<A>(
                        c,
                        start_g[at],
                        g@,
                        g@,
                        h@,
                        nn as int,
                        tiles as int,
                        tiles_done(c, tiles as nat, f as int, t as nat, s + 1, at),
                        at,
                    )
                } else {
                    start_g[at]
                }) by {
                    let _ = before_g[at];
                    if at < c.stride {
                        let _ = feature_of(at, c.nf, c.nb);
                    }
                }
                assert forall|at: int| 0 <= at < start_h.len() implies #[trigger] hist_h@[at] == (
                if at < c.stride {
                    flushed::<A>(
                        c,
                        start_h[at],
                        h@,
                        g@,
                        h@,
                        nn as int,
                        tiles as int,
                        tiles_done(c, tiles as nat, f as int, t as nat, s + 1, at),
                        at,
                    )
                } else {
                    start_h[at]
                }) by {
                    let _ = before_h[at];
                    if at < c.stride {
                        let _ = feature_of(at, c.nf, c.nb);
                    }
                }
            }
        }
        s = s + 1;
    }
    proof {
        if deterministic::<A>() {
            assert forall|at: int| 0 <= at < c.stride implies #[trigger] tiles_done(
                c,
                tiles as nat,
                f as int,
                t as nat,
                size as int,
                at,
            ) == tiles_done(c, tiles as nat, f as int, (t + 1) as nat, 0, at) by {
                lemma_flush_range(c, at);
            }
        }
    }
}

/// The number of rows among the first `k` that are in bin `b`, counted up.
pub open spec fn bin_tally<A: Arith>(bins: Seq<u32>, b: int, k: nat) -> F32
    decreases k,
{
    if k == 0 {
        F32 { bits: 0 }
    } else {
        let before = bin_tally::<A>(bins, b, (k - 1) as nat);
        if bins[k - 1] == b {
            sum32::<A>(before, F32 { bits: ONE32 })
        } else {
            before
        }
    }
}

/// Counts the rows of one block by bin, each thread adding one.
pub fn smem_spike<A: Arith>(bins: &[u32], out: &mut Vec<F32>, n: u32, nbins: u32)
    requires
        nbins <= 256,
        n <= bins@.len() || 256 <= bins@.len(),
        nbins <= old(out)@.len(),
    ensures
        final(out)@.len() == old(out)@.len(),
        deterministic::<A>() ==> final(out)@ == overwritten(
            old(out)@,
            Seq::new(
                nbins as nat,
                |b: int|
                    bin_tally::<A>(
                        bins@,
                        b,
                        if n < 256 {
                            n as nat
                        } else {
                            256
                        },
                    ),
            ),
        ),
{
    let rows: usize = if n < 256 {
        n as usize
    } else {
        BLOCK
    };
    let size: usize = nbins as usize;
    let mut counts: Vec<F32> = vec![F32 { bits: 0 };size];
    let mut i: usize = 0;
    while i < rows
        invariant
            i <= rows <= bins@.len(),
            counts@.len() == nbins,
            deterministic::<A>() ==> forall|b: int|
                0 <= b < nbins ==> #[trigger] counts@[b] == bin_tally::<A>(bins@, b, i as nat),
        decreases rows - i,
    {
        let ghost before = counts@;
        if bins[i] < nbins {
            let b: usize = bins[i] as usize;
            counts[b] = add32::<A>(counts[b], F32 { bits: ONE32 });
        }
        proof {
            if deterministic::<A>() {
                assert forall|b: int| 0 <= b < nbins implies #[trigger] counts@[b] == bin_tally::<
                    A,
                >(bins@, b, (i + 1) as nat) by {
                    let _ = before[b];
                }
            }
        }
        i = i + 1;
    }
    assert(deterministic::<A>() ==> counts@ =~= Seq::new(
        nbins as nat,
        |b: int| bin_tally::<A>(bins@, b, rows as nat),
    ));
    store(out, counts.as_slice());
}

} // verus!
