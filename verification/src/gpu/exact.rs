//! What the histograms of a device hold where no sum is rounded.
//!
//! Copies of a histogram, blocks with histograms of their own, and nodes derived from the level
//! above all change the order in which numbers are added. As long as sums are exact, every cell
//! holds the sum over the rows that belong to it.

use vstd::arithmetic::div_mod::lemma_fundamental_div_mod_converse;
use vstd::prelude::*;

use crate::arith::Arith;
use crate::cells::bin_of;
use crate::cells::cell;
use crate::cells::feature_of;
use crate::cells::lemma_cell;
use crate::cells::lemma_cell_parts;
use crate::cells::node_of;
use crate::exact::Scale;
use crate::float::F32;
use crate::gpu::hist::block_sum;
use crate::gpu::hist::evened;
use crate::gpu::hist::filled;
use crate::gpu::hist::flushed;
use crate::gpu::hist::folded;
use crate::gpu::hist::replica_sum;
use crate::gpu::hist::scattered;
use crate::gpu::hist::tile_end;
use crate::gpu::hist::tile_start;
use crate::gpu::hist::tiled;
use crate::gpu::hist::Counting;
use crate::gpu::hist::BLOCK;
use crate::gpu::rows::draw_of;
use crate::gpu::rows::lemma_share_range;
use crate::gpu::rows::SAMPLE_SALT;

verus! {

impl Counting {
    /// Row `i` counts, and is at the node and in the bin of cell `at`.
    pub open spec fn belongs<A: Arith>(self, i: int, at: int) -> bool {
        &&& self.counts::<A>(i)
        &&& node_of(at, self.nf, self.nb) == self.leaf[i]
        &&& self.view.bin(i, feature_of(at, self.nf, self.nb)) == bin_of(at, self.nb)
    }

    /// The copy of the histogram that row `i` is counted in.
    pub open spec fn copy(self, i: int) -> int {
        i / BLOCK as int % self.replicas
    }
}

impl Scale {
    /// The sum of the first `k` values for which `pick` holds.
    pub open spec fn tally(self, vals: Seq<F32>, k: nat, pick: spec_fn(int) -> bool) -> int
        decreases k,
    {
        if k == 0 {
            0
        } else {
            self.tally(vals, (k - 1) as nat, pick) + if pick(k - 1) {
                (self.units)(vals[k - 1])
            } else {
                0
            }
        }
    }

    /// The sizes of the first `k` values, added up.
    pub open spec fn size(self, vals: Seq<F32>, k: nat) -> int
        decreases k,
    {
        if k == 0 {
            0
        } else {
            let v = (self.units)(vals[k - 1]);
            self.size(vals, (k - 1) as nat) + if v < 0 {
                -v
            } else {
                v
            }
        }
    }

    /// The first `n` values are whole, and no sum of some of them is out of reach.
    pub open spec fn bears(self, vals: Seq<F32>, n: nat) -> bool {
        &&& forall|i: int| 0 <= i < n ==> (self.whole)(#[trigger] vals[i])
        &&& self.size(vals, n) <= self.reach
    }

    /// A number holds the sum of those of the first `n` values for which `pick` holds.
    pub open spec fn sums(
        self,
        v: F32,
        vals: Seq<F32>,
        n: nat,
        pick: spec_fn(int) -> bool,
    ) -> bool {
        (self.whole)(v) && (self.units)(v) == self.tally(vals, n, pick)
    }
}

proof fn lemma_tally_bound(s: Scale, vals: Seq<F32>, k: nat, pick: spec_fn(int) -> bool)
    ensures
        -s.size(vals, k) <= s.tally(vals, k, pick) <= s.size(vals, k),
    decreases k,
{
    if k > 0 {
        lemma_tally_bound(s, vals, (k - 1) as nat, pick);
    }
}

proof fn lemma_size_grows(s: Scale, vals: Seq<F32>, j: nat, k: nat)
    requires
        j <= k,
    ensures
        s.size(vals, j) <= s.size(vals, k),
    decreases k,
{
    if j < k {
        lemma_size_grows(s, vals, j, (k - 1) as nat);
    }
}

pub(crate) proof fn lemma_tally_same(
    s: Scale,
    vals: Seq<F32>,
    k: nat,
    p: spec_fn(int) -> bool,
    q: spec_fn(int) -> bool,
)
    requires
        forall|i: int| 0 <= i < k ==> #[trigger] p(i) == q(i),
    ensures
        s.tally(vals, k, p) == s.tally(vals, k, q),
    decreases k,
{
    if k > 0 {
        lemma_tally_same(s, vals, (k - 1) as nat, p, q);
        assert(p(k - 1) == q(k - 1));
    }
}

proof fn lemma_tally_none(s: Scale, vals: Seq<F32>, k: nat, p: spec_fn(int) -> bool)
    requires
        forall|i: int| 0 <= i < k ==> !#[trigger] p(i),
    ensures
        s.tally(vals, k, p) == 0,
    decreases k,
{
    if k > 0 {
        lemma_tally_none(s, vals, (k - 1) as nat, p);
        assert(!p(k - 1));
    }
}

/// What falls into two parts adds up.
proof fn lemma_tally_parts(
    s: Scale,
    vals: Seq<F32>,
    k: nat,
    p: spec_fn(int) -> bool,
    q: spec_fn(int) -> bool,
    r: spec_fn(int) -> bool,
)
    requires
        forall|i: int|
            0 <= i < k ==> #[trigger] p(i) == (q(i) || r(i)) && !(q(i) && r(i)),
    ensures
        s.tally(vals, k, p) == s.tally(vals, k, q) + s.tally(vals, k, r),
    decreases k,
{
    if k > 0 {
        lemma_tally_parts(s, vals, (k - 1) as nat, p, q, r);
        assert(p(k - 1) == (q(k - 1) || r(k - 1)));
    }
}

proof fn lemma_scattered<A: Arith>(
    s: Scale,
    c: Counting,
    vals: Seq<F32>,
    n: nat,
    k: nat,
    at: int,
)
    requires
        s.exact::<A>(),
        s.bears(vals, n),
        k <= n,
    ensures
        s.sums(
            scattered::<A, F32>(c, F32 { bits: 0 }, vals, k, at),
            vals,
            k,
            |i: int| c.hits::<A>(i, at),
        ),
    decreases k,
{
    let pick = |i: int| c.hits::<A>(i, at);
    if k > 0 {
        lemma_scattered::<A>(s, c, vals, n, (k - 1) as nat, at);
        lemma_tally_bound(s, vals, k, pick);
        lemma_size_grows(s, vals, k, n);
        let before = scattered::<A, F32>(c, F32 { bits: 0 }, vals, (k - 1) as nat, at);
        assert(s.meets(before, vals[k - 1]));
        assert(pick(k - 1) == c.hits::<A>(k - 1, at));
    }
}

/// A row is counted in its own copy alone.
proof fn lemma_copy<A: Arith>(c: Counting, i: int, r: int, at: int)
    requires
        0 <= i,
        0 < c.replicas,
        0 <= r,
        0 <= at < c.stride,
    ensures
        0 <= c.copy(i) < c.replicas,
        c.hits::<A>(i, r * c.stride + at) == (c.copy(i) == r && c.belongs::<A>(i, at)),
{
    let own = c.copy(i);
    let st = c.stride;
    vstd::arithmetic::div_mod::lemma_mod_bound(i / BLOCK as int, c.replicas);
    let off = r * st + at - own * st;
    if own == r {
        assert(off == at) by (nonlinear_arith)
            requires
                off == r * st + at - own * st,
                own == r,
        ;
    } else if own < r {
        assert(off >= st) by (nonlinear_arith)
            requires
                off == r * st + at - own * st,
                own + 1 <= r,
                0 <= at,
                0 <= st,
        ;
    } else {
        assert(off < 0) by (nonlinear_arith)
            requires
                off == r * st + at - own * st,
                r + 1 <= own,
                0 <= at < st,
        ;
    }
}

proof fn lemma_copies<A: Arith>(
    s: Scale,
    c: Counting,
    a: Seq<F32>,
    vals: Seq<F32>,
    n: nat,
    r: nat,
    at: int,
)
    requires
        s.exact::<A>(),
        s.bears(vals, n),
        0 < c.replicas,
        1 <= r <= c.replicas,
        0 <= at < c.stride,
        c.replicas * c.stride <= a.len(),
        forall|p: int|
            0 <= p < c.replicas * c.stride ==> #[trigger] a[p] == scattered::<A, F32>(
                c,
                F32 { bits: 0 },
                vals,
                n,
                p,
            ),
    ensures
        s.sums(
            replica_sum::<A, F32>(a, c.stride, at, r),
            vals,
            n,
            |i: int| c.copy(i) < r && c.belongs::<A>(i, at),
        ),
    decreases r,
{
    let st = c.stride;
    let last = r - 1;
    let p = last * st + at;
    assert(0 <= p < c.replicas * st) by (nonlinear_arith)
        requires
            p == last * st + at,
            0 <= last < c.replicas,
            0 <= at < st,
    ;
    lemma_scattered::<A>(s, c, vals, n, n, p);
    let own = |i: int| c.hits::<A>(i, p);
    let upto = |i: int| c.copy(i) < r && c.belongs::<A>(i, at);
    lemma_tally_bound(s, vals, n, upto);
    if r <= 1 {
        assert(p == at) by (nonlinear_arith)
            requires
                p == last * st + at,
                last == 0,
        ;
        assert forall|i: int| 0 <= i < n implies #[trigger] own(i) == upto(i) by {
            lemma_copy::<A>(c, i, last, at);
        }
        lemma_tally_same(s, vals, n, own, upto);
    } else {
        lemma_copies::<A>(s, c, a, vals, n, (r - 1) as nat, at);
        let before = |i: int| c.copy(i) < (r - 1) as nat && c.belongs::<A>(i, at);
        assert forall|i: int| 0 <= i < n implies #[trigger] upto(i) == (before(i) || own(i)) && !(
        before(i) && own(i)) by {
            lemma_copy::<A>(c, i, last, at);
        }
        lemma_tally_parts(s, vals, n, upto, before, own);
        let sum = replica_sum::<A, F32>(a, st, at, (r - 1) as nat);
        assert(s.meets(sum, a[p]));
    }
}

/// Where no sum is rounded, a histogram that is built in copies and folded holds the sums over
/// the rows of its cells, however many copies there are.
pub proof fn lemma_folded_exact<A: Arith>(
    s: Scale,
    c: Counting,
    zeros: Seq<F32>,
    vals: Seq<F32>,
    n: nat,
    at: int,
)
    requires
        s.exact::<A>(),
        s.bears(vals, n),
        0 < c.replicas,
        0 <= at < c.stride,
        c.replicas * c.stride <= zeros.len(),
        forall|p: int| 0 <= p < c.replicas * c.stride ==> #[trigger] zeros[p] == (F32 { bits: 0 }),
    ensures
        s.sums(
            folded::<A, F32>(
                filled::<A, F32>(c, zeros, vals, n),
                c.replicas as nat,
                c.stride as nat,
            )[at],
            vals,
            n,
            |i: int| c.belongs::<A>(i, at),
        ),
{
    let a = filled::<A, F32>(c, zeros, vals, n);
    lemma_copies::<A>(s, c, a, vals, n, c.replicas as nat, at);
    let upto = |i: int| c.copy(i) < c.replicas as nat && c.belongs::<A>(i, at);
    let all = |i: int| c.belongs::<A>(i, at);
    assert forall|i: int| 0 <= i < n implies #[trigger] upto(i) == all(i) by {
        lemma_copy::<A>(c, i, 0, at);
    }
    lemma_tally_same(s, vals, n, upto, all);
    assert(at < a.len()) by (nonlinear_arith)
        requires
            at < c.stride,
            c.replicas >= 1,
            c.replicas * c.stride <= a.len(),
            0 <= c.stride,
    ;
}

/// A row is drawn for a block just where it is drawn for a histogram in copies.
proof fn lemma_drawn<A: Arith>(c: Counting, i: int)
    requires
        !c.subsample.nan(),
    ensures
        c.drawn_in::<A>(i) == c.drawn::<A>(i),
{
    lemma_share_range::<A>(draw_of(i as u32, c.seed ^ SAMPLE_SALT));
}

/// A row is at a place of a block just where it belongs to the cell.
proof fn lemma_block_place<A: Arith>(c: Counting, n: int, i: int, at: int)
    requires
        c.fits(n),
        !c.subsample.nan(),
        0 <= i < n,
        0 <= at < c.stride,
    ensures
        c.hits_block::<A>(
            i,
            feature_of(at, c.nf, c.nb),
            node_of(at, c.nf, c.nb) * c.nb + bin_of(at, c.nb),
        ) == c.belongs::<A>(i, at),
{
    lemma_drawn::<A>(c, i);
    lemma_cell_parts(at, c.groups(), c.nf, c.nb);
    let f = feature_of(at, c.nf, c.nb);
    let nd = node_of(at, c.nf, c.nb);
    let b = bin_of(at, c.nb);
    let bin = c.view.bin(i, f);
    let leaf = c.leaf[i] as int;
    assert(0 <= bin < c.nb);
    if leaf * c.nb + bin == nd * c.nb + b {
        let x = leaf * c.nb + bin;
        assert(x == c.nb * leaf + bin && x == c.nb * nd + b) by (nonlinear_arith)
            requires
                x == leaf * c.nb + bin,
                x == nd * c.nb + b,
        ;
        lemma_fundamental_div_mod_converse(x, c.nb, leaf, bin);
        lemma_fundamental_div_mod_converse(x, c.nb, nd, b);
    }
}

proof fn lemma_block_sum<A: Arith>(
    s: Scale,
    c: Counting,
    vals: Seq<F32>,
    n: nat,
    low: int,
    k: int,
    at: int,
)
    requires
        s.exact::<A>(),
        s.bears(vals, n),
        c.fits(n as int),
        !c.subsample.nan(),
        0 <= low,
        0 <= k <= n,
        0 <= at < c.stride,
    ensures
        s.sums(
            block_sum::<A>(
                c,
                vals,
                feature_of(at, c.nf, c.nb),
                low,
                k,
                node_of(at, c.nf, c.nb) * c.nb + bin_of(at, c.nb),
            ),
            vals,
            k as nat,
            |i: int| low <= i && c.belongs::<A>(i, at),
        ),
    decreases k,
{
    let f = feature_of(at, c.nf, c.nb);
    let off = node_of(at, c.nf, c.nb) * c.nb + bin_of(at, c.nb);
    let pick = |i: int| low <= i && c.belongs::<A>(i, at);
    if k <= low {
        lemma_tally_none(s, vals, k as nat, pick);
    } else {
        lemma_block_sum::<A>(s, c, vals, n, low, k - 1, at);
        lemma_block_place::<A>(c, n as int, k - 1, at);
        lemma_tally_bound(s, vals, k as nat, pick);
        lemma_size_grows(s, vals, k as nat, n);
        let before = block_sum::<A>(c, vals, f, low, k - 1, off);
        assert(s.meets(before, vals[k - 1]));
        assert(pick(k - 1) == c.belongs::<A>(k - 1, at));
    }
}

/// How many rows the first `t` tiles have.
pub open spec fn tiles_reach(n: int, tiles: int, t: int) -> int {
    let start = tile_start(n, tiles, t);
    if start < n {
        start
    } else {
        n
    }
}

proof fn lemma_tiles(n: int, tiles: int, t: int)
    requires
        0 <= n,
        0 < tiles,
        0 <= t,
    ensures
        tiles_reach(n, tiles, 0) == 0,
        tiles_reach(n, tiles, tiles) == n,
        0 <= tile_start(n, tiles, t),
        0 <= tile_end(n, tiles, t) <= n,
        tiles_reach(n, tiles, t + 1) == tile_end(n, tiles, t),
        tile_start(n, tiles, t) <= n ==> tiles_reach(n, tiles, t) == tile_start(n, tiles, t),
        tile_start(n, tiles, t) > n ==> tiles_reach(n, tiles, t) == n && tile_end(n, tiles, t)
            == n,
{
    let run = (n + tiles - 1) / tiles;
    assert(0 <= run && tiles * run >= n) by (nonlinear_arith)
        requires
            0 <= n,
            0 < tiles,
            run == (n + tiles - 1) / tiles,
    ;
    assert(0 * run == 0 && 0 <= t * run && (t + 1) * run == t * run + run) by (nonlinear_arith)
        requires
            0 <= t,
            0 <= run,
    ;
}

proof fn lemma_tally_more(
    s: Scale,
    vals: Seq<F32>,
    low: nat,
    high: nat,
    p: spec_fn(int) -> bool,
    q: spec_fn(int) -> bool,
)
    requires
        low <= high,
        forall|i: int| 0 <= i < high ==> #[trigger] q(i) == (low <= i && p(i)),
    ensures
        s.tally(vals, high, p) == s.tally(vals, low, p) + s.tally(vals, high, q),
    decreases high,
{
    if low < high {
        lemma_tally_more(s, vals, low, (high - 1) as nat, p, q);
        assert(q(high - 1) == (low <= high - 1 && p(high - 1)));
    } else {
        lemma_tally_none(s, vals, high, q);
    }
}

proof fn lemma_flushed<A: Arith>(
    s: Scale,
    c: Counting,
    vals: Seq<F32>,
    g: Seq<F32>,
    h: Seq<F32>,
    n: nat,
    tiles: int,
    t: nat,
    at: int,
)
    requires
        s.exact::<A>(),
        s.bears(g, n),
        s.bears(h, n),
        vals == g || vals == h,
        forall|v: F32| #[trigger] (s.whole)(v) && v.equals(F32 { bits: 0 }) ==> (s.units)(v) == 0,
        c.fits(n as int),
        !c.subsample.nan(),
        0 < tiles,
        0 <= at < c.stride,
    ensures
        s.sums(
            flushed::<A>(c, F32 { bits: 0 }, vals, g, h, n as int, tiles, t, at),
            vals,
            tiles_reach(n as int, tiles, t as int) as nat,
            |i: int| c.belongs::<A>(i, at),
        ),
    decreases t,
{
    let nn = n as int;
    let all = |i: int| c.belongs::<A>(i, at);
    if t == 0 {
        lemma_tiles(nn, tiles, 0);
    } else {
        lemma_flushed::<A>(s, c, vals, g, h, n, tiles, (t - 1) as nat, at);
        lemma_tiles(nn, tiles, t - 1);
        let f = feature_of(at, c.nf, c.nb);
        let off = node_of(at, c.nf, c.nb) * c.nb + bin_of(at, c.nb);
        let low = tile_start(nn, tiles, t - 1);
        let high = tile_end(nn, tiles, t - 1);
        let from = tiles_reach(nn, tiles, t - 1);
        let own = |i: int| low <= i && c.belongs::<A>(i, at);
        lemma_block_sum::<A>(s, c, g, n, low, high, at);
        lemma_block_sum::<A>(s, c, h, n, low, high, at);
        lemma_tally_more(s, vals, from as nat, high as nat, all, own);
        lemma_tally_bound(s, vals, high as nat, all);
        lemma_size_grows(s, vals, high as nat, n);
        let before = flushed::<A>(c, F32 { bits: 0 }, vals, g, h, nn, tiles, (t - 1) as nat, at);
        let sum = block_sum::<A>(c, vals, f, low, high, off);
        assert(s.meets(before, sum));
    }
}

/// Where no sum is rounded, a histogram that is built by blocks holds the sums over the rows of
/// its cells, between however many tiles they are split. Zero is the only whole number that is
/// equal to zero, and the share of rows that are drawn may not be NaN.
pub proof fn lemma_tiled_exact<A: Arith>(
    s: Scale,
    c: Counting,
    zeros: Seq<F32>,
    vals: Seq<F32>,
    g: Seq<F32>,
    h: Seq<F32>,
    n: nat,
    tiles: nat,
    at: int,
)
    requires
        s.exact::<A>(),
        s.bears(g, n),
        s.bears(h, n),
        vals == g || vals == h,
        forall|v: F32| #[trigger] (s.whole)(v) && v.equals(F32 { bits: 0 }) ==> (s.units)(v) == 0,
        c.fits(n as int),
        !c.subsample.nan(),
        0 < tiles,
        0 <= at < c.stride <= zeros.len(),
        zeros[at] == (F32 { bits: 0 }),
    ensures
        s.sums(
            tiled::<A>(c, zeros, vals, g, h, n as int, tiles)[at],
            vals,
            n,
            |i: int| c.belongs::<A>(i, at),
        ),
{
    lemma_flushed::<A>(s, c, vals, g, h, n, tiles as int, tiles, at);
    lemma_tiles(n as int, tiles as int, 0);
}

/// Where no sum is rounded, the even nodes of a level that are derived from the level above hold
/// the sums over the rows of their cells.
pub proof fn lemma_evened_exact<A: Arith>(
    s: Scale,
    above: Counting,
    next: Counting,
    prev: Seq<F32>,
    cur: Seq<F32>,
    vals: Seq<F32>,
    n: nat,
    groups: int,
    at: int,
)
    requires
        s.exact::<A>(),
        s.bears(vals, n),
        0 < above.nf,
        0 < above.nb,
        !above.odd_only,
        !next.odd_only,
        next.view == above.view,
        next.nf == above.nf,
        next.nb == above.nb,
        next.subsample == above.subsample,
        next.seed == above.seed,
        forall|i: int| 0 <= i < n ==> #[trigger] next.leaf[i] as int / 2 == above.leaf[i],
        groups * above.nf * above.nb <= prev.len(),
        2 * groups * above.nf * above.nb <= cur.len(),
        forall|p: int|
            0 <= p < groups * above.nf * above.nb ==> s.sums(
                #[trigger] prev[p],
                vals,
                n,
                |i: int| above.belongs::<A>(i, p),
            ),
        forall|p: int|
            0 <= p < 2 * groups * above.nf * above.nb && node_of(p, next.nf, next.nb) % 2 == 1
                ==> s.sums(#[trigger] cur[p], vals, n, |i: int| next.belongs::<A>(i, p)),
        0 <= at < 2 * groups * above.nf * above.nb,
    ensures
        s.sums(
            evened::<A>(cur, prev, groups, above.nf * above.nb)[at],
            vals,
            n,
            |i: int| next.belongs::<A>(i, at),
        ),
{
    let nf = above.nf;
    let nb = above.nb;
    let size = nf * nb;
    lemma_cell_parts(at, 2 * groups, nf, nb);
    let nd = node_of(at, nf, nb);
    let f = feature_of(at, nf, nb);
    let b = bin_of(at, nb);
    let inner = f * nb + b;
    assert(at == size * nd + inner && 0 <= inner < size && 2 * groups * nf * nb == 2 * groups * size
        && size > 0) by (nonlinear_arith)
        requires
            at == (nd * nf + f) * nb + b,
            inner == f * nb + b,
            0 <= f < nf,
            0 <= b < nb,
            size == nf * nb,
    ;
    lemma_fundamental_div_mod_converse(at, size, nd, inner);
    if nd % 2 == 0 {
        let q = nd / 2;
        let up = q * size + inner;
        let odd = at + size;
        assert(up == cell(q, f, b, nf, nb) && odd == cell(nd + 1, f, b, nf, nb))
            by (nonlinear_arith)
            requires
                up == q * size + inner,
                odd == size * nd + inner + size,
                inner == f * nb + b,
                size == nf * nb,
                cell(q, f, b, nf, nb) == (q * nf + f) * nb + b,
                cell(nd + 1, f, b, nf, nb) == ((nd + 1) * nf + f) * nb + b,
        ;
        lemma_cell(q, f, b, groups, nf, nb);
        lemma_cell(nd + 1, f, b, 2 * groups, nf, nb);
        let whole = |i: int| above.belongs::<A>(i, up);
        let right = |i: int| next.belongs::<A>(i, odd);
        let left = |i: int| next.belongs::<A>(i, at);
        assert(s.sums(prev[up], vals, n, whole));
        assert(s.sums(cur[odd], vals, n, right));
        assert forall|i: int| 0 <= i < n implies #[trigger] whole(i) == (left(i) || right(i)) && !(
        left(i) && right(i)) by {
            assert(next.leaf[i] as int / 2 == above.leaf[i]);
        }
        lemma_tally_parts(s, vals, n, whole, left, right);
        lemma_tally_bound(s, vals, n, left);
        assert(s.meets(prev[up], cur[odd]));
    }
}

} // verus!
