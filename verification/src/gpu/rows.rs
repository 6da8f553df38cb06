//! Kernels with one thread per row or per value: binning, gradients and sampling.

use vstd::prelude::*;

use crate::arith::add32;
use crate::arith::count32;
use crate::arith::counted32;
use crate::arith::deterministic;
use crate::arith::difference32;
use crate::arith::div32;
use crate::arith::mul32;
use crate::arith::product32;
use crate::arith::quotient32;
use crate::arith::root32;
use crate::arith::sqrt32;
use crate::arith::sub32;
use crate::arith::sum32;
use crate::arith::Arith;
use crate::binning::bin_index;
use crate::binning::bounds_of;
use crate::binning::find_bin;
use crate::float::F16;
use crate::float::F32;
use crate::float::HALF32;
use crate::float::MILLIONTH32;
use crate::float::ONE32;
use crate::objective::gradient;
use crate::objective::gradient_at;
use crate::objective::probability;
use crate::objective::sigmoid;
use crate::par::par_map;

verus! {

/// Mixed into every sampling draw.
pub const SAMPLE_SALT: u32 = 0x455A_4B41;

/// Mixed into every generated value.
pub const GEN_SALT: u32 = 0x5052_4F50;

/// Bits of 2^24 - 1 in single precision.
pub const DRAWS32: u32 = 0x4B7F_FFFF;

/// Bits of the largest number below one in single precision.
pub const LAST_BELOW_ONE32: u32 = 0x3F7F_FFFF;

/// Bits of eight in single precision.
pub const EIGHT32: u32 = 0x4100_0000;

/// Bits of the mean absolute value of a standard normal variable in single precision.
pub const HALF_NORMAL_MEAN32: u32 = 0x3F4C_422A;

/// The 24-bit number drawn for an index under a seed that has its salt.
pub open spec fn draw_of(id: u32, salted: u32) -> u32 {
    let a = id.wrapping_mul(2654435761).wrapping_add(salted);
    let b = (a ^ (a >> 15)).wrapping_mul(2246822519);
    (b ^ (b >> 13)) & 0x00FF_FFFF
}

/// A draw has 24 bits.
pub proof fn lemma_draw_range(id: u32, salted: u32)
    ensures
        draw_of(id, salted) <= 0x00FF_FFFF,
{
    let a = id.wrapping_mul(2654435761).wrapping_add(salted);
    let b = (a ^ (a >> 15)).wrapping_mul(2246822519);
    let c = b ^ (b >> 13);
    assert(c & 0x00FF_FFFF <= 0x00FF_FFFF) by (bit_vector);
}

/// A share of one: a number from zero up to one, without one itself. What is none becomes the
/// largest number below one.
pub open spec fn below_one(q: F32) -> F32 {
    if (F32 { bits: 0 }).at_most(q) && q.below(F32 { bits: ONE32 }) {
        q
    } else {
        F32 { bits: LAST_BELOW_ONE32 }
    }
}

/// A draw as a share of the largest draw.
pub open spec fn share_of<A: Arith>(draw: u32) -> F32 {
    below_one(quotient32::<A>(counted32::<A>(draw as u64), F32 { bits: DRAWS32 }))
}

/// A share is at least zero and below one, whatever the draw.
pub proof fn lemma_share_range<A: Arith>(draw: u32)
    ensures
        (F32 { bits: 0 }).at_most(share_of::<A>(draw)),
        share_of::<A>(draw).below(F32 { bits: ONE32 }),
{
}

/// The share drawn for an index under a seed.
pub open spec fn sample_share<A: Arith>(id: u32, seed: u32) -> F32 {
    share_of::<A>(draw_of(id, seed ^ SAMPLE_SALT))
}

/// The value generated for an index: spread over the interval from minus four to four.
pub open spec fn pseudo_value<A: Arith>(id: u32, seed: u32) -> F32 {
    product32::<A>(
        difference32::<A>(
            share_of::<A>(draw_of(id, seed ^ GEN_SALT)),
            F32 { bits: HALF32 },
        ),
        F32 { bits: EIGHT32 },
    )
}

/// A buffer whose first places have been written.
pub open spec fn overwritten<T>(old: Seq<T>, vals: Seq<T>) -> Seq<T> {
    Seq::new(
        old.len(),
        |i: int|
            if i < vals.len() {
                vals[i]
            } else {
                old[i]
            },
    )
}

/// Writes the first places of a buffer; values beyond its end are dropped.
pub(crate) fn store<T: Copy>(buf: &mut Vec<T>, vals: &[T])
    ensures
        final(buf)@ == overwritten(old(buf)@, vals@),
{
    let ghost before = buf@;
    let n: usize = if vals.len() < buf.len() {
        vals.len()
    } else {
        buf.len()
    };
    let mut i: usize = 0;
    while i < n
        invariant
            i <= n,
            n <= vals@.len(),
            n <= before.len(),
            buf@.len() == before.len(),
            forall|k: int| 0 <= k < i ==> #[trigger] buf@[k] == vals@[k],
            forall|k: int| i <= k < before.len() ==> #[trigger] buf@[k] == before[k],
        decreases n - i,
    {
        buf[i] = vals[i];
        i = i + 1;
    }
    assert(buf@ =~= overwritten(before, vals@));
}

/// The 24-bit number drawn for an index.
fn draw(id: u32, salted: u32) -> (d: u32)
    ensures
        d == draw_of(id, salted),
{
    let a: u32 = id.wrapping_mul(2654435761).wrapping_add(salted);
    let b: u32 = (a ^ (a >> 15)).wrapping_mul(2246822519);
    (b ^ (b >> 13)) & 0x00FF_FFFF
}

/// The share drawn for an index under a seed. The same subset of rows or features can be drawn
/// at every level of a tree.
pub fn hash01<A: Arith>(id: u32, seed: u32) -> (u: F32)
    ensures
        (F32 { bits: 0 }).at_most(u),
        u.below(F32 { bits: ONE32 }),
        deterministic::<A>() ==> u == sample_share::<A>(id, seed),
{
    share::<A>(draw(id, seed ^ SAMPLE_SALT))
}

/// A draw as a share of the largest draw.
fn share<A: Arith>(draw: u32) -> (u: F32)
    ensures
        (F32 { bits: 0 }).at_most(u),
        u.below(F32 { bits: ONE32 }),
        deterministic::<A>() ==> u == share_of::<A>(draw),
{
    let q = div32::<A>(count32::<A>(draw as u64), F32 { bits: DRAWS32 });
    if q.not_less(F32 { bits: 0 }) && q.less(F32 { bits: ONE32 }) {
        q
    } else {
        F32 { bits: LAST_BELOW_ONE32 }
    }
}

/// The value generated for an index.
fn pseudo<A: Arith>(id: u32, seed: u32) -> (v: F32)
    ensures
        deterministic::<A>() ==> v == pseudo_value::<A>(id, seed),
{
    let u = share::<A>(draw(id, seed ^ GEN_SALT));
    mul32::<A>(sub32::<A>(u, F32 { bits: HALF32 }), F32 { bits: EIGHT32 })
}

/// Fills the first `n` places of a buffer with generated values.
pub fn fill_pseudo<A: Arith>(buf: &mut Vec<F32>, n: u32, seed: u32)
    ensures
        final(buf)@.len() == old(buf)@.len(),
        forall|i: int| n <= i < old(buf)@.len() ==> #[trigger] final(buf)@[i] == old(buf)@[i],
        deterministic::<A>() ==> final(buf)@ == overwritten(
            old(buf)@,
            Seq::new(n as nat, |i: int| pseudo_value::<A>(i as u32, seed)),
        ),
{
    let vals: Vec<F32> = par_map(
        n as usize,
        |i: usize| -> (v: F32)
            requires
                i < n,
            ensures
                deterministic::<A>() ==> v == pseudo_value::<A>(i as u32, seed)
            { pseudo::<A>(i as u32, seed) },
    );
    assert(deterministic::<A>() ==> vals@ =~= Seq::new(
        n as nat,
        |i: int| pseudo_value::<A>(i as u32, seed),
    ));
    store(buf, vals.as_slice());
}

/// Zeroes the first `n` places of a buffer.
pub fn zero_f32(buf: &mut Vec<F32>, n: u32)
    ensures
        final(buf)@ == overwritten(old(buf)@, Seq::new(n as nat, |i: int| F32 { bits: 0 })),
{
    let count: usize = n as usize;
    let vals: Vec<F32> = vec![F32 { bits: 0 };count];
    assert(vals@ =~= Seq::new(n as nat, |i: int| F32 { bits: 0 }));
    store(buf, vals.as_slice());
}

/// Zeroes the first `n` places of two buffers.
pub fn zero2_f32(a: &mut Vec<F32>, b: &mut Vec<F32>, n: u32)
    ensures
        final(a)@ == overwritten(old(a)@, Seq::new(n as nat, |i: int| F32 { bits: 0 })),
        final(b)@ == overwritten(old(b)@, Seq::new(n as nat, |i: int| F32 { bits: 0 })),
{
    zero_f32(a, n);
    zero_f32(b, n);
}

/// Zeroes the first `n` places of two buffers.
pub fn zero2_i32(a: &mut Vec<i32>, b: &mut Vec<i32>, n: u32)
    ensures
        final(a)@ == overwritten(old(a)@, Seq::new(n as nat, |i: int| 0i32)),
        final(b)@ == overwritten(old(b)@, Seq::new(n as nat, |i: int| 0i32)),
{
    let count: usize = n as usize;
    let vals: Vec<i32> = vec![0i32;count];
    assert(vals@ =~= Seq::new(n as nat, |i: int| 0i32));
    store(a, vals.as_slice());
    store(b, vals.as_slice());
}

/// Zeroes the first `n` places of two buffers.
pub fn zero2_f16(a: &mut Vec<F16>, b: &mut Vec<F16>, n: u32)
    ensures
        final(a)@ == overwritten(old(a)@, Seq::new(n as nat, |i: int| F16 { bits: 0 })),
        final(b)@ == overwritten(old(b)@, Seq::new(n as nat, |i: int| F16 { bits: 0 })),
{
    let count: usize = n as usize;
    let vals: Vec<F16> = vec![F16 { bits: 0 };count];
    assert(vals@ =~= Seq::new(n as nat, |i: int| F16 { bits: 0 }));
    store(a, vals.as_slice());
    store(b, vals.as_slice());
}

/// Zeroes the first `n` places of a buffer.
pub fn zero_u32(buf: &mut Vec<u32>, n: u32)
    ensures
        final(buf)@ == overwritten(old(buf)@, Seq::new(n as nat, |i: int| 0u32)),
{
    let count: usize = n as usize;
    let vals: Vec<u32> = vec![0u32;count];
    assert(vals@ =~= Seq::new(n as nat, |i: int| 0u32));
    store(buf, vals.as_slice());
}

/// The bins of a column-major matrix: those of feature `id / n` at place `id`.
pub open spec fn column_bins(xcol: Seq<F32>, bounds: Seq<F32>, n: int, nf: int, nb1: int) -> Seq<
    u8,
> {
    Seq::new(
        (n * nf) as nat,
        |id: int| bin_index(bounds_of(bounds, id / n, nb1), xcol[id]) as u8,
    )
}

/// The bin of the value at place `id` of a column-major matrix.
fn bin_value(xcol: &[F32], bounds: &[F32], id: usize, n: usize, nf: usize, nb1: usize) -> (b: u8)
    requires
        id < n * nf <= xcol@.len(),
        nb1 <= 255,
        nf * nb1 <= bounds@.len(),
    ensures
        b == bin_index(bounds_of(bounds@, id as int / n as int, nb1 as int), xcol@[id as int]) as u8,
        b <= nb1,
{
    let f: usize = id / n;
    assert(0 <= f < nf) by (nonlinear_arith)
        requires
            0 <= id < n * nf,
            f == id / n,
            n > 0,
    ;
    assert(bounds.len() >= nf * nb1);
    assert(0 <= f * nb1 && f * nb1 + nb1 <= nf * nb1) by (nonlinear_arith)
        requires
            0 <= f < nf,
            nb1 >= 0,
    ;
    find_bin(vstd::slice::slice_subrange(bounds, f * nb1, f * nb1 + nb1), xcol[id]) as u8
}

/// Quantises a column-major matrix: the bin of a value is the number of boundaries of its
/// feature that are below it.
pub fn bin_features(
    xcol: &[F32],
    boundaries: &[F32],
    bins: &mut Vec<u8>,
    n: u32,
    n_features: u32,
    n_bins: u32,
)
    requires
        1 <= n_bins <= 256,
        n * n_features <= u32::MAX,
        n * n_features <= xcol@.len(),
        n_features * (n_bins - 1) <= boundaries@.len(),
    ensures
        final(bins)@ == overwritten(
            old(bins)@,
            column_bins(xcol@, boundaries@, n as int, n_features as int, n_bins - 1),
        ),
{
    let nn: usize = n as usize;
    let nf: usize = n_features as usize;
    let nb1: usize = n_bins as usize - 1;
    assert(xcol.len() >= nn * nf);
    assert(nn * nf >= 0) by (nonlinear_arith);
    let total: usize = nn * nf;
    let vals: Vec<u8> = par_map(
        total,
        |id: usize| -> (b: u8)
            requires
                id < nn * nf <= xcol@.len(),
                nb1 <= 255,
                nf * nb1 <= boundaries@.len(),
            ensures
                b == bin_index(bounds_of(boundaries@, id as int / nn as int, nb1 as int), xcol@[id as int]) as u8
            { bin_value(xcol, boundaries, id, nn, nf, nb1) },
    );
    assert(vals@ =~= column_bins(xcol@, boundaries@, nn as int, nf as int, nb1 as int));
    store(bins, vals.as_slice());
}

/// The bins of rows as the device holds them: feature by feature, with a byte for each row,
/// or packed, with a byte for each two rows. The bytes of a feature begin `stride` bytes after
/// those of the feature before.
pub struct BinView {
    pub bytes: Seq<u8>,
    pub packed: bool,
    pub stride: int,
}

impl BinView {
    /// The bin of row `i` for feature `f`.
    pub open spec fn bin(self, i: int, f: int) -> int {
        if self.packed {
            let byte = self.bytes[f * self.stride + i / 2];
            if i % 2 == 0 {
                byte as int % 16
            } else {
                byte as int / 16
            }
        } else {
            self.bytes[f * self.stride + i] as int
        }
    }

    /// There is a bin for each of the first `n` rows and `nf` features.
    pub open spec fn covers(self, n: int, nf: int) -> bool {
        &&& 0 <= self.stride
        &&& nf * self.stride <= self.bytes.len()
        &&& if self.packed {
            n <= 2 * self.stride
        } else {
            n <= self.stride
        }
    }
}

/// The bin of row `i` for feature `f`.
pub(crate) fn read_bin(
    bytes: &[u8],
    packed: bool,
    stride: usize,
    i: usize,
    f: usize,
    Ghost(n): Ghost<int>,
    Ghost(nf): Ghost<int>,
) -> (b: usize)
    requires
        (BinView { bytes: bytes@, packed, stride: stride as int }).covers(n, nf),
        i < n,
        f < nf,
    ensures
        b == (BinView { bytes: bytes@, packed, stride: stride as int }).bin(i as int, f as int),
        b < 256,
{
    assert(0 <= f * stride && f * stride + stride <= nf * stride) by (nonlinear_arith)
        requires
            0 <= f < nf,
            stride >= 0,
    ;
    assert(bytes.len() >= nf * stride);
    if packed {
        let byte: u8 = bytes[f * stride + i / 2];
        if i % 2 == 0 {
            (byte % 16) as usize
        } else {
            (byte / 16) as usize
        }
    } else {
        bytes[f * stride + i] as usize
    }
}

/// Two rows to a byte: the first in the low half, the second in the high half.
pub open spec fn packed_byte(bins: Seq<u8>, n: int, f: int, k: int) -> u8 {
    let low = bins[f * n + 2 * k] % 16;
    let high: u8 = if 2 * k + 1 < n {
        bins[f * n + 2 * k + 1] % 16
    } else {
        0
    };
    (low + high * 16) as u8
}

/// The packed bins of all features, `half` bytes for each.
pub open spec fn packed_bins(bins: Seq<u8>, n: int, nf: int, half: int) -> Seq<u8> {
    Seq::new((nf * half) as nat, |id: int| packed_byte(bins, n, id / half, id % half))
}

/// Two rows to a byte.
fn pack_byte(bins: &[u8], n: usize, nf: usize, half: usize, id: usize) -> (b: u8)
    requires
        0 < half,
        id < nf * half,
        2 * half <= n + 1,
        nf * n <= bins@.len(),
    ensures
        b == packed_byte(bins@, n as int, id as int / half as int, id as int % half as int),
{
    let f: usize = id / half;
    let k: usize = id % half;
    assert(0 <= f < nf) by (nonlinear_arith)
        requires
            0 <= id < nf * half,
            half > 0,
            f == id / half,
    ;
    assert(0 <= f * n && f * n + n <= nf * n) by (nonlinear_arith)
        requires
            0 <= f < nf,
            n >= 0,
    ;
    assert(bins.len() >= nf * n);
    let low: u8 = bins[f * n + 2 * k] % 16;
    let high: u8 = if 2 * k + 1 < n {
        bins[f * n + 2 * k + 1] % 16
    } else {
        0
    };
    low + high * 16
}

/// Packs column-major bins below sixteen, two rows to a byte.
pub fn pack_bins4(bins: &[u8], packed: &mut Vec<u8>, n: u32, n_features: u32, half: u32)
    requires
        2 * half <= n + 1,
        n_features * half <= u32::MAX,
        n_features * n <= bins@.len(),
    ensures
        final(packed)@ == overwritten(
            old(packed)@,
            packed_bins(bins@, n as int, n_features as int, half as int),
        ),
{
    let nn: usize = n as usize;
    let nf: usize = n_features as usize;
    let hh: usize = half as usize;
    assert(nf * hh >= 0) by (nonlinear_arith);
    let total: usize = nf * hh;
    assert(total > 0 ==> hh > 0) by (nonlinear_arith)
        requires
            total == nf * hh,
            hh >= 0,
    ;
    let vals: Vec<u8> = par_map(
        total,
        |id: usize| -> (b: u8)
            requires
                0 < hh,
                id < nf * hh,
                2 * hh <= nn + 1,
                nf * nn <= bins@.len(),
            ensures
                b == packed_byte(bins@, nn as int, id as int / hh as int, id as int % hh as int)
            { pack_byte(bins, nn, nf, hh, id) },
    );
    assert(vals@ =~= packed_bins(bins@, nn as int, nf as int, hh as int));
    store(packed, vals.as_slice());
}

/// Packed bins read as the bins that were packed.
pub proof fn lemma_packed_bin(bins: Seq<u8>, n: int, nf: int, i: int, f: int)
    requires
        0 <= i < n,
        0 <= f < nf,
        bins.len() == nf * n,
        forall|k: int| 0 <= k < bins.len() ==> #[trigger] bins[k] < 16,
    ensures
        (BinView {
            bytes: packed_bins(bins, n, nf, (n + 1) / 2),
            packed: true,
            stride: (n + 1) / 2,
        }).bin(i, f) == (BinView { bytes: bins, packed: false, stride: n }).bin(i, f),
{
    let half = (n + 1) / 2;
    let k = i / 2;
    let id = f * half + k;
    assert(0 <= k < half);
    assert(0 <= id < nf * half) by (nonlinear_arith)
        requires
            0 <= f < nf,
            0 <= k < half,
            id == f * half + k,
    ;
    assert(id / half == f && id % half == k) by {
        assert(id == half * f + k) by (nonlinear_arith)
            requires
                id == f * half + k,
        ;
        vstd::arithmetic::div_mod::lemma_fundamental_div_mod_converse(id, half, f, k);
    }
    assert(0 <= f * n && f * n + n <= nf * n) by (nonlinear_arith)
        requires
            0 <= f < nf,
            n >= 0,
    ;
    let low = bins[f * n + 2 * k];
    assert(low < 16);
    if 2 * k + 1 < n {
        let high = bins[f * n + 2 * k + 1];
        assert(high < 16);
    }
}

/// The squared-error gradients and hessians of the first `n` rows.
pub fn grad_l2<A: Arith>(pred: &[F32], y: &[F32], g: &mut Vec<F32>, h: &mut Vec<F32>, n: u32)
    requires
        n <= pred@.len(),
        n <= y@.len(),
    ensures
        final(g)@.len() == old(g)@.len(),
        forall|i: int| n <= i < old(g)@.len() ==> #[trigger] final(g)@[i] == old(g)@[i],
        final(h)@ == overwritten(old(h)@, Seq::new(n as nat, |i: int| F32 { bits: ONE32 })),
        deterministic::<A>() ==> final(g)@ == overwritten(
            old(g)@,
            Seq::new(n as nat, |i: int| difference32::<A>(pred@[i], y@[i])),
        ),
{
    let count: usize = n as usize;
    let vals: Vec<F32> = par_map(
        count,
        |i: usize| -> (v: F32)
            requires
                i < pred@.len(),
                i < y@.len(),
            ensures
                deterministic::<A>() ==> v == difference32::<A>(pred@[i as int], y@[i as int])
            { sub32::<A>(pred[i], y[i]) },
    );
    let ones: Vec<F32> = vec![F32 { bits: ONE32 };count];
    assert(ones@ =~= Seq::new(n as nat, |i: int| F32 { bits: ONE32 }));
    assert(deterministic::<A>() ==> vals@ =~= Seq::new(
        n as nat,
        |i: int| difference32::<A>(pred@[i], y@[i]),
    ));
    store(g, vals.as_slice());
    store(h, ones.as_slice());
}

/// A hessian that is kept from falling below a millionth; a NaN stays.
pub open spec fn floored(v: F32) -> F32 {
    if v.below(F32 { bits: MILLIONTH32 }) {
        F32 { bits: MILLIONTH32 }
    } else {
        v
    }
}

/// The logistic hessian at score `p`.
pub open spec fn logistic_hessian<A: Arith>(p: F32) -> F32 {
    let pr = sigmoid::<A>(p);
    floored(product32::<A>(pr, difference32::<A>(F32 { bits: ONE32 }, pr)))
}

/// The logistic hessian at score `p`.
fn logistic_hessian_at<A: Arith>(p: F32) -> (h: F32)
    ensures
        deterministic::<A>() ==> h == logistic_hessian::<A>(p),
{
    let pr = probability::<A>(p);
    let v = mul32::<A>(pr, sub32::<A>(F32 { bits: ONE32 }, pr));
    if v.less(F32 { bits: MILLIONTH32 }) {
        F32 { bits: MILLIONTH32 }
    } else {
        v
    }
}

/// The logistic gradients and hessians of the first `n` rows.
pub fn grad_logistic<A: Arith>(pred: &[F32], y: &[F32], g: &mut Vec<F32>, h: &mut Vec<F32>, n: u32)
    requires
        n <= pred@.len(),
        n <= y@.len(),
    ensures
        final(g)@.len() == old(g)@.len(),
        final(h)@.len() == old(h)@.len(),
        forall|i: int| n <= i < old(g)@.len() ==> #[trigger] final(g)@[i] == old(g)@[i],
        forall|i: int| n <= i < old(h)@.len() ==> #[trigger] final(h)@[i] == old(h)@[i],
        deterministic::<A>() ==> final(g)@ == overwritten(
            old(g)@,
            Seq::new(n as nat, |i: int| gradient::<A>(true, pred@[i], y@[i])),
        ),
        deterministic::<A>() ==> final(h)@ == overwritten(
            old(h)@,
            Seq::new(n as nat, |i: int| logistic_hessian::<A>(pred@[i])),
        ),
{
    let count: usize = n as usize;
    let gs: Vec<F32> = par_map(
        count,
        |i: usize| -> (v: F32)
            requires
                i < pred@.len(),
                i < y@.len(),
            ensures
                deterministic::<A>() ==> v == gradient::<A>(true, pred@[i as int], y@[i as int])
            { gradient_at::<A>(true, pred[i], y[i]) },
    );
    let hs: Vec<F32> = par_map(
        count,
        |i: usize| -> (v: F32)
            requires
                i < pred@.len(),
            ensures
                deterministic::<A>() ==> v == logistic_hessian::<A>(pred@[i as int])
            { logistic_hessian_at::<A>(pred[i]) },
    );
    assert(deterministic::<A>() ==> gs@ =~= Seq::new(
        n as nat,
        |i: int| gradient::<A>(true, pred@[i], y@[i]),
    ));
    assert(deterministic::<A>() ==> hs@ =~= Seq::new(
        n as nat,
        |i: int| logistic_hessian::<A>(pred@[i]),
    ));
    store(g, gs.as_slice());
    store(h, hs.as_slice());
}

/// What one row adds to a statistic.
pub enum Stat {
    /// The value.
    Value,
    /// The square of the value.
    Square,
    /// The value without its sign.
    Size,
}

/// The value without its sign; zero keeps its own.
pub open spec fn size_of_value(v: F32) -> F32 {
    if v.below(F32 { bits: 0 }) {
        v.opposite()
    } else {
        v
    }
}

/// What one row adds to a statistic.
pub open spec fn stat_of<A: Arith>(stat: Stat, v: F32) -> F32 {
    match stat {
        Stat::Value => v,
        Stat::Square => product32::<A>(v, v),
        Stat::Size => size_of_value(v),
    }
}

/// A statistic of the first `k` rows, added to what was there.
pub open spec fn added_up<A: Arith>(start: F32, stat: Stat, vals: Seq<F32>, k: nat) -> F32
    decreases k,
{
    if k == 0 {
        start
    } else {
        sum32::<A>(
            added_up::<A>(start, stat, vals, (k - 1) as nat),
            stat_of::<A>(stat, vals[k - 1]),
        )
    }
}

/// The value without its sign.
fn size_at(v: F32) -> (r: F32)
    ensures
        r == size_of_value(v),
{
    if v.less(F32 { bits: 0 }) {
        v.neg()
    } else {
        v
    }
}

/// Adds up the first `n` hessians into the first place of `stats`, and their squares into
/// the second.
pub fn hess_stats<A: Arith>(h: &[F32], stats: &mut Vec<F32>, n: u32)
    requires
        n <= h@.len(),
        old(stats)@.len() >= 2,
    ensures
        final(stats)@.len() == old(stats)@.len(),
        deterministic::<A>() ==> final(stats)@ == old(stats)@.update(
            0,
            added_up::<A>(old(stats)@[0], Stat::Value, h@, n as nat),
        ).update(1, added_up::<A>(old(stats)@[1], Stat::Square, h@, n as nat)),
{
    let ghost before = stats@;
    let mut sum = stats[0];
    let mut squares = stats[1];
    let mut i: usize = 0;
    while i < n as usize
        invariant
            i <= n <= h@.len(),
            deterministic::<A>() ==> sum == added_up::<A>(before[0], Stat::Value, h@, i as nat),
            deterministic::<A>() ==> squares == added_up::<A>(
                before[1],
                Stat::Square,
                h@,
                i as nat,
            ),
        decreases n - i,
    {
        let v = h[i];
        sum = add32::<A>(sum, v);
        squares = add32::<A>(squares, mul32::<A>(v, v));
        i = i + 1;
    }
    stats[0] = sum;
    stats[1] = squares;
}

/// The interval that hessians are kept in: `z` deviations about their mean, not reaching
/// below `eps`.
pub open spec fn hessian_range<A: Arith>(stats: Seq<F32>, n: u32, z: F32, eps: F32) -> (F32, F32) {
    let count = counted32::<A>(n as u64);
    let mean = quotient32::<A>(stats[0], count);
    let var = difference32::<A>(quotient32::<A>(stats[1], count), product32::<A>(mean, mean));
    let zero = F32 { bits: 0 };
    let std = if zero.below(var) {
        root32::<A>(var)
    } else {
        zero
    };
    let low = difference32::<A>(mean, product32::<A>(z, std));
    (
        if low.below(eps) {
            eps
        } else {
            low
        },
        sum32::<A>(mean, product32::<A>(z, std)),
    )
}

/// Brings the first `n` hessians into the interval of `z` deviations about their mean. The
/// lower end does not fall below `eps`, so that hessians stay positive.
pub fn hess_clamp<A: Arith>(h: &mut Vec<F32>, stats: &[F32], n: u32, z: F32, eps: F32)
    requires
        stats@.len() >= 2,
        n <= old(h)@.len(),
    ensures
        final(h)@.len() == old(h)@.len(),
        forall|i: int| n <= i < old(h)@.len() ==> #[trigger] final(h)@[i] == old(h)@[i],
        deterministic::<A>() ==> final(h)@ == overwritten(
            old(h)@,
            Seq::new(
                n as nat,
                |i: int|
                    old(h)@[i].within(
                        hessian_range::<A>(stats@, n, z, eps).0,
                        hessian_range::<A>(stats@, n, z, eps).1,
                    ),
            ),
        ),
{
    let count = count32::<A>(n as u64);
    let mean = div32::<A>(stats[0], count);
    let var = sub32::<A>(div32::<A>(stats[1], count), mul32::<A>(mean, mean));
    let zero = F32 { bits: 0 };
    let std = if zero.less(var) {
        sqrt32::<A>(var)
    } else {
        zero
    };
    let under = sub32::<A>(mean, mul32::<A>(z, std));
    let low = if under.less(eps) {
        eps
    } else {
        under
    };
    let high = add32::<A>(mean, mul32::<A>(z, std));
    let hs: &[F32] = h.as_slice();
    let vals: Vec<F32> = par_map(
        n as usize,
        |i: usize| -> (v: F32)
            requires
                i < hs@.len(),
            ensures
                v == hs@[i as int].within(low, high)
            { hs[i].clamp(low, high) },
    );
    assert(deterministic::<A>() ==> vals@ =~= Seq::new(
        n as nat,
        |i: int|
            old(h)@[i].within(
                hessian_range::<A>(stats@, n, z, eps).0,
                hessian_range::<A>(stats@, n, z, eps).1,
            ),
    ));
    store(h, vals.as_slice());
}

/// Clamped hessians stay at or above `eps`, and lie in the range wherever it is one. No bound
/// of the range may be NaN, nor its upper bound be below `eps`.
pub proof fn lemma_clamped_hessian<A: Arith>(h: F32, stats: Seq<F32>, n: u32, z: F32, eps: F32)
    requires
        !h.nan(),
        !hessian_range::<A>(stats, n, z, eps).0.nan(),
        eps.at_most(hessian_range::<A>(stats, n, z, eps).1),
    ensures
        ({
            let (low, high) = hessian_range::<A>(stats, n, z, eps);
            &&& eps.at_most(h.within(low, high))
            &&& low.at_most(high) ==> low.at_most(h.within(low, high)) && h.within(
                low,
                high,
            ).at_most(high)
        }),
{
}

/// Adds up the sizes of the first `n` gradients into the first place of `stats`.
pub fn goss_stats<A: Arith>(g: &[F32], stats: &mut Vec<F32>, n: u32)
    requires
        n <= g@.len(),
        old(stats)@.len() >= 1,
    ensures
        final(stats)@.len() == old(stats)@.len(),
        deterministic::<A>() ==> final(stats)@ == old(stats)@.update(
            0,
            added_up::<A>(old(stats)@[0], Stat::Size, g@, n as nat),
        ),
{
    let ghost before = stats@;
    let mut sum = stats[0];
    let mut i: usize = 0;
    while i < n as usize
        invariant
            i <= n <= g@.len(),
            deterministic::<A>() ==> sum == added_up::<A>(before[0], Stat::Size, g@, i as nat),
        decreases n - i,
    {
        sum = add32::<A>(sum, size_at(g[i]));
        i = i + 1;
    }
    stats[0] = sum;
}

/// The gradient size that is exceeded by a share of the rows, if gradients are normal: `q`
/// deviations, the deviation being estimated from the mean size.
pub open spec fn normal_threshold<A: Arith>(sum: F32, n: u32, q: F32) -> F32 {
    product32::<A>(
        quotient32::<A>(
            quotient32::<A>(sum, counted32::<A>(n as u64)),
            F32 { bits: HALF_NORMAL_MEAN32 },
        ),
        q,
    )
}

/// Turns the sum of gradient sizes into a threshold.
pub fn goss_thresh<A: Arith>(stats: &[F32], thresh: &mut Vec<F32>, n: u32, q: F32)
    requires
        stats@.len() >= 1,
        old(thresh)@.len() >= 1,
    ensures
        final(thresh)@.len() == old(thresh)@.len(),
        deterministic::<A>() ==> final(thresh)@ == old(thresh)@.update(
            0,
            normal_threshold::<A>(stats@[0], n, q),
        ),
{
    let mean_abs = div32::<A>(stats[0], count32::<A>(n as u64));
    let sigma = div32::<A>(mean_abs, F32 { bits: HALF_NORMAL_MEAN32 });
    let t = mul32::<A>(sigma, q);
    thresh[0] = t;
}

/// The weight of row `i` with gradient `g`: one above the threshold, `amplify` for a share
/// `other_rate` of the rest, zero for what is left.
pub open spec fn goss_weight<A: Arith>(
    g: F32,
    t: F32,
    amplify: F32,
    other_rate: F32,
    seed: u32,
    i: int,
) -> F32 {
    if t.at_most(size_of_value(g)) {
        F32 { bits: ONE32 }
    } else if sample_share::<A>(i as u32, seed).below(other_rate) {
        amplify
    } else {
        F32 { bits: 0 }
    }
}

/// The weight of row `i` with gradient `g`.
fn weight_at<A: Arith>(
    g: F32,
    t: F32,
    amplify: F32,
    other_rate: F32,
    seed: u32,
    i: u32,
) -> (w: F32)
    ensures
        deterministic::<A>() ==> w == goss_weight::<A>(g, t, amplify, other_rate, seed, i as int),
{
    if size_at(g).not_less(t) {
        F32 { bits: ONE32 }
    } else if hash01::<A>(i, seed).less(other_rate) {
        amplify
    } else {
        F32 { bits: 0 }
    }
}

/// Weighs the gradients and hessians of the first `n` rows: rows whose gradients reach the
/// threshold are kept, a share of the rest is kept and amplified, and what is left no longer
/// counts.
pub fn goss_apply<A: Arith>(
    g: &mut Vec<F32>,
    h: &mut Vec<F32>,
    thresh: &[F32],
    amplify: F32,
    other_rate: F32,
    seed: u32,
    n: u32,
)
    requires
        thresh@.len() >= 1,
        n <= old(g)@.len(),
        n <= old(h)@.len(),
    ensures
        final(g)@.len() == old(g)@.len(),
        final(h)@.len() == old(h)@.len(),
        forall|i: int| n <= i < old(g)@.len() ==> #[trigger] final(g)@[i] == old(g)@[i],
        forall|i: int| n <= i < old(h)@.len() ==> #[trigger] final(h)@[i] == old(h)@[i],
        deterministic::<A>() ==> final(g)@ == overwritten(
            old(g)@,
            Seq::new(
                n as nat,
                |i: int|
                    product32::<A>(
                        old(g)@[i],
                        goss_weight::<A>(old(g)@[i], thresh@[0], amplify, other_rate, seed, i),
                    ),
            ),
        ),
        deterministic::<A>() ==> final(h)@ == overwritten(
            old(h)@,
            Seq::new(
                n as nat,
                |i: int|
                    product32::<A>(
                        old(h)@[i],
                        goss_weight::<A>(old(g)@[i], thresh@[0], amplify, other_rate, seed, i),
                    ),
            ),
        ),
{
    let t = thresh[0];
    let gs: &[F32] = g.as_slice();
    let hs: &[F32] = h.as_slice();
    let ws: Vec<F32> = par_map(
        n as usize,
        |i: usize| -> (w: F32)
            requires
                i < n,
                i < gs@.len(),
            ensures
                deterministic::<A>() ==> w == goss_weight::<A>(gs@[i as int], t, amplify, other_rate, seed, i as int)
            { weight_at::<A>(gs[i], t, amplify, other_rate, seed, i as u32) },
    );
    let w: &[F32] = ws.as_slice();
    let new_g: Vec<F32> = par_map(
        n as usize,
        |i: usize| -> (v: F32)
            requires
                i < gs@.len(),
                i < w@.len(),
            ensures
                deterministic::<A>() ==> v == product32::<A>(gs@[i as int], w@[i as int])
            { mul32::<A>(gs[i], w[i]) },
    );
    let new_h: Vec<F32> = par_map(
        n as usize,
        |i: usize| -> (v: F32)
            requires
                i < hs@.len(),
                i < w@.len(),
            ensures
                deterministic::<A>() ==> v == product32::<A>(hs@[i as int], w@[i as int])
            { mul32::<A>(hs[i], w[i]) },
    );
    proof {
        if deterministic::<A>() {
            assert(new_g@ =~= Seq::new(
                n as nat,
                |i: int|
                    product32::<A>(
                        old(g)@[i],
                        goss_weight::<A>(old(g)@[i], thresh@[0], amplify, other_rate, seed, i),
                    ),
            )) by {
                assert forall|i: int| 0 <= i < n implies #[trigger] ws@[i] == goss_weight::<A>(
                    gs@[i],
                    t,
                    amplify,
                    other_rate,
                    seed,
                    i,
                ) by {}
            }
            assert(new_h@ =~= Seq::new(
                n as nat,
                |i: int|
                    product32::<A>(
                        old(h)@[i],
                        goss_weight::<A>(old(g)@[i], thresh@[0], amplify, other_rate, seed, i),
                    ),
            ));
        }
    }
    store(g, new_g.as_slice());
    store(h, new_h.as_slice());
}

/// The nodes of the first `n` rows after the split at `bin` of feature `f`.
pub open spec fn split_nodes(leaf: Seq<u32>, view: BinView, f: int, bin: int, n: nat) -> Seq<u32> {
    Seq::new(
        n,
        |i: int|
            (leaf[i] * 2 + if view.bin(i, f) > bin {
                1int
            } else {
                0int
            }) as u32,
    )
}

/// The node of row `i` after a split.
fn split_node(
    leaf: u32,
    bins: &[u8],
    packed: bool,
    stride: usize,
    i: usize,
    f: usize,
    bin: usize,
    Ghost(n): Ghost<int>,
    Ghost(nf): Ghost<int>,
) -> (r: u32)
    requires
        (BinView { bytes: bins@, packed, stride: stride as int }).covers(n, nf),
        i < n,
        f < nf,
        leaf < 0x8000_0000,
    ensures
        r == leaf * 2 + if (BinView { bytes: bins@, packed, stride: stride as int }).bin(
            i as int,
            f as int,
        ) > bin {
            1int
        } else {
            0int
        },
{
    let b: usize = read_bin(bins, packed, stride, i, f, Ghost(n), Ghost(nf));
    if b > bin {
        leaf * 2 + 1
    } else {
        leaf * 2
    }
}

/// Moves the first `n` rows on to the children of their nodes, by the split whose feature and
/// bin `split_ft` holds.
pub fn apply_split(
    bins: &[u8],
    leaf: &mut Vec<u32>,
    split_ft: &[u32],
    n: u32,
    n_features: u32,
    packed: bool,
    bin_row_stride: u32,
)
    requires
        split_ft@.len() >= 2,
        split_ft@[0] < n_features,
        (BinView { bytes: bins@, packed, stride: bin_row_stride as int }).covers(
            n as int,
            n_features as int,
        ),
        n <= old(leaf)@.len(),
        forall|i: int| 0 <= i < n ==> #[trigger] old(leaf)@[i] < 0x8000_0000,
    ensures
        final(leaf)@ == overwritten(
            old(leaf)@,
            split_nodes(
                old(leaf)@,
                BinView { bytes: bins@, packed, stride: bin_row_stride as int },
                split_ft@[0] as int,
                split_ft@[1] as int,
                n as nat,
            ),
        ),
{
    let f: usize = split_ft[0] as usize;
    let bin: usize = split_ft[1] as usize;
    let stride: usize = bin_row_stride as usize;
    let ls: &[u32] = leaf.as_slice();
    let ghost view = BinView { bytes: bins@, packed, stride: bin_row_stride as int };
    let ghost nn = n as int;
    let ghost nf = n_features as int;
    let vals: Vec<u32> = par_map(
        n as usize,
        |i: usize| -> (r: u32)
            requires
                (BinView { bytes: bins@, packed, stride: stride as int }).covers(nn, nf),
                i < nn,
                i < ls@.len(),
                f < nf,
                ls@[i as int] < 0x8000_0000,
            ensures
                r == ls@[i as int] * 2 + if (BinView { bytes: bins@, packed, stride: stride as int }).bin(i as int, f as int) > bin {
                    1int
                } else {
                    0int
                }
            { split_node(ls[i], bins, packed, stride, i, f, bin, Ghost(nn), Ghost(nf)) },
    );
    assert(vals@ =~= split_nodes(old(leaf)@, view, f as int, bin as int, n as nat));
    store(leaf, vals.as_slice());
}

/// The integer nearest to a number, halves going away from zero; numbers out of range go to
/// the closest end, NaN to zero.
pub open spec fn rounded(x: F32) -> int {
    let r = x.nearest_i64();
    if r < i32::MIN {
        i32::MIN as int
    } else if r > i32::MAX {
        i32::MAX as int
    } else {
        r
    }
}

/// The integer nearest to a number, halves going away from zero.
pub fn round_i32(x: F32) -> (r: i32)
    ensures
        r == rounded(x),
{
    let v: i64 = x.round_i64();
    if v < i32::MIN as i64 {
        i32::MIN
    } else if v > i32::MAX as i64 {
        i32::MAX
    } else {
        v as i32
    }
}

} // verus!
