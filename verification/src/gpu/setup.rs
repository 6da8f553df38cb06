//! What a run on a device is set up with.

use vstd::prelude::*;

use crate::arith::add64;
use crate::arith::deterministic;
use crate::arith::difference64;
use crate::arith::div64;
use crate::arith::ln64;
use crate::arith::logarithm64;
use crate::arith::mul64;
use crate::arith::product64;
use crate::arith::quotient64;
use crate::arith::root64;
use crate::arith::sqrt64;
use crate::arith::sub64;
use crate::arith::sum64;
use crate::arith::Arith;
use crate::float::F32;
use crate::float::F64;
use crate::float::HALF64;
use crate::float::ONE64;

verus! {

/// The number of histogram entries that the replicas may take together: six gibibytes of
/// pairs of single-precision numbers.
pub const REPLICA_BUDGET: usize = 0x3000_0000;

/// Bits of 0.02425 in double precision: where the lower tail of the normal distribution ends.
pub const LOWER_TAIL64: u64 = 0x3F98_D4FD_F3B6_45A2;

/// Bits of 0.97575 in double precision: where the upper tail begins.
pub const UPPER_TAIL64: u64 = 0x3FEF_3958_1062_4DD3;

/// Bits of minus two in double precision.
pub const MINUS_TWO64: u64 = 0xC000_0000_0000_0000;

/// The number of copies that histograms of `size` entries are held in: as many as asked for,
/// as far as they fit the budget, and at least one.
pub open spec fn replicas_within(asked: int, size: int) -> int {
    let most = if REPLICA_BUDGET as int / size < 1 {
        1
    } else {
        REPLICA_BUDGET as int / size
    };
    if asked < 1 {
        1
    } else if asked > most {
        most
    } else {
        asked
    }
}

/// The number of copies that histograms of `size` entries are held in.
pub fn replica_count(asked: usize, size: usize) -> (r: usize)
    requires
        size > 0,
    ensures
        r == replicas_within(asked as int, size as int),
        r >= 1,
{
    let fit: usize = REPLICA_BUDGET / size;
    let most: usize = if fit < 1 {
        1
    } else {
        fit
    };
    if asked < 1 {
        1
    } else if asked > most {
        most
    } else {
        asked
    }
}

/// More than one copy is held only within the budget.
pub proof fn lemma_replicas_fit(asked: int, size: int)
    requires
        size > 0,
    ensures
        1 <= replicas_within(asked, size),
        replicas_within(asked, size) * size <= REPLICA_BUDGET || replicas_within(asked, size) == 1,
{
    let r = replicas_within(asked, size);
    let budget = REPLICA_BUDGET as int;
    let most = budget / size;
    if r > 1 {
        assert(r * size <= budget) by (nonlinear_arith)
            requires
                1 < r <= most,
                most == budget / size,
                size > 0,
        ;
    }
}

/// The seed of a tree.
pub open spec fn seed_of(tree: u32) -> u32 {
    tree.wrapping_mul(2_654_435_761).wrapping_add(0x9E37_79B9)
}

/// The seed of a tree.
pub fn tree_seed(tree: u32) -> (s: u32)
    ensures
        s == seed_of(tree),
{
    tree.wrapping_mul(2_654_435_761).wrapping_add(0x9E37_79B9)
}

/// The columns of a row-major matrix, one after the other.
pub open spec fn transposed(x: Seq<F32>, n: int, nf: int) -> Seq<F32> {
    Seq::new((n * nf) as nat, |p: int| x[p % n * nf + p / n])
}

/// The columns of a row-major matrix, one after the other.
pub fn column_major(x: &[F32], n: usize, nf: usize) -> (col: Vec<F32>)
    requires
        n * nf <= x@.len(),
    ensures
        col@ == transposed(x@, n as int, nf as int),
{
    assert(x.len() >= n * nf);
    let mut col: Vec<F32> = Vec::new();
    let mut f: usize = 0;
    assert(0 * n == 0);
    while f < nf
        invariant
            n * nf <= x@.len(),
            n * nf <= usize::MAX,
            f <= nf,
            col@.len() == f * n,
            forall|p: int|
                0 <= p < col@.len() ==> #[trigger] col@[p] == x@[p % (n as int) * nf + p / (
                n as int)],
        decreases nf - f,
    {
        let mut i: usize = 0;
        while i < n
            invariant
                n * nf <= x@.len(),
                n * nf <= usize::MAX,
                f < nf,
                i <= n,
                col@.len() == f * n + i,
                forall|p: int|
                    0 <= p < col@.len() ==> #[trigger] col@[p] == x@[p % (n as int) * nf + p / (
                    n as int)],
            decreases n - i,
        {
            assert(0 <= i * nf && i * nf + f < n * nf) by (nonlinear_arith)
                requires
                    0 <= i < n,
                    0 <= f < nf,
            ;
            let ghost p = f * n + i;
            proof {
                let k = n as int;
                assert(p == k * f + i) by (nonlinear_arith)
                    requires
                        p == f * n + i,
                        k == n,
                ;
                vstd::arithmetic::div_mod::lemma_fundamental_div_mod_converse(
                    p,
                    k,
                    f as int,
                    i as int,
                );
            }
            col.push(x[i * nf + f]);
            i = i + 1;
        }
        assert((f + 1) * n == f * n + n) by (nonlinear_arith);
        f = f + 1;
    }
    assert(nf * n == n * nf) by (nonlinear_arith);
    assert(col@ =~= transposed(x@, n as int, nf as int));
    col
}

/// The value of row `i` for feature `f` stands at place `f * n + i` of the transposed matrix,
/// and transposing twice changes nothing.
pub proof fn lemma_transposed(x: Seq<F32>, n: int, nf: int)
    requires
        0 <= n,
        0 <= nf,
        x.len() == n * nf,
    ensures
        forall|i: int, f: int|
            0 <= i < n && 0 <= f < nf ==> #[trigger] transposed(x, n, nf)[f * n + i] == x[i * nf
                + f],
        transposed(transposed(x, n, nf), nf, n) == x,
{
    let t = transposed(x, n, nf);
    assert forall|i: int, f: int| 0 <= i < n && 0 <= f < nf implies #[trigger] t[f * n + i] == x[i
        * nf + f] by {
        let p = f * n + i;
        assert(0 <= p < n * nf) by (nonlinear_arith)
            requires
                0 <= i < n,
                0 <= f < nf,
                p == f * n + i,
        ;
        assert(p == n * f + i) by (nonlinear_arith)
            requires
                p == f * n + i,
        ;
        vstd::arithmetic::div_mod::lemma_fundamental_div_mod_converse(p, n, f, i);
    }
    let back = transposed(t, nf, n);
    assert(nf * n == n * nf) by (nonlinear_arith);
    assert forall|p: int| 0 <= p < x.len() implies #[trigger] back[p] == x[p] by {
        assert(nf > 0) by (nonlinear_arith)
            requires
                0 <= p < n * nf,
                n >= 0,
                nf >= 0,
        ;
        let i = p / nf;
        let f = p % nf;
        vstd::arithmetic::div_mod::lemma_fundamental_div_mod(p, nf);
        assert(nf * i == i * nf) by (nonlinear_arith);
        assert(0 <= i < n) by (nonlinear_arith)
            requires
                0 <= p < n * nf,
                nf > 0,
                i == p / nf,
        ;
        assert(t[f * n + i] == x[i * nf + f]);
    }
    assert(back =~= x);
}

/// The directions of all features: those given, and none for the rest.
pub open spec fn directions(given: Seq<i32>, nf: nat) -> Seq<i32> {
    Seq::new(
        nf,
        |f: int|
            if f < given.len() {
                given[f]
            } else {
                0
            },
    )
}

/// The directions of all features.
pub fn all_directions(given: &[i32], nf: usize) -> (r: Vec<i32>)
    ensures
        r@ == directions(given@, nf as nat),
{
    let mut r: Vec<i32> = Vec::new();
    while r.len() < nf
        invariant
            r@.len() <= nf,
            forall|f: int| 0 <= f < r@.len() ==> #[trigger] r@[f] == directions(given@, nf as nat)[f],
        decreases nf - r@.len(),
    {
        let f: usize = r.len();
        if f < given.len() {
            r.push(given[f]);
        } else {
            r.push(0);
        }
    }
    assert(r@ =~= directions(given@, nf as nat));
    r
}

/// The number of tiles that the rows are cut into for histograms built by blocks.
pub open spec fn tiles_for(n: int) -> int {
    let t = (n + 8191) / 8192;
    if t < 1 {
        1
    } else if t > 4096 {
        4096
    } else {
        t
    }
}

/// The number of tiles that the rows are cut into.
pub fn tile_count(n: u32) -> (t: u32)
    ensures
        t == tiles_for(n as int),
{
    let t: u64 = (n as u64 + 8191) / 8192;
    if t < 1 {
        1
    } else if t > 4096 {
        4096
    } else {
        t as u32
    }
}

/// Bits of the coefficients of the numerator between the tails.
pub open spec fn central_numerator() -> Seq<u64> {
    seq![
        0xC043_D931_BC1E_0525u64,
        0x406B_9E46_7034_039Bu64,
        0xC071_3EDB_2DC5_3B99u64,
        0x4061_4B72_B40B_401Bu64,
        0xC03E_AA30_34C0_8BCDu64,
        0x4004_0D93_2057_5479u64,
    ]
}

/// Bits of the coefficients of the denominator between the tails.
pub open spec fn central_denominator() -> Seq<u64> {
    seq![
        0xC04B_3CF0_CE30_04C4u64,
        0x4064_32BF_2CF0_4277u64,
        0xC063_765E_0B02_D8D2u64,
        0x4050_B348_B1A7_E9BEu64,
        0xC02A_8FB5_7E14_7826u64,
        ONE64,
    ]
}

/// Bits of the coefficients of the numerator in the tails.
pub open spec fn tail_numerator() -> Seq<u64> {
    seq![
        0xBF7F_E30D_924A_CFE0u64,
        0xBFD4_A224_C0E8_81B8u64,
        0xC003_34C0_C170_1758u64,
        0xC004_65DA_2C70_3A1Au64,
        0x4011_7FA7_F4EA_4DC7u64,
        0x4007_815C_1E3F_CFA2u64,
    ]
}

/// Bits of the coefficients of the denominator in the tails.
pub open spec fn tail_denominator() -> Seq<u64> {
    seq![
        0x3F7F_E2D8_57AC_9FD4u64,
        0x3FD4_A34D_2B59_0364u64,
        0x4003_8FA2_7C8A_E616u64,
        0x400E_0907_6895_B119u64,
        ONE64,
    ]
}

/// The polynomial with the first `k` coefficients, highest power first.
pub open spec fn polynomial<A: Arith>(coefs: Seq<u64>, x: F64, k: nat) -> F64
    decreases k,
{
    if k <= 1 {
        F64 { bits: coefs[0] }
    } else {
        sum64::<A>(
            product64::<A>(polynomial::<A>(coefs, x, (k - 1) as nat), x),
            F64 { bits: coefs[k - 1] },
        )
    }
}

/// The inverse of the standard normal distribution function, by rational approximation.
pub open spec fn normal_quantile<A: Arith>(p: F64) -> F64 {
    let one = F64 { bits: ONE64 };
    let minus_two = F64 { bits: MINUS_TWO64 };
    if p.below(F64 { bits: LOWER_TAIL64 }) {
        let q = root64::<A>(product64::<A>(minus_two, logarithm64::<A>(p)));
        quotient64::<A>(
            polynomial::<A>(tail_numerator(), q, 6),
            polynomial::<A>(tail_denominator(), q, 5),
        )
    } else if p.at_most(F64 { bits: UPPER_TAIL64 }) {
        let q = difference64::<A>(p, F64 { bits: HALF64 });
        let r = product64::<A>(q, q);
        quotient64::<A>(
            product64::<A>(polynomial::<A>(central_numerator(), r, 6), q),
            polynomial::<A>(central_denominator(), r, 6),
        )
    } else {
        let q = root64::<A>(
            product64::<A>(minus_two, logarithm64::<A>(difference64::<A>(one, p))),
        );
        quotient64::<A>(
            polynomial::<A>(tail_numerator(), q, 6).opposite(),
            polynomial::<A>(tail_denominator(), q, 5),
        )
    }
}

/// The polynomial with the given coefficients, highest power first.
fn horner<A: Arith>(coefs: &[u64], x: F64) -> (v: F64)
    requires
        coefs@.len() >= 1,
    ensures
        deterministic::<A>() ==> v == polynomial::<A>(coefs@, x, coefs@.len()),
{
    let mut v = F64 { bits: coefs[0] };
    let mut k: usize = 1;
    while k < coefs.len()
        invariant
            1 <= k <= coefs@.len(),
            deterministic::<A>() ==> v == polynomial::<A>(coefs@, x, k as nat),
        decreases coefs@.len() - k,
    {
        v = add64::<A>(mul64::<A>(v, x), F64 { bits: coefs[k] });
        k = k + 1;
    }
    v
}

/// The quotient of the polynomials for the tails.
fn tail_ratio<A: Arith>(q: F64, upper: bool) -> (v: F64)
    ensures
        deterministic::<A>() ==> v == quotient64::<A>(
            if upper {
                polynomial::<A>(tail_numerator(), q, 6).opposite()
            } else {
                polynomial::<A>(tail_numerator(), q, 6)
            },
            polynomial::<A>(tail_denominator(), q, 5),
        ),
{
    let c: Vec<u64> = vec![
        0xBF7F_E30D_924A_CFE0u64,
        0xBFD4_A224_C0E8_81B8u64,
        0xC003_34C0_C170_1758u64,
        0xC004_65DA_2C70_3A1Au64,
        0x4011_7FA7_F4EA_4DC7u64,
        0x4007_815C_1E3F_CFA2u64,
    ];
    let d: Vec<u64> = vec![
        0x3F7F_E2D8_57AC_9FD4u64,
        0x3FD4_A34D_2B59_0364u64,
        0x4003_8FA2_7C8A_E616u64,
        0x400E_0907_6895_B119u64,
        ONE64,
    ];
    assert(c@ =~= tail_numerator());
    assert(d@ =~= tail_denominator());
    let top = horner::<A>(c.as_slice(), q);
    let bottom = horner::<A>(d.as_slice(), q);
    if upper {
        div64::<A>(top.neg(), bottom)
    } else {
        div64::<A>(top, bottom)
    }
}

/// The inverse of the standard normal distribution function.
pub fn norm_ppf<A: Arith>(p: F64) -> (v: F64)
    ensures
        deterministic::<A>() ==> v == normal_quantile::<A>(p),
{
    let one = F64 { bits: ONE64 };
    let minus_two = F64 { bits: MINUS_TWO64 };
    if p.less(F64 { bits: LOWER_TAIL64 }) {
        let q = sqrt64::<A>(mul64::<A>(minus_two, ln64::<A>(p)));
        tail_ratio::<A>(q, false)
    } else if (F64 { bits: UPPER_TAIL64 }).not_less(p) {
        let a: Vec<u64> = vec![
            0xC043_D931_BC1E_0525u64,
            0x406B_9E46_7034_039Bu64,
            0xC071_3EDB_2DC5_3B99u64,
            0x4061_4B72_B40B_401Bu64,
            0xC03E_AA30_34C0_8BCDu64,
            0x4004_0D93_2057_5479u64,
        ];
        let b: Vec<u64> = vec![
            0xC04B_3CF0_CE30_04C4u64,
            0x4064_32BF_2CF0_4277u64,
            0xC063_765E_0B02_D8D2u64,
            0x4050_B348_B1A7_E9BEu64,
            0xC02A_8FB5_7E14_7826u64,
            ONE64,
        ];
        assert(a@ =~= central_numerator());
        assert(b@ =~= central_denominator());
        let q = sub64::<A>(p, F64 { bits: HALF64 });
        let r = mul64::<A>(q, q);
        div64::<A>(
            mul64::<A>(horner::<A>(a.as_slice(), r), q),
            horner::<A>(b.as_slice(), r),
        )
    } else {
        let q = sqrt64::<A>(mul64::<A>(minus_two, ln64::<A>(sub64::<A>(one, p))));
        tail_ratio::<A>(q, true)
    }
}

} // verus!
