//! What the figures of a report say.

use vstd::arithmetic::power2::lemma2_to64;
use vstd::arithmetic::power2::lemma2_to64_rest;
use vstd::arithmetic::power2::lemma_pow2_adds;
use vstd::arithmetic::power2::pow2;
use vstd::prelude::*;

use crate::arith::counted64;
use crate::arith::difference32;
use crate::arith::product32;
use crate::arith::product64;
use crate::arith::sum64;
use crate::arith::widened;
use crate::arith::Arith;
use crate::cpu::ALL_ROWS32;
use crate::float::BILLIONTH64;
use crate::float::F32;
use crate::float::F64;
use crate::float::MILLIONTH32;
use crate::float::ONE_LESS_MILLIONTH32;
use crate::metrics::LARGEST64;
use crate::metrics::LEAST64;
use crate::reals::faithful;
use crate::reals::fits32;
use crate::reals::fits64;
use crate::reals::lemma_constants;
use crate::reals::lemma_counted64;
use crate::reals::lemma_difference32;
use crate::reals::lemma_order32;
use crate::reals::lemma_order64;
use crate::reals::lemma_product32;
use crate::reals::lemma_product64;
use crate::reals::lemma_quotient64;
use crate::reals::lemma_sign32;
use crate::reals::lemma_sum64;
use crate::reals::lemma_widened;
use crate::reals::size_of;
use crate::reals::twos;
use crate::report::covered;
use crate::report::covered_count;
use crate::report::largest_gap;
use crate::report::percent_of;
use crate::report::reused_size;
use crate::report::share_of;
use crate::report::timed;
use crate::report::wide_mean;
use crate::report::wide_sum;
use crate::report::HUNDRED64;
use crate::report::INTERVAL32;
use crate::sums::counts_fit64;
use crate::sums::lemma_count_fits;
use crate::sums::part;
use crate::sums::parts_fit64;
use crate::sums::picked;

verus! {

/// What the constants of the reports and of the metrics stand for, to within the last place that
/// can be written.
pub proof fn lemma_shown_constants()
    ensures
        (F64 { bits: HUNDRED64 }).means(100real),
        (F32 { bits: INTERVAL32 }).finite(),
        -1real <= (F32 { bits: INTERVAL32 }).amount() * 10000000real - 19600000real <= 1real,
        (F32 { bits: MILLIONTH32 }).finite(),
        999999real <= (F32 { bits: MILLIONTH32 }).amount() * 1000000000000real <= 1000001real,
        (F32 { bits: ONE_LESS_MILLIONTH32 }).finite(),
        -1real <= (F32 { bits: ONE_LESS_MILLIONTH32 }).amount() * 10000000real - 9999990real
            <= 1real,
        (F32 { bits: ALL_ROWS32 }).finite(),
        -1real <= (F32 { bits: ALL_ROWS32 }).amount() * 10000000real - 9990000real <= 1real,
        (F64 { bits: LEAST64 }).finite(),
        9999999real <= (F64 { bits: LEAST64 }).amount() * 100000000000000real <= 10000001real,
        (F64 { bits: LARGEST64 }).finite(),
        -1real <= (F64 { bits: LARGEST64 }).amount() * 100000000000000real - 99999990000000real
            <= 1real,
        (F64 { bits: BILLIONTH64 }).finite(),
        9999999real <= (F64 { bits: BILLIONTH64 }).amount() * 10000000000000000real <= 10000001real,
{
    lemma2_to64();
    lemma2_to64_rest();
    let field = 0x10_0000_0000_0000int;
    let a = (F64 { bits: HUNDRED64 }).magnitude();
    assert(a / field == 1029 && a % field == 0x9_0000_0000_0000);
    assert(pow2(46) == 0x4000_0000_0000);
    assert(twos(-46) == 1real / (0x4000_0000_0000int as real));
    assert(size_of(a, field, -1074) == (0x19_0000_0000_0000int as real) * twos(-46));
    let b = (F32 { bits: INTERVAL32 }).magnitude();
    assert(b / 0x80_0000 == 127 && b % 0x80_0000 == 0x7A_E148);
    assert(pow2(23) == 0x80_0000);
    assert(twos(-23) == 1real / (0x80_0000int as real));
    assert(size_of(b, 0x80_0000, -149) == (0xFA_E148int as real) * twos(-23));
    let c = (F32 { bits: MILLIONTH32 }).magnitude();
    assert(c / 0x80_0000 == 107 && c % 0x80_0000 == 0x06_37BD);
    assert(pow2(43) == 0x800_0000_0000);
    assert(twos(-43) == 1real / (0x800_0000_0000int as real));
    assert(size_of(c, 0x80_0000, -149) == (0x86_37BDint as real) * twos(-43));
    let d = (F32 { bits: ONE_LESS_MILLIONTH32 }).magnitude();
    assert(d / 0x80_0000 == 126 && d % 0x80_0000 == 0x7F_FFEF);
    assert(pow2(24) == 0x100_0000);
    assert(twos(-24) == 1real / (0x100_0000int as real));
    assert(size_of(d, 0x80_0000, -149) == (0xFF_FFEFint as real) * twos(-24));
    let e = (F32 { bits: ALL_ROWS32 }).magnitude();
    assert(e / 0x80_0000 == 126 && e % 0x80_0000 == 0x7F_BE77);
    assert(size_of(e, 0x80_0000, -149) == (0xFF_BE77int as real) * twos(-24));
    let g = (F64 { bits: LEAST64 }).magnitude();
    assert(g / field == 999 && g % field == 0xA_D7F2_9ABC_AF48);
    lemma_pow2_adds(38, 38);
    assert(pow2(38) == 0x40_0000_0000);
    assert(pow2(76) == 75557863725914323419136nat) by (nonlinear_arith)
        requires
            pow2(76) == pow2(38) * pow2(38),
            pow2(38) == 0x40_0000_0000,
    ;
    assert(twos(-76) == 1real / (75557863725914323419136int as real));
    assert(size_of(g, field, -1074) == (0x1A_D7F2_9ABC_AF48int as real) * twos(-76));
    let h = (F64 { bits: LARGEST64 }).magnitude();
    assert(h / field == 1022 && h % field == 0xF_FFFF_CA50_1ACB);
    assert(pow2(53) == 0x20_0000_0000_0000);
    assert(twos(-53) == 1real / (0x20_0000_0000_0000int as real));
    assert(size_of(h, field, -1074) == (0x1F_FFFF_CA50_1ACBint as real) * twos(-53));
    let i = (F64 { bits: BILLIONTH64 }).magnitude();
    assert(i / field == 993 && i % field == 0x1_2E0B_E826_D695);
    lemma_pow2_adds(41, 41);
    assert(pow2(41) == 0x200_0000_0000);
    assert(pow2(82) == 4835703278458516698824704nat) by (nonlinear_arith)
        requires
            pow2(82) == pow2(41) * pow2(41),
            pow2(41) == 0x200_0000_0000,
    ;
    assert(twos(-82) == 1real / (4835703278458516698824704int as real));
    assert(size_of(i, field, -1074) == (0x11_2E0B_E826_D695int as real) * twos(-82));
}

/// The share of a gain, times all gains, is a hundred times the gain.
pub proof fn lemma_share<A: Arith>(gain: F32, total: F64)
    requires
        faithful::<A>(),
        gain.finite(),
        total.finite(),
        (F64 { bits: BILLIONTH64 }).amount() <= total.amount(),
        fits64(100real * gain.amount()),
        fits64(100real * gain.amount() / total.amount()),
    ensures
        share_of::<A>(gain, total).finite(),
        share_of::<A>(gain, total).amount() * total.amount() == 100real * gain.amount(),
{
    let hundred = F64 { bits: HUNDRED64 };
    let tiny = F64 { bits: BILLIONTH64 };
    lemma_shown_constants();
    lemma_widened::<A>(gain);
    lemma_product64::<A>(hundred, widened::<A>(gain));
    lemma_order64(total, tiny);
    let top = product64::<A>(hundred, widened::<A>(gain));
    assert(total.larger(tiny).amount() == total.amount());
    lemma_quotient64::<A>(top, total.larger(tiny));
    let s = share_of::<A>(gain, total).amount();
    let x = top.amount();
    let y = total.amount();
    assert(s * y == x) by (nonlinear_arith)
        requires
            s == x / y,
            y > 0real,
    ;
}

proof fn lemma_wide_sum<A: Arith>(vals: Seq<F32>, k: nat)
    requires
        faithful::<A>(),
        parts_fit64(vals, vals.len()),
        k <= vals.len(),
    ensures
        wide_sum::<A>(vals, k).means(part(vals, k, |i: int| true)),
    decreases k,
{
    lemma_constants();
    if k > 0 {
        lemma_wide_sum::<A>(vals, (k - 1) as nat);
        lemma_widened::<A>(vals[k - 1]);
        assert(fits64(part(vals, k, |i: int| true)));
        lemma_sum64::<A>(wide_sum::<A>(vals, (k - 1) as nat), widened::<A>(vals[k - 1]));
    }
}

/// All gains together are their sum, and the mean of deviations times their number is theirs.
pub proof fn lemma_wide_figures<A: Arith>(vals: Seq<F32>)
    requires
        faithful::<A>(),
        parts_fit64(vals, vals.len()),
        0 < vals.len() <= u64::MAX,
        fits64(vals.len() as real),
        fits64(part(vals, vals.len(), |i: int| true) / (vals.len() as real)),
    ensures
        wide_sum::<A>(vals, vals.len()).means(part(vals, vals.len(), |i: int| true)),
        wide_mean::<A>(vals).finite(),
        wide_mean::<A>(vals).amount() * (vals.len() as real) == part(
            vals,
            vals.len(),
            |i: int| true,
        ),
{
    let n = vals.len();
    lemma_wide_sum::<A>(vals, n);
    lemma_counted64::<A>(n as u64);
    lemma_quotient64::<A>(wide_sum::<A>(vals, n), counted64::<A>(n as u64));
    let m = wide_mean::<A>(vals).amount();
    let x = part(vals, n, |i: int| true);
    let y = n as real;
    assert(m * y == x) by (nonlinear_arith)
        requires
            m == x / y,
            y > 0real,
    ;
}

/// The label of row `i` is no further from its score than the given number of its deviations.
pub open spec fn near_enough(
    scores: Seq<F32>,
    labels: Seq<F32>,
    std: Seq<F32>,
) -> spec_fn(int) -> bool {
    |i: int|
        {
            let off = scores[i].amount() - labels[i].amount();
            let reach = (F32 { bits: INTERVAL32 }).amount() * std[i].amount();
            -reach <= off <= reach
        }
}

/// The labels that count as covered are those within their interval.
pub proof fn lemma_covered_rows<A: Arith>(
    scores: Seq<F32>,
    labels: Seq<F32>,
    std: Seq<F32>,
    k: nat,
)
    requires
        faithful::<A>(),
        k <= scores.len(),
        k <= labels.len(),
        k <= std.len(),
        forall|i: int|
            0 <= i < k ==> (#[trigger] scores[i]).finite() && labels[i].finite()
                && std[i].finite() && fits32(scores[i].amount() - labels[i].amount()) && fits32(
                (F32 { bits: INTERVAL32 }).amount() * std[i].amount(),
            ),
    ensures
        covered_count::<A>(scores, labels, std, k) == picked(k, near_enough(scores, labels, std)),
    decreases k,
{
    if k > 0 {
        lemma_covered_rows::<A>(scores, labels, std, (k - 1) as nat);
        let z = F32 { bits: INTERVAL32 };
        let s = scores[k - 1];
        let y = labels[k - 1];
        let d = std[k - 1];
        lemma_shown_constants();
        assert(s.finite());
        lemma_difference32::<A>(s, y);
        lemma_product32::<A>(z, d);
        let off = difference32::<A>(s, y);
        let reach = product32::<A>(z, d);
        lemma_sign32(off);
        lemma_order32(off.absolute(), reach);
        assert(covered::<A>(s, y, d) == near_enough(scores, labels, std)(k - 1));
    }
}

/// A percentage times the whole is a hundred times the part.
pub proof fn lemma_percent<A: Arith>(k: nat, n: nat)
    requires
        faithful::<A>(),
        0 < n <= u64::MAX,
        k <= u64::MAX,
        counts_fit64(n + k),
        fits64(100real * (k as real)),
        fits64(100real * (k as real) / (n as real)),
    ensures
        percent_of::<A>(k as int, n as int).finite(),
        percent_of::<A>(k as int, n as int).amount() * (n as real) == 100real * (k as real),
{
    let hundred = F64 { bits: HUNDRED64 };
    lemma_shown_constants();
    lemma_count_fits(n + k, k);
    lemma_count_fits(n + k, n);
    lemma_counted64::<A>(k as u64);
    lemma_counted64::<A>(n as u64);
    lemma_product64::<A>(hundred, counted64::<A>(k as u64));
    lemma_quotient64::<A>(
        product64::<A>(hundred, counted64::<A>(k as u64)),
        counted64::<A>(n as u64),
    );
    let p = percent_of::<A>(k as int, n as int).amount();
    let x = 100real * (k as real);
    let y = n as real;
    assert(p * y == x) by (nonlinear_arith)
        requires
            p == x / y,
            y > 0real,
    ;
}

/// The size of the difference of two series at place `i`.
pub open spec fn apart(a: Seq<F32>, b: Seq<F32>, i: int) -> real {
    let d = a[i].amount() - b[i].amount();
    if d < 0real {
        -d
    } else {
        d
    }
}

/// The largest difference of two series is as large as any, and the difference at some place.
pub proof fn lemma_largest_gap<A: Arith>(a: Seq<F32>, b: Seq<F32>, k: nat)
    requires
        faithful::<A>(),
        k <= a.len(),
        k <= b.len(),
        forall|i: int|
            0 <= i < k ==> (#[trigger] a[i]).finite() && b[i].finite() && fits32(
                a[i].amount() - b[i].amount(),
            ),
    ensures
        largest_gap::<A>(a, b, k).finite(),
        0real <= largest_gap::<A>(a, b, k).amount(),
        forall|i: int|
            0 <= i < k ==> #[trigger] apart(a, b, i) <= largest_gap::<A>(a, b, k).amount(),
        largest_gap::<A>(a, b, k).amount() != 0real ==> exists|i: int|
            0 <= i < k && #[trigger] apart(a, b, i) == largest_gap::<A>(a, b, k).amount(),
    decreases k,
{
    lemma_constants();
    if k > 0 {
        lemma_largest_gap::<A>(a, b, (k - 1) as nat);
        let before = largest_gap::<A>(a, b, (k - 1) as nat);
        let x = a[k - 1];
        let y = b[k - 1];
        assert(x.finite());
        lemma_difference32::<A>(x, y);
        let d = difference32::<A>(x, y);
        lemma_sign32(d);
        lemma_order32(before, d.absolute());
        let now = largest_gap::<A>(a, b, k);
        assert(apart(a, b, k - 1) == d.absolute().amount());
        assert forall|i: int| 0 <= i < k implies #[trigger] apart(a, b, i) <= now.amount() by {
            if i < k - 1 {
                assert(apart(a, b, i) <= before.amount());
            }
        }
        if now.amount() != 0real && now == before {
            let i = choose|i: int|
                0 <= i < (k - 1) as nat && #[trigger] apart(a, b, i) == before.amount();
            assert(0 <= i < k && apart(a, b, i) == now.amount());
        }
    }
}

/// Batches are timed in their order, none larger than asked for or than there are rows, and none
/// that has rows is left out.
pub proof fn lemma_timed(batches: Seq<usize>, rows: int, k: nat)
    requires
        0 <= rows <= usize::MAX,
        k <= batches.len(),
    ensures
        timed(batches, rows, k).len() <= k,
        forall|i: int|
            0 <= i < timed(batches, rows, k).len() ==> 1 <= #[trigger] timed(batches, rows, k)[i]
                <= rows,
        (forall|j: int| 0 <= j < k ==> 0 < #[trigger] batches[j] <= rows) ==> timed(
            batches,
            rows,
            k,
        ) == batches.take(k as int),
        rows > 0 && k > 0 && batches[k - 1] > 0 ==> timed(batches, rows, k).last() == if batches[k
            - 1] < rows {
            batches[k - 1] as int
        } else {
            rows
        },
        k > 0 && (rows == 0 || batches[k - 1] == 0) ==> timed(batches, rows, k) == timed(
            batches,
            rows,
            (k - 1) as nat,
        ),
    decreases k,
{
    if k > 0 {
        lemma_timed(batches, rows, (k - 1) as nat);
        assert(batches.take(k as int) =~= batches.take(k - 1).push(batches[k - 1]));
    } else {
        assert(batches.take(0) =~= Seq::<usize>::empty());
    }
}

/// Reused buffers hold one row at least, and else no more rows than asked for or than there are.
pub proof fn lemma_reused(asked: int, rows: int)
    ensures
        1 <= reused_size(asked, rows),
        reused_size(asked, rows) == 1 || (reused_size(asked, rows) <= asked && reused_size(
            asked,
            rows,
        ) <= rows),
        reused_size(asked, rows) >= asked || reused_size(asked, rows) >= rows,
{
}

} // verus!
