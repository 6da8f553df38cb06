//! What is reported of a fit: important features, predictive intervals, and the sizes of the
//! batches that inference is timed with.

use vstd::prelude::*;

use crate::arith::add64;
use crate::arith::count64;
use crate::arith::counted64;
use crate::arith::deterministic;
use crate::arith::difference32;
use crate::arith::div64;
use crate::arith::mul32;
use crate::arith::mul64;
use crate::arith::product32;
use crate::arith::product64;
use crate::arith::quotient64;
use crate::arith::sub32;
use crate::arith::sum64;
use crate::arith::widen;
use crate::arith::widened;
use crate::arith::Arith;
use crate::float::BILLIONTH64;
use crate::float::F32;
use crate::float::F64;
use crate::float::HALF32;
use crate::order::lemma_order_covers;
use crate::order::lemma_order_exists;
use crate::order::order_of;
use crate::order::sort_order;

verus! {

/// The number of features that are shown.
pub const TOP_FEATURES: usize = 8;

/// Bits of a hundred in double precision.
pub const HUNDRED64: u64 = 0x4059_0000_0000_0000;

/// Bits of 1.96 in single precision: the standard deviations that 95 of 100 normal values are
/// within.
pub const INTERVAL32: u32 = 0x3FFA_E148;

/// The features from the most important one down; of equally important ones the first comes
/// first.
pub open spec fn ranked(gain: Seq<F32>) -> Seq<usize> {
    order_of(Seq::new(gain.len(), |f: int| gain[f].opposite()))
}

/// How many of the features from place `k` down the ranking on are shown: those that have
/// gained anything, up to a number.
pub open spec fn shown_from(gain: Seq<F32>, k: int) -> nat
    decreases gain.len() - k,
{
    if k >= gain.len() || k >= TOP_FEATURES || gain[ranked(gain)[k] as int].at_most(F32 { bits: 0 }) {
        0
    } else {
        1 + shown_from(gain, k + 1)
    }
}

/// The features that are shown.
pub open spec fn shown(gain: Seq<F32>) -> Seq<usize> {
    ranked(gain).take(shown_from(gain, 0) as int)
}

proof fn lemma_shown(gain: Seq<F32>, k: int)
    requires
        0 <= k,
    ensures
        shown_from(gain, k) > 0 ==> k + shown_from(gain, k) <= gain.len(),
        shown_from(gain, k) > 0 ==> k + shown_from(gain, k) <= TOP_FEATURES,
        forall|i: int|
            k <= i < k + shown_from(gain, k) ==> !gain[#[trigger] ranked(gain)[i] as int].at_most(
                F32 { bits: 0 },
            ),
        k + shown_from(gain, k) < gain.len() && k + shown_from(gain, k) < TOP_FEATURES
            ==> gain[ranked(gain)[k + shown_from(gain, k)] as int].at_most(F32 { bits: 0 }),
    decreases gain.len() - k,
{
    if k < gain.len() && k < TOP_FEATURES {
        lemma_shown(gain, k + 1);
    }
}

/// Only features that have gained something are shown, none twice, and no feature that is left
/// out has gained more than one that is shown; one that has gained something is left out only
/// where as many are shown as can be.
pub proof fn lemma_shown_features(gain: Seq<F32>, f: int)
    requires
        gain.len() <= usize::MAX,
        forall|k: int| 0 <= k < gain.len() ==> !(#[trigger] gain[k]).nan(),
        0 <= f < gain.len(),
    ensures
        shown(gain).len() <= TOP_FEATURES,
        shown(gain).no_duplicates(),
        forall|i: int|
            0 <= i < shown(gain).len() ==> (#[trigger] shown(gain)[i]) < gain.len() && (F32 {
                bits: 0,
            }).below(gain[shown(gain)[i] as int]),
        !shown(gain).contains(f as usize) ==> forall|i: int|
            0 <= i < shown(gain).len() ==> gain[f].at_most(
                gain[(#[trigger] shown(gain)[i]) as int],
            ),
        !shown(gain).contains(f as usize) && (F32 { bits: 0 }).below(gain[f]) ==> shown(gain).len()
            == TOP_FEATURES,
{
    let keys = Seq::new(gain.len(), |f: int| gain[f].opposite());
    lemma_order_exists(keys);
    lemma_shown(gain, 0);
    let n = shown_from(gain, 0);
    let order = ranked(gain);
    assert forall|a: int| 0 <= a < gain.len() implies #[trigger] keys[a].key() == -gain[a].key() by {
        let g = gain[a];
        assert(!g.nan());
    }
    lemma_order_covers(keys, order, f);
    let p = choose|p: int| 0 <= p < order.len() && order[p] == f as usize;
    if !shown(gain).contains(f as usize) {
        assert(p >= n) by {
            if p < n {
                assert(shown(gain)[p] == f as usize);
            }
        }
        assert forall|i: int| 0 <= i < shown(gain).len() implies gain[f].at_most(
            gain[(#[trigger] shown(gain)[i]) as int],
        ) by {
            assert(crate::order::precedes(keys, order[i] as int, order[p] as int));
            assert(keys[order[i] as int].key() == -gain[order[i] as int].key());
            assert(keys[f].key() == -gain[f].key());
        }
        if n < TOP_FEATURES {
            let next = order[n as int] as int;
            assert(gain[next].at_most(F32 { bits: 0 }));
            if p > n {
                assert(crate::order::precedes(keys, order[n as int] as int, order[p] as int));
                assert(keys[next].key() == -gain[next].key());
                assert(keys[f].key() == -gain[f].key());
            }
        }
    }
    assert forall|i: int, j: int|
        0 <= i < shown(gain).len() && 0 <= j < shown(gain).len() && i != j implies shown(gain)[i]
        != shown(gain)[j] by {
        if i < j {
            assert(crate::order::precedes(keys, order[i] as int, order[j] as int));
        } else {
            assert(crate::order::precedes(keys, order[j] as int, order[i] as int));
        }
    }
}

/// The most important features: from the one with the largest gain down, those that have
/// gained anything, eight at most.
pub fn top_features(gain: &[F32]) -> (top: Vec<usize>)
    requires
        forall|k: int| 0 <= k < gain@.len() ==> !(#[trigger] gain@[k]).nan(),
    ensures
        top@ == shown(gain@),
{
    let mut keys: Vec<F32> = Vec::new();
    while keys.len() < gain.len()
        invariant
            keys@.len() <= gain@.len(),
            forall|f: int| 0 <= f < keys@.len() ==> #[trigger] keys@[f] == gain@[f].opposite(),
        decreases gain@.len() - keys@.len(),
    {
        let f: usize = keys.len();
        keys.push(gain[f].neg());
    }
    assert(keys@ =~= Seq::new(gain@.len(), |f: int| gain@[f].opposite()));
    let order = sort_order(keys.as_slice());
    let mut top: Vec<usize> = Vec::new();
    let zero = F32 { bits: 0 };
    let mut more = true;
    while more
        invariant
            order@ == ranked(gain@),
            order@.len() == gain@.len(),
            forall|i: int| 0 <= i < order@.len() ==> #[trigger] order@[i] < gain@.len(),
            zero.bits == 0,
            top@.len() <= gain@.len(),
            top@ == order@.take(top@.len() as int),
            more ==> shown_from(gain@, 0) == top@.len() + shown_from(gain@, top@.len() as int),
            !more ==> shown_from(gain@, 0) == top@.len(),
        decreases
            gain@.len() - top@.len(),
            if more {
                1int
            } else {
                0int
            },
    {
        let k: usize = top.len();
        if k >= gain.len() || k >= TOP_FEATURES {
            more = false;
        } else {
            let f: usize = order[k];
            if zero.not_less(gain[f]) {
                more = false;
            } else {
                top.push(f);
                assert(top@ =~= order@.take(top@.len() as int));
            }
        }
    }
    top
}

/// The sum of numbers in double precision, in their order.
pub open spec fn wide_sum<A: Arith>(vals: Seq<F32>, k: nat) -> F64
    decreases k,
{
    if k == 0 {
        F64 { bits: 0 }
    } else {
        sum64::<A>(wide_sum::<A>(vals, (k - 1) as nat), widened::<A>(vals[k - 1]))
    }
}

/// The sum of numbers in double precision.
pub fn total_gain<A: Arith>(vals: &[F32]) -> (t: F64)
    ensures
        deterministic::<A>() ==> t == wide_sum::<A>(vals@, vals@.len()),
{
    let mut t = F64 { bits: 0 };
    let mut i: usize = 0;
    while i < vals.len()
        invariant
            i <= vals@.len(),
            deterministic::<A>() ==> t == wide_sum::<A>(vals@, i as nat),
        decreases vals@.len() - i,
    {
        t = add64::<A>(t, widen::<A>(vals[i]));
        i = i + 1;
    }
    t
}

/// A gain in percent of all gains, which count as a billionth at least.
pub open spec fn share_of<A: Arith>(gain: F32, total: F64) -> F64 {
    quotient64::<A>(
        product64::<A>(F64 { bits: HUNDRED64 }, widened::<A>(gain)),
        total.larger(F64 { bits: BILLIONTH64 }),
    )
}

/// A gain in percent of all gains.
pub fn gain_share<A: Arith>(gain: F32, total: F64) -> (r: F64)
    ensures
        deterministic::<A>() ==> r == share_of::<A>(gain, total),
{
    div64::<A>(
        mul64::<A>(F64 { bits: HUNDRED64 }, widen::<A>(gain)),
        total.max(F64 { bits: BILLIONTH64 }),
    )
}

/// The mean of numbers in double precision.
pub open spec fn wide_mean<A: Arith>(vals: Seq<F32>) -> F64 {
    quotient64::<A>(wide_sum::<A>(vals, vals.len()), counted64::<A>(vals.len() as u64))
}

/// The mean of numbers in double precision.
pub fn mean_deviation<A: Arith>(vals: &[F32]) -> (m: F64)
    ensures
        deterministic::<A>() ==> m == wide_mean::<A>(vals@),
{
    div64::<A>(total_gain::<A>(vals), count64::<A>(vals.len() as u64))
}

/// A label is within the predictive interval about a score.
pub open spec fn covered<A: Arith>(score: F32, label: F32, std: F32) -> bool {
    difference32::<A>(score, label).absolute().at_most(
        product32::<A>(F32 { bits: INTERVAL32 }, std),
    )
}

/// The number of labels within their interval, among the first `k`.
pub open spec fn covered_count<A: Arith>(
    scores: Seq<F32>,
    labels: Seq<F32>,
    std: Seq<F32>,
    k: nat,
) -> nat
    decreases k,
{
    if k == 0 {
        0
    } else {
        covered_count::<A>(scores, labels, std, (k - 1) as nat) + if covered::<A>(
            scores[k - 1],
            labels[k - 1],
            std[k - 1],
        ) {
            1nat
        } else {
            0nat
        }
    }
}

/// The smallest of three lengths.
pub open spec fn shortest(a: nat, b: nat, c: nat) -> nat {
    if a <= b && a <= c {
        a
    } else if b <= c {
        b
    } else {
        c
    }
}

/// The number of labels within the predictive interval about their score.
pub fn count_covered<A: Arith>(scores: &[F32], labels: &[F32], std: &[F32]) -> (n: usize)
    ensures
        n <= scores@.len(),
        deterministic::<A>() ==> n == covered_count::<A>(
            scores@,
            labels@,
            std@,
            shortest(scores@.len(), labels@.len(), std@.len()),
        ),
{
    let mut n: usize = 0;
    let mut i: usize = 0;
    while i < scores.len() && i < labels.len() && i < std.len()
        invariant
            i <= scores@.len(),
            i <= labels@.len(),
            i <= std@.len(),
            n <= i,
            deterministic::<A>() ==> n == covered_count::<A>(scores@, labels@, std@, i as nat),
        decreases scores@.len() - i,
    {
        let off = sub32::<A>(scores[i], labels[i]).abs();
        let reach = mul32::<A>(F32 { bits: INTERVAL32 }, std[i]);
        if reach.not_less(off) {
            n = n + 1;
        }
        i = i + 1;
    }
    n
}

/// A count in percent of another.
pub open spec fn percent_of<A: Arith>(covered: int, n: int) -> F64 {
    quotient64::<A>(
        product64::<A>(F64 { bits: HUNDRED64 }, counted64::<A>(covered as u64)),
        counted64::<A>(n as u64),
    )
}

/// The share of labels within the interval, in percent of the number of deviations.
pub fn coverage<A: Arith>(covered: usize, n: usize) -> (r: F64)
    ensures
        deterministic::<A>() ==> r == percent_of::<A>(covered as int, n as int),
{
    div64::<A>(
        mul64::<A>(F64 { bits: HUNDRED64 }, count64::<A>(covered as u64)),
        count64::<A>(n as u64),
    )
}

/// The largest difference between the first `k` numbers of two series.
pub open spec fn largest_gap<A: Arith>(a: Seq<F32>, b: Seq<F32>, k: nat) -> F32
    decreases k,
{
    if k == 0 {
        F32 { bits: 0 }
    } else {
        largest_gap::<A>(a, b, (k - 1) as nat).larger(
            difference32::<A>(a[k - 1], b[k - 1]).absolute(),
        )
    }
}

/// The largest difference between two series of scores.
pub fn max_difference<A: Arith>(a: &[F32], b: &[F32]) -> (d: F32)
    ensures
        deterministic::<A>() ==> d == largest_gap::<A>(
            a@,
            b@,
            if a@.len() < b@.len() {
                a@.len()
            } else {
                b@.len()
            },
        ),
{
    let mut d = F32 { bits: 0 };
    let mut i: usize = 0;
    while i < a.len() && i < b.len()
        invariant
            i <= a@.len(),
            i <= b@.len(),
            deterministic::<A>() ==> d == largest_gap::<A>(a@, b@, i as nat),
        decreases a@.len() - i,
    {
        d = d.max(sub32::<A>(a[i], b[i]).abs());
        i = i + 1;
    }
    d
}

/// The smaller of two counts.
pub open spec fn least(a: int, b: int) -> int {
    if a < b {
        a
    } else {
        b
    }
}

/// The batches that are timed: those asked for, no larger than there are rows, and none that
/// is empty.
pub open spec fn timed(batches: Seq<usize>, rows: int, k: nat) -> Seq<usize>
    decreases k,
{
    if k == 0 {
        Seq::empty()
    } else {
        let before = timed(batches, rows, (k - 1) as nat);
        if batches[k - 1] == 0 || rows == 0 {
            before
        } else {
            before.push(least(batches[k - 1] as int, rows) as usize)
        }
    }
}

/// The batches that are timed.
pub fn timed_batches(batches: &[usize], rows: usize) -> (r: Vec<usize>)
    ensures
        r@ == timed(batches@, rows as int, batches@.len()),
{
    let mut r: Vec<usize> = Vec::new();
    let mut i: usize = 0;
    while i < batches.len()
        invariant
            i <= batches@.len(),
            r@ == timed(batches@, rows as int, i as nat),
        decreases batches@.len() - i,
    {
        let b: usize = if batches[i] < rows {
            batches[i]
        } else {
            rows
        };
        if b > 0 {
            r.push(b);
        }
        i = i + 1;
    }
    r
}

/// The size of a batch for reused buffers: as asked for, no larger than there are rows, and at
/// least one.
pub open spec fn reused_size(asked: int, rows: int) -> int {
    if least(asked, rows) < 1 {
        1
    } else {
        least(asked, rows)
    }
}

/// The size of a batch for reused buffers.
pub fn reused_batch(asked: usize, rows: usize) -> (b: usize)
    ensures
        b == reused_size(asked as int, rows as int),
{
    let b: usize = if asked < rows {
        asked
    } else {
        rows
    };
    if b < 1 {
        1
    } else {
        b
    }
}

/// The largest of the first `k` counts, and `start`.
pub open spec fn largest(start: int, vals: Seq<usize>, k: nat) -> int
    decreases k,
{
    if k == 0 {
        start
    } else {
        let before = largest(start, vals, (k - 1) as nat);
        if before < vals[k - 1] {
            vals[k - 1] as int
        } else {
            before
        }
    }
}

/// The rows that reused buffers have to hold.
pub open spec fn reused_rows(batches: Seq<usize>, rows: int) -> int {
    reused_size(
        if batches.len() == 0 {
            1
        } else {
            largest(0, batches, batches.len())
        },
        rows,
    )
}

/// The rows that reused buffers have to hold.
pub fn largest_batch(batches: &[usize], rows: usize) -> (r: usize)
    ensures
        r == reused_rows(batches@, rows as int),
{
    let mut most: usize = 0;
    let mut i: usize = 0;
    while i < batches.len()
        invariant
            i <= batches@.len(),
            most == largest(0, batches@, i as nat),
        decreases batches@.len() - i,
    {
        if most < batches[i] {
            most = batches[i];
        }
        i = i + 1;
    }
    reused_batch(
        if batches.len() == 0 {
            1
        } else {
            most
        },
        rows,
    )
}

/// Every batch fits the buffers that are reused.
pub proof fn lemma_batches_fit(batches: Seq<usize>, rows: int, i: int)
    requires
        0 <= i < batches.len(),
    ensures
        1 <= reused_size(batches[i] as int, rows) <= reused_rows(batches, rows),
{
    lemma_largest(0, batches, batches.len(), i);
}

proof fn lemma_largest(start: int, vals: Seq<usize>, k: nat, i: int)
    requires
        0 <= i < k <= vals.len(),
    ensures
        vals[i] <= largest(start, vals, k),
    decreases k,
{
    if i < k - 1 {
        lemma_largest(start, vals, (k - 1) as nat, i);
    }
}

/// How often scoring a batch on the host is timed.
pub fn host_repeats(batch: usize) -> (r: usize)
    ensures
        r == (if batch <= 64 {
            5000int
        } else {
            200int
        }),
{
    if batch <= 64 {
        5000
    } else {
        200
    }
}

/// Every count is within a half of what is expected.
pub fn counts_match<A: Arith>(got: &[F32], expected: F32) -> (r: bool)
    ensures
        deterministic::<A>() ==> r == (forall|i: int|
            0 <= i < got@.len() ==> difference32::<A>(
                #[trigger] got@[i],
                expected,
            ).absolute().below(F32 { bits: HALF32 })),
{
    let mut i: usize = 0;
    while i < got.len()
        invariant
            i <= got@.len(),
            deterministic::<A>() ==> forall|k: int|
                0 <= k < i ==> difference32::<A>(#[trigger] got@[k], expected).absolute().below(
                    F32 { bits: HALF32 },
                ),
        decreases got@.len() - i,
    {
        if !sub32::<A>(got[i], expected).abs().less(F32 { bits: HALF32 }) {
            return false;
        }
        i = i + 1;
    }
    true
}

/// What has become of the rows that a sweep asked to time.
#[derive(Clone, Copy, PartialEq, Eq, Debug, Structural)]
pub enum SweepEvent {
    /// Nothing has been asked yet.
    Start,
    /// Scoring a row took as many nanoseconds.
    Timed(F64),
    /// There is no room for the rows.
    NoRoom,
}

/// What to do next in a sweep.
#[derive(Clone, Copy, PartialEq, Eq, Debug, Structural)]
pub enum SweepStep {
    /// Make room for as many rows, and time scoring them.
    Time(usize),
    /// Report the results.
    Done,
}

/// A sweep over numbers of rows that are scored on a device: numbers that cannot be written as
/// a 32-bit word are passed over, and the first for which there is no room ends the sweep.
pub struct Sweep {
    pub rows: Vec<usize>,
    /// The place of the number that is being timed.
    pub next: usize,
    /// The time per row for each number so far, where it could be timed.
    pub results: Vec<(usize, Option<F64>)>,
}

/// The first number from place `i` on that can be timed.
pub open spec fn first_timed(rows: Seq<usize>, i: int) -> int
    decreases rows.len() - i,
{
    if i >= rows.len() {
        rows.len() as int
    } else if rows[i] <= u32::MAX {
        i
    } else {
        first_timed(rows, i + 1)
    }
}

/// The results for the numbers from place `i` to place `k`, which are passed over.
pub open spec fn passed_over(rows: Seq<usize>, i: int, k: int) -> Seq<(usize, Option<F64>)> {
    Seq::new(
        if i < k {
            (k - i) as nat
        } else {
            0
        },
        |q: int| (rows[i + q], None),
    )
}

impl Sweep {
    /// There is a result for each number before the one that is being timed, in their order.
    pub open spec fn well_formed(self) -> bool {
        &&& self.next <= self.rows@.len()
        &&& self.results@.len() <= self.rows@.len()
        &&& self.next < self.rows@.len() ==> self.results@.len() == self.next
        &&& forall|k: int|
            0 <= k < self.results@.len() ==> (#[trigger] self.results@[k]).0 == self.rows@[k]
    }

    /// A sweep over the given numbers.
    pub fn new(rows: Vec<usize>) -> (s: Sweep)
        ensures
            s.rows == rows,
            s.next == 0,
            s.results@.len() == 0,
            s.well_formed(),
    {
        Sweep { rows, next: 0, results: Vec::new() }
    }

    /// Takes note of what has happened, and says what to do next.
    pub fn advance(&mut self, event: SweepEvent) -> (r: SweepStep)
        requires
            old(self).well_formed(),
            event != SweepEvent::Start ==> old(self).next < old(self).rows@.len(),
        ensures
            final(self).well_formed(),
            final(self).rows == old(self).rows,
            ({
                let rows = old(self).rows@;
                let (from, base) = match event {
                    SweepEvent::Start => (old(self).next as int, old(self).results@),
                    SweepEvent::Timed(ns) => (
                        old(self).next + 1,
                        old(self).results@.push((rows[old(self).next as int], Some(ns))),
                    ),
                    SweepEvent::NoRoom => (
                        rows.len() as int,
                        old(self).results@.push((rows[old(self).next as int], None)),
                    ),
                };
                let at = first_timed(rows, from);
                &&& final(self).next == at
                &&& final(self).results@ == base + passed_over(rows, from, at)
                &&& r == (if at < rows.len() {
                    SweepStep::Time(rows[at])
                } else {
                    SweepStep::Done
                })
            }),
    {
        match event {
            SweepEvent::Start => {},
            SweepEvent::Timed(ns) => {
                let n: usize = self.rows[self.next];
                self.results.push((n, Some(ns)));
                assert(self.next < self.rows.len());
                self.next = self.next + 1;
            },
            SweepEvent::NoRoom => {
                let n: usize = self.rows[self.next];
                self.results.push((n, None));
                self.next = self.rows.len();
            },
        }
        let ghost from = self.next as int;
        let ghost base = self.results@;
        assert(base =~= base + passed_over(self.rows@, from, from));
        while self.next < self.rows.len() && self.rows[self.next] as u64 > 0xFFFF_FFFF
            invariant
                self.well_formed(),
                self.rows == old(self).rows,
                from <= self.next,
                first_timed(self.rows@, from) == first_timed(self.rows@, self.next as int),
                self.results@ == base + passed_over(self.rows@, from, self.next as int),
            decreases self.rows@.len() - self.next,
        {
            let n: usize = self.rows[self.next];
            self.results.push((n, None));
            self.next = self.next + 1;
            assert(self.results@ =~= base + passed_over(self.rows@, from, self.next as int));
        }
        if self.next < self.rows.len() {
            SweepStep::Time(self.rows[self.next])
        } else {
            SweepStep::Done
        }
    }
}

/// A sweep goes on with the first number that can be timed: all before it are too large. Where
/// none is left, it ends.
pub proof fn lemma_sweep(rows: Seq<usize>, i: int)
    requires
        0 <= i <= rows.len(),
    ensures
        i <= first_timed(rows, i) <= rows.len(),
        first_timed(rows, i) < rows.len() ==> rows[first_timed(rows, i)] <= u32::MAX,
        forall|k: int|
            i <= k < first_timed(rows, i) ==> #[trigger] rows[k] > u32::MAX,
        first_timed(rows, rows.len() as int) == rows.len(),
    decreases rows.len() - i,
{
    if i < rows.len() && rows[i] > u32::MAX {
        lemma_sweep(rows, i + 1);
    }
}

} // verus!
