//! Datasets, and the bin boundaries of their features.
//!
//! A dataset comes as a small text of named counts and four blobs of little-endian numbers.
//! Features are stored row by row.

use vstd::prelude::*;

use crate::arith::add32;
use crate::arith::count64;
use crate::arith::counted64;
use crate::arith::deterministic;
use crate::arith::div64;
use crate::arith::mul32;
use crate::arith::mul64;
use crate::arith::product32;
use crate::arith::product64;
use crate::arith::quotient64;
use crate::arith::sum32;
use crate::arith::Arith;
use crate::binning::ascending;
use crate::binning::bounds_of;
use crate::float::F32;
use crate::float::HALF32;
use crate::float::INFINITY32;
use crate::order::lemma_order_exists;
use crate::order::lemma_sorted_ascends;
use crate::order::lemma_sorted_permuted;
use crate::order::permutes;
use crate::order::sort_order;
use crate::order::sorted;
use crate::text::all_digits;
use crate::text::chars_of;
use crate::text::digits_value;
use crate::text::find;
use crate::text::is_digit;
use crate::text::stands_at;
use crate::words::numbers_in;
use crate::words::read_word32;

verus! {

/// A training set and a test set.
pub struct Dataset {
    pub n_train: usize,
    pub n_test: usize,
    pub n_features: usize,
    /// Row-major train features, `n_train * n_features` of them.
    pub x_train: Vec<F32>,
    pub y_train: Vec<F32>,
    /// Row-major test features, `n_test * n_features` of them.
    pub x_test: Vec<F32>,
    pub y_test: Vec<F32>,
}

impl Dataset {
    /// The sizes belong together.
    pub open spec fn well_formed(self) -> bool {
        &&& self.x_train@.len() == self.n_train * self.n_features
        &&& self.y_train@.len() == self.n_train
        &&& self.x_test@.len() == self.n_test * self.n_features
        &&& self.y_test@.len() == self.n_test
    }
}

/// The blobs of a dataset.
#[derive(Clone, Copy, PartialEq, Eq, Debug, Structural)]
pub enum Blob {
    XTrain,
    YTrain,
    XTest,
    YTest,
}

/// The counts of a dataset.
#[derive(Clone, Copy, PartialEq, Eq, Debug, Structural)]
pub enum Count {
    Train,
    Test,
    Features,
}

/// What is wrong with a named count.
#[derive(Clone, Copy, PartialEq, Eq, Debug, Structural)]
pub enum MetaError {
    /// The text does not have the name.
    Missing,
    /// No number follows the name, or one that does not fit.
    BadInt,
}

/// What is wrong with a dataset.
#[derive(Clone, Copy, PartialEq, Eq, Debug, Structural)]
pub enum DataError {
    /// A count cannot be read.
    Meta(Count, MetaError),
    /// A blob is not made of whole numbers of four bytes.
    Unaligned(Blob),
    /// A blob has not as many numbers as the counts say.
    SizeMismatch(Blob),
}

/// A name in quotation marks.
pub open spec fn quoted(key: Seq<char>) -> Seq<char> {
    seq!['"'] + key + seq!['"']
}

/// The first place, from `i` on, at which `pat` stands in `s`.
pub open spec fn place_from(s: Seq<char>, pat: Seq<char>, i: int) -> Option<int>
    decreases s.len() + 1 - i,
{
    if i + pat.len() > s.len() {
        None
    } else if stands_at(s, pat, i) {
        Some(i)
    } else {
        place_from(s, pat, i + 1)
    }
}

/// The text from its first digit on.
pub open spec fn from_digit(s: Seq<char>) -> Seq<char>
    decreases s.len(),
{
    if s.len() == 0 || is_digit(s[0]) {
        s
    } else {
        from_digit(s.skip(1))
    }
}

/// The digits that the text begins with.
pub open spec fn leading_digits(s: Seq<char>) -> Seq<char>
    decreases s.len(),
{
    if s.len() > 0 && is_digit(s[0]) {
        seq![s[0]] + leading_digits(s.skip(1))
    } else {
        Seq::empty()
    }
}

/// The count of a given name in a text: the first number after the first mention of the name
/// in quotation marks.
pub open spec fn meta_value(text: Seq<char>, key: Seq<char>) -> Result<nat, MetaError> {
    match place_from(text, quoted(key), 0) {
        None => Err(MetaError::Missing),
        Some(i) => {
            let digits = leading_digits(from_digit(text.skip(i + quoted(key).len())));
            if digits.len() == 0 || digits_value(digits) > usize::MAX {
                Err(MetaError::BadInt)
            } else {
                Ok(digits_value(digits))
            }
        },
    }
}

/// The first place is where the pattern stands and none before it does.
proof fn lemma_place(s: Seq<char>, pat: Seq<char>, low: int, i: int)
    requires
        0 <= low <= i,
        stands_at(s, pat, i),
        forall|j: int| 0 <= j < i ==> !#[trigger] stands_at(s, pat, j),
    ensures
        place_from(s, pat, low) == Some(i),
    decreases i - low,
{
    if low < i {
        assert(!stands_at(s, pat, low));
        lemma_place(s, pat, low + 1, i);
    }
}

/// There is no place where the pattern does not stand.
proof fn lemma_no_place(s: Seq<char>, pat: Seq<char>, low: int)
    requires
        0 <= low,
        forall|j: int| !#[trigger] stands_at(s, pat, j),
    ensures
        place_from(s, pat, low) is None,
    decreases s.len() + 1 - low,
{
    if low + pat.len() <= s.len() {
        assert(!stands_at(s, pat, low));
        lemma_no_place(s, pat, low + 1);
    }
}

/// Digits up to the first other character are what a text begins with.
proof fn lemma_leading(s: Seq<char>, k: int)
    requires
        0 <= k <= s.len(),
        all_digits(s.take(k)),
        k == s.len() || !is_digit(s[k]),
    ensures
        leading_digits(s) == s.take(k),
    decreases k,
{
    if k > 0 {
        assert(is_digit(s.take(k)[0]));
        let rest = s.skip(1);
        assert forall|j: int| 0 <= j < k - 1 implies is_digit(#[trigger] rest.take(k - 1)[j]) by {
            assert(s.take(k)[j + 1] == rest.take(k - 1)[j]);
        }
        lemma_leading(rest, k - 1);
        assert(seq![s[0]] + rest.take(k - 1) =~= s.take(k));
    } else {
        assert(s.take(0) =~= Seq::<char>::empty());
    }
}

/// Reads the count of a given name out of a text.
pub fn meta_int(text: &str, key: &str) -> (r: Result<usize, MetaError>)
    ensures
        match r {
            Ok(v) => meta_value(text@, key@) == Ok::<nat, MetaError>(v as nat),
            Err(e) => meta_value(text@, key@) == Err::<nat, MetaError>(e),
        },
{
    let chars = chars_of(text);
    let mut pat: Vec<char> = Vec::new();
    pat.push('"');
    let mut inner = chars_of(key);
    pat.append(&mut inner);
    pat.push('"');
    assert(pat@ =~= quoted(key@));
    let start: usize = match find(chars.as_slice(), pat.as_slice()) {
        Some(i) => i,
        None => {
            proof {
                lemma_no_place(text@, quoted(key@), 0);
            }
            return Err(MetaError::Missing);
        },
    };
    proof {
        lemma_place(text@, quoted(key@), 0, start as int);
    }
    assert(chars.len() >= start + pat@.len());
    let mut i: usize = start + pat.len();
    let ghost rest = text@.skip(i as int);
    while i < chars.len() && !('0' <= chars[i] && chars[i] <= '9')
        invariant
            chars@ == text@,
            i <= chars@.len(),
            from_digit(text@.skip(i as int)) == from_digit(rest),
        decreases chars@.len() - i,
    {
        assert(text@.skip(i as int).skip(1) =~= text@.skip(i + 1));
        i = i + 1;
    }
    let ghost tail = text@.skip(i as int);
    assert(from_digit(tail) == tail);
    let first: usize = i;
    let mut v: u64 = 0;
    let mut fits = true;
    assert(tail.take(0) =~= Seq::<char>::empty());
    while i < chars.len() && '0' <= chars[i] && chars[i] <= '9'
        invariant
            chars@ == text@,
            first <= i <= chars@.len(),
            tail == text@.skip(first as int),
            all_digits(tail.take(i - first)),
            fits ==> v == digits_value(tail.take(i - first)) && v <= usize::MAX,
            !fits ==> digits_value(tail.take(i - first)) > usize::MAX,
        decreases chars@.len() - i,
    {
        let d: u64 = chars[i] as u64 - '0' as u64;
        let ghost upto = tail.take(i - first);
        let ghost next = tail.take(i + 1 - first);
        proof {
            assert(next.drop_last() =~= upto);
            assert(next.last() == chars@[i as int]);
            assert forall|k: int| 0 <= k < next.len() implies is_digit(#[trigger] next[k]) by {
                if k < upto.len() {
                    assert(is_digit(upto[k]));
                }
            }
        }
        if fits {
            if v > (usize::MAX as u64 - d) / 10 {
                fits = false;
            } else {
                v = v * 10 + d;
            }
        }
        i = i + 1;
    }
    proof {
        assert(i < chars@.len() ==> tail[i - first] == chars@[i as int]);
        lemma_leading(tail, i - first);
        assert(tail.take(i - first).len() == i - first);
    }
    if i == first || !fits {
        Err(MetaError::BadInt)
    } else {
        Ok(v as usize)
    }
}

/// The numbers whose bits a blob holds; nothing where bytes are left over.
pub fn read_f32_blob(bytes: &[u8]) -> (r: Option<Vec<F32>>)
    ensures
        match r {
            Some(v) => bytes@.len() % 4 == 0 && v@ == numbers_in(bytes@),
            None => bytes@.len() % 4 != 0,
        },
{
    if bytes.len() % 4 != 0 {
        return None;
    }
    let n: usize = bytes.len() / 4;
    let mut v: Vec<F32> = Vec::new();
    let mut i: usize = 0;
    while i < n
        invariant
            n == bytes@.len() / 4,
            i <= n,
            v@.len() == i,
            forall|k: int| 0 <= k < i ==> #[trigger] v@[k] == numbers_in(bytes@)[k],
        decreases n - i,
    {
        assert(bytes.len() >= 4 * i + 4);
        v.push(F32 { bits: read_word32(bytes, 4 * i) });
        i = i + 1;
    }
    assert(v@ =~= numbers_in(bytes@));
    Some(v)
}

/// The product of two counts is the given one.
fn makes(a: usize, b: usize, product: usize) -> (r: bool)
    ensures
        r == (a * b == product),
{
    match a.checked_mul(b) {
        Some(p) => p == product,
        None => false,
    }
}

/// What a dataset with the given text of counts and the given blobs is, or why it is none.
/// The counts are read before the blobs, and the blobs before their sizes are compared.
pub open spec fn dataset_error(
    meta: Seq<char>,
    x_train: Seq<u8>,
    y_train: Seq<u8>,
    x_test: Seq<u8>,
    y_test: Seq<u8>,
) -> Option<DataError> {
    let n_train = meta_value(meta, "n_train"@);
    let n_test = meta_value(meta, "n_test"@);
    let n_features = meta_value(meta, "n_features"@);
    if n_train is Err {
        Some(DataError::Meta(Count::Train, n_train->Err_0))
    } else if n_test is Err {
        Some(DataError::Meta(Count::Test, n_test->Err_0))
    } else if n_features is Err {
        Some(DataError::Meta(Count::Features, n_features->Err_0))
    } else if x_train.len() % 4 != 0 {
        Some(DataError::Unaligned(Blob::XTrain))
    } else if y_train.len() % 4 != 0 {
        Some(DataError::Unaligned(Blob::YTrain))
    } else if x_test.len() % 4 != 0 {
        Some(DataError::Unaligned(Blob::XTest))
    } else if y_test.len() % 4 != 0 {
        Some(DataError::Unaligned(Blob::YTest))
    } else if x_train.len() / 4 != n_train->Ok_0 * n_features->Ok_0 {
        Some(DataError::SizeMismatch(Blob::XTrain))
    } else if y_train.len() / 4 != n_train->Ok_0 {
        Some(DataError::SizeMismatch(Blob::YTrain))
    } else if x_test.len() / 4 != n_test->Ok_0 * n_features->Ok_0 {
        Some(DataError::SizeMismatch(Blob::XTest))
    } else if y_test.len() / 4 != n_test->Ok_0 {
        Some(DataError::SizeMismatch(Blob::YTest))
    } else {
        None
    }
}

impl Dataset {
    /// The dataset with the given text of counts and the given blobs.
    pub fn load(
        meta: &str,
        x_train: &[u8],
        y_train: &[u8],
        x_test: &[u8],
        y_test: &[u8],
    ) -> (r: Result<Dataset, DataError>)
        ensures
            match r {
                Ok(d) => {
                    &&& dataset_error(meta@, x_train@, y_train@, x_test@, y_test@) is None
                    &&& d.well_formed()
                    &&& meta_value(meta@, "n_train"@) == Ok::<nat, MetaError>(d.n_train as nat)
                    &&& meta_value(meta@, "n_test"@) == Ok::<nat, MetaError>(d.n_test as nat)
                    &&& meta_value(meta@, "n_features"@) == Ok::<nat, MetaError>(
                        d.n_features as nat,
                    )
                    &&& d.x_train@ == numbers_in(x_train@)
                    &&& d.y_train@ == numbers_in(y_train@)
                    &&& d.x_test@ == numbers_in(x_test@)
                    &&& d.y_test@ == numbers_in(y_test@)
                },
                Err(e) => dataset_error(meta@, x_train@, y_train@, x_test@, y_test@) == Some(e),
            },
    {
        let n_train: usize = match meta_int(meta, "n_train") {
            Ok(v) => v,
            Err(e) => {
                return Err(DataError::Meta(Count::Train, e));
            },
        };
        let n_test: usize = match meta_int(meta, "n_test") {
            Ok(v) => v,
            Err(e) => {
                return Err(DataError::Meta(Count::Test, e));
            },
        };
        let n_features: usize = match meta_int(meta, "n_features") {
            Ok(v) => v,
            Err(e) => {
                return Err(DataError::Meta(Count::Features, e));
            },
        };
        let x_train = match read_f32_blob(x_train) {
            Some(v) => v,
            None => {
                return Err(DataError::Unaligned(Blob::XTrain));
            },
        };
        let y_train = match read_f32_blob(y_train) {
            Some(v) => v,
            None => {
                return Err(DataError::Unaligned(Blob::YTrain));
            },
        };
        let x_test = match read_f32_blob(x_test) {
            Some(v) => v,
            None => {
                return Err(DataError::Unaligned(Blob::XTest));
            },
        };
        let y_test = match read_f32_blob(y_test) {
            Some(v) => v,
            None => {
                return Err(DataError::Unaligned(Blob::YTest));
            },
        };
        if !makes(n_train, n_features, x_train.len()) {
            return Err(DataError::SizeMismatch(Blob::XTrain));
        }
        if y_train.len() != n_train {
            return Err(DataError::SizeMismatch(Blob::YTrain));
        }
        if !makes(n_test, n_features, x_test.len()) {
            return Err(DataError::SizeMismatch(Blob::XTest));
        }
        if y_test.len() != n_test {
            return Err(DataError::SizeMismatch(Blob::YTest));
        }
        Ok(Dataset { n_train, n_test, n_features, x_train, y_train, x_test, y_test })
    }
}

/// The step between the rows that boundaries are estimated from, for a sample of the given
/// size.
pub open spec fn sample_stride(n: int, sample: int) -> int {
    let step = n / if sample < 1 {
        1
    } else {
        sample
    };
    if step < 1 {
        1
    } else {
        step
    }
}

/// The values of feature `f` in every `stride`-th row.
pub open spec fn sample_of(x: Seq<F32>, n: int, nf: int, f: int, stride: int) -> Seq<F32> {
    Seq::new(((n + stride - 1) / stride) as nat, |k: int| x[k * stride * nf + f])
}

/// The first `k` numbers of a list, those equal to the one before them left out.
pub open spec fn distinct(s: Seq<F32>, k: nat) -> Seq<F32>
    decreases k,
{
    if k == 0 {
        Seq::empty()
    } else {
        let before = distinct(s, (k - 1) as nat);
        if before.len() > 0 && before.last().equals(s[k - 1]) {
            before
        } else {
            before.push(s[k - 1])
        }
    }
}

/// The number halfway between two.
pub open spec fn midpoint<A: Arith>(a: F32, b: F32) -> F32 {
    product32::<A>(F32 { bits: HALF32 }, sum32::<A>(a, b))
}

/// The midpoints between neighbours.
pub open spec fn midpoints<A: Arith>(s: Seq<F32>) -> Seq<F32> {
    Seq::new(
        if s.len() == 0 {
            0
        } else {
            (s.len() - 1) as nat
        },
        |i: int| midpoint::<A>(s[i], s[i + 1]),
    )
}

/// Boundary `j` of `n_bound`, taken from candidates: each in its place, and infinity where
/// there are no more; or evenly spread ones where there are too many.
pub open spec fn spread_bound(cand: Seq<F32>, n_bound: int, j: int) -> F32 {
    if cand.len() <= n_bound {
        if j < cand.len() {
            cand[j]
        } else {
            F32 { bits: INFINITY32 }
        }
    } else {
        cand[(j + 1) * cand.len() / (n_bound + 1)]
    }
}

/// The quantile of rank `j + 1` out of `n_bins` in an ascending list.
pub open spec fn quantile<A: Arith>(s: Seq<F32>, n_bins: int, j: int) -> F32 {
    let last = s.len() - 1;
    let rank = quotient64::<A>(counted64::<A>((j + 1) as u64), counted64::<A>(n_bins as u64));
    let place = product64::<A>(rank, counted64::<A>(last as u64)).nearest();
    s[if place > last {
        last
    } else {
        place
    }]
}

/// Boundary `j` of an ascending list: its quantile, or the boundary before where the quantile
/// is not above that.
pub open spec fn quantile_bound<A: Arith>(s: Seq<F32>, n_bins: int, j: nat) -> F32
    decreases j,
{
    if j == 0 {
        quantile::<A>(s, n_bins, 0)
    } else {
        let before = quantile_bound::<A>(s, n_bins, (j - 1) as nat);
        let q = quantile::<A>(s, n_bins, j as int);
        if q.at_most(before) {
            before
        } else {
            q
        }
    }
}

/// The boundaries of a feature with the sampled values `vals`.
pub open spec fn feature_bounds<A: Arith>(vals: Seq<F32>, n_bins: int, unique: bool) -> Seq<F32> {
    let s = sorted(vals);
    Seq::new(
        (n_bins - 1) as nat,
        |j: int|
            if unique {
                spread_bound(midpoints::<A>(distinct(s, s.len())), n_bins - 1, j)
            } else {
                quantile_bound::<A>(s, n_bins, j as nat)
            },
    )
}

/// The boundaries of all features, feature by feature.
pub open spec fn boundaries_of<A: Arith>(
    x: Seq<F32>,
    n: int,
    nf: int,
    n_bins: int,
    sample: int,
    unique: bool,
) -> Seq<F32> {
    Seq::new(
        (nf * (n_bins - 1)) as nat,
        |i: int|
            feature_bounds::<A>(
                sample_of(x, n, nf, i / (n_bins - 1), sample_stride(n, sample)),
                n_bins,
                unique,
            )[i % (n_bins - 1)],
    )
}

/// Halfway between larger numbers of a list lies no smaller number.
pub open spec fn midpoints_monotone<A: Arith>(vals: Seq<F32>) -> bool {
    forall|a: F32, b: F32, c: F32, d: F32|
        vals.contains(a) && vals.contains(b) && vals.contains(c) && vals.contains(d) && a.at_most(c)
            && b.at_most(d) ==> (#[trigger] midpoint::<A>(a, b)).at_most(
            #[trigger] midpoint::<A>(c, d),
        )
}

/// Leaving out repeated numbers keeps a list ascending.
proof fn lemma_distinct(s: Seq<F32>, k: nat)
    requires
        k <= s.len(),
        ascending(s),
    ensures
        ascending(distinct(s, k)),
        forall|i: int| 0 <= i < distinct(s, k).len() ==> s.contains(#[trigger] distinct(s, k)[i]),
        k > 0 ==> forall|i: int|
            0 <= i < distinct(s, k).len() ==> (#[trigger] distinct(s, k)[i]).at_most(s[k - 1]),
    decreases k,
{
    if k > 0 {
        lemma_distinct(s, (k - 1) as nat);
        let before = distinct(s, (k - 1) as nat);
        let d = distinct(s, k);
        assert(s.contains(s[k - 1]));
        assert forall|i: int| 0 <= i < d.len() implies (#[trigger] d[i]).at_most(s[k - 1])
            && s.contains(d[i]) by {
            if i < before.len() {
                assert(d[i] == before[i]);
                if k > 1 {
                    assert(before[i].at_most(s[k - 2]));
                    assert(s[k - 2].at_most(s[k - 1]));
                }
            } else {
                assert(s[k - 1].at_most(s[k - 1]));
            }
        }
        assert forall|i: int, j: int| 0 <= i <= j < d.len() implies (#[trigger] d[i]).at_most(
            #[trigger] d[j],
        ) by {
            if j < before.len() {
                assert(before[i].at_most(before[j]));
            }
        }
    }
}

/// Boundaries spread over ascending candidates ascend.
proof fn lemma_spread(cand: Seq<F32>, n_bound: int, i: int, j: int)
    requires
        ascending(cand),
        0 <= i <= j < n_bound,
    ensures
        spread_bound(cand, n_bound, i).at_most(spread_bound(cand, n_bound, j)),
{
    let len = cand.len() as int;
    if len <= n_bound {
        if i < len {
            assert(cand[i].at_most(cand[i]));
            if j < len {
                assert(cand[i].at_most(cand[j]));
            } else {
                lemma_below_infinity(cand[i]);
            }
        } else {
            lemma_below_infinity(F32 { bits: INFINITY32 });
        }
    } else {
        let a = (i + 1) * len / (n_bound + 1);
        let b = (j + 1) * len / (n_bound + 1);
        assert(0 <= a <= b < len) by (nonlinear_arith)
            requires
                0 <= i <= j < n_bound,
                len > n_bound,
                a == (i + 1) * len / (n_bound + 1),
                b == (j + 1) * len / (n_bound + 1),
        ;
        assert(cand[a].at_most(cand[b]));
    }
}

/// No number exceeds infinity.
proof fn lemma_below_infinity(v: F32)
    requires
        !v.nan(),
    ensures
        v.at_most(F32 { bits: INFINITY32 }),
{
}

/// The raised quantiles of an ascending list ascend.
proof fn lemma_quantiles<A: Arith>(s: Seq<F32>, n_bins: int, i: nat, j: nat)
    requires
        s.len() > 0,
        forall|k: int| 0 <= k < s.len() ==> !(#[trigger] s[k]).nan(),
        i <= j,
    ensures
        quantile_bound::<A>(s, n_bins, i).at_most(quantile_bound::<A>(s, n_bins, j)),
    decreases j,
{
    if i < j {
        lemma_quantiles::<A>(s, n_bins, i, (j - 1) as nat);
    } else if j > 0 {
        lemma_quantiles::<A>(s, n_bins, (j - 1) as nat, (j - 1) as nat);
    }
}

/// The boundaries of a feature ascend, where no sampled value is NaN. Midpoints do so where
/// the arithmetic keeps the order of midpoints.
pub proof fn lemma_feature_bounds_ascend<A: Arith>(vals: Seq<F32>, n_bins: int, unique: bool)
    requires
        n_bins >= 1,
        0 < vals.len() <= usize::MAX,
        forall|k: int| 0 <= k < vals.len() ==> !(#[trigger] vals[k]).nan(),
        unique ==> midpoints_monotone::<A>(vals),
    ensures
        ascending(feature_bounds::<A>(vals, n_bins, unique)),
{
    lemma_sorted_ascends(vals);
    let s = sorted(vals);
    let bounds = feature_bounds::<A>(vals, n_bins, unique);
    let u = distinct(s, s.len());
    let cand = midpoints::<A>(u);
    if unique {
        lemma_distinct(s, s.len());
        assert forall|i: int, j: int| 0 <= i <= j < cand.len() implies (#[trigger] cand[i]).at_most(
            #[trigger] cand[j],
        ) by {
            assert(s.contains(u[i]) && s.contains(u[i + 1]) && s.contains(u[j]) && s.contains(
                u[j + 1],
            ));
            assert(vals.contains(u[i]) && vals.contains(u[i + 1]) && vals.contains(u[j])
                && vals.contains(u[j + 1]));
            assert(u[i].at_most(u[j]));
            assert(u[i + 1].at_most(u[j + 1]));
            assert(midpoint::<A>(u[i], u[i + 1]).at_most(midpoint::<A>(u[j], u[j + 1])));
        }
    }
    assert forall|i: int, j: int| 0 <= i <= j < bounds.len() implies (#[trigger] bounds[i]).at_most(
        #[trigger] bounds[j],
    ) by {
        if unique {
            lemma_spread(cand, n_bins - 1, i, j);
        } else {
            assert forall|k: int| 0 <= k < s.len() implies !(#[trigger] s[k]).nan() by {
                assert(s[k].at_most(s[k]));
            }
            lemma_quantiles::<A>(s, n_bins, i as nat, j as nat);
        }
    }
}

/// The boundaries of every feature ascend, where no value is NaN. Midpoints do so where the
/// arithmetic keeps the order of midpoints.
pub proof fn lemma_boundaries_ascend<A: Arith>(
    x: Seq<F32>,
    n: int,
    nf: int,
    n_bins: int,
    sample: int,
    unique: bool,
    f: int,
)
    requires
        n_bins >= 1,
        0 < n <= usize::MAX,
        x.len() == n * nf,
        0 <= f < nf,
        forall|k: int| 0 <= k < x.len() ==> !(#[trigger] x[k]).nan(),
        unique ==> midpoints_monotone::<A>(x),
    ensures
        ascending(bounds_of(boundaries_of::<A>(x, n, nf, n_bins, sample, unique), f, n_bins - 1)),
{
    let nb1 = n_bins - 1;
    let all = boundaries_of::<A>(x, n, nf, n_bins, sample, unique);
    let st = sample_stride(n, sample);
    let vals = sample_of(x, n, nf, f, st);
    assert(0 < (n + st - 1) / st <= n) by (nonlinear_arith)
        requires
            st > 0,
            n > 0,
    ;
    assert forall|k: int| 0 <= k < vals.len() implies x.contains(#[trigger] vals[k]) by {
        assert(0 <= k * st < n) by (nonlinear_arith)
            requires
                st > 0,
                0 <= k < (n + st - 1) / st,
        ;
        let i = k * st;
        assert(0 <= i * nf + f < n * nf) by (nonlinear_arith)
            requires
                0 <= i < n,
                0 <= f < nf,
        ;
        assert(vals[k] == x[k * st * nf + f]);
    }
    if unique {
        assert forall|a: F32, b: F32, c: F32, d: F32|
            vals.contains(a) && vals.contains(b) && vals.contains(c) && vals.contains(d)
                && a.at_most(c) && b.at_most(d) implies (#[trigger] midpoint::<A>(a, b)).at_most(
            #[trigger] midpoint::<A>(c, d),
        ) by {
            assert(x.contains(a) && x.contains(b) && x.contains(c) && x.contains(d));
        }
    }
    assert forall|k: int| 0 <= k < vals.len() implies !(#[trigger] vals[k]).nan() by {
        assert(x.contains(vals[k]));
    }
    lemma_feature_bounds_ascend::<A>(vals, n_bins, unique);
    assert(0 <= f * nb1 && f * nb1 + nb1 <= nf * nb1) by (nonlinear_arith)
        requires
            0 <= f < nf,
            nb1 >= 0,
    ;
    let bounds = bounds_of(all, f, nb1);
    assert forall|j: int| 0 <= j < nb1 implies #[trigger] bounds[j] == feature_bounds::<A>(
        vals,
        n_bins,
        unique,
    )[j] by {
        let i = f * nb1 + j;
        assert(i == nb1 * f + j) by (nonlinear_arith)
            requires
                i == f * nb1 + j,
        ;
        vstd::arithmetic::div_mod::lemma_fundamental_div_mod_converse(i, nb1, f, j);
    }
    assert(bounds =~= feature_bounds::<A>(vals, n_bins, unique));
}

/// The values of feature `f` in every `stride`-th row.
fn sample_feature(x: &[F32], n: usize, nf: usize, f: usize, stride: usize) -> (vals: Vec<F32>)
    requires
        f < nf,
        stride > 0,
        n * nf <= x@.len(),
    ensures
        vals@ == sample_of(x@, n as int, nf as int, f as int, stride as int),
{
    let mut vals: Vec<F32> = Vec::new();
    let mut i: usize = 0;
    while i < n
        invariant
            f < nf,
            stride > 0,
            n * nf <= x@.len(),
            i == vals@.len() * stride || (i == n && vals@.len() * stride >= n),
            vals@.len() > 0 ==> (vals@.len() - 1) * stride < n,
            i == 0 ==> vals@.len() == 0,
            forall|k: int| 0 <= k < vals@.len() ==> #[trigger] vals@[k] == x@[k * stride * nf + f],
        decreases n - i,
    {
        assert(i == vals@.len() * stride);
        assert(0 <= i * nf && i * nf + f < n * nf) by (nonlinear_arith)
            requires
                0 <= i < n,
                0 <= f < nf,
        ;
        assert(x.len() >= n * nf);
        vals.push(x[i * nf + f]);
        proof {
            let len = vals@.len() as int;
            assert(len * stride == (len - 1) * stride + stride) by (nonlinear_arith);
        }
        if n - i <= stride {
            i = n;
        } else {
            i = i + stride;
        }
    }
    proof {
        let len = vals@.len() as int;
        let st = stride as int;
        if n > 0 {
            assert(len > 0) by {
                if len == 0 {
                    assert(0 * st == 0);
                }
            }
            assert((n + st - 1) / st == len) by (nonlinear_arith)
                requires
                    st > 0,
                    len * st >= n,
                    (len - 1) * st < n,
            ;
        } else {
            assert(len == 0) by {
                if len > 0 {
                    assert((len - 1) * st >= 0) by (nonlinear_arith)
                        requires
                            len >= 1,
                            st > 0,
                    ;
                }
            }
            assert((st - 1) / st == 0) by (nonlinear_arith)
                requires
                    st > 0,
            ;
        }
        assert(vals@ =~= sample_of(x@, n as int, nf as int, f as int, st));
    }
    vals
}

/// The midpoints between the distinct numbers of an ascending list.
fn split_candidates<A: Arith>(s: &[F32]) -> (cand: Vec<F32>)
    ensures
        cand@.len() == midpoints::<A>(distinct(s@, s@.len())).len(),
        cand@.len() <= s@.len(),
        deterministic::<A>() ==> cand@ == midpoints::<A>(distinct(s@, s@.len())),
{
    let mut uniq: Vec<F32> = Vec::new();
    let mut i: usize = 0;
    while i < s.len()
        invariant
            i <= s@.len(),
            uniq@ == distinct(s@, i as nat),
            uniq@.len() <= i,
        decreases s@.len() - i,
    {
        let v = s[i];
        if uniq.len() == 0 || !uniq[uniq.len() - 1].same(v) {
            uniq.push(v);
        }
        i = i + 1;
    }
    let mut cand: Vec<F32> = Vec::new();
    let mut k: usize = 1;
    while k < uniq.len()
        invariant
            1 <= k,
            uniq@.len() > 0 ==> k <= uniq@.len(),
            uniq@.len() == 0 ==> k == 1,
            cand@.len() == k - 1,
            deterministic::<A>() ==> forall|j: int|
                0 <= j < cand@.len() ==> #[trigger] cand@[j] == midpoint::<A>(
                    uniq@[j],
                    uniq@[j + 1],
                ),
        decreases uniq@.len() - k,
    {
        cand.push(mul32::<A>(F32 { bits: HALF32 }, add32::<A>(uniq[k - 1], uniq[k])));
        k = k + 1;
    }
    assert(deterministic::<A>() ==> cand@ =~= midpoints::<A>(uniq@));
    cand
}

/// The boundaries of a feature with the sampled values `vals`.
fn bounds_from<A: Arith>(vals: &[F32], n_bins: usize, unique: bool) -> (bounds: Vec<F32>)
    requires
        n_bins >= 1,
        vals@.len() > 0 || unique || n_bins == 1,
    ensures
        bounds@.len() == n_bins - 1,
        deterministic::<A>() ==> bounds@ == feature_bounds::<A>(vals@, n_bins as int, unique),
        !unique && (forall|k: int| 0 <= k < vals@.len() ==> !(#[trigger] vals@[k]).nan())
            ==> ascending(bounds@),
{
    let n_bound: usize = n_bins - 1;
    let order = sort_order(vals);
    let mut s: Vec<F32> = Vec::new();
    let mut i: usize = 0;
    while i < order.len()
        invariant
            order@ == crate::order::order_of(vals@),
            crate::order::is_order(vals@, order@),
            i <= order@.len(),
            s@.len() == i,
            forall|k: int| 0 <= k < i ==> #[trigger] s@[k] == sorted(vals@)[k],
        decreases order@.len() - i,
    {
        s.push(vals[order[i]]);
        i = i + 1;
    }
    assert(s@ =~= sorted(vals@));
    let mut bounds: Vec<F32> = Vec::new();
    if unique {
        let cand = split_candidates::<A>(s.as_slice());
        let len: usize = cand.len();
        let mut j: usize = 0;
        while j < n_bound
            invariant
                n_bound == n_bins - 1,
                j <= n_bound,
                len == cand@.len(),
                bounds@.len() == j,
                forall|k: int|
                    0 <= k < j ==> #[trigger] bounds@[k] == spread_bound(
                        cand@,
                        n_bound as int,
                        k,
                    ),
            decreases n_bound - j,
        {
            if len <= n_bound {
                if j < len {
                    bounds.push(cand[j]);
                } else {
                    bounds.push(F32 { bits: INFINITY32 });
                }
            } else {
                let jj: u128 = j as u128 + 1;
                let ll: u128 = len as u128;
                let bb: u128 = n_bound as u128 + 1;
                assert(0 <= jj * ll <= u128::MAX && jj * ll / (bb as int) < ll) by (nonlinear_arith)
                    requires
                        0 < jj < bb,
                        0 < ll <= 0xFFFF_FFFF_FFFF_FFFF,
                        bb <= 0x1_0000_0000_0000_0000,
                ;
                let pos: usize = (jj * ll / bb) as usize;
                bounds.push(cand[pos]);
            }
            j = j + 1;
        }
        proof {
            if deterministic::<A>() {
                assert(bounds@ =~= feature_bounds::<A>(vals@, n_bins as int, unique));
            }
        }
    } else {
        let mut j: usize = 0;
        let ghost sound = forall|k: int| 0 <= k < vals@.len() ==> !(#[trigger] vals@[k]).nan();
        proof {
            if sound {
                lemma_order_exists(vals@);
                lemma_sorted_ascends(vals@);
            }
        }
        while j < n_bound
            invariant
                n_bound == n_bins - 1,
                s@ == sorted(vals@),
                s@.len() == vals@.len(),
                vals@.len() > 0 || n_bins == 1,
                j <= n_bound,
                bounds@.len() == j,
                sound ==> forall|k: int| 0 <= k < s@.len() ==> !(#[trigger] s@[k]).nan(),
                sound ==> ascending(bounds@),
                deterministic::<A>() ==> forall|k: int|
                    0 <= k < j ==> #[trigger] bounds@[k] == quantile_bound::<A>(
                        s@,
                        n_bins as int,
                        k as nat,
                    ),
            decreases n_bound - j,
        {
            let last: usize = s.len() - 1;
            let rank = div64::<A>(count64::<A>(j as u64 + 1), count64::<A>(n_bins as u64));
            let place: usize = mul64::<A>(rank, count64::<A>(last as u64)).round_usize();
            let q = s[if place > last {
                last
            } else {
                place
            }];
            let ghost before = bounds@;
            if j > 0 && bounds[j - 1].not_less(q) {
                let prev = bounds[j - 1];
                bounds.push(prev);
            } else {
                bounds.push(q);
            }
            proof {
                if sound {
                    assert forall|a: int, b: int| 0 <= a <= b < bounds@.len() implies (
                    #[trigger] bounds@[a]).at_most(#[trigger] bounds@[b]) by {
                        if b < j {
                            assert(before[a].at_most(before[b]));
                        } else if a < j {
                            assert(before[a].at_most(before[j - 1]));
                        }
                    }
                }
            }
            j = j + 1;
        }
        proof {
            if deterministic::<A>() {
                assert(bounds@ =~= feature_bounds::<A>(vals@, n_bins as int, unique));
            }
        }
    }
    bounds
}

/// Estimates the `n_bins - 1` boundaries of each feature from a strided sample of the rows.
/// The boundaries of a feature stand together and ascend.
///
/// They are quantiles, or with `unique` midpoints between distinct sampled values, where
/// unused places are filled with infinity. That keeps features of few values from wasting
/// bins on repeated thresholds.
pub fn compute_boundaries<A: Arith>(
    x_train: &[F32],
    n: usize,
    n_features: usize,
    n_bins: usize,
    sample: usize,
    unique: bool,
) -> (boundaries: Vec<F32>)
    requires
        n_bins >= 1,
        n * n_features <= x_train@.len(),
        n > 0 || unique || n_bins == 1 || n_features == 0,
    ensures
        boundaries@.len() == n_features * (n_bins - 1),
        deterministic::<A>() ==> boundaries@ == boundaries_of::<A>(
            x_train@,
            n as int,
            n_features as int,
            n_bins as int,
            sample as int,
            unique,
        ),
        !unique && (forall|k: int| 0 <= k < x_train@.len() ==> !(#[trigger] x_train@[k]).nan())
            ==> forall|f: int|
            0 <= f < n_features ==> ascending(
                #[trigger] bounds_of(boundaries@, f, n_bins - 1),
            ),
{
    let n_bound: usize = n_bins - 1;
    let step: usize = n / if sample < 1 {
        1
    } else {
        sample
    };
    let stride: usize = if step < 1 {
        1
    } else {
        step
    };
    let ghost sound = forall|k: int| 0 <= k < x_train@.len() ==> !(#[trigger] x_train@[k]).nan();
    let mut boundaries: Vec<F32> = Vec::new();
    let mut f: usize = 0;
    while f < n_features
        invariant
            n_bins >= 1,
            n_bound == n_bins - 1,
            n * n_features <= x_train@.len(),
            n > 0 || unique || n_bins == 1 || n_features == 0,
            stride == sample_stride(n as int, sample as int),
            stride > 0,
            sound == (forall|k: int| 0 <= k < x_train@.len() ==> !(#[trigger] x_train@[k]).nan()),
            f <= n_features,
            boundaries@.len() == f * n_bound,
            deterministic::<A>() ==> forall|i: int|
                0 <= i < boundaries@.len() ==> #[trigger] boundaries@[i] == feature_bounds::<A>(
                    sample_of(x_train@, n as int, n_features as int, i / (n_bins - 1), stride as int),
                    n_bins as int,
                    unique,
                )[i % (n_bins - 1)],
            !unique && sound ==> forall|g: int|
                0 <= g < f ==> ascending(#[trigger] bounds_of(boundaries@, g, n_bins - 1)),
        decreases n_features - f,
    {
        let vals = sample_feature(x_train, n, n_features, f, stride);
        proof {
            let st = stride as int;
            if n > 0 {
                assert((n + st - 1) / st > 0) by (nonlinear_arith)
                    requires
                        st > 0,
                        n > 0,
                ;
            }
            if sound {
                assert forall|k: int| 0 <= k < vals@.len() implies !(#[trigger] vals@[k]).nan() by {
                    let nf = n_features as int;
                    assert(k * st < n) by (nonlinear_arith)
                        requires
                            st > 0,
                            0 <= k < (n + st - 1) / st,
                    ;
                    assert(0 <= k * st) by (nonlinear_arith)
                        requires
                            st > 0,
                            0 <= k,
                    ;
                    let i = k * st;
                    assert(0 <= i * nf + f < n * nf) by (nonlinear_arith)
                        requires
                            0 <= i < n,
                            0 <= f < nf,
                    ;
                    assert(!x_train@[k * st * nf + f].nan());
                }
            }
        }
        let mut bounds = bounds_from::<A>(vals.as_slice(), n_bins, unique);
        let ghost before = boundaries@;
        let ghost added = bounds@;
        boundaries.append(&mut bounds);
        proof {
            let nb1 = n_bound as int;
            assert((f + 1) * nb1 == f * nb1 + nb1) by (nonlinear_arith);
            assert forall|i: int| 0 <= i < boundaries@.len() && deterministic::<
                A,
            >() implies #[trigger] boundaries@[i] == feature_bounds::<A>(
                sample_of(x_train@, n as int, n_features as int, i / nb1, stride as int),
                n_bins as int,
                unique,
            )[i % nb1] by {
                if i < before.len() {
                    assert(boundaries@[i] == before[i]);
                } else {
                    let j = i - f * nb1;
                    assert(i / nb1 == f && i % nb1 == j) by {
                        assert(i == f * nb1 + j);
                        assert(i == nb1 * f + j) by (nonlinear_arith)
                            requires
                                i == f * nb1 + j,
                        ;
                        vstd::arithmetic::div_mod::lemma_fundamental_div_mod_converse(
                            i,
                            nb1,
                            f as int,
                            j,
                        );
                    }
                    assert(boundaries@[i] == added[j]);
                }
            }
            if !unique && sound {
                assert forall|g: int| 0 <= g < f + 1 implies ascending(
                    #[trigger] bounds_of(boundaries@, g, nb1),
                ) by {
                    assert(0 <= g * nb1 && g * nb1 + nb1 <= (f + 1) * nb1) by (nonlinear_arith)
                        requires
                            0 <= g < f + 1,
                            nb1 >= 0,
                    ;
                    if g < f {
                        assert(g * nb1 + nb1 <= f * nb1) by (nonlinear_arith)
                            requires
                                0 <= g < f,
                                nb1 >= 0,
                        ;
                        assert(bounds_of(boundaries@, g, nb1) =~= bounds_of(before, g, nb1));
                    } else {
                        assert(bounds_of(boundaries@, g, nb1) =~= added);
                    }
                }
            }
        }
        f = f + 1;
    }
    proof {
        if deterministic::<A>() {
            assert(boundaries@ =~= boundaries_of::<A>(
                x_train@,
                n as int,
                n_features as int,
                n_bins as int,
                sample as int,
                unique,
            ));
        }
    }
    boundaries
}

/// The numbers are equal, zeros of either sign among them, or the same bit for bit.
pub open spec fn alike(a: F32, b: F32) -> bool {
    a == b || a.equals(b)
}

/// Midpoints between equal numbers are equal.
pub open spec fn midpoints_alike<A: Arith>() -> bool {
    forall|a: F32, b: F32, c: F32, d: F32|
        a.equals(c) && b.equals(d) ==> alike(
            #[trigger] midpoint::<A>(a, b),
            #[trigger] midpoint::<A>(c, d),
        )
}

/// The numbers of two lists are equal place by place.
pub open spec fn pairwise_equal(s: Seq<F32>, t: Seq<F32>) -> bool {
    s.len() == t.len() && forall|i: int| 0 <= i < s.len() ==> (#[trigger] s[i]).equals(t[i])
}

proof fn lemma_distinct_alike(s: Seq<F32>, t: Seq<F32>, k: nat)
    requires
        pairwise_equal(s, t),
        k <= s.len(),
    ensures
        pairwise_equal(distinct(s, k), distinct(t, k)),
    decreases k,
{
    if k > 0 {
        lemma_distinct_alike(s, t, (k - 1) as nat);
        let a = distinct(s, (k - 1) as nat);
        let b = distinct(t, (k - 1) as nat);
        assert(s[k - 1].equals(t[k - 1]));
        if a.len() > 0 {
            assert(a[a.len() - 1].equals(b[a.len() - 1]));
        }
    }
}

proof fn lemma_quantile_alike<A: Arith>(s: Seq<F32>, t: Seq<F32>, n_bins: int, j: nat)
    requires
        pairwise_equal(s, t),
        s.len() > 0,
    ensures
        quantile_bound::<A>(s, n_bins, j).equals(quantile_bound::<A>(t, n_bins, j)),
    decreases j,
{
    let last = s.len() - 1;
    let rank = quotient64::<A>(counted64::<A>((j + 1) as u64), counted64::<A>(n_bins as u64));
    let place = product64::<A>(rank, counted64::<A>(last as u64)).nearest();
    let at = if place > last {
        last
    } else {
        place
    };
    assert(s[at].equals(t[at]));
    if j > 0 {
        lemma_quantile_alike::<A>(s, t, n_bins, (j - 1) as nat);
    }
}

proof fn lemma_spread_alike<A: Arith>(s: Seq<F32>, t: Seq<F32>, n_bound: int, j: int)
    requires
        pairwise_equal(s, t),
        midpoints_alike::<A>(),
        0 <= j < n_bound,
    ensures
        alike(
            spread_bound(midpoints::<A>(s), n_bound, j),
            spread_bound(midpoints::<A>(t), n_bound, j),
        ),
{
    let a = midpoints::<A>(s);
    let b = midpoints::<A>(t);
    let len = a.len() as int;
    let at = if len <= n_bound {
        j
    } else {
        (j + 1) * len / (n_bound + 1)
    };
    if len > n_bound {
        assert(0 <= at < len) by (nonlinear_arith)
            requires
                at == (j + 1) * len / (n_bound + 1),
                0 <= j < n_bound,
                len > 0,
        ;
    }
    if at < len {
        assert(s[at].equals(t[at]));
        assert(s[at + 1].equals(t[at + 1]));
        assert(a[at] == midpoint::<A>(s[at], s[at + 1]));
        assert(b[at] == midpoint::<A>(t[at], t[at + 1]));
    }
}

/// The boundaries do not depend on the order of the rows, where none of them is left out of the
/// sample and no value is NaN: with the rows in another order they are equal as numbers, and the
/// same bit for bit where zeros are of one sign. For boundaries at midpoints to be equal, the
/// arithmetic has to give equal midpoints between equal numbers.
pub proof fn lemma_row_order<A: Arith>(
    x: Seq<F32>,
    y: Seq<F32>,
    places: Seq<int>,
    n: int,
    nf: int,
    n_bins: int,
    sample: int,
    unique: bool,
    i: int,
)
    requires
        0 < n <= usize::MAX,
        0 < nf,
        2 <= n_bins,
        sample_stride(n, sample) == 1,
        x.len() == n * nf,
        y.len() == n * nf,
        permutes(places, n as nat),
        forall|r: int, f: int|
            0 <= r < n && 0 <= f < nf ==> #[trigger] y[r * nf + f] == x[places[r] * nf + f],
        forall|k: int| 0 <= k < x.len() ==> !(#[trigger] x[k]).nan(),
        0 <= i < nf * (n_bins - 1),
    ensures
        !unique || midpoints_alike::<A>() ==> alike(
            boundaries_of::<A>(y, n, nf, n_bins, sample, unique)[i],
            boundaries_of::<A>(x, n, nf, n_bins, sample, unique)[i],
        ),
        (forall|j: int, k: int|
            0 <= j < x.len() && 0 <= k < x.len() && (#[trigger] x[j]).equals(#[trigger] x[k])
                ==> x[j] == x[k]) ==> boundaries_of::<A>(y, n, nf, n_bins, sample, unique)[i]
            == boundaries_of::<A>(x, n, nf, n_bins, sample, unique)[i],
{
    let nb1 = n_bins - 1;
    let f = i / nb1;
    let j = i % nb1;
    assert(0 <= f < nf && 0 <= j < nb1) by (nonlinear_arith)
        requires
            0 <= i < nf * nb1,
            nb1 >= 1,
            f == i / nb1,
            j == i % nb1,
    ;
    let a = sample_of(x, n, nf, f, 1);
    let b = sample_of(y, n, nf, f, 1);
    let s = sorted(a);
    let t = sorted(b);
    assert(a.len() == n && b.len() == n);
    assert forall|k: int| 0 <= k < n implies #[trigger] b[k] == a[places[k]] by {
        assert(0 <= places[k] < n);
        assert(y[k * nf + f] == x[places[k] * nf + f]);
    }
    assert forall|k: int| 0 <= k < n implies 0 <= k * nf + f < x.len() && #[trigger] a[k] == x[k * nf
        + f] by {
        assert(0 <= k * nf + f < n * nf) by (nonlinear_arith)
            requires
                0 <= k < n,
                0 <= f < nf,
        ;
    }
    assert(pairwise_equal(t, s)) by {
        assert forall|k: int| 0 <= k < t.len() implies (#[trigger] t[k]).equals(s[k]) by {
            lemma_sorted_permuted(a, b, places, k);
            let u = choose|u: int| 0 <= u < a.len() && t[k] == #[trigger] a[u];
            let v = choose|v: int| 0 <= v < a.len() && s[k] == #[trigger] a[v];
            assert(!x[u * nf + f].nan() && !x[v * nf + f].nan());
        }
    }
    if unique {
        if midpoints_alike::<A>() {
            lemma_distinct_alike(t, s, s.len());
            lemma_spread_alike::<A>(distinct(t, t.len()), distinct(s, s.len()), nb1, j);
        }
    } else {
        lemma_quantile_alike::<A>(t, s, n_bins, j as nat);
    }
    if forall|j: int, k: int|
        0 <= j < x.len() && 0 <= k < x.len() && (#[trigger] x[j]).equals(#[trigger] x[k]) ==> x[j]
            == x[k] {
        assert forall|k: int| 0 <= k < t.len() implies #[trigger] t[k] == s[k] by {
            lemma_sorted_permuted(a, b, places, k);
            let u = choose|u: int| 0 <= u < a.len() && t[k] == #[trigger] a[u];
            let v = choose|v: int| 0 <= v < a.len() && s[k] == #[trigger] a[v];
            assert(t[k].equals(s[k]));
            assert(x[u * nf + f].equals(x[v * nf + f]));
        }
        assert(t =~= s);
    }
}

} // verus!
