//! What texts are cut into, and what numerals in them stand for.

use vstd::prelude::*;

use crate::data::from_digit;
use crate::data::leading_digits;
use crate::data::meta_value;
use crate::data::place_from;
use crate::data::quoted;
use crate::text::all_digits;
use crate::text::count_of;
use crate::text::digits_value;
use crate::text::integer_of;
use crate::text::is_digit;
use crate::text::is_space;
use crate::text::pieces;
use crate::text::stands_at;
use crate::text::trimmed;

verus! {

/// The first `k` pieces, put together again with separators between them.
pub open spec fn rejoined(parts: Seq<Seq<char>>, sep: char, k: nat) -> Seq<char>
    decreases k,
{
    if k == 0 {
        Seq::empty()
    } else if k == 1 {
        parts[0]
    } else {
        rejoined(parts, sep, (k - 1) as nat).push(sep) + parts[k - 1]
    }
}

proof fn lemma_rejoined_same(a: Seq<Seq<char>>, b: Seq<Seq<char>>, sep: char, k: nat)
    requires
        forall|i: int| 0 <= i < k ==> #[trigger] a[i] == b[i],
    ensures
        rejoined(a, sep, k) == rejoined(b, sep, k),
    decreases k,
{
    if k > 0 {
        assert(a[k - 1] == b[k - 1]);
        lemma_rejoined_same(a, b, sep, (k - 1) as nat);
    }
}

/// The pieces of a text have no separator in them, and make the text again with separators between
/// them.
pub proof fn lemma_pieces(s: Seq<char>, sep: char, n: nat)
    requires
        n <= s.len(),
    ensures
        pieces(s, sep, n).len() >= 1,
        forall|i: int, j: int|
            0 <= i < pieces(s, sep, n).len() && 0 <= j < pieces(s, sep, n)[i].len()
                ==> #[trigger] pieces(s, sep, n)[i][j] != sep,
        rejoined(pieces(s, sep, n), sep, pieces(s, sep, n).len()) == s.take(n as int),
    decreases n,
{
    let now = pieces(s, sep, n);
    if n == 0 {
        assert(now[0] =~= Seq::<char>::empty());
        assert(s.take(0) =~= Seq::<char>::empty());
    } else {
        let m = (n - 1) as nat;
        let before = pieces(s, sep, m);
        lemma_pieces(s, sep, m);
        let c = s[n - 1];
        assert(s.take(n as int) =~= s.take(m as int).push(c));
        let k = before.len();
        if c == sep {
            lemma_rejoined_same(now, before, sep, k);
            assert(now.len() == k + 1);
            assert(rejoined(now, sep, k + 1) =~= rejoined(now, sep, k).push(sep));
            assert forall|i: int, j: int| 0 <= i < now.len() && 0 <= j < now[i].len() implies
                #[trigger] now[i][j] != sep by {
                assert(i < k);
                assert(now[i] == before[i]);
                assert(before[i][j] != sep);
            }
        } else {
            lemma_rejoined_same(now, before, sep, (k - 1) as nat);
            assert(now[k - 1] == before[k - 1].push(c));
            assert(rejoined(now, sep, k) =~= rejoined(before, sep, k).push(c));
            assert forall|i: int, j: int| 0 <= i < now.len() && 0 <= j < now[i].len() implies
                #[trigger] now[i][j] != sep by {
                if i < k - 1 {
                    assert(now[i] == before[i]);
                    assert(before[i][j] != sep);
                } else if j < before[i].len() {
                    assert(before[i][j] != sep);
                }
            }
        }
    }
}

/// Of a text only white space is cut off, only at its end, and all that is there.
pub proof fn lemma_trimmed(s: Seq<char>)
    ensures
        trimmed(s).len() <= s.len(),
        trimmed(s) == s.take(trimmed(s).len() as int),
        forall|i: int| trimmed(s).len() <= i < s.len() ==> is_space(#[trigger] s[i]),
        trimmed(s).len() > 0 ==> !is_space(trimmed(s).last()),
    decreases s.len(),
{
    if s.len() > 0 && is_space(s.last()) {
        let t = s.drop_last();
        lemma_trimmed(t);
        assert(t.take(trimmed(t).len() as int) =~= s.take(trimmed(t).len() as int));
        assert forall|i: int| trimmed(s).len() <= i < s.len() implies is_space(
            #[trigger] s[i],
        ) by {
            if i < s.len() - 1 {
                assert(t[i] == s[i]);
            }
        }
    } else {
        assert(s.take(s.len() as int) =~= s);
    }
}

/// One digit more at the end of a numeral makes ten times the number and the digit; a minus sign
/// before it makes the opposite number, and a plus sign changes nothing.
pub proof fn lemma_numeral(s: Seq<char>, d: char)
    requires
        s.len() > 0,
        all_digits(s),
        is_digit(d),
    ensures
        count_of(s) is Some,
        count_of(seq![d]) == Some((d as nat - '0' as nat) as nat),
        count_of(s.push(d)) == Some((10 * count_of(s)->Some_0 + (d as nat - '0' as nat)) as nat),
        integer_of(s) == Some(count_of(s)->Some_0 as int),
        integer_of(seq!['-'] + s) == Some(-(count_of(s)->Some_0 as int)),
        integer_of(seq!['+'] + s) == integer_of(s),
        count_of(seq!['+'] + s) == count_of(s),
        count_of(seq!['-'] + s) is None,
{
    let one = seq![d];
    assert(one.drop_last() =~= Seq::<char>::empty());
    assert(digits_value(Seq::<char>::empty()) == 0);
    assert(all_digits(one));
    let more = s.push(d);
    assert(more.drop_last() =~= s);
    assert(more[0] == s[0]);
    assert(all_digits(more));
    assert(is_digit(s[0]));
    assert((seq!['-'] + s).skip(1) =~= s);
    assert((seq!['+'] + s).skip(1) =~= s);
    let minus = seq!['-'] + s;
    assert(minus[0] == '-');
    assert(!is_digit(minus[0]));
}

proof fn lemma_skipped(s: Seq<char>, gap: nat)
    requires
        gap < s.len(),
        is_digit(s[gap as int]),
        forall|i: int| 0 <= i < gap ==> !is_digit(#[trigger] s[i]),
    ensures
        from_digit(s) == s.skip(gap as int),
    decreases gap,
{
    if gap == 0 {
        assert(s.skip(0) =~= s);
    } else {
        let t = s.skip(1);
        assert(!is_digit(s[0]));
        assert(t[gap - 1] == s[gap as int]);
        assert forall|i: int| 0 <= i < gap - 1 implies !is_digit(#[trigger] t[i]) by {
            assert(t[i] == s[i + 1]);
        }
        lemma_skipped(t, (gap - 1) as nat);
        assert(t.skip(gap - 1) =~= s.skip(gap as int));
    }
}

proof fn lemma_led(s: Seq<char>, digits: Seq<char>)
    requires
        digits.len() <= s.len(),
        s.take(digits.len() as int) == digits,
        all_digits(digits),
        digits.len() == s.len() || !is_digit(s[digits.len() as int]),
    ensures
        leading_digits(s) == digits,
    decreases digits.len(),
{
    if digits.len() > 0 {
        let t = s.skip(1);
        let rest = digits.skip(1);
        assert(s[0] == s.take(digits.len() as int)[0]);
        assert(is_digit(digits[0]));
        assert(t.take(rest.len() as int) =~= s.take(digits.len() as int).skip(1));
        assert forall|i: int| 0 <= i < rest.len() implies is_digit(#[trigger] rest[i]) by {
            assert(is_digit(digits[i + 1]));
        }
        lemma_led(t, rest);
        assert(seq![s[0]] + rest =~= digits);
    }
}

proof fn lemma_first_place(s: Seq<char>, pat: Seq<char>, low: int, i: int)
    requires
        0 <= low <= i,
        stands_at(s, pat, i),
        forall|j: int| 0 <= j < i ==> !#[trigger] stands_at(s, pat, j),
    ensures
        place_from(s, pat, low) == Some(i),
    decreases i - low,
{
    if low < i {
        lemma_first_place(s, pat, low + 1, i);
    }
}

/// A count in a text is the number whose digits come first after the first mention of its name in
/// quotation marks, whatever stands between that is no digit, and whatever comes after.
pub proof fn lemma_meta_value(text: Seq<char>, key: Seq<char>, i: int, gap: nat, digits: Seq<char>)
    requires
        stands_at(text, quoted(key), i),
        forall|j: int| 0 <= j < i ==> !#[trigger] stands_at(text, quoted(key), j),
        ({
            let from = i + key.len() + 2;
            let end = from + gap + digits.len();
            &&& end <= text.len()
            &&& forall|j: int| from <= j < from + gap ==> !is_digit(#[trigger] text[j])
            &&& text.subrange(from + gap, end) == digits
            &&& end == text.len() || !is_digit(text[end])
        }),
        digits.len() > 0,
        all_digits(digits),
        digits_value(digits) <= usize::MAX,
    ensures
        meta_value(text, key) is Ok,
        count_of(digits) == Some(meta_value(text, key)->Ok_0),
{
    lemma_first_place(text, quoted(key), 0, i);
    let from = i + key.len() + 2;
    assert(quoted(key).len() == key.len() + 2);
    let tail = text.skip(from);
    assert(digits[0] == text[from + gap]);
    assert(is_digit(digits[0]));
    assert(tail[gap as int] == text[from + gap]);
    assert forall|j: int| 0 <= j < gap implies !is_digit(#[trigger] tail[j]) by {
        assert(tail[j] == text[from + j]);
    }
    lemma_skipped(tail, gap);
    let rest = tail.skip(gap as int);
    assert(rest.take(digits.len() as int) =~= digits);
    lemma_led(rest, digits);
}

} // verus!
