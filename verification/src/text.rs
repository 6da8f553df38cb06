//! Text: numerals, pieces between separators, and places of a pattern.

use vstd::prelude::*;
use vstd::string::StringExecFns;
use vstd::string::StrSliceExecFns;

verus! {

/// A decimal digit.
pub open spec fn is_digit(c: char) -> bool {
    '0' <= c <= '9'
}

/// All characters are decimal digits.
pub open spec fn all_digits(s: Seq<char>) -> bool {
    forall|i: int| 0 <= i < s.len() ==> is_digit(#[trigger] s[i])
}

/// The number that a run of digits stands for.
pub open spec fn digits_value(s: Seq<char>) -> nat
    decreases s.len(),
{
    if s.len() == 0 {
        0
    } else {
        digits_value(s.drop_last()) * 10 + (s.last() as nat - '0' as nat) as nat
    }
}

/// The count that a numeral stands for: digits, with a plus sign before them or none.
pub open spec fn count_of(s: Seq<char>) -> Option<nat> {
    let digits = if s.len() > 0 && s[0] == '+' {
        s.skip(1)
    } else {
        s
    };
    if digits.len() > 0 && all_digits(digits) {
        Some(digits_value(digits))
    } else {
        None
    }
}

/// The integer that a numeral stands for: digits, with a sign before them or none.
pub open spec fn integer_of(s: Seq<char>) -> Option<int> {
    if s.len() > 0 && s[0] == '-' {
        let digits = s.skip(1);
        if digits.len() > 0 && all_digits(digits) {
            Some(-(digits_value(digits) as int))
        } else {
            None
        }
    } else {
        match count_of(s) {
            Some(v) => Some(v as int),
            None => None,
        }
    }
}

/// The count that a numeral stands for, where it is at most `most`.
pub open spec fn count_within(s: Seq<char>, most: nat) -> Option<nat> {
    match count_of(s) {
        Some(v) => if v <= most {
            Some(v)
        } else {
            None
        },
        None => None,
    }
}

/// The pieces of the first `n` characters between separators.
pub open spec fn pieces(s: Seq<char>, sep: char, n: nat) -> Seq<Seq<char>>
    decreases n,
{
    if n == 0 {
        seq![Seq::<char>::empty()]
    } else {
        let before = pieces(s, sep, (n - 1) as nat);
        if s[n - 1] == sep {
            before.push(Seq::empty())
        } else {
            before.update(before.len() - 1, before.last().push(s[n - 1]))
        }
    }
}

/// White space.
pub open spec fn is_space(c: char) -> bool {
    ||| '\u{9}' <= c <= '\u{d}'
    ||| c == ' '
    ||| c == '\u{85}'
    ||| c == '\u{a0}'
    ||| c == '\u{1680}'
    ||| '\u{2000}' <= c <= '\u{200a}'
    ||| c == '\u{2028}'
    ||| c == '\u{2029}'
    ||| c == '\u{202f}'
    ||| c == '\u{205f}'
    ||| c == '\u{3000}'
}

/// The text without white space at its end.
pub open spec fn trimmed(s: Seq<char>) -> Seq<char>
    decreases s.len(),
{
    if s.len() > 0 && is_space(s.last()) {
        trimmed(s.drop_last())
    } else {
        s
    }
}

/// `pat` stands in `s` at place `i`.
pub open spec fn stands_at(s: Seq<char>, pat: Seq<char>, i: int) -> bool {
    &&& 0 <= i
    &&& i + pat.len() <= s.len()
    &&& s.subrange(i, i + pat.len()) == pat
}

/// The characters of a text.
pub fn chars_of(s: &str) -> (r: Vec<char>)
    ensures
        r@ == s@,
{
    let mut r: Vec<char> = Vec::new();
    for c in it: s.chars()
        invariant
            it.seq() == s@,
            r@ == it.seq().take(it.index() as int),
    {
        r.push(c);
        assert(it.seq().take(it.index() + 1) =~= it.seq().take(it.index() as int).push(
            it.seq()[it.index() as int],
        ));
    }
    assert(s@.take(s@.len() as int) =~= s@);
    r
}

/// The two texts are the same.
pub fn same_text(a: &str, b: &str) -> (r: bool)
    ensures
        r == (a@ == b@),
{
    let a: String = a.to_owned();
    let b: String = b.to_owned();
    a == b
}

/// The number that a run of digits stands for, where the characters from `start` on are
/// digits and it is at most `most`.
fn digits_from(s: &[char], start: usize, most: u64) -> (r: Option<u64>)
    requires
        start <= s@.len(),
    ensures
        ({
            let digits = s@.skip(start as int);
            match r {
                Some(v) => digits.len() > 0 && all_digits(digits) && v == digits_value(digits)
                    && v <= most,
                None => digits.len() == 0 || !all_digits(digits) || digits_value(digits) > most,
            }
        }),
{
    let ghost digits = s@.skip(start as int);
    if start == s.len() {
        return None;
    }
    let mut v: u64 = 0;
    let mut i: usize = start;
    while i < s.len()
        invariant
            digits == s@.skip(start as int),
            start <= i <= s@.len(),
            all_digits(digits.take(i - start)),
            v == digits_value(digits.take(i - start)),
            v <= most,
        decreases s@.len() - i,
    {
        let c: char = s[i];
        let ghost upto = digits.take(i - start);
        let ghost next = digits.take(i + 1 - start);
        proof {
            assert(next.drop_last() =~= upto);
            assert(next.last() == c);
            assert(digits[i - start] == c);
        }
        if !('0' <= c && c <= '9') {
            return None;
        }
        let d: u64 = c as u64 - '0' as u64;
        proof {
            lemma_value_grows(digits, i + 1 - start);
            assert forall|k: int| 0 <= k < next.len() implies is_digit(#[trigger] next[k]) by {
                if k < upto.len() {
                    assert(is_digit(upto[k]));
                }
            }
        }
        if v > (u64::MAX - d) / 10 {
            return None;
        }
        let w: u64 = v * 10 + d;
        if w > most {
            return None;
        }
        v = w;
        i = i + 1;
    }
    assert(digits.take(i - start) =~= digits);
    Some(v)
}

/// More digits make no smaller number.
proof fn lemma_value_grows(s: Seq<char>, k: int)
    requires
        0 <= k <= s.len(),
    ensures
        digits_value(s.take(k)) <= digits_value(s),
    decreases s.len() - k,
{
    if k < s.len() {
        lemma_value_grows(s, k + 1);
        assert(s.take(k + 1).drop_last() =~= s.take(k));
    } else {
        assert(s.take(k) =~= s);
    }
}

/// The count that a numeral stands for, where it is at most `most`.
pub fn parse_count(s: &str, most: u64) -> (r: Option<u64>)
    ensures
        match r {
            Some(v) => count_within(s@, most as nat) == Some(v as nat),
            None => count_within(s@, most as nat) is None,
        },
{
    let chars = chars_of(s);
    if chars.len() > 0 && chars[0] == '+' {
        digits_from(chars.as_slice(), 1, most)
    } else {
        assert(s@.skip(0) =~= s@);
        digits_from(chars.as_slice(), 0, most)
    }
}

/// The count that a numeral stands for, where it fits.
pub fn parse_usize(s: &str) -> (r: Option<usize>)
    ensures
        match r {
            Some(v) => count_within(s@, usize::MAX as nat) == Some(v as nat),
            None => count_within(s@, usize::MAX as nat) is None,
        },
{
    match parse_count(s, usize::MAX as u64) {
        Some(v) => Some(v as usize),
        None => None,
    }
}

/// The integer that a numeral stands for, where it fits.
pub fn parse_i32(s: &str) -> (r: Option<i32>)
    ensures
        match r {
            Some(v) => integer_of(s@) == Some(v as int),
            None => match integer_of(s@) {
                Some(v) => v < i32::MIN || v > i32::MAX,
                None => true,
            },
        },
{
    let chars = chars_of(s);
    if chars.len() > 0 && chars[0] == '-' {
        match digits_from(chars.as_slice(), 1, 0x8000_0000) {
            Some(v) => Some((0 - v as i64) as i32),
            None => None,
        }
    } else {
        match parse_count(s, 0x7FFF_FFFF) {
            Some(v) => Some(v as i32),
            None => None,
        }
    }
}

/// The pieces of a text between separators.
pub fn split_on(s: &str, sep: char) -> (r: Vec<String>)
    ensures
        r@.len() == pieces(s@, sep, s@.len()).len(),
        forall|k: int| 0 <= k < r@.len() ==> #[trigger] r@[k]@ == pieces(s@, sep, s@.len())[k],
{
    let chars = chars_of(s);
    let mut r: Vec<String> = Vec::new();
    let mut start: usize = 0;
    let mut i: usize = 0;
    assert(s@.subrange(0, 0) =~= Seq::<char>::empty());
    while i < chars.len()
        invariant
            chars@ == s@,
            start <= i <= chars@.len(),
            r@.len() + 1 == pieces(s@, sep, i as nat).len(),
            forall|k: int|
                0 <= k < r@.len() ==> #[trigger] r@[k]@ == pieces(s@, sep, i as nat)[k],
            s@.subrange(start as int, i as int) == pieces(s@, sep, i as nat).last(),
        decreases chars@.len() - i,
    {
        let ghost before = pieces(s@, sep, i as nat);
        if chars[i] == sep {
            let piece = s.substring_char(start, i);
            r.push(piece.to_owned());
            start = i + 1;
            assert(s@.subrange(start as int, i + 1) =~= Seq::<char>::empty());
        } else {
            assert(s@.subrange(start as int, i + 1) =~= s@.subrange(start as int, i as int).push(
                s@[i as int],
            ));
        }
        i = i + 1;
    }
    let piece = s.substring_char(start, i);
    r.push(piece.to_owned());
    r
}

/// White space.
fn is_white(c: char) -> (r: bool)
    ensures
        r == is_space(c),
{
    ('\u{9}' <= c && c <= '\u{d}') || c == ' ' || c == '\u{85}' || c == '\u{a0}' || c == '\u{1680}'
        || ('\u{2000}' <= c && c <= '\u{200a}') || c == '\u{2028}' || c == '\u{2029}' || c
        == '\u{202f}' || c == '\u{205f}' || c == '\u{3000}'
}

/// The text without white space at its end.
pub fn trim_end(s: &str) -> (r: &str)
    ensures
        r@ == trimmed(s@),
{
    let chars = chars_of(s);
    let mut end: usize = chars.len();
    assert(s@.take(end as int) =~= s@);
    while end > 0 && is_white(chars[end - 1])
        invariant
            chars@ == s@,
            end <= chars@.len(),
            trimmed(s@.take(end as int)) == trimmed(s@),
        decreases end,
    {
        assert(s@.take(end as int).drop_last() =~= s@.take(end - 1));
        assert(s@.take(end as int).last() == s@[end - 1]);
        end = end - 1;
    }
    proof {
        if end > 0 {
            assert(s@.take(end as int).last() == s@[end - 1]);
        }
        assert(s@.subrange(0, end as int) =~= s@.take(end as int));
    }
    s.substring_char(0, end)
}

/// The first place at which `pat` stands in `s`.
pub fn find(s: &[char], pat: &[char]) -> (r: Option<usize>)
    ensures
        match r {
            Some(i) => stands_at(s@, pat@, i as int) && forall|j: int|
                0 <= j < i ==> !#[trigger] stands_at(s@, pat@, j),
            None => forall|j: int| !#[trigger] stands_at(s@, pat@, j),
        },
{
    if pat.len() > s.len() {
        return None;
    }
    let last: usize = s.len() - pat.len();
    let mut i: usize = 0;
    while i <= last
        invariant
            last + pat@.len() == s@.len(),
            i <= last + 1,
            forall|j: int| 0 <= j < i ==> !#[trigger] stands_at(s@, pat@, j),
        decreases last + 1 - i,
    {
        let mut k: usize = 0;
        let m: usize = s.len();
        while k < pat.len() && s[i + k] == pat[k]
            invariant
                last + pat@.len() == s@.len(),
                i <= last,
                k <= pat@.len(),
                m == s@.len(),
                forall|j: int| 0 <= j < k ==> s@[i + j] == #[trigger] pat@[j],
            decreases pat@.len() - k,
        {
            k = k + 1;
        }
        if k == pat.len() {
            assert(s@.subrange(i as int, i + pat@.len()) =~= pat@);
            return Some(i);
        }
        proof {
            if stands_at(s@, pat@, i as int) {
                assert(s@.subrange(i as int, i + pat@.len())[k as int] == pat@[k as int]);
            }
        }
        i = i + 1;
    }
    None
}

/// The digits of a number, shortest form.
pub open spec fn decimal(n: nat) -> Seq<char>
    decreases n,
{
    let digit = ('0' as nat + n % 10) as char;
    if n < 10 {
        seq![digit]
    } else {
        decimal(n / 10).push(digit)
    }
}

/// The text of one digit.
fn digit_text(d: u64) -> (r: &'static str)
    requires
        d < 10,
    ensures
        r@ =~= seq![('0' as nat + d) as char],
{
    proof {
        reveal_strlit("0");
        reveal_strlit("1");
        reveal_strlit("2");
        reveal_strlit("3");
        reveal_strlit("4");
        reveal_strlit("5");
        reveal_strlit("6");
        reveal_strlit("7");
        reveal_strlit("8");
        reveal_strlit("9");
    }
    if d == 0 {
        "0"
    } else if d == 1 {
        "1"
    } else if d == 2 {
        "2"
    } else if d == 3 {
        "3"
    } else if d == 4 {
        "4"
    } else if d == 5 {
        "5"
    } else if d == 6 {
        "6"
    } else if d == 7 {
        "7"
    } else if d == 8 {
        "8"
    } else {
        "9"
    }
}

/// The digits of a number, shortest form.
pub fn wide_decimal_text(n: u128) -> (r: String)
    ensures
        r@ == decimal(n as nat),
    decreases n,
{
    if n < 10 {
        digit_text(n as u64).to_owned()
    } else {
        let mut r = wide_decimal_text(n / 10);
        r.append(digit_text((n % 10) as u64));
        assert(r@ =~= decimal(n as nat));
        r
    }
}

/// The digits of a number, shortest form.
pub fn decimal_text(n: u64) -> (r: String)
    ensures
        r@ == decimal(n as nat),
{
    wide_decimal_text(n as u128)
}

/// Reading a number that was written gives it back.
pub proof fn lemma_decimal_reads_back(n: nat)
    ensures
        count_of(decimal(n)) == Some(n),
{
    lemma_decimal(n);
}

proof fn lemma_decimal(n: nat)
    ensures
        decimal(n).len() > 0,
        all_digits(decimal(n)),
        digits_value(decimal(n)) == n,
    decreases n,
{
    let s = decimal(n);
    if n >= 10 {
        lemma_decimal(n / 10);
        assert(s.drop_last() =~= decimal(n / 10));
    } else {
        assert(s.drop_last() =~= Seq::<char>::empty());
        assert(digits_value(Seq::<char>::empty()) == 0);
    }
    assert(s.last() as nat == '0' as nat + n % 10);
}

} // verus!
