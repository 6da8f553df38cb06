//! Little-endian words in byte strings.

use vstd::prelude::*;

use crate::float::F32;

verus! {

/// The 32-bit word whose bytes begin at place `i`.
pub open spec fn word32(b: Seq<u8>, i: int) -> u32 {
    (b[i] + b[i + 1] * 0x100 + b[i + 2] * 0x1_0000 + b[i + 3] * 0x100_0000) as u32
}

/// The 64-bit word whose bytes begin at place `i`.
pub open spec fn word64(b: Seq<u8>, i: int) -> u64 {
    (word32(b, i) + word32(b, i + 4) * 0x1_0000_0000) as u64
}

/// The bytes of a 32-bit word.
pub open spec fn bytes32(v: u32) -> Seq<u8> {
    seq![
        (v % 0x100) as u8,
        (v / 0x100 % 0x100) as u8,
        (v / 0x1_0000 % 0x100) as u8,
        (v / 0x100_0000) as u8,
    ]
}

/// The bytes of a 64-bit word.
pub open spec fn bytes64(v: u64) -> Seq<u8> {
    bytes32((v % 0x1_0000_0000) as u32) + bytes32((v / 0x1_0000_0000) as u32)
}

/// The bytes of a list of numbers.
pub open spec fn number_bytes(s: Seq<F32>) -> Seq<u8>
    decreases s.len(),
{
    if s.len() == 0 {
        Seq::empty()
    } else {
        number_bytes(s.drop_last()) + bytes32(s.last().bits)
    }
}

/// The numbers whose bits a byte string holds, four bytes each.
pub open spec fn numbers_in(b: Seq<u8>) -> Seq<F32> {
    Seq::new(b.len() / 4, |i: int| F32 { bits: word32(b, 4 * i) })
}

/// A 32-bit word is read as it was written.
pub proof fn lemma_word32(v: u32, b: Seq<u8>, i: int)
    requires
        0 <= i,
        i + 4 <= b.len(),
        b.subrange(i, i + 4) == bytes32(v),
    ensures
        word32(b, i) == v,
{
    let s = b.subrange(i, i + 4);
    assert(s[0] == b[i] && s[1] == b[i + 1] && s[2] == b[i + 2] && s[3] == b[i + 3]);
    assert(v == v % 0x100 + v / 0x100 % 0x100 * 0x100 + v / 0x1_0000 % 0x100 * 0x1_0000 + v
        / 0x100_0000 * 0x100_0000);
}

/// A 64-bit word is read as it was written.
pub proof fn lemma_word64(v: u64, b: Seq<u8>, i: int)
    requires
        0 <= i,
        i + 8 <= b.len(),
        b.subrange(i, i + 8) == bytes64(v),
    ensures
        word64(b, i) == v,
{
    let s = b.subrange(i, i + 8);
    assert(b.subrange(i, i + 4) =~= s.subrange(0, 4));
    assert(b.subrange(i + 4, i + 8) =~= s.subrange(4, 8));
    assert(s.subrange(0, 4) =~= bytes32((v % 0x1_0000_0000) as u32));
    assert(s.subrange(4, 8) =~= bytes32((v / 0x1_0000_0000) as u32));
    lemma_word32((v % 0x1_0000_0000) as u32, b, i);
    lemma_word32((v / 0x1_0000_0000) as u32, b, i + 4);
}

/// Numbers are read as they were written.
pub proof fn lemma_numbers_read_back(s: Seq<F32>)
    ensures
        number_bytes(s).len() == 4 * s.len(),
        numbers_in(number_bytes(s)) == s,
    decreases s.len(),
{
    if s.len() > 0 {
        let low = s.drop_last();
        lemma_numbers_read_back(low);
        let b = number_bytes(s);
        let b0 = number_bytes(low);
        let end = 4 * (low.len() as int);
        assert(b.subrange(end, end + 4) =~= bytes32(s.last().bits));
        lemma_word32(s.last().bits, b, end);
        assert forall|k: int| 0 <= k < s.len() implies numbers_in(b)[k] == #[trigger] s[k] by {
            if k < low.len() {
                assert(numbers_in(b0)[k] == low[k]);
                assert(b[4 * k] == b0[4 * k]);
                assert(b[4 * k + 1] == b0[4 * k + 1]);
                assert(b[4 * k + 2] == b0[4 * k + 2]);
                assert(b[4 * k + 3] == b0[4 * k + 3]);
            } else {
                assert(s.last() == (F32 { bits: s.last().bits }));
            }
        }
        assert(numbers_in(b) =~= s);
    } else {
        assert(numbers_in(number_bytes(s)) =~= s);
    }
}

/// Reads the 32-bit word whose bytes begin at place `i`.
pub fn read_word32(b: &[u8], i: usize) -> (v: u32)
    requires
        i + 4 <= b@.len(),
    ensures
        v == word32(b@, i as int),
{
    assert(b.len() == b@.len());
    b[i] as u32 + b[i + 1] as u32 * 0x100 + b[i + 2] as u32 * 0x1_0000 + b[i + 3] as u32
        * 0x100_0000
}

/// Reads the 64-bit word whose bytes begin at place `i`.
pub fn read_word64(b: &[u8], i: usize) -> (v: u64)
    requires
        i + 8 <= b@.len(),
    ensures
        v == word64(b@, i as int),
{
    assert(b.len() == b@.len());
    read_word32(b, i) as u64 + read_word32(b, i + 4) as u64 * 0x1_0000_0000
}

/// Appends the bytes of a 32-bit word.
pub fn write_word32(out: &mut Vec<u8>, v: u32)
    ensures
        final(out)@ == old(out)@ + bytes32(v),
{
    let ghost before = out@;
    out.push((v % 0x100) as u8);
    out.push((v / 0x100 % 0x100) as u8);
    out.push((v / 0x1_0000 % 0x100) as u8);
    out.push((v / 0x100_0000) as u8);
    assert(out@ =~= before + bytes32(v));
}

/// Appends the bytes of a 64-bit word.
pub fn write_word64(out: &mut Vec<u8>, v: u64)
    ensures
        final(out)@ == old(out)@ + bytes64(v),
{
    let ghost before = out@;
    write_word32(out, (v % 0x1_0000_0000) as u32);
    write_word32(out, (v / 0x1_0000_0000) as u32);
    assert(out@ =~= before + bytes64(v));
}

/// The bytes of a list of numbers.
pub fn numbers_to_bytes(s: &[F32]) -> (out: Vec<u8>)
    ensures
        out@ == number_bytes(s@),
{
    let mut out: Vec<u8> = Vec::new();
    let mut i: usize = 0;
    assert(s@.take(0) =~= Seq::<F32>::empty());
    while i < s.len()
        invariant
            i <= s@.len(),
            out@ == number_bytes(s@.take(i as int)),
        decreases s@.len() - i,
    {
        write_word32(&mut out, s[i].bits);
        assert(s@.take(i + 1).drop_last() =~= s@.take(i as int));
        i = i + 1;
    }
    assert(s@.take(i as int) =~= s@);
    out
}

} // verus!
