//! Where the bytes of words and of model files stand.

use vstd::prelude::*;

use crate::model::array_at;
use crate::model::array_end;
use crate::model::header_bytes;
use crate::model::image;
use crate::model::is_file_of;
use crate::model::lists_tables;
use crate::model::numbers_of;
use crate::model::read_model;
use crate::model::Model;
use crate::model::ModelError;
use crate::float::F32;
use crate::words::bytes32;
use crate::words::lemma_word32;
use crate::words::word32;
use crate::words::word64;

verus! {

/// What the byte `j` of a word counts for.
pub open spec fn weight(j: nat) -> int
    decreases j,
{
    if j == 0 {
        1
    } else {
        256 * weight((j - 1) as nat)
    }
}

/// The first byte of a 32-bit word counts least: a word changes with byte `j` by the change of the
/// byte times a power of 256.
pub proof fn lemma_byte_of_word32(b: Seq<u8>, i: int, j: nat, x: u8)
    requires
        0 <= i,
        i + 4 <= b.len(),
        j < 4,
    ensures
        word32(b.update(i + j, x), i) == word32(b, i) + (x - b[i + j]) * weight(j),
{
    reveal_with_fuel(weight, 4);
    let c = b.update(i + j, x);
    assert(forall|k: int| 0 <= k < b.len() && k != i + j ==> c[k] == b[k]);
    let d = x - b[i + j];
    if j == 0 {
        assert(d * weight(j) == d * 1) by (nonlinear_arith)
            requires
                weight(j) == 1,
        ;
    } else if j == 1 {
        assert(d * weight(j) == d * 0x100) by (nonlinear_arith)
            requires
                weight(j) == 0x100,
        ;
    } else if j == 2 {
        assert(d * weight(j) == d * 0x1_0000) by (nonlinear_arith)
            requires
                weight(j) == 0x1_0000,
        ;
    } else if j == 3 {
        assert(d * weight(j) == d * 0x100_0000) by (nonlinear_arith)
            requires
                weight(j) == 0x100_0000,
        ;
    }
}

/// The first byte of a 64-bit word counts least.
pub proof fn lemma_byte_of_word64(b: Seq<u8>, i: int, j: nat, x: u8)
    requires
        0 <= i,
        i + 8 <= b.len(),
        j < 8,
    ensures
        word64(b.update(i + j, x), i) == word64(b, i) + (x - b[i + j]) * weight(j),
{
    reveal_with_fuel(weight, 8);
    let c = b.update(i + j, x);
    assert(forall|k: int| 0 <= k < b.len() && k != i + j ==> c[k] == b[k]);
    let d = x - b[i + j];
    if j < 4 {
        lemma_byte_of_word32(b, i, j, x);
    } else {
        lemma_byte_of_word32(b, i + 4, (j - 4) as nat, x);
        let w = weight((j - 4) as nat);
        assert(weight(j) == 0x1_0000_0000 * w);
        assert(d * weight(j) == 0x1_0000_0000 * (d * w)) by (nonlinear_arith)
            requires
                weight(j) == 0x1_0000_0000 * w,
        ;
    }
}

/// The array whose length stands at place `p` of a file has the given words.
pub open spec fn holds_words(b: Seq<u8>, p: int, words: Seq<u32>) -> bool {
    &&& p + 4 + 4 * words.len() <= b.len()
    &&& word32(b, p) == words.len()
    &&& forall|i: int| 0 <= i < words.len() ==> word32(b, p + 4 + 4 * i) == #[trigger] words[i]
}

proof fn lemma_held(b: Seq<u8>, p: int)
    requires
        array_end(b, p) is Some,
    ensures
        holds_words(b, p, array_at(b, p)),
        array_end(b, p) == Some(p + 4 + 4 * array_at(b, p).len()),
{
    let words = array_at(b, p);
    assert forall|i: int| 0 <= i < words.len() implies word32(b, p + 4 + 4 * i)
        == #[trigger] words[i] by {}
}

/// The bits of numbers.
pub open spec fn bits_of(s: Seq<F32>) -> Seq<u32> {
    Seq::new(s.len(), |i: int| s[i].bits)
}

/// Bytes that are read as a model begin with its mark and hold its settings in their places, and
/// after them its arrays one after the other.
pub proof fn lemma_places(b: Seq<u8>, m: Model)
    requires
        read_model(b) == Ok::<Model, ModelError>(m),
    ensures
        b.len() >= 40,
        b[0] == 'R' as u8 && b[1] == 'W' as u8 && b[2] == 'D' as u8 && b[3] == '1' as u8,
        word32(b, 8) == m.n_features,
        word32(b, 12) == m.n_trees,
        word32(b, 16) == m.depth,
        m.logistic <==> word32(b, 20) == 1,
        word32(b, 24) == m.base.bits,
        word32(b, 28) == m.gmean.bits,
        word64(b, 32) == m.buckets,
        ({
            let p1 = 44 + 4 * m.categorical.len() as int;
            let p2 = p1 + 4 + 4 * m.feat.len();
            let p3 = p2 + 4 + 4 * m.thr.len();
            let p4 = p3 + 4 + 4 * m.leafval.len();
            &&& holds_words(b, 40, m.categorical)
            &&& holds_words(b, p1, m.feat)
            &&& holds_words(b, p2, bits_of(m.thr))
            &&& holds_words(b, p3, bits_of(m.leafval))
            &&& p4 + 4 <= b.len()
        }),
{
    reveal(read_model);
    let t = b.take(4);
    assert(t[0] == b[0] && t[1] == b[1] && t[2] == b[2] && t[3] == b[3]);
    lemma_held(b, 40);
    let p1 = array_end(b, 40)->Some_0;
    lemma_held(b, p1);
    let p2 = array_end(b, p1)->Some_0;
    lemma_held(b, p2);
    let p3 = array_end(b, p2)->Some_0;
    lemma_held(b, p3);
    assert(bits_of(numbers_of(array_at(b, p2))) =~= array_at(b, p2));
    assert(bits_of(numbers_of(array_at(b, p3))) =~= array_at(b, p3));
}

/// The file of a model says after its mark which version of the format it has.
pub proof fn lemma_version(b: Seq<u8>, m: Model)
    requires
        is_file_of(b, m),
    ensures
        b.len() >= 8,
        word32(b, 4) == 1,
{
    let lists = choose|lists: Seq<Seq<(i64, F32)>>|
        lists_tables(lists, m.tables) && b == #[trigger] image(m, lists);
    reveal(header_bytes);
    let h = header_bytes(m);
    assert(h.subrange(4, 8) =~= bytes32(1));
    assert(b.subrange(4, 8) =~= h.subrange(4, 8));
    lemma_word32(1, b, 4);
}

} // verus!
