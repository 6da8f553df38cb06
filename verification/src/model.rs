//! The file format of trained models.
//!
//! A file is a header, the arrays of the forest, and the tables of the target encoders, all
//! in little-endian words. An array is preceded by its length, and a table by the number of
//! its entries, which may stand in any order.

use std::collections::HashMap;
use vstd::prelude::*;

use crate::float::F32;
use crate::words::bytes32;
use crate::words::bytes64;
use crate::words::lemma_word32;
use crate::words::lemma_word64;
use crate::words::read_word32;
use crate::words::read_word64;
use crate::words::word32;
use crate::words::word64;
use crate::words::write_word32;
use crate::words::write_word64;

verus! {

/// What a model file holds.
pub struct Model {
    pub n_features: u32,
    pub n_trees: u32,
    pub depth: u32,
    pub logistic: bool,
    pub base: F32,
    pub gmean: F32,
    pub buckets: u64,
    pub categorical: Seq<u32>,
    pub feat: Seq<u32>,
    pub thr: Seq<F32>,
    pub leafval: Seq<F32>,
    pub tables: Seq<Map<i64, F32>>,
}

/// Why bytes are no model.
#[derive(Clone, Copy, PartialEq, Eq, Debug, Structural)]
pub enum ModelError {
    /// They end too early.
    UnexpectedEof,
    /// They do not begin as a model file does.
    InvalidData,
}

/// What a model file begins with.
pub open spec fn magic() -> Seq<u8> {
    seq![0x52u8, 0x57u8, 0x44u8, 0x31u8]
}

/// Something that is stored as a 32-bit word.
pub trait Word: Copy {
    spec fn word(self) -> u32;

    fn to_word(self) -> (w: u32)
        ensures
            w == self.word(),
    ;
}

impl Word for u32 {
    open spec fn word(self) -> u32 {
        self
    }

    fn to_word(self) -> (w: u32) {
        self
    }
}

impl Word for F32 {
    open spec fn word(self) -> u32 {
        self.bits
    }

    fn to_word(self) -> (w: u32) {
        self.bits
    }
}

/// The words of a list.
pub open spec fn words_of<T: Word>(s: Seq<T>) -> Seq<u32> {
    Seq::new(s.len(), |i: int| s[i].word())
}

/// The bytes of the first `k` words of a list.
pub open spec fn word_bytes(s: Seq<u32>, k: nat) -> Seq<u8>
    decreases k,
{
    if k == 0 {
        Seq::empty()
    } else {
        word_bytes(s, (k - 1) as nat) + bytes32(s[k - 1])
    }
}

/// The bytes of an array: its length, and its words.
#[verifier::opaque]
pub open spec fn array_bytes(s: Seq<u32>) -> Seq<u8> {
    bytes32(s.len() as u32) + word_bytes(s, s.len())
}

/// The bytes of the first `k` entries of a table.
pub open spec fn entry_bytes(l: Seq<(i64, F32)>, k: nat) -> Seq<u8>
    decreases k,
{
    if k == 0 {
        Seq::empty()
    } else {
        entry_bytes(l, (k - 1) as nat) + bytes64(l[k - 1].0 as u64) + bytes32(l[k - 1].1.bits)
    }
}

/// The bytes of the first `k` tables, whose entries are listed.
pub open spec fn table_bytes(lists: Seq<Seq<(i64, F32)>>, k: nat) -> Seq<u8>
    decreases k,
{
    if k == 0 {
        Seq::empty()
    } else {
        table_bytes(lists, (k - 1) as nat) + bytes32(lists[k - 1].len() as u32) + entry_bytes(
            lists[k - 1],
            lists[k - 1].len(),
        )
    }
}

/// The bytes of the header of a model file.
#[verifier::opaque]
pub open spec fn header_bytes(m: Model) -> Seq<u8> {
    magic() + bytes32(1) + bytes32(m.n_features) + bytes32(m.n_trees) + bytes32(m.depth) + bytes32(
        if m.logistic {
            1
        } else {
            0
        },
    ) + bytes32(m.base.bits) + bytes32(m.gmean.bits) + bytes64(m.buckets)
}

/// The bytes of a model file in which the entries of the tables are listed as given.
pub open spec fn image(m: Model, lists: Seq<Seq<(i64, F32)>>) -> Seq<u8> {
    header_bytes(m) + array_bytes(m.categorical) + array_bytes(m.feat) + array_bytes(
        words_of(m.thr),
    ) + array_bytes(words_of(m.leafval)) + (bytes32(lists.len() as u32) + table_bytes(
        lists,
        lists.len(),
    ))
}

/// The list has the entries of the table, each once.
pub open spec fn lists_table(l: Seq<(i64, F32)>, table: Map<i64, F32>) -> bool {
    &&& forall|j: int|
        0 <= j < l.len() ==> table.contains_key((#[trigger] l[j]).0) && table[l[j].0] == l[j].1
    &&& forall|key: i64| #[trigger]
        table.contains_key(key) ==> exists|j: int| 0 <= j < l.len() && (#[trigger] l[j]).0 == key
    &&& forall|i: int, j: int|
        0 <= i < j < l.len() ==> (#[trigger] l[i]).0 != (#[trigger] l[j]).0
}

/// The lists have the entries of the tables.
pub open spec fn lists_tables(lists: Seq<Seq<(i64, F32)>>, tables: Seq<Map<i64, F32>>) -> bool {
    &&& lists.len() == tables.len()
    &&& forall|k: int| 0 <= k < lists.len() ==> lists_table(#[trigger] lists[k], tables[k])
}

/// The bytes are a file of the model.
pub open spec fn is_file_of(bytes: Seq<u8>, m: Model) -> bool {
    exists|lists: Seq<Seq<(i64, F32)>>|
        lists_tables(lists, m.tables) && bytes == #[trigger] image(m, lists)
}

/// The `n` words from place `p` on.
pub open spec fn words_at(b: Seq<u8>, p: int, n: nat) -> Seq<u32> {
    Seq::new(n, |i: int| word32(b, p + 4 * i))
}

/// The numbers with the given bits.
pub open spec fn numbers_of(s: Seq<u32>) -> Seq<F32> {
    Seq::new(s.len(), |i: int| F32 { bits: s[i] })
}

/// Where the array at place `p` ends, if it does.
pub open spec fn array_end(b: Seq<u8>, p: int) -> Option<int> {
    if p + 4 <= b.len() && p + 4 + 4 * word32(b, p) <= b.len() {
        Some(p + 4 + 4 * word32(b, p))
    } else {
        None
    }
}

/// The words of the array at place `p`.
pub open spec fn array_at(b: Seq<u8>, p: int) -> Seq<u32> {
    words_at(b, p + 4, word32(b, p) as nat)
}

/// The table made of the first `k` entries from place `p` on; the last of several entries
/// with one key counts.
pub open spec fn entries_at(b: Seq<u8>, p: int, k: nat) -> Map<i64, F32>
    decreases k,
{
    if k == 0 {
        Map::empty()
    } else {
        let at = p + 12 * (k - 1);
        entries_at(b, p, (k - 1) as nat).insert(
            word64(b, at) as i64,
            F32 { bits: word32(b, at + 8) },
        )
    }
}

/// Where the table at place `p` ends, if it does.
pub open spec fn table_end(b: Seq<u8>, p: int) -> Option<int> {
    if p + 4 <= b.len() && p + 4 + 12 * word32(b, p) <= b.len() {
        Some(p + 4 + 12 * word32(b, p))
    } else {
        None
    }
}

/// The first `k` tables from place `p` on, and where they end, if they do.
pub open spec fn tables_at(b: Seq<u8>, p: int, k: nat) -> Option<(Seq<Map<i64, F32>>, int)>
    decreases k,
{
    if k == 0 {
        Some((Seq::empty(), p))
    } else {
        match tables_at(b, p, (k - 1) as nat) {
            None => None,
            Some((tables, q)) => match table_end(b, q) {
                None => None,
                Some(end) => Some(
                    (tables.push(entries_at(b, q + 4, word32(b, q) as nat)), end),
                ),
            },
        }
    }
}

/// Where the first `k` tables from place `p` on end, if they do.
pub open spec fn tables_end(b: Seq<u8>, p: int, k: nat) -> Option<int> {
    match tables_at(b, p, k) {
        None => None,
        Some((_, end)) => Some(end),
    }
}

/// The model that bytes hold.
#[verifier::opaque]
pub open spec fn read_model(b: Seq<u8>) -> Result<Model, ModelError> {
    if b.len() < 4 {
        Err(ModelError::UnexpectedEof)
    } else if b.take(4) != magic() {
        Err(ModelError::InvalidData)
    } else if b.len() < 40 {
        Err(ModelError::UnexpectedEof)
    } else {
        match array_end(b, 40) {
            None => Err(ModelError::UnexpectedEof),
            Some(p1) => match array_end(b, p1) {
                None => Err(ModelError::UnexpectedEof),
                Some(p2) => match array_end(b, p2) {
                    None => Err(ModelError::UnexpectedEof),
                    Some(p3) => match array_end(b, p3) {
                        None => Err(ModelError::UnexpectedEof),
                        Some(p4) => if p4 + 4 > b.len() {
                            Err(ModelError::UnexpectedEof)
                        } else {
                            match tables_at(b, p4 + 4, word32(b, p4) as nat) {
                                None => Err(ModelError::UnexpectedEof),
                                Some((tables, _)) => Ok(
                                    Model {
                                        n_features: word32(b, 8),
                                        n_trees: word32(b, 12),
                                        depth: word32(b, 16),
                                        logistic: word32(b, 20) == 1,
                                        base: F32 { bits: word32(b, 24) },
                                        gmean: F32 { bits: word32(b, 28) },
                                        buckets: word64(b, 32),
                                        categorical: array_at(b, 40),
                                        feat: array_at(b, p1),
                                        thr: numbers_of(array_at(b, p2)),
                                        leafval: numbers_of(array_at(b, p3)),
                                        tables,
                                    },
                                ),
                            }
                        },
                    },
                },
            },
        }
    }
}

/// Where the model that bytes hold ends, if it does.
pub open spec fn model_end(b: Seq<u8>) -> Option<int> {
    match array_end(b, 40) {
        None => None,
        Some(p1) => match array_end(b, p1) {
            None => None,
            Some(p2) => match array_end(b, p2) {
                None => None,
                Some(p3) => match array_end(b, p3) {
                    None => None,
                    Some(p4) => if p4 + 4 > b.len() {
                        None
                    } else {
                        tables_end(b, p4 + 4, word32(b, p4) as nat)
                    },
                },
            },
        },
    }
}

/// The lengths of a model can be written.
pub open spec fn writable(m: Model) -> bool {
    &&& m.categorical.len() <= u32::MAX
    &&& m.feat.len() <= u32::MAX
    &&& m.thr.len() <= u32::MAX
    &&& m.leafval.len() <= u32::MAX
    &&& m.tables.len() <= u32::MAX
    &&& forall|k: int|
        0 <= k < m.tables.len() ==> (#[trigger] m.tables[k]).dom().finite() && m.tables[k].len()
            <= u32::MAX
}

proof fn lemma_word_bytes_len(s: Seq<u32>, k: nat)
    ensures
        word_bytes(s, k).len() == 4 * k,
    decreases k,
{
    if k > 0 {
        lemma_word_bytes_len(s, (k - 1) as nat);
    }
}

/// Words are read as they were written.
proof fn lemma_words(b: Seq<u8>, p: int, s: Seq<u32>, k: nat)
    requires
        0 <= p,
        k <= s.len(),
        p + 4 * k <= b.len(),
        b.subrange(p, p + 4 * k) == word_bytes(s, k),
    ensures
        forall|i: int| 0 <= i < k ==> word32(b, p + 4 * i) == #[trigger] s[i],
    decreases k,
{
    if k > 0 {
        let low = (k - 1) as nat;
        lemma_word_bytes_len(s, low);
        let all = b.subrange(p, p + 4 * k);
        let cut = 4 * low as int;
        assert(b.subrange(p, p + cut) =~= all.subrange(0, cut));
        assert(all.subrange(0, cut) =~= word_bytes(s, low));
        assert(b.subrange(p + cut, p + cut + 4) =~= all.subrange(cut, cut + 4));
        assert(all.subrange(cut, cut + 4) =~= bytes32(s[low as int]));
        lemma_words(b, p, s, low);
        lemma_word32(s[low as int], b, p + 4 * low);
    }
}

/// An array is read as it was written.
proof fn lemma_array(b: Seq<u8>, p: int, s: Seq<u32>)
    requires
        0 <= p,
        s.len() <= u32::MAX,
        p + array_bytes(s).len() <= b.len(),
        b.subrange(p, p + array_bytes(s).len()) == array_bytes(s),
    ensures
        array_bytes(s).len() == 4 + 4 * s.len(),
        array_end(b, p) == Some(p + 4 + 4 * s.len()),
        array_at(b, p) == s,
{
    reveal(array_bytes);
    lemma_word_bytes_len(s, s.len());
    let n = s.len() as int;
    let all = b.subrange(p, p + 4 + 4 * n);
    assert(b.subrange(p, p + 4) =~= all.subrange(0, 4));
    assert(all.subrange(0, 4) =~= bytes32(n as u32));
    lemma_word32(n as u32, b, p);
    assert(b.subrange(p + 4, p + 4 + 4 * n) =~= all.subrange(4, 4 + 4 * n));
    assert(all.subrange(4, 4 + 4 * n) =~= word_bytes(s, s.len()));
    lemma_words(b, p + 4, s, s.len());
    assert(array_at(b, p) =~= s);
}

proof fn lemma_entry_bytes_len(l: Seq<(i64, F32)>, k: nat)
    ensures
        entry_bytes(l, k).len() == 12 * k,
    decreases k,
{
    if k > 0 {
        lemma_entry_bytes_len(l, (k - 1) as nat);
    }
}

/// Entries with different keys are read as they were written.
proof fn lemma_entries(b: Seq<u8>, p: int, l: Seq<(i64, F32)>, k: nat)
    requires
        0 <= p,
        k <= l.len(),
        p + 12 * k <= b.len(),
        b.subrange(p, p + 12 * k) == entry_bytes(l, k),
        forall|i: int, j: int|
            0 <= i < j < l.len() ==> (#[trigger] l[i]).0 != (#[trigger] l[j]).0,
    ensures
        forall|j: int|
            0 <= j < k ==> entries_at(b, p, k).contains_key((#[trigger] l[j]).0) && entries_at(
                b,
                p,
                k,
            )[l[j].0] == l[j].1,
        forall|key: i64| #[trigger]
            entries_at(b, p, k).contains_key(key) ==> exists|j: int|
                0 <= j < k && (#[trigger] l[j]).0 == key,
    decreases k,
{
    if k > 0 {
        let low = (k - 1) as nat;
        lemma_entry_bytes_len(l, low);
        let all = b.subrange(p, p + 12 * k);
        let at = p + 12 * low;
        let cut = 12 * low as int;
        assert(b.subrange(p, at) =~= all.subrange(0, cut));
        assert(all.subrange(0, cut) =~= entry_bytes(l, low));
        assert(b.subrange(at, at + 8) =~= all.subrange(cut, cut + 8));
        assert(all.subrange(cut, cut + 8) =~= bytes64(l[low as int].0 as u64));
        assert(b.subrange(at + 8, at + 12) =~= all.subrange(cut + 8, cut + 12));
        assert(all.subrange(cut + 8, cut + 12) =~= bytes32(l[low as int].1.bits));
        lemma_entries(b, p, l, low);
        lemma_word64(l[low as int].0 as u64, b, at);
        lemma_word32(l[low as int].1.bits, b, at + 8);
        let key = l[low as int].0;
        assert((key as u64) as i64 == key) by (bit_vector);
        let before = entries_at(b, p, low);
        let after = entries_at(b, p, k);
        assert(after == before.insert(key, l[low as int].1));
        assert forall|j: int| 0 <= j < k implies after.contains_key((#[trigger] l[j]).0)
            && after[l[j].0] == l[j].1 by {
            if j < low {
                assert(l[j].0 != l[low as int].0);
                assert(before.contains_key(l[j].0));
            }
        }
        assert forall|other: i64| #[trigger] after.contains_key(other) implies exists|j: int|
            0 <= j < k && (#[trigger] l[j]).0 == other by {
            if other == key {
                assert(l[low as int].0 == other);
            } else {
                assert(before.contains_key(other));
                let j = choose|j: int| 0 <= j < low && (#[trigger] l[j]).0 == other;
                assert(0 <= j < k && l[j].0 == other);
            }
        }
    }
}

/// A listed table has no fewer entries than its list.
proof fn lemma_list_len(l: Seq<(i64, F32)>, table: Map<i64, F32>)
    requires
        lists_table(l, table),
        table.dom().finite(),
    ensures
        l.len() <= table.len(),
{
    let keys = Seq::new(l.len(), |j: int| l[j].0);
    assert(keys.no_duplicates()) by {
        assert forall|i: int, j: int| 0 <= i < keys.len() && 0 <= j < keys.len() && i
            != j implies keys[i] != keys[j] by {
            if i < j {
                assert(l[i].0 != l[j].0);
            } else {
                assert(l[j].0 != l[i].0);
            }
        }
    }
    keys.unique_seq_to_set();
    assert(keys.to_set().subset_of(table.dom())) by {
        assert forall|key: i64| keys.to_set().contains(key) implies #[trigger] table.dom().contains(
            key,
        ) by {
            let j = choose|j: int| 0 <= j < keys.len() && keys[j] == key;
            assert(table.contains_key(l[j].0));
        }
    }
    vstd::set_lib::lemma_len_subset(keys.to_set(), table.dom());
}

/// Tables are read as they were written.
proof fn lemma_tables(
    b: Seq<u8>,
    p: int,
    lists: Seq<Seq<(i64, F32)>>,
    tables: Seq<Map<i64, F32>>,
    k: nat,
)
    requires
        0 <= p,
        k <= lists.len(),
        lists_tables(lists, tables),
        forall|j: int|
            0 <= j < tables.len() ==> (#[trigger] tables[j]).dom().finite() && tables[j].len()
                <= u32::MAX,
        p + table_bytes(lists, k).len() <= b.len(),
        b.subrange(p, p + table_bytes(lists, k).len()) == table_bytes(lists, k),
    ensures
        tables_at(b, p, k) == Some((tables.take(k as int), p + table_bytes(lists, k).len())),
    decreases k,
{
    if k > 0 {
        let low = (k - 1) as nat;
        let l = lists[low as int];
        let table = tables[low as int];
        let head = table_bytes(lists, low);
        let whole = table_bytes(lists, k);
        lemma_entry_bytes_len(l, l.len());
        assert(lists_table(l, table));
        lemma_list_len(l, table);
        let all = b.subrange(p, p + whole.len());
        let cut = head.len() as int;
        let q = p + cut;
        let n = l.len();
        assert(whole.len() == cut + 4 + 12 * n);
        assert(b.subrange(p, q) =~= all.subrange(0, cut));
        assert(all.subrange(0, cut) =~= head);
        lemma_tables(b, p, lists, tables, low);
        assert(b.subrange(q, q + 4) =~= all.subrange(cut, cut + 4));
        assert(all.subrange(cut, cut + 4) =~= bytes32(n as u32));
        lemma_word32(n as u32, b, q);
        assert(b.subrange(q + 4, q + 4 + 12 * n) =~= all.subrange(cut + 4, cut + 4 + 12 * n));
        assert(all.subrange(cut + 4, cut + 4 + 12 * n) =~= entry_bytes(l, n));
        lemma_entries(b, q + 4, l, n);
        let read = entries_at(b, q + 4, n);
        assert(read =~= table) by {
            assert forall|key: i64| read.contains_key(key) <==> #[trigger] table.contains_key(
                key,
            ) by {
                if read.contains_key(key) {
                    let j = choose|j: int| 0 <= j < n && (#[trigger] l[j]).0 == key;
                    assert(table.contains_key(l[j].0));
                }
                if table.contains_key(key) {
                    let j = choose|j: int| 0 <= j < l.len() && (#[trigger] l[j]).0 == key;
                    assert(read.contains_key(l[j].0));
                }
            }
            assert forall|key: i64| #[trigger] read.contains_key(key) implies read[key]
                == table[key] by {
                let j = choose|j: int| 0 <= j < n && (#[trigger] l[j]).0 == key;
                assert(read[l[j].0] == l[j].1 && table[l[j].0] == l[j].1);
            }
        }
        assert(tables.take(low as int).push(table) =~= tables.take(k as int));
    } else {
        assert(tables.take(0) =~= Seq::<Map<i64, F32>>::empty());
    }
}

/// The header fields are read as they were written.
proof fn lemma_header(b: Seq<u8>, m: Model)
    requires
        b.len() >= 40,
        b.subrange(0, 40) == header_bytes(m),
    ensures
        header_bytes(m).len() == 40,
        b.take(4) == magic(),
        word32(b, 8) == m.n_features,
        word32(b, 12) == m.n_trees,
        word32(b, 16) == m.depth,
        (word32(b, 20) == 1) == m.logistic,
        word32(b, 24) == m.base.bits,
        word32(b, 28) == m.gmean.bits,
        word64(b, 32) == m.buckets,
{
    reveal(header_bytes);
    let flag: u32 = if m.logistic {
        1
    } else {
        0
    };
    let h1 = magic() + bytes32(1);
    let h2 = h1 + bytes32(m.n_features);
    let h3 = h2 + bytes32(m.n_trees);
    let h4 = h3 + bytes32(m.depth);
    let h5 = h4 + bytes32(flag);
    let h6 = h5 + bytes32(m.base.bits);
    let h7 = h6 + bytes32(m.gmean.bits);
    lemma_parts(b, 0, h7, bytes64(m.buckets));
    lemma_parts(b, 0, h6, bytes32(m.gmean.bits));
    lemma_parts(b, 0, h5, bytes32(m.base.bits));
    lemma_parts(b, 0, h4, bytes32(flag));
    lemma_parts(b, 0, h3, bytes32(m.depth));
    lemma_parts(b, 0, h2, bytes32(m.n_trees));
    lemma_parts(b, 0, h1, bytes32(m.n_features));
    lemma_parts(b, 0, magic(), bytes32(1));
    assert(b.take(4) =~= b.subrange(0, 4));
    lemma_word32(m.n_features, b, 8);
    lemma_word32(m.n_trees, b, 12);
    lemma_word32(m.depth, b, 16);
    lemma_word32(flag, b, 20);
    lemma_word32(m.base.bits, b, 24);
    lemma_word32(m.gmean.bits, b, 28);
    lemma_word64(m.buckets, b, 32);
}

/// What stands one after the other in a part of a byte string stands there each in its place.
proof fn lemma_parts(b: Seq<u8>, p: int, x: Seq<u8>, y: Seq<u8>)
    requires
        0 <= p,
        p + x.len() + y.len() <= b.len(),
        b.subrange(p, p + x.len() + y.len()) == x + y,
    ensures
        b.subrange(p, p + x.len()) == x,
        b.subrange(p + x.len(), p + x.len() + y.len()) == y,
{
    let all = b.subrange(p, p + x.len() + y.len());
    assert forall|i: int| 0 <= i < x.len() implies #[trigger] b.subrange(p, p + x.len())[i]
        == x[i] by {
        assert(all[i] == (x + y)[i]);
    }
    assert forall|i: int| 0 <= i < y.len() implies #[trigger] b.subrange(
        p + x.len(),
        p + x.len() + y.len(),
    )[i] == y[i] by {
        assert(all[x.len() + i] == (x + y)[x.len() + i]);
    }
    assert(b.subrange(p, p + x.len()) =~= x);
    assert(b.subrange(p + x.len(), p + x.len() + y.len()) =~= y);
}

proof fn lemma_header_len(m: Model)
    ensures
        header_bytes(m).len() == 40,
{
    reveal(header_bytes);
}

/// Each section of a file stands in its place.
proof fn lemma_sections(
    b: Seq<u8>,
    h: Seq<u8>,
    a1: Seq<u8>,
    a2: Seq<u8>,
    a3: Seq<u8>,
    a4: Seq<u8>,
    count: Seq<u8>,
    tail: Seq<u8>,
)
    requires
        b == h + a1 + a2 + a3 + a4 + (count + tail),
    ensures
        ({
            let p1 = h.len() + a1.len() as int;
            let p2 = p1 + a2.len();
            let p3 = p2 + a3.len();
            let p4 = p3 + a4.len();
            let p5 = p4 + count.len();
            &&& b.len() == p5 + tail.len()
            &&& b.subrange(0, h.len() as int) == h
            &&& b.subrange(h.len() as int, p1) == a1
            &&& b.subrange(p1, p2) == a2
            &&& b.subrange(p2, p3) == a3
            &&& b.subrange(p3, p4) == a4
            &&& b.subrange(p4, p5) == count
            &&& b.subrange(p5, p5 + tail.len()) == tail
        }),
{
    let i1 = h + a1;
    let i2 = i1 + a2;
    let i3 = i2 + a3;
    let i4 = i3 + a4;
    assert(b.subrange(0, b.len() as int) =~= b);
    lemma_parts(b, 0, i4, count + tail);
    lemma_parts(b, i4.len() as int, count, tail);
    lemma_parts(b, 0, i3, a4);
    lemma_parts(b, 0, i2, a3);
    lemma_parts(b, 0, i1, a2);
    lemma_parts(b, 0, h, a1);
}

/// A model is read where its sections stand.
proof fn lemma_read(b: Seq<u8>, m: Model, p1: int, p2: int, p3: int, p4: int, end: int)
    requires
        b.len() >= 40,
        b.take(4) == magic(),
        word32(b, 8) == m.n_features,
        word32(b, 12) == m.n_trees,
        word32(b, 16) == m.depth,
        (word32(b, 20) == 1) == m.logistic,
        word32(b, 24) == m.base.bits,
        word32(b, 28) == m.gmean.bits,
        word64(b, 32) == m.buckets,
        array_end(b, 40) == Some(p1),
        array_end(b, p1) == Some(p2),
        array_end(b, p2) == Some(p3),
        array_end(b, p3) == Some(p4),
        p4 + 4 <= b.len(),
        array_at(b, 40) == m.categorical,
        array_at(b, p1) == m.feat,
        numbers_of(array_at(b, p2)) == m.thr,
        numbers_of(array_at(b, p3)) == m.leafval,
        tables_at(b, p4 + 4, word32(b, p4) as nat) == Some((m.tables, end)),
    ensures
        read_model(b) == Ok::<Model, ModelError>(m),
{
    reveal(read_model);
}

/// The arrays of a file are read where they stand.
proof fn lemma_read_arrays(b: Seq<u8>, m: Model, p1: int, p2: int, p3: int, p4: int)
    requires
        writable(m),
        p1 == 40 + array_bytes(m.categorical).len(),
        p2 == p1 + array_bytes(m.feat).len(),
        p3 == p2 + array_bytes(words_of(m.thr)).len(),
        p4 == p3 + array_bytes(words_of(m.leafval)).len(),
        p4 <= b.len(),
        b.subrange(40, p1) == array_bytes(m.categorical),
        b.subrange(p1, p2) == array_bytes(m.feat),
        b.subrange(p2, p3) == array_bytes(words_of(m.thr)),
        b.subrange(p3, p4) == array_bytes(words_of(m.leafval)),
    ensures
        array_end(b, 40) == Some(p1),
        array_end(b, p1) == Some(p2),
        array_end(b, p2) == Some(p3),
        array_end(b, p3) == Some(p4),
        array_at(b, 40) == m.categorical,
        array_at(b, p1) == m.feat,
        numbers_of(array_at(b, p2)) == m.thr,
        numbers_of(array_at(b, p3)) == m.leafval,
{
    lemma_array(b, 40, m.categorical);
    lemma_array(b, p1, m.feat);
    lemma_array(b, p2, words_of(m.thr));
    lemma_array(b, p3, words_of(m.leafval));
    assert(numbers_of(words_of(m.thr)) =~= m.thr);
    assert(numbers_of(words_of(m.leafval)) =~= m.leafval);
}

/// A model is read from its file as it was written.
#[verifier::rlimit(30)]
pub proof fn lemma_model_reads_back(b: Seq<u8>, m: Model)
    requires
        writable(m),
        is_file_of(b, m),
    ensures
        read_model(b) == Ok::<Model, ModelError>(m),
        model_end(b) == Some(b.len() as int),
{
    let lists = choose|lists: Seq<Seq<(i64, F32)>>|
        lists_tables(lists, m.tables) && b == #[trigger] image(m, lists);
    let h = header_bytes(m);
    let a1 = array_bytes(m.categorical);
    let a2 = array_bytes(m.feat);
    let a3 = array_bytes(words_of(m.thr));
    let a4 = array_bytes(words_of(m.leafval));
    let count = bytes32(lists.len() as u32);
    let tail = table_bytes(lists, lists.len());
    let p1 = 40 + a1.len() as int;
    let p2 = p1 + a2.len();
    let p3 = p2 + a3.len();
    let p4 = p3 + a4.len();
    lemma_header_len(m);
    lemma_sections(b, h, a1, a2, a3, a4, count, tail);
    lemma_header(b, m);
    lemma_read_arrays(b, m, p1, p2, p3, p4);
    lemma_word32(lists.len() as u32, b, p4);
    lemma_tables(b, p4 + 4, lists, m.tables, lists.len());
    assert(m.tables.take(lists.len() as int) =~= m.tables);
    lemma_read(b, m, p1, p2, p3, p4, p4 + 4 + tail.len());
}

/// An array that ends in the first bytes ends there in all of them.
proof fn lemma_array_prefix(b: Seq<u8>, k: int, p: int)
    requires
        0 <= k <= b.len(),
        0 <= p,
    ensures
        array_end(b.take(k), p) matches Some(q) ==> array_end(b, p) == Some(q) && p <= q <= k,
{
    let c = b.take(k);
    if p + 4 <= k {
        assert(word32(c, p) == word32(b, p));
    }
}

/// Tables that end in the first bytes end there in all of them.
proof fn lemma_tables_prefix(b: Seq<u8>, k: int, p: int, n: nat)
    requires
        0 <= k <= b.len(),
        0 <= p <= k,
    ensures
        tables_end(b.take(k), p, n) matches Some(q) ==> tables_end(b, p, n) == Some(q) && p <= q
            <= k,
    decreases n,
{
    if n > 0 {
        lemma_tables_prefix(b, k, p, (n - 1) as nat);
        let c = b.take(k);
        if let Some(q) = tables_end(c, p, (n - 1) as nat) {
            if q + 4 <= k {
                assert(word32(c, q) == word32(b, q));
            }
        }
    }
}

/// A file that is cut short, anywhere, is refused for ending too early.
pub proof fn lemma_cut_file(b: Seq<u8>, m: Model, k: int)
    requires
        writable(m),
        is_file_of(b, m),
        0 <= k < b.len(),
    ensures
        read_model(b.take(k)) == Err::<Model, ModelError>(ModelError::UnexpectedEof),
{
    let c = b.take(k);
    lemma_model_reads_back(b, m);
    reveal(read_model);
    if k >= 4 {
        assert(c.take(4) =~= b.take(4));
    }
    if k >= 40 {
        lemma_array_prefix(b, k, 40);
        if let Some(p1) = array_end(c, 40) {
            lemma_array_prefix(b, k, p1);
            if let Some(p2) = array_end(c, p1) {
                lemma_array_prefix(b, k, p2);
                if let Some(p3) = array_end(c, p2) {
                    lemma_array_prefix(b, k, p3);
                    if let Some(p4) = array_end(c, p3) {
                        if p4 + 4 <= k {
                            assert(word32(c, p4) == word32(b, p4));
                            lemma_tables_prefix(b, k, p4 + 4, word32(b, p4) as nat);
                        }
                    }
                }
            }
        }
    }
}

/// Appends a word.
pub fn wu32(w: &mut Vec<u8>, v: u32)
    ensures
        final(w)@ == old(w)@ + bytes32(v),
{
    write_word32(w, v);
}

/// Appends an array: its length, and its words.
pub fn warr<T: Word>(w: &mut Vec<u8>, s: &[T])
    ensures
        final(w)@ == old(w)@ + array_bytes(words_of(s@)),
{
    proof {
        reveal(array_bytes);
    }
    let ghost before = w@;
    let ghost all = words_of(s@);
    let len: u32 = #[verifier::truncate] (s.len() as u32);
    wu32(w, len);
    let ghost head = w@;
    let mut i: usize = 0;
    assert(w@ =~= head + word_bytes(all, 0));
    while i < s.len()
        invariant
            all == words_of(s@),
            i <= s@.len(),
            w@ == head + word_bytes(all, i as nat),
        decreases s@.len() - i,
    {
        let v: u32 = s[i].to_word();
        let ghost now = w@;
        wu32(w, v);
        assert(w@ =~= head + word_bytes(all, (i + 1) as nat));
        i = i + 1;
    }
    assert(w@ =~= before + array_bytes(all));
}

/// A place in a byte string that is being read.
pub struct Reader<'a> {
    pub bytes: &'a [u8],
    pub pos: usize,
}

impl<'a> Reader<'a> {
    pub open spec fn well_formed(self) -> bool {
        self.pos <= self.bytes@.len()
    }
}

/// Reads a word.
pub fn ru32(r: &mut Reader) -> (res: Result<u32, ModelError>)
    requires
        old(r).well_formed(),
    ensures
        final(r).bytes == old(r).bytes,
        final(r).well_formed(),
        match res {
            Ok(v) => final(r).pos == old(r).pos + 4 && v == word32(
                old(r).bytes@,
                old(r).pos as int,
            ),
            Err(e) => final(r).pos == old(r).pos && old(r).pos + 4 > old(r).bytes@.len() && e
                == ModelError::UnexpectedEof,
        },
{
    if r.bytes.len() - r.pos < 4 {
        return Err(ModelError::UnexpectedEof);
    }
    let v: u32 = read_word32(r.bytes, r.pos);
    r.pos = r.pos + 4;
    Ok(v)
}

/// Reads a number.
pub fn rf32(r: &mut Reader) -> (res: Result<F32, ModelError>)
    requires
        old(r).well_formed(),
    ensures
        final(r).bytes == old(r).bytes,
        final(r).well_formed(),
        match res {
            Ok(v) => final(r).pos == old(r).pos + 4 && v.bits == word32(
                old(r).bytes@,
                old(r).pos as int,
            ),
            Err(e) => final(r).pos == old(r).pos && old(r).pos + 4 > old(r).bytes@.len() && e
                == ModelError::UnexpectedEof,
        },
{
    match ru32(r) {
        Ok(bits) => Ok(F32 { bits }),
        Err(e) => Err(e),
    }
}

/// Reads an array of words.
pub fn rvec_u32(r: &mut Reader) -> (res: Result<Vec<u32>, ModelError>)
    requires
        old(r).well_formed(),
    ensures
        final(r).bytes == old(r).bytes,
        final(r).well_formed(),
        match res {
            Ok(v) => array_end(old(r).bytes@, old(r).pos as int) == Some(final(r).pos as int) && v@
                == array_at(old(r).bytes@, old(r).pos as int),
            Err(e) => array_end(old(r).bytes@, old(r).pos as int) is None && e
                == ModelError::UnexpectedEof,
        },
{
    let ghost p = r.pos as int;
    let n: u32 = match ru32(r) {
        Ok(n) => n,
        Err(e) => {
            return Err(e);
        },
    };
    let left: usize = r.bytes.len() - r.pos;
    if ((left / 4) as u64) < n as u64 {
        return Err(ModelError::UnexpectedEof);
    }
    let first: usize = r.pos;
    let mut v: Vec<u32> = Vec::new();
    let mut i: usize = 0;
    let bytes: &[u8] = r.bytes;
    let total: usize = bytes.len();
    while i < n as usize
        invariant
            total == bytes@.len(),
            first == p + 4,
            first + 4 * n <= total,
            i <= n,
            v@.len() == i,
            forall|k: int| 0 <= k < i ==> #[trigger] v@[k] == word32(bytes@, p + 4 + 4 * k),
        decreases n - i,
    {
        v.push(read_word32(bytes, first + 4 * i));
        i = i + 1;
    }
    r.pos = first + 4 * (n as usize);
    assert(v@ =~= array_at(bytes@, p));
    Ok(v)
}

/// Reads an array of numbers.
pub fn rvec_f32(r: &mut Reader) -> (res: Result<Vec<F32>, ModelError>)
    requires
        old(r).well_formed(),
    ensures
        final(r).bytes == old(r).bytes,
        final(r).well_formed(),
        match res {
            Ok(v) => array_end(old(r).bytes@, old(r).pos as int) == Some(final(r).pos as int) && v@
                == numbers_of(array_at(old(r).bytes@, old(r).pos as int)),
            Err(e) => array_end(old(r).bytes@, old(r).pos as int) is None && e
                == ModelError::UnexpectedEof,
        },
{
    let words = match rvec_u32(r) {
        Ok(words) => words,
        Err(e) => {
            return Err(e);
        },
    };
    let mut v: Vec<F32> = Vec::new();
    let mut i: usize = 0;
    while i < words.len()
        invariant
            i <= words@.len(),
            v@.len() == i,
            forall|k: int| 0 <= k < i ==> #[trigger] v@[k] == (F32 { bits: words@[k] }),
        decreases words@.len() - i,
    {
        v.push(F32 { bits: words[i] });
        i = i + 1;
    }
    assert(v@ =~= numbers_of(words@));
    Ok(v)
}

/// Reads a table.
pub fn rtable(r: &mut Reader) -> (res: Result<HashMap<i64, F32>, ModelError>)
    requires
        old(r).well_formed(),
    ensures
        final(r).bytes == old(r).bytes,
        final(r).well_formed(),
        match res {
            Ok(table) => table_end(old(r).bytes@, old(r).pos as int) == Some(final(r).pos as int)
                && table@ == entries_at(
                old(r).bytes@,
                old(r).pos + 4,
                word32(old(r).bytes@, old(r).pos as int) as nat,
            ),
            Err(e) => table_end(old(r).bytes@, old(r).pos as int) is None && e
                == ModelError::UnexpectedEof,
        },
{
    broadcast use vstd::std_specs::hash::group_hash_axioms;

    let ghost p = r.pos as int;
    let n: u32 = match ru32(r) {
        Ok(n) => n,
        Err(e) => {
            return Err(e);
        },
    };
    let left: usize = r.bytes.len() - r.pos;
    if ((left / 12) as u64) < n as u64 {
        return Err(ModelError::UnexpectedEof);
    }
    let first: usize = r.pos;
    let bytes: &[u8] = r.bytes;
    let total: usize = bytes.len();
    let mut table: HashMap<i64, F32> = HashMap::new();
    let mut i: usize = 0;
    while i < n as usize
        invariant
            total == bytes@.len(),
            first == p + 4,
            first + 12 * n <= total,
            i <= n,
            table@ == entries_at(bytes@, p + 4, i as nat),
        decreases n - i,
    {
        let at: usize = first + 12 * i;
        let key: i64 = #[verifier::truncate] (read_word64(bytes, at) as i64);
        table.insert(key, F32 { bits: read_word32(bytes, at + 8) });
        i = i + 1;
    }
    r.pos = first + 12 * (n as usize);
    Ok(table)
}

/// Tables that do not end are not read, whatever follows them.
proof fn lemma_tables_cut(b: Seq<u8>, p: int, k: nat, n: nat)
    requires
        k <= n,
        tables_at(b, p, k) is None,
    ensures
        tables_at(b, p, n) is None,
    decreases n,
{
    if k < n {
        lemma_tables_cut(b, p, k, (n - 1) as nat);
    }
}

/// Reads `n` tables.
fn rtables(r: &mut Reader, n: u32) -> (res: Result<Vec<HashMap<i64, F32>>, ModelError>)
    requires
        old(r).well_formed(),
    ensures
        match res {
            Ok(v) => v@.len() == n && tables_at(old(r).bytes@, old(r).pos as int, n as nat) == Some(
                (crate::encoding::tables(v@), final(r).pos as int),
            ),
            Err(e) => tables_at(old(r).bytes@, old(r).pos as int, n as nat) is None && e
                == ModelError::UnexpectedEof,
        },
{
    let ghost b = r.bytes@;
    let ghost p = r.pos as int;
    let mut v: Vec<HashMap<i64, F32>> = Vec::new();
    let mut k: u32 = 0;
    assert(crate::encoding::tables(v@) =~= Seq::<Map<i64, F32>>::empty());
    while k < n
        invariant
            b == old(r).bytes@,
            p == old(r).pos,
            r.bytes@ == b,
            r.well_formed(),
            k <= n,
            v@.len() == k,
            tables_at(b, p, k as nat) == Some((crate::encoding::tables(v@), r.pos as int)),
        decreases n - k,
    {
        let ghost before = v@;
        match rtable(r) {
            Ok(table) => {
                v.push(table);
                assert(crate::encoding::tables(v@) =~= crate::encoding::tables(before).push(table@));
            },
            Err(e) => {
                proof {
                    assert(tables_at(b, p, (k + 1) as nat) is None);
                    lemma_tables_cut(b, p, (k + 1) as nat, n as nat);
                }
                return Err(e);
            },
        }
        k = k + 1;
    }
    Ok(v)
}

/// A table that is read has no more entries than are there.
proof fn lemma_entries_len(b: Seq<u8>, p: int, k: nat)
    ensures
        entries_at(b, p, k).dom().finite(),
        entries_at(b, p, k).len() <= k,
    decreases k,
{
    if k > 0 {
        lemma_entries_len(b, p, (k - 1) as nat);
    }
}

/// Tables that are read can be written.
proof fn lemma_tables_len(b: Seq<u8>, p: int, k: nat)
    requires
        tables_at(b, p, k) is Some,
    ensures
        ({
            let found = tables_at(b, p, k)->Some_0;
            &&& found.0.len() == k
            &&& forall|j: int|
                0 <= j < k ==> (#[trigger] found.0[j]).dom().finite() && found.0[j].len()
                    <= u32::MAX
        }),
    decreases k,
{
    if k > 0 {
        let low = (k - 1) as nat;
        lemma_tables_len(b, p, low);
        let (before, q) = tables_at(b, p, low)->Some_0;
        lemma_entries_len(b, q + 4, word32(b, q) as nat);
        let (after, _) = tables_at(b, p, k)->Some_0;
        assert forall|j: int| 0 <= j < k implies (#[trigger] after[j]).dom().finite()
            && after[j].len() <= u32::MAX by {
            if j < low {
                assert(after[j] == before[j]);
            }
        }
    }
}

/// What was read from a model file.
pub struct Stored {
    pub n_features: u32,
    pub n_trees: u32,
    pub depth: u32,
    pub logistic: bool,
    pub base: F32,
    pub gmean: F32,
    pub buckets: u64,
    pub categorical: Vec<u32>,
    pub feat: Vec<u32>,
    pub thr: Vec<F32>,
    pub leafval: Vec<F32>,
    pub tables: Vec<HashMap<i64, F32>>,
}

impl Stored {
    pub open spec fn model(self) -> Model {
        Model {
            n_features: self.n_features,
            n_trees: self.n_trees,
            depth: self.depth,
            logistic: self.logistic,
            base: self.base,
            gmean: self.gmean,
            buckets: self.buckets,
            categorical: self.categorical@,
            feat: self.feat@,
            thr: self.thr@,
            leafval: self.leafval@,
            tables: crate::encoding::tables(self.tables@),
        }
    }
}

/// The arrays of a model file, and the place after them.
struct Arrays {
    categorical: Vec<u32>,
    feat: Vec<u32>,
    thr: Vec<F32>,
    leafval: Vec<F32>,
}

/// Where the four arrays from place 40 on end, if they do.
spec fn arrays_end(b: Seq<u8>) -> Option<int> {
    match array_end(b, 40) {
        None => None,
        Some(p1) => match array_end(b, p1) {
            None => None,
            Some(p2) => match array_end(b, p2) {
                None => None,
                Some(p3) => array_end(b, p3),
            },
        },
    }
}

/// Reads the arrays of a model file.
fn read_arrays(r: &mut Reader) -> (res: Result<Arrays, ModelError>)
    requires
        old(r).well_formed(),
        old(r).pos == 40,
    ensures
        final(r).bytes == old(r).bytes,
        final(r).well_formed(),
        match res {
            Ok(a) => {
                let b = old(r).bytes@;
                let p1 = array_end(b, 40)->0;
                let p2 = array_end(b, p1)->0;
                let p3 = array_end(b, p2)->0;
                &&& arrays_end(b) == Some(final(r).pos as int)
                &&& a.categorical@ == array_at(b, 40)
                &&& a.feat@ == array_at(b, p1)
                &&& a.thr@ == numbers_of(array_at(b, p2))
                &&& a.leafval@ == numbers_of(array_at(b, p3))
            },
            Err(e) => arrays_end(old(r).bytes@) is None && e == ModelError::UnexpectedEof,
        },
{
    let categorical = match rvec_u32(r) {
        Ok(v) => v,
        Err(e) => {
            return Err(e);
        },
    };
    let feat = match rvec_u32(r) {
        Ok(v) => v,
        Err(e) => {
            return Err(e);
        },
    };
    let thr = match rvec_f32(r) {
        Ok(v) => v,
        Err(e) => {
            return Err(e);
        },
    };
    let leafval = match rvec_f32(r) {
        Ok(v) => v,
        Err(e) => {
            return Err(e);
        },
    };
    Ok(Arrays { categorical, feat, thr, leafval })
}

/// Reads a model file; anything after it is left alone.
pub fn read_stored(bytes: &[u8]) -> (res: Result<Stored, ModelError>)
    ensures
        match res {
            Ok(s) => read_model(bytes@) == Ok::<Model, ModelError>(s.model()) && writable(
                s.model(),
            ),
            Err(e) => read_model(bytes@) == Err::<Model, ModelError>(e),
        },
{
    proof {
        reveal(read_model);
    }
    let ghost b = bytes@;
    if bytes.len() < 4 {
        return Err(ModelError::UnexpectedEof);
    }
    if !(bytes[0] == 0x52 && bytes[1] == 0x57 && bytes[2] == 0x44 && bytes[3] == 0x31) {
        assert(b.take(4)[0] == b[0] && b.take(4)[1] == b[1] && b.take(4)[2] == b[2] && b.take(
            4,
        )[3] == b[3]);
        return Err(ModelError::InvalidData);
    }
    assert(b.take(4) =~= magic());
    if bytes.len() < 40 {
        return Err(ModelError::UnexpectedEof);
    }
    let mut r = Reader { bytes, pos: 40 };
    let arrays = match read_arrays(&mut r) {
        Ok(a) => a,
        Err(e) => {
            return Err(e);
        },
    };
    let n: u32 = match ru32(&mut r) {
        Ok(n) => n,
        Err(e) => {
            return Err(e);
        },
    };
    let ghost p = r.pos as int;
    let tables = match rtables(&mut r, n) {
        Ok(v) => v,
        Err(e) => {
            return Err(e);
        },
    };
    proof {
        lemma_tables_len(b, p, n as nat);
    }
    Ok(
        Stored {
            n_features: read_word32(bytes, 8),
            n_trees: read_word32(bytes, 12),
            depth: read_word32(bytes, 16),
            logistic: read_word32(bytes, 20) == 1,
            base: F32 { bits: read_word32(bytes, 24) },
            gmean: F32 { bits: read_word32(bytes, 28) },
            buckets: read_word64(bytes, 32),
            categorical: arrays.categorical,
            feat: arrays.feat,
            thr: arrays.thr,
            leafval: arrays.leafval,
            tables,
        },
    )
}

/// The entries of a table, in any order.
pub fn entries_of(table: &HashMap<i64, F32>) -> (l: Vec<(i64, F32)>)
    ensures
        lists_table(l@, table@),
{
    broadcast use vstd::std_specs::hash::group_hash_axioms;

    let mut l: Vec<(i64, F32)> = Vec::new();
    for kv in it: table.iter()
        invariant
            it.seq() == vstd::std_specs::iter::IteratorSpec::remaining(&table.iter()),
            it.seq().no_duplicates(),
            l@.len() == it.index(),
            forall|j: int|
                0 <= j < l@.len() ==> (#[trigger] l@[j]).0 == *it.seq()[j].0 && l@[j].1
                    == *it.seq()[j].1,
    {
        l.push((*kv.0, *kv.1));
    }
    let ghost v = vstd::std_specs::iter::IteratorSpec::remaining(&table.iter());
    proof {
        assert forall|j: int| 0 <= j < l@.len() implies table@.contains_key((#[trigger] l@[j]).0)
            && table@[l@[j].0] == l@[j].1 by {
            assert(table@.contains_key(*v[j].0));
        }
        assert forall|key: i64| #[trigger] table@.contains_key(key) implies exists|j: int|
            0 <= j < l@.len() && (#[trigger] l@[j]).0 == key by {
            assert(v.contains((&key, &table@[key])));
            let j = choose|j: int| 0 <= j < v.len() && v[j] == (&key, &table@[key]);
            assert(l@[j].0 == key);
        }
        assert forall|i: int, j: int| 0 <= i < j < l@.len() implies (#[trigger] l@[i]).0 != (
        #[trigger] l@[j]).0 by {
            if l@[i].0 == l@[j].0 {
                assert(table@.contains_key(*v[i].0) && table@.contains_key(*v[j].0));
                assert(v[i] == v[j]);
            }
        }
    }
    l
}

/// Appends a table: the number of its entries, and the entries.
pub(crate) fn wtable(w: &mut Vec<u8>, table: &HashMap<i64, F32>) -> (l: Ghost<Seq<(i64, F32)>>)
    ensures
        lists_table(l@, table@),
        final(w)@ == old(w)@ + bytes32(l@.len() as u32) + entry_bytes(l@, l@.len()),
{
    let ghost before = w@;
    let l = entries_of(table);
    let len: u32 = #[verifier::truncate] (l.len() as u32);
    wu32(w, len);
    let ghost head = w@;
    let mut i: usize = 0;
    assert(w@ =~= head + entry_bytes(l@, 0));
    while i < l.len()
        invariant
            i <= l@.len(),
            w@ == head + entry_bytes(l@, i as nat),
        decreases l@.len() - i,
    {
        let (key, value) = l[i];
        let code: u64 = #[verifier::truncate] (key as u64);
        write_word64(w, code);
        wu32(w, value.bits);
        assert(w@ =~= head + entry_bytes(l@, (i + 1) as nat));
        i = i + 1;
    }
    Ghost(l@)
}

} // verus!
