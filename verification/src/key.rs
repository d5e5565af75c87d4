//! Composite keys: raw user bytes plus a logical timestamp.
//!
//! The total order sorts by raw bytes ascending and, for equal raw bytes,
//! by timestamp descending, so that a range scan meets the newest version
//! of a raw key before older ones.

use vstd::prelude::*;

verus! {

/// Timestamp used by the non-transactional testing interface.
pub const TS_DEFAULT: u64 = 0;

/// An owned composite key.
pub struct KeyVec {
    pub bytes: Vec<u8>,
    pub ts: u64,
}

impl View for KeyVec {
    type V = (Seq<u8>, u64);

    open spec fn view(&self) -> (Seq<u8>, u64) {
        (self.bytes@, self.ts)
    }
}

impl Clone for KeyVec {
    fn clone(&self) -> (r: Self)
        ensures
            r@ == self@,
    {
        KeyVec { bytes: self.bytes.clone(), ts: self.ts }
    }
}

impl KeyVec {
    /// The empty key; used as the "invalid" sentinel by cursors.
    pub fn new() -> (r: Self)
        ensures
            r@ == (Seq::<u8>::empty(), TS_DEFAULT as u64),
    {
        KeyVec { bytes: Vec::new(), ts: TS_DEFAULT }
    }

    pub fn from_vec_with_ts(bytes: Vec<u8>, ts: u64) -> (r: Self)
        ensures
            r@ == (bytes@, ts),
    {
        KeyVec { bytes, ts }
    }

    pub fn is_empty(&self) -> (r: bool)
        ensures
            r == (self@.0.len() == 0),
    {
        self.bytes.len() == 0
    }

    pub fn key_len(&self) -> (r: usize)
        ensures
            r == self@.0.len(),
    {
        self.bytes.len()
    }

    pub fn ts(&self) -> (r: u64)
        ensures
            r == self@.1,
    {
        self.ts
    }

    /// The raw bytes of the key, without the timestamp.
    pub fn for_testing_key_ref(&self) -> (r: &Vec<u8>)
        ensures
            r@ == self@.0,
    {
        &self.bytes
    }
}

/// Strict lexicographic order on byte strings.
pub open spec fn bytes_lt(a: Seq<u8>, b: Seq<u8>) -> bool
    decreases a.len(),
{
    if b.len() == 0 {
        false
    } else if a.len() == 0 {
        true
    } else if a[0] < b[0] {
        true
    } else if a[0] > b[0] {
        false
    } else {
        bytes_lt(a.skip(1), b.skip(1))
    }
}

pub open spec fn bytes_le(a: Seq<u8>, b: Seq<u8>) -> bool {
    bytes_lt(a, b) || a == b
}

/// Strict order on composite keys: raw bytes ascending, then timestamp
/// descending (a newer version sorts first).
pub open spec fn key_lt(a: (Seq<u8>, u64), b: (Seq<u8>, u64)) -> bool {
    bytes_lt(a.0, b.0) || (a.0 == b.0 && a.1 > b.1)
}

pub open spec fn key_le(a: (Seq<u8>, u64), b: (Seq<u8>, u64)) -> bool {
    key_lt(a, b) || a == b
}

proof fn lemma_bytes_lt_trichotomy(a: Seq<u8>, b: Seq<u8>)
    ensures
        bytes_lt(a, b) || a == b || bytes_lt(b, a),
        !(bytes_lt(a, b) && a == b),
        !(bytes_lt(a, b) && bytes_lt(b, a)),
    decreases a.len(),
{
    if a.len() != 0 && b.len() != 0 && a[0] == b[0] {
        lemma_bytes_lt_trichotomy(a.skip(1), b.skip(1));
        if a.skip(1) == b.skip(1) {
            assert forall|j: int| 0 <= j < a.len() implies a[j] == b[j] by {
                if j > 0 {
                    assert(a[j] == a.skip(1)[j - 1]);
                    assert(b[j] == b.skip(1)[j - 1]);
                }
            }
            assert(a =~= b);
        }
        if a == b {
            assert(a.skip(1) =~= b.skip(1));
        }
    } else if a == b {
        assert(a.len() == b.len());
    }
}

/// `bytes_lt` is trichotomous: for any two byte strings exactly one of
/// `a < b`, `a == b`, `b < a` holds.
pub proof fn lemma_bytes_order_total(a: Seq<u8>, b: Seq<u8>)
    ensures
        bytes_lt(a, b) || a == b || bytes_lt(b, a),
        bytes_lt(a, b) ==> !(a == b) && !bytes_lt(b, a),
        a == b ==> !bytes_lt(a, b) && !bytes_lt(b, a),
{
    lemma_bytes_lt_trichotomy(a, b);
    lemma_bytes_lt_trichotomy(b, a);
}

/// `bytes_lt` is transitive.
pub proof fn lemma_bytes_lt_trans(a: Seq<u8>, b: Seq<u8>, c: Seq<u8>)
    requires
        bytes_lt(a, b),
        bytes_lt(b, c),
    ensures
        bytes_lt(a, c),
    decreases a.len(),
{
    if a.len() != 0 && b.len() != 0 && c.len() != 0 {
        if a[0] == b[0] && b[0] == c[0] {
            lemma_bytes_lt_trans(a.skip(1), b.skip(1), c.skip(1));
        }
    }
}

/// The composite-key order is total: exactly one of `a < b`, `a == b`,
/// `b < a` holds.
pub proof fn lemma_key_order_total(a: (Seq<u8>, u64), b: (Seq<u8>, u64))
    ensures
        key_lt(a, b) || a == b || key_lt(b, a),
        key_lt(a, b) ==> !(a == b) && !key_lt(b, a),
        a == b ==> !key_lt(a, b) && !key_lt(b, a),
{
    lemma_bytes_order_total(a.0, b.0);
}

/// The composite-key order is transitive.
pub proof fn lemma_key_lt_trans(a: (Seq<u8>, u64), b: (Seq<u8>, u64), c: (Seq<u8>, u64))
    requires
        key_lt(a, b),
        key_lt(b, c),
    ensures
        key_lt(a, c),
{
    if bytes_lt(a.0, b.0) && bytes_lt(b.0, c.0) {
        lemma_bytes_lt_trans(a.0, b.0, c.0);
    }
    lemma_bytes_order_total(a.0, c.0);
}

/// Adjacent ascending keys make the whole run sorted.
pub proof fn lemma_adjacent_sorted(es: Seq<(Seq<u8>, u64, Seq<u8>)>)
    requires
        forall|i: int|
            1 <= i < es.len() ==> key_lt(entry_key(#[trigger] es[i - 1]), entry_key(es[i])),
    ensures
        entries_sorted(es),
{
    assert forall|i: int, j: int|
        0 <= i < j < es.len() implies key_lt(entry_key(#[trigger] es[i]), entry_key(
        #[trigger] es[j],
    )) by {
        lemma_key_chain(es, i, j);
    }
}

/// Transitivity chained along a run.
proof fn lemma_key_chain(es: Seq<(Seq<u8>, u64, Seq<u8>)>, i: int, j: int)
    requires
        forall|t: int|
            1 <= t < es.len() ==> key_lt(entry_key(#[trigger] es[t - 1]), entry_key(es[t])),
        0 <= i < j < es.len(),
    ensures
        key_lt(entry_key(es[i]), entry_key(es[j])),
    decreases j - i,
{
    assert(key_lt(entry_key(es[j - 1]), entry_key(es[j]))) by {
        assert(1 <= j < es.len());
    }
    if j == i + 1 {
    } else {
        lemma_key_chain(es, i, j - 1);
        lemma_key_lt_trans(entry_key(es[i]), entry_key(es[j - 1]), entry_key(es[j]));
    }
}

/// A slice of a sorted run is sorted.
pub proof fn lemma_sorted_subrange(es: Seq<(Seq<u8>, u64, Seq<u8>)>, a: int, b: int)
    requires
        entries_sorted(es),
        0 <= a <= b <= es.len(),
    ensures
        entries_sorted(es.subrange(a, b)),
{
    assert forall|i: int, j: int|
        0 <= i < j < es.subrange(a, b).len() implies key_lt(
        entry_key(#[trigger] es.subrange(a, b)[i]),
        entry_key(#[trigger] es.subrange(a, b)[j]),
    ) by {
        assert(es.subrange(a, b)[i] == es[a + i]);
        assert(es.subrange(a, b)[j] == es[a + j]);
    }
}

/// A sorted run stays sorted after dropping its first record.
pub proof fn lemma_sorted_skip1(es: Seq<(Seq<u8>, u64, Seq<u8>)>)
    requires
        entries_sorted(es),
        es.len() > 0,
    ensures
        entries_sorted(es.skip(1)),
{
    assert forall|i: int, j: int|
        0 <= i < j < es.skip(1).len() implies key_lt(
        entry_key(#[trigger] es.skip(1)[i]),
        entry_key(#[trigger] es.skip(1)[j]),
    ) by {
        assert(es.skip(1)[i] == es[i + 1]);
        assert(es.skip(1)[j] == es[j + 1]);
    }
}

/// In a sorted run the first record's key is below every later one.
pub proof fn lemma_sorted_head_min(es: Seq<(Seq<u8>, u64, Seq<u8>)>)
    requires
        entries_sorted(es),
        es.len() > 0,
    ensures
        forall|i: int| 1 <= i < es.len() ==> key_lt(entry_key(es[0]), entry_key(#[trigger] es[i])),
{
}

/// Compare two byte slices in lexicographic order.
/// Returns -1, 0 or 1 as `a` is below, equal to or above `b`.
pub fn bytes_cmp(a: &[u8], b: &[u8]) -> (c: i8)
    ensures
        c == -1 ==> bytes_lt(a@, b@),
        c == 0 ==> a@ == b@,
        c == 1 ==> bytes_lt(b@, a@),
        c == -1 || c == 0 || c == 1,
{
    let mut i: usize = 0;
    while i < a.len() && i < b.len()
        invariant
            0 <= i <= a.len(),
            i <= b.len(),
            a@.take(i as int) == b@.take(i as int),
            forall|j: int| 0 <= j < i ==> a@[j] == b@[j],
        decreases a.len() - i,
    {
        let x = a[i];
        let y = b[i];
        if x < y {
            proof {
                lemma_bytes_lt_prefix(a@, b@, i as int);
            }
            return -1;
        }
        if x > y {
            proof {
                lemma_bytes_lt_prefix(b@, a@, i as int);
            }
            return 1;
        }
        proof {
            assert(a@.take(i + 1) =~= a@.take(i as int).push(a@[i as int]));
            assert(b@.take(i + 1) =~= b@.take(i as int).push(b@[i as int]));
        }
        i += 1;
    }
    if a.len() == b.len() {
        proof {
            assert(a@ =~= b@);
        }
        0
    } else if a.len() < b.len() {
        proof {
            lemma_bytes_lt_proper_prefix(a@, b@);
        }
        -1
    } else {
        proof {
            lemma_bytes_lt_proper_prefix(b@, a@);
        }
        1
    }
}

/// If `a` and `b` agree on their first `i` bytes, both are longer than `i`,
/// and `a[i] < b[i]`, then `a` sorts below `b`.
proof fn lemma_bytes_lt_prefix(a: Seq<u8>, b: Seq<u8>, i: int)
    requires
        0 <= i < a.len(),
        i < b.len(),
        forall|j: int| 0 <= j < i ==> a[j] == b[j],
        a[i] < b[i],
    ensures
        bytes_lt(a, b),
    decreases i,
{
    if i > 0 {
        lemma_bytes_lt_prefix(a.skip(1), b.skip(1), i - 1);
    }
}

/// A proper prefix sorts below the longer string.
proof fn lemma_bytes_lt_proper_prefix(a: Seq<u8>, b: Seq<u8>)
    requires
        a.len() < b.len(),
        forall|j: int| 0 <= j < a.len() ==> a[j] == b[j],
    ensures
        bytes_lt(a, b),
    decreases a.len(),
{
    if a.len() > 0 {
        lemma_bytes_lt_proper_prefix(a.skip(1), b.skip(1));
    }
}

/// A key-value record, the common currency of memtables, blocks, tables
/// and iterators. An empty value is the tombstone of a deletion.
pub struct Entry {
    pub key: KeyVec,
    pub value: Vec<u8>,
}

impl View for Entry {
    type V = (Seq<u8>, u64, Seq<u8>);

    open spec fn view(&self) -> (Seq<u8>, u64, Seq<u8>) {
        (self.key.bytes@, self.key.ts, self.value@)
    }
}

impl Clone for Entry {
    fn clone(&self) -> (r: Self)
        ensures
            r@ == self@,
    {
        Entry { key: self.key.clone(), value: self.value.clone() }
    }
}

/// The composite key of a record's view.
pub open spec fn entry_key(e: (Seq<u8>, u64, Seq<u8>)) -> (Seq<u8>, u64) {
    (e.0, e.1)
}

/// The view of a vector of records.
pub open spec fn entry_seq_view(v: Seq<Entry>) -> Seq<(Seq<u8>, u64, Seq<u8>)> {
    v.map_values(|e: Entry| e@)
}

/// Records strictly sorted by the composite-key order: no two share a key.
pub open spec fn entries_sorted(es: Seq<(Seq<u8>, u64, Seq<u8>)>) -> bool {
    forall|i: int, j: int|
        0 <= i < j < es.len() ==> key_lt(entry_key(#[trigger] es[i]), entry_key(#[trigger] es[j]))
}

/// Compare two composite keys in the storage order.
pub fn key_cmp(a: &KeyVec, b: &KeyVec) -> (c: i8)
    ensures
        c == -1 ==> key_lt(a@, b@),
        c == 0 ==> a@ == b@,
        c == 1 ==> key_lt(b@, a@),
        c == -1 || c == 0 || c == 1,
{
    let by = bytes_cmp(a.bytes.as_slice(), b.bytes.as_slice());
    if by != 0 {
        by
    } else if a.ts > b.ts {
        -1
    } else if a.ts < b.ts {
        1
    } else {
        0
    }
}

} // verus!
