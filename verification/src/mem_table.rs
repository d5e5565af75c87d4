//! The in-memory sorted table receiving current writes, with its
//! write-ahead log.
//!
//! The map is a strictly sorted run of records; inserting an exact key
//! (raw bytes and timestamp) replaces its value, as the concurrent map of
//! the write path does.

use vstd::prelude::*;
use crate::key::{
    KeyVec,
    Entry,
    entry_key,
    entry_seq_view,
    entries_sorted,
    key_lt,
    key_le,
    lemma_key_order_total,
    lemma_key_lt_trans,
    TS_DEFAULT,
};
use crate::wal::{
    Wal,
    WalEntry,
    spec_batch_enc,
    spec_payload,
    wal_entry_wf,
    spec_wal_recover,
    entries_view,
    lemma_payload_prefix,
};

verus! {

/// Records that the map accepts: key and value fit the log's length
/// prefixes, and keys are never empty.
pub open spec fn mem_entry_wf(e: (Seq<u8>, u64, Seq<u8>)) -> bool {
    1 <= e.0.len() <= 0xFFFF && e.2.len() <= 0xFFFF
}

pub open spec fn mem_entries_wf(es: Seq<(Seq<u8>, u64, Seq<u8>)>) -> bool {
    entries_sorted(es) && forall|i: int| 0 <= i < es.len() ==> mem_entry_wf(#[trigger] es[i])
}

/// The first position whose key is not below `key`.
pub open spec fn spec_lb(es: Seq<(Seq<u8>, u64, Seq<u8>)>, key: (Seq<u8>, u64)) -> int
    decreases es.len(),
{
    if es.len() == 0 {
        0
    } else if key_lt(entry_key(es[0]), key) {
        1 + spec_lb(es.skip(1), key)
    } else {
        0
    }
}

/// The first position whose key is above `key`.
pub open spec fn spec_ub(es: Seq<(Seq<u8>, u64, Seq<u8>)>, key: (Seq<u8>, u64)) -> int
    decreases es.len(),
{
    if es.len() == 0 {
        0
    } else if !key_lt(key, entry_key(es[0])) {
        1 + spec_ub(es.skip(1), key)
    } else {
        0
    }
}

/// The sorted run after storing a record: an exact key match is replaced,
/// otherwise the record enters at its position.
pub open spec fn spec_insert(es: Seq<(Seq<u8>, u64, Seq<u8>)>, e: (Seq<u8>, u64, Seq<u8>)) -> Seq<
    (Seq<u8>, u64, Seq<u8>),
> {
    let i = spec_lb(es, entry_key(e));
    if i < es.len() && entry_key(es[i]) == entry_key(e) {
        es.update(i, e)
    } else {
        es.take(i) + seq![e] + es.skip(i)
    }
}

/// The tracked byte size of a record sequence: raw key, timestamp and
/// value bytes of each record.
pub open spec fn spec_batch_bytes(es: Seq<(Seq<u8>, u64, Seq<u8>)>) -> int
    decreases es.len(),
{
    if es.len() == 0 {
        0
    } else {
        spec_batch_bytes(es.drop_last()) + es.last().0.len() + 8 + es.last().2.len()
    }
}

/// The sorted run after replaying a record sequence in order.
pub open spec fn spec_apply(
    es: Seq<(Seq<u8>, u64, Seq<u8>)>,
    log: Seq<(Seq<u8>, u64, Seq<u8>)>,
) -> Seq<(Seq<u8>, u64, Seq<u8>)>
    decreases log.len(),
{
    if log.len() == 0 {
        es
    } else if !mem_entry_wf(log[0]) {
        spec_apply(es, log.skip(1))
    } else {
        spec_apply(spec_insert(es, log[0]), log.skip(1))
    }
}

/// Both bounds of `spec_lb`.
/// Inserting a record of timestamp `rts` into a run whose records all
/// carry `rts` leaves every record at `rts`.
proof fn lemma_insert_ts(es: Seq<(Seq<u8>, u64, Seq<u8>)>, e: (Seq<u8>, u64, Seq<u8>), rts: u64)
    requires
        mem_entries_wf(es),
        forall|i: int| 0 <= i < es.len() ==> (#[trigger] es[i]).1 == rts,
        e.1 == rts,
    ensures
        forall|i: int|
            0 <= i < spec_insert(es, e).len() ==> (#[trigger] spec_insert(es, e)[i]).1 == rts,
{
    lemma_spec_lb(es, entry_key(e));
    let i = spec_lb(es, entry_key(e));
    let d = spec_insert(es, e);
    if i < es.len() && entry_key(es[i]) == entry_key(e) {
        assert forall|j: int| 0 <= j < d.len() implies (#[trigger] d[j]).1 == rts by {
            if j != i {
                assert(d[j] == es[j]);
            }
        }
    } else {
        assert forall|j: int| 0 <= j < d.len() implies (#[trigger] d[j]).1 == rts by {
            if j < i {
                assert(d[j] == es[j]);
            } else if j > i {
                assert(d[j] == es[j - 1]);
            }
        }
    }
}

/// Replaying a log whose records all carry timestamp `rts` into such a
/// run yields a run whose records all carry `rts`.
pub proof fn lemma_apply_ts(
    es: Seq<(Seq<u8>, u64, Seq<u8>)>,
    log: Seq<(Seq<u8>, u64, Seq<u8>)>,
    rts: u64,
)
    requires
        mem_entries_wf(es),
        forall|i: int| 0 <= i < es.len() ==> (#[trigger] es[i]).1 == rts,
        forall|i: int| 0 <= i < log.len() ==> (#[trigger] log[i]).1 == rts,
    ensures
        forall|i: int|
            0 <= i < spec_apply(es, log).len() ==> (#[trigger] spec_apply(es, log)[i]).1 == rts,
    decreases log.len(),
{
    if log.len() > 0 {
        assert forall|i: int| 0 <= i < log.skip(1).len() implies (
        #[trigger] log.skip(1)[i]).1 == rts by {
            assert(log.skip(1)[i] == log[i + 1]);
        }
        if !mem_entry_wf(log[0]) {
            lemma_apply_ts(es, log.skip(1), rts);
            assert(spec_apply(es, log) == spec_apply(es, log.skip(1)));
        } else {
            lemma_insert(es, log[0]);
            lemma_insert_ts(es, log[0], rts);
            lemma_apply_ts(spec_insert(es, log[0]), log.skip(1), rts);
            assert(spec_apply(es, log) == spec_apply(spec_insert(es, log[0]), log.skip(1)));
        }
    }
}

pub proof fn lemma_spec_lb(es: Seq<(Seq<u8>, u64, Seq<u8>)>, key: (Seq<u8>, u64))
    requires
        entries_sorted(es),
    ensures
        0 <= spec_lb(es, key) <= es.len(),
        forall|i: int| 0 <= i < spec_lb(es, key) ==> key_lt(entry_key(#[trigger] es[i]), key),
        forall|i: int|
            spec_lb(es, key) <= i < es.len() ==> !key_lt(entry_key(#[trigger] es[i]), key),
    decreases es.len(),
{
    if es.len() > 0 {
        assert(entries_sorted(es.skip(1))) by {
            assert forall|i: int, j: int|
                0 <= i < j < es.skip(1).len() implies key_lt(
                entry_key(#[trigger] es.skip(1)[i]),
                entry_key(#[trigger] es.skip(1)[j]),
            ) by {
                assert(es.skip(1)[i] == es[i + 1]);
                assert(es.skip(1)[j] == es[j + 1]);
            }
        }
        lemma_spec_lb(es.skip(1), key);
        if key_lt(entry_key(es[0]), key) {
            assert forall|i: int|
                0 <= i < spec_lb(es, key) implies key_lt(entry_key(#[trigger] es[i]), key) by {
                if i > 0 {
                    assert(es.skip(1)[i - 1] == es[i]);
                }
            }
            assert forall|i: int|
                spec_lb(es, key) <= i < es.len() implies !key_lt(
                entry_key(#[trigger] es[i]),
                key,
            ) by {
                assert(es.skip(1)[i - 1] == es[i]);
            }
        } else {
            assert forall|i: int|
                spec_lb(es, key) <= i < es.len() implies !key_lt(
                entry_key(#[trigger] es[i]),
                key,
            ) by {
                if i > 0 {
                    lemma_key_order_total(entry_key(es[0]), key);
                    if key_lt(entry_key(es[i]), key) {
                        lemma_key_lt_trans(entry_key(es[0]), entry_key(es[i]), key);
                    }
                }
            }
        }
    }
}

/// Both bounds of `spec_ub`.
pub proof fn lemma_spec_ub(es: Seq<(Seq<u8>, u64, Seq<u8>)>, key: (Seq<u8>, u64))
    requires
        entries_sorted(es),
    ensures
        0 <= spec_ub(es, key) <= es.len(),
        forall|i: int| 0 <= i < spec_ub(es, key) ==> !key_lt(key, entry_key(#[trigger] es[i])),
        forall|i: int|
            spec_ub(es, key) <= i < es.len() ==> key_lt(key, entry_key(#[trigger] es[i])),
    decreases es.len(),
{
    if es.len() > 0 {
        assert(entries_sorted(es.skip(1))) by {
            assert forall|i: int, j: int|
                0 <= i < j < es.skip(1).len() implies key_lt(
                entry_key(#[trigger] es.skip(1)[i]),
                entry_key(#[trigger] es.skip(1)[j]),
            ) by {
                assert(es.skip(1)[i] == es[i + 1]);
                assert(es.skip(1)[j] == es[j + 1]);
            }
        }
        lemma_spec_ub(es.skip(1), key);
        if !key_lt(key, entry_key(es[0])) {
            assert forall|i: int|
                0 <= i < spec_ub(es, key) implies !key_lt(key, entry_key(#[trigger] es[i])) by {
                if i > 0 {
                    assert(es.skip(1)[i - 1] == es[i]);
                }
            }
            assert forall|i: int|
                spec_ub(es, key) <= i < es.len() implies key_lt(
                key,
                entry_key(#[trigger] es[i]),
            ) by {
                assert(es.skip(1)[i - 1] == es[i]);
            }
        } else {
            assert forall|i: int|
                spec_ub(es, key) <= i < es.len() implies key_lt(
                key,
                entry_key(#[trigger] es[i]),
            ) by {
                if i > 0 {
                    lemma_key_lt_trans(key, entry_key(es[0]), entry_key(es[i]));
                }
            }
        }
    }
}

/// Storing a record keeps the run sorted and well-formed, and changes the
/// lookup of exactly its own key.
pub proof fn lemma_insert(es: Seq<(Seq<u8>, u64, Seq<u8>)>, e: (Seq<u8>, u64, Seq<u8>))
    requires
        mem_entries_wf(es),
        mem_entry_wf(e),
    ensures
        mem_entries_wf(spec_insert(es, e)),
        spec_insert(es, e).len() >= es.len(),
        exists|i: int|
            0 <= i < spec_insert(es, e).len() && #[trigger] spec_insert(es, e)[i] == e,
        forall|j: int|
            0 <= j < spec_insert(es, e).len() && entry_key(#[trigger] spec_insert(es, e)[j])
                != entry_key(e) ==> exists|t: int|
                0 <= t < es.len() && #[trigger] es[t] == spec_insert(es, e)[j],
        forall|t: int|
            0 <= t < es.len() && entry_key(#[trigger] es[t]) != entry_key(e) ==> exists|j: int|
                0 <= j < spec_insert(es, e).len() && #[trigger] spec_insert(es, e)[j] == es[t],
{
    let key = entry_key(e);
    let i = spec_lb(es, key);
    lemma_spec_lb(es, key);
    let es2 = spec_insert(es, e);
    if i < es.len() && entry_key(es[i]) == key {
        assert(es2 == es.update(i, e));
        assert(es2[i] == e);
        assert forall|a: int, b: int|
            0 <= a < b < es2.len() implies key_lt(
            entry_key(#[trigger] es2[a]),
            entry_key(#[trigger] es2[b]),
        ) by {
            assert(entry_key(es2[a]) == entry_key(es[a]));
            assert(entry_key(es2[b]) == entry_key(es[b]));
        }
        assert forall|j: int|
            0 <= j < es2.len() && entry_key(#[trigger] es2[j]) != key implies exists|t: int|
            0 <= t < es.len() && #[trigger] es[t] == es2[j] by {
            assert(es[j] == es2[j]);
        }
        assert forall|t: int|
            0 <= t < es.len() && entry_key(#[trigger] es[t]) != key implies exists|j: int|
            0 <= j < es2.len() && #[trigger] es2[j] == es[t] by {
            assert(es2[t] == es[t]);
        }
    } else {
        assert(es2 == es.take(i) + seq![e] + es.skip(i));
        assert(es2.len() == es.len() + 1);
        assert(es2[i] == e);
        assert forall|j: int| 0 <= j < es2.len() implies (if j < i {
            es2[j] == es[j]
        } else if j == i {
            es2[j] == e
        } else {
            es2[j] == es[j - 1]
        }) by {
            if j < i {
                assert(es2[j] == es.take(i)[j]);
            } else if j > i {
                assert(es2[j] == es.skip(i)[j - i - 1]);
            }
        }
        assert forall|a: int, b: int|
            0 <= a < b < es2.len() implies key_lt(
            entry_key(#[trigger] es2[a]),
            entry_key(#[trigger] es2[b]),
        ) by {
            lemma_key_order_total(entry_key(es2[a]), entry_key(es2[b]));
            if a == i {
                assert(!key_lt(entry_key(es[b - 1]), key));
                lemma_key_order_total(key, entry_key(es[b - 1]));
                if entry_key(es[b - 1]) == key {
                    assert(i < es.len());
                    assert(!key_lt(entry_key(es[i]), key));
                }
            } else if b == i {
                assert(key_lt(entry_key(es[a]), key));
            } else if a < i && b > i {
                assert(key_lt(entry_key(es[a]), key));
                assert(!key_lt(entry_key(es[b - 1]), key));
                if !key_lt(entry_key(es2[a]), entry_key(es2[b])) {
                    lemma_key_order_total(entry_key(es[a]), entry_key(es[b - 1]));
                }
            }
        }
        assert(mem_entries_wf(es2)) by {
            assert forall|j: int| 0 <= j < es2.len() implies mem_entry_wf(#[trigger] es2[j]) by {
                if j < i {
                    assert(es2[j] == es[j]);
                } else if j > i {
                    assert(es2[j] == es[j - 1]);
                }
            }
        }
        assert forall|j: int|
            0 <= j < es2.len() && entry_key(#[trigger] es2[j]) != key implies exists|t: int|
            0 <= t < es.len() && #[trigger] es[t] == es2[j] by {
            if j < i {
                assert(es[j] == es2[j]);
            } else if j > i {
                assert(es[j - 1] == es2[j]);
            }
        }
        assert forall|t: int|
            0 <= t < es.len() && entry_key(#[trigger] es[t]) != key implies exists|j: int|
            0 <= j < es2.len() && #[trigger] es2[j] == es[t] by {
            if t < i {
                assert(es2[t] == es[t]);
            } else {
                assert(es2[t + 1] == es[t]);
            }
        }
    }
}

/// A bound of a scan range.
pub enum KeyBound {
    Included(KeyVec),
    Excluded(KeyVec),
    Unbounded,
}

/// The first position inside the lower bound.
pub open spec fn spec_range_lo(es: Seq<(Seq<u8>, u64, Seq<u8>)>, lower: &KeyBound) -> int {
    match lower {
        KeyBound::Unbounded => 0,
        KeyBound::Included(k) => spec_lb(es, k@),
        KeyBound::Excluded(k) => spec_ub(es, k@),
    }
}

/// The first position beyond the upper bound (clamped up to the lower
/// position, so an inverted range is empty).
pub open spec fn spec_range_hi(es: Seq<(Seq<u8>, u64, Seq<u8>)>, lower: &KeyBound, upper: &KeyBound) -> int {
    let lo = spec_range_lo(es, lower);
    let hi = match upper {
        KeyBound::Unbounded => es.len() as int,
        KeyBound::Included(k) => spec_ub(es, k@),
        KeyBound::Excluded(k) => spec_lb(es, k@),
    };
    if hi < lo {
        lo
    } else {
        hi
    }
}

/// Binary search: the first position whose key is not below `key`.
pub fn lower_bound(entries: &Vec<Entry>, key: &KeyVec) -> (r: usize)
    requires
        entries_sorted(entry_seq_view(entries@)),
    ensures
        r == spec_lb(entry_seq_view(entries@), key@),
{
    let ghost es = entry_seq_view(entries@);
    proof {
        lemma_spec_lb(es, key@);
    }
    let mut lo: usize = 0;
    let mut hi: usize = entries.len();
    while lo < hi
        invariant
            0 <= lo <= hi <= es.len(),
            es == entry_seq_view(entries@),
            entries_sorted(es),
            forall|i: int| 0 <= i < lo ==> key_lt(entry_key(#[trigger] es[i]), key@),
            forall|i: int| hi <= i < es.len() ==> !key_lt(entry_key(#[trigger] es[i]), key@),
        decreases hi - lo,
    {
        let mid = lo + (hi - lo) / 2;
        let c = crate::key::key_cmp(&entries[mid].key, key);
        if c == -1 {
            proof {
                assert forall|i: int| 0 <= i < mid + 1 implies key_lt(
                    entry_key(#[trigger] es[i]),
                    key@,
                ) by {
                    if i < mid {
                        lemma_key_lt_trans(entry_key(es[i]), entry_key(es[mid as int]), key@);
                    }
                }
            }
            lo = mid + 1;
        } else {
            proof {
                lemma_key_order_total(entry_key(es[mid as int]), key@);
                assert forall|i: int| mid <= i < es.len() implies !key_lt(
                    entry_key(#[trigger] es[i]),
                    key@,
                ) by {
                    if i > mid && key_lt(entry_key(es[i]), key@) {
                        lemma_key_lt_trans(entry_key(es[mid as int]), entry_key(es[i]), key@);
                    }
                }
            }
            hi = mid;
        }
    }
    proof {
        lemma_spec_lb(es, key@);
        let sl = spec_lb(es, key@);
        if sl < lo {
            assert(key_lt(entry_key(es[sl]), key@));
        }
        if sl > lo {
            assert(!key_lt(entry_key(es[lo as int]), key@));
        }
    }
    lo
}

/// Binary search: the first position whose key is above `key`.
pub fn upper_bound(entries: &Vec<Entry>, key: &KeyVec) -> (r: usize)
    requires
        entries_sorted(entry_seq_view(entries@)),
    ensures
        r == spec_ub(entry_seq_view(entries@), key@),
{
    let ghost es = entry_seq_view(entries@);
    proof {
        lemma_spec_ub(es, key@);
    }
    let mut lo: usize = 0;
    let mut hi: usize = entries.len();
    while lo < hi
        invariant
            0 <= lo <= hi <= es.len(),
            es == entry_seq_view(entries@),
            entries_sorted(es),
            forall|i: int| 0 <= i < lo ==> !key_lt(key@, entry_key(#[trigger] es[i])),
            forall|i: int| hi <= i < es.len() ==> key_lt(key@, entry_key(#[trigger] es[i])),
        decreases hi - lo,
    {
        let mid = lo + (hi - lo) / 2;
        let c = crate::key::key_cmp(key, &entries[mid].key);
        if c == -1 {
            proof {
                assert forall|i: int| mid <= i < es.len() implies key_lt(
                    key@,
                    entry_key(#[trigger] es[i]),
                ) by {
                    if i > mid {
                        lemma_key_lt_trans(key@, entry_key(es[mid as int]), entry_key(es[i]));
                    }
                }
            }
            hi = mid;
        } else {
            proof {
                lemma_key_order_total(key@, entry_key(es[mid as int]));
                assert forall|i: int| 0 <= i < mid + 1 implies !key_lt(
                    key@,
                    entry_key(#[trigger] es[i]),
                ) by {
                    if i < mid && key_lt(key@, entry_key(es[i])) {
                        lemma_key_lt_trans(key@, entry_key(es[i]), entry_key(es[mid as int]));
                    }
                }
            }
            lo = mid + 1;
        }
    }
    proof {
        lemma_spec_ub(es, key@);
        let su = spec_ub(es, key@);
        if su < lo {
            assert(!key_lt(key@, entry_key(es[su])));
        }
        if su > lo {
            assert(key_lt(key@, entry_key(es[lo as int])));
        }
    }
    lo
}

/// The mutable in-memory table: a sorted run plus its log.
pub struct MemTable {
    pub entries: Vec<Entry>,
    pub wal: Option<Wal>,
    pub id: usize,
    pub approximate_size: usize,
}

impl MemTable {
    /// The records, sorted.
    pub open spec fn view_entries(&self) -> Seq<(Seq<u8>, u64, Seq<u8>)> {
        entry_seq_view(self.entries@)
    }

    pub open spec fn wf(&self) -> bool {
        mem_entries_wf(self.view_entries())
    }

    /// A fresh table without a log.
    pub fn create(id: usize) -> (r: MemTable)
        ensures
            r.wf(),
            r.view_entries().len() == 0,
            r.id == id,
            r.wal is None,
            r.approximate_size == 0,
    {
        let r = MemTable { entries: Vec::new(), wal: None, id, approximate_size: 0 };
        proof {
            assert(entry_seq_view(r.entries@) =~= Seq::<(Seq<u8>, u64, Seq<u8>)>::empty());
        }
        r
    }

    /// A fresh table with an empty log.
    pub fn create_with_wal(id: usize) -> (r: MemTable)
        ensures
            r.wf(),
            r.view_entries().len() == 0,
            r.id == id,
            r.wal matches Some(w) && w.buf@ == Seq::<u8>::empty(),
            r.approximate_size == 0,
    {
        let r = MemTable { entries: Vec::new(), wal: Some(Wal::create()), id, approximate_size: 0 };
        proof {
            assert(entry_seq_view(r.entries@) =~= Seq::<(Seq<u8>, u64, Seq<u8>)>::empty());
        }
        r
    }

    /// Rebuild a table from its log's bytes: replay, in order, every record
    /// of the log's valid prefix.
    pub fn recover_from_wal(id: usize, bytes: &[u8]) -> (r: MemTable)
        ensures
            r.wf(),
            r.view_entries() == spec_apply(
                Seq::<(Seq<u8>, u64, Seq<u8>)>::empty(),
                spec_wal_recover(bytes@),
            ),
            r.id == id,
            r.wal matches Some(w) && w.buf@ == bytes@,
    {
        let (wal, recovered) = Wal::recover(bytes);
        let mut entries: Vec<Entry> = Vec::new();
        let ghost log = spec_wal_recover(bytes@);
        let mut i: usize = 0;
        proof {
            assert(entry_seq_view(entries@) =~= Seq::<(Seq<u8>, u64, Seq<u8>)>::empty());
            assert(log.skip(0) =~= log);
        }
        while i < recovered.len()
            invariant
                0 <= i <= recovered@.len(),
                entries_view(recovered@) == log,
                mem_entries_wf(entry_seq_view(entries@)),
                spec_apply(Seq::<(Seq<u8>, u64, Seq<u8>)>::empty(), log) == spec_apply(
                    entry_seq_view(entries@),
                    log.skip(i as int),
                ),
            decreases recovered@.len() - i,
        {
            let e = &recovered[i];
            let ghost ev = e@;
            let ghost es0 = entry_seq_view(entries@);
            if e.key.len() >= 1 && e.key.len() <= 0xFFFF && e.value.len() <= 0xFFFF {
                let kv = KeyVec { bytes: e.key.clone(), ts: e.ts };
                let ent = Entry { key: kv, value: e.value.clone() };
                insert_entry(&mut entries, ent);
                proof {
                    assert(log[i as int] == ev);
                    assert(log.skip(i as int)[0] == ev);
                    assert(log.skip(i as int).skip(1) =~= log.skip(i + 1));
                    assert(spec_insert(es0, ev) == entry_seq_view(entries@));
                }
            } else {
                // A record the map cannot hold (an empty key) is skipped,
                // as the replay of the log's view is.
                proof {
                    assert(log[i as int] == ev);
                    assert(log.skip(i as int)[0] == ev);
                    assert(log.skip(i as int).skip(1) =~= log.skip(i + 1));
                    assert(!mem_entry_wf(ev));
                }
            }
            i += 1;
        }
        proof {
            assert(log.skip(recovered@.len() as int).len() == 0);
        }
        MemTable { entries, wal: Some(wal), id, approximate_size: 0 }
    }
}

impl MemTable {
    /// Exact lookup of one version: the value stored at this raw key and
    /// timestamp, if any.
    pub fn get(&self, key: &KeyVec) -> (r: Option<Vec<u8>>)
        requires
            self.wf(),
        ensures
            r is None <==> (forall|i: int|
                0 <= i < self.view_entries().len() ==> entry_key(#[trigger] self.view_entries()[i])
                    != key@),
            forall|i: int|
                0 <= i < self.view_entries().len() && entry_key(#[trigger] self.view_entries()[i])
                    == key@ ==> (r matches Some(v) && v@ == self.view_entries()[i].2),
    {
        let ghost es = self.view_entries();
        proof {
            lemma_spec_lb(es, key@);
        }
        let i = lower_bound(&self.entries, key);
        if i < self.entries.len() && crate::key::key_cmp(&self.entries[i].key, key) == 0 {
            proof {
                assert forall|j: int|
                    0 <= j < es.len() && entry_key(#[trigger] es[j]) == key@ implies j
                    == i as int by {
                    if j != i {
                        lemma_key_order_total(entry_key(es[j]), entry_key(es[i as int]));
                    }
                }
            }
            proof {
                assert(entry_key(es[i as int]) == key@);
            }
            Some(self.entries[i].value.clone())
        } else {
            proof {
                assert forall|j: int|
                    0 <= j < es.len() implies entry_key(#[trigger] es[j]) != key@ by {
                    if j < i {
                        lemma_key_order_total(entry_key(es[j]), key@);
                    } else {
                        lemma_key_order_total(entry_key(es[i as int]), key@);
                        if j > i {
                            lemma_key_lt_trans(key@, entry_key(es[i as int]), entry_key(es[j]));
                        }
                        lemma_key_order_total(key@, entry_key(es[j]));
                    }
                }
            }
            None
        }
    }

    /// Store one record: append it to the log when one is kept, then put it
    /// in the map. The caller flushes the log's new bytes before counting
    /// the write durable.
    pub fn put(&mut self, key: &KeyVec, value: &Vec<u8>) -> (r: Result<(), &'static str>)
        requires
            old(self).wf(),
        ensures
            final(self).wf(),
            final(self).id == old(self).id,
            r is Ok <==> mem_entry_wf((key@.0, key@.1, value@)),
            r is Ok ==> final(self).view_entries() == spec_insert(
                old(self).view_entries(),
                (key@.0, key@.1, value@),
            ),
            r is Ok ==> match old(self).wal {
                Some(w) => final(self).wal matches Some(w2) && w2.buf@ == w.buf@ + spec_batch_enc(
                    seq![(key@.0, key@.1, value@)],
                ),
                None => final(self).wal is None,
            },
            r is Ok ==> final(self).approximate_size as int == (if old(self).approximate_size
                + key@.0.len() + 8 + value@.len() > usize::MAX {
                usize::MAX as int
            } else {
                old(self).approximate_size + key@.0.len() + 8 + value@.len()
            }),
            r matches Err(m) ==> *final(self) == *old(self) && m@
                == "key or value too large for the log"@,
    {
        if key.key_len() < 1 || key.key_len() > 0xFFFF || value.len() > 0xFFFF {
            return Err("key or value too large for the log");
        }
        match &mut self.wal {
            Some(w) => {
                w.put(key, value);
            },
            None => {},
        }
        let added = key.key_len() + 8 + value.len();
        self.approximate_size = if self.approximate_size <= usize::MAX - added {
            self.approximate_size + added
        } else {
            usize::MAX
        };
        insert_entry(&mut self.entries, Entry { key: key.clone(), value: value.clone() });
        Ok(())
    }

    /// Store a batch of records, logged as one batch.
#[verifier::spinoff_prover]
    #[verifier::rlimit(100)]
    pub fn put_batch(&mut self, data: &Vec<Entry>) -> (r: Result<(), &'static str>)
        requires
            old(self).wf(),
        ensures
            final(self).wf(),
            final(self).id == old(self).id,
            r is Ok <==> ((forall|t: int|
                0 <= t < entry_seq_view(data@).len() ==> mem_entry_wf(
                    #[trigger] entry_seq_view(data@)[t],
                )) && spec_payload(entry_seq_view(data@)).len() <= 0xFFFFFFFF),
            r is Ok ==> final(self).view_entries() == spec_apply(
                old(self).view_entries(),
                entry_seq_view(data@),
            ),
            r is Ok ==> match old(self).wal {
                Some(w) => final(self).wal matches Some(w2) && w2.buf@ == w.buf@ + spec_batch_enc(
                    entry_seq_view(data@),
                ),
                None => final(self).wal is None,
            },
            r is Ok ==> final(self).approximate_size as int == (if old(self).approximate_size
                + spec_batch_bytes(entry_seq_view(data@)) > usize::MAX {
                usize::MAX as int
            } else {
                old(self).approximate_size + spec_batch_bytes(entry_seq_view(data@))
            }),
            r is Err ==> *final(self) == *old(self),
    {
        // Validate first, so that a refused batch changes nothing.
        match check_batch(data) {
            Ok(()) => {},
            Err(m) => {
                return Err(m);
            },
        }
        match &mut self.wal {
            Some(w) => {
                log_batch(w, data);
            },
            None => {},
        }
        apply_batch(&mut self.entries, data);
        let added = batch_bytes(data);
        let capped: usize = if added >= usize::MAX as u64 {
            usize::MAX
        } else {
            added as usize
        };
        self.approximate_size = if self.approximate_size <= usize::MAX - capped {
            self.approximate_size + capped
        } else {
            usize::MAX
        };
        Ok(())
    }

    /// The memtable's id.
    pub fn id(&self) -> (r: usize)
        ensures
            r == self.id,
    {
        self.id
    }

    /// The tracked byte size of everything stored so far.
    pub fn approximate_size(&self) -> (r: usize)
        ensures
            r == self.approximate_size,
    {
        self.approximate_size
    }

    pub fn is_empty(&self) -> (r: bool)
        ensures
            r == (self.view_entries().len() == 0),
    {
        self.entries.len() == 0
    }

    /// An owned cursor over the records between the bounds.
    pub fn scan(&self, lower: &KeyBound, upper: &KeyBound) -> (r: MemTableIter)
        requires
            self.wf(),
        ensures
            r.wf(),
            r.remaining() == self.view_entries().subrange(
                spec_range_lo(self.view_entries(), lower),
                spec_range_hi(self.view_entries(), lower, upper),
            ),
    {
        let ghost es = self.view_entries();
        let start = match lower {
            KeyBound::Unbounded => 0,
            KeyBound::Included(k) => lower_bound(&self.entries, k),
            KeyBound::Excluded(k) => upper_bound(&self.entries, k),
        };
        let mut end = match upper {
            KeyBound::Unbounded => self.entries.len(),
            KeyBound::Included(k) => upper_bound(&self.entries, k),
            KeyBound::Excluded(k) => lower_bound(&self.entries, k),
        };
        proof {
            lemma_range_bounds(es, lower, upper);
        }
        if end < start {
            end = start;
        }
        let mut picked: Vec<Entry> = Vec::new();
        let mut i = start;
        proof {
            assert(entry_seq_view(picked@) =~= es.subrange(start as int, start as int));
        }
        while i < end
            invariant
                start <= i <= end <= self.entries@.len(),
                es == self.view_entries(),
                entry_seq_view(picked@) == es.subrange(start as int, i as int),
            decreases end - i,
        {
            let ghost prev = picked@;
            let c = self.entries[i].clone();
            proof {
                assert(c@ == self.entries@[i as int]@);
            }
            picked.push(c);
            proof {
                assert(entry_seq_view(prev).len() == prev.len());
                assert(prev.len() == i - start);
                assert(picked@.len() == i - start + 1);
                assert forall|z: int|
                    0 <= z < picked@.len() implies entry_seq_view(picked@)[z] == es.subrange(
                    start as int,
                    i + 1,
                )[z] by {
                    if z < i - start {
                        assert(picked@[z] == prev[z]);
                        assert(entry_seq_view(prev)[z] == es.subrange(start as int, i as int)[z]);
                    } else {
                        assert(z == i - start);
                        assert(picked@[z] == c);
                    }
                }
                assert(entry_seq_view(picked@) =~= es.subrange(start as int, i + 1));
            }
            i += 1;
        }
        MemTableIter { entries: picked, pos: 0 }
    }

    /// Exact lookup by raw key at the testing timestamp.
    pub fn for_testing_get_slice(&self, key: &Vec<u8>) -> (r: Option<Vec<u8>>)
        requires
            self.wf(),
        ensures
            r is None <==> (forall|i: int|
                0 <= i < self.view_entries().len() ==> entry_key(#[trigger] self.view_entries()[i])
                    != (key@, TS_DEFAULT as u64)),
            forall|i: int|
                0 <= i < self.view_entries().len() && entry_key(#[trigger] self.view_entries()[i])
                    == (key@, TS_DEFAULT as u64) ==> (r matches Some(v) && v@
                    == self.view_entries()[i].2),
    {
        let kv = KeyVec { bytes: crate::encoding::clone_bytes(key), ts: TS_DEFAULT };
        self.get(&kv)
    }

    /// Store by raw key at the testing timestamp.
    pub fn for_testing_put_slice(&mut self, key: &Vec<u8>, value: &Vec<u8>) -> (r: Result<
        (),
        &'static str,
    >)
        requires
            old(self).wf(),
        ensures
            final(self).wf(),
            final(self).id == old(self).id,
            r is Ok <==> mem_entry_wf((key@, TS_DEFAULT as u64, value@)),
            r is Ok ==> final(self).view_entries() == spec_insert(
                old(self).view_entries(),
                (key@, TS_DEFAULT as u64, value@),
            ),
            r is Err ==> *final(self) == *old(self),
    {
        let kv = KeyVec { bytes: crate::encoding::clone_bytes(key), ts: TS_DEFAULT };
        self.put(&kv, value)
    }

    /// Scan raw-key bounds at the testing timestamp.
    pub fn for_testing_scan_slice(&self, lower: &KeyBound, upper: &KeyBound) -> (r: MemTableIter)
        requires
            self.wf(),
        ensures
            r.wf(),
            r.remaining() == self.view_entries().subrange(
                spec_range_lo(self.view_entries(), lower),
                spec_range_hi(self.view_entries(), lower, upper),
            ),
    {
        self.scan(lower, upper)
    }
}

/// The newest version of `raw` at or below `read_ts` in a sorted run:
/// because versions of one raw key sort newest first, it is the record at
/// the lower bound of `(raw, read_ts)` when that record still has `raw`.
pub fn run_get_le(entries: &Vec<Entry>, raw: &Vec<u8>, read_ts: u64) -> (r: Option<(u64, Vec<u8>)>)
    requires
        entries_sorted(entry_seq_view(entries@)),
    ensures
        ({
            let es = entry_seq_view(entries@);
            match r {
                Some((ts, v)) => {
                    &&& ts <= read_ts
                    &&& exists|i: int|
                        0 <= i < es.len() && #[trigger] es[i] == (raw@, ts, v@)
                    &&& forall|i: int|
                        0 <= i < es.len() && (#[trigger] es[i]).0 == raw@ && es[i].1 <= read_ts
                            ==> es[i].1 <= ts
                },
                None => forall|i: int|
                    0 <= i < es.len() && (#[trigger] es[i]).0 == raw@ ==> es[i].1 > read_ts,
            }
        }),
{
    let ghost es = entry_seq_view(entries@);
    let probe = KeyVec { bytes: crate::encoding::clone_bytes(raw), ts: read_ts };
    proof {
        lemma_spec_lb(es, probe@);
    }
    let i = lower_bound(entries, &probe);
    if i < entries.len() && crate::key::bytes_cmp(
        entries[i].key.bytes.as_slice(),
        raw.as_slice(),
    ) == 0 {
        let e = &entries[i];
        proof {
            assert(es[i as int].0 == raw@);
            assert(!key_lt(entry_key(es[i as int]), probe@));
            // Equal raw bytes and not below (raw, read_ts) forces ts at or
            // below read_ts.
            crate::key::lemma_bytes_order_total(es[i as int].0, raw@);
            assert(es[i as int].1 <= read_ts);
            assert forall|t: int|
                0 <= t < es.len() && (#[trigger] es[t]).0 == raw@ && es[t].1 <= read_ts implies
                es[t].1 <= es[i as int].1 by {
                if t < i {
                    assert(key_lt(entry_key(es[t]), probe@));
                    crate::key::lemma_bytes_order_total(es[t].0, raw@);
                } else if t > i {
                    assert(key_lt(entry_key(es[i as int]), entry_key(es[t])));
                    crate::key::lemma_bytes_order_total(es[t].0, es[i as int].0);
                }
            }
            assert(es[i as int] == (raw@, es[i as int].1, es[i as int].2));
        }
        Some((e.key.ts(), e.value.clone()))
    } else {
        proof {
            assert forall|t: int|
                0 <= t < es.len() && (#[trigger] es[t]).0 == raw@ implies es[t].1 > read_ts by {
                if t < i {
                    assert(key_lt(entry_key(es[t]), probe@));
                    crate::key::lemma_bytes_order_total(es[t].0, raw@);
                } else {
                    // Then the bound's record has other raw bytes; the
                    // probe sorts strictly below it, and everything from
                    // the bound on has raw bytes above `raw` — so no
                    // version of `raw` sits at or after the bound.
                    assert(i < es.len());
                    assert(!key_lt(entry_key(es[i as int]), probe@));
                    crate::key::lemma_bytes_order_total(es[i as int].0, raw@);
                    if crate::key::bytes_lt(es[i as int].0, raw@) {
                        assert(key_lt(entry_key(es[i as int]), probe@));
                    }
                    assert(crate::key::bytes_lt(raw@, es[i as int].0));
                    if t > i {
                        assert(key_lt(entry_key(es[i as int]), entry_key(es[t])));
                        crate::key::lemma_bytes_order_total(es[i as int].0, es[t].0);
                        if es[i as int].0 == es[t].0 {
                        } else {
                            crate::key::lemma_bytes_lt_trans(raw@, es[i as int].0, es[t].0);
                        }
                        crate::key::lemma_bytes_order_total(raw@, es[t].0);
                    }
                }
            }
        }
        None
    }
}

/// The records of a sorted run between the bounds, copied out.
pub fn run_range(entries: &Vec<Entry>, lower: &KeyBound, upper: &KeyBound) -> (r: Vec<Entry>)
    requires
        entries_sorted(entry_seq_view(entries@)),
    ensures
        entry_seq_view(r@) == entry_seq_view(entries@).subrange(
            spec_range_lo(entry_seq_view(entries@), lower),
            spec_range_hi(entry_seq_view(entries@), lower, upper),
        ),
{
    let ghost es = entry_seq_view(entries@);
    let start = match lower {
        KeyBound::Unbounded => 0,
        KeyBound::Included(k) => lower_bound(entries, k),
        KeyBound::Excluded(k) => upper_bound(entries, k),
    };
    let mut end = match upper {
        KeyBound::Unbounded => entries.len(),
        KeyBound::Included(k) => upper_bound(entries, k),
        KeyBound::Excluded(k) => lower_bound(entries, k),
    };
    proof {
        lemma_range_bounds(es, lower, upper);
    }
    if end < start {
        end = start;
    }
    let mut picked: Vec<Entry> = Vec::new();
    let mut i = start;
    proof {
        assert(entry_seq_view(picked@) =~= es.subrange(start as int, start as int));
    }
    while i < end
        invariant
            start <= i <= end <= entries@.len(),
            es == entry_seq_view(entries@),
            entry_seq_view(picked@) == es.subrange(start as int, i as int),
        decreases end - i,
    {
        let ghost prev = picked@;
        let c = entries[i].clone();
        proof {
            assert(c@ == entries@[i as int]@);
        }
        picked.push(c);
        proof {
            assert(entry_seq_view(prev).len() == prev.len());
            assert(prev.len() == i - start);
            assert(picked@.len() == i - start + 1);
            assert forall|z: int|
                0 <= z < picked@.len() implies entry_seq_view(picked@)[z] == es.subrange(
                start as int,
                i + 1,
            )[z] by {
                if z < i - start {
                    assert(picked@[z] == prev[z]);
                    assert(entry_seq_view(prev)[z] == es.subrange(start as int, i as int)[z]);
                } else {
                    assert(z == i - start);
                    assert(picked@[z] == c);
                }
            }
            assert(entry_seq_view(picked@) =~= es.subrange(start as int, i + 1));
        }
        i += 1;
    }
    picked
}

/// Range positions stay within the run.
pub proof fn lemma_range_bounds(es: Seq<(Seq<u8>, u64, Seq<u8>)>, lower: &KeyBound, upper: &KeyBound)
    requires
        entries_sorted(es),
    ensures
        0 <= spec_range_lo(es, lower) <= es.len(),
        0 <= spec_range_hi(es, lower, upper) <= es.len(),
        spec_range_lo(es, lower) <= spec_range_hi(es, lower, upper),
{
    match lower {
        KeyBound::Included(k) => lemma_spec_lb(es, k@),
        KeyBound::Excluded(k) => lemma_spec_ub(es, k@),
        KeyBound::Unbounded => {},
    }
    match upper {
        KeyBound::Included(k) => lemma_spec_ub(es, k@),
        KeyBound::Excluded(k) => lemma_spec_lb(es, k@),
        KeyBound::Unbounded => {},
    }
}

/// An owned cursor over a copied range of records.
pub struct MemTableIter {
    pub entries: Vec<Entry>,
    pub pos: usize,
}

impl MemTableIter {
    pub open spec fn wf(&self) -> bool {
        self.pos <= self.entries@.len()
    }

    /// The records the cursor has not yet yielded.
    pub open spec fn remaining(&self) -> Seq<(Seq<u8>, u64, Seq<u8>)> {
        entry_seq_view(self.entries@).skip(self.pos as int)
    }

    pub fn is_valid(&self) -> (r: bool)
        requires
            self.wf(),
        ensures
            r == (self.remaining().len() > 0),
    {
        self.pos < self.entries.len()
    }

    /// The key under the cursor.
    pub fn key(&self) -> (r: &KeyVec)
        requires
            self.wf(),
            self.remaining().len() > 0,
        ensures
            r@ == entry_key(self.remaining()[0]),
    {
        proof {
            assert(self.remaining()[0] == entry_seq_view(self.entries@)[self.pos as int]);
        }
        &self.entries[self.pos].key
    }

    /// The value under the cursor.
    pub fn value(&self) -> (r: &Vec<u8>)
        requires
            self.wf(),
            self.remaining().len() > 0,
        ensures
            r@ == self.remaining()[0].2,
    {
        proof {
            assert(self.remaining()[0] == entry_seq_view(self.entries@)[self.pos as int]);
        }
        &self.entries[self.pos].value
    }

    /// The records not yet yielded, copied out.
    pub fn rest_vec(&self) -> (r: Vec<Entry>)
        requires
            self.wf(),
        ensures
            entry_seq_view(r@) == self.remaining(),
    {
        let mut out: Vec<Entry> = Vec::new();
        let mut i = self.pos;
        let n = self.entries.len();
        let ghost es = entry_seq_view(self.entries@);
        proof {
            assert(entry_seq_view(out@) =~= es.subrange(self.pos as int, self.pos as int));
        }
        while i < n
            invariant
                self.pos <= i <= n,
                n == self.entries@.len(),
                es == entry_seq_view(self.entries@),
                entry_seq_view(out@) == es.subrange(self.pos as int, i as int),
            decreases n - i,
        {
            let ghost prev = out@;
            let c = self.entries[i].clone();
            proof {
                assert(c@ == self.entries@[i as int]@);
            }
            out.push(c);
            proof {
                assert(entry_seq_view(prev).len() == prev.len());
                assert forall|z: int|
                    0 <= z < out@.len() implies entry_seq_view(out@)[z] == es.subrange(
                    self.pos as int,
                    i + 1,
                )[z] by {
                    if z < i - self.pos {
                        assert(out@[z] == prev[z]);
                        assert(entry_seq_view(prev)[z] == es.subrange(
                            self.pos as int,
                            i as int,
                        )[z]);
                    } else {
                        assert(out@[z] == c);
                    }
                }
                assert(entry_seq_view(out@) =~= es.subrange(self.pos as int, i + 1));
            }
            i += 1;
        }
        proof {
            assert(es.subrange(self.pos as int, n as int) =~= es.skip(self.pos as int));
        }
        out
    }

    /// Step past the current record.
    pub fn next(&mut self) -> (r: Result<(), &'static str>)
        requires
            old(self).wf(),
            old(self).remaining().len() > 0,
        ensures
            r is Ok,
            final(self).wf(),
            final(self).remaining() == old(self).remaining().skip(1),
    {
        let n = self.entries.len();
        proof {
            assert(self.pos < n);
        }
        self.pos = self.pos + 1;
        proof {
            assert(self.remaining() =~= old(self).remaining().skip(1));
        }
        Ok(())
    }
}

/// Do every record of the batch and its whole payload fit the log's
/// length fields?
#[verifier::rlimit(100)]
fn check_batch(data: &Vec<Entry>) -> (r: Result<(), &'static str>)
    ensures
        r is Ok <==> ((forall|t: int|
            0 <= t < entry_seq_view(data@).len() ==> mem_entry_wf(
                #[trigger] entry_seq_view(data@)[t],
            )) && spec_payload(entry_seq_view(data@)).len() <= 0xFFFFFFFF),
{
    let ghost log = entry_seq_view(data@);
    let mut i: usize = 0;
    let mut total: u64 = 0;
    proof {
        assert(log.take(0) =~= Seq::<(Seq<u8>, u64, Seq<u8>)>::empty());
    }
    while i < data.len()
        invariant
            0 <= i <= data@.len(),
            log == entry_seq_view(data@),
            forall|t: int| 0 <= t < i ==> mem_entry_wf(#[trigger] log[t]),
            total == spec_payload(log.take(i as int)).len(),
            total <= 0xFFFFFFFF,
        decreases data@.len() - i,
    {
        let e = &data[i];
        if e.key.key_len() < 1 || e.key.key_len() > 0xFFFF || e.value.len() > 0xFFFF {
            proof {
                assert(!mem_entry_wf(log[i as int]));
            }
            return Err("key or value too large for the log");
        }
        proof {
            lemma_payload_prefix(log, i as int);
        }
        total = total + 12 + e.key.key_len() as u64 + e.value.len() as u64;
        if total > 0xFFFFFFFF {
            proof {
                assert(log =~= log.take(i + 1) + log.skip(i + 1));
                crate::wal::lemma_payload_concat(log.take(i + 1), log.skip(i + 1));
            }
            return Err("batch payload too large for the log");
        }
        i += 1;
    }
    proof {
        assert(log.take(log.len() as int) =~= log);
    }
    Ok(())
}


/// Append a batch's records to the log as one checksummed batch.
#[verifier::rlimit(100)]
fn log_batch(w: &mut Wal, data: &Vec<Entry>)
    requires
        forall|z: int|
            0 <= z < entry_seq_view(data@).len() ==> mem_entry_wf(
                #[trigger] entry_seq_view(data@)[z],
            ),
        spec_payload(entry_seq_view(data@)).len() <= 0xFFFFFFFF,
    ensures
        final(w).buf@ == old(w).buf@ + spec_batch_enc(entry_seq_view(data@)),
{
    let ghost log = entry_seq_view(data@);
    let mut wal_entries: Vec<WalEntry> = Vec::new();
    let mut t: usize = 0;
    proof {
        assert(entries_view(wal_entries@) =~= log.take(0));
    }
    while t < data.len()
        invariant
            0 <= t <= data@.len(),
            log == entry_seq_view(data@),
            forall|z: int| 0 <= z < log.len() ==> mem_entry_wf(#[trigger] log[z]),
            entries_view(wal_entries@) == log.take(t as int),
        decreases data@.len() - t,
    {
        let e = &data[t];
        let ghost prev = wal_entries@;
        let we = WalEntry {
            key: crate::encoding::clone_bytes(&e.key.bytes),
            ts: e.key.ts,
            value: crate::encoding::clone_bytes(&e.value),
        };
        proof {
            assert(we@ == data@[t as int]@);
        }
        wal_entries.push(we);
        proof {
            assert(entries_view(prev).len() == prev.len());
            assert(prev.len() == t as int);
            assert(wal_entries@.len() == t + 1);
            assert forall|z: int|
                0 <= z < wal_entries@.len() implies entries_view(wal_entries@)[z] == log.take(
                t + 1,
            )[z] by {
                if z < t {
                    assert(wal_entries@[z] == prev[z]);
                    assert(entries_view(prev)[z] == log.take(t as int)[z]);
                } else {
                    assert(z == t);
                    assert(wal_entries@[z] == we);
                }
            }
            assert(entries_view(wal_entries@) =~= log.take(t + 1));
        }
        t += 1;
    }
    proof {
        assert(log.take(log.len() as int) =~= log);
    }
    w.put_batch(&wal_entries);
}

/// Replay a batch's records into a sorted run, in order.
#[verifier::rlimit(100)]
fn apply_batch(entries: &mut Vec<Entry>, data: &Vec<Entry>)
    requires
        mem_entries_wf(entry_seq_view(old(entries)@)),
        forall|z: int|
            0 <= z < entry_seq_view(data@).len() ==> mem_entry_wf(
                #[trigger] entry_seq_view(data@)[z],
            ),
    ensures
        mem_entries_wf(entry_seq_view(final(entries)@)),
        entry_seq_view(final(entries)@) == spec_apply(
            entry_seq_view(old(entries)@),
            entry_seq_view(data@),
        ),
{
    let ghost log = entry_seq_view(data@);
    let mut i: usize = 0;
    proof {
        assert(log.skip(0) =~= log);
    }
    while i < data.len()
        invariant
            0 <= i <= data@.len(),
            log == entry_seq_view(data@),
            forall|z: int| 0 <= z < log.len() ==> mem_entry_wf(#[trigger] log[z]),
            mem_entries_wf(entry_seq_view(entries@)),
            spec_apply(entry_seq_view(old(entries)@), log) == spec_apply(
                entry_seq_view(entries@),
                log.skip(i as int),
            ),
        decreases data@.len() - i,
    {
        let e = &data[i];
        let ghost es0 = entry_seq_view(entries@);
        insert_entry(entries, e.clone());
        proof {
            assert(log[i as int] == e@);
            assert(log.skip(i as int)[0] == e@);
            assert(log.skip(i as int).skip(1) =~= log.skip(i + 1));
        }
        i += 1;
    }
    proof {
        assert(log.skip(log.len() as int).len() == 0);
    }
}

/// The batch's tracked byte size, saturating at the integer's top.
fn batch_bytes(data: &Vec<Entry>) -> (r: u64)
    ensures
        r as int == (if spec_batch_bytes(entry_seq_view(data@)) > u64::MAX {
            u64::MAX as int
        } else {
            spec_batch_bytes(entry_seq_view(data@))
        }),
{
    let ghost es = entry_seq_view(data@);
    let mut total: u64 = 0;
    let mut i: usize = 0;
    proof {
        assert(es.take(0).len() == 0);
    }
    while i < data.len()
        invariant
            0 <= i <= data@.len(),
            es == entry_seq_view(data@),
            total as int == (if spec_batch_bytes(es.take(i as int)) > u64::MAX {
                u64::MAX as int
            } else {
                spec_batch_bytes(es.take(i as int))
            }),
        decreases data@.len() - i,
    {
        let e = &data[i];
        proof {
            assert(es.take(i + 1).drop_last() =~= es.take(i as int));
            assert(es.take(i + 1).last() == es[i as int]);
        }
        let step_k = e.key.key_len() as u64;
        let step_v = e.value.len() as u64;
        if step_k <= u64::MAX - 8 && step_v <= u64::MAX - 8 - step_k && total <= u64::MAX
            - (step_k + 8 + step_v) {
            total = total + (step_k + 8 + step_v);
        } else {
            total = u64::MAX;
        }
        i += 1;
    }
    proof {
        assert(es.take(es.len() as int) =~= es);
    }
    total
}

/// Storing a record keeps the run sorted and well-formed.
proof fn lemma_insert_wf(es: Seq<(Seq<u8>, u64, Seq<u8>)>, e: (Seq<u8>, u64, Seq<u8>))
    requires
        mem_entries_wf(es),
        mem_entry_wf(e),
    ensures
        mem_entries_wf(spec_insert(es, e)),
{
    lemma_insert(es, e);
}

/// Store one record into a sorted run.
#[verifier::rlimit(100)]
fn insert_entry(entries: &mut Vec<Entry>, e: Entry)
    requires
        mem_entries_wf(entry_seq_view(old(entries)@)),
        mem_entry_wf(e@),
    ensures
        entry_seq_view(final(entries)@) == spec_insert(entry_seq_view(old(entries)@), e@),
        mem_entries_wf(entry_seq_view(final(entries)@)),
{
    let ghost es = entry_seq_view(entries@);
    proof {
        lemma_spec_lb(es, entry_key(e@));
        lemma_insert_wf(es, e@);
    }
    let i = lower_bound(entries, &e.key);
    if i < entries.len() && crate::key::key_cmp(&entries[i].key, &e.key) == 0 {
        entries.set(i, e);
        proof {
            assert(entry_seq_view(entries@) =~= es.update(i as int, e@));
        }
    } else {
        entries.insert(i, e);
        proof {
            assert(entry_seq_view(entries@) =~= es.take(i as int) + seq![e@] + es.skip(i as int));
            if i < es.len() {
                lemma_spec_lb(es, entry_key(e@));
                lemma_key_order_total(entry_key(es[i as int]), entry_key(e@));
            }
        }
    }
}

} // verus!
