//! Snapshot-isolated transactions: a fixed read timestamp, a private
//! write buffer, and optimistic conflict validation at commit.

use vstd::prelude::*;
use crate::key::{KeyVec, Entry, entry_seq_view, entry_key, key_lt, bytes_lt, entries_sorted};
use crate::lsm_storage::{
    LsmStore,
    spec_wins,
    spec_absent,
    state_sources,
    spec_scan_sources,
    lemma_scan_sources_sorted,
};
use crate::mem_table::{
    MemTable,
    MemTableIter,
    KeyBound,
    mem_entry_wf,
    mem_entries_wf,
    spec_insert,
    spec_apply,
    spec_range_lo,
    spec_range_hi,
    lemma_range_bounds,
    lemma_apply_ts,
};
use crate::iterators::{
    TwoMergeIterator,
    raw_sorted,
    spec_merge2_raw,
    spec_live_filter,
    spec_dedup_raw,
    spec_merge_fold,
    live_filter,
    lemma_merge_newest_per_raw_key,
    lemma_live_filter_raw_sorted,
};
use crate::table::copy_entries;
use crate::wal::spec_payload;
use crate::hashes::crc32;

verus! {

/// The newest value this write buffer holds for `raw`: the last one
/// written.
pub open spec fn spec_local_get(es: Seq<(Seq<u8>, u64, Seq<u8>)>, raw: Seq<u8>) -> Option<Seq<u8>>
    decreases es.len(),
{
    if es.len() == 0 {
        None
    } else if es.last().0 == raw {
        Some(es.last().2)
    } else {
        spec_local_get(es.drop_last(), raw)
    }
}

/// The store's map after the buffer's records are applied in order, each
/// at commit timestamp `ts`.
pub open spec fn spec_commit_apply(
    es: Seq<(Seq<u8>, u64, Seq<u8>)>,
    local: Seq<(Seq<u8>, u64, Seq<u8>)>,
    ts: u64,
) -> Seq<(Seq<u8>, u64, Seq<u8>)>
    decreases local.len(),
{
    if local.len() == 0 {
        es
    } else {
        spec_commit_apply(spec_insert(es, (local[0].0, ts, local[0].2)), local.skip(1), ts)
    }
}

/// Did a transaction committed after `read_ts` write a key whose
/// fingerprint stands in this transaction's write set `w` or read set `r`?
pub open spec fn spec_conflict(
    cts: Seq<(u64, Vec<u32>)>,
    read_ts: u64,
    w: Seq<u32>,
    r: Seq<u32>,
) -> bool {
    exists|c: int, h: int|
        #![trigger cts[c].1@[h]]
        0 <= c < cts.len() && cts[c].0 > read_ts && 0 <= h < cts[c].1@.len() && (w.contains(
            cts[c].1@[h],
        ) || r.contains(cts[c].1@[h]))
}

/// A transaction: reads see the store as of `read_ts` overlaid with the
/// transaction's own writes; writes stay private until commit.
pub struct Transaction {
    pub read_ts: u64,
    /// The private write buffer, in write order; the last write of a raw
    /// key wins. A deletion is the empty value.
    pub local: Vec<Entry>,
    pub committed: bool,
    /// Fingerprints of the raw keys read and written, for conflict
    /// validation; absent when conflict tracking is off.
    pub key_hashes: Option<(Vec<u32>, Vec<u32>)>,
}

impl Transaction {
    pub open spec fn local_view(&self) -> Seq<(Seq<u8>, u64, Seq<u8>)> {
        entry_seq_view(self.local@)
    }

    /// Every buffered record fits the map and carries the transaction's
    /// read timestamp: the write path only ever buffers such records.
    pub open spec fn wf(&self) -> bool {
        &&& forall|i: int|
            0 <= i < self.local_view().len() ==> mem_entry_wf(#[trigger] self.local_view()[i])
        &&& forall|i: int|
            0 <= i < self.local_view().len() ==> (#[trigger] self.local_view()[i]).1
                == self.read_ts
    }

    /// Begin at `read_ts`; track conflicts when `serializable`.
    pub fn begin(read_ts: u64, serializable: bool) -> (r: Transaction)
        ensures
            r.read_ts == read_ts,
            r.local_view().len() == 0,
            r.wf(),
            !r.committed,
            serializable <==> r.key_hashes is Some,
    {
        let r = Transaction {
            read_ts,
            local: Vec::new(),
            committed: false,
            key_hashes: if serializable {
                Some((Vec::new(), Vec::new()))
            } else {
                None
            },
        };
        proof {
            assert(entry_seq_view(r.local@) =~= Seq::<(Seq<u8>, u64, Seq<u8>)>::empty());
        }
        r
    }

    /// Buffer a write. A transaction may not write after committing.
    pub fn put(&mut self, key: &Vec<u8>, value: &Vec<u8>) -> (r: Result<(), &'static str>)
        requires
            !old(self).committed,
        ensures
            final(self).read_ts == old(self).read_ts,
            final(self).committed == old(self).committed,
            r is Ok ==> final(self).local_view() == old(self).local_view().push(
                (key@, old(self).read_ts, value@),
            ),
            r is Err ==> final(self).local_view() == old(self).local_view(),
            r is Ok <==> mem_entry_wf((key@, old(self).read_ts, value@)),
            old(self).wf() ==> final(self).wf(),
    {
        if key.len() < 1 || key.len() > 0xFFFF || value.len() > 0xFFFF {
            return Err("key or value too large");
        }
        match &mut self.key_hashes {
            Some(sets) => {
                sets.0.push(crc32(key.as_slice()));
            },
            None => {},
        }
        let ghost prev = self.local@;
        let e = Entry {
            key: KeyVec { bytes: crate::encoding::clone_bytes(key), ts: self.read_ts },
            value: crate::encoding::clone_bytes(value),
        };
        proof {
            assert(e@ == (key@, old(self).read_ts, value@));
        }
        self.local.push(e);
        proof {
            assert(entry_seq_view(self.local@) =~= entry_seq_view(prev).push(
                (key@, old(self).read_ts, value@),
            ));
            if old(self).wf() {
                assert forall|i: int|
                    0 <= i < self.local_view().len() implies mem_entry_wf(
                    #[trigger] self.local_view()[i],
                ) && (#[trigger] self.local_view()[i]).1 == self.read_ts by {
                    if i < entry_seq_view(prev).len() {
                        assert(self.local_view()[i] == old(self).local_view()[i]);
                    }
                }
            }
        }
        Ok(())
    }

    /// Buffer a deletion: the empty value.
    pub fn delete(&mut self, key: &Vec<u8>) -> (r: Result<(), &'static str>)
        requires
            !old(self).committed,
        ensures
            final(self).read_ts == old(self).read_ts,
            final(self).committed == old(self).committed,
            r is Ok ==> final(self).local_view() == old(self).local_view().push(
                (key@, old(self).read_ts, Seq::<u8>::empty()),
            ),
            r is Err ==> final(self).local_view() == old(self).local_view(),
            old(self).wf() ==> final(self).wf(),
    {
        let tomb: Vec<u8> = Vec::new();
        proof {
            assert(tomb@ =~= Seq::<u8>::empty());
        }
        self.put(key, &tomb)
    }

    /// Read through the transaction: its own last write of the key wins,
    /// a buffered deletion reads as absent, and otherwise the store is
    /// read as of `read_ts`.
    pub fn get(&mut self, store: &LsmStore, key: &Vec<u8>) -> (r: Option<Vec<u8>>)
        requires
            !old(self).committed,
            store.wf(),
        ensures
            final(self).local_view() == old(self).local_view(),
            final(self).read_ts == old(self).read_ts,
            final(self).committed == old(self).committed,
            spec_local_get(old(self).local_view(), key@) is None ==> ({
                let srcs = state_sources(&store.state);
                match r {
                    Some(v) => exists|i: int, t: int|
                        spec_wins(srcs, key@, old(self).read_ts, i, t) && #[trigger] srcs[i][t].2
                            == v@ && v@.len() > 0,
                    None => spec_absent(srcs, key@, old(self).read_ts) || exists|i: int, t: int|
                        spec_wins(srcs, key@, old(self).read_ts, i, t) && (
                        #[trigger] srcs[i][t]).2.len() == 0,
                }
            }),
            forall|v: Seq<u8>|
                spec_local_get(old(self).local_view(), key@) == Some(v) && v.len() > 0 ==> (r
                    matches Some(rv) && rv@ == v),
            forall|v: Seq<u8>|
                spec_local_get(old(self).local_view(), key@) == Some(v) && v.len() == 0 ==> r
                    is None,
    {
        match &mut self.key_hashes {
            Some(sets) => {
                sets.1.push(crc32(key.as_slice()));
            },
            None => {},
        }
        let ghost les = self.local_view();
        let mut i = self.local.len();
        proof {
            assert(les.take(les.len() as int) =~= les);
        }
        while i > 0
            invariant
                0 <= i <= self.local@.len(),
                les == self.local_view(),
                self.local@ == old(self).local@,
                self.read_ts == old(self).read_ts,
                self.committed == old(self).committed,
                spec_local_get(les, key@) == spec_local_get(les.take(i as int), key@),
            decreases i,
        {
            proof {
                assert(les.take(i as int).last() == les[i as int - 1]);
                assert(les.take(i as int).drop_last() =~= les.take(i as int - 1));
            }
            if crate::key::bytes_cmp(self.local[i - 1].key.bytes.as_slice(), key.as_slice())
                == 0 {
                let v = &self.local[i - 1].value;
                proof {
                    assert(les[i as int - 1].0 == key@);
                    assert(spec_local_get(les, key@) == Some(les[i as int - 1].2));
                }
                if v.len() > 0 {
                    return Some(crate::encoding::clone_bytes(v));
                } else {
                    return None;
                }
            }
            proof {
                crate::key::lemma_bytes_order_total(les[i as int - 1].0, key@);
                assert(les[i as int - 1].0 != key@);
            }
            i -= 1;
        }
        proof {
            assert(les.take(0).len() == 0);
            assert(spec_local_get(les, key@) is None);
        }
        store.get_with_ts(key, self.read_ts)
    }

    /// Scan through the transaction: the private write buffer, keyed at
    /// `read_ts`, is overlaid on a snapshot of the store, a buffered
    /// write hiding every stored version of its raw key, and buffered
    /// deletions dropped from the result. A buffer whose payload
    /// outgrows the log format is refused. Reads through the cursor join
    /// no conflict set.
    #[verifier::spinoff_prover]
    #[verifier::rlimit(100)]
    pub fn scan(&self, store: &LsmStore, lower: &KeyBound, upper: &KeyBound) -> (r: Result<
        TwoMergeIterator,
        &'static str,
    >)
        requires
            self.wf(),
            !self.committed,
            store.wf(),
        ensures
            r matches Ok(it) ==> it.wf() && it.remaining() == spec_live_filter(
                spec_merge2_raw(
                    ({
                        let ov = spec_apply(Seq::empty(), self.local_view());
                        ov.subrange(spec_range_lo(ov, lower), spec_range_hi(ov, lower, upper))
                    }),
                    spec_live_filter(
                        spec_dedup_raw(
                            spec_merge_fold(
                                spec_scan_sources(&store.state, lower, upper, self.read_ts),
                            ),
                        ),
                    ),
                ),
            ),
            r is Ok <==> spec_payload(self.local_view()).len() <= 0xFFFFFFFF,
    {
        let ghost ov = spec_apply(Seq::<(Seq<u8>, u64, Seq<u8>)>::empty(), self.local_view());
        let mut overlay = MemTable::create(0);
        proof {
            assert(overlay.view_entries() =~= Seq::<(Seq<u8>, u64, Seq<u8>)>::empty());
        }
        match overlay.put_batch(&self.local) {
            Ok(()) => {},
            Err(_) => {
                return Err("write buffer too large to scan");
            },
        }
        proof {
            assert(overlay.view_entries() == ov);
        }
        let a_it = overlay.scan(lower, upper);
        let ghost lo = spec_range_lo(ov, lower);
        let ghost hi = spec_range_hi(ov, lower, upper);
        proof {
            lemma_apply_ts(
                Seq::<(Seq<u8>, u64, Seq<u8>)>::empty(),
                self.local_view(),
                self.read_ts,
            );
            lemma_range_bounds(ov, lower, upper);
            assert forall|i: int, j: int| 0 <= i < j < a_it.remaining().len() implies bytes_lt(
                (#[trigger] a_it.remaining()[i]).0,
                (#[trigger] a_it.remaining()[j]).0,
            ) by {
                assert(a_it.remaining()[i] == ov[lo + i]);
                assert(a_it.remaining()[j] == ov[lo + j]);
                assert(key_lt(entry_key(ov[lo + i]), entry_key(ov[lo + j])));
                assert(ov[lo + i].1 == self.read_ts);
                assert(ov[lo + j].1 == self.read_ts);
            }
            assert(raw_sorted(a_it.remaining()));
        }
        let snap = store.scan(lower, upper, self.read_ts);
        let b_it = MemTableIter { entries: copy_entries(&snap.iter.entries), pos: 0 };
        let ghost d = spec_dedup_raw(
            spec_merge_fold(spec_scan_sources(&store.state, lower, upper, self.read_ts)),
        );
        proof {
            assert(b_it.remaining() =~= snap.remaining());
            lemma_scan_sources_sorted(&store.state, lower, upper, self.read_ts);
            lemma_merge_newest_per_raw_key(
                spec_scan_sources(&store.state, lower, upper, self.read_ts),
            );
            assert(raw_sorted(d));
            lemma_live_filter_raw_sorted(d);
            assert(raw_sorted(b_it.remaining()));
        }
        let merged = TwoMergeIterator::create(&a_it, &b_it);
        let live = live_filter(&merged.entries);
        let out = TwoMergeIterator { entries: live, pos: 0 };
        proof {
            assert(out.remaining() =~= spec_live_filter(
                spec_merge2_raw(a_it.remaining(), b_it.remaining()),
            ));
        }
        Ok(out)
    }

    /// Commit: allocate a fresh commit timestamp, validate against every
    /// transaction committed since `read_ts` when conflict tracking is on,
    /// and on success apply every buffered write at the new timestamp. A
    /// conflict applies nothing and is retryable; a transaction commits at
    /// most once. Commit fails exactly on a conflict: some transaction
    /// committed after this one's snapshot wrote a key this transaction
    /// read or wrote.
    #[verifier::rlimit(100)]
    pub fn commit(&mut self, store: &mut LsmStore) -> (r: Result<(), &'static str>)
        requires
            !old(self).committed,
            old(self).wf(),
            old(store).wf(),
            old(store).next_ts < u64::MAX,
            old(store).committed_txns@.len() < usize::MAX,
        ensures
            final(store).wf(),
            r is Err <==> (old(self).key_hashes matches Some(sets) && spec_conflict(
                old(store).committed_txns@,
                old(self).read_ts,
                sets.0@,
                sets.1@,
            )),
            r is Ok ==> final(self).committed && final(self).read_ts == old(self).read_ts
                && final(self).local_view() == old(self).local_view(),
            r is Ok ==> final(store).state.memtable.view_entries() == spec_commit_apply(
                old(store).state.memtable.view_entries(),
                old(self).local_view(),
                old(store).next_ts,
            ),
            r is Ok ==> final(store).next_ts == old(store).next_ts + 1,
            r is Ok ==> final(store).state.imm_memtables@ == old(store).state.imm_memtables@
                && final(store).state.sstables@ == old(store).state.sstables@,
            r is Ok ==> match old(self).key_hashes {
                Some(sets) => final(store).committed_txns@.len() == old(
                    store,
                ).committed_txns@.len() + 1 && final(store).committed_txns@.take(
                    old(store).committed_txns@.len() as int,
                ) == old(store).committed_txns@ && final(store).committed_txns@.last().0 == old(
                    store,
                ).next_ts && final(store).committed_txns@.last().1@ == sets.0@,
                None => final(store).committed_txns@ == old(store).committed_txns@,
            },
            r is Err ==> *final(self) == *old(self) && *final(store) == *old(store),
    {
        // Conflict validation: another transaction's committed write to a
        // key this transaction read or wrote, after this transaction's
        // snapshot, is a conflict.
        let ghost gct = store.committed_txns@;
        match &self.key_hashes {
            Some(sets) => {
                let ghost gw = sets.0@;
                let ghost gr = sets.1@;
                let mut c: usize = 0;
                while c < store.committed_txns.len()
                    invariant
                        0 <= c <= gct.len(),
                        store.wf(),
                        *store == *old(store),
                        *self == *old(self),
                        gct == store.committed_txns@,
                        sets.0@ == gw && sets.1@ == gr,
                        old(self).key_hashes matches Some(ss) && ss.0@ == gw && ss.1@ == gr,
                        forall|c2: int, h2: int|
                            #![trigger gct[c2].1@[h2]]
                            0 <= c2 < c && gct[c2].0 > old(self).read_ts && 0 <= h2
                                < gct[c2].1@.len() ==> !(gw.contains(gct[c2].1@[h2])
                                || gr.contains(gct[c2].1@[h2])),
                    decreases gct.len() - c,
                {
                    let (cts, ref hashes) = &store.committed_txns[c];
                    if *cts > self.read_ts {
                        let mut h: usize = 0;
                        while h < hashes.len()
                            invariant
                                0 <= h <= hashes@.len(),
                                0 <= c < gct.len(),
                                store.wf(),
                                *store == *old(store),
                                *self == *old(self),
                                gct == store.committed_txns@,
                                hashes@ == gct[c as int].1@,
                                gct[c as int].0 > old(self).read_ts,
                                sets.0@ == gw && sets.1@ == gr,
                                old(self).key_hashes matches Some(ss) && ss.0@ == gw && ss.1@
                                    == gr,
                                forall|h2: int|
                                    0 <= h2 < h ==> !(gw.contains(#[trigger] gct[c as int].1@[h2])
                                        || gr.contains(gct[c as int].1@[h2])),
                            decreases hashes@.len() - h,
                        {
                            let fp = hashes[h];
                            if contains_u32(&sets.0, fp) || contains_u32(&sets.1, fp) {
                                proof {
                                    assert(gct[c as int].1@[h as int] == fp);
                                    assert(spec_conflict(gct, old(self).read_ts, gw, gr));
                                }
                                return Err("serializable check failed");
                            }
                            h += 1;
                        }
                    }
                    c += 1;
                }
                proof {
                    assert(!spec_conflict(gct, old(self).read_ts, gw, gr));
                }
            },
            None => {},
        }
        let ts = store.next_ts;
        let ghost oldview = store.state.memtable.view_entries();
        let ghost locals = self.local_view();
        let mut i: usize = 0;
        proof {
            assert(locals.skip(0) =~= locals);
        }
        while i < self.local.len()
            invariant
                0 <= i <= self.local@.len(),
                store.wf(),
                store.next_ts == ts < u64::MAX,
                *self == *old(self),
                locals == self.local_view(),
                self.wf(),
                store.state.imm_memtables@ == old(store).state.imm_memtables@,
                store.state.sstables@ == old(store).state.sstables@,
                store.committed_txns@ == gct,
                spec_commit_apply(oldview, locals, ts) == spec_commit_apply(
                    store.state.memtable.view_entries(),
                    locals.skip(i as int),
                    ts,
                ),
            decreases self.local@.len() - i,
        {
            proof {
                assert(locals.skip(i as int)[0] == locals[i as int]);
                assert(locals.skip(i as int).skip(1) =~= locals.skip(i + 1));
                assert(mem_entry_wf(locals[i as int]));
            }
            let e = &self.local[i];
            let kv = KeyVec { bytes: crate::encoding::clone_bytes(&e.key.bytes), ts };
            let res = store.state.memtable.put(&kv, &e.value);
            proof {
                assert(kv@ == (locals[i as int].0, ts));
                assert(res is Ok);
            }
            i += 1;
        }
        proof {
            assert(locals.skip(locals.len() as int).len() == 0);
        }
        store.next_ts = store.next_ts + 1;
        match &self.key_hashes {
            Some(sets) => {
                let ghost gw = sets.0@;
                let mut written: Vec<u32> = Vec::new();
                let mut w: usize = 0;
                proof {
                    assert(written@ =~= gw.take(0));
                }
                while w < sets.0.len()
                    invariant
                        0 <= w <= gw.len(),
                        sets.0@ == gw,
                        written@ == gw.take(w as int),
                    decreases gw.len() - w,
                {
                    written.push(sets.0[w]);
                    proof {
                        assert(written@ =~= gw.take(w + 1));
                    }
                    w += 1;
                }
                proof {
                    assert(gw.take(gw.len() as int) =~= gw);
                }
                store.committed_txns.push((ts, written));
                proof {
                    assert(store.committed_txns@.take(gct.len() as int) =~= gct);
                }
            },
            None => {},
        }
        self.committed = true;
        Ok(())
    }
}

/// Linear membership in a fingerprint list.
fn contains_u32(v: &Vec<u32>, x: u32) -> (r: bool)
    ensures
        r == v@.contains(x),
{
    let mut i: usize = 0;
    while i < v.len()
        invariant
            0 <= i <= v@.len(),
            forall|t: int| 0 <= t < i ==> v@[t] != x,
        decreases v@.len() - i,
    {
        if v[i] == x {
            return true;
        }
        i += 1;
    }
    proof {
        assert(!v@.contains(x));
    }
    false
}

} // verus!
