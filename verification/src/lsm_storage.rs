//! The storage engine's state and operations: an active memtable,
//! immutable memtables, and sorted tables, read newest first.
//!
//! The state is a plain value: the surrounding process clones it to take a
//! snapshot and swaps the new value in under its own lock, so every
//! operation here is a pure state transition.

use vstd::prelude::*;
use crate::key::{KeyVec, Entry, entry_key, entry_seq_view};
use crate::mem_table::{
    MemTable,
    MemTableIter,
    KeyBound,
    mem_entry_wf,
    mem_entries_wf,
    run_get_le,
    run_range,
    spec_insert,
    spec_range_lo,
    spec_range_hi,
    lemma_range_bounds,
};
use crate::iterators::{
    MergeIter,
    merge2,
    sources_view,
    lemma_merge_fold_wf,
    lemma_merge2_sorted,
    spec_dedup_raw,
    spec_merge_fold,
    spec_ts_filter,
    spec_live_filter,
    ts_filter,
    live_filter,
    lemma_ts_filter_sorted,
};
use crate::lsm_iterator::FusedIterator;
use crate::key::{entries_sorted, lemma_sorted_subrange};
use crate::wal::spec_batch_enc;
use crate::table::{SsTable, SsTableBuilder};
use crate::compaction::{spec_compact, compact_entries, lemma_compact_wf};
use crate::hashes::{crc32, crc32_of};

verus! {

/// One write of a batch: store a value, or store a deletion.
pub enum WriteBatchRecord {
    Put(Vec<u8>, Vec<u8>),
    Del(Vec<u8>),
}

/// The engine's options.
pub struct LsmStorageOptions {
    /// Byte budget of one block.
    pub block_size: usize,
    /// The active memtable is frozen above this tracked size.
    pub target_sst_size: usize,
}

/// A snapshot of the store: the active memtable, frozen memtables newest
/// first, and the tables, newest first.
pub struct LsmStorageState {
    pub memtable: MemTable,
    pub imm_memtables: Vec<MemTable>,
    /// Ids of the level-0 tables, newest first.
    pub l0_sstables: Vec<usize>,
    /// Deeper levels: each a level number with its table ids.
    pub levels: Vec<(usize, Vec<usize>)>,
    /// The table objects, newest first.
    pub sstables: Vec<SsTable>,
}

/// The read sources of a snapshot, newest first: the active memtable, the
/// frozen memtables, then the tables.
pub open spec fn state_sources(s: &LsmStorageState) -> Seq<Seq<(Seq<u8>, u64, Seq<u8>)>> {
    seq![s.memtable.view_entries()] + s.imm_memtables@.map_values(|m: MemTable| m.view_entries())
        + s.sstables@.map_values(|t: SsTable| t.view_entries())
}

pub open spec fn state_wf(s: &LsmStorageState) -> bool {
    &&& s.memtable.wf()
    &&& forall|i: int| 0 <= i < s.imm_memtables@.len() ==> (#[trigger] s.imm_memtables@[i]).wf()
    &&& forall|i: int| 0 <= i < s.sstables@.len() ==> (#[trigger] s.sstables@[i]).wf()
}

/// Version `(i, t)` of `raw` wins at `read_ts`: it is at or below
/// `read_ts`, no source holds a newer such version, and no newer source
/// holds one of the same timestamp.
pub open spec fn spec_wins(
    srcs: Seq<Seq<(Seq<u8>, u64, Seq<u8>)>>,
    raw: Seq<u8>,
    read_ts: u64,
    i: int,
    t: int,
) -> bool {
    &&& 0 <= i < srcs.len()
    &&& 0 <= t < srcs[i].len()
    &&& srcs[i][t].0 == raw
    &&& srcs[i][t].1 <= read_ts
    &&& forall|i2: int, t2: int|
        0 <= i2 < srcs.len() && 0 <= t2 < srcs[i2].len() && (#[trigger] srcs[i2][t2]).0 == raw
            && srcs[i2][t2].1 <= read_ts ==> srcs[i2][t2].1 <= srcs[i][t].1
    &&& forall|i2: int, t2: int|
        0 <= i2 < i && 0 <= t2 < srcs[i2].len() ==> !((#[trigger] srcs[i2][t2]).0 == raw
            && srcs[i2][t2].1 == srcs[i][t].1)
}

/// No source holds a version of `raw` at or below `read_ts`.
pub open spec fn spec_absent(
    srcs: Seq<Seq<(Seq<u8>, u64, Seq<u8>)>>,
    raw: Seq<u8>,
    read_ts: u64,
) -> bool {
    forall|i: int, t: int|
        0 <= i < srcs.len() && 0 <= t < srcs[i].len() && (#[trigger] srcs[i][t]).0 == raw
            ==> srcs[i][t].1 > read_ts
}

/// The store: a snapshot plus the id and timestamp allocators.
pub struct LsmStore {
    pub state: LsmStorageState,
    pub next_sst_id: usize,
    pub next_ts: u64,
    pub options: LsmStorageOptions,
    /// Commit timestamps and written-key fingerprints of committed
    /// transactions, for optimistic conflict validation.
    pub committed_txns: Vec<(u64, Vec<u32>)>,
}

impl LsmStore {
    pub open spec fn wf(&self) -> bool {
        state_wf(&self.state)
    }

    /// An empty store.
    pub fn open(options: LsmStorageOptions) -> (r: LsmStore)
        requires
            options.block_size <= 0xFFFD,
        ensures
            r.wf(),
            r.state.memtable.view_entries().len() == 0,
            r.state.memtable.id == 0,
            r.state.memtable.wal matches Some(w) && w.buf@ == Seq::<u8>::empty(),
            r.state.imm_memtables@.len() == 0,
            r.state.l0_sstables@.len() == 0,
            r.state.levels@.len() == 0,
            r.state.sstables@.len() == 0,
            r.next_ts == 1,
            r.next_sst_id == 1,
            r.committed_txns@.len() == 0,
            r.options == options,
    {
        LsmStore {
            state: LsmStorageState {
                memtable: MemTable::create_with_wal(0),
                imm_memtables: Vec::new(),
                l0_sstables: Vec::new(),
                levels: Vec::new(),
                sstables: Vec::new(),
            },
            next_sst_id: 1,
            next_ts: 1,
            options,
            committed_txns: Vec::new(),
        }
    }

    /// The next table id, advancing the allocator.
    pub fn next_sst_id(&mut self) -> (r: usize)
        requires
            old(self).next_sst_id < usize::MAX,
        ensures
            r == old(self).next_sst_id,
            final(self).next_sst_id == old(self).next_sst_id + 1,
            final(self).state == old(self).state,
            final(self).next_ts == old(self).next_ts,
            final(self).committed_txns@ == old(self).committed_txns@,
            final(self).options == old(self).options,
            final(self).wf() == old(self).wf(),
    {
        let id = self.next_sst_id;
        self.next_sst_id = self.next_sst_id + 1;
        id
    }

    /// Store one value at a fresh commit timestamp.
    pub fn put(&mut self, key: &Vec<u8>, value: &Vec<u8>) -> (r: Result<(), &'static str>)
        requires
            old(self).wf(),
            old(self).next_ts < u64::MAX,
        ensures
            final(self).wf(),
            r is Ok <==> mem_entry_wf((key@, old(self).next_ts, value@)),
            r is Ok ==> final(self).state.memtable.view_entries() == spec_insert(
                old(self).state.memtable.view_entries(),
                (key@, old(self).next_ts, value@),
            ) && final(self).next_ts == old(self).next_ts + 1,
            r is Ok ==> match old(self).state.memtable.wal {
                Some(w) => final(self).state.memtable.wal matches Some(w2) && w2.buf@ == w.buf@
                    + spec_batch_enc(seq![(key@, old(self).next_ts, value@)]),
                None => final(self).state.memtable.wal is None,
            },
            r is Err ==> final(self).state.memtable == old(self).state.memtable,
            final(self).state.imm_memtables@ == old(self).state.imm_memtables@,
            final(self).state.sstables@ == old(self).state.sstables@,
            final(self).next_sst_id == old(self).next_sst_id,
            final(self).state.l0_sstables@ == old(self).state.l0_sstables@,
            final(self).state.levels@ == old(self).state.levels@,
            final(self).committed_txns@ == old(self).committed_txns@,
            final(self).options == old(self).options,
    {
        self.put_at(key, value)
    }

    /// Record a deletion: a tombstone, the empty value, at a fresh commit
    /// timestamp. It hides older versions until compaction drops them.
    pub fn delete(&mut self, key: &Vec<u8>) -> (r: Result<(), &'static str>)
        requires
            old(self).wf(),
            old(self).next_ts < u64::MAX,
        ensures
            final(self).wf(),
            r is Ok <==> mem_entry_wf((key@, old(self).next_ts, Seq::<u8>::empty())),
            r is Ok ==> final(self).state.memtable.view_entries() == spec_insert(
                old(self).state.memtable.view_entries(),
                (key@, old(self).next_ts, Seq::<u8>::empty()),
            ) && final(self).next_ts == old(self).next_ts + 1,
            r is Ok ==> match old(self).state.memtable.wal {
                Some(w) => final(self).state.memtable.wal matches Some(w2) && w2.buf@ == w.buf@
                    + spec_batch_enc(seq![(key@, old(self).next_ts, Seq::<u8>::empty())]),
                None => final(self).state.memtable.wal is None,
            },
            r is Err ==> final(self).state.memtable == old(self).state.memtable,
            final(self).state.imm_memtables@ == old(self).state.imm_memtables@,
            final(self).state.sstables@ == old(self).state.sstables@,
            final(self).next_sst_id == old(self).next_sst_id,
            final(self).state.l0_sstables@ == old(self).state.l0_sstables@,
            final(self).state.levels@ == old(self).state.levels@,
            final(self).committed_txns@ == old(self).committed_txns@,
            final(self).options == old(self).options,
    {
        let tombstone: Vec<u8> = Vec::new();
        proof {
            assert(tombstone@ =~= Seq::<u8>::empty());
        }
        self.put_at(key, &tombstone)
    }

    /// Store one value at a fresh commit timestamp (shared write path).
    fn put_at(&mut self, key: &Vec<u8>, value: &Vec<u8>) -> (r: Result<(), &'static str>)
        requires
            old(self).wf(),
            old(self).next_ts < u64::MAX,
        ensures
            final(self).wf(),
            r is Ok <==> mem_entry_wf((key@, old(self).next_ts, value@)),
            r is Ok ==> final(self).state.memtable.view_entries() == spec_insert(
                old(self).state.memtable.view_entries(),
                (key@, old(self).next_ts, value@),
            ) && final(self).next_ts == old(self).next_ts + 1,
            r is Ok ==> match old(self).state.memtable.wal {
                Some(w) => final(self).state.memtable.wal matches Some(w2) && w2.buf@ == w.buf@
                    + spec_batch_enc(seq![(key@, old(self).next_ts, value@)]),
                None => final(self).state.memtable.wal is None,
            },
            r is Err ==> final(self).state.memtable == old(self).state.memtable,
            final(self).state.imm_memtables@ == old(self).state.imm_memtables@,
            final(self).state.sstables@ == old(self).state.sstables@,
            final(self).next_sst_id == old(self).next_sst_id,
            final(self).state.l0_sstables@ == old(self).state.l0_sstables@,
            final(self).state.levels@ == old(self).state.levels@,
            final(self).committed_txns@ == old(self).committed_txns@,
            final(self).options == old(self).options,
    {
        let ts = self.next_ts;
        let kv = KeyVec { bytes: crate::encoding::clone_bytes(key), ts };
        let r = self.state.memtable.put(&kv, value);
        if r.is_ok() {
            self.next_ts = self.next_ts + 1;
        }
        r
    }

    /// Apply a write batch: every record is stored under one shared commit
    /// timestamp; a record the map cannot hold (an empty or oversized key
    /// or value) is skipped.
    pub fn write_batch(&mut self, batch: &Vec<WriteBatchRecord>) -> (r: Result<
        (),
        &'static str,
    >)
        requires
            old(self).wf(),
            old(self).next_ts < u64::MAX,
        ensures
            final(self).wf(),
            r is Ok,
            final(self).state.memtable.view_entries() == spec_apply_wb(
                old(self).state.memtable.view_entries(),
                batch@,
                old(self).next_ts,
            ),
            final(self).next_ts == (if batch@.len() > 0 {
                old(self).next_ts + 1
            } else {
                old(self).next_ts as int
            }),
            match old(self).state.memtable.wal {
                Some(w) => final(self).state.memtable.wal matches Some(w2) && w2.buf@
                    == spec_apply_wb_wal(w.buf@, batch@, old(self).next_ts),
                None => final(self).state.memtable.wal is None,
            },
            final(self).state.imm_memtables@ == old(self).state.imm_memtables@,
            final(self).state.sstables@ == old(self).state.sstables@,
            final(self).next_sst_id == old(self).next_sst_id,
            final(self).state.l0_sstables@ == old(self).state.l0_sstables@,
            final(self).state.levels@ == old(self).state.levels@,
            final(self).committed_txns@ == old(self).committed_txns@,
            final(self).options == old(self).options,
    {
        let ts = self.next_ts;
        let ghost oldview = self.state.memtable.view_entries();
        let mut i: usize = 0;
        proof {
            assert(batch@.skip(0) =~= batch@);
        }
        while i < batch.len()
            invariant
                0 <= i <= batch@.len(),
                self.wf(),
                self.next_ts == ts < u64::MAX,
                self.state.imm_memtables@ == old(self).state.imm_memtables@,
                self.state.sstables@ == old(self).state.sstables@,
                self.next_sst_id == old(self).next_sst_id,
                self.state.l0_sstables@ == old(self).state.l0_sstables@,
                self.state.levels@ == old(self).state.levels@,
                self.committed_txns@ == old(self).committed_txns@,
                self.options == old(self).options,
                spec_apply_wb(oldview, batch@, ts) == spec_apply_wb(
                    self.state.memtable.view_entries(),
                    batch@.skip(i as int),
                    ts,
                ),
                match old(self).state.memtable.wal {
                    Some(w) => self.state.memtable.wal matches Some(w2) && spec_apply_wb_wal(
                        w.buf@,
                        batch@,
                        ts,
                    ) == spec_apply_wb_wal(w2.buf@, batch@.skip(i as int), ts),
                    None => self.state.memtable.wal is None,
                },
            decreases batch@.len() - i,
        {
            proof {
                assert(batch@.skip(i as int)[0] == batch@[i as int]);
                assert(batch@.skip(i as int).skip(1) =~= batch@.skip(i + 1));
            }
            let _res = match &batch[i] {
                WriteBatchRecord::Put(k, v) => {
                    let kv = KeyVec { bytes: crate::encoding::clone_bytes(k), ts };
                    self.state.memtable.put(&kv, v)
                },
                WriteBatchRecord::Del(k) => {
                    let kv = KeyVec { bytes: crate::encoding::clone_bytes(k), ts };
                    let tomb: Vec<u8> = Vec::new();
                    proof {
                        assert(tomb@ =~= Seq::<u8>::empty());
                    }
                    self.state.memtable.put(&kv, &tomb)
                },
            };
            i += 1;
        }
        proof {
            assert(batch@.skip(batch@.len() as int).len() == 0);
        }
        if batch.len() > 0 {
            self.next_ts = self.next_ts + 1;
        }
        Ok(())
    }

    /// Read `key` as of `read_ts`: the newest version at or below
    /// `read_ts` across every source, newest source winning a timestamp
    /// tie; a tombstone reads as absent. No version above `read_ts` is
    /// ever returned.
#[verifier::spinoff_prover]
    #[verifier::rlimit(100)]
    pub fn get_with_ts(&self, key: &Vec<u8>, read_ts: u64) -> (r: Option<Vec<u8>>)
        requires
            self.wf(),
        ensures
            ({
                let srcs = state_sources(&self.state);
                match r {
                    Some(v) => exists|i: int, t: int|
                        spec_wins(srcs, key@, read_ts, i, t) && #[trigger] srcs[i][t].2 == v@
                            && v@.len() > 0,
                    None => spec_absent(srcs, key@, read_ts) || exists|i: int, t: int|
                        spec_wins(srcs, key@, read_ts, i, t) && (#[trigger] srcs[i][t]).2.len()
                            == 0,
                }
            }),
    {
        let ghost srcs = state_sources(&self.state);
        let mut best: Option<(u64, Vec<u8>)> = None;
        let ghost mut besti: int = 0;
        let ghost mut bestt: int = 0;
        // Probe the active memtable, source 0.
        let c = run_get_le(&self.state.memtable.entries, key, read_ts);
        proof {
            assert(srcs[0] == self.state.memtable.view_entries());
        }
        match c {
            Some((ts, v)) => {
                proof {
                    let t = choose|t: int|
                        0 <= t < srcs[0].len() && #[trigger] srcs[0][t] == (key@, ts, v@);
                    besti = 0;
                    bestt = t;
                }
                best = Some((ts, v));
            },
            None => {},
        }
        // The frozen memtables, newest first: sources 1 ..= imm.len().
        let mut j: usize = 0;
        while j < self.state.imm_memtables.len()
            invariant
                0 <= j <= self.state.imm_memtables@.len(),
                self.wf(),
                srcs == state_sources(&self.state),
                best_inv(srcs, key@, read_ts, &best, besti, bestt, 1 + j as int),
            decreases self.state.imm_memtables@.len() - j,
        {
            proof {
                assert(srcs[1 + j as int] == self.state.imm_memtables@[j as int].view_entries());
            }
            let c2 = run_get_le(&self.state.imm_memtables[j].entries, key, read_ts);
            match c2 {
                Some((ts, v)) => {
                    let take = match &best {
                        Some((bts, _)) => ts > *bts,
                        None => true,
                    };
                    if take {
                        proof {
                            let t = choose|t: int|
                                0 <= t < srcs[1 + j as int].len() && #[trigger] srcs[1 + j as int][t]
                                    == (key@, ts, v@);
                            besti = 1 + j as int;
                            bestt = t;
                        }
                        best = Some((ts, v));
                    }
                },
                None => {},
            }
            j += 1;
        }
        // The tables, newest first: the remaining sources.
        let imm_count = self.state.imm_memtables.len();
        let mut k: usize = 0;
        while k < self.state.sstables.len()
            invariant
                0 <= k <= self.state.sstables@.len(),
                self.wf(),
                imm_count == self.state.imm_memtables@.len(),
                srcs == state_sources(&self.state),
                best_inv(srcs, key@, read_ts, &best, besti, bestt, 1 + imm_count + k as int),
            decreases self.state.sstables@.len() - k,
        {
            proof {
                assert(srcs[1 + imm_count + k as int]
                    == self.state.sstables@[k as int].view_entries());
                reveal(SsTable::wf);
            }
            let table = &self.state.sstables[k];
            // The filter gives a certain "absent" cheaply: a key the
            // filter rejects was never inserted into this table.
            let fp = crc32(key.as_slice());
            let maybe = table.bloom.may_contain(fp);
            if maybe {
                let c3 = run_get_le(&table.entries, key, read_ts);
                match c3 {
                    Some((ts, v)) => {
                        let take = match &best {
                            Some((bts, _)) => ts > *bts,
                            None => true,
                        };
                        if take {
                            proof {
                                let ghost si = 1 + imm_count + k as int;
                                let t = choose|t: int|
                                    0 <= t < srcs[si].len() && #[trigger] srcs[si][t] == (
                                    key@,
                                    ts,
                                    v@,
                                );
                                besti = si;
                                bestt = t;
                            }
                            best = Some((ts, v));
                        }
                    },
                    None => {},
                }
            } else {
                proof {
                    let ghost si = 1 + imm_count + k as int;
                    assert forall|t: int|
                        0 <= t < srcs[si].len() && (#[trigger] srcs[si][t]).0 == key@ implies
                        false by {
                        assert(crate::bloom::spec_may_contain(
                            table.bloom.filter@,
                            table.bloom.k,
                            crc32_of(srcs[si][t].0),
                        ));
                    }
                }
            }
            k += 1;
        }
        proof {
            assert(1 + imm_count + self.state.sstables@.len() == srcs.len());
        }
        match &best {
            Some((ts, v)) => {
                proof {
                    assert(best_inv(srcs, key@, read_ts, &best, besti, bestt, srcs.len() as int));
                    assert(spec_wins(srcs, key@, read_ts, besti, bestt));
                    assert(srcs[besti][bestt].2 == v@);
                }
                if v.len() > 0 {
                    Some(crate::encoding::clone_bytes(v))
                } else {
                    None
                }
            },
            None => None,
        }
    }

    /// Read at the newest timestamp: the newest version of the key in any
    /// source, a tombstone reading as absent.
    pub fn get(&self, key: &Vec<u8>) -> (r: Option<Vec<u8>>)
        requires
            self.wf(),
        ensures
            ({
                let srcs = state_sources(&self.state);
                match r {
                    Some(v) => exists|i: int, t: int|
                        spec_wins(srcs, key@, u64::MAX, i, t) && #[trigger] srcs[i][t].2 == v@
                            && v@.len() > 0,
                    None => spec_absent(srcs, key@, u64::MAX) || exists|i: int, t: int|
                        spec_wins(srcs, key@, u64::MAX, i, t) && (#[trigger] srcs[i][t]).2.len()
                            == 0,
                }
            }),
    {
        self.get_with_ts(key, u64::MAX)
    }

    /// Scan the range as of `read_ts`: one cursor per source restricted
    /// to versions at or below `read_ts`, merged newest-first so each raw
    /// key appears once with its newest visible version, tombstones
    /// dropped. The result is exactly that composition.
    #[verifier::rlimit(100)]
    pub fn scan(&self, lower: &KeyBound, upper: &KeyBound, read_ts: u64) -> (r: FusedIterator)
        requires
            self.wf(),
        ensures
            r.wf(),
            r.remaining() == spec_live_filter(
                spec_dedup_raw(
                    spec_merge_fold(spec_scan_sources(&self.state, lower, upper, read_ts)),
                ),
            ),
            r.has_errored == false,
            r.iter.pos == 0,
    {
        let ghost gsrcs = spec_scan_sources(&self.state, lower, upper, read_ts);
        let ghost raw = state_sources(&self.state);
        let mut iters: Vec<MemTableIter> = Vec::new();
        // The active memtable, source 0.
        let base0 = run_range(&self.state.memtable.entries, lower, upper);
        let f0 = ts_filter(&base0, read_ts);
        proof {
            assert(raw[0] == self.state.memtable.view_entries());
            assert(gsrcs[0] == spec_ts_filter(
                raw[0].subrange(
                    spec_range_lo(raw[0], lower),
                    spec_range_hi(raw[0], lower, upper),
                ),
                read_ts,
            ));
            lemma_range_bounds(raw[0], lower, upper);
            lemma_sorted_subrange(
                raw[0],
                spec_range_lo(raw[0], lower),
                spec_range_hi(raw[0], lower, upper),
            );
            lemma_ts_filter_sorted(
                raw[0].subrange(
                    spec_range_lo(raw[0], lower),
                    spec_range_hi(raw[0], lower, upper),
                ),
                read_ts,
            );
        }
        let it0 = MemTableIter { entries: f0, pos: 0 };
        proof {
            assert(it0.remaining() =~= gsrcs[0]);
        }
        iters.push(it0);
        proof {
            assert(sources_view(iters@) =~= gsrcs.take(1));
        }
        // The frozen memtables, newest first.
        let mut j: usize = 0;
        while j < self.state.imm_memtables.len()
            invariant
                0 <= j <= self.state.imm_memtables@.len(),
                self.wf(),
                gsrcs == spec_scan_sources(&self.state, lower, upper, read_ts),
                raw == state_sources(&self.state),
                iters@.len() == 1 + j,
                sources_view(iters@) == gsrcs.take(1 + j as int),
                forall|t: int|
                    0 <= t < iters@.len() ==> (#[trigger] iters@[t]).wf() && entries_sorted(
                        iters@[t].remaining(),
                    ),
            decreases self.state.imm_memtables@.len() - j,
        {
            let ghost src = raw[1 + j as int];
            proof {
                assert(src == self.state.imm_memtables@[j as int].view_entries());
                assert(gsrcs[1 + j as int] == spec_ts_filter(
                    src.subrange(
                        spec_range_lo(src, lower),
                        spec_range_hi(src, lower, upper),
                    ),
                    read_ts,
                ));
                lemma_range_bounds(src, lower, upper);
                lemma_sorted_subrange(
                    src,
                    spec_range_lo(src, lower),
                    spec_range_hi(src, lower, upper),
                );
                lemma_ts_filter_sorted(
                    src.subrange(
                        spec_range_lo(src, lower),
                        spec_range_hi(src, lower, upper),
                    ),
                    read_ts,
                );
            }
            let base = run_range(&self.state.imm_memtables[j].entries, lower, upper);
            let f = ts_filter(&base, read_ts);
            let it = MemTableIter { entries: f, pos: 0 };
            proof {
                assert(it.remaining() =~= gsrcs[1 + j as int]);
            }
            iters.push(it);
            proof {
                assert(sources_view(iters@) =~= gsrcs.take(1 + (j + 1) as int));
            }
            j += 1;
        }
        // The tables, newest first.
        let imm_count = self.state.imm_memtables.len();
        let mut k: usize = 0;
        while k < self.state.sstables.len()
            invariant
                0 <= k <= self.state.sstables@.len(),
                self.wf(),
                imm_count == self.state.imm_memtables@.len(),
                gsrcs == spec_scan_sources(&self.state, lower, upper, read_ts),
                raw == state_sources(&self.state),
                iters@.len() == 1 + imm_count + k,
                sources_view(iters@) == gsrcs.take(1 + imm_count + k as int),
                forall|t: int|
                    0 <= t < iters@.len() ==> (#[trigger] iters@[t]).wf() && entries_sorted(
                        iters@[t].remaining(),
                    ),
            decreases self.state.sstables@.len() - k,
        {
            let ghost si = 1 + imm_count + k as int;
            let ghost src = raw[si];
            proof {
                assert(src == self.state.sstables@[k as int].view_entries());
                assert(gsrcs[si] == spec_ts_filter(
                    src.subrange(
                        spec_range_lo(src, lower),
                        spec_range_hi(src, lower, upper),
                    ),
                    read_ts,
                ));
                reveal(SsTable::wf);
                lemma_range_bounds(src, lower, upper);
                lemma_sorted_subrange(
                    src,
                    spec_range_lo(src, lower),
                    spec_range_hi(src, lower, upper),
                );
                lemma_ts_filter_sorted(
                    src.subrange(
                        spec_range_lo(src, lower),
                        spec_range_hi(src, lower, upper),
                    ),
                    read_ts,
                );
            }
            let base = run_range(&self.state.sstables[k].entries, lower, upper);
            let f = ts_filter(&base, read_ts);
            let it = MemTableIter { entries: f, pos: 0 };
            proof {
                assert(it.remaining() =~= gsrcs[si]);
            }
            iters.push(it);
            proof {
                assert(sources_view(iters@) =~= gsrcs.take(si + 1));
            }
            k += 1;
        }
        proof {
            assert(gsrcs.len() == raw.len());
            assert(gsrcs.take(gsrcs.len() as int) =~= gsrcs);
        }
        let merged = MergeIter::create(iters);
        let live = live_filter(&merged.entries);
        let out = MergeIter { entries: live, pos: 0 };
        let r = FusedIterator { iter: out, has_errored: false };
        proof {
            assert(r.remaining() =~= spec_live_filter(
                spec_dedup_raw(spec_merge_fold(gsrcs)),
            ));
        }
        r
    }

    /// Freeze the active memtable: it moves to the front of the frozen
    /// list and a fresh one, under the next id, takes its place. Readers
    /// lose nothing: every record stays in some source.
    pub fn force_freeze_memtable(&mut self)
        requires
            old(self).wf(),
            old(self).next_sst_id < usize::MAX,
        ensures
            final(self).wf(),
            final(self).state.memtable.view_entries().len() == 0,
            final(self).state.memtable.id == old(self).next_sst_id,
            final(self).state.memtable.wal matches Some(w) && w.buf@ == Seq::<u8>::empty(),
            final(self).next_sst_id == old(self).next_sst_id + 1,
            final(self).next_ts == old(self).next_ts,
            final(self).state.imm_memtables@.len() == old(self).state.imm_memtables@.len() + 1,
            final(self).state.imm_memtables@[0] == old(self).state.memtable,
            forall|i: int|
                1 <= i < final(self).state.imm_memtables@.len()
                    ==> final(self).state.imm_memtables@[i] == old(self).state.imm_memtables@[i
                    - 1],
            final(self).state.l0_sstables@ == old(self).state.l0_sstables@,
            final(self).state.levels@ == old(self).state.levels@,
            final(self).state.sstables@ == old(self).state.sstables@,
            final(self).committed_txns@ == old(self).committed_txns@,
    {
        let id = self.next_sst_id();
        let mut fresh = MemTable::create_with_wal(id);
        core::mem::swap(&mut self.state.memtable, &mut fresh);
        self.state.imm_memtables.insert(0, fresh);
    }

    /// Flush the oldest frozen memtable into a new level-0 table. The
    /// flushed records reappear, in the same order, as the newest table —
    /// so what a reader can see does not change.
    ///
    /// The bound on the flushed record count is a format limit: the
    /// table's two trailer offsets are 32-bit, and each record can cost up
    /// to `0x60000` file bytes in the worst case, so this many records are
    /// always representable. A sharper, size-based bound would admit more
    /// records of ordinary size.
#[verifier::spinoff_prover]
    #[verifier::rlimit(100)]
    pub fn force_flush_next_imm_memtable(&mut self) -> (r: Result<(), &'static str>)
        requires
            old(self).wf(),
            old(self).state.imm_memtables@.len() > 0,
            old(self).next_sst_id < usize::MAX,
            old(self).state.imm_memtables@.last().view_entries().len() > 0,
            old(self).state.imm_memtables@.last().view_entries().len() <= 0x1800,
        ensures
            r is Ok,
            final(self).wf(),
            final(self).state.imm_memtables@ == old(self).state.imm_memtables@.drop_last(),
            final(self).state.sstables@.len() == old(self).state.sstables@.len() + 1,
            final(self).state.sstables@[0].view_entries() == old(
                self,
            ).state.imm_memtables@.last().view_entries(),
            forall|i: int|
                1 <= i < final(self).state.sstables@.len() ==> final(self).state.sstables@[i]
                    == old(self).state.sstables@[i - 1],
            final(self).state.sstables@[0].id == old(self).next_sst_id,
            final(self).state.l0_sstables@ == seq![old(self).next_sst_id] + old(
                self,
            ).state.l0_sstables@,
            final(self).state.levels@ == old(self).state.levels@,
            final(self).state.memtable == old(self).state.memtable,
            final(self).next_ts == old(self).next_ts,
            final(self).next_sst_id == old(self).next_sst_id + 1,
    {
        let n = self.state.imm_memtables.len();
        let oldest = &self.state.imm_memtables[n - 1];
        let ghost flushed = oldest.view_entries();
        let mut builder = SsTableBuilder::new(if self.options.block_size <= 0xFFFD {
            self.options.block_size
        } else {
            4096
        });
        let mut i: usize = 0;
        let src = &oldest.entries;
        while i < src.len()
            invariant
                0 <= i <= src@.len(),
                entry_seq_view(src@) == flushed,
                mem_entries_wf(flushed),
                flushed.len() <= 0x1800,
                builder.wf(),
                builder.view_all() == flushed.take(i as int),
                builder.block_size <= 0xFFFD,
                builder.builder.view_entries().len() < 0xFFFF,
                builder.meta@.len() <= i,
                builder.data@.len() <= i * 0x60000,
            decreases src@.len() - i,
        {
            let e = &src[i];
            proof {
                assert(flushed[i as int] == src@[i as int]@);
                assert(flushed.take(i + 1) =~= flushed.take(i as int).push(flushed[i as int]));
                if i > 0 {
                    assert(flushed.take(i as int).last() == flushed[i as int - 1]);
                }
                assert(i * 0x60000 + 0x60000 == (i + 1) * 0x60000) by (nonlinear_arith);
                assert((i + 1) * 0x60000 <= 0x1800 * 0x60000) by (nonlinear_arith)
                    requires
                        0 <= i + 1 <= 0x1800,
                ;
            }
            builder.add(&e.key, &e.value);
            i += 1;
        }
        proof {
            assert(flushed.take(flushed.len() as int) =~= flushed);
            assert(flushed.len() * 0x60000 <= 0x1800 * 0x60000) by (nonlinear_arith)
                requires
                    0 <= flushed.len() <= 0x1800,
            ;
            assert((builder.meta@.len() + 1) * 0x20016 <= 0x1801 * 0x20016) by (nonlinear_arith)
                requires
                    0 <= builder.meta@.len() <= 0x1800,
            ;
            assert((builder.view_all().len() * 10 + 71) / 8 <= (0x1800 * 10 + 71) / 8);
        }
        let id = self.next_sst_id();
        let table = builder.build(id);
        let popped = self.state.imm_memtables.pop();
        proof {
            assert(popped is Some);
        }
        self.state.sstables.insert(0, table);
        self.state.l0_sstables.insert(0, id);
        proof {
            assert forall|i2: int|
                0 <= i2 < self.state.sstables@.len() implies (
            #[trigger] self.state.sstables@[i2]).wf() by {
                if i2 > 0 {
                    assert(self.state.sstables@[i2] == old(self).state.sstables@[i2 - 1]);
                }
            }
        }
        Ok(())
    }

    /// The merge of every table's run, newest first, with the watermark
    /// filter applied: what a full compaction writes back.
    #[verifier::spinoff_prover]
    #[verifier::rlimit(100)]
    fn compact_all_tables(tables: &Vec<SsTable>, watermark: u64) -> (r: Vec<Entry>)
        requires
            forall|k: int| 0 <= k < tables@.len() ==> (#[trigger] tables@[k]).wf(),
        ensures
            entry_seq_view(r@) == spec_compact(
                spec_merge_fold(tables@.map_values(|t: SsTable| t.view_entries())),
                watermark,
            ),
            mem_entries_wf(entry_seq_view(r@)),
    {
        let ghost tviews = tables@.map_values(|t: SsTable| t.view_entries());
        // Fold-merge the table runs, newest first.
        let mut acc: Vec<Entry> = Vec::new();
        let mut i: usize = 0;
        proof {
            reveal(SsTable::wf);
            assert forall|k: int| 0 <= k < tviews.len() implies mem_entries_wf(
                #[trigger] tviews[k],
            ) by {
                assert(tviews[k] == tables@[k].view_entries());
            }
            assert(tviews.take(0) =~= Seq::<Seq<(Seq<u8>, u64, Seq<u8>)>>::empty());
            assert(entry_seq_view(acc@) =~= spec_merge_fold(tviews.take(0)));
        }
        while i < tables.len()
            invariant
                0 <= i <= tables@.len(),
                tviews == tables@.map_values(|t: SsTable| t.view_entries()),
                forall|k: int| 0 <= k < tviews.len() ==> mem_entries_wf(#[trigger] tviews[k]),
                entries_sorted(entry_seq_view(acc@)),
                entry_seq_view(acc@) == spec_merge_fold(tviews.take(i as int)),
            decreases tables@.len() - i,
        {
            let t = &tables[i];
            proof {
                assert(tviews[i as int] == t.view_entries());
            }
            let merged = merge2(&acc, &t.entries);
            proof {
                assert(tviews.take(i + 1).drop_last() =~= tviews.take(i as int));
                assert(tviews.take(i + 1).last() == tviews[i as int]);
                assert(entry_seq_view(merged@) == spec_merge_fold(tviews.take(i + 1)));
                lemma_merge2_sorted(entry_seq_view(acc@), tviews[i as int]);
            }
            acc = merged;
            i += 1;
        }
        let ghost mes = entry_seq_view(acc@);
        proof {
            assert(tviews.take(tviews.len() as int) =~= tviews);
            lemma_merge_fold_wf(tviews);
        }
        let compacted = compact_entries(&acc, watermark);
        proof {
            lemma_compact_wf(mes, watermark);
        }
        compacted
    }

    /// Write a bounded, well-formed run into a fresh table under `id`.
    #[verifier::spinoff_prover]
    #[verifier::rlimit(100)]
    fn build_table_from_run(run: &Vec<Entry>, id: usize, block_size: usize) -> (r: SsTable)
        requires
            mem_entries_wf(entry_seq_view(run@)),
            0 < entry_seq_view(run@).len() <= 0x1800,
        ensures
            r.wf(),
            r.view_entries() == entry_seq_view(run@),
            r.id == id,
    {
        let ghost ces = entry_seq_view(run@);
        let mut builder = SsTableBuilder::new(if block_size <= 0xFFFD {
            block_size
        } else {
            4096
        });
        let mut j: usize = 0;
        while j < run.len()
            invariant
                0 <= j <= run@.len(),
                entry_seq_view(run@) == ces,
                mem_entries_wf(ces),
                ces.len() <= 0x1800,
                builder.wf(),
                builder.view_all() == ces.take(j as int),
                builder.block_size <= 0xFFFD,
                builder.builder.view_entries().len() < 0xFFFF,
                builder.meta@.len() <= j,
                builder.data@.len() <= j * 0x60000,
            decreases run@.len() - j,
        {
            let e = &run[j];
            proof {
                assert(ces[j as int] == run@[j as int]@);
                assert(ces.take(j + 1) =~= ces.take(j as int).push(ces[j as int]));
                if j > 0 {
                    assert(ces.take(j as int).last() == ces[j as int - 1]);
                }
                assert(j * 0x60000 + 0x60000 == (j + 1) * 0x60000) by (nonlinear_arith);
                assert((j + 1) * 0x60000 <= 0x1800 * 0x60000) by (nonlinear_arith)
                    requires
                        0 <= j + 1 <= 0x1800,
                ;
            }
            builder.add(&e.key, &e.value);
            j += 1;
        }
        proof {
            assert(ces.take(ces.len() as int) =~= ces);
            assert(ces.len() * 0x60000 <= 0x1800 * 0x60000) by (nonlinear_arith)
                requires
                    0 <= ces.len() <= 0x1800,
            ;
            assert((builder.meta@.len() + 1) * 0x20016 <= 0x1801 * 0x20016) by (nonlinear_arith)
                requires
                    0 <= builder.meta@.len() <= 0x1800,
            ;
            assert((builder.view_all().len() * 10 + 71) / 8 <= (0x1800 * 10 + 71) / 8);
        }
        builder.build(id)
    }

    /// Merge every table into one run, drop the records the watermark
    /// makes invisible, and install the result as the store's only
    /// table. The memtables, the timestamp allocator and the options are
    /// untouched. The run must fit the table format's record budget; an
    /// oversized run leaves the store unchanged.
    #[verifier::spinoff_prover]
    #[verifier::rlimit(100)]
    pub fn force_full_compaction(&mut self, watermark: u64) -> (r: Result<(), &'static str>)
        requires
            old(self).wf(),
            old(self).next_sst_id < usize::MAX,
        ensures
            final(self).wf(),
            ({
                let compacted = spec_compact(
                    spec_merge_fold(
                        old(self).state.sstables@.map_values(|t: SsTable| t.view_entries()),
                    ),
                    watermark,
                );
                &&& (r is Ok <==> compacted.len() <= 0x1800)
                &&& (r is Err ==> *final(self) == *old(self))
                &&& (r is Ok ==> final(self).state.levels@ == Seq::<(usize, Vec<usize>)>::empty())
                &&& (r is Ok && compacted.len() == 0 ==> {
                    &&& final(self).state.sstables@ == Seq::<SsTable>::empty()
                    &&& final(self).state.l0_sstables@ == Seq::<usize>::empty()
                    &&& final(self).next_sst_id == old(self).next_sst_id
                })
                &&& (r is Ok && compacted.len() > 0 ==> {
                    &&& final(self).state.sstables@.len() == 1
                    &&& final(self).state.sstables@[0].view_entries() == compacted
                    &&& final(self).state.sstables@[0].id == old(self).next_sst_id
                    &&& final(self).state.l0_sstables@ == seq![old(self).next_sst_id]
                    &&& final(self).next_sst_id == old(self).next_sst_id + 1
                })
            }),
            final(self).state.memtable == old(self).state.memtable,
            final(self).state.imm_memtables@ == old(self).state.imm_memtables@,
            final(self).next_ts == old(self).next_ts,
            final(self).committed_txns@ == old(self).committed_txns@,
            final(self).options == old(self).options,
    {
        let ghost tviews = self.state.sstables@.map_values(|t: SsTable| t.view_entries());
        let compacted = Self::compact_all_tables(&self.state.sstables, watermark);
        let ghost ces = entry_seq_view(compacted@);
        if compacted.len() > 0x1800 {
            return Err("compacted run too large for one table");
        }
        if compacted.len() == 0 {
            self.state.sstables = Vec::new();
            self.state.l0_sstables = Vec::new();
            self.state.levels = Vec::new();
            proof {
                assert(self.state.sstables@ =~= Seq::<SsTable>::empty());
                assert(self.state.l0_sstables@ =~= Seq::<usize>::empty());
                assert(self.state.levels@ =~= Seq::<(usize, Vec<usize>)>::empty());
            }
            return Ok(());
        }
        // Write the run into a fresh table, as a flush does.
        let id = self.next_sst_id();
        let table = Self::build_table_from_run(&compacted, id, self.options.block_size);
        let mut new_tables: Vec<SsTable> = Vec::new();
        new_tables.push(table);
        self.state.sstables = new_tables;
        let mut new_l0: Vec<usize> = Vec::new();
        new_l0.push(id);
        self.state.l0_sstables = new_l0;
        self.state.levels = Vec::new();
        proof {
            assert(self.state.l0_sstables@ =~= seq![old(self).next_sst_id]);
            assert(self.state.levels@ =~= Seq::<(usize, Vec<usize>)>::empty());
            assert forall|i2: int|
                0 <= i2 < self.state.sstables@.len() implies (
            #[trigger] self.state.sstables@[i2]).wf() by {
            }
        }
        Ok(())
    }
}


/// One batch record as the record it stores at timestamp `ts`: a deletion
/// stores the tombstone, the empty value.
pub open spec fn spec_wb_entry(r: WriteBatchRecord, ts: u64) -> (Seq<u8>, u64, Seq<u8>) {
    match r {
        WriteBatchRecord::Put(k, v) => (k@, ts, v@),
        WriteBatchRecord::Del(k) => (k@, ts, Seq::empty()),
    }
}

/// The log's bytes after a batch: one single-record batch frame per
/// stored record; a record the map cannot hold logs nothing.
pub open spec fn spec_apply_wb_wal(
    wbuf: Seq<u8>,
    batch: Seq<WriteBatchRecord>,
    ts: u64,
) -> Seq<u8>
    decreases batch.len(),
{
    if batch.len() == 0 {
        wbuf
    } else {
        let e = spec_wb_entry(batch[0], ts);
        spec_apply_wb_wal(
            if mem_entry_wf(e) {
                wbuf + spec_batch_enc(seq![e])
            } else {
                wbuf
            },
            batch.skip(1),
            ts,
        )
    }
}

/// The map after a batch, in order; a record the map cannot hold changes
/// nothing.
pub open spec fn spec_apply_wb(
    es: Seq<(Seq<u8>, u64, Seq<u8>)>,
    batch: Seq<WriteBatchRecord>,
    ts: u64,
) -> Seq<(Seq<u8>, u64, Seq<u8>)>
    decreases batch.len(),
{
    if batch.len() == 0 {
        es
    } else {
        let e = spec_wb_entry(batch[0], ts);
        spec_apply_wb(
            if mem_entry_wf(e) {
                spec_insert(es, e)
            } else {
                es
            },
            batch.skip(1),
            ts,
        )
    }
}

/// The read sources of a scan: each of the snapshot's sources restricted
/// to the key range and to versions at or below `read_ts`.
pub open spec fn spec_scan_sources(
    s: &LsmStorageState,
    lower: &KeyBound,
    upper: &KeyBound,
    read_ts: u64,
) -> Seq<Seq<(Seq<u8>, u64, Seq<u8>)>> {
    state_sources(s).map_values(
        |es: Seq<(Seq<u8>, u64, Seq<u8>)>|
            spec_ts_filter(
                es.subrange(spec_range_lo(es, lower), spec_range_hi(es, lower, upper)),
                read_ts,
            ),
    )
}

/// The running best across the first `upto` sources: either nothing so
/// far — no source before `upto` holds a version at or below `read_ts` —
/// or the winner among them.
/// Every restricted, filtered read source of a snapshot is sorted.
pub proof fn lemma_scan_sources_sorted(
    s: &LsmStorageState,
    lower: &KeyBound,
    upper: &KeyBound,
    read_ts: u64,
)
    requires
        state_wf(s),
    ensures
        forall|k: int|
            0 <= k < spec_scan_sources(s, lower, upper, read_ts).len() ==> entries_sorted(
                #[trigger] spec_scan_sources(s, lower, upper, read_ts)[k],
            ),
{
    let raw = state_sources(s);
    let g = spec_scan_sources(s, lower, upper, read_ts);
    assert forall|k: int| 0 <= k < g.len() implies entries_sorted(#[trigger] g[k]) by {
        let es = raw[k];
        assert(entries_sorted(es)) by {
            reveal(SsTable::wf);
            if k == 0 {
                assert(es == s.memtable.view_entries());
            } else if k < 1 + s.imm_memtables@.len() {
                assert(es == s.imm_memtables@.map_values(|m: MemTable| m.view_entries())[k - 1]);
                assert(es == s.imm_memtables@[k - 1].view_entries());
            } else {
                let t = k - 1 - s.imm_memtables@.len();
                assert(es == s.sstables@.map_values(|t2: SsTable| t2.view_entries())[t]);
                assert(es == s.sstables@[t].view_entries());
            }
        }
        lemma_range_bounds(es, lower, upper);
        lemma_sorted_subrange(es, spec_range_lo(es, lower), spec_range_hi(es, lower, upper));
        lemma_ts_filter_sorted(
            es.subrange(spec_range_lo(es, lower), spec_range_hi(es, lower, upper)),
            read_ts,
        );
        assert(g[k] == spec_ts_filter(
            es.subrange(spec_range_lo(es, lower), spec_range_hi(es, lower, upper)),
            read_ts,
        ));
    }
}

pub open spec fn best_inv(
    srcs: Seq<Seq<(Seq<u8>, u64, Seq<u8>)>>,
    raw: Seq<u8>,
    read_ts: u64,
    best: &Option<(u64, Vec<u8>)>,
    besti: int,
    bestt: int,
    upto: int,
) -> bool {
    match best {
        None => forall|i: int, t: int|
            0 <= i < upto && i < srcs.len() && 0 <= t < srcs[i].len() && (
            #[trigger] srcs[i][t]).0 == raw ==> srcs[i][t].1 > read_ts,
        Some((ts, v)) => {
            &&& 0 <= besti < upto
            &&& besti < srcs.len()
            &&& 0 <= bestt < srcs[besti].len()
            &&& srcs[besti][bestt] == (raw, *ts, v@)
            &&& *ts <= read_ts
            &&& forall|i2: int, t2: int|
                0 <= i2 < upto && i2 < srcs.len() && 0 <= t2 < srcs[i2].len() && (
                #[trigger] srcs[i2][t2]).0 == raw && srcs[i2][t2].1 <= read_ts ==> srcs[i2][t2].1
                    <= *ts
            &&& forall|i2: int, t2: int|
                0 <= i2 < besti && 0 <= t2 < srcs[i2].len() ==> !((#[trigger] srcs[i2][t2]).0
                    == raw && srcs[i2][t2].1 == *ts)
        },
    }
}

} // verus!
