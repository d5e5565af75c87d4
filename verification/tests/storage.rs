use mini_lsm::block::{Block, BlockBuilder};
use mini_lsm::bloom::Bloom;
use mini_lsm::iterators::{MergeIter, TwoMergeIterator};
use mini_lsm::key::{Entry, KeyVec};
use mini_lsm::lsm_storage::{LsmStorageOptions, LsmStore};
use mini_lsm::manifest::{Manifest, ManifestRecord, ManifestState};
use mini_lsm::mem_table::{KeyBound, MemTable};
use mini_lsm::mvcc::Transaction;
use mini_lsm::openfile::{AccessMode, OpenFile};
use mini_lsm::table::SsTableBuilder;
use mini_lsm::wal::{Wal, WalEntry};

fn b(v: &[u8]) -> Vec<u8> {
    v.to_vec()
}

fn opts() -> LsmStorageOptions {
    LsmStorageOptions { block_size: 4096, target_sst_size: 1 << 20 }
}

/// Round trip: encoding then decoding a block yields the identical sorted
/// record sequence.
#[test]
fn test_block_roundtrip() {
    let mut builder = BlockBuilder::new(4096);
    let entries: [(&[u8], u64, &[u8]); 4] = [
        (b"alpha", 7, b"one"),
        (b"beta", 5, b"two"),
        (b"beta", 3, b"three"),
        (b"gamma", 9, b""),
    ];
    for (k, ts, v) in entries.iter() {
        let key = KeyVec::from_vec_with_ts(k.to_vec(), *ts);
        assert!(builder.add(&key, &v.to_vec()));
    }
    let block = builder.build();
    let encoded = block.encode();
    let decoded = Block::decode(encoded.as_slice()).expect("a built block must decode");
    assert_eq!(decoded.entries.len(), block.entries.len());
    for i in 0..block.entries.len() {
        assert_eq!(
            decoded.entries[i].key.for_testing_key_ref(),
            block.entries[i].key.for_testing_key_ref()
        );
        assert_eq!(decoded.entries[i].key.ts(), block.entries[i].key.ts());
        assert_eq!(decoded.entries[i].value, block.entries[i].value);
    }
}

#[test]
fn test_block_budget_rejects_when_full() {
    let mut builder = BlockBuilder::new(64);
    let k1 = KeyVec::from_vec_with_ts(b"a".to_vec(), 1);
    assert!(builder.add(&k1, &vec![0u8; 100]));
    let k2 = KeyVec::from_vec_with_ts(b"b".to_vec(), 1);
    assert!(!builder.add(&k2, &vec![0u8; 100]));
}

/// No false negatives: every inserted key tests positive.
#[test]
fn test_bloom_no_false_negatives() {
    let hashes: Vec<u32> = (0..500u32).map(|x| x.wrapping_mul(2654435761)).collect();
    let bloom = Bloom::build_from_key_hashes(&hashes, 10);
    for h in hashes.iter() {
        assert!(bloom.may_contain(*h));
    }
    let absent: Vec<u32> = (1000..1200u32).map(|x| x.wrapping_mul(40503)).collect();
    let mut negatives = 0;
    for h in absent.iter() {
        if !bloom.may_contain(*h) {
            negatives += 1;
        }
    }
    // Most of the keys never inserted are rejected.
    assert!(negatives > 150);
}

/// Recovery after a crash mid-batch keeps exactly the fully written,
/// checksum-valid batches; nothing of the torn tail appears.
#[test]
fn test_wal_crash_recovery() {
    let mut wal = Wal::create();
    wal.put_batch(&vec![
        WalEntry { key: b(b"a"), ts: 1, value: b(b"1") },
        WalEntry { key: b(b"b"), ts: 2, value: b(b"2") },
    ]);
    wal.put_batch(&vec![WalEntry { key: b(b"c"), ts: 3, value: b(b"3") }]);
    let mut torn = wal.buf.clone();
    // A torn third batch: a frame header promising more bytes than exist.
    torn.extend_from_slice(&[0, 0, 0, 99, 1, 2, 3]);
    let (_wal2, entries) = Wal::recover(torn.as_slice());
    assert_eq!(entries.len(), 3);
    assert_eq!(entries[0].key, b(b"a"));
    assert_eq!(entries[1].key, b(b"b"));
    assert_eq!(entries[2].key, b(b"c"));
    assert_eq!(entries[2].value, b(b"3"));
}

#[test]
fn test_wal_checksum_mismatch_discards_tail() {
    let mut wal = Wal::create();
    wal.put_batch(&vec![WalEntry { key: b(b"a"), ts: 1, value: b(b"1") }]);
    let good_len = wal.buf.len();
    wal.put_batch(&vec![WalEntry { key: b(b"b"), ts: 2, value: b(b"2") }]);
    let mut bytes = wal.buf.clone();
    // Corrupt one payload byte of the second batch.
    bytes[good_len + 5] ^= 0xFF;
    let (_w, entries) = Wal::recover(bytes.as_slice());
    assert_eq!(entries.len(), 1);
    assert_eq!(entries[0].key, b(b"a"));
}

#[test]
fn test_memtable_wal_replay() {
    let mut memtable = MemTable::create_with_wal(3);
    memtable.put(&KeyVec::from_vec_with_ts(b(b"k1"), 5), &b(b"v1")).unwrap();
    memtable.put(&KeyVec::from_vec_with_ts(b(b"k2"), 6), &b(b"v2")).unwrap();
    let log = memtable.wal.as_ref().unwrap().buf.clone();
    let recovered = MemTable::recover_from_wal(3, log.as_slice());
    assert_eq!(
        recovered.get(&KeyVec::from_vec_with_ts(b(b"k1"), 5)).unwrap(),
        b(b"v1")
    );
    assert_eq!(
        recovered.get(&KeyVec::from_vec_with_ts(b(b"k2"), 6)).unwrap(),
        b(b"v2")
    );
}

/// Merging overlapping sorted sources yields one record per raw key: the
/// newest version, an earlier source winning a tie.
#[test]
fn test_merge_dedup_newest() {
    let mut m1 = MemTable::create(0);
    m1.put(&KeyVec::from_vec_with_ts(b(b"a"), 10), &b(b"a10")).unwrap();
    m1.put(&KeyVec::from_vec_with_ts(b(b"b"), 7), &b(b"b7")).unwrap();
    let mut m2 = MemTable::create(1);
    m2.put(&KeyVec::from_vec_with_ts(b(b"a"), 4), &b(b"a4")).unwrap();
    m2.put(&KeyVec::from_vec_with_ts(b(b"c"), 2), &b(b"c2")).unwrap();
    let iters = vec![
        m1.scan(&KeyBound::Unbounded, &KeyBound::Unbounded),
        m2.scan(&KeyBound::Unbounded, &KeyBound::Unbounded),
    ];
    let mut merged = MergeIter::create(iters);
    let mut seen: Vec<(Vec<u8>, u64, Vec<u8>)> = Vec::new();
    while merged.is_valid() {
        seen.push((
            merged.key().for_testing_key_ref().clone(),
            merged.key().ts(),
            merged.value().clone(),
        ));
        merged.next().unwrap();
    }
    assert_eq!(
        seen,
        vec![
            (b(b"a"), 10, b(b"a10")),
            (b(b"b"), 7, b(b"b7")),
            (b(b"c"), 2, b(b"c2")),
        ]
    );
}

/// The two-source overlay: on an equal raw key the left source wins.
#[test]
fn test_two_merge_left_wins() {
    let mut local = MemTable::create(0);
    local.put(&KeyVec::from_vec_with_ts(b(b"a"), 1), &b(b"local-a")).unwrap();
    let mut snapshot = MemTable::create(1);
    snapshot.put(&KeyVec::from_vec_with_ts(b(b"a"), 1), &b(b"snap-a")).unwrap();
    snapshot.put(&KeyVec::from_vec_with_ts(b(b"b"), 1), &b(b"snap-b")).unwrap();
    let li = local.scan(&KeyBound::Unbounded, &KeyBound::Unbounded);
    let si = snapshot.scan(&KeyBound::Unbounded, &KeyBound::Unbounded);
    let mut it = TwoMergeIterator::create(&li, &si);
    assert!(it.is_valid());
    assert_eq!(it.value().as_slice(), b"local-a");
    it.next().unwrap();
    assert_eq!(it.value().as_slice(), b"snap-b");
    it.next().unwrap();
    assert!(!it.is_valid());
}

/// Put two keys, delete one, flush everything: the deleted key reads as
/// absent and the other keeps its value.
#[test]
fn test_put_delete_flush_get() {
    let mut store = LsmStore::open(opts());
    store.put(&b(b"a"), &b(b"1")).unwrap();
    store.put(&b(b"b"), &b(b"2")).unwrap();
    store.delete(&b(b"a")).unwrap();
    store.force_freeze_memtable();
    store.force_flush_next_imm_memtable().unwrap();
    assert_eq!(store.get(&b(b"a")), None);
    assert_eq!(store.get(&b(b"b")), Some(b(b"2")));
}

/// Two flushed tables holding versions of one key at timestamps 10 and
/// 20: a read at 15 sees the older version, a read at 25 the newer, and a
/// read before both sees nothing.
#[test]
fn test_two_tables_version_reads() {
    let mut store = LsmStore::open(opts());
    store.next_ts = 10;
    store.put(&b(b"x"), &b(b"v10")).unwrap();
    store.force_freeze_memtable();
    store.force_flush_next_imm_memtable().unwrap();
    store.next_ts = 20;
    store.put(&b(b"x"), &b(b"v20")).unwrap();
    store.force_freeze_memtable();
    store.force_flush_next_imm_memtable().unwrap();
    assert_eq!(store.get_with_ts(&b(b"x"), 15), Some(b(b"v10")));
    assert_eq!(store.get_with_ts(&b(b"x"), 25), Some(b(b"v20")));
    assert_eq!(store.get_with_ts(&b(b"x"), 5), None);
}

/// A read at `read_ts` never sees a version written above it.
#[test]
fn test_get_respects_read_ts() {
    let mut store = LsmStore::open(opts());
    store.next_ts = 10;
    store.put(&b(b"k"), &b(b"old")).unwrap();
    store.next_ts = 50;
    store.put(&b(b"k"), &b(b"new")).unwrap();
    assert_eq!(store.get_with_ts(&b(b"k"), 49), Some(b(b"old")));
    assert_eq!(store.get_with_ts(&b(b"k"), 50), Some(b(b"new")));
    assert_eq!(store.get_with_ts(&b(b"k"), 9), None);
}

#[test]
fn test_table_builder_blocks() {
    let mut builder = SsTableBuilder::new(64);
    for i in 0..50u64 {
        let key = KeyVec::from_vec_with_ts(format!("key{:03}", i).into_bytes(), i);
        builder.add(&key, &b(b"value"));
    }
    let table = builder.build(7);
    assert!(table.num_of_blocks() > 1);
    assert_eq!(table.sst_id(), 7);
    assert_eq!(table.first_key().for_testing_key_ref().as_slice(), b"key000");
    assert_eq!(table.last_key().for_testing_key_ref().as_slice(), b"key049");
    assert_eq!(table.max_ts(), 49);
}

#[test]
fn test_manifest_roundtrip_and_replay() {
    let mut manifest = Manifest::create();
    manifest.add_record(&b(b"first"));
    manifest.add_record(&b(b"second"));
    let (m2, records) = Manifest::recover(manifest.buf.as_slice()).unwrap();
    assert_eq!(m2.buf, manifest.buf);
    assert_eq!(records, vec![b(b"first"), b(b"second")]);

    let mut corrupted = manifest.buf.clone();
    let last = corrupted.len() - 1;
    corrupted[last] ^= 0xFF;
    assert!(Manifest::recover(corrupted.as_slice()).is_err());

    let st = ManifestState::replay(&vec![
        ManifestRecord::NewMemtable(0),
        ManifestRecord::NewMemtable(1),
        ManifestRecord::Flush(0),
    ]);
    assert_eq!(st.memtables, vec![1]);
    assert_eq!(st.l0_tables, vec![0]);
    assert_eq!(st.next_id, 2);
}

/// A transaction reads its own writes, sees the store at its snapshot, and
/// conflicts are detected at commit.
#[test]
fn test_transaction_overlay_and_conflict() {
    let mut store = LsmStore::open(opts());
    store.put(&b(b"a"), &b(b"base")).unwrap();
    let read_ts = store.next_ts - 1;

    let mut txn = Transaction::begin(read_ts, true);
    assert_eq!(txn.get(&store, &b(b"a")), Some(b(b"base")));
    txn.put(&b(b"a"), &b(b"mine")).unwrap();
    assert_eq!(txn.get(&store, &b(b"a")), Some(b(b"mine")));
    txn.delete(&b(b"a")).unwrap();
    assert_eq!(txn.get(&store, &b(b"a")), None);
    txn.put(&b(b"a"), &b(b"final")).unwrap();
    assert!(txn.commit(&mut store).is_ok());
    assert_eq!(store.get(&b(b"a")), Some(b(b"final")));

    // A second transaction whose read overlaps that committed write, begun
    // before it committed, must fail its conflict check.
    let mut t2 = Transaction::begin(read_ts, true);
    let _ = t2.get(&store, &b(b"a"));
    assert!(t2.commit(&mut store).is_err());
}

#[test]
fn test_colorized_name_shapes() {
    let plain = OpenFile::new("file.txt".to_string(), 0, AccessMode::Read);
    assert_eq!(plain.colorized_name(), "file.txt");
    let pipe = OpenFile::new("<pipe #test>".to_string(), 0, AccessMode::ReadWrite);
    let colored = pipe.colorized_name();
    assert!(colored.starts_with("\u{1B}[38;5;"));
    assert!(colored.ends_with("\u{1B}[0m"));
    assert!(colored.contains("<pipe #test>"));
}

#[test]
fn test_freeze_preserves_reads() {
    let mut store = LsmStore::open(opts());
    store.put(&b(b"k"), &b(b"v")).unwrap();
    store.force_freeze_memtable();
    assert_eq!(store.get(&b(b"k")), Some(b(b"v")));
    store.put(&b(b"k2"), &b(b"v2")).unwrap();
    assert_eq!(store.get(&b(b"k2")), Some(b(b"v2")));
    assert_eq!(store.get(&b(b"k")), Some(b(b"v")));
}

/// Above the watermark, compaction is invisible: the newest version at or
/// below the watermark survives per key, newer versions all survive,
/// superseded versions and buried tombstones go.
#[test]
fn test_compaction_watermark_filter() {
    let mk = |k: &[u8], ts: u64, v: &[u8]| mini_lsm::key::Entry {
        key: KeyVec::from_vec_with_ts(k.to_vec(), ts),
        value: v.to_vec(),
    };
    let merged = vec![
        mk(b"a", 30, b"v30"),
        mk(b"a", 10, b"v10"),
        mk(b"a", 5, b"v5"),
        mk(b"b", 8, b""),
        mk(b"b", 3, b"v3"),
        mk(b"c", 2, b"v2"),
    ];
    let kept = mini_lsm::compaction::compact_entries(&merged, 10);
    let flat: Vec<(Vec<u8>, u64)> = kept
        .iter()
        .map(|e| (e.key.for_testing_key_ref().clone(), e.key.ts()))
        .collect();
    assert_eq!(flat, vec![(b(b"a"), 30), (b(b"a"), 10), (b(b"c"), 2)]);
}

/// Encode-then-decode of the block metadata section is the identity.
#[test]
fn test_block_meta_roundtrip() {
    let metas = vec![
        mini_lsm::table::BlockMeta {
            offset: 0,
            first_key: KeyVec::from_vec_with_ts(b(b"aa"), 9),
            last_key: KeyVec::from_vec_with_ts(b(b"cc"), 2),
        },
        mini_lsm::table::BlockMeta {
            offset: 77,
            first_key: KeyVec::from_vec_with_ts(b(b"dd"), 8),
            last_key: KeyVec::from_vec_with_ts(b(b"zz"), 1),
        },
    ];
    let mut buf: Vec<u8> = Vec::new();
    mini_lsm::table::BlockMeta::encode_block_meta(&metas, 42, &mut buf);
    let (decoded, ts) = mini_lsm::table::BlockMeta::decode_block_meta(buf.as_slice())
        .expect("an encoded metadata section must decode");
    assert_eq!(ts, 42);
    assert_eq!(decoded.len(), 2);
    assert_eq!(decoded[0].offset, 0);
    assert_eq!(decoded[1].offset, 77);
    assert_eq!(decoded[0].first_key.for_testing_key_ref(), &b(b"aa"));
    assert_eq!(decoded[1].last_key.for_testing_key_ref(), &b(b"zz"));
    assert_eq!(decoded[1].last_key.ts(), 1);
    // Damage makes decoding fail rather than mislead.
    let mut short = buf.clone();
    short.pop();
    assert!(mini_lsm::table::BlockMeta::decode_block_meta(short.as_slice()).is_none());
}

/// The memtable tracks the byte size of single and batched writes.
#[test]
fn test_memtable_size_tracking() {
    let mut m = MemTable::create(0);
    m.put(&KeyVec::from_vec_with_ts(b(b"abc"), 1), &b(b"xy")).unwrap();
    assert_eq!(m.approximate_size(), 3 + 8 + 2);
    let batch = vec![
        Entry { key: KeyVec::from_vec_with_ts(b(b"d"), 2), value: b(b"1") },
        Entry { key: KeyVec::from_vec_with_ts(b(b"e"), 3), value: b(b"22") },
    ];
    m.put_batch(&batch).unwrap();
    assert_eq!(m.approximate_size(), 13 + (1 + 8 + 1) + (1 + 8 + 2));
}

/// A committed transaction's writes land at one fresh timestamp and the
/// store's clock advances once.
#[test]
fn test_commit_applies_writes() {
    let mut store = LsmStore::open(opts());
    store.put(&b(b"seed"), &b(b"s")).unwrap();
    let ts_before = store.next_ts;
    let mut txn = Transaction::begin(ts_before - 1, false);
    txn.put(&b(b"k1"), &b(b"v1")).unwrap();
    txn.put(&b(b"k2"), &b(b"v2")).unwrap();
    assert!(txn.commit(&mut store).is_ok());
    assert_eq!(store.next_ts, ts_before + 1);
    assert_eq!(store.get(&b(b"k1")), Some(b(b"v1")));
    assert_eq!(store.get(&b(b"k2")), Some(b(b"v2")));
}

/// A range scan at a read timestamp: newest visible version per key in
/// order, deletions invisible, bounds respected.
#[test]
fn test_scan_range_at_ts() {
    let mut store = LsmStore::open(opts());
    store.next_ts = 10;
    store.put(&b(b"a"), &b(b"a10")).unwrap();
    store.next_ts = 20;
    store.put(&b(b"a"), &b(b"a20")).unwrap();
    store.put(&b(b"b"), &b(b"b21")).unwrap();
    store.force_freeze_memtable();
    store.force_flush_next_imm_memtable().unwrap();
    store.next_ts = 30;
    store.put(&b(b"c"), &b(b"c30")).unwrap();
    store.delete(&b(b"b")).unwrap();

    // At 15 only the oldest version of "a" is visible.
    let mut it = store.scan(&KeyBound::Unbounded, &KeyBound::Unbounded, 15);
    let mut seen: Vec<(Vec<u8>, Vec<u8>)> = Vec::new();
    while it.is_valid() {
        seen.push((it.key().for_testing_key_ref().clone(), it.value().clone()));
        it.next().unwrap();
    }
    assert_eq!(seen, vec![(b(b"a"), b(b"a10"))]);

    // At the newest timestamp "b" is deleted and everything else visible.
    let mut it2 = store.scan(&KeyBound::Unbounded, &KeyBound::Unbounded, u64::MAX);
    let mut seen2: Vec<(Vec<u8>, Vec<u8>)> = Vec::new();
    while it2.is_valid() {
        seen2.push((it2.key().for_testing_key_ref().clone(), it2.value().clone()));
        it2.next().unwrap();
    }
    assert_eq!(seen2, vec![(b(b"a"), b(b"a20")), (b(b"c"), b(b"c30"))]);

    // Bounds restrict the range.
    let lo = KeyBound::Included(KeyVec::from_vec_with_ts(b(b"b"), u64::MAX));
    let mut it3 = store.scan(&lo, &KeyBound::Unbounded, u64::MAX);
    let mut seen3: Vec<Vec<u8>> = Vec::new();
    while it3.is_valid() {
        seen3.push(it3.key().for_testing_key_ref().clone());
        it3.next().unwrap();
    }
    assert_eq!(seen3, vec![b(b"c")]);
}

/// A built table's file image reopens to an equivalent, readable table;
/// a damaged image is refused.
#[test]
fn test_table_open_roundtrip() {
    let mut store = LsmStore::open(opts());
    store.next_ts = 10;
    store.put(&b(b"x"), &b(b"v10")).unwrap();
    store.put(&b(b"y"), &b(b"v11")).unwrap();
    store.force_freeze_memtable();
    store.force_flush_next_imm_memtable().unwrap();
    let table = &store.state.sstables[0];

    let reopened = mini_lsm::table::SsTable::open(table.sst_id(), table.file.as_slice())
        .expect("a written table must reopen");
    assert_eq!(reopened.num_of_blocks(), table.num_of_blocks());
    assert_eq!(
        reopened.first_key().for_testing_key_ref(),
        table.first_key().for_testing_key_ref()
    );
    assert_eq!(
        reopened.last_key().for_testing_key_ref(),
        table.last_key().for_testing_key_ref()
    );
    assert_eq!(reopened.max_ts(), table.max_ts());

    // Reads go through the reopened table alone.
    let mut store2 = LsmStore::open(opts());
    store2.state.sstables.push(reopened);
    store2.state.l0_sstables.push(table.sst_id());
    assert_eq!(store2.get_with_ts(&b(b"x"), 50), Some(b(b"v10")));
    assert_eq!(store2.get_with_ts(&b(b"y"), 50), Some(b(b"v11")));
    assert_eq!(store2.get_with_ts(&b(b"x"), 5), None);

    // One flipped byte in a block fails the checksum or the decode.
    let mut bad = table.file.clone();
    bad[5] ^= 0xFF;
    assert!(mini_lsm::table::SsTable::open(table.sst_id(), bad.as_slice()).is_err());
}

/// A full compaction merges every table into one and changes no read at
/// or above the watermark; overwritten versions and covered tombstones
/// at or below it are gone from the stored run.
#[test]
fn test_force_full_compaction() {
    let mut store = LsmStore::open(opts());
    store.next_ts = 10;
    store.put(&b(b"a"), &b(b"a10")).unwrap();
    store.put(&b(b"b"), &b(b"b11")).unwrap();
    store.force_freeze_memtable();
    store.force_flush_next_imm_memtable().unwrap();
    store.put(&b(b"a"), &b(b"a12")).unwrap();
    store.delete(&b(b"b")).unwrap();
    store.put(&b(b"c"), &b(b"c14")).unwrap();
    store.force_freeze_memtable();
    store.force_flush_next_imm_memtable().unwrap();
    assert_eq!(store.state.sstables.len(), 2);

    let before_a = store.get_with_ts(&b(b"a"), 20);
    let before_b = store.get_with_ts(&b(b"b"), 20);
    let before_c = store.get_with_ts(&b(b"c"), 20);
    store.force_full_compaction(15).unwrap();

    assert_eq!(store.state.sstables.len(), 1);
    assert_eq!(store.state.l0_sstables.len(), 1);
    assert!(store.state.levels.is_empty());
    assert_eq!(store.get_with_ts(&b(b"a"), 20), before_a);
    assert_eq!(store.get_with_ts(&b(b"b"), 20), before_b);
    assert_eq!(store.get_with_ts(&b(b"c"), 20), before_c);
    assert_eq!(store.get_with_ts(&b(b"a"), 20), Some(b(b"a12")));
    assert_eq!(store.get_with_ts(&b(b"b"), 20), None);
    // The stored run keeps only the newest version of each key and no
    // tombstone: a12, c14.
    assert_eq!(store.state.sstables[0].entries.len(), 2);
}

/// Compacting an empty store (or one whose run compacts away entirely)
/// leaves no table at all.
#[test]
fn test_force_full_compaction_to_empty() {
    let mut store = LsmStore::open(opts());
    store.next_ts = 10;
    store.delete(&b(b"gone")).unwrap();
    store.force_freeze_memtable();
    store.force_flush_next_imm_memtable().unwrap();
    assert_eq!(store.state.sstables.len(), 1);
    store.force_full_compaction(15).unwrap();
    assert!(store.state.sstables.is_empty());
    assert!(store.state.l0_sstables.is_empty());
    assert_eq!(store.get_with_ts(&b(b"gone"), 20), None);
}

/// A transaction scan overlays the write buffer on the snapshot: a
/// buffered write hides the stored version of its key, a buffered
/// deletion drops the key, and everything else reads as of `read_ts`.
#[test]
fn test_txn_scan_overlay() {
    let mut store = LsmStore::open(opts());
    store.next_ts = 10;
    store.put(&b(b"a"), &b(b"a10")).unwrap();
    store.put(&b(b"b"), &b(b"b11")).unwrap();
    store.put(&b(b"d"), &b(b"d12")).unwrap();

    let mut txn = Transaction::begin(store.next_ts - 1, false);
    txn.put(&b(b"b"), &b(b"local-b")).unwrap();
    txn.put(&b(b"c"), &b(b"local-c")).unwrap();
    txn.delete(&b(b"d")).unwrap();

    let mut it = txn
        .scan(&store, &KeyBound::Unbounded, &KeyBound::Unbounded)
        .unwrap();
    let mut seen: Vec<(Vec<u8>, Vec<u8>)> = Vec::new();
    while it.is_valid() {
        seen.push((it.key().for_testing_key_ref().clone(), it.value().clone()));
        it.next().unwrap();
    }
    assert_eq!(
        seen,
        vec![
            (b(b"a"), b(b"a10")),
            (b(b"b"), b(b"local-b")),
            (b(b"c"), b(b"local-c")),
        ]
    );

    // A bounded scan restricts both the buffer and the snapshot.
    let mut it2 = txn
        .scan(
            &store,
            &KeyBound::Included(KeyVec::from_vec_with_ts(b(b"b"), u64::MAX)),
            &KeyBound::Excluded(KeyVec::from_vec_with_ts(b(b"c"), u64::MAX)),
        )
        .unwrap();
    let mut seen2: Vec<(Vec<u8>, Vec<u8>)> = Vec::new();
    while it2.is_valid() {
        seen2.push((it2.key().for_testing_key_ref().clone(), it2.value().clone()));
        it2.next().unwrap();
    }
    assert_eq!(seen2, vec![(b(b"b"), b(b"local-b"))]);
}
