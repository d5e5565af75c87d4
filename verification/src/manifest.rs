//! The manifest: a durable, append-only log of structural transitions,
//! replayed on recovery to rebuild table membership and the id allocator.
//!
//! Each record travels as opaque bytes inside a length-prefixed,
//! checksummed frame; the caller maps records to and from bytes and
//! persists the buffer. A checksum mismatch anywhere is fatal to
//! recovery: the structural history is ambiguous past that point.

use vstd::prelude::*;
use crate::encoding::{spec_u64_be, spec_u32_be, spec_u64_of, spec_u32_of, put_u64_be, put_u32_be, put_bytes, get_u64_be, get_u32_be, copy_range, clone_bytes};
use crate::hashes::{crc32, crc32_of};

verus! {

/// A structural transition.
pub enum ManifestRecord {
    /// A fresh memtable with this id was installed.
    NewMemtable(usize),
    /// The memtable with this id was flushed into the table of the same id.
    Flush(usize),
    /// A full rewrite of level 0: the input tables were replaced by the
    /// output tables.
    Compaction(Vec<usize>, Vec<usize>),
}

/// One frame: record length, record bytes, record checksum.
pub open spec fn spec_frame_enc(rec: Seq<u8>) -> Seq<u8> {
    spec_u64_be(rec.len() as u64) + rec + spec_u32_be(crc32_of(rec))
}

/// Does the byte stream split into whole, checksum-valid frames, and into
/// which record byte strings?
pub open spec fn spec_manifest_decode(bytes: Seq<u8>) -> Option<Seq<Seq<u8>>>
    decreases bytes.len(),
{
    if bytes.len() == 0 {
        Some(Seq::empty())
    } else if bytes.len() < 12 {
        None
    } else {
        let sz = spec_u64_of(bytes.subrange(0, 8)) as int;
        if 12 + sz > bytes.len() {
            None
        } else {
            let rec = bytes.subrange(8, 8 + sz);
            if spec_u32_of(bytes[8 + sz], bytes[9 + sz], bytes[10 + sz], bytes[11 + sz])
                != crc32_of(rec) {
                None
            } else {
                match spec_manifest_decode(bytes.skip(12 + sz)) {
                    Some(rest) => Some(seq![rec] + rest),
                    None => None,
                }
            }
        }
    }
}

/// The manifest log: the bytes of the append-only stream.
pub struct Manifest {
    pub buf: Vec<u8>,
}

impl Manifest {
    /// A fresh, empty manifest.
    pub fn create() -> (r: Manifest)
        ensures
            r.buf@ == Seq::<u8>::empty(),
    {
        Manifest { buf: Vec::new() }
    }

    /// Append one record's bytes as a frame. The caller persists the new
    /// bytes synchronously before relying on the record.
    pub fn add_record(&mut self, record: &Vec<u8>)
        requires
            record@.len() <= 0xFFFFFFFF,
        ensures
            final(self).buf@ == old(self).buf@ + spec_frame_enc(record@),
    {
        self.add_record_when_init(record)
    }

    /// As `add_record`, before the store is fully open.
    pub fn add_record_when_init(&mut self, record: &Vec<u8>)
        requires
            record@.len() <= 0xFFFFFFFF,
        ensures
            final(self).buf@ == old(self).buf@ + spec_frame_enc(record@),
    {
        let checksum = crc32(record.as_slice());
        put_u64_be(&mut self.buf, record.len() as u64);
        put_bytes(&mut self.buf, record.as_slice());
        put_u32_be(&mut self.buf, checksum);
        proof {
            assert(self.buf@ =~= old(self).buf@ + spec_frame_enc(record@));
        }
    }

    /// Recover the record byte strings from a manifest's bytes. Unlike the
    /// write-ahead log, any damage is fatal: a truncated or
    /// checksum-mismatched frame fails the whole recovery.
    #[verifier::rlimit(100)]
    pub fn recover(bytes: &[u8]) -> (r: Result<(Manifest, Vec<Vec<u8>>), &'static str>)
        ensures
            r is Ok <==> spec_manifest_decode(bytes@) is Some,
            r matches Ok((m, recs)) ==> m.buf@ == bytes@ && Some(
                recs@.map_values(|v: Vec<u8>| v@),
            ) == spec_manifest_decode(bytes@),
    {
        let n = bytes.len();
        let mut pos: usize = 0;
        let mut out: Vec<Vec<u8>> = Vec::new();
        proof {
            assert(bytes@.skip(0) =~= bytes@);
            assert(out@.map_values(|v: Vec<u8>| v@) =~= Seq::<Seq<u8>>::empty());
        }
        loop
            invariant
                0 <= pos <= n,
                n == bytes@.len(),
                spec_manifest_decode(bytes@) == (match spec_manifest_decode(
                    bytes@.skip(pos as int),
                ) {
                    Some(rest) => Some(out@.map_values(|v: Vec<u8>| v@) + rest),
                    None => None::<Seq<Seq<u8>>>,
                }),
            ensures
                spec_manifest_decode(bytes@) == Some(out@.map_values(|v: Vec<u8>| v@)),
            decreases n - pos,
        {
            let ghost rest = bytes@.skip(pos as int);
            if pos == n {
                proof {
                    assert(rest.len() == 0);
                    assert(out@.map_values(|v: Vec<u8>| v@) + Seq::<Seq<u8>>::empty()
                        =~= out@.map_values(|v: Vec<u8>| v@));
                }
                break;
            }
            if n - pos < 12 {
                return Err("manifest truncated");
            }
            let sz64 = get_u64_be(bytes, pos);
            proof {
                assert(bytes@.subrange(pos as int, pos + 8) =~= rest.subrange(0, 8));
            }
            if sz64 > (n - pos - 12) as u64 {
                proof {
                    assert(spec_manifest_decode(rest) is None);
                }
                return Err("manifest truncated");
            }
            let sz = sz64 as usize;
            let rec = copy_range(bytes, pos + 8, sz);
            proof {
                assert(rec@ =~= rest.subrange(8, 8 + sz as int));
            }
            let stored = get_u32_be(bytes, pos + 8 + sz);
            proof {
                assert(rest[8 + sz as int] == bytes@[pos + 8 + sz as int]);
                assert(rest[9 + sz as int] == bytes@[pos + 8 + sz + 1]);
                assert(rest[10 + sz as int] == bytes@[pos + 8 + sz + 2]);
                assert(rest[11 + sz as int] == bytes@[pos + 8 + sz + 3]);
            }
            let actual = crc32(rec.as_slice());
            if stored != actual {
                proof {
                    assert(spec_manifest_decode(rest) is None);
                }
                return Err("manifest checksum mismatched");
            }
            let ghost prev = out@;
            out.push(rec);
            proof {
                assert(rest.skip(12 + sz as int) =~= bytes@.skip(pos + 12 + sz as int));
                assert(out@.map_values(|v: Vec<u8>| v@) =~= prev.map_values(|v: Vec<u8>| v@)
                    + seq![rest.subrange(8, 8 + sz as int)]);
                if spec_manifest_decode(bytes@.skip(pos + 12 + sz as int)) is Some {
                    let r2 = spec_manifest_decode(bytes@.skip(pos + 12 + sz as int))->Some_0;
                    assert(prev.map_values(|v: Vec<u8>| v@) + (seq![rest.subrange(
                        8,
                        8 + sz as int,
                    )] + r2) =~= out@.map_values(|v: Vec<u8>| v@) + r2);
                }
            }
            pos = pos + 12 + sz;
        }
        let m = Manifest { buf: copy_range(bytes, 0, n) };
        proof {
            assert(bytes@.subrange(0, n as int) =~= bytes@);
        }
        Ok((m, out))
    }
}

/// What recovery rebuilds: the live memtable ids, the level-0 table ids
/// (newest first), and the id allocator's next value.
pub struct ManifestState {
    pub memtables: Vec<usize>,
    pub l0_tables: Vec<usize>,
    pub next_id: usize,
}

/// A sequence without any occurrence of `id`.
pub open spec fn spec_remove_id(s: Seq<usize>, id: usize) -> Seq<usize>
    decreases s.len(),
{
    if s.len() == 0 {
        Seq::empty()
    } else if s[0] == id {
        spec_remove_id(s.skip(1), id)
    } else {
        seq![s[0]] + spec_remove_id(s.skip(1), id)
    }
}

/// One record's effect on the recovered state.
pub open spec fn spec_apply_record(
    s: (Seq<usize>, Seq<usize>, int),
    r: ManifestRecord,
) -> (Seq<usize>, Seq<usize>, int) {
    match r {
        ManifestRecord::NewMemtable(id) => (
            s.0.push(id),
            s.1,
            if id + 1 > s.2 {
                id + 1
            } else {
                s.2
            },
        ),
        ManifestRecord::Flush(id) => (
            spec_remove_id(s.0, id),
            seq![id] + s.1,
            if id + 1 > s.2 {
                id + 1
            } else {
                s.2
            },
        ),
        ManifestRecord::Compaction(ins, outs) => (s.0, outs@, s.2),
    }
}

/// The state after replaying records `i` onward.
pub open spec fn spec_replay(
    s: (Seq<usize>, Seq<usize>, int),
    rs: Seq<ManifestRecord>,
) -> (Seq<usize>, Seq<usize>, int)
    decreases rs.len(),
{
    if rs.len() == 0 {
        s
    } else {
        spec_replay(spec_apply_record(s, rs[0]), rs.skip(1))
    }
}

/// Remove every occurrence of `id`.
fn remove_id(v: &Vec<usize>, id: usize) -> (r: Vec<usize>)
    ensures
        r@ == spec_remove_id(v@, id),
{
    let mut out: Vec<usize> = Vec::new();
    let mut i: usize = 0;
    proof {
        assert(v@.skip(0) =~= v@);
        assert(out@ + spec_remove_id(v@, id) =~= spec_remove_id(v@, id));
    }
    while i < v.len()
        invariant
            0 <= i <= v@.len(),
            spec_remove_id(v@, id) == out@ + spec_remove_id(v@.skip(i as int), id),
        decreases v@.len() - i,
    {
        let ghost rest = v@.skip(i as int);
        proof {
            assert(rest[0] == v@[i as int]);
            assert(rest.skip(1) =~= v@.skip(i + 1));
        }
        if v[i] != id {
            let ghost prev = out@;
            out.push(v[i]);
            proof {
                assert(out@ + spec_remove_id(v@.skip(i + 1), id) =~= prev + spec_remove_id(
                    rest,
                    id,
                ));
            }
        }
        i += 1;
    }
    proof {
        assert(spec_remove_id(v@.skip(v@.len() as int), id) == Seq::<usize>::empty());
        assert(out@ + Seq::<usize>::empty() =~= out@);
    }
    out
}

impl ManifestState {
    pub open spec fn view_triple(&self) -> (Seq<usize>, Seq<usize>, int) {
        (self.memtables@, self.l0_tables@, self.next_id as int)
    }

    /// The empty state, before any record.
    pub fn new() -> (r: ManifestState)
        ensures
            r.view_triple() == (Seq::<usize>::empty(), Seq::<usize>::empty(), 0int),
    {
        let r = ManifestState { memtables: Vec::new(), l0_tables: Vec::new(), next_id: 0 };
        proof {
            assert(r.memtables@ =~= Seq::<usize>::empty());
            assert(r.l0_tables@ =~= Seq::<usize>::empty());
        }
        r
    }

    /// Replay records in order, rebuilding memtable and table membership
    /// and the next id.
    pub fn replay(records: &Vec<ManifestRecord>) -> (r: ManifestState)
        requires
            forall|i: int|
                0 <= i < records@.len() ==> (match #[trigger] records@[i] {
                    ManifestRecord::NewMemtable(id) => id < usize::MAX,
                    ManifestRecord::Flush(id) => id < usize::MAX,
                    ManifestRecord::Compaction(..) => true,
                }),
        ensures
            r.view_triple() == spec_replay(
                (Seq::<usize>::empty(), Seq::<usize>::empty(), 0int),
                records@,
            ),
    {
        let ghost rs = records@;
        let mut st = ManifestState::new();
        let mut i: usize = 0;
        proof {
            assert(rs.skip(0) =~= rs);
        }
        while i < records.len()
            invariant
                0 <= i <= records@.len(),
                rs == records@,
                forall|t: int|
                    0 <= t < records@.len() ==> (match #[trigger] records@[t] {
                        ManifestRecord::NewMemtable(id) => id < usize::MAX,
                        ManifestRecord::Flush(id) => id < usize::MAX,
                        ManifestRecord::Compaction(..) => true,
                    }),
                spec_replay((Seq::<usize>::empty(), Seq::<usize>::empty(), 0int), rs)
                    == spec_replay(st.view_triple(), rs.skip(i as int)),
            decreases records@.len() - i,
        {
            proof {
                assert(rs.skip(i as int)[0] == rs[i as int]);
                assert(rs.skip(i as int).skip(1) =~= rs.skip(i + 1));
            }
            let ghost pre = st.view_triple();
            match &records[i] {
                ManifestRecord::NewMemtable(id) => {
                    st.memtables.push(*id);
                    if *id + 1 > st.next_id {
                        st.next_id = *id + 1;
                    }
                },
                ManifestRecord::Flush(id) => {
                    st.memtables = remove_id(&st.memtables, *id);
                    st.l0_tables.insert(0, *id);
                    if *id + 1 > st.next_id {
                        st.next_id = *id + 1;
                    }
                },
                ManifestRecord::Compaction(_ins, outs) => {
                    st.l0_tables = clone_ids(outs);
                },
            }
            proof {
                assert(st.view_triple().0 =~= spec_apply_record(pre, records@[i as int]).0);
                assert(st.view_triple().1 =~= spec_apply_record(pre, records@[i as int]).1);
                assert(st.view_triple() == spec_apply_record(pre, records@[i as int]));
            }
            i += 1;
        }
        proof {
            assert(rs.skip(rs.len() as int).len() == 0);
        }
        st
    }
}

/// An owned copy of an id list.
fn clone_ids(v: &Vec<usize>) -> (r: Vec<usize>)
    ensures
        r@ == v@,
{
    let mut out: Vec<usize> = Vec::new();
    let mut i: usize = 0;
    while i < v.len()
        invariant
            0 <= i <= v@.len(),
            out@ == v@.take(i as int),
        decreases v@.len() - i,
    {
        out.push(v[i]);
        proof {
            assert(out@ =~= v@.take(i + 1));
        }
        i += 1;
    }
    proof {
        assert(v@.take(v@.len() as int) =~= v@);
    }
    out
}

} // verus!
