//! Write-ahead log: a stream of length-prefixed, checksummed batches of
//! `(key, timestamp, value)` records.
//!
//! The log here is a byte buffer; reading it from and syncing it to a file
//! is the caller's concern. Appending a batch is the durability point of a
//! write once the caller has flushed the buffer's new bytes.

use vstd::prelude::*;
use crate::encoding::{spec_u16_be, spec_u32_be, spec_u64_be, spec_u16_of, spec_u32_of, spec_u64_of, put_u16_be, put_u32_be, put_u64_be, get_u16_be, get_u32_be, get_u64_be, put_bytes, copy_range, lemma_u16_roundtrip, lemma_u32_roundtrip, lemma_u64_roundtrip};
use crate::hashes::{crc32, crc32_of};
use crate::key::KeyVec;

verus! {

/// One logged record.
pub struct WalEntry {
    pub key: Vec<u8>,
    pub ts: u64,
    pub value: Vec<u8>,
}

impl View for WalEntry {
    type V = (Seq<u8>, u64, Seq<u8>);

    open spec fn view(&self) -> (Seq<u8>, u64, Seq<u8>) {
        (self.key@, self.ts, self.value@)
    }
}

impl Clone for WalEntry {
    fn clone(&self) -> (r: Self)
        ensures
            r@ == self@,
    {
        WalEntry { key: self.key.clone(), ts: self.ts, value: self.value.clone() }
    }
}

/// The view of a vector of records.
pub open spec fn entries_view(v: Seq<WalEntry>) -> Seq<(Seq<u8>, u64, Seq<u8>)> {
    v.map_values(|e: WalEntry| e@)
}

/// Key and value each fit their 16-bit length prefix.
pub open spec fn wal_entry_wf(e: (Seq<u8>, u64, Seq<u8>)) -> bool {
    e.0.len() <= 0xFFFF && e.2.len() <= 0xFFFF
}

/// The encoding of one record: key length, key, timestamp, value length,
/// value.
pub open spec fn spec_entry_enc(e: (Seq<u8>, u64, Seq<u8>)) -> Seq<u8> {
    spec_u16_be(e.0.len() as u16) + e.0 + spec_u64_be(e.1) + spec_u16_be(e.2.len() as u16) + e.2
}

/// The payload of a batch: its records' encodings, concatenated.
pub open spec fn spec_payload(es: Seq<(Seq<u8>, u64, Seq<u8>)>) -> Seq<u8>
    decreases es.len(),
{
    if es.len() == 0 {
        Seq::empty()
    } else {
        spec_entry_enc(es[0]) + spec_payload(es.skip(1))
    }
}

/// A batch is well-formed when each record fits its length prefixes and the
/// payload fits its 32-bit length prefix.
pub open spec fn wal_batch_wf(es: Seq<(Seq<u8>, u64, Seq<u8>)>) -> bool {
    (forall|i: int| 0 <= i < es.len() ==> wal_entry_wf(es[i])) && spec_payload(es).len()
        <= 0xFFFFFFFF
}

/// The encoding of one batch: payload length, payload, payload checksum.
pub open spec fn spec_batch_enc(es: Seq<(Seq<u8>, u64, Seq<u8>)>) -> Seq<u8> {
    spec_u32_be(spec_payload(es).len() as u32) + spec_payload(es) + spec_u32_be(
        crc32_of(spec_payload(es)),
    )
}

/// The encoding of a whole log.
pub open spec fn spec_wal_enc(batches: Seq<Seq<(Seq<u8>, u64, Seq<u8>)>>) -> Seq<u8>
    decreases batches.len(),
{
    if batches.len() == 0 {
        Seq::empty()
    } else {
        spec_batch_enc(batches[0]) + spec_wal_enc(batches.skip(1))
    }
}

/// Length of the first record's encoding in a payload, or -1 when the
/// payload head is malformed.
pub open spec fn spec_head_len(p: Seq<u8>) -> int {
    if p.len() < 2 {
        -1
    } else {
        let klen = spec_u16_of(p[0], p[1]) as int;
        if p.len() < 12 + klen {
            -1
        } else {
            let vlen = spec_u16_of(p[10 + klen], p[11 + klen]) as int;
            if p.len() < 12 + klen + vlen {
                -1
            } else {
                12 + klen + vlen
            }
        }
    }
}

/// The first record of a payload; meaningful when `spec_head_len` accepts.
pub open spec fn spec_head_entry(p: Seq<u8>) -> (Seq<u8>, u64, Seq<u8>) {
    let klen = spec_u16_of(p[0], p[1]) as int;
    let vlen = spec_u16_of(p[10 + klen], p[11 + klen]) as int;
    (
        p.subrange(2, 2 + klen),
        spec_u64_of(p.subrange(2 + klen, 10 + klen)),
        p.subrange(12 + klen, 12 + klen + vlen),
    )
}

/// Does the whole payload parse as a record sequence?
pub open spec fn spec_payload_parses(p: Seq<u8>) -> bool
    decreases p.len(),
{
    if p.len() == 0 {
        true
    } else {
        let hl = spec_head_len(p);
        if hl <= 0 {
            false
        } else {
            spec_payload_parses(p.skip(hl))
        }
    }
}

/// The records of a payload, as far as it parses.
pub open spec fn spec_parse_payload(p: Seq<u8>) -> Seq<(Seq<u8>, u64, Seq<u8>)>
    decreases p.len(),
{
    if p.len() == 0 {
        Seq::empty()
    } else {
        let hl = spec_head_len(p);
        if hl <= 0 {
            Seq::empty()
        } else {
            seq![spec_head_entry(p)] + spec_parse_payload(p.skip(hl))
        }
    }
}

/// Does the byte stream begin with one complete, checksum-valid,
/// parseable batch?
pub open spec fn spec_batch_head_valid(bytes: Seq<u8>) -> bool {
    bytes.len() >= 4 && {
        let size = spec_u32_of(bytes[0], bytes[1], bytes[2], bytes[3]) as int;
        bytes.len() >= 8 + size && {
            let payload = bytes.subrange(4, 4 + size);
            spec_u32_of(bytes[4 + size], bytes[5 + size], bytes[6 + size], bytes[7 + size])
                == crc32_of(payload) && spec_payload_parses(payload)
        }
    }
}

/// The records recovered from a log: every batch of the maximal valid
/// prefix is replayed; the first incomplete, checksum-mismatched or
/// malformed batch and everything after it are discarded.
pub open spec fn spec_wal_recover(bytes: Seq<u8>) -> Seq<(Seq<u8>, u64, Seq<u8>)>
    decreases bytes.len(),
{
    if !spec_batch_head_valid(bytes) {
        Seq::empty()
    } else {
        let size = spec_u32_of(bytes[0], bytes[1], bytes[2], bytes[3]) as int;
        spec_parse_payload(bytes.subrange(4, 4 + size)) + spec_wal_recover(bytes.skip(8 + size))
    }
}

/// Payload encoding distributes over concatenation.
pub proof fn lemma_payload_concat(a: Seq<(Seq<u8>, u64, Seq<u8>)>, b: Seq<(Seq<u8>, u64, Seq<u8>)>)
    ensures
        spec_payload(a + b) == spec_payload(a) + spec_payload(b),
    decreases a.len(),
{
    if a.len() == 0 {
        assert(a + b =~= b);
        assert(spec_payload(a) + spec_payload(b) =~= spec_payload(b));
    } else {
        assert((a + b).skip(1) =~= a.skip(1) + b);
        lemma_payload_concat(a.skip(1), b);
        assert(spec_payload(a + b) =~= spec_payload(a) + spec_payload(b));
    }
}

/// Extending a taken prefix by one record appends that record's encoding;
/// a partial payload never outgrows the whole.
#[verifier::rlimit(100)]
pub proof fn lemma_payload_prefix(es: Seq<(Seq<u8>, u64, Seq<u8>)>, i: int)
    requires
        0 <= i < es.len(),
    ensures
        spec_payload(es.take(i + 1)) == spec_payload(es.take(i)) + spec_entry_enc(es[i]),
        spec_payload(es.take(i + 1)).len() <= spec_payload(es).len(),
{
    assert(spec_payload(es.take(i + 1)) == spec_payload(es.take(i)) + spec_entry_enc(es[i])) by {
        assert(es.take(i + 1) =~= es.take(i) + seq![es[i]]);
        lemma_payload_concat(es.take(i), seq![es[i]]);
        assert(seq![es[i]].skip(1) =~= Seq::<(Seq<u8>, u64, Seq<u8>)>::empty());
        assert(spec_payload(seq![es[i]].skip(1)) == Seq::<u8>::empty());
        assert(spec_entry_enc(es[i]) + Seq::<u8>::empty() =~= spec_entry_enc(es[i]));
    }
    assert(spec_payload(es.take(i + 1)).len() <= spec_payload(es).len()) by {
        assert(es =~= es.take(i + 1) + es.skip(i + 1));
        lemma_payload_concat(es.take(i + 1), es.skip(i + 1));
    }
}

/// All the records of a batch sequence, in order.
pub open spec fn spec_batches_entries(batches: Seq<Seq<(Seq<u8>, u64, Seq<u8>)>>) -> Seq<
    (Seq<u8>, u64, Seq<u8>),
>
    decreases batches.len(),
{
    if batches.len() == 0 {
        Seq::empty()
    } else {
        batches[0] + spec_batches_entries(batches.skip(1))
    }
}

/// A well-formed record's encoding, followed by anything, parses back to
/// that record.
#[verifier::spinoff_prover]
#[verifier::rlimit(100)]
proof fn lemma_entry_enc_head(e: (Seq<u8>, u64, Seq<u8>), rest: Seq<u8>)
    requires
        wal_entry_wf(e),
    ensures
        spec_head_len(spec_entry_enc(e) + rest) == spec_entry_enc(e).len(),
        spec_entry_enc(e).len() == 12 + e.0.len() + e.2.len(),
        spec_head_entry(spec_entry_enc(e) + rest) == e,
        (spec_entry_enc(e) + rest).skip(spec_entry_enc(e).len() as int) == rest,
{
    let q = spec_entry_enc(e) + rest;
    let klen = e.0.len() as int;
    let vlen = e.2.len() as int;
    lemma_u16_roundtrip(e.0.len() as u16);
    lemma_u16_roundtrip(e.2.len() as u16);
    lemma_u64_roundtrip(e.1);
    assert(q.subrange(0, 2) =~= spec_u16_be(e.0.len() as u16));
    assert(spec_u16_of(q[0], q[1]) == klen) by {
        assert(q[0] == q.subrange(0, 2)[0]);
        assert(q[1] == q.subrange(0, 2)[1]);
    }
    assert(q.subrange(10 + klen, 12 + klen) =~= spec_u16_be(e.2.len() as u16));
    assert(spec_u16_of(q[10 + klen], q[11 + klen]) == vlen) by {
        assert(q[10 + klen] == q.subrange(10 + klen, 12 + klen)[0]);
        assert(q[11 + klen] == q.subrange(10 + klen, 12 + klen)[1]);
    }
    assert(q.subrange(2, 2 + klen) =~= e.0);
    assert(q.subrange(2 + klen, 10 + klen) =~= spec_u64_be(e.1));
    assert(q.subrange(12 + klen, 12 + klen + vlen) =~= e.2);
    assert(q.skip(12 + klen + vlen) =~= rest);
}

/// A well-formed batch's payload parses back to exactly its records.
proof fn lemma_parse_payload_roundtrip(es: Seq<(Seq<u8>, u64, Seq<u8>)>)
    requires
        forall|i: int| 0 <= i < es.len() ==> wal_entry_wf(es[i]),
    ensures
        spec_payload_parses(spec_payload(es)),
        spec_parse_payload(spec_payload(es)) == es,
    decreases es.len(),
{
    if es.len() == 0 {
    } else {
        let p = spec_payload(es);
        let e = es[0];
        let rest = spec_payload(es.skip(1));
        lemma_entry_enc_head(e, rest);
        lemma_parse_payload_roundtrip(es.skip(1));
        let hl = spec_entry_enc(e).len() as int;
        assert(p == spec_entry_enc(e) + rest);
        assert(p.len() >= 12) by {
            assert(hl == 12 + e.0.len() + e.2.len());
        }
        assert(spec_head_len(p) == hl);
        assert(p.skip(hl) == rest);
        assert(spec_parse_payload(p) == seq![e] + spec_parse_payload(rest));
        assert(seq![e] + es.skip(1) =~= es);
    }
}

/// One well-formed encoded batch, followed by anything, is recognized and
/// replayed, and leaves exactly the trailing bytes behind.
#[verifier::spinoff_prover]
#[verifier::rlimit(100)]
proof fn lemma_batch_enc_head(es: Seq<(Seq<u8>, u64, Seq<u8>)>, rest: Seq<u8>)
    requires
        wal_batch_wf(es),
    ensures
        spec_batch_head_valid(spec_batch_enc(es) + rest),
        spec_wal_recover(spec_batch_enc(es) + rest) == es + spec_wal_recover(rest),
{
    let p = spec_payload(es);
    let q = spec_batch_enc(es) + rest;
    let size = p.len() as int;
    lemma_u32_roundtrip(p.len() as u32);
    lemma_u32_roundtrip(crc32_of(p));
    assert(q.subrange(0, 4) =~= spec_u32_be(p.len() as u32));
    assert(spec_u32_of(q[0], q[1], q[2], q[3]) == size) by {
        assert(q[0] == q.subrange(0, 4)[0]);
        assert(q[1] == q.subrange(0, 4)[1]);
        assert(q[2] == q.subrange(0, 4)[2]);
        assert(q[3] == q.subrange(0, 4)[3]);
    }
    assert(q.subrange(4, 4 + size) =~= p);
    assert(q.subrange(4 + size, 8 + size) =~= spec_u32_be(crc32_of(p)));
    assert(spec_u32_of(q[4 + size], q[5 + size], q[6 + size], q[7 + size]) == crc32_of(p)) by {
        assert(q[4 + size] == q.subrange(4 + size, 8 + size)[0]);
        assert(q[5 + size] == q.subrange(4 + size, 8 + size)[1]);
        assert(q[6 + size] == q.subrange(4 + size, 8 + size)[2]);
        assert(q[7 + size] == q.subrange(4 + size, 8 + size)[3]);
    }
    lemma_parse_payload_roundtrip(es);
    assert(spec_batch_head_valid(q));
    assert(q.skip(8 + size) =~= rest);
}

/// Recovery after a crash replays exactly the fully written, checksum-valid
/// batches and nothing of the torn tail: a log that holds whole batches
/// followed by any bytes that do not themselves begin with a complete valid
/// batch recovers to exactly those batches' records, in order.
pub proof fn lemma_wal_crash_recovery(batches: Seq<Seq<(Seq<u8>, u64, Seq<u8>)>>, tail: Seq<u8>)
    requires
        forall|i: int| 0 <= i < batches.len() ==> wal_batch_wf(#[trigger] batches[i]),
        !spec_batch_head_valid(tail),
    ensures
        spec_wal_recover(spec_wal_enc(batches) + tail) == spec_batches_entries(batches),
    decreases batches.len(),
{
    if batches.len() == 0 {
        assert(spec_wal_enc(batches) + tail =~= tail);
    } else {
        let b = batches[0];
        let rest_enc = spec_wal_enc(batches.skip(1));
        lemma_wal_crash_recovery(batches.skip(1), tail);
        assert(spec_wal_enc(batches) + tail =~= spec_batch_enc(b) + (rest_enc + tail));
        lemma_batch_enc_head(b, rest_enc + tail);
    }
}

/// A log: the bytes of the append-only stream.
pub struct Wal {
    pub buf: Vec<u8>,
}

impl Wal {
    /// A fresh, empty log.
    pub fn create() -> (r: Wal)
        ensures
            r.buf@ == Seq::<u8>::empty(),
    {
        Wal { buf: Vec::new() }
    }

    /// Append one record as a batch of its own.
    pub fn put(&mut self, key: &KeyVec, value: &Vec<u8>)
        requires
            key@.0.len() <= 0xFFFF,
            value@.len() <= 0xFFFF,
            12 + key@.0.len() + value@.len() <= 0xFFFFFFFF,
        ensures
            final(self).buf@ == old(self).buf@ + spec_batch_enc(
                seq![(key@.0, key@.1, value@)],
            ),
    {
        let entry = WalEntry { key: key.bytes.clone(), ts: key.ts, value: value.clone() };
        let mut batch: Vec<WalEntry> = Vec::new();
        batch.push(entry);
        proof {
            assert(entries_view(batch@) =~= seq![(key@.0, key@.1, value@)]);
            let es = entries_view(batch@);
            assert(spec_payload(es.skip(1)) =~= Seq::<u8>::empty());
            assert(spec_payload(es).len() == spec_entry_enc(es[0]).len());
        }
        self.put_batch(&batch);
    }

    /// Append a batch: length-prefixed payload followed by its checksum.
#[verifier::spinoff_prover]
    #[verifier::rlimit(100)]
    pub fn put_batch(&mut self, data: &Vec<WalEntry>)
        requires
            wal_batch_wf(entries_view(data@)),
        ensures
            final(self).buf@ == old(self).buf@ + spec_batch_enc(entries_view(data@)),
    {
        let ghost es = entries_view(data@);
        let mut payload: Vec<u8> = Vec::new();
        let mut i: usize = 0;
        while i < data.len()
            invariant
                0 <= i <= data@.len(),
                es == entries_view(data@),
                wal_batch_wf(es),
                payload@ == spec_payload(es.take(i as int)),
            decreases data@.len() - i,
        {
            proof {
                lemma_payload_prefix(es, i as int);
                assert(wal_entry_wf(es[i as int]));
            }
            let e = &data[i];
            put_u16_be(&mut payload, e.key.len() as u16);
            put_bytes(&mut payload, e.key.as_slice());
            put_u64_be(&mut payload, e.ts);
            put_u16_be(&mut payload, e.value.len() as u16);
            put_bytes(&mut payload, e.value.as_slice());
            proof {
                assert(payload@ =~= spec_payload(es.take(i + 1)));
            }
            i += 1;
        }
        proof {
            assert(es.take(es.len() as int) =~= es);
        }
        let checksum = crc32(payload.as_slice());
        put_u32_be(&mut self.buf, payload.len() as u32);
        put_bytes(&mut self.buf, payload.as_slice());
        put_u32_be(&mut self.buf, checksum);
        proof {
            assert(self.buf@ =~= old(self).buf@ + spec_batch_enc(es));
        }
    }

    /// Rebuild a log from its bytes, replaying every batch of the maximal
    /// valid prefix and discarding the corrupt tail.
#[verifier::spinoff_prover]
    #[verifier::rlimit(100)]
    pub fn recover(bytes: &[u8]) -> (r: (Wal, Vec<WalEntry>))
        ensures
            r.0.buf@ == bytes@,
            entries_view(r.1@) == spec_wal_recover(bytes@),
    {
        let n = bytes.len();
        let mut pos: usize = 0;
        let mut out: Vec<WalEntry> = Vec::new();
        proof {
            assert(bytes@.skip(0) =~= bytes@);
            assert(entries_view(out@) =~= Seq::<(Seq<u8>, u64, Seq<u8>)>::empty());
            assert(entries_view(out@) + spec_wal_recover(bytes@) =~= spec_wal_recover(bytes@));
        }
        loop
            invariant
                0 <= pos <= n,
                n == bytes@.len(),
                spec_wal_recover(bytes@) == entries_view(out@) + spec_wal_recover(
                    bytes@.skip(pos as int),
                ),
            ensures
                entries_view(out@) == spec_wal_recover(bytes@),
            decreases n - pos,
        {
            let ghost rest = bytes@.skip(pos as int);
            if n - pos < 8 {
                proof {
                    assert(!spec_batch_head_valid(rest));
                    assert(entries_view(out@) + spec_wal_recover(rest) =~= entries_view(out@));
                }
                break;
            }
            let size = get_u32_be(bytes, pos) as usize;
            proof {
                assert(rest[0] == bytes@[pos as int]);
                assert(rest[1] == bytes@[pos + 1]);
                assert(rest[2] == bytes@[pos + 2]);
                assert(rest[3] == bytes@[pos + 3]);
            }
            if size > n - pos - 8 {
                proof {
                    assert(!spec_batch_head_valid(rest));
                    assert(entries_view(out@) + spec_wal_recover(rest) =~= entries_view(out@));
                }
                break;
            }
            let payload = copy_range(bytes, pos + 4, size);
            proof {
                assert(payload@ =~= rest.subrange(4, 4 + size as int));
            }
            let stored = get_u32_be(bytes, pos + 4 + size);
            proof {
                assert(rest[4 + size as int] == bytes@[pos + 4 + size as int]);
                assert(rest[5 + size as int] == bytes@[pos + 4 + size + 1]);
                assert(rest[6 + size as int] == bytes@[pos + 4 + size + 2]);
                assert(rest[7 + size as int] == bytes@[pos + 4 + size + 3]);
            }
            let actual = crc32(payload.as_slice());
            if stored != actual {
                proof {
                    assert(!spec_batch_head_valid(rest));
                    assert(entries_view(out@) + spec_wal_recover(rest) =~= entries_view(out@));
                }
                break;
            }
            let parsed = parse_payload(&payload);
            match parsed {
                Option::None => {
                    proof {
                        assert(!spec_batch_head_valid(rest));
                        assert(entries_view(out@) + spec_wal_recover(rest) =~= entries_view(
                            out@,
                        ));
                    }
                    break;
                },
                Option::Some(mut es) => {
                    proof {
                        assert(spec_batch_head_valid(rest));
                        assert(rest.skip(8 + size as int) =~= bytes@.skip(
                            pos + 8 + size as int,
                        ));
                        assert(entries_view(out@ + es@) =~= entries_view(out@) + entries_view(
                            es@,
                        ));
                    }
                    out.append(&mut es);
                    pos = pos + 8 + size;
                },
            }
        }
        let wal = Wal { buf: copy_range(bytes, 0, n) };
        proof {
            assert(bytes@.subrange(0, n as int) =~= bytes@);
        }
        (wal, out)
    }
}

/// Parse a batch payload into its records; `None` when it is malformed.
#[verifier::spinoff_prover]
#[verifier::rlimit(100)]
fn parse_payload(p: &Vec<u8>) -> (r: Option<Vec<WalEntry>>)
    ensures
        r is Some <==> spec_payload_parses(p@),
        r matches Some(es) ==> entries_view(es@) == spec_parse_payload(p@),
{
    let n = p.len();
    let mut pos: usize = 0;
    let mut out: Vec<WalEntry> = Vec::new();
    proof {
        assert(p@.skip(0) =~= p@);
        assert(entries_view(out@) =~= Seq::<(Seq<u8>, u64, Seq<u8>)>::empty());
        assert(entries_view(out@) + spec_parse_payload(p@) =~= spec_parse_payload(p@));
    }
    loop
        invariant
            0 <= pos <= n,
            n == p@.len(),
            spec_payload_parses(p@) <==> spec_payload_parses(p@.skip(pos as int)),
            spec_parse_payload(p@) == entries_view(out@) + spec_parse_payload(
                p@.skip(pos as int),
            ),
        decreases n - pos,
    {
        let ghost rest = p@.skip(pos as int);
        if pos == n {
            proof {
                assert(spec_payload_parses(rest));
                assert(entries_view(out@) + spec_parse_payload(rest) =~= entries_view(out@));
            }
            return Some(out);
        }
        if n - pos < 12 {
            proof {
                if rest.len() >= 2 {
                    assert(rest[0] == p@[pos as int]);
                    assert(rest[1] == p@[pos + 1]);
                }
                assert(spec_head_len(rest) <= 0);
                assert(!spec_payload_parses(rest));
            }
            return None;
        }
        let klen = get_u16_be(p.as_slice(), pos) as usize;
        proof {
            assert(rest[0] == p@[pos as int]);
            assert(rest[1] == p@[pos + 1]);
        }
        if klen > n - pos - 12 {
            proof {
                assert(rest.len() < 12 + spec_u16_of(rest[0], rest[1]));
                assert(spec_head_len(rest) <= 0);
                assert(!spec_payload_parses(rest));
            }
            return None;
        }
        let vlen = get_u16_be(p.as_slice(), pos + 10 + klen) as usize;
        proof {
            assert(rest[10 + klen as int] == p@[pos + 10 + klen as int]);
            assert(rest[11 + klen as int] == p@[pos + 10 + klen + 1]);
        }
        if vlen > n - pos - 12 - klen {
            proof {
                assert(spec_head_len(rest) <= 0);
                assert(!spec_payload_parses(rest));
            }
            return None;
        }
        let key = copy_range(p.as_slice(), pos + 2, klen);
        let ts = get_u64_be(p.as_slice(), pos + 2 + klen);
        let value = copy_range(p.as_slice(), pos + 12 + klen, vlen);
        let ghost hl = 12 + klen as int + vlen as int;
        proof {
            assert(spec_head_len(rest) == hl);
            assert(key@ =~= rest.subrange(2, 2 + klen as int));
            assert(p@.subrange(pos + 2 + klen, pos + 10 + klen as int) =~= rest.subrange(
                2 + klen as int,
                10 + klen as int,
            ));
            assert(value@ =~= rest.subrange(12 + klen as int, hl));
            assert(spec_head_entry(rest) == (key@, ts, value@));
            assert(rest.skip(hl) =~= p@.skip(pos + hl));
            assert(spec_parse_payload(rest) =~= seq![spec_head_entry(rest)]
                + spec_parse_payload(rest.skip(hl)));
        }
        let e = WalEntry { key, ts, value };
        out.push(e);
        proof {
            assert(entries_view(out@) =~= entries_view(out@.drop_last()) + seq![out@.last()@]);
            assert(entries_view(out@.drop_last()) + seq![out@.last()@] + spec_parse_payload(
                p@.skip(pos + hl),
            ) =~= entries_view(out@.drop_last()) + (seq![out@.last()@] + spec_parse_payload(
                p@.skip(pos + hl),
            )));
        }
        pos = pos + 12 + klen + vlen;
    }
}

} // verus!
