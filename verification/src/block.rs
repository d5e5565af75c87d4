//! Blocks: fixed-budget, prefix-compressed sorted runs of records.
//!
//! A block's encoding is, per record, `(overlap, suffix_len, suffix,
//! timestamp, value_len, value)` — the suffix front-coded against the
//! block's first key — followed by a `u16` offset per record and the
//! record count.

use vstd::prelude::*;
use crate::encoding::{
    spec_u16_be,
    spec_u64_be,
    spec_u16_of,
    spec_u64_of,
    put_u16_be,
    put_u64_be,
    get_u16_be,
    get_u64_be,
    put_bytes,
    copy_range,
    lemma_u16_roundtrip,
    lemma_u64_roundtrip,
};
use crate::key::{KeyVec, Entry, entry_key, entry_seq_view, entries_sorted, key_lt};

verus! {

/// Length of the longest common prefix of two byte strings.
pub open spec fn spec_overlap(a: Seq<u8>, b: Seq<u8>) -> int
    decreases a.len(),
{
    if a.len() == 0 || b.len() == 0 || a[0] != b[0] {
        0
    } else {
        1 + spec_overlap(a.skip(1), b.skip(1))
    }
}

/// The common prefix is a prefix of both strings.
pub proof fn lemma_overlap(a: Seq<u8>, b: Seq<u8>)
    ensures
        0 <= spec_overlap(a, b) <= a.len(),
        spec_overlap(a, b) <= b.len(),
        forall|j: int| 0 <= j < spec_overlap(a, b) ==> a[j] == b[j],
    decreases a.len(),
{
    if a.len() != 0 && b.len() != 0 && a[0] == b[0] {
        lemma_overlap(a.skip(1), b.skip(1));
        assert forall|j: int| 0 <= j < spec_overlap(a, b) implies a[j] == b[j] by {
            if j > 0 {
                assert(a.skip(1)[j - 1] == b.skip(1)[j - 1]);
            }
        }
    }
}

/// The encoding of record number `idx`, front-coded against the block's
/// first key (the first record stores its key whole).
pub open spec fn spec_block_entry_enc(first: Seq<u8>, e: (Seq<u8>, u64, Seq<u8>), idx: int) -> Seq<
    u8,
> {
    let ov = if idx == 0 {
        0
    } else {
        spec_overlap(first, e.0)
    };
    spec_u16_be(ov as u16) + spec_u16_be((e.0.len() - ov) as u16) + e.0.skip(ov) + spec_u64_be(e.1)
        + spec_u16_be(e.2.len() as u16) + e.2
}

/// The record area of a block: the records' encodings, concatenated,
/// numbering them from `idx`.
pub open spec fn spec_block_body(first: Seq<u8>, es: Seq<(Seq<u8>, u64, Seq<u8>)>, idx: int) -> Seq<
    u8,
>
    decreases es.len(),
{
    if es.len() == 0 {
        Seq::empty()
    } else {
        spec_block_entry_enc(first, es[0], idx) + spec_block_body(first, es.skip(1), idx + 1)
    }
}

/// The offset array of a block, from record `i` on: each record's starting
/// position in the record area, as a `u16`.
pub open spec fn spec_offsets_bytes(es: Seq<(Seq<u8>, u64, Seq<u8>)>, i: int) -> Seq<u8>
    decreases es.len() - i,
{
    if i < 0 || i >= es.len() {
        Seq::empty()
    } else {
        spec_u16_be(spec_entry_pos(es, i) as u16) + spec_offsets_bytes(es, i + 1)
    }
}

/// Where record `i` starts in the record area.
pub open spec fn spec_entry_pos(es: Seq<(Seq<u8>, u64, Seq<u8>)>, i: int) -> int
    decreases i,
{
    if i <= 0 {
        0
    } else {
        spec_entry_pos(es, i - 1) + spec_block_entry_enc(es[0].0, es[i - 1], i - 1).len()
    }
}

/// A block's records are well-formed: at least one, strictly sorted,
/// non-empty keys, lengths and offsets within the 16-bit fields.
pub open spec fn block_wf(es: Seq<(Seq<u8>, u64, Seq<u8>)>) -> bool {
    &&& 1 <= es.len() <= 0xFFFF
    &&& entries_sorted(es)
    &&& forall|i: int|
        0 <= i < es.len() ==> 1 <= (#[trigger] es[i]).0.len() <= 0xFFFF && es[i].2.len() <= 0xFFFF
    &&& forall|i: int| 0 <= i < es.len() ==> spec_entry_pos(es, i) <= 0xFFFF
}

/// The full encoding of a block.
pub open spec fn spec_block_enc(es: Seq<(Seq<u8>, u64, Seq<u8>)>) -> Seq<u8> {
    spec_block_body(es[0].0, es, 0) + spec_offsets_bytes(es, 0) + spec_u16_be(es.len() as u16)
}

/// The record area distributes over splitting the record sequence.
proof fn lemma_body_split(
    first: Seq<u8>,
    es: Seq<(Seq<u8>, u64, Seq<u8>)>,
    idx: int,
    i: int,
)
    requires
        0 <= i <= es.len(),
    ensures
        spec_block_body(first, es, idx) == spec_block_body(first, es.take(i), idx)
            + spec_block_body(first, es.skip(i), idx + i),
    decreases i,
{
    if i == 0 {
        assert(es.take(0) =~= Seq::<(Seq<u8>, u64, Seq<u8>)>::empty());
        assert(es.skip(0) =~= es);
        assert(spec_block_body(first, es.take(0), idx) =~= Seq::<u8>::empty());
        assert(spec_block_body(first, es, idx) =~= spec_block_body(first, es.take(0), idx)
            + spec_block_body(first, es.skip(0), idx));
    } else {
        lemma_body_split(first, es.skip(1), idx + 1, i - 1);
        assert(es.skip(1).take(i - 1) =~= es.take(i).skip(1));
        assert(es.skip(1).skip(i - 1) =~= es.skip(i));
        assert(es.take(i)[0] == es[0]);
        assert(spec_block_body(first, es.take(i), idx) == spec_block_entry_enc(first, es[0], idx)
            + spec_block_body(first, es.take(i).skip(1), idx + 1));
        assert(spec_block_body(first, es, idx) =~= spec_block_body(first, es.take(i), idx)
            + spec_block_body(first, es.skip(i), idx + i));
    }
}

/// Appending a record extends the record area by that record's encoding.
#[verifier::rlimit(100)]
proof fn lemma_body_snoc(first: Seq<u8>, es: Seq<(Seq<u8>, u64, Seq<u8>)>, e: (Seq<u8>, u64, Seq<u8>))
    ensures
        spec_block_body(first, es.push(e), 0) == spec_block_body(first, es, 0)
            + spec_block_entry_enc(first, e, es.len() as int),
{
    lemma_body_split(first, es.push(e), 0, es.len() as int);
    assert(es.push(e).take(es.len() as int) =~= es);
    assert(es.push(e).skip(es.len() as int) =~= seq![e]);
    let single = seq![e];
    assert(single.skip(1) =~= Seq::<(Seq<u8>, u64, Seq<u8>)>::empty());
    assert(spec_block_body(first, single, es.len() as int) == spec_block_entry_enc(
        first,
        e,
        es.len() as int,
    )) by {
        assert(spec_block_body(first, single.skip(1), es.len() as int + 1) == Seq::<u8>::empty());
        assert(spec_block_entry_enc(first, e, es.len() as int) + Seq::<u8>::empty()
            =~= spec_block_entry_enc(first, e, es.len() as int));
    }
}

/// Builds one block under a byte budget.
pub struct BlockBuilder {
    pub entries: Vec<Entry>,
    pub body_len: usize,
    pub block_size: usize,
    pub first_key: KeyVec,
}

impl BlockBuilder {
    /// The records added so far.
    pub open spec fn view_entries(&self) -> Seq<(Seq<u8>, u64, Seq<u8>)> {
        entry_seq_view(self.entries@)
    }

    #[verifier::opaque]
    pub open spec fn wf(&self) -> bool {
        let es = self.view_entries();
        &&& self.block_size <= 0xFFFD
        &&& if es.len() == 0 {
            self.body_len == 0 && self.first_key@.0.len() == 0
        } else {
            &&& self.first_key@ == entry_key(es[0])
            &&& self.body_len == spec_block_body(es[0].0, es, 0).len()
            &&& es.len() <= 0xFFFF
            &&& entries_sorted(es)
            &&& forall|i: int|
                0 <= i < es.len() ==> 1 <= (#[trigger] es[i]).0.len() <= 0xFFFF && es[i].2.len()
                    <= 0xFFFF
            &&& (es.len() >= 2 ==> 2 + 2 * es.len() + self.body_len <= self.block_size + 2)
        }
    }

    /// An empty builder for a block of at most `block_size` bytes.
    pub fn new(block_size: usize) -> (r: BlockBuilder)
        requires
            block_size <= 0xFFFD,
        ensures
            r.wf(),
            r.view_entries().len() == 0,
            r.block_size == block_size,
    {
        let r = BlockBuilder {
            entries: Vec::new(),
            body_len: 0,
            block_size,
            first_key: KeyVec::new(),
        };
        proof {
            reveal(BlockBuilder::wf);
            assert(entry_seq_view(r.entries@) =~= Seq::<(Seq<u8>, u64, Seq<u8>)>::empty());
        }
        r
    }

    /// The encoded size of the block were it finished now.
    pub fn estimated_size(&self) -> (r: usize)
        requires
            self.wf(),
        ensures
            r == 2 + 2 * self.view_entries().len() + self.body_len,
    {
        proof {
            reveal(BlockBuilder::wf);
            let es = self.view_entries();
            if es.len() == 1 {
                assert(es.skip(1).len() == 0);
                assert(spec_block_body(es[0].0, es, 0) == spec_block_entry_enc(es[0].0, es[0], 0)
                    + spec_block_body(es[0].0, es.skip(1), 1));
            }
        }
        2 + 2 * self.entries.len() + self.body_len
    }

    pub fn is_empty(&self) -> (r: bool)
        ensures
            r == (self.view_entries().len() == 0),
    {
        self.entries.len() == 0
    }

    /// Append a record when it fits the byte budget; a record always fits
    /// an empty block. Returns whether it was taken. The key must sort
    /// strictly above everything already in the block.
#[verifier::spinoff_prover]
    #[verifier::rlimit(100)]
    pub fn add(&mut self, key: &KeyVec, value: &Vec<u8>) -> (r: bool)
        requires
            old(self).wf(),
            1 <= key@.0.len() <= 0xFFFF,
            value@.len() <= 0xFFFF,
            old(self).view_entries().len() > 0 ==> key_lt(
                entry_key(old(self).view_entries().last()),
                key@,
            ),
            old(self).view_entries().len() < 0xFFFF,
        ensures
            final(self).wf(),
            final(self).block_size == old(self).block_size,
            r == (old(self).view_entries().len() == 0 || 2 + 2 * old(self).view_entries().len()
                + old(self).body_len + key@.0.len() + 8 + value@.len() + 6
                <= old(self).block_size),
            r ==> final(self).view_entries() == old(self).view_entries().push(
                (key@.0, key@.1, value@),
            ),
            !r ==> *final(self) == *old(self),
    {
        proof {
            reveal(BlockBuilder::wf);
        }
        let n = self.entries.len();
        if n > 0 {
            let est = self.estimated_size();
            if est > self.block_size || est + key.key_len() + 8 + value.len() + 6
                > self.block_size {
                return false;
            }
        }
        let ghost old_es = self.view_entries();
        let ghost e = (key@.0, key@.1, value@);
        let overlap = if n == 0 {
            0
        } else {
            compute_overlap(&self.first_key, key)
        };
        proof {
            lemma_overlap(self.first_key@.0, key@.0);
        }
        let enc_len: usize = 14 + (key.key_len() - overlap) + value.len();
        let entry = Entry { key: key.clone(), value: value.clone() };
        self.entries.push(entry);
        self.body_len = self.body_len + enc_len;
        if n == 0 {
            self.first_key = key.clone();
        }
        proof {
            let es = self.view_entries();
            assert(es =~= old_es.push(e));
            let first = es[0].0;
            lemma_body_snoc(first, old_es, e);
            if n == 0 {
                assert(old_es =~= Seq::<(Seq<u8>, u64, Seq<u8>)>::empty());
                assert(spec_block_body(first, old_es, 0) =~= Seq::<u8>::empty());
            }
            assert(spec_block_entry_enc(first, e, old_es.len() as int).len() == enc_len) by {
                assert(first == es[0].0);
                assert(e.0.skip(overlap as int).len() == e.0.len() - overlap);
            }
            lemma_sorted_push(old_es, e);
        }
        true
    }

    /// Finish the block. The block must hold at least one record: a caller
    /// never finalizes an empty builder.
    pub fn build(self) -> (r: Block)
        requires
            self.wf(),
            self.view_entries().len() > 0,
        ensures
            r@ == self.view_entries(),
            block_wf(r@),
    {
        proof {
            reveal(BlockBuilder::wf);
            let es = self.view_entries();
            assert forall|i: int| 0 <= i < es.len() implies spec_entry_pos(es, i) <= 0xFFFF by {
                lemma_entry_pos_body(es, i);
                lemma_body_split(es[0].0, es, 0, i);
                if es.len() >= 2 {
                    assert(spec_entry_pos(es, i) <= spec_block_body(es[0].0, es, 0).len());
                } else {
                    assert(i == 0);
                }
            }
        }
        Block { entries: self.entries }
    }
}

/// Pushing a record that sorts above everything keeps the run sorted.
proof fn lemma_sorted_push(es: Seq<(Seq<u8>, u64, Seq<u8>)>, e: (Seq<u8>, u64, Seq<u8>))
    requires
        entries_sorted(es),
        es.len() > 0 ==> key_lt(entry_key(es.last()), entry_key(e)),
    ensures
        entries_sorted(es.push(e)),
{
    let es2 = es.push(e);
    assert forall|i: int, j: int|
        0 <= i < j < es2.len() implies key_lt(entry_key(#[trigger] es2[i]), entry_key(
        #[trigger] es2[j],
    )) by {
        if j == es2.len() - 1 {
            if i < es.len() - 1 {
                crate::key::lemma_key_lt_trans(
                    entry_key(es[i]),
                    entry_key(es.last()),
                    entry_key(e),
                );
            }
        }
    }
}

/// A record's position equals the length of the record area of everything
/// before it.
#[verifier::rlimit(100)]
proof fn lemma_entry_pos_body(es: Seq<(Seq<u8>, u64, Seq<u8>)>, i: int)
    requires
        0 <= i <= es.len(),
        es.len() > 0,
    ensures
        spec_entry_pos(es, i) == spec_block_body(es[0].0, es.take(i), 0).len(),
        spec_entry_pos(es, i) >= 0,
    decreases i,
{
    if i == 0 {
        assert(spec_block_body(es[0].0, es.take(0), 0) =~= Seq::<u8>::empty());
    } else {
        lemma_entry_pos_body(es, i - 1);
        lemma_body_split(es[0].0, es.take(i), 0, i - 1);
        assert(es.take(i).take(i - 1) =~= es.take(i - 1));
        assert(es.take(i).skip(i - 1) =~= seq![es[i - 1]]);
        let single = seq![es[i - 1]];
        assert(single.skip(1) =~= Seq::<(Seq<u8>, u64, Seq<u8>)>::empty());
        assert(spec_block_body(es[0].0, single, i - 1) == spec_block_entry_enc(
            es[0].0,
            es[i - 1],
            i - 1,
        )) by {
            assert(spec_block_body(es[0].0, single.skip(1), i) == Seq::<u8>::empty());
            assert(spec_block_entry_enc(es[0].0, es[i - 1], i - 1) + Seq::<u8>::empty()
                =~= spec_block_entry_enc(es[0].0, es[i - 1], i - 1));
        }
        assert(es.take(i)[0] == es[0]);
    }
}

/// Compute the longest common prefix of two keys' raw bytes.
pub fn compute_overlap(first_key: &KeyVec, key: &KeyVec) -> (r: usize)
    ensures
        r == spec_overlap(first_key@.0, key@.0),
{
    let a = &first_key.bytes;
    let b = &key.bytes;
    let mut i: usize = 0;
    proof {
        assert(a@.skip(0) =~= a@);
        assert(b@.skip(0) =~= b@);
    }
    loop
        invariant
            0 <= i <= a@.len(),
            i <= b@.len(),
            spec_overlap(a@, b@) == i + spec_overlap(a@.skip(i as int), b@.skip(i as int)),
        ensures
            i == spec_overlap(a@, b@),
        decreases a@.len() - i,
    {
        proof {
            assert(a@.skip(0) =~= a@);
        }
        if i >= a.len() || i >= b.len() {
            proof {
                assert(spec_overlap(a@.skip(i as int), b@.skip(i as int)) == 0);
            }
            break;
        }
        if a[i] != b[i] {
            proof {
                assert(a@.skip(i as int)[0] == a@[i as int]);
                assert(b@.skip(i as int)[0] == b@[i as int]);
                assert(spec_overlap(a@.skip(i as int), b@.skip(i as int)) == 0);
            }
            break;
        }
        proof {
            assert(a@.skip(i as int)[0] == a@[i as int]);
            assert(b@.skip(i as int)[0] == b@[i as int]);
            assert(a@.skip(i as int).skip(1) =~= a@.skip(i + 1));
            assert(b@.skip(i as int).skip(1) =~= b@.skip(i + 1));
            assert(spec_overlap(a@.skip(i as int), b@.skip(i as int)) == 1 + spec_overlap(
                a@.skip(i + 1),
                b@.skip(i + 1),
            ));
        }
        i += 1;
    }
    i
}

/// A finished block: a sorted run of records, decoded.
pub struct Block {
    pub entries: Vec<Entry>,
}

impl View for Block {
    type V = Seq<(Seq<u8>, u64, Seq<u8>)>;

    open spec fn view(&self) -> Seq<(Seq<u8>, u64, Seq<u8>)> {
        entry_seq_view(self.entries@)
    }
}

/// What decoding a block's bytes yields, record by record: positions run
/// from `pos` to `end`, records `i` to `count`, front-coded against
/// `first` (learned from the first record).
pub open spec fn spec_dec_entries(
    bytes: Seq<u8>,
    pos: int,
    end: int,
    i: int,
    count: int,
    first: Seq<u8>,
) -> Option<Seq<(Seq<u8>, u64, Seq<u8>)>>
    decreases count - i,
{
    if i >= count {
        if pos == end {
            Some(Seq::empty())
        } else {
            None
        }
    } else if pos < 0 || pos + 4 > end || end > bytes.len() {
        None
    } else {
        let ov = spec_u16_of(bytes[pos], bytes[pos + 1]) as int;
        let slen = spec_u16_of(bytes[pos + 2], bytes[pos + 3]) as int;
        if (i == 0 && ov != 0) || ov > first.len() {
            None
        } else if pos + 14 + slen > end {
            None
        } else {
            let suffix = bytes.subrange(pos + 4, pos + 4 + slen);
            let ts = spec_u64_of(bytes.subrange(pos + 4 + slen, pos + 12 + slen));
            let vlen = spec_u16_of(bytes[pos + 12 + slen], bytes[pos + 13 + slen]) as int;
            if pos + 14 + slen + vlen > end {
                None
            } else {
                let k = first.take(ov) + suffix;
                let v = bytes.subrange(pos + 14 + slen, pos + 14 + slen + vlen);
                let f2 = if i == 0 {
                    k
                } else {
                    first
                };
                match spec_dec_entries(bytes, pos + 14 + slen + vlen, end, i + 1, count, f2) {
                    Some(rest) => Some(seq![(k, ts, v)] + rest),
                    None => None,
                }
            }
        }
    }
}

/// What decoding a block's bytes yields.
pub open spec fn spec_block_decode(bytes: Seq<u8>) -> Option<Seq<(Seq<u8>, u64, Seq<u8>)>> {
    if bytes.len() < 2 {
        None
    } else {
        let count = spec_u16_of(bytes[bytes.len() - 2], bytes[bytes.len() - 1]) as int;
        if count == 0 || bytes.len() < 2 + 2 * count {
            None
        } else {
            spec_dec_entries(bytes, 0, bytes.len() - 2 - 2 * count, 0, count, Seq::empty())
        }
    }
}

impl Block {
    /// Encode the block: record area, offset array, record count.
    #[verifier::spinoff_prover]
    #[verifier::rlimit(100)]
    pub fn encode(&self) -> (r: Vec<u8>)
        requires
            block_wf(self@),
        ensures
            r@ == spec_block_enc(self@),
    {
        let ghost es = self@;
        let ghost first: Seq<u8> = es[0].0;
        let n = self.entries.len();
        let first_key = self.entries[0].key.clone();
        let mut buf: Vec<u8> = Vec::new();
        let mut i: usize = 0;
        proof {
            assert(es.skip(0) =~= es);
        }
        while i < n
            invariant
                0 <= i <= n,
                n == es.len(),
                es == self@,
                first == es[0].0,
                first_key@.0 == first,
                block_wf(es),
                buf@.len() == spec_entry_pos(es, i as int),
                buf@ + spec_block_body(first, es.skip(i as int), i as int) == spec_block_body(
                    first,
                    es,
                    0,
                ),
            decreases n - i,
        {
            let e = &self.entries[i];
            let ov: usize = if i == 0 {
                0
            } else {
                compute_overlap(&first_key, &e.key)
            };
            proof {
                lemma_overlap(first, e.key@.0);
            }
            let slen = e.key.key_len() - ov;
            let ghost prev = buf@;
            put_u16_be(&mut buf, ov as u16);
            put_u16_be(&mut buf, slen as u16);
            put_bytes(&mut buf, vstd::slice::slice_subrange(e.key.bytes.as_slice(), ov, e.key.bytes.len()));
            put_u64_be(&mut buf, e.key.ts());
            put_u16_be(&mut buf, e.value.len() as u16);
            put_bytes(&mut buf, e.value.as_slice());
            proof {
                let ev = es[i as int];
                assert(buf@ =~= prev + spec_block_entry_enc(first, ev, i as int));
                assert(es.skip(i as int)[0] == ev);
                assert(es.skip(i as int).skip(1) =~= es.skip(i + 1));
                assert(spec_block_body(first, es.skip(i as int), i as int)
                    == spec_block_entry_enc(first, ev, i as int) + spec_block_body(
                    first,
                    es.skip(i + 1),
                    i + 1,
                ));
                assert(buf@ + spec_block_body(first, es.skip(i + 1), i + 1) =~= spec_block_body(
                    first,
                    es,
                    0,
                ));
                assert(buf@.len() == spec_entry_pos(es, i + 1));
            }
            i += 1;
        }
        proof {
            assert(es.skip(n as int).len() == 0);
            assert(spec_block_body(first, es.skip(n as int), n as int) =~= Seq::<u8>::empty());
            assert(buf@ =~= spec_block_body(first, es, 0));
        }
        let ghost body = buf@;
        let mut j: usize = 0;
        // The offset of each record, then the record count.
        while j < n
            invariant
                0 <= j <= n,
                n == es.len(),
                es == self@,
                block_wf(es),
                buf@ + spec_offsets_bytes(es, j as int) == body + spec_offsets_bytes(es, 0),
            decreases n - j,
        {
            proof {
                lemma_entry_pos_body(es, j as int);
                lemma_body_split(es[0].0, es, 0, j as int);
            }
            let off = buf.len() - (buf.len() - 0);
            let pos16 = compute_entry_pos(self, j);
            put_u16_be(&mut buf, pos16);
            proof {
                assert(spec_offsets_bytes(es, j as int) == spec_u16_be(
                    spec_entry_pos(es, j as int) as u16,
                ) + spec_offsets_bytes(es, j + 1));
                assert(buf@ + spec_offsets_bytes(es, j + 1) =~= body + spec_offsets_bytes(
                    es,
                    0,
                ));
            }
            j += 1;
        }
        proof {
            assert(spec_offsets_bytes(es, n as int) =~= Seq::<u8>::empty());
            assert(buf@ =~= body + spec_offsets_bytes(es, 0));
        }
        put_u16_be(&mut buf, n as u16);
        proof {
            assert(buf@ =~= spec_block_enc(es));
        }
        buf
    }

    /// Decode a block from its bytes; `None` when they are not a block.
    #[verifier::spinoff_prover]
    #[verifier::rlimit(100)]
    pub fn decode(bytes: &[u8]) -> (r: Option<Block>)
        ensures
            r is Some <==> spec_block_decode(bytes@) is Some,
            r matches Some(b) ==> Some(b@) == spec_block_decode(bytes@),
    {
        let n = bytes.len();
        if n < 2 {
            return None;
        }
        let count = get_u16_be(bytes, n - 2) as usize;
        if count == 0 || n < 2 + 2 * count {
            return None;
        }
        let end = n - 2 - 2 * count;
        let ghost gend = end as int;
        let ghost gcount = count as int;
        let mut out: Vec<Entry> = Vec::new();
        let mut first_key: Vec<u8> = Vec::new();
        let mut pos: usize = 0;
        let mut i: usize = 0;
        loop
            invariant
                0 <= i <= count,
                0 <= pos <= end <= n,
                n == bytes@.len(),
                gend == end,
                gcount == count,
                gcount == spec_u16_of(bytes@[n as int - 2], bytes@[n as int - 1]) as int,
                1 <= gcount,
                n >= 2 + 2 * gcount,
                gend == n - 2 - 2 * gcount,
                spec_dec_entries(bytes@, 0, gend, 0, gcount, Seq::empty()) == (
                match spec_dec_entries(
                    bytes@,
                    pos as int,
                    gend,
                    i as int,
                    gcount,
                    if i == 0 {
                        Seq::<u8>::empty()
                    } else {
                        first_key@
                    },
                ) {
                    Some(rest) => Some(entry_seq_view(out@) + rest),
                    None => None,
                }),
            decreases count - i,
        {
            let ghost gfirst: Seq<u8> = if i == 0 {
                Seq::<u8>::empty()
            } else {
                first_key@
            };
            if i == count {
                if pos == end {
                    proof {
                        assert(entry_seq_view(out@) + Seq::<(Seq<u8>, u64, Seq<u8>)>::empty()
                            =~= entry_seq_view(out@));
                    }
                    return Some(Block { entries: out });
                }
                return None;
            }
            if end - pos < 4 {
                return None;
            }
            let ov = get_u16_be(bytes, pos) as usize;
            let slen = get_u16_be(bytes, pos + 2) as usize;
            if (i == 0 && ov != 0) || ov > first_key.len() {
                return None;
            }
            if end - pos < 14 {
                return None;
            }
            if slen > end - pos - 14 {
                return None;
            }
            let suffix = copy_range(bytes, pos + 4, slen);
            let ts = get_u64_be(bytes, pos + 4 + slen);
            let vlen = get_u16_be(bytes, pos + 12 + slen) as usize;
            if vlen > end - pos - 14 - slen {
                return None;
            }
            let value = copy_range(bytes, pos + 14 + slen, vlen);
            let mut key_bytes = copy_range(first_key.as_slice(), 0, ov);
            let mut suffix2 = suffix;
            key_bytes.append(&mut suffix2);
            proof {
                assert(bytes@.subrange(pos + 4 + slen as int, pos + 12 + slen as int)
                    =~= bytes@.subrange(pos as int, gend).subrange(
                    4 + slen as int,
                    12 + slen as int,
                ));
            }
            let ghost k = gfirst.take(ov as int) + bytes@.subrange(pos + 4, pos + 4 + slen as int);
            proof {
                assert(first_key@.subrange(0, ov as int) =~= gfirst.take(ov as int));
                assert(key_bytes@ =~= k);
            }
            let e = Entry {
                key: KeyVec::from_vec_with_ts(key_bytes, ts),
                value,
            };
            if i == 0 {
                first_key = copy_range(e.key.bytes.as_slice(), 0, e.key.bytes.len());
            }
            proof {
                let ghost f2: Seq<u8> = if i == 0 {
                    k
                } else {
                    gfirst
                };
                assert(first_key@ == f2);
                assert(spec_dec_entries(bytes@, pos as int, gend, i as int, gcount, gfirst)
                    == (match spec_dec_entries(
                    bytes@,
                    pos + 14 + slen + vlen,
                    gend,
                    i as int + 1,
                    gcount,
                    f2,
                ) {
                    Some(rest) => Some(seq![(k, ts, bytes@.subrange(
                        pos + 14 + slen as int,
                        pos + 14 + slen + vlen as int,
                    ))] + rest),
                    None => None,
                }));
                assert(e@ == (k, ts, bytes@.subrange(
                    pos + 14 + slen as int,
                    pos + 14 + slen + vlen as int,
                )));
                assert(entry_seq_view(out@.push(e)) =~= entry_seq_view(out@) + seq![e@]);
                assert forall|rest: Seq<(Seq<u8>, u64, Seq<u8>)>|
                    true implies (entry_seq_view(out@) + (seq![e@] + rest)) == (entry_seq_view(
                    out@.push(e),
                ) + rest) by {
                    assert(entry_seq_view(out@) + (seq![e@] + rest) =~= entry_seq_view(
                        out@.push(e),
                    ) + rest);
                }
            }
            out.push(e);
            pos = pos + 14 + slen + vlen;
            i += 1;
        }
    }
}

/// The offset array stores two bytes per record.
proof fn lemma_offsets_len(es: Seq<(Seq<u8>, u64, Seq<u8>)>, i: int)
    requires
        0 <= i <= es.len(),
    ensures
        spec_offsets_bytes(es, i).len() == 2 * (es.len() - i),
    decreases es.len() - i,
{
    if i < es.len() {
        lemma_offsets_len(es, i + 1);
    }
}

/// The bytes of record `i` inside the record area are exactly its
/// encoding, and it reaches to the next record's position.
#[verifier::spinoff_prover]
#[verifier::rlimit(100)]
proof fn lemma_entry_bytes(
    bytes: Seq<u8>,
    es: Seq<(Seq<u8>, u64, Seq<u8>)>,
    i: int,
    pos: int,
    end: int,
)
    requires
        block_wf(es),
        0 <= i < es.len(),
        pos == spec_entry_pos(es, i),
        end == spec_block_body(es[0].0, es, 0).len(),
        end <= bytes.len(),
        bytes.subrange(0, end) == spec_block_body(es[0].0, es, 0),
    ensures
        pos + spec_block_entry_enc(es[0].0, es[i], i).len() == spec_entry_pos(es, i + 1),
        spec_entry_pos(es, i + 1) <= end,
        0 <= pos,
        bytes.subrange(pos, spec_entry_pos(es, i + 1)) == spec_block_entry_enc(es[0].0, es[i], i),
{
    let first0 = es[0].0;
    let e = es[i];
    let q = spec_block_entry_enc(first0, e, i);
    let bodyfull = spec_block_body(first0, es, 0);
    let pre = spec_block_body(first0, es.take(i), 0);
    let restb = spec_block_body(first0, es.skip(i), i);
    let tail = spec_block_body(first0, es.skip(i + 1), i + 1);
    lemma_entry_pos_body(es, i);
    lemma_entry_pos_body(es, i + 1);
    lemma_body_split(first0, es, 0, i);
    assert(pos + q.len() == spec_entry_pos(es, i + 1)) by {
        lemma_body_split(first0, es.take(i + 1), 0, i);
        assert(es.take(i + 1).take(i) =~= es.take(i));
        assert(es.take(i + 1).skip(i) =~= seq![e]);
        let single = seq![e];
        assert(single.skip(1) =~= Seq::<(Seq<u8>, u64, Seq<u8>)>::empty());
        assert(spec_block_body(first0, single.skip(1), i + 1) == Seq::<u8>::empty());
        assert(q + Seq::<u8>::empty() =~= q);
        assert(es.take(i + 1)[0] == es[0]);
    }
    assert(restb == q + tail) by {
        assert(es.skip(i)[0] == e);
        assert(es.skip(i).skip(1) =~= es.skip(i + 1));
    }
    assert(spec_entry_pos(es, i + 1) <= end) by {
        lemma_body_split(first0, es, 0, i + 1);
        lemma_entry_pos_body(es, i + 1);
    }
    assert forall|j: int| 0 <= j < q.len() implies bytes[pos + j] == q[j] by {
        assert(bytes[pos + j] == bytes.subrange(0, end)[pos + j]);
        assert(bodyfull[pos + j] == restb[j]);
        assert(restb[j] == q[j]);
    }
    assert(bytes.subrange(pos, pos + q.len() as int) =~= q);
}

/// The fields read out of a record's encoding are the record's own.
#[verifier::spinoff_prover]
#[verifier::rlimit(100)]
proof fn lemma_entry_fields(
    bytes: Seq<u8>,
    es: Seq<(Seq<u8>, u64, Seq<u8>)>,
    i: int,
    pos: int,
)
    requires
        block_wf(es),
        0 <= i < es.len(),
        0 <= pos,
        pos + spec_block_entry_enc(es[0].0, es[i], i).len() <= bytes.len(),
        bytes.subrange(pos, pos + spec_block_entry_enc(es[0].0, es[i], i).len() as int)
            == spec_block_entry_enc(es[0].0, es[i], i),
    ensures
        ({
            let e = es[i];
            let ov: int = if i == 0 { 0 } else { spec_overlap(es[0].0, e.0) };
            let slen = e.0.len() - ov;
            let vlen = e.2.len() as int;
            &&& 0 <= ov <= e.0.len()
            &&& i != 0 ==> ov <= es[0].0.len()
            &&& spec_u16_of(bytes[pos], bytes[pos + 1]) == ov
            &&& spec_u16_of(bytes[pos + 2], bytes[pos + 3]) == slen
            &&& bytes.subrange(pos + 4, pos + 4 + slen) == e.0.skip(ov)
            &&& spec_u64_of(bytes.subrange(pos + 4 + slen, pos + 12 + slen)) == e.1
            &&& spec_u16_of(bytes[pos + 12 + slen], bytes[pos + 13 + slen]) == vlen
            &&& bytes.subrange(pos + 14 + slen, pos + 14 + slen + vlen) == e.2
            &&& spec_block_entry_enc(es[0].0, e, i).len() == 14 + slen + vlen
        }),
{
    let first0 = es[0].0;
    let e = es[i];
    let ov: int = if i == 0 { 0 } else { spec_overlap(first0, e.0) };
    lemma_overlap(first0, e.0);
    let q = spec_block_entry_enc(first0, e, i);
    let slen = e.0.len() - ov;
    let vlen = e.2.len() as int;
    assert(q.len() == 14 + slen + vlen);
    let sub = bytes.subrange(pos, pos + q.len() as int);
    lemma_u16_roundtrip(ov as u16);
    lemma_u16_roundtrip(slen as u16);
    lemma_u16_roundtrip(e.2.len() as u16);
    lemma_u64_roundtrip(e.1);
    assert(sub.subrange(0, 2) =~= spec_u16_be(ov as u16));
    assert(spec_u16_of(bytes[pos], bytes[pos + 1]) == ov) by {
        assert(bytes[pos] == sub[0] == sub.subrange(0, 2)[0]);
        assert(bytes[pos + 1] == sub[1] == sub.subrange(0, 2)[1]);
    }
    assert(sub.subrange(2, 4) =~= spec_u16_be(slen as u16));
    assert(spec_u16_of(bytes[pos + 2], bytes[pos + 3]) == slen) by {
        assert(bytes[pos + 2] == sub[2] == sub.subrange(2, 4)[0]);
        assert(bytes[pos + 3] == sub[3] == sub.subrange(2, 4)[1]);
    }
    assert(q.subrange(4, 4 + slen) =~= e.0.skip(ov));
    assert(bytes.subrange(pos + 4, pos + 4 + slen) =~= sub.subrange(4, 4 + slen));
    assert(q.subrange(4 + slen, 12 + slen) =~= spec_u64_be(e.1));
    assert(bytes.subrange(pos + 4 + slen, pos + 12 + slen) =~= sub.subrange(4 + slen, 12 + slen));
    assert(sub.subrange(12 + slen, 14 + slen) =~= spec_u16_be(e.2.len() as u16));
    assert(spec_u16_of(bytes[pos + 12 + slen], bytes[pos + 13 + slen]) == vlen) by {
        assert(bytes[pos + 12 + slen] == sub[12 + slen] == sub.subrange(12 + slen, 14 + slen)[0]);
        assert(bytes[pos + 13 + slen] == sub[13 + slen] == sub.subrange(12 + slen, 14 + slen)[1]);
    }
    assert(q.subrange(14 + slen, 14 + slen + vlen) =~= e.2);
    assert(bytes.subrange(pos + 14 + slen, pos + 14 + slen + vlen) =~= sub.subrange(
        14 + slen,
        14 + slen + vlen,
    ));
}

/// Decoding walks back exactly the records the record area encodes.
#[verifier::spinoff_prover]
#[verifier::rlimit(100)]
proof fn lemma_dec_roundtrip(
    bytes: Seq<u8>,
    es: Seq<(Seq<u8>, u64, Seq<u8>)>,
    i: int,
    pos: int,
    end: int,
)
    requires
        block_wf(es),
        0 <= i <= es.len(),
        pos == spec_entry_pos(es, i),
        end == spec_block_body(es[0].0, es, 0).len(),
        end <= bytes.len(),
        bytes.subrange(0, end) == spec_block_body(es[0].0, es, 0),
    ensures
        spec_dec_entries(
            bytes,
            pos,
            end,
            i,
            es.len() as int,
            if i == 0 {
                Seq::<u8>::empty()
            } else {
                es[0].0
            },
        ) == Some(es.skip(i)),
    decreases es.len() - i,
{
    let first0 = es[0].0;
    lemma_entry_pos_body(es, i);
    if i == es.len() {
        assert(es.take(i) =~= es);
        assert(pos == end);
        assert(es.skip(i) =~= Seq::<(Seq<u8>, u64, Seq<u8>)>::empty());
    } else {
        let e = es[i];
        let ov: int = if i == 0 { 0 } else { spec_overlap(first0, e.0) };
        lemma_overlap(first0, e.0);
        let q = spec_block_entry_enc(first0, e, i);
        let slen = e.0.len() - ov;
        let vlen = e.2.len() as int;
        lemma_entry_bytes(bytes, es, i, pos, end);
        lemma_entry_fields(bytes, es, i, pos);
        let first: Seq<u8> = if i == 0 {
            Seq::<u8>::empty()
        } else {
            first0
        };
        let k = first.take(ov) + bytes.subrange(pos + 4, pos + 4 + slen);
        assert(k =~= e.0);
        lemma_dec_roundtrip(bytes, es, i + 1, pos + q.len() as int, end);
        assert(seq![e] + es.skip(i + 1) =~= es.skip(i));
    }
}

/// Round trip: decoding an encoded block yields the identical sorted
/// record sequence.
#[verifier::spinoff_prover]
#[verifier::rlimit(100)]
pub proof fn lemma_block_roundtrip(es: Seq<(Seq<u8>, u64, Seq<u8>)>)
    requires
        block_wf(es),
    ensures
        spec_block_decode(spec_block_enc(es)) == Some(es),
{
    let body = spec_block_body(es[0].0, es, 0);
    let offs = spec_offsets_bytes(es, 0);
    let bytes = spec_block_enc(es);
    let count = es.len() as int;
    lemma_offsets_len(es, 0);
    let n = bytes.len() as int;
    assert(n == body.len() + 2 * count + 2);
    assert(spec_u16_of(bytes[n - 2], bytes[n - 1]) == count) by {
        lemma_u16_roundtrip(es.len() as u16);
        assert(bytes.subrange(n - 2, n) =~= spec_u16_be(es.len() as u16));
        assert(bytes[n - 2] == bytes.subrange(n - 2, n)[0]);
        assert(bytes[n - 1] == bytes.subrange(n - 2, n)[1]);
    }
    assert(bytes.subrange(0, body.len() as int) == body) by {
        assert(bytes.subrange(0, body.len() as int) =~= body);
    }
    lemma_dec_roundtrip(bytes, es, 0, 0, body.len() as int);
    assert(es.skip(0) =~= es);
}

/// A well-formed block's encoding is boundedly small: positions fit the
/// 16-bit offsets, so the whole encoding stays under `0x60000` bytes.
pub proof fn lemma_block_enc_len(es: Seq<(Seq<u8>, u64, Seq<u8>)>)
    requires
        block_wf(es),
    ensures
        spec_block_enc(es).len() <= 0x5FF00,
{
    lemma_offsets_len(es, 0);
    lemma_entry_pos_body(es, es.len() as int);
    assert(es.take(es.len() as int) =~= es);
    let n = es.len() as int;
    assert(spec_entry_pos(es, n - 1) <= 0xFFFF);
    let e = es[n - 1];
    lemma_overlap(es[0].0, e.0);
    assert(spec_block_entry_enc(es[0].0, e, n - 1).len() <= 14 + 2 * 0xFFFF) by {
        let ov = if n - 1 == 0 { 0 } else { spec_overlap(es[0].0, e.0) };
        assert(e.0.skip(ov).len() == e.0.len() - ov);
    }
    assert(spec_entry_pos(es, n) <= 0xFFFF + 14 + 2 * 0xFFFF);
    assert(spec_block_body(es[0].0, es, 0).len() == spec_entry_pos(es, n));
}

/// The position of record `j`, as the `u16` the offset array stores.
fn compute_entry_pos(b: &Block, j: usize) -> (r: u16)
    requires
        block_wf(b@),
        0 <= j < b@.len(),
    ensures
        r == spec_entry_pos(b@, j as int) as u16,
{
    let ghost es = b@;
    let mut pos: usize = 0;
    let mut t: usize = 0;
    while t < j
        invariant
            0 <= t <= j < es.len(),
            es == b@,
            block_wf(es),
            pos == spec_entry_pos(es, t as int),
        decreases j - t,
    {
        let e = &b.entries[t];
        let ov: usize = if t == 0 {
            0
        } else {
            compute_overlap(&b.entries[0].key, &e.key)
        };
        proof {
            lemma_overlap(es[0].0, es[t as int].0);
            lemma_entry_pos_bound(es, t + 1);
        }
        pos = pos + 14 + (e.key.key_len() - ov) + e.value.len();
        t += 1;
    }
    pos as u16
}

/// Positions never exceed the 16-bit field while the block is well-formed.
proof fn lemma_entry_pos_bound(es: Seq<(Seq<u8>, u64, Seq<u8>)>, i: int)
    requires
        block_wf(es),
        0 <= i <= es.len(),
    ensures
        i < es.len() ==> spec_entry_pos(es, i) <= 0xFFFF,
        spec_entry_pos(es, i) >= 0,
{
    lemma_entry_pos_body(es, i);
}

} // verus!
