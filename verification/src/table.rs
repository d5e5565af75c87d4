//! Sorted tables: immutable, block-structured runs with per-block
//! checksums, sparse block metadata, a membership filter and trailer
//! offsets.
//!
//! A built table keeps its encoded file image beside the decoded blocks
//! and the flat sorted run they hold: reads are served from the decoded
//! form, so no block is ever decoded twice.

use vstd::prelude::*;
use crate::block::{Block, BlockBuilder, block_wf, spec_block_enc};
use crate::bloom::{Bloom, spec_may_contain};
use crate::encoding::{
    spec_u16_be,
    spec_u32_be,
    spec_u64_be,
    put_u16_be,
    put_u32_be,
    put_u64_be,
    put_bytes,
    clone_bytes,
};
use crate::hashes::{crc32, crc32_of};
use crate::key::{
    KeyVec,
    Entry,
    entry_key,
    entry_seq_view,
    entries_sorted,
    key_lt,
    key_le,
    lemma_key_order_total,
};
use crate::mem_table::{mem_entry_wf, mem_entries_wf, MemTableIter};

verus! {

/// The records a sequence of blocks holds, in order.
pub open spec fn blocks_flat(bs: Seq<Seq<(Seq<u8>, u64, Seq<u8>)>>) -> Seq<(Seq<u8>, u64, Seq<u8>)>
    decreases bs.len(),
{
    if bs.len() == 0 {
        Seq::empty()
    } else {
        bs[0] + blocks_flat(bs.skip(1))
    }
}

/// Appending a block appends its records.
proof fn lemma_flat_snoc(bs: Seq<Seq<(Seq<u8>, u64, Seq<u8>)>>, b: Seq<(Seq<u8>, u64, Seq<u8>)>)
    ensures
        blocks_flat(bs.push(b)) == blocks_flat(bs) + b,
    decreases bs.len(),
{
    if bs.len() == 0 {
        assert(bs.push(b).skip(1) =~= Seq::<Seq<(Seq<u8>, u64, Seq<u8>)>>::empty());
        assert(bs.push(b)[0] == b);
        assert(blocks_flat(bs.push(b).skip(1)) == Seq::<(Seq<u8>, u64, Seq<u8>)>::empty());
        assert(blocks_flat(bs) == Seq::<(Seq<u8>, u64, Seq<u8>)>::empty());
        assert(blocks_flat(bs.push(b)) =~= blocks_flat(bs) + b);
    } else {
        assert(bs.push(b).skip(1) =~= bs.skip(1).push(b));
        lemma_flat_snoc(bs.skip(1), b);
        assert(bs.push(b)[0] == bs[0]);
        assert(blocks_flat(bs.push(b)) =~= blocks_flat(bs) + b);
    }
}

/// The views of a vector of blocks.
pub open spec fn blocks_view(v: Seq<Block>) -> Seq<Seq<(Seq<u8>, u64, Seq<u8>)>> {
    v.map_values(|b: Block| b@)
}

/// Per-block metadata: where the block's bytes start, and its key range.
pub struct BlockMeta {
    pub offset: usize,
    pub first_key: KeyVec,
    pub last_key: KeyVec,
}

impl Clone for BlockMeta {
    fn clone(&self) -> (r: Self)
        ensures
            r.offset == self.offset,
            r.first_key@ == self.first_key@,
            r.last_key@ == self.last_key@,
    {
        BlockMeta {
            offset: self.offset,
            first_key: self.first_key.clone(),
            last_key: self.last_key.clone(),
        }
    }
}

/// The encoding of one metadata record.
pub open spec fn spec_meta_enc(m: (int, (Seq<u8>, u64), (Seq<u8>, u64))) -> Seq<u8> {
    spec_u32_be(m.0 as u32) + spec_u16_be(m.1.0.len() as u16) + m.1.0 + spec_u64_be(m.1.1)
        + spec_u16_be(m.2.0.len() as u16) + m.2.0 + spec_u64_be(m.2.1)
}

/// The view of one metadata record.
pub open spec fn meta_view(m: BlockMeta) -> (int, (Seq<u8>, u64), (Seq<u8>, u64)) {
    (m.offset as int, m.first_key@, m.last_key@)
}

/// The encoding of the metadata section's records.
pub open spec fn spec_metas_enc(ms: Seq<(int, (Seq<u8>, u64), (Seq<u8>, u64))>) -> Seq<u8>
    decreases ms.len(),
{
    if ms.len() == 0 {
        Seq::empty()
    } else {
        spec_meta_enc(ms[0]) + spec_metas_enc(ms.skip(1))
    }
}

#[verifier::rlimit(100)]
proof fn lemma_metas_snoc(
    ms: Seq<(int, (Seq<u8>, u64), (Seq<u8>, u64))>,
    m: (int, (Seq<u8>, u64), (Seq<u8>, u64)),
)
    ensures
        spec_metas_enc(ms.push(m)) == spec_metas_enc(ms) + spec_meta_enc(m),
    decreases ms.len(),
{
    if ms.len() == 0 {
        assert(ms.push(m).skip(1) =~= Seq::<(int, (Seq<u8>, u64), (Seq<u8>, u64))>::empty());
        assert(ms.push(m)[0] == m);
        assert(spec_metas_enc(ms.push(m)) == spec_meta_enc(m) + spec_metas_enc(
            ms.push(m).skip(1),
        ));
        assert(spec_metas_enc(ms.push(m).skip(1)) == Seq::<u8>::empty());
        assert(spec_metas_enc(ms) == Seq::<u8>::empty());
        assert(spec_metas_enc(ms.push(m)) =~= spec_metas_enc(ms) + spec_meta_enc(m)) by {
            assert(spec_meta_enc(m) + Seq::<u8>::empty() =~= spec_meta_enc(m));
            assert(Seq::<u8>::empty() + spec_meta_enc(m) =~= spec_meta_enc(m));
        }
    } else {
        assert(ms.push(m).skip(1) =~= ms.skip(1).push(m));
        lemma_metas_snoc(ms.skip(1), m);
        assert(ms.push(m)[0] == ms[0]);
        assert(spec_metas_enc(ms.push(m)) =~= spec_metas_enc(ms) + spec_meta_enc(m)) by {
            assert(spec_metas_enc(ms.push(m)) == spec_meta_enc(ms[0]) + spec_metas_enc(
                ms.skip(1).push(m),
            ));
            assert(spec_metas_enc(ms) == spec_meta_enc(ms[0]) + spec_metas_enc(ms.skip(1)));
        }
    }
}

/// A metadata record read out of bytes re-encodes to exactly those bytes.
#[verifier::rlimit(100)]
proof fn lemma_meta_enc_bytes(b: Seq<u8>, pos: int, m: (int, (Seq<u8>, u64), (Seq<u8>, u64)))
    requires
        0 <= pos,
        pos + 24 + m.1.0.len() + m.2.0.len() <= b.len(),
        0 <= m.0 <= 0xFFFFFFFF,
        m.0 == crate::encoding::spec_u32_of(b[pos], b[pos + 1], b[pos + 2], b[pos + 3]) as int,
        m.1.0.len() == crate::encoding::spec_u16_of(b[pos + 4], b[pos + 5]) as int,
        m.1.0 == b.subrange(pos + 6, pos + 6 + m.1.0.len() as int),
        m.1.1 == crate::encoding::spec_u64_of(
            b.subrange(pos + 6 + m.1.0.len() as int, pos + 14 + m.1.0.len() as int),
        ),
        m.2.0.len() == crate::encoding::spec_u16_of(
            b[pos + 14 + m.1.0.len() as int],
            b[pos + 15 + m.1.0.len() as int],
        ) as int,
        m.2.0 == b.subrange(
            pos + 16 + m.1.0.len() as int,
            pos + 16 + m.1.0.len() + m.2.0.len() as int,
        ),
        m.2.1 == crate::encoding::spec_u64_of(
            b.subrange(
                pos + 16 + m.1.0.len() + m.2.0.len() as int,
                pos + 24 + m.1.0.len() + m.2.0.len() as int,
            ),
        ),
    ensures
        spec_meta_enc(m) == b.subrange(pos, pos + 24 + m.1.0.len() + m.2.0.len() as int),
{
    let flen = m.1.0.len() as int;
    let llen = m.2.0.len() as int;
    assert(b.subrange(pos, pos + 4) =~= spec_u32_be(m.0 as u32)) by {
        crate::encoding::lemma_u32_be_of(b, pos);
    }
    assert(b.subrange(pos + 4, pos + 6) =~= spec_u16_be(m.1.0.len() as u16)) by {
        crate::encoding::lemma_u16_be_of(b, pos + 4);
    }
    assert(b.subrange(pos + 6 + flen, pos + 14 + flen) =~= spec_u64_be(m.1.1)) by {
        crate::encoding::lemma_u64_be_of(b, pos + 6 + flen);
        crate::encoding::lemma_u64_roundtrip(m.1.1);
    }
    assert(b.subrange(pos + 14 + flen, pos + 16 + flen) =~= spec_u16_be(m.2.0.len() as u16)) by {
        crate::encoding::lemma_u16_be_of(b, pos + 14 + flen);
    }
    assert(b.subrange(pos + 16 + flen + llen, pos + 24 + flen + llen) =~= spec_u64_be(m.2.1)) by {
        crate::encoding::lemma_u64_be_of(b, pos + 16 + flen + llen);
        crate::encoding::lemma_u64_roundtrip(m.2.1);
    }
    assert(spec_meta_enc(m) =~= b.subrange(pos, pos + 24 + flen + llen));
}

/// The whole metadata section: a count, the records, the table's largest
/// timestamp.
pub open spec fn spec_meta_section(
    ms: Seq<(int, (Seq<u8>, u64), (Seq<u8>, u64))>,
    max_ts: u64,
) -> Seq<u8> {
    spec_u32_be(ms.len() as u32) + spec_metas_enc(ms) + spec_u64_be(max_ts)
}

pub open spec fn metas_view(v: Seq<BlockMeta>) -> Seq<(int, (Seq<u8>, u64), (Seq<u8>, u64))> {
    v.map_values(|m: BlockMeta| meta_view(m))
}

/// Do all the metadata records fit their length fields?
pub open spec fn metas_wf(ms: Seq<(int, (Seq<u8>, u64), (Seq<u8>, u64))>) -> bool {
    ms.len() <= 0xFFFFFFFF && forall|i: int|
        0 <= i < ms.len() ==> 0 <= (#[trigger] ms[i]).0 <= 0xFFFFFFFF && ms[i].1.0.len() <= 0xFFFF
            && ms[i].2.0.len() <= 0xFFFF
}

/// What decoding the metadata section yields, record by record, from
/// position `pos` with records `i` to `count` still to read; the section
/// must end in exactly the eight trailing timestamp bytes.
pub open spec fn spec_meta_dec_from(bytes: Seq<u8>, pos: int, i: int, count: int) -> Option<
    Seq<(int, (Seq<u8>, u64), (Seq<u8>, u64))>,
>
    decreases count - i,
{
    let n = bytes.len() as int;
    if i >= count {
        if n - pos == 8 {
            Some(Seq::empty())
        } else {
            None
        }
    } else if pos < 0 || n - pos < 6 {
        None
    } else {
        let off = crate::encoding::spec_u32_of(
            bytes[pos],
            bytes[pos + 1],
            bytes[pos + 2],
            bytes[pos + 3],
        ) as int;
        let flen = crate::encoding::spec_u16_of(bytes[pos + 4], bytes[pos + 5]) as int;
        if flen > n - pos - 6 {
            None
        } else if n - pos - 6 - flen < 10 {
            None
        } else {
            let fkey = bytes.subrange(pos + 6, pos + 6 + flen);
            let fts = crate::encoding::spec_u64_of(
                bytes.subrange(pos + 6 + flen, pos + 14 + flen),
            );
            let llen = crate::encoding::spec_u16_of(
                bytes[pos + 14 + flen],
                bytes[pos + 15 + flen],
            ) as int;
            if llen > n - pos - 16 - flen {
                None
            } else if n - pos - 16 - flen - llen < 8 {
                None
            } else {
                let lkey = bytes.subrange(pos + 16 + flen, pos + 16 + flen + llen);
                let lts = crate::encoding::spec_u64_of(
                    bytes.subrange(pos + 16 + flen + llen, pos + 24 + flen + llen),
                );
                match spec_meta_dec_from(bytes, pos + 24 + flen + llen, i + 1, count) {
                    Some(rest) => Some(seq![(off, (fkey, fts), (lkey, lts))] + rest),
                    None => None,
                }
            }
        }
    }
}

/// What decoding a metadata section yields.
pub open spec fn spec_meta_decode(bytes: Seq<u8>) -> Option<
    (Seq<(int, (Seq<u8>, u64), (Seq<u8>, u64))>, u64),
> {
    let n = bytes.len() as int;
    if n < 4 {
        None
    } else {
        let count = crate::encoding::spec_u32_of(bytes[0], bytes[1], bytes[2], bytes[3]) as int;
        match spec_meta_dec_from(bytes, 4, 0, count) {
            Some(ms) => Some((ms, crate::encoding::spec_u64_of(bytes.subrange(n - 8, n)))),
            None => None,
        }
    }
}

/// The length of one encoded metadata record, and the two leading
/// integer fields read back from it.
#[verifier::spinoff_prover]
#[verifier::rlimit(100)]
proof fn lemma_enc_reads_a(m: (int, (Seq<u8>, u64), (Seq<u8>, u64)))
    requires
        0 <= m.0 <= 0xFFFFFFFF,
        m.1.0.len() <= 0xFFFF,
        m.2.0.len() <= 0xFFFF,
    ensures
        spec_meta_enc(m).len() == 24 + m.1.0.len() + m.2.0.len(),
        crate::encoding::spec_u32_of(
            spec_meta_enc(m)[0],
            spec_meta_enc(m)[1],
            spec_meta_enc(m)[2],
            spec_meta_enc(m)[3],
        ) as int == m.0,
        crate::encoding::spec_u16_of(spec_meta_enc(m)[4], spec_meta_enc(m)[5]) as int
            == m.1.0.len(),
{
    let e = spec_meta_enc(m);
    let a = spec_u32_be(m.0 as u32);
    let f = spec_u16_be(m.1.0.len() as u16);
    assert(e[0] == a[0] && e[1] == a[1] && e[2] == a[2] && e[3] == a[3]);
    assert(e[4] == f[0] && e[5] == f[1]);
    crate::encoding::lemma_u32_roundtrip(m.0 as u32);
    crate::encoding::lemma_u16_roundtrip(m.1.0.len() as u16);
}

/// The first key, its timestamp and the second length field read back
/// from one encoded metadata record.
#[verifier::spinoff_prover]
#[verifier::rlimit(100)]
proof fn lemma_enc_reads_b(m: (int, (Seq<u8>, u64), (Seq<u8>, u64)))
    requires
        0 <= m.0 <= 0xFFFFFFFF,
        m.1.0.len() <= 0xFFFF,
        m.2.0.len() <= 0xFFFF,
    ensures
        spec_meta_enc(m).subrange(6, 6 + m.1.0.len() as int) == m.1.0,
        crate::encoding::spec_u64_of(
            spec_meta_enc(m).subrange(6 + m.1.0.len() as int, 14 + m.1.0.len() as int),
        ) == m.1.1,
        crate::encoding::spec_u16_of(
            spec_meta_enc(m)[14 + m.1.0.len() as int],
            spec_meta_enc(m)[15 + m.1.0.len() as int],
        ) as int == m.2.0.len(),
{
    let e = spec_meta_enc(m);
    let flen = m.1.0.len() as int;
    let p2 = spec_u32_be(m.0 as u32) + spec_u16_be(m.1.0.len() as u16) + m.1.0;
    let p3 = p2 + spec_u64_be(m.1.1);
    let p4 = p3 + spec_u16_be(m.2.0.len() as u16);
    assert(e == p4 + m.2.0 + spec_u64_be(m.2.1));
    assert forall|t: int| 0 <= t < flen implies e[6 + t] == m.1.0[t] by {
        assert(p2[6 + t] == m.1.0[t]);
        assert(p3[6 + t] == p2[6 + t]);
        assert(p4[6 + t] == p3[6 + t]);
        assert(e[6 + t] == p4[6 + t]);
    }
    assert(e.subrange(6, 6 + flen) =~= m.1.0);
    assert forall|t: int| 0 <= t < 8 implies e[6 + flen + t] == spec_u64_be(m.1.1)[t] by {
        assert(p3[6 + flen + t] == spec_u64_be(m.1.1)[t]);
        assert(p4[6 + flen + t] == p3[6 + flen + t]);
        assert(e[6 + flen + t] == p4[6 + flen + t]);
    }
    assert(e.subrange(6 + flen, 14 + flen) =~= spec_u64_be(m.1.1));
    crate::encoding::lemma_u64_roundtrip(m.1.1);
    let l = spec_u16_be(m.2.0.len() as u16);
    assert(p4[14 + flen] == l[0] && p4[15 + flen] == l[1]);
    assert(e[14 + flen] == p4[14 + flen] && e[15 + flen] == p4[15 + flen]);
    crate::encoding::lemma_u16_roundtrip(m.2.0.len() as u16);
}

/// The last key and its timestamp read back from one encoded metadata
/// record.
#[verifier::spinoff_prover]
#[verifier::rlimit(100)]
proof fn lemma_enc_reads_c(m: (int, (Seq<u8>, u64), (Seq<u8>, u64)))
    requires
        0 <= m.0 <= 0xFFFFFFFF,
        m.1.0.len() <= 0xFFFF,
        m.2.0.len() <= 0xFFFF,
    ensures
        spec_meta_enc(m).subrange(
            16 + m.1.0.len() as int,
            16 + m.1.0.len() + m.2.0.len() as int,
        ) == m.2.0,
        crate::encoding::spec_u64_of(
            spec_meta_enc(m).subrange(
                16 + m.1.0.len() + m.2.0.len() as int,
                24 + m.1.0.len() + m.2.0.len() as int,
            ),
        ) == m.2.1,
{
    let e = spec_meta_enc(m);
    let flen = m.1.0.len() as int;
    let llen = m.2.0.len() as int;
    let p4 = spec_u32_be(m.0 as u32) + spec_u16_be(m.1.0.len() as u16) + m.1.0 + spec_u64_be(
        m.1.1,
    ) + spec_u16_be(m.2.0.len() as u16);
    let p5 = p4 + m.2.0;
    assert(e == p5 + spec_u64_be(m.2.1));
    assert(p4.len() == 16 + flen);
    assert forall|t: int| 0 <= t < llen implies e[16 + flen + t] == m.2.0[t] by {
        assert(p5[16 + flen + t] == m.2.0[t]);
        assert(e[16 + flen + t] == p5[16 + flen + t]);
    }
    assert(e.subrange(16 + flen, 16 + flen + llen) =~= m.2.0);
    assert forall|t: int| 0 <= t < 8 implies e[16 + flen + llen + t] == spec_u64_be(m.2.1)[t] by {
        assert(e[16 + flen + llen + t] == spec_u64_be(m.2.1)[t]);
    }
    assert(e.subrange(16 + flen + llen, 24 + flen + llen) =~= spec_u64_be(m.2.1));
    crate::encoding::lemma_u64_roundtrip(m.2.1);
}

/// A subrange of a subrange is the inner subrange of the original.
proof fn lemma_subrange_chain(b: Seq<u8>, p: int, q: int, a1: int, a2: int)
    requires
        0 <= p,
        0 <= a1 <= a2,
        p + a2 <= q <= b.len(),
    ensures
        b.subrange(p, q).subrange(a1, a2) == b.subrange(p + a1, p + a2),
{
    assert(b.subrange(p, q).subrange(a1, a2) =~= b.subrange(p + a1, p + a2));
}

/// The integer fields of the record encoded at `pos` read back.
#[verifier::spinoff_prover]
#[verifier::rlimit(100)]
proof fn lemma_meta_fields_at_a(b: Seq<u8>, pos: int, m: (int, (Seq<u8>, u64), (Seq<u8>, u64)))
    requires
        0 <= pos,
        pos + 24 + m.1.0.len() + m.2.0.len() <= b.len(),
        0 <= m.0 <= 0xFFFFFFFF,
        m.1.0.len() <= 0xFFFF,
        m.2.0.len() <= 0xFFFF,
        b.subrange(pos, pos + 24 + m.1.0.len() + m.2.0.len() as int) == spec_meta_enc(m),
    ensures
        crate::encoding::spec_u32_of(b[pos], b[pos + 1], b[pos + 2], b[pos + 3]) as int == m.0,
        crate::encoding::spec_u16_of(b[pos + 4], b[pos + 5]) as int == m.1.0.len(),
        crate::encoding::spec_u16_of(
            b[pos + 14 + m.1.0.len() as int],
            b[pos + 15 + m.1.0.len() as int],
        ) as int == m.2.0.len(),
{
    let e = spec_meta_enc(m);
    let flen = m.1.0.len() as int;
    let llen = m.2.0.len() as int;
    let x = b.subrange(pos, pos + 24 + flen + llen);
    lemma_enc_reads_a(m);
    lemma_enc_reads_b(m);
    assert(b[pos] == x[0] && b[pos + 1] == x[1] && b[pos + 2] == x[2] && b[pos + 3] == x[3]);
    assert(b[pos + 4] == x[4] && b[pos + 5] == x[5]);
    assert(b[pos + 14 + flen] == x[14 + flen] && b[pos + 15 + flen] == x[15 + flen]);
}

/// The first key and its timestamp at `pos` read back.
#[verifier::spinoff_prover]
#[verifier::rlimit(100)]
proof fn lemma_meta_fields_at_b(b: Seq<u8>, pos: int, m: (int, (Seq<u8>, u64), (Seq<u8>, u64)))
    requires
        0 <= pos,
        pos + 24 + m.1.0.len() + m.2.0.len() <= b.len(),
        0 <= m.0 <= 0xFFFFFFFF,
        m.1.0.len() <= 0xFFFF,
        m.2.0.len() <= 0xFFFF,
        b.subrange(pos, pos + 24 + m.1.0.len() + m.2.0.len() as int) == spec_meta_enc(m),
    ensures
        b.subrange(pos + 6, pos + 6 + m.1.0.len() as int) == m.1.0,
        crate::encoding::spec_u64_of(
            b.subrange(pos + 6 + m.1.0.len() as int, pos + 14 + m.1.0.len() as int),
        ) == m.1.1,
{
    let e = spec_meta_enc(m);
    let flen = m.1.0.len() as int;
    let llen = m.2.0.len() as int;
    let q = pos + 24 + flen + llen;
    lemma_enc_reads_a(m);
    lemma_enc_reads_b(m);
    lemma_subrange_chain(b, pos, q, 6, 6 + flen);
    assert(b.subrange(pos + 6, pos + 6 + flen) == e.subrange(6, 6 + flen));
    lemma_subrange_chain(b, pos, q, 6 + flen, 14 + flen);
    assert(b.subrange(pos + 6 + flen, pos + 14 + flen) == e.subrange(6 + flen, 14 + flen));
}

/// The last key and its timestamp at `pos` read back.
#[verifier::spinoff_prover]
#[verifier::rlimit(100)]
proof fn lemma_meta_fields_at_c(b: Seq<u8>, pos: int, m: (int, (Seq<u8>, u64), (Seq<u8>, u64)))
    requires
        0 <= pos,
        pos + 24 + m.1.0.len() + m.2.0.len() <= b.len(),
        0 <= m.0 <= 0xFFFFFFFF,
        m.1.0.len() <= 0xFFFF,
        m.2.0.len() <= 0xFFFF,
        b.subrange(pos, pos + 24 + m.1.0.len() + m.2.0.len() as int) == spec_meta_enc(m),
    ensures
        b.subrange(
            pos + 16 + m.1.0.len() as int,
            pos + 16 + m.1.0.len() + m.2.0.len() as int,
        ) == m.2.0,
        crate::encoding::spec_u64_of(
            b.subrange(
                pos + 16 + m.1.0.len() + m.2.0.len() as int,
                pos + 24 + m.1.0.len() + m.2.0.len() as int,
            ),
        ) == m.2.1,
{
    let e = spec_meta_enc(m);
    let flen = m.1.0.len() as int;
    let llen = m.2.0.len() as int;
    let q = pos + 24 + flen + llen;
    lemma_enc_reads_a(m);
    lemma_enc_reads_c(m);
    lemma_subrange_chain(b, pos, q, 16 + flen, 16 + flen + llen);
    assert(b.subrange(pos + 16 + flen, pos + 16 + flen + llen) == e.subrange(
        16 + flen,
        16 + flen + llen,
    ));
    lemma_subrange_chain(b, pos, q, 16 + flen + llen, 24 + flen + llen);
    assert(b.subrange(pos + 16 + flen + llen, pos + 24 + flen + llen) == e.subrange(
        16 + flen + llen,
        24 + flen + llen,
    ));
}

/// One record whose fields read back, followed by a decodable rest,
/// decodes as that record before the rest.
#[verifier::spinoff_prover]
#[verifier::rlimit(100)]
proof fn lemma_meta_dec_step(
    b: Seq<u8>,
    pos: int,
    i: int,
    count: int,
    m: (int, (Seq<u8>, u64), (Seq<u8>, u64)),
    rest: Seq<(int, (Seq<u8>, u64), (Seq<u8>, u64))>,
)
    requires
        0 <= pos,
        pos + 24 + m.1.0.len() + m.2.0.len() <= b.len() - 8,
        i < count,
        0 <= m.0 <= 0xFFFFFFFF,
        m.1.0.len() <= 0xFFFF,
        m.2.0.len() <= 0xFFFF,
        crate::encoding::spec_u32_of(b[pos], b[pos + 1], b[pos + 2], b[pos + 3]) as int == m.0,
        crate::encoding::spec_u16_of(b[pos + 4], b[pos + 5]) as int == m.1.0.len(),
        b.subrange(pos + 6, pos + 6 + m.1.0.len() as int) == m.1.0,
        crate::encoding::spec_u64_of(
            b.subrange(pos + 6 + m.1.0.len() as int, pos + 14 + m.1.0.len() as int),
        ) == m.1.1,
        crate::encoding::spec_u16_of(
            b[pos + 14 + m.1.0.len() as int],
            b[pos + 15 + m.1.0.len() as int],
        ) as int == m.2.0.len(),
        b.subrange(
            pos + 16 + m.1.0.len() as int,
            pos + 16 + m.1.0.len() + m.2.0.len() as int,
        ) == m.2.0,
        crate::encoding::spec_u64_of(
            b.subrange(
                pos + 16 + m.1.0.len() + m.2.0.len() as int,
                pos + 24 + m.1.0.len() + m.2.0.len() as int,
            ),
        ) == m.2.1,
        spec_meta_dec_from(b, pos + 24 + m.1.0.len() + m.2.0.len(), i + 1, count) == Some(rest),
    ensures
        spec_meta_dec_from(b, pos, i, count) == Some(seq![m] + rest),
{
    let n = b.len() as int;
    let flen = m.1.0.len() as int;
    let llen = m.2.0.len() as int;
    assert(n - pos >= 6);
    assert(flen <= n - pos - 6);
    assert(n - pos - 6 - flen >= 10);
    assert(llen <= n - pos - 16 - flen);
    assert(n - pos - 16 - flen - llen >= 8);
}

/// Decoding from `pos` recovers exactly the records whose encodings
/// fill the bytes between `pos` and the eight trailing timestamp bytes.
#[verifier::spinoff_prover]
#[verifier::rlimit(100)]
proof fn lemma_meta_dec_suffix(
    b: Seq<u8>,
    pos: int,
    i: int,
    count: int,
    ms_s: Seq<(int, (Seq<u8>, u64), (Seq<u8>, u64))>,
)
    requires
        metas_wf(ms_s),
        0 <= pos <= b.len() - 8,
        count - i == ms_s.len(),
        b.subrange(pos, b.len() - 8) == spec_metas_enc(ms_s),
    ensures
        spec_meta_dec_from(b, pos, i, count) == Some(ms_s),
    decreases ms_s.len(),
{
    let n = b.len() as int;
    if ms_s.len() == 0 {
        assert(spec_metas_enc(ms_s) =~= Seq::<u8>::empty());
        assert(n - 8 - pos == 0);
        assert(ms_s =~= Seq::<(int, (Seq<u8>, u64), (Seq<u8>, u64))>::empty());
    } else {
        let m = ms_s[0];
        let rest = ms_s.skip(1);
        let flen = m.1.0.len() as int;
        let llen = m.2.0.len() as int;
        let reclen = 24 + flen + llen;
        let e = spec_meta_enc(m);
        lemma_enc_reads_a(m);
        assert(spec_metas_enc(ms_s) == e + spec_metas_enc(rest));
        assert(pos + reclen <= n - 8) by {
            assert((e + spec_metas_enc(rest)).len() == n - 8 - pos);
        }
        assert(b.subrange(pos, pos + reclen) =~= e) by {
            assert forall|k: int| 0 <= k < reclen implies b.subrange(pos, pos + reclen)[k]
                == e[k] by {
                assert(b.subrange(pos, n - 8)[k] == (e + spec_metas_enc(rest))[k]);
            }
        }
        lemma_meta_fields_at_a(b, pos, m);
        lemma_meta_fields_at_b(b, pos, m);
        lemma_meta_fields_at_c(b, pos, m);
        assert forall|k: int| 0 <= k < ms_s.len() - 1 implies rest[k] == ms_s[k + 1] by {}
        assert(metas_wf(rest));
        assert(b.subrange(pos + reclen, n - 8) =~= spec_metas_enc(rest)) by {
            assert forall|t: int| 0 <= t < n - 8 - pos - reclen implies b[pos + reclen + t]
                == spec_metas_enc(rest)[t] by {
                assert(b.subrange(pos, n - 8)[reclen + t] == (e + spec_metas_enc(rest))[reclen
                    + t]);
            }
        }
        lemma_meta_dec_suffix(b, pos + reclen, i + 1, count, rest);
        lemma_meta_dec_step(b, pos, i, count, m, rest);
        assert(seq![m] + rest =~= ms_s);
    }
}

/// Encoding a metadata section and decoding it back yields the same
/// records and the same largest timestamp.
#[verifier::spinoff_prover]
#[verifier::rlimit(100)]
pub proof fn lemma_meta_section_roundtrip(
    ms: Seq<(int, (Seq<u8>, u64), (Seq<u8>, u64))>,
    max_ts: u64,
)
    requires
        metas_wf(ms),
    ensures
        spec_meta_decode(spec_meta_section(ms, max_ts)) == Some((ms, max_ts)),
{
    let b = spec_meta_section(ms, max_ts);
    let n = b.len() as int;
    let head = spec_u32_be(ms.len() as u32);
    let body = spec_metas_enc(ms);
    let tail = spec_u64_be(max_ts);
    assert(b == head + body + tail);
    assert(n == 12 + body.len());
    assert(b[0] == head[0] && b[1] == head[1] && b[2] == head[2] && b[3] == head[3]);
    crate::encoding::lemma_u32_roundtrip(ms.len() as u32);
    assert(crate::encoding::spec_u32_of(b[0], b[1], b[2], b[3]) as int == ms.len());
    assert(b.subrange(4, n - 8) =~= body) by {
        assert forall|t: int| 0 <= t < body.len() implies b[4 + t] == body[t] by {
            assert((head + body)[4 + t] == body[t]);
            assert(b[4 + t] == (head + body)[4 + t]);
        }
    }
    lemma_meta_dec_suffix(b, 4, 0, ms.len() as int, ms);
    assert(b.subrange(n - 8, n) =~= tail) by {
        assert forall|t: int| 0 <= t < 8 implies b[n - 8 + t] == tail[t] by {
            assert(b[(head + body).len() + t] == tail[t]);
        }
    }
    crate::encoding::lemma_u64_roundtrip(max_ts);
}

impl BlockMeta {
    /// Append the metadata section for these records.
#[verifier::spinoff_prover]
    #[verifier::rlimit(100)]
    pub fn encode_block_meta(block_meta: &Vec<BlockMeta>, max_ts: u64, buf: &mut Vec<u8>)
        requires
            metas_wf(metas_view(block_meta@)),
        ensures
            final(buf)@ == old(buf)@ + spec_meta_section(metas_view(block_meta@), max_ts),
    {
        let ghost ms = metas_view(block_meta@);
        put_u32_be(buf, block_meta.len() as u32);
        let ghost base = buf@;
        let mut i: usize = 0;
        proof {
            assert(ms.take(0) =~= Seq::<(int, (Seq<u8>, u64), (Seq<u8>, u64))>::empty());
            assert(base + spec_metas_enc(ms.take(0)) =~= base);
        }
        while i < block_meta.len()
            invariant
                0 <= i <= block_meta@.len(),
                ms == metas_view(block_meta@),
                metas_wf(ms),
                buf@ == base + spec_metas_enc(ms.take(i as int)),
            decreases block_meta@.len() - i,
        {
            let m = &block_meta[i];
            proof {
                assert(meta_view(block_meta@[i as int]) == ms[i as int]);
            }
            put_u32_be(buf, m.offset as u32);
            put_u16_be(buf, m.first_key.key_len() as u16);
            put_bytes(buf, m.first_key.bytes.as_slice());
            put_u64_be(buf, m.first_key.ts());
            put_u16_be(buf, m.last_key.key_len() as u16);
            put_bytes(buf, m.last_key.bytes.as_slice());
            put_u64_be(buf, m.last_key.ts());
            proof {
                assert(ms.take(i + 1) =~= ms.take(i as int).push(ms[i as int]));
                lemma_metas_snoc(ms.take(i as int), ms[i as int]);
                assert(buf@ =~= base + spec_metas_enc(ms.take(i + 1)));
            }
            i += 1;
        }
        proof {
            assert(ms.take(ms.len() as int) =~= ms);
        }
        put_u64_be(buf, max_ts);
        proof {
            assert(buf@ =~= old(buf)@ + spec_meta_section(ms, max_ts));
        }
    }

    /// Decode a metadata section. On success, re-encoding what was read
    /// yields exactly the input bytes.
#[verifier::spinoff_prover]
    #[verifier::rlimit(100)]
    pub fn decode_block_meta(bytes: &[u8]) -> (r: Option<(Vec<BlockMeta>, u64)>)
        ensures
            r is Some <==> spec_meta_decode(bytes@) is Some,
            r matches Some((ms, ts)) ==> Some((metas_view(ms@), ts)) == spec_meta_decode(bytes@),
            r matches Some((ms, ts)) ==> metas_wf(metas_view(ms@)) && bytes@ == spec_meta_section(
                metas_view(ms@),
                ts,
            ),
    {
        let n = bytes.len();
        if n < 4 {
            return None;
        }
        let count = crate::encoding::get_u32_be(bytes, 0) as usize;
        let mut out: Vec<BlockMeta> = Vec::new();
        let mut pos: usize = 4;
        let mut i: usize = 0;
        proof {
            assert(metas_view(out@).take(0) =~= Seq::<
                (int, (Seq<u8>, u64), (Seq<u8>, u64)),
            >::empty());
            assert(bytes@.subrange(0, 4) + spec_metas_enc(metas_view(out@)) =~= bytes@.subrange(
                0,
                4,
            ));
            assert(metas_view(out@) =~= Seq::<(int, (Seq<u8>, u64), (Seq<u8>, u64))>::empty());
        }
        while i < count
            invariant
                0 <= i <= count,
                4 <= pos <= n == bytes@.len(),
                out@.len() == i,
                count == crate::encoding::spec_u32_of(
                    bytes@[0],
                    bytes@[1],
                    bytes@[2],
                    bytes@[3],
                ) as int,
                metas_wf(metas_view(out@)),
                bytes@.subrange(0, pos as int) == bytes@.subrange(0, 4) + spec_metas_enc(
                    metas_view(out@),
                ),
                spec_meta_dec_from(bytes@, 4, 0, count as int) == (match spec_meta_dec_from(
                    bytes@,
                    pos as int,
                    i as int,
                    count as int,
                ) {
                    Some(rest) => Some(metas_view(out@) + rest),
                    None => None::<Seq<(int, (Seq<u8>, u64), (Seq<u8>, u64))>>,
                }),
            decreases count - i,
        {
            if n - pos < 6 {
                proof {
                    assert(spec_meta_dec_from(bytes@, pos as int, i as int, count as int)
                        is None);
                }
                return None;
            }
            let off = crate::encoding::get_u32_be(bytes, pos) as usize;
            let flen = crate::encoding::get_u16_be(bytes, pos + 4) as usize;
            if flen > n - pos - 6 {
                proof {
                    assert(spec_meta_dec_from(bytes@, pos as int, i as int, count as int)
                        is None);
                }
                return None;
            }
            if n - pos - 6 - flen < 10 {
                proof {
                    assert(spec_meta_dec_from(bytes@, pos as int, i as int, count as int)
                        is None);
                }
                return None;
            }
            let fkey = crate::encoding::copy_range(bytes, pos + 6, flen);
            let fts = crate::encoding::get_u64_be(bytes, pos + 6 + flen);
            let llen = crate::encoding::get_u16_be(bytes, pos + 14 + flen) as usize;
            if llen > n - pos - 16 - flen {
                proof {
                    assert(spec_meta_dec_from(bytes@, pos as int, i as int, count as int)
                        is None);
                }
                return None;
            }
            if n - pos - 16 - flen - llen < 8 {
                proof {
                    assert(spec_meta_dec_from(bytes@, pos as int, i as int, count as int)
                        is None);
                }
                return None;
            }
            let lkey = crate::encoding::copy_range(bytes, pos + 16 + flen, llen);
            let lts = crate::encoding::get_u64_be(bytes, pos + 16 + flen + llen);
            let m = BlockMeta {
                offset: off,
                first_key: KeyVec::from_vec_with_ts(fkey, fts),
                last_key: KeyVec::from_vec_with_ts(lkey, lts),
            };
            let ghost prev = out@;
            let ghost mv = meta_view(m);
            let newpos = pos + 24 + flen + llen;
            proof {
                lemma_meta_enc_bytes(bytes@, pos as int, mv);
            }
            out.push(m);
            proof {
                assert(metas_view(out@) =~= metas_view(prev).push(mv));
                lemma_metas_snoc(metas_view(prev), mv);
                assert(bytes@.subrange(0, newpos as int) =~= bytes@.subrange(0, pos as int)
                    + bytes@.subrange(pos as int, newpos as int));
                assert(bytes@.subrange(0, newpos as int) =~= bytes@.subrange(0, 4)
                    + spec_metas_enc(metas_view(out@)));
                assert(mv == (off as int, (fkey@, fts), (lkey@, lts)));
                assert(fkey@ == bytes@.subrange(pos + 6, pos + 6 + flen as int));
                assert(lkey@ == bytes@.subrange(
                    pos + 16 + flen as int,
                    pos + 16 + flen + llen as int,
                ));
                assert(spec_meta_dec_from(bytes@, pos as int, i as int, count as int) == (
                match spec_meta_dec_from(bytes@, newpos as int, i as int + 1, count as int) {
                    Some(rest) => Some(seq![mv] + rest),
                    None => None::<Seq<(int, (Seq<u8>, u64), (Seq<u8>, u64))>>,
                }));
                if spec_meta_dec_from(bytes@, newpos as int, i as int + 1, count as int)
                    is Some {
                    let rest = spec_meta_dec_from(
                        bytes@,
                        newpos as int,
                        i as int + 1,
                        count as int,
                    )->Some_0;
                    assert(metas_view(prev) + (seq![mv] + rest) =~= metas_view(out@) + rest);
                }
            }
            pos = newpos;
            i += 1;
        }
        if n - pos != 8 {
            proof {
                assert(spec_meta_dec_from(bytes@, pos as int, count as int, count as int)
                    is None);
            }
            return None;
        }
        let ts = crate::encoding::get_u64_be(bytes, pos);
        proof {
            crate::encoding::lemma_u64_roundtrip(ts);
            crate::encoding::lemma_u32_roundtrip(out@.len() as u32);
            assert(metas_view(out@).len() == count);
            assert(bytes@.subrange(0, 4) =~= spec_u32_be(metas_view(out@).len() as u32)) by {
                crate::encoding::lemma_u32_be_of(bytes@, 0);
            }
            assert(bytes@.subrange(pos as int, n as int) =~= spec_u64_be(ts)) by {
                crate::encoding::lemma_u64_be_of(bytes@, pos as int);
            }
            assert(bytes@ =~= bytes@.subrange(0, pos as int) + bytes@.subrange(
                pos as int,
                n as int,
            ));
            assert(bytes@ =~= spec_meta_section(metas_view(out@), ts));
            assert(spec_meta_dec_from(bytes@, pos as int, count as int, count as int)
                == Some(Seq::<(int, (Seq<u8>, u64), (Seq<u8>, u64))>::empty()));
            assert(metas_view(out@) + Seq::<(int, (Seq<u8>, u64), (Seq<u8>, u64))>::empty()
                =~= metas_view(out@));
            assert(bytes@.subrange(n as int - 8, n as int) =~= bytes@.subrange(
                pos as int,
                n as int,
            ));
        }
        Some((out, ts))
    }
}

/// The block area of a table's file: each block's encoding followed by
/// the checksum of those bytes.
pub open spec fn spec_blocks_section(bs: Seq<Seq<(Seq<u8>, u64, Seq<u8>)>>) -> Seq<u8>
    decreases bs.len(),
{
    if bs.len() == 0 {
        Seq::empty()
    } else {
        spec_block_enc(bs[0]) + spec_u32_be(crc32_of(spec_block_enc(bs[0])))
            + spec_blocks_section(bs.skip(1))
    }
}

/// Appending a block appends its checksummed encoding.
#[verifier::rlimit(100)]
proof fn lemma_blocks_section_snoc(bs: Seq<Seq<(Seq<u8>, u64, Seq<u8>)>>, b: Seq<(Seq<u8>, u64, Seq<u8>)>)
    ensures
        spec_blocks_section(bs.push(b)) == spec_blocks_section(bs) + spec_block_enc(b)
            + spec_u32_be(crc32_of(spec_block_enc(b))),
    decreases bs.len(),
{
    if bs.len() == 0 {
        assert(bs.push(b).skip(1) =~= Seq::<Seq<(Seq<u8>, u64, Seq<u8>)>>::empty());
        assert(bs.push(b)[0] == b);
        assert(spec_blocks_section(bs.push(b).skip(1)) == Seq::<u8>::empty());
        assert(spec_blocks_section(bs) == Seq::<u8>::empty());
        assert(spec_blocks_section(bs.push(b)) =~= spec_blocks_section(bs) + spec_block_enc(b)
            + spec_u32_be(crc32_of(spec_block_enc(b))));
    } else {
        assert(bs.push(b).skip(1) =~= bs.skip(1).push(b));
        lemma_blocks_section_snoc(bs.skip(1), b);
        assert(bs.push(b)[0] == bs[0]);
        assert(spec_blocks_section(bs.push(b)) =~= spec_blocks_section(bs) + spec_block_enc(b)
            + spec_u32_be(crc32_of(spec_block_enc(b))));
    }
}

/// A metadata record's encoding is boundedly small when well-formed.
proof fn lemma_metas_enc_len(ms: Seq<(int, (Seq<u8>, u64), (Seq<u8>, u64))>)
    requires
        metas_wf(ms),
    ensures
        spec_metas_enc(ms).len() <= ms.len() * 0x20016,
    decreases ms.len(),
{
    if ms.len() > 0 {
        assert(forall|i: int|
            0 <= i < ms.skip(1).len() ==> #[trigger] ms.skip(1)[i] == ms[i + 1]);
        lemma_metas_enc_len(ms.skip(1));
        assert(spec_meta_enc(ms[0]).len() <= 0x20016);
        assert((ms.len() - 1) * 0x20016 + 0x20016 == ms.len() * 0x20016) by (nonlinear_arith);
    }
}

/// Builds a sorted table from records fed in ascending key order.
pub struct SsTableBuilder {
    pub builder: BlockBuilder,
    pub first_key: KeyVec,
    pub last_key: KeyVec,
    pub data: Vec<u8>,
    pub meta: Vec<BlockMeta>,
    pub block_size: usize,
    pub key_hashes: Vec<u32>,
    pub max_ts: u64,
    pub blocks: Vec<Block>,
    pub all: Vec<Entry>,
}

impl SsTableBuilder {
    /// Everything added so far, in order.
    pub open spec fn view_all(&self) -> Seq<(Seq<u8>, u64, Seq<u8>)> {
        entry_seq_view(self.all@)
    }

    #[verifier::opaque]
    pub open spec fn wf(&self) -> bool {
        &&& self.builder.wf()
        &&& self.builder.block_size == self.block_size
        &&& self.block_size <= 0xFFFD
        &&& self.view_all() == blocks_flat(blocks_view(self.blocks@)) + self.builder.view_entries()
        &&& self.data@ == spec_blocks_section(blocks_view(self.blocks@))
        &&& mem_entries_wf(self.view_all())
        &&& forall|i: int| 0 <= i < self.blocks@.len() ==> block_wf((#[trigger] self.blocks@[i])@)
        &&& self.meta@.len() == self.blocks@.len()
        &&& forall|i: int|
            0 <= i < self.blocks@.len() ==> (#[trigger] self.meta@[i]).first_key@ == entry_key(
                self.blocks@[i]@[0],
            ) && self.meta@[i].last_key@ == entry_key(self.blocks@[i]@.last())
        &&& forall|i: int|
            0 <= i < self.meta@.len() ==> (#[trigger] self.meta@[i]).offset <= self.data@.len()
        &&& self.key_hashes@.len() == self.view_all().len()
        &&& forall|i: int|
            0 <= i < self.view_all().len() ==> self.key_hashes@[i] == crc32_of(
                (#[trigger] self.view_all()[i]).0,
            )
        &&& forall|i: int| 0 <= i < self.view_all().len() ==> (#[trigger] self.view_all()[i]).1
            <= self.max_ts
        &&& (self.view_all().len() > 0 ==> self.last_key@ == entry_key(self.view_all().last()))
    }

    /// An empty builder with the given block byte budget.
    pub fn new(block_size: usize) -> (r: SsTableBuilder)
        requires
            block_size <= 0xFFFD,
        ensures
            r.wf(),
            r.view_all().len() == 0,
            r.block_size == block_size,
            r.builder.view_entries().len() == 0,
            r.meta@.len() == 0,
            r.data@.len() == 0,
            r.max_ts == 0,
    {
        let r = SsTableBuilder {
            builder: BlockBuilder::new(block_size),
            first_key: KeyVec::new(),
            last_key: KeyVec::new(),
            data: Vec::new(),
            meta: Vec::new(),
            block_size,
            key_hashes: Vec::new(),
            max_ts: 0,
            blocks: Vec::new(),
            all: Vec::new(),
        };
        proof {
            reveal(SsTableBuilder::wf);
            assert(entry_seq_view(r.all@) =~= Seq::<(Seq<u8>, u64, Seq<u8>)>::empty());
            assert(blocks_view(r.blocks@) =~= Seq::<Seq<(Seq<u8>, u64, Seq<u8>)>>::empty());
            assert(blocks_flat(blocks_view(r.blocks@)) + r.builder.view_entries()
                =~= entry_seq_view(r.all@));
            assert(spec_blocks_section(blocks_view(r.blocks@)) == Seq::<u8>::empty());
            assert(r.data@ =~= Seq::<u8>::empty());
        }
        r
    }

    /// The bytes of the finished block area so far.
    pub fn estimated_size(&self) -> (r: usize)
        ensures
            r == self.data@.len(),
    {
        self.data.len()
    }

    /// Seal the block being built: encode it, checksum it, record its key
    /// range, and start a new one.
#[verifier::spinoff_prover]
    #[verifier::rlimit(100)]
    #[verifier::spinoff_prover]
    fn finish_block(&mut self)
        requires
            old(self).wf(),
            old(self).builder.view_entries().len() > 0,
            old(self).data@.len() + 0x60000 <= usize::MAX,
            old(self).meta@.len() < usize::MAX,
        ensures
            final(self).wf(),
            final(self).builder.view_entries().len() == 0,
            final(self).view_all() == old(self).view_all(),
            final(self).block_size == old(self).block_size,
            final(self).key_hashes@ == old(self).key_hashes@,
            final(self).max_ts == old(self).max_ts,
            final(self).last_key@ == old(self).last_key@,
            final(self).blocks@.len() == old(self).blocks@.len() + 1,
            final(self).data@.len() <= old(self).data@.len() + 0x60000,
            forall|i: int|
                0 <= i < old(self).meta@.len() ==> final(self).meta@[i] == old(self).meta@[i],
            final(self).meta@.last().offset == old(self).data@.len(),
    {
        proof {
            reveal(SsTableBuilder::wf);
        }
        let mut fresh = BlockBuilder::new(self.block_size);
        core::mem::swap(&mut self.builder, &mut fresh);
        let ghost bes = fresh.view_entries();
        let block = fresh.build();
        let enc = block.encode();
        proof {
            crate::block::lemma_block_enc_len(bes);
        }
        let checksum = crate::hashes::crc32(enc.as_slice());
        let m = BlockMeta {
            offset: self.data.len(),
            first_key: block.entries[0].key.clone(),
            last_key: block.entries[block.entries.len() - 1].key.clone(),
        };
        proof {
            assert(block@[0] == block.entries@[0]@);
            assert(block@.last() == block.entries@[block.entries@.len() - 1]@);
        }
        self.meta.push(m);
        put_bytes(&mut self.data, enc.as_slice());
        put_u32_be(&mut self.data, checksum);
        let ghost oldblocks = self.blocks@;
        self.blocks.push(block);
        self.first_key = KeyVec::new();
        proof {
            assert forall|i2: int|
                0 <= i2 < self.meta@.len() implies (#[trigger] self.meta@[i2]).offset
                <= self.data@.len() by {
                if i2 < old(self).meta@.len() {
                    assert(self.meta@[i2] == old(self).meta@[i2]);
                }
            }
            assert(blocks_view(self.blocks@) =~= blocks_view(oldblocks).push(bes));
            lemma_flat_snoc(blocks_view(oldblocks), bes);
            assert(self.view_all() =~= blocks_flat(blocks_view(self.blocks@))
                + self.builder.view_entries());
            assert(self.data@ == spec_blocks_section(blocks_view(self.blocks@))) by {
                lemma_blocks_section_snoc(blocks_view(oldblocks), bes);
                assert(enc@ == spec_block_enc(bes));
                assert(checksum == crc32_of(spec_block_enc(bes)));
                assert(self.data@ =~= spec_blocks_section(blocks_view(oldblocks))
                    + spec_block_enc(bes) + spec_u32_be(crc32_of(spec_block_enc(bes))));
            }
            assert forall|i: int|
                0 <= i < self.blocks@.len() implies block_wf(
                (#[trigger] self.blocks@[i])@,
            ) by {
                if i < oldblocks.len() {
                    assert(self.blocks@[i] == oldblocks[i]);
                }
            }
            assert forall|i: int|
                0 <= i < self.blocks@.len() implies (#[trigger] self.meta@[i]).first_key@
                == entry_key(self.blocks@[i]@[0]) && self.meta@[i].last_key@ == entry_key(
                self.blocks@[i]@.last(),
            ) by {
                if i < oldblocks.len() {
                    assert(self.blocks@[i] == oldblocks[i]);
                    assert(self.meta@[i] == old(self).meta@[i]);
                }
            }
        }
    }

    /// Feed the next record; keys must arrive in strictly ascending order.
    /// When the current block is full it is sealed and the record opens a
    /// new one.
#[verifier::spinoff_prover]
    #[verifier::rlimit(100)]
    pub fn add(&mut self, key: &KeyVec, value: &Vec<u8>)
        requires
            old(self).wf(),
            mem_entry_wf((key@.0, key@.1, value@)),
            old(self).view_all().len() > 0 ==> key_lt(
                entry_key(old(self).view_all().last()),
                key@,
            ),
            old(self).view_all().len() < 0xFFFFFFF,
            old(self).builder.view_entries().len() < 0xFFFF,
            old(self).data@.len() + 0x60000 <= usize::MAX,
            old(self).meta@.len() < usize::MAX,
        ensures
            final(self).wf(),
            final(self).view_all() == old(self).view_all().push((key@.0, key@.1, value@)),
            final(self).block_size == old(self).block_size,
            final(self).builder.view_entries().len() <= old(self).builder.view_entries().len()
                + 1,
            final(self).builder.view_entries().len() < 0xFFFF,
            final(self).meta@.len() <= old(self).meta@.len() + 1,
            final(self).data@.len() <= old(self).data@.len() + 0x60000,
            final(self).max_ts == (if key@.1 > old(self).max_ts {
                key@.1
            } else {
                old(self).max_ts
            }),
    {
        proof {
            reveal(SsTableBuilder::wf);
            reveal(crate::block::BlockBuilder::wf);
        }
        let ghost e = (key@.0, key@.1, value@);
        proof {
            if old(self).builder.view_entries().len() > 0 {
                lemma_last_of_concat(
                    blocks_flat(blocks_view(self.blocks@)),
                    self.builder.view_entries(),
                );
            }
        }
        let taken = self.builder.add(key, value);
        if !taken {
            self.finish_block();
            let taken2 = self.builder.add(key, value);
            proof {
                assert(taken2);
            }
        }
        if self.max_ts < key.ts() {
            self.max_ts = key.ts();
        }
        self.key_hashes.push(crate::hashes::crc32(key.bytes.as_slice()));
        let ghost oldall = entry_seq_view(self.all@);
        let ghost pre_blocks = blocks_view(self.blocks@);
        let ghost pre_builder = self.builder.view_entries();
        self.all.push(Entry { key: key.clone(), value: value.clone() });
        self.last_key = key.clone();
        proof {
            assert(entry_seq_view(self.all@) =~= oldall.push(e));
            assert(pre_builder.len() > 0 && pre_builder.last() == e);
            assert(oldall == blocks_flat(pre_blocks) + pre_builder.drop_last()) by {
                assert(pre_builder.drop_last() =~= pre_builder.take(pre_builder.len() - 1));
                assert(oldall =~= blocks_flat(pre_blocks) + pre_builder.drop_last());
            }
            lemma_add_wf(
                oldall,
                e,
                pre_blocks,
                pre_builder,
                self.key_hashes@,
                self.max_ts,
            );
        }
    }

    /// Finish the table: seal the last block, append the metadata section,
    /// build and append the filter, and record the two trailer offsets.
#[verifier::spinoff_prover]
    #[verifier::rlimit(100)]
    pub fn build(self, id: usize) -> (r: SsTable)
        requires
            self.wf(),
            self.view_all().len() > 0,
            self.view_all().len() <= 0xFFFFFF,
            self.data@.len() + 0x60000 <= 0xFFFFFFFF,
            self.meta@.len() < usize::MAX,
            self.data@.len() + 0x60000 + (self.meta@.len() + 1) * 0x20016 + (self.view_all().len()
                * 10 + 71) / 8 + 64 <= 0xFFFFFFFF,
        ensures
            r.wf(),
            r.view_entries() == self.view_all(),
            r.id == id,
            r.max_ts == self.max_ts,
            r.block_meta_offset == spec_blocks_section(blocks_view(r.blocks@)).len(),
            r.file@ == spec_blocks_section(blocks_view(r.blocks@)) + spec_meta_section(
                metas_view(r.meta@),
                r.max_ts,
            ) + spec_u32_be(r.block_meta_offset as u32) + r.bloom.filter@.push(r.bloom.k)
                + spec_u32_be(
                (r.block_meta_offset + spec_meta_section(metas_view(r.meta@), r.max_ts).len()
                    + 4) as u32,
            ),
    {
        proof {
            reveal(SsTableBuilder::wf);
        }
        let mut this = self;
        let ghost pre_metas = this.meta@;
        let ghost old_meta_len = this.meta@.len() as int;
        if !this.builder.is_empty() {
            this.finish_block();
        }
        proof {
            assert(this.view_all() =~= blocks_flat(blocks_view(this.blocks@)));
            assert(this.blocks@.len() > 0) by {
                if this.blocks@.len() == 0 {
                    assert(blocks_view(this.blocks@) =~= Seq::<
                        Seq<(Seq<u8>, u64, Seq<u8>)>,
                    >::empty());
                }
            }
        }
        let bloom = Bloom::build_from_key_hashes(&this.key_hashes, 10);
        let mut file = this.data;
        let meta_offset = file.len();
        let metas = this.meta;
        proof {
            assert(metas_wf(metas_view(metas@))) by {
                assert forall|i: int|
                    0 <= i < blocks_view(this.blocks@).len() implies (#[trigger] blocks_view(
                    this.blocks@,
                )[i]).len() > 0 by {
                    assert(block_wf(this.blocks@[i]@));
                }
                assert forall|i: int|
                    0 <= i < metas_view(metas@).len() implies 0 <= (
                #[trigger] metas_view(metas@)[i]).0 <= 0xFFFFFFFF by {
                    assert(metas@[i].offset <= this.data@.len());
                }
                lemma_flat_covers(blocks_view(this.blocks@));
                let flat = blocks_flat(blocks_view(this.blocks@));
                assert forall|i: int|
                    0 <= i < metas_view(metas@).len() implies 0 <= (
                #[trigger] metas_view(metas@)[i]).0 <= 0xFFFFFFFF && metas_view(
                    metas@,
                )[i].1.0.len() <= 0xFFFF && metas_view(metas@)[i].2.0.len() <= 0xFFFF by {
                    let bv = blocks_view(this.blocks@);
                    assert(metas_view(metas@)[i] == meta_view(metas@[i]));
                    assert(flat.contains(bv[i][0]));
                    let j = choose|j: int| 0 <= j < flat.len() && flat[j] == bv[i][0];
                    assert(mem_entry_wf(flat[j]));
                    assert(flat.contains(bv[i].last()));
                    let j2 = choose|j2: int| 0 <= j2 < flat.len() && flat[j2] == bv[i].last();
                    assert(mem_entry_wf(flat[j2]));
                }
            }
        }
        let ghost gsec = spec_blocks_section(blocks_view(this.blocks@));
        let ghost gms = metas_view(metas@);
        proof {
            assert(file@ == gsec);
            lemma_metas_enc_len(gms);
            assert((this.meta@.len()) * 0x20016 <= (self.meta@.len() + 1) * 0x20016)
                by (nonlinear_arith)
                requires
                    this.meta@.len() <= self.meta@.len() + 1,
            ;
        }
        BlockMeta::encode_block_meta(&metas, this.max_ts, &mut file);
        put_u32_be(&mut file, meta_offset as u32);
        let bloom_offset = file.len();
        proof {
            assert(file@ == gsec + spec_meta_section(gms, this.max_ts) + spec_u32_be(
                meta_offset as u32,
            ));
            assert(bloom_offset == gsec.len() + spec_meta_section(gms, this.max_ts).len() + 4);
            assert(bloom_offset <= 0xFFFFFFFF);
        }
        let bloom_bytes = bloom.encode();
        put_bytes(&mut file, bloom_bytes.as_slice());
        put_u32_be(&mut file, bloom_offset as u32);
        let first_key = this.all[0].key.clone();
        let last_key = this.all[this.all.len() - 1].key.clone();
        let r = SsTable {
            id,
            file,
            blocks: this.blocks,
            meta: metas,
            block_meta_offset: meta_offset,
            bloom,
            first_key,
            last_key,
            max_ts: this.max_ts,
            entries: this.all,
        };
        proof {
            assert(r.first_key@ == entry_key(r.view_entries()[0]));
            assert(r.last_key@ == entry_key(r.view_entries().last()));
            lemma_table_wf(r, this.key_hashes@);
            assert(r.file@ == gsec + spec_meta_section(gms, r.max_ts) + spec_u32_be(
                r.block_meta_offset as u32,
            ) + r.bloom.filter@.push(r.bloom.k) + spec_u32_be(
                (r.block_meta_offset + spec_meta_section(gms, r.max_ts).len() + 4) as u32,
            )) by {
                assert(bloom_bytes@ == r.bloom.filter@.push(r.bloom.k));
                assert(r.file@ =~= gsec + spec_meta_section(gms, r.max_ts) + spec_u32_be(
                    r.block_meta_offset as u32,
                ) + r.bloom.filter@.push(r.bloom.k) + spec_u32_be(bloom_offset as u32));
            }
        }
        r
    }
}

/// Assemble a finished table's well-formedness from its parts.
#[verifier::rlimit(100)]
proof fn lemma_table_wf(t: SsTable, hashes: Seq<u32>)
    requires
        t.view_entries().len() > 0,
        mem_entries_wf(t.view_entries()),
        t.view_entries() == blocks_flat(blocks_view(t.blocks@)),
        forall|i: int| 0 <= i < t.blocks@.len() ==> (#[trigger] t.blocks@[i])@.len() > 0,
        t.meta@.len() == t.blocks@.len(),
        forall|i: int|
            0 <= i < t.blocks@.len() ==> (#[trigger] t.meta@[i]).first_key@ == entry_key(
                t.blocks@[i]@[0],
            ) && t.meta@[i].last_key@ == entry_key(t.blocks@[i]@.last()),
        t.bloom.wf(),
        hashes.len() == t.view_entries().len(),
        forall|i: int|
            0 <= i < t.view_entries().len() ==> hashes[i] == crc32_of(
                (#[trigger] t.view_entries()[i]).0,
            ),
        forall|i: int|
            0 <= i < hashes.len() ==> spec_may_contain(
                t.bloom.filter@,
                t.bloom.k,
                #[trigger] hashes[i],
            ),
        t.first_key@ == entry_key(t.view_entries()[0]),
        t.last_key@ == entry_key(t.view_entries().last()),
        forall|i: int| 0 <= i < t.view_entries().len() ==> (#[trigger] t.view_entries()[i]).1
            <= t.max_ts,
    ensures
        t.wf(),
{
    reveal(SsTable::wf);
    assert forall|i: int|
        0 <= i < t.view_entries().len() implies spec_may_contain(
        t.bloom.filter@,
        t.bloom.k,
        crc32_of((#[trigger] t.view_entries()[i]).0),
    ) by {
        assert(hashes[i] == crc32_of(t.view_entries()[i].0));
    }
}

/// The last record of a concatenation with a non-empty right part is the
/// right part's last.
proof fn lemma_last_of_concat(a: Seq<(Seq<u8>, u64, Seq<u8>)>, b: Seq<(Seq<u8>, u64, Seq<u8>)>)
    requires
        b.len() > 0,
    ensures
        (a + b).last() == b.last(),
{
    assert((a + b).last() == (a + b)[a.len() + b.len() - 1]);
}

/// Pushing a strictly greater key keeps a table run sorted.
proof fn lemma_sorted_push_table(es: Seq<(Seq<u8>, u64, Seq<u8>)>, e: (Seq<u8>, u64, Seq<u8>))
    requires
        entries_sorted(es),
        es.len() > 0 ==> key_lt(entry_key(es.last()), entry_key(e)),
    ensures
        entries_sorted(es.push(e)),
{
    let es2 = es.push(e);
    assert forall|i: int, j: int|
        0 <= i < j < es2.len() implies key_lt(entry_key(#[trigger] es2[i]), entry_key(
        #[trigger] es2[j],
    )) by {
        if j == es2.len() - 1 {
            if i < es.len() - 1 {
                crate::key::lemma_key_lt_trans(
                    entry_key(es[i]),
                    entry_key(es.last()),
                    entry_key(e),
                );
            }
        }
    }
}

/// Re-establish the builder's shape after taking one more record.
#[verifier::rlimit(100)]
proof fn lemma_add_wf(
    oldall: Seq<(Seq<u8>, u64, Seq<u8>)>,
    e: (Seq<u8>, u64, Seq<u8>),
    blocks: Seq<Seq<(Seq<u8>, u64, Seq<u8>)>>,
    builder2: Seq<(Seq<u8>, u64, Seq<u8>)>,
    hashes: Seq<u32>,
    max_ts: u64,
)
    requires
        oldall == blocks_flat(blocks) + builder2.drop_last(),
        builder2.len() > 0,
        builder2.last() == e,
        mem_entries_wf(oldall),
        mem_entry_wf(e),
        oldall.len() > 0 ==> key_lt(entry_key(oldall.last()), entry_key(e)),
        hashes.len() == oldall.len() + 1,
        hashes.last() == crc32_of(e.0),
        forall|i: int|
            0 <= i < oldall.len() ==> hashes[i] == crc32_of((#[trigger] oldall[i]).0),
        forall|i: int| 0 <= i < oldall.len() ==> (#[trigger] oldall[i]).1 <= max_ts,
        e.1 <= max_ts,
    ensures
        oldall.push(e) == blocks_flat(blocks) + builder2,
        mem_entries_wf(oldall.push(e)),
        forall|i: int|
            0 <= i < oldall.push(e).len() ==> hashes[i] == crc32_of(
                (#[trigger] oldall.push(e)[i]).0,
            ),
        forall|i: int| 0 <= i < oldall.push(e).len() ==> (#[trigger] oldall.push(e)[i]).1
            <= max_ts,
        oldall.push(e).last() == e,
{
    let na = oldall.push(e);
    assert(na =~= blocks_flat(blocks) + builder2) by {
        assert(builder2 =~= builder2.drop_last().push(e));
    }
    lemma_sorted_push_table(oldall, e);
    assert forall|i: int| 0 <= i < na.len() implies mem_entry_wf(#[trigger] na[i]) by {
        if i < oldall.len() {
            assert(na[i] == oldall[i]);
        }
    }
    assert forall|i: int|
        0 <= i < na.len() implies hashes[i] == crc32_of((#[trigger] na[i]).0) by {
        if i < oldall.len() {
            assert(na[i] == oldall[i]);
        }
    }
    assert forall|i: int| 0 <= i < na.len() implies (#[trigger] na[i]).1 <= max_ts by {
        if i < oldall.len() {
            assert(na[i] == oldall[i]);
        }
    }
}

/// Every block's first and last record stand in the flattened run, which
/// is at least as long as the block list when no block is empty.
proof fn lemma_flat_covers(bs: Seq<Seq<(Seq<u8>, u64, Seq<u8>)>>)
    requires
        forall|i: int| 0 <= i < bs.len() ==> (#[trigger] bs[i]).len() > 0,
    ensures
        blocks_flat(bs).len() >= bs.len(),
        forall|i: int|
            0 <= i < bs.len() ==> blocks_flat(bs).contains(#[trigger] bs[i][0]) && blocks_flat(
                bs,
            ).contains(bs[i].last()),
    decreases bs.len(),
{
    if bs.len() > 0 {
        assert(forall|i: int| 0 <= i < bs.skip(1).len() ==> #[trigger] bs.skip(1)[i] == bs[i + 1]);
        lemma_flat_covers(bs.skip(1));
        let f = blocks_flat(bs);
        let fr = blocks_flat(bs.skip(1));
        assert forall|i: int|
            0 <= i < bs.len() implies f.contains(#[trigger] bs[i][0]) && f.contains(
            bs[i].last(),
        ) by {
            if i == 0 {
                assert(f[0] == bs[0][0]);
                assert(f[bs[0].len() - 1] == bs[0].last());
            } else {
                assert(fr.contains(bs.skip(1)[i - 1][0]));
                let j = choose|j: int| 0 <= j < fr.len() && fr[j] == bs.skip(1)[i - 1][0];
                assert(f[bs[0].len() + j] == fr[j]);
                assert(fr.contains(bs.skip(1)[i - 1].last()));
                let j2 = choose|j2: int| 0 <= j2 < fr.len() && fr[j2] == bs.skip(1)[i - 1].last();
                assert(f[bs[0].len() + j2] == fr[j2]);
                assert(bs.skip(1)[i - 1] == bs[i]);
            }
        }
    }
}

/// Is the run strictly sorted, with every record's key non-empty and
/// log-sized, its value log-sized, and its timestamp at most `max_ts`?
fn validate_run(entries: &Vec<Entry>, max_ts: u64) -> (r: bool)
    ensures
        r ==> mem_entries_wf(entry_seq_view(entries@)),
        r ==> forall|i: int|
            0 <= i < entry_seq_view(entries@).len() ==> (#[trigger] entry_seq_view(
                entries@,
            )[i]).1 <= max_ts,
{
    let ghost es = entry_seq_view(entries@);
    let mut i: usize = 0;
    while i < entries.len()
        invariant
            0 <= i <= entries@.len(),
            es == entry_seq_view(entries@),
            forall|t: int| 0 <= t < i ==> mem_entry_wf(#[trigger] es[t]) && es[t].1 <= max_ts,
            forall|t: int|
                1 <= t < i ==> key_lt(entry_key(#[trigger] es[t - 1]), entry_key(es[t])),
        decreases entries@.len() - i,
    {
        let e = &entries[i];
        if e.key.key_len() < 1 || e.key.key_len() > 0xFFFF || e.value.len() > 0xFFFF
            || e.key.ts() > max_ts {
            return false;
        }
        if i > 0 {
            if crate::key::key_cmp(&entries[i - 1].key, &e.key) != -1 {
                return false;
            }
        }
        i += 1;
    }
    proof {
        crate::key::lemma_adjacent_sorted(es);
    }
    true
}

/// An immutable sorted table: the file image, its decoded blocks, and the
/// flat run they hold.
pub struct SsTable {
    pub id: usize,
    pub file: Vec<u8>,
    pub blocks: Vec<Block>,
    pub meta: Vec<BlockMeta>,
    pub block_meta_offset: usize,
    pub bloom: Bloom,
    pub first_key: KeyVec,
    pub last_key: KeyVec,
    pub max_ts: u64,
    pub entries: Vec<Entry>,
}

impl SsTable {
    /// The table's records, in order.
    pub open spec fn view_entries(&self) -> Seq<(Seq<u8>, u64, Seq<u8>)> {
        entry_seq_view(self.entries@)
    }

    #[verifier::opaque]
    pub open spec fn wf(&self) -> bool {
        &&& self.view_entries().len() > 0
        &&& mem_entries_wf(self.view_entries())
        &&& self.view_entries() == blocks_flat(blocks_view(self.blocks@))
        &&& forall|i: int| 0 <= i < self.blocks@.len() ==> (#[trigger] self.blocks@[i])@.len() > 0
        &&& self.meta@.len() == self.blocks@.len()
        &&& forall|i: int|
            0 <= i < self.blocks@.len() ==> (#[trigger] self.meta@[i]).first_key@ == entry_key(
                self.blocks@[i]@[0],
            ) && self.meta@[i].last_key@ == entry_key(self.blocks@[i]@.last())
        &&& self.bloom.wf()
        &&& forall|i: int|
            0 <= i < self.view_entries().len() ==> spec_may_contain(
                self.bloom.filter@,
                self.bloom.k,
                crc32_of((#[trigger] self.view_entries()[i]).0),
            )
        &&& self.first_key@ == entry_key(self.view_entries()[0])
        &&& self.last_key@ == entry_key(self.view_entries().last())
        &&& forall|i: int| 0 <= i < self.view_entries().len() ==> (
        #[trigger] self.view_entries()[i]).1 <= self.max_ts
    }

    /// The number of data blocks.
    pub fn num_of_blocks(&self) -> (r: usize)
        ensures
            r == self.blocks@.len(),
    {
        self.blocks.len()
    }

    pub fn first_key(&self) -> (r: &KeyVec)
        ensures
            r@ == self.first_key@,
    {
        &self.first_key
    }

    pub fn last_key(&self) -> (r: &KeyVec)
        ensures
            r@ == self.last_key@,
    {
        &self.last_key
    }

    /// The size of the table's file image.
    pub fn table_size(&self) -> (r: usize)
        ensures
            r == self.file@.len(),
    {
        self.file.len()
    }

    pub fn sst_id(&self) -> (r: usize)
        ensures
            r == self.id,
    {
        self.id
    }

    pub fn max_ts(&self) -> (r: u64)
        ensures
            r == self.max_ts,
    {
        self.max_ts
    }

    /// The decoded block at `block_idx` — blocks are decoded once, when
    /// the table is built or opened, and served from memory after that.
    pub fn read_block(&self, block_idx: usize) -> (r: &Block)
        requires
            block_idx < self.blocks@.len(),
        ensures
            r == self.blocks@[block_idx as int],
    {
        &self.blocks[block_idx]
    }

    /// As `read_block`; the in-memory decoded blocks are the cache, fully
    /// warm, so a lookup never decodes twice.
    pub fn read_block_cached(&self, block_idx: usize) -> (r: &Block)
        requires
            block_idx < self.blocks@.len(),
        ensures
            r == self.blocks@[block_idx as int],
    {
        &self.blocks[block_idx]
    }

    /// The first block whose key range could hold `key`: the first whose
    /// last key is not below it.
    pub fn find_block_idx(&self, key: &KeyVec) -> (r: usize)
        requires
            self.wf(),
        ensures
            r <= self.meta@.len(),
            forall|i: int|
                0 <= i < r ==> key_lt((#[trigger] self.meta@[i]).last_key@, key@),
            r < self.meta@.len() ==> !key_lt(self.meta@[r as int].last_key@, key@),
            (exists|i: int|
                0 <= i < self.meta@.len() && !key_lt(
                    (#[trigger] self.meta@[i]).last_key@,
                    key@,
                )) ==> r < self.meta@.len(),
    {
        proof {
            reveal(SsTable::wf);
        }
        let n = self.meta.len();
        let mut i: usize = 0;
        while i < n
            invariant
                0 <= i <= n == self.meta@.len(),
                forall|t: int|
                    0 <= t < i ==> key_lt((#[trigger] self.meta@[t]).last_key@, key@),
            decreases n - i,
        {
            if crate::key::key_cmp(&self.meta[i].last_key, key) != -1 {
                proof {
                    lemma_key_order_total(self.meta@[i as int].last_key@, key@);
                }
                return i;
            }
            i += 1;
        }
        n
    }

    /// Rebuild a table from its file image. Everything is validated: the
    /// trailer offsets, the metadata section, each block's checksum and
    /// encoding, the run's order and sizes, and the metadata's key
    /// ranges. The membership filter is rebuilt from the parsed keys, so
    /// its no-false-negative guarantee is proved of the result rather
    /// than assumed of the file's bytes.
    #[verifier::spinoff_prover]
    #[verifier::rlimit(100)]
    pub fn open(id: usize, file: &[u8]) -> (r: Result<SsTable, &'static str>)
        ensures
            r matches Ok(t) ==> t.wf() && t.id == id && t.file@ == file@,
    {
        let n = file.len();
        if n < 8 {
            return Err("table file too short");
        }
        let bloom_offset = crate::encoding::get_u32_be(file, n - 4) as usize;
        if bloom_offset < 4 || bloom_offset > n - 4 {
            return Err("bad filter offset");
        }
        let meta_offset = crate::encoding::get_u32_be(file, bloom_offset - 4) as usize;
        if meta_offset > bloom_offset - 4 {
            return Err("bad metadata offset");
        }
        // The stored filter must at least decode; its bits are not relied
        // on — the filter is rebuilt from the parsed keys below.
        let bloom_bytes = crate::encoding::copy_range(file, bloom_offset, n - 4 - bloom_offset);
        if bloom_bytes.len() == 0 {
            return Err("bad filter section");
        }
        let stored_bloom = Bloom::decode(bloom_bytes.as_slice());
        if stored_bloom.is_none() {
            return Err("bad filter section");
        }
        let meta_bytes = crate::encoding::copy_range(
            file,
            meta_offset,
            bloom_offset - 4 - meta_offset,
        );
        let decoded_meta = BlockMeta::decode_block_meta(meta_bytes.as_slice());
        let (metas, max_ts) = match decoded_meta {
            Some(x) => x,
            None => {
                return Err("bad metadata section");
            },
        };
        if metas.len() == 0 {
            return Err("table has no blocks");
        }
        // Decode every block behind its checksum and collect the run.
        let mut blocks: Vec<Block> = Vec::new();
        let mut entries: Vec<Entry> = Vec::new();
        let mut bi: usize = 0;
        proof {
            assert(blocks_view(blocks@) =~= Seq::<Seq<(Seq<u8>, u64, Seq<u8>)>>::empty());
            assert(entry_seq_view(entries@) =~= Seq::<(Seq<u8>, u64, Seq<u8>)>::empty());
            assert(entry_seq_view(entries@) =~= blocks_flat(blocks_view(blocks@)));
        }
        while bi < metas.len()
            invariant
                0 <= bi <= metas@.len(),
                n == file@.len(),
                meta_offset <= n,
                blocks@.len() == bi,
                metas@.len() >= 1,
                entry_seq_view(entries@) == blocks_flat(blocks_view(blocks@)),
                forall|t: int| 0 <= t < bi ==> (#[trigger] blocks@[t])@.len() > 0,
                forall|t: int|
                    0 <= t < bi ==> (#[trigger] metas@[t]).first_key@ == entry_key(
                        blocks@[t]@[0],
                    ) && metas@[t].last_key@ == entry_key(blocks@[t]@.last()),
            decreases metas@.len() - bi,
        {
            let start = metas[bi].offset;
            let end = if bi + 1 < metas.len() {
                metas[bi + 1].offset
            } else {
                meta_offset
            };
            if start > end || end - start < 5 || end > meta_offset {
                return Err("bad block bounds");
            }
            let enc = crate::encoding::copy_range(file, start, end - start - 4);
            let stored = crate::encoding::get_u32_be(file, end - 4);
            if stored != crate::hashes::crc32(enc.as_slice()) {
                return Err("block checksum mismatched");
            }
            let block = match Block::decode(enc.as_slice()) {
                Some(b) => b,
                None => {
                    return Err("bad block encoding");
                },
            };
            if block.entries.len() == 0 {
                return Err("empty block");
            }
            let first_ok = crate::key::key_cmp(&metas[bi].first_key, &block.entries[0].key)
                == 0;
            let last_ok = crate::key::key_cmp(
                &metas[bi].last_key,
                &block.entries[block.entries.len() - 1].key,
            ) == 0;
            if !first_ok || !last_ok {
                return Err("metadata key range mismatched");
            }
            let ghost prev_blocks = blocks@;
            let ghost prev_entries = entries@;
            let ghost bes = block@;
            let mut seg = copy_entries(&block.entries);
            proof {
                assert(block@[0] == block.entries@[0]@);
                assert(block@.last() == block.entries@[block.entries@.len() - 1]@);
            }
            blocks.push(block);
            entries.append(&mut seg);
            proof {
                assert(blocks_view(blocks@) =~= blocks_view(prev_blocks).push(bes));
                lemma_flat_snoc(blocks_view(prev_blocks), bes);
                assert(entry_seq_view(entries@) =~= entry_seq_view(prev_entries) + bes) by {
                    assert forall|z: int|
                        0 <= z < entries@.len() implies entry_seq_view(entries@)[z]
                        == (entry_seq_view(prev_entries) + bes)[z] by {
                        if z < prev_entries.len() {
                            assert(entries@[z] == prev_entries[z]);
                        }
                    }
                }
                assert(entry_seq_view(entries@) =~= blocks_flat(blocks_view(blocks@)));
                assert forall|t: int|
                    0 <= t < blocks@.len() implies (#[trigger] blocks@[t])@.len() > 0 by {
                    if t < prev_blocks.len() {
                        assert(blocks@[t] == prev_blocks[t]);
                    }
                }
                assert forall|t: int|
                    0 <= t < blocks@.len() implies (#[trigger] metas@[t]).first_key@ == entry_key(
                    blocks@[t]@[0],
                ) && metas@[t].last_key@ == entry_key(blocks@[t]@.last()) by {
                    if t < prev_blocks.len() {
                        assert(blocks@[t] == prev_blocks[t]);
                    }
                }
            }
            bi += 1;
        }
        // The run must be strictly sorted, with log-sized records whose
        // timestamps the metadata's maximum covers.
        if !validate_run(&entries, max_ts) {
            return Err("table records out of order or oversized");
        }
        proof {
            assert forall|t: int|
                0 <= t < blocks_view(blocks@).len() implies (#[trigger] blocks_view(
                blocks@,
            )[t]).len() > 0 by {
                assert(blocks@[t]@.len() > 0);
            }
            lemma_flat_covers(blocks_view(blocks@));
        }
        // Rebuild the filter from the parsed keys.
        let mut hashes: Vec<u32> = Vec::new();
        let mut hi: usize = 0;
        if entries.len() > 0xFFFFFF {
            return Err("table too large");
        }
        while hi < entries.len()
            invariant
                0 <= hi <= entries@.len(),
                hashes@.len() == hi,
                forall|t: int|
                    0 <= t < hi ==> hashes@[t] == crc32_of(
                        (#[trigger] entry_seq_view(entries@)[t]).0,
                    ),
            decreases entries@.len() - hi,
        {
            let h = crate::hashes::crc32(entries[hi].key.bytes.as_slice());
            hashes.push(h);
            hi += 1;
        }
        let bloom = Bloom::build_from_key_hashes(&hashes, 10);
        let first_key = entries[0].key.clone();
        let last_key = entries[entries.len() - 1].key.clone();
        let file_copy = crate::encoding::copy_range(file, 0, n);
        proof {
            assert(file@.subrange(0, n as int) =~= file@);
        }
        let t = SsTable {
            id,
            file: file_copy,
            blocks,
            meta: metas,
            block_meta_offset: meta_offset,
            bloom,
            first_key,
            last_key,
            max_ts,
            entries,
        };
        proof {
            assert(t.view_entries().len() > 0);
            assert(t.first_key@ == entry_key(t.view_entries()[0]));
            assert(t.last_key@ == entry_key(t.view_entries().last()));
            lemma_table_wf(t, hashes@);
        }
        Ok(t)
    }

    /// An owned cursor over the whole table.
    pub fn iter(&self) -> (r: MemTableIter)
        requires
            self.wf(),
        ensures
            r.wf(),
            r.remaining() == self.view_entries(),
    {
        let cursor = MemTableIter { entries: copy_entries(&self.entries), pos: 0 };
        proof {
            assert(cursor.remaining() =~= self.view_entries());
        }
        cursor
    }
}

/// An owned copy of a record vector.
pub fn copy_entries(v: &Vec<Entry>) -> (r: Vec<Entry>)
    ensures
        entry_seq_view(r@) == entry_seq_view(v@),
{
    let mut out: Vec<Entry> = Vec::new();
    let mut i: usize = 0;
    proof {
        assert(entry_seq_view(out@) =~= entry_seq_view(v@).take(0));
    }
    while i < v.len()
        invariant
            0 <= i <= v@.len(),
            entry_seq_view(out@) == entry_seq_view(v@).take(i as int),
        decreases v@.len() - i,
    {
        let ghost prev = out@;
        let c = v[i].clone();
        proof {
            assert(c@ == v@[i as int]@);
        }
        out.push(c);
        proof {
            assert(entry_seq_view(prev).len() == prev.len());
            assert forall|z: int|
                0 <= z < out@.len() implies entry_seq_view(out@)[z] == entry_seq_view(v@).take(
                i + 1,
            )[z] by {
                if z < i {
                    assert(out@[z] == prev[z]);
                    assert(entry_seq_view(prev)[z] == entry_seq_view(v@).take(i as int)[z]);
                } else {
                    assert(out@[z] == c);
                }
            }
            assert(entry_seq_view(out@) =~= entry_seq_view(v@).take(i + 1));
        }
        i += 1;
    }
    proof {
        assert(entry_seq_view(v@).take(v@.len() as int) =~= entry_seq_view(v@));
    }
    out
}

} // verus!
