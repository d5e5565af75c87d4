//! Big-endian integer encoding shared by the block, table, log and
//! manifest formats.

use vstd::prelude::*;

verus! {

/// The two big-endian bytes of a `u16`.
pub open spec fn spec_u16_be(v: u16) -> Seq<u8> {
    seq![(v / 256) as u8, (v % 256) as u8]
}

/// The four big-endian bytes of a `u32`.
pub open spec fn spec_u32_be(v: u32) -> Seq<u8> {
    seq![
        ((v / 0x1000000) % 256) as u8,
        ((v / 0x10000) % 256) as u8,
        ((v / 0x100) % 256) as u8,
        (v % 256) as u8,
    ]
}

/// The eight big-endian bytes of a `u64`.
pub open spec fn spec_u64_be(v: u64) -> Seq<u8> {
    seq![
        ((v / 0x100000000000000) % 256) as u8,
        ((v / 0x1000000000000) % 256) as u8,
        ((v / 0x10000000000) % 256) as u8,
        ((v / 0x100000000) % 256) as u8,
        ((v / 0x1000000) % 256) as u8,
        ((v / 0x10000) % 256) as u8,
        ((v / 0x100) % 256) as u8,
        (v % 256) as u8,
    ]
}

/// The `u16` denoted by two big-endian bytes.
pub open spec fn spec_u16_of(b0: u8, b1: u8) -> u16 {
    (b0 * 256 + b1) as u16
}

/// The `u32` denoted by four big-endian bytes.
pub open spec fn spec_u32_of(b0: u8, b1: u8, b2: u8, b3: u8) -> u32 {
    (b0 * 0x1000000 + b1 * 0x10000 + b2 * 0x100 + b3) as u32
}

/// The `u64` denoted by eight big-endian bytes, given as a sub-sequence.
pub open spec fn spec_u64_of(b: Seq<u8>) -> u64
    recommends
        b.len() == 8,
{
    (b[0] * 0x100000000000000 + b[1] * 0x1000000000000 + b[2] * 0x10000000000 + b[3] * 0x100000000
        + b[4] * 0x1000000 + b[5] * 0x10000 + b[6] * 0x100 + b[7]) as u64
}

/// Decoding inverts encoding for `u16`.
pub proof fn lemma_u16_roundtrip(v: u16)
    ensures
        spec_u16_of(spec_u16_be(v)[0], spec_u16_be(v)[1]) == v,
{
}

/// Decoding inverts encoding for `u32`.
pub proof fn lemma_u32_roundtrip(v: u32)
    ensures
        spec_u32_of(spec_u32_be(v)[0], spec_u32_be(v)[1], spec_u32_be(v)[2], spec_u32_be(v)[3])
            == v,
{
}

/// Decoding inverts encoding for `u64`.
pub proof fn lemma_u64_roundtrip(v: u64)
    ensures
        spec_u64_of(spec_u64_be(v)) == v,
{
    assert((((v / 0x100000000000000) % 256) as u8 as u64) * 0x100000000000000 + (((v
        / 0x1000000000000) % 256) as u8 as u64) * 0x1000000000000 + (((v / 0x10000000000)
        % 256) as u8 as u64) * 0x10000000000 + (((v / 0x100000000) % 256) as u8 as u64)
        * 0x100000000 + (((v / 0x1000000) % 256) as u8 as u64) * 0x1000000 + (((v / 0x10000)
        % 256) as u8 as u64) * 0x10000 + (((v / 0x100) % 256) as u8 as u64) * 0x100 + ((v
        % 256) as u8 as u64) == v) by (bit_vector);
    let s = spec_u64_be(v);
    assert(s[0] == ((v / 0x100000000000000) % 256) as u8);
    assert(s[7] == (v % 256) as u8);
}

/// Encoding inverts decoding: the two bytes at `p` are the encoding of
/// the `u16` they denote.
pub proof fn lemma_u16_be_of(b: Seq<u8>, p: int)
    requires
        0 <= p,
        p + 2 <= b.len(),
    ensures
        spec_u16_be(spec_u16_of(b[p], b[p + 1])) == b.subrange(p, p + 2),
{
    assert(spec_u16_be(spec_u16_of(b[p], b[p + 1])) =~= b.subrange(p, p + 2));
}

/// Encoding inverts decoding for the four bytes at `p`.
pub proof fn lemma_u32_be_of(b: Seq<u8>, p: int)
    requires
        0 <= p,
        p + 4 <= b.len(),
    ensures
        spec_u32_be(spec_u32_of(b[p], b[p + 1], b[p + 2], b[p + 3])) == b.subrange(p, p + 4),
{
    let b0 = b[p];
    let b1 = b[p + 1];
    let b2 = b[p + 2];
    let b3 = b[p + 3];
    let v = spec_u32_of(b0, b1, b2, b3);
    assert((((b0 as u32) * 0x1000000 + (b1 as u32) * 0x10000 + (b2 as u32) * 0x100 + (
    b3 as u32)) / 0x1000000) % 256 == b0 as u32) by (bit_vector);
    assert((((b0 as u32) * 0x1000000 + (b1 as u32) * 0x10000 + (b2 as u32) * 0x100 + (
    b3 as u32)) / 0x10000) % 256 == b1 as u32) by (bit_vector);
    assert((((b0 as u32) * 0x1000000 + (b1 as u32) * 0x10000 + (b2 as u32) * 0x100 + (
    b3 as u32)) / 0x100) % 256 == b2 as u32) by (bit_vector);
    assert(((b0 as u32) * 0x1000000 + (b1 as u32) * 0x10000 + (b2 as u32) * 0x100 + (b3 as u32))
        % 256 == b3 as u32) by (bit_vector);
    assert(spec_u32_be(v) =~= b.subrange(p, p + 4));
}

/// Encoding inverts decoding for the eight bytes at `p`.
#[verifier::rlimit(100)]
pub proof fn lemma_u64_be_of(b: Seq<u8>, p: int)
    requires
        0 <= p,
        p + 8 <= b.len(),
    ensures
        spec_u64_be(spec_u64_of(b.subrange(p, p + 8))) == b.subrange(p, p + 8),
{
    let s = b.subrange(p, p + 8);
    let b0 = s[0];
    let b1 = s[1];
    let b2 = s[2];
    let b3 = s[3];
    let b4 = s[4];
    let b5 = s[5];
    let b6 = s[6];
    let b7 = s[7];
    let x = spec_u64_of(s);
    assert(x == (b0 as u64) * 0x100000000000000 + (b1 as u64) * 0x1000000000000 + (b2 as u64)
        * 0x10000000000 + (b3 as u64) * 0x100000000 + (b4 as u64) * 0x1000000 + (b5 as u64)
        * 0x10000 + (b6 as u64) * 0x100 + (b7 as u64));
    assert((x / 0x100000000000000) % 256 == b0 as u64 && (x / 0x1000000000000) % 256 == b1 as u64
        && (x / 0x10000000000) % 256 == b2 as u64 && (x / 0x100000000) % 256 == b3 as u64 && (x
        / 0x1000000) % 256 == b4 as u64 && (x / 0x10000) % 256 == b5 as u64 && (x / 0x100) % 256
        == b6 as u64 && x % 256 == b7 as u64) by (bit_vector)
        requires
            x == (b0 as u64) * 0x100000000000000 + (b1 as u64) * 0x1000000000000 + (b2 as u64)
                * 0x10000000000 + (b3 as u64) * 0x100000000 + (b4 as u64) * 0x1000000 + (
            b5 as u64) * 0x10000 + (b6 as u64) * 0x100 + (b7 as u64),
    ;
    assert(spec_u64_be(x) =~= s);
}

/// Append the two big-endian bytes of `v`.
pub fn put_u16_be(buf: &mut Vec<u8>, v: u16)
    ensures
        final(buf)@ == old(buf)@ + spec_u16_be(v),
{
    buf.push((v / 256) as u8);
    buf.push((v % 256) as u8);
    proof {
        assert(buf@ =~= old(buf)@ + spec_u16_be(v));
    }
}

/// Append the four big-endian bytes of `v`.
pub fn put_u32_be(buf: &mut Vec<u8>, v: u32)
    ensures
        final(buf)@ == old(buf)@ + spec_u32_be(v),
{
    buf.push(((v / 0x1000000) % 256) as u8);
    buf.push(((v / 0x10000) % 256) as u8);
    buf.push(((v / 0x100) % 256) as u8);
    buf.push((v % 256) as u8);
    proof {
        assert(buf@ =~= old(buf)@ + spec_u32_be(v));
    }
}

/// Append the eight big-endian bytes of `v`.
pub fn put_u64_be(buf: &mut Vec<u8>, v: u64)
    ensures
        final(buf)@ == old(buf)@ + spec_u64_be(v),
{
    buf.push(((v / 0x100000000000000) % 256) as u8);
    buf.push(((v / 0x1000000000000) % 256) as u8);
    buf.push(((v / 0x10000000000) % 256) as u8);
    buf.push(((v / 0x100000000) % 256) as u8);
    buf.push(((v / 0x1000000) % 256) as u8);
    buf.push(((v / 0x10000) % 256) as u8);
    buf.push(((v / 0x100) % 256) as u8);
    buf.push((v % 256) as u8);
    proof {
        assert(buf@ =~= old(buf)@ + spec_u64_be(v));
    }
}

/// Read the big-endian `u16` at `pos`.
pub fn get_u16_be(bytes: &[u8], pos: usize) -> (r: u16)
    requires
        pos + 2 <= bytes@.len(),
    ensures
        r == spec_u16_of(bytes@[pos as int], bytes@[pos + 1]),
{
    let b0 = bytes[pos];
    let b1 = bytes[pos + 1];
    b0 as u16 * 256 + b1 as u16
}

/// Read the big-endian `u32` at `pos`.
pub fn get_u32_be(bytes: &[u8], pos: usize) -> (r: u32)
    requires
        pos + 4 <= bytes@.len(),
    ensures
        r == spec_u32_of(bytes@[pos as int], bytes@[pos + 1], bytes@[pos + 2], bytes@[pos + 3]),
{
    let b0 = bytes[pos];
    let b1 = bytes[pos + 1];
    let b2 = bytes[pos + 2];
    let b3 = bytes[pos + 3];
    b0 as u32 * 0x1000000 + b1 as u32 * 0x10000 + b2 as u32 * 0x100 + b3 as u32
}

/// Read the big-endian `u64` at `pos`.
pub fn get_u64_be(bytes: &[u8], pos: usize) -> (r: u64)
    requires
        pos + 8 <= bytes@.len(),
    ensures
        r == spec_u64_of(bytes@.subrange(pos as int, pos + 8)),
{
    let b0 = bytes[pos];
    let b1 = bytes[pos + 1];
    let b2 = bytes[pos + 2];
    let b3 = bytes[pos + 3];
    let b4 = bytes[pos + 4];
    let b5 = bytes[pos + 5];
    let b6 = bytes[pos + 6];
    let b7 = bytes[pos + 7];
    let r = b0 as u64 * 0x100000000000000 + b1 as u64 * 0x1000000000000 + b2 as u64
        * 0x10000000000 + b3 as u64 * 0x100000000 + b4 as u64 * 0x1000000 + b5 as u64 * 0x10000
        + b6 as u64 * 0x100 + b7 as u64;
    proof {
        let s = bytes@.subrange(pos as int, pos + 8);
        assert(s[0] == bytes@[pos as int]);
        assert(s[1] == bytes@[pos + 1]);
        assert(s[2] == bytes@[pos + 2]);
        assert(s[3] == bytes@[pos + 3]);
        assert(s[4] == bytes@[pos + 4]);
        assert(s[5] == bytes@[pos + 5]);
        assert(s[6] == bytes@[pos + 6]);
        assert(s[7] == bytes@[pos + 7]);
    }
    r
}

/// Append a whole byte slice.
pub fn put_bytes(buf: &mut Vec<u8>, data: &[u8])
    ensures
        final(buf)@ == old(buf)@ + data@,
{
    let mut i: usize = 0;
    while i < data.len()
        invariant
            0 <= i <= data@.len(),
            buf@ == old(buf)@ + data@.take(i as int),
        decreases data@.len() - i,
    {
        buf.push(data[i]);
        proof {
            assert(data@.take(i + 1) =~= data@.take(i as int).push(data@[i as int]));
            assert(buf@ =~= old(buf)@ + data@.take(i + 1));
        }
        i += 1;
    }
    proof {
        assert(data@.take(data@.len() as int) =~= data@);
    }
}

/// An owned copy of a byte vector.
pub fn clone_bytes(v: &Vec<u8>) -> (r: Vec<u8>)
    ensures
        r@ == v@,
{
    let r = copy_range(v.as_slice(), 0, v.len());
    proof {
        assert(v@.subrange(0, v@.len() as int) =~= v@);
    }
    r
}

/// Copy `len` bytes starting at `pos` into a fresh vector.
pub fn copy_range(bytes: &[u8], pos: usize, len: usize) -> (r: Vec<u8>)
    requires
        pos + len <= bytes@.len(),
    ensures
        r@ == bytes@.subrange(pos as int, pos + len),
{
    let n = bytes.len();
    let mut out: Vec<u8> = Vec::new();
    let mut i: usize = 0;
    while i < len
        invariant
            0 <= i <= len,
            pos + len <= n == bytes@.len(),
            out@ == bytes@.subrange(pos as int, pos + i),
        decreases len - i,
    {
        out.push(bytes[pos + i]);
        proof {
            assert(bytes@.subrange(pos as int, pos + i + 1) =~= bytes@.subrange(
                pos as int,
                pos + i as int,
            ).push(bytes@[pos + i]));
        }
        i += 1;
    }
    out
}

} // verus!
