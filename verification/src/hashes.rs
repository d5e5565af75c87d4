//! The one checksum the storage formats use — for block, log and manifest
//! integrity and for raw-key fingerprints in the membership filter and the
//! transaction conflict sets — with the trusted call that computes it.

use vstd::prelude::*;

verus! {

/// The CRC-32 checksum of a byte string.
pub uninterp spec fn crc32_of(data: Seq<u8>) -> u32;

/// Relies on `crc32fast::hash`: the CRC-32 checksum is a pure function of
/// the input bytes, total on every input — the vendored implementation is
/// table and SIMD work with no panic path.
#[verifier::external_body]
pub fn crc32(data: &[u8]) -> (r: u32)
    ensures
        r == crc32_of(data@),
{
    crc32fast::hash(data)
}

} // verus!
