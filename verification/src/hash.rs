//! The two digests of the format: CRC32C and BLAKE3.
//!
//! Both are computed by outside crates. The verifier knows each digest only
//! by name, as a function of the bytes that were digested.

use vstd::prelude::*;

verus! {

/// The CRC32C (Castagnoli) checksum of `data`.
pub uninterp spec fn spec_crc32c(data: Seq<u8>) -> u32;

/// The 32-byte BLAKE3 hash of `data`.
pub uninterp spec fn spec_blake3(data: Seq<u8>) -> [u8; 32];

/// `crc32c::crc32c`: the checksum depends on the bytes alone.
pub assume_specification[ crc32c::crc32c ](data: &[u8]) -> (r: u32)
    ensures
        r == spec_crc32c(data@),
;

/// `blake3::hash`, with the hash handed out as its 32 raw bytes: the hash
/// depends on the input bytes alone.
#[verifier::external_body]
pub(crate) fn blake3_hash(data: &[u8]) -> (r: [u8; 32])
    ensures
        r == spec_blake3(data@),
{
    *blake3::hash(data).as_bytes()
}

} // verus!
