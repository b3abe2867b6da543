//! Constants and limits of the frame format.

use vstd::prelude::*;

verus! {

/// Frame marker: the four bytes `DURP`, the only synchronisation token.
pub const FRAME_MARKER: [u8; 4] = [0x44, 0x55, 0x52, 0x50];

/// Sync word that may stand before the marker (low autocorrelation).
pub const ROBUST_SYNC_WORD: [u8; 8] = [0xA5, 0x5A, 0xC3, 0x3C, 0x96, 0x69, 0x78, 0x87];

/// Preamble pattern, repeated to fill the preamble.
pub const PREAMBLE_PATTERN: [u8; 2] = [0x55, 0xAA];

/// Length of the preamble in bytes.
pub const MIN_PREAMBLE_LEN: usize = 8;

/// Largest Hamming distance, in bits, that a tolerant search for the marker
/// may allow. The scanner of this crate matches the marker exactly.
pub const MAX_MARKER_HAMMING: u32 = 1;

/// Current protocol version.
pub const PROTOCOL_VERSION: u8 = 1;

/// Maximum size of a whole frame (16 MiB).
pub const MAX_FRAME_SIZE: u32 = 16777216;

/// Maximum payload size (1 KiB less than the maximum frame size).
pub const MAX_PAYLOAD_SIZE: u32 = 16776192;

/// Size of a BLAKE3 hash in bytes.
pub const BLAKE3_HASH_SIZE: usize = 32;

/// Size of a CRC32C checksum in bytes.
pub const CRC32C_SIZE: usize = 4;

/// Size of an Ed25519 signature in bytes.
pub const ED25519_SIGNATURE_SIZE: usize = 64;

/// Size of marker and header together.
pub const MIN_HEADER_SIZE: usize = 50;

/// The kind of integrity trailer that follows the payload.
#[derive(Debug, Clone, Copy, PartialEq, Eq, Structural)]
pub enum TrailerType {
    /// No trailer.
    NoTrailer,
    /// CRC32C checksum (4 bytes).
    Crc32c,
    /// BLAKE3 hash (32 bytes).
    Blake3,
    /// BLAKE3 hash (32 bytes) followed by an Ed25519 signature (64 bytes).
    Blake3WithEd25519Sig,
}

impl TrailerType {
    /// Size of the trailer in bytes.
    pub open spec fn spec_size(&self) -> usize {
        match *self {
            TrailerType::NoTrailer => 0,
            TrailerType::Crc32c => 4,
            TrailerType::Blake3 => 32,
            TrailerType::Blake3WithEd25519Sig => 96,
        }
    }

    /// Size of the trailer in bytes.
    #[verifier::when_used_as_spec(spec_size)]
    pub fn size(&self) -> (n: usize)
        ensures
            n == self.spec_size(),
    {
        match self {
            TrailerType::NoTrailer => 0,
            TrailerType::Crc32c => CRC32C_SIZE,
            TrailerType::Blake3 => BLAKE3_HASH_SIZE,
            TrailerType::Blake3WithEd25519Sig => BLAKE3_HASH_SIZE + ED25519_SIGNATURE_SIZE,
        }
    }
}

/// The trailer that a flag byte selects: bit 1 asks for BLAKE3, bit 0 for
/// CRC32C, and both together for BLAKE3 with an Ed25519 signature.
pub open spec fn trailer_type_of(bits: u8) -> TrailerType {
    if bits & 0x02 != 0 && bits & 0x01 != 0 {
        TrailerType::Blake3WithEd25519Sig
    } else if bits & 0x02 != 0 {
        TrailerType::Blake3
    } else if bits & 0x01 != 0 {
        TrailerType::Crc32c
    } else {
        TrailerType::NoTrailer
    }
}

/// The flag byte of a frame header.
#[derive(Debug, Clone, Copy, PartialEq, Eq, Structural)]
pub struct FrameFlags(u8);

impl FrameFlags {
    /// No flags set.
    pub const NONE: u8 = 0x00;

    /// A CRC32C trailer follows the payload.
    pub const HAS_CRC32C: u8 = 0x01;

    /// A BLAKE3 trailer follows the payload.
    pub const HAS_BLAKE3: u8 = 0x02;

    /// First frame of a logical sequence.
    pub const IS_FIRST: u8 = 0x04;

    /// Last frame of a logical sequence.
    pub const IS_LAST: u8 = 0x08;

    /// A preamble stands before the marker.
    pub const HAS_PREAMBLE: u8 = 0x10;

    /// A sync word stands before the marker.
    pub const HAS_SYNC_PREFIX: u8 = 0x20;

    /// The payload carries a super-index.
    pub const IS_SUPERFRAME: u8 = 0x40;

    /// The payload carries skip-list links.
    pub const HAS_SKIPLIST: u8 = 0x80;

    /// The raw flag byte.
    pub closed spec fn bits(&self) -> u8 {
        self.0
    }

    /// Whether `mask` shares a set bit with the flag byte.
    pub open spec fn has(&self, mask: u8) -> bool {
        self.bits() & mask != 0
    }

    /// The trailer that the flags select.
    pub open spec fn spec_trailer_type(&self) -> TrailerType {
        trailer_type_of(self.bits())
    }

    /// Flags from a raw byte.
    pub fn new(flags: u8) -> (r: Self)
        ensures
            r.bits() == flags,
    {
        FrameFlags(flags)
    }

    /// The raw flag byte.
    #[verifier::when_used_as_spec(bits)]
    pub fn as_u8(&self) -> (b: u8)
        ensures
            b == self.bits(),
    {
        self.0
    }

    /// Whether a CRC32C trailer is present.
    pub fn has_crc32c(&self) -> (b: bool)
        ensures
            b == self.has(0x01),
    {
        (self.0 & Self::HAS_CRC32C) != 0
    }

    /// Whether a BLAKE3 trailer is present.
    pub fn has_blake3(&self) -> (b: bool)
        ensures
            b == self.has(0x02),
    {
        (self.0 & Self::HAS_BLAKE3) != 0
    }

    /// Whether this is the first frame of a sequence.
    pub fn is_first(&self) -> (b: bool)
        ensures
            b == self.has(0x04),
    {
        (self.0 & Self::IS_FIRST) != 0
    }

    /// Whether this is the last frame of a sequence.
    pub fn is_last(&self) -> (b: bool)
        ensures
            b == self.has(0x08),
    {
        (self.0 & Self::IS_LAST) != 0
    }

    /// Whether a preamble stands before the marker.
    pub fn has_preamble(&self) -> (b: bool)
        ensures
            b == self.has(0x10),
    {
        (self.0 & Self::HAS_PREAMBLE) != 0
    }

    /// Whether a sync word stands before the marker.
    pub fn has_sync_prefix(&self) -> (b: bool)
        ensures
            b == self.has(0x20),
    {
        (self.0 & Self::HAS_SYNC_PREFIX) != 0
    }

    /// Whether the frame is a superframe.
    pub fn is_superframe(&self) -> (b: bool)
        ensures
            b == self.has(0x40),
    {
        (self.0 & Self::IS_SUPERFRAME) != 0
    }

    /// Whether the payload carries skip-list links.
    pub fn has_skiplist(&self) -> (b: bool)
        ensures
            b == self.has(0x80),
    {
        (self.0 & Self::HAS_SKIPLIST) != 0
    }

    /// The trailer that the flags select.
    pub fn trailer_type(&self) -> (t: TrailerType)
        ensures
            t == self.spec_trailer_type(),
    {
        let has_b3 = self.has_blake3();
        let has_crc = self.has_crc32c();
        if has_b3 && has_crc {
            TrailerType::Blake3WithEd25519Sig
        } else if has_b3 {
            TrailerType::Blake3
        } else if has_crc {
            TrailerType::Crc32c
        } else {
            TrailerType::NoTrailer
        }
    }
}

impl Default for FrameFlags {
    fn default() -> (r: Self)
        ensures
            r.bits() == 0,
    {
        FrameFlags(Self::NONE)
    }
}

} // verus!
