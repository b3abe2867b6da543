//! Frame headers and frames.

use crate::buffer::bytes_view;
use crate::constants::{
    trailer_type_of, FrameFlags, TrailerType, MAX_PAYLOAD_SIZE, MIN_HEADER_SIZE, PROTOCOL_VERSION,
};
use crate::error::{FrameError, FrameErrorView};
use crate::hash::{blake3_hash, spec_blake3};
use crate::text::{decimal, push_decimal};
use crate::wire::{be_u32, be_u64, put_slice, put_u32, put_u64};
use bytes::Bytes;
use std::ops::Deref;
use vstd::prelude::*;
use vstd::string::{StringExecFns, StringSliceAdditionalSpecFns};

verus! {

/// The hash of 32 zero bytes, which the head of a chain carries as its
/// predecessor's hash.
pub open spec fn zero_hash() -> Seq<u8> {
    Seq::new(32, |i: int| 0u8)
}

/// Whether `h` is all zeros.
pub fn is_zero_hash(h: &[u8; 32]) -> (r: bool)
    ensures
        r == (h@ == zero_hash()),
{
    let mut i: usize = 0;
    while i < 32
        invariant
            i <= 32,
            forall|j: int| 0 <= j < i ==> h@[j] == 0,
        decreases 32 - i,
    {
        if h[i] != 0 {
            assert(zero_hash()[i as int] == 0);
            return false;
        }
        i += 1;
    }
    assert(h@ =~= zero_hash());
    true
}

/// Whether two hashes hold the same bytes.
pub fn hashes_equal(a: &[u8; 32], b: &[u8; 32]) -> (r: bool)
    ensures
        r == (a@ == b@),
{
    let mut i: usize = 0;
    while i < 32
        invariant
            i <= 32,
            forall|j: int| 0 <= j < i ==> a@[j] == b@[j],
        decreases 32 - i,
    {
        if a[i] != b[i] {
            return false;
        }
        i += 1;
    }
    assert(a@ =~= b@);
    true
}

/// The header of a frame: what stands between marker and payload.
#[derive(Debug, Clone, Copy, PartialEq, Eq)]
pub struct FrameHeader {
    /// Protocol version.
    pub version: u8,
    /// Identifier of the frame.
    pub frame_id: u64,
    /// Chain hash of the previous frame; all zeros for the head of a chain.
    pub prev_hash: [u8; 32],
    /// Length of the payload in bytes.
    pub payload_len: u32,
    /// Flags: trailer kind, first and last marks, prefixes.
    pub flags: FrameFlags,
}

/// What a header holds, with the previous hash as a sequence and the flags
/// as their byte.
pub struct HeaderView {
    pub version: u8,
    pub frame_id: u64,
    pub prev_hash: Seq<u8>,
    pub payload_len: u32,
    pub flags: u8,
}

impl View for FrameHeader {
    type V = HeaderView;

    open spec fn view(&self) -> HeaderView {
        HeaderView {
            version: self.version,
            frame_id: self.frame_id,
            prev_hash: self.prev_hash@,
            payload_len: self.payload_len,
            flags: self.flags.bits(),
        }
    }
}

impl HeaderView {
    /// The 46 bytes of the header on the wire: version, frame id, previous
    /// hash, payload length and flags, integers big-endian.
    pub open spec fn wire_bytes(self) -> Seq<u8> {
        seq![self.version] + be_u64(self.frame_id) + self.prev_hash + be_u32(self.payload_len)
            + seq![self.flags]
    }

    /// Whether the header passes validation.
    pub open spec fn valid(self) -> bool {
        self.version == PROTOCOL_VERSION && self.payload_len <= MAX_PAYLOAD_SIZE
    }

    /// What validation returns.
    pub open spec fn validation(self) -> Result<(), FrameErrorView> {
        if self.version != PROTOCOL_VERSION {
            Err(FrameErrorView::UnsupportedVersion(self.version))
        } else if self.payload_len > MAX_PAYLOAD_SIZE {
            Err(FrameErrorView::PayloadTooLarge(self.payload_len, MAX_PAYLOAD_SIZE))
        } else {
            Ok(())
        }
    }

    /// Whether the header is that of a chain's head.
    pub open spec fn is_first(self) -> bool {
        self.prev_hash == zero_hash()
    }

    /// The trailer that the header's flags select.
    pub open spec fn trailer_type(self) -> TrailerType {
        trailer_type_of(self.flags)
    }
}

/// A result with its value and its error as what they hold.
pub open spec fn unit_result_view(r: Result<(), FrameError>) -> Result<(), FrameErrorView> {
    match r {
        Ok(()) => Ok(()),
        Err(e) => Err(e@),
    }
}

/// A result with its frame and its error as what they hold.
pub open spec fn frame_result_view(r: Result<Frame, FrameError>) -> Result<FrameView, FrameErrorView> {
    match r {
        Ok(f) => Ok(f@),
        Err(e) => Err(e@),
    }
}

/// The text of the error for a payload whose length is not the declared one.
pub open spec fn length_mismatch_text(declared: nat, actual: nat) -> Seq<char> {
    "Payload length mismatch: header says "@ + decimal(declared) + ", actual "@ + decimal(actual)
}

/// Builds the error for a payload whose length is not the declared one.
pub fn length_mismatch(declared: u32, actual: usize) -> (e: FrameError)
    ensures
        e matches FrameError::InvalidStructure(m) && m@ == length_mismatch_text(
            declared as nat,
            actual as nat,
        ),
{
    let mut m = String::from_str("Payload length mismatch: header says ");
    push_decimal(&mut m, declared as u64);
    m.append(", actual ");
    push_decimal(&mut m, actual as u64);
    FrameError::InvalidStructure(m)
}

impl FrameHeader {
    /// A header of the current version with no flags set.
    pub fn new(frame_id: u64, prev_hash: [u8; 32], payload_len: u32) -> (h: Self)
        ensures
            h@ == (HeaderView {
                version: PROTOCOL_VERSION,
                frame_id,
                prev_hash: prev_hash@,
                payload_len,
                flags: 0,
            }),
    {
        FrameHeader {
            version: PROTOCOL_VERSION,
            frame_id,
            prev_hash,
            payload_len,
            flags: FrameFlags::new(FrameFlags::NONE),
        }
    }

    /// A header of the current version with the given flags.
    pub fn with_flags(frame_id: u64, prev_hash: [u8; 32], payload_len: u32, flags: FrameFlags) -> (h:
        Self)
        ensures
            h@ == (HeaderView {
                version: PROTOCOL_VERSION,
                frame_id,
                prev_hash: prev_hash@,
                payload_len,
                flags: flags.bits(),
            }),
            h.flags == flags,
    {
        FrameHeader { version: PROTOCOL_VERSION, frame_id, prev_hash, payload_len, flags }
    }

    /// Checks version and payload length. A header that declares a payload
    /// above the limit never passes.
    pub fn validate(&self) -> (r: Result<(), FrameError>)
        ensures
            unit_result_view(r) == self@.validation(),
            r is Ok <==> self@.valid(),
            self.payload_len > MAX_PAYLOAD_SIZE ==> r is Err,
    {
        if self.version != PROTOCOL_VERSION {
            return Err(FrameError::UnsupportedVersion(self.version));
        }
        if self.payload_len > MAX_PAYLOAD_SIZE {
            return Err(FrameError::PayloadTooLarge(self.payload_len, MAX_PAYLOAD_SIZE));
        }
        Ok(())
    }

    /// Whether the previous hash is all zeros, as in the head of a chain.
    pub fn is_first(&self) -> (b: bool)
        ensures
            b == self@.is_first(),
    {
        is_zero_hash(&self.prev_hash)
    }

    /// Appends the header's wire bytes to `out`.
    pub fn write_to(&self, out: &mut Vec<u8>)
        ensures
            final(out)@ == old(out)@ + self@.wire_bytes(),
    {
        out.push(self.version);
        put_u64(out, self.frame_id);
        put_slice(out, self.prev_hash.as_slice());
        put_u32(out, self.payload_len);
        out.push(self.flags.as_u8());
        assert(out@ =~= old(out)@ + self@.wire_bytes());
    }
}

/// One skip-list back-link.
#[derive(Debug, Clone, Copy, PartialEq, Eq)]
pub struct SkipLink {
    /// Level of the link: it reaches 2^level frames back.
    pub level: u8,
    /// Identifier of the frame the link points to.
    pub target_id: u64,
    /// Hint for locating the target (such as a relative offset).
    pub hint: Option<u32>,
}

/// Index carried by a superframe.
#[derive(Debug, Clone, PartialEq, Eq)]
pub struct SuperframeIndex {
    /// First frame id summarised (inclusive).
    pub range_start: u64,
    /// Last frame id summarised (inclusive).
    pub range_end: u64,
    /// Most recent frame ids.
    pub recent_ids: Vec<u64>,
    /// Byte offsets of the frames, relative to the superframe.
    pub offsets: Vec<u32>,
    /// Checksums of the summarised frames.
    pub checksums: Vec<u32>,
}

/// What a superframe index holds.
pub struct SuperframeIndexView {
    pub range_start: u64,
    pub range_end: u64,
    pub recent_ids: Seq<u64>,
    pub offsets: Seq<u32>,
    pub checksums: Seq<u32>,
}

impl View for SuperframeIndex {
    type V = SuperframeIndexView;

    open spec fn view(&self) -> SuperframeIndexView {
        SuperframeIndexView {
            range_start: self.range_start,
            range_end: self.range_end,
            recent_ids: self.recent_ids@,
            offsets: self.offsets@,
            checksums: self.checksums@,
        }
    }
}

impl SuperframeIndex {
    /// A copy that holds the same values.
    pub fn duplicate(&self) -> (r: Self)
        ensures
            r@ == self@,
    {
        SuperframeIndex {
            range_start: self.range_start,
            range_end: self.range_end,
            recent_ids: self.recent_ids.clone(),
            offsets: self.offsets.clone(),
            checksums: self.checksums.clone(),
        }
    }
}

/// A complete frame.
#[derive(Debug, Clone, PartialEq)]
pub struct Frame {
    /// The header.
    pub header: FrameHeader,
    /// The payload.
    pub payload: Bytes,
    /// The trailer, if one was read or attached.
    pub trailer: Option<Bytes>,
    /// The super-index of a superframe, if known.
    pub super_index: Option<SuperframeIndex>,
    /// The skip-list links of the frame, if known.
    pub skip_links: Option<Vec<SkipLink>>,
}

/// What a frame holds.
pub struct FrameView {
    pub header: HeaderView,
    pub payload: Seq<u8>,
    pub trailer: Option<Seq<u8>>,
    pub super_index: Option<SuperframeIndexView>,
    pub skip_links: Option<Seq<SkipLink>>,
}

impl View for Frame {
    type V = FrameView;

    open spec fn view(&self) -> FrameView {
        FrameView {
            header: self.header@,
            payload: bytes_view(self.payload),
            trailer: match self.trailer {
                Some(t) => Some(bytes_view(t)),
                None => None,
            },
            super_index: match self.super_index {
                Some(s) => Some(s@),
                None => None,
            },
            skip_links: match self.skip_links {
                Some(l) => Some(l@),
                None => None,
            },
        }
    }
}

/// The bytes that the chain hash of a frame is taken over: the header's
/// wire bytes, then the previous trailer where one is given, then the
/// payload. The marker is no part of it.
pub open spec fn chain_hash_input(header: HeaderView, prev_trailer: Seq<u8>, payload: Seq<u8>) -> Seq<
    u8,
> {
    header.wire_bytes() + prev_trailer + payload
}

/// The chain hash of a frame with the given header and payload: the value
/// that a successor carries as its previous hash.
pub open spec fn chain_hash(header: HeaderView, payload: Seq<u8>) -> Seq<u8> {
    spec_blake3(chain_hash_input(header, Seq::empty(), payload))@
}

impl FrameView {
    /// The chain hash of the frame.
    pub open spec fn hash(self) -> Seq<u8> {
        chain_hash(self.header, self.payload)
    }

    /// What validation of the frame returns, but for the text of the error.
    pub open spec fn valid(self) -> bool {
        self.header.valid() && self.payload.len() == self.header.payload_len
    }
}

impl Frame {
    /// A frame without trailer.
    pub fn new(header: FrameHeader, payload: Bytes) -> (f: Self)
        ensures
            f@ == (FrameView {
                header: header@,
                payload: bytes_view(payload),
                trailer: None,
                super_index: None,
                skip_links: None,
            }),
    {
        Frame { header, payload, trailer: None, super_index: None, skip_links: None }
    }

    /// A frame with a trailer.
    pub fn with_trailer(header: FrameHeader, payload: Bytes, trailer: Bytes) -> (f: Self)
        ensures
            f@ == (FrameView {
                header: header@,
                payload: bytes_view(payload),
                trailer: Some(bytes_view(trailer)),
                super_index: None,
                skip_links: None,
            }),
    {
        Frame { header, payload, trailer: Some(trailer), super_index: None, skip_links: None }
    }

    /// A copy that holds the same values and shares the buffers.
    pub fn duplicate(&self) -> (r: Self)
        ensures
            r@ == self@,
    {
        let trailer = match &self.trailer {
            Some(t) => Some(t.clone()),
            None => None,
        };
        let super_index = match &self.super_index {
            Some(s) => Some(s.duplicate()),
            None => None,
        };
        let skip_links = match &self.skip_links {
            Some(l) => Some(l.clone()),
            None => None,
        };
        Frame { header: self.header, payload: self.payload.clone(), trailer, super_index, skip_links }
    }

    /// Validates the header, then checks that the payload has the declared
    /// length.
    pub fn validate(&self) -> (r: Result<(), FrameError>)
        ensures
            r is Ok <==> self@.valid(),
            !self@.header.valid() ==> unit_result_view(r) == self@.header.validation(),
            self@.header.valid() && self@.payload.len() != self.header.payload_len ==> unit_result_view(r)
                == Err::<(), FrameErrorView>(
                FrameErrorView::InvalidStructure(
                    length_mismatch_text(self.header.payload_len as nat, self@.payload.len()),
                ),
            ),
    {
        match self.header.validate() {
            Err(e) => {
                return Err(e);
            },
            Ok(()) => {},
        }
        if self.payload.len() as u64 != self.header.payload_len as u64 {
            return Err(length_mismatch(self.header.payload_len, self.payload.len()));
        }
        Ok(())
    }

    /// Size of the frame on the wire without any prefix: marker, header,
    /// payload and the trailer that the frame holds.
    pub fn total_size(&self) -> (n: usize)
        requires
            MIN_HEADER_SIZE + self@.payload.len() + (match self@.trailer {
                Some(t) => t.len(),
                None => 0,
            }) <= usize::MAX,
        ensures
            n == MIN_HEADER_SIZE + self@.payload.len() + (match self@.trailer {
                Some(t) => t.len(),
                None => 0,
            }),
    {
        let t = match &self.trailer {
            Some(t) => t.len(),
            None => 0,
        };
        MIN_HEADER_SIZE + self.payload.len() + t
    }

    /// The frame's identifier.
    pub fn frame_id(&self) -> (id: u64)
        ensures
            id == self.header.frame_id,
    {
        self.header.frame_id
    }

    /// The chain hash of the frame's predecessor.
    pub fn prev_hash(&self) -> (h: &[u8; 32])
        ensures
            *h == self.header.prev_hash,
    {
        &self.header.prev_hash
    }

    /// The chain hash of the frame: BLAKE3 over the header's wire bytes and
    /// the payload.
    pub fn compute_hash(&self) -> (h: [u8; 32])
        ensures
            h@ == self@.hash(),
    {
        let mut input: Vec<u8> = Vec::new();
        self.header.write_to(&mut input);
        put_slice(&mut input, self.payload.deref());
        assert(input@ =~= chain_hash_input(self@.header, Seq::empty(), self@.payload));
        blake3_hash(input.as_slice())
    }
}

/// The message of the error for bytes that are not UTF-8.
pub uninterp spec fn spec_utf8_error_text(bytes: Seq<u8>) -> Seq<char>;

/// `String::from_utf8` of the standard library, on a copy of the bytes: the
/// text whose UTF-8 encoding the bytes are, or, where they are none, the
/// message of the library's error.
#[verifier::external_body]
fn string_from_utf8(bytes: &[u8]) -> (r: Result<String, String>)
    ensures
        r is Ok <==> vstd::utf8::valid_utf8(bytes@),
        r matches Ok(s) ==> vstd::utf8::encode_utf8(s@) == bytes@,
        r matches Err(m) ==> m@ == spec_utf8_error_text(bytes@),
{
    String::from_utf8(bytes.to_vec()).map_err(|e| e.to_string())
}

/// A value that can be the payload of a frame.
pub trait DurapackSerializable: Sized {
    /// The bytes of the value as a payload.
    fn to_payload(&self) -> Result<Bytes, FrameError>;

    /// The value that a payload holds.
    fn from_payload(bytes: &[u8]) -> Result<Self, FrameError>;
}

impl DurapackSerializable for Vec<u8> {
    fn to_payload(&self) -> (r: Result<Bytes, FrameError>)
        ensures
            r matches Ok(b) && bytes_view(b) == self@,
    {
        Ok(Bytes::copy_from_slice(self.as_slice()))
    }

    fn from_payload(bytes: &[u8]) -> (r: Result<Self, FrameError>)
        ensures
            r matches Ok(v) && v@ == bytes@,
    {
        let mut v: Vec<u8> = Vec::new();
        put_slice(&mut v, bytes);
        assert(v@ =~= bytes@);
        Ok(v)
    }
}

impl DurapackSerializable for Bytes {
    fn to_payload(&self) -> (r: Result<Bytes, FrameError>)
        ensures
            r matches Ok(b) && bytes_view(b) == bytes_view(*self),
    {
        Ok(self.clone())
    }

    fn from_payload(bytes: &[u8]) -> (r: Result<Self, FrameError>)
        ensures
            r matches Ok(b) && bytes_view(b) == bytes@,
    {
        Ok(Bytes::copy_from_slice(bytes))
    }
}

impl DurapackSerializable for String {
    fn to_payload(&self) -> (r: Result<Bytes, FrameError>)
        ensures
            r matches Ok(b) && bytes_view(b) == vstd::utf8::encode_utf8(self@),
    {
        Ok(Bytes::copy_from_slice(self.as_str().as_bytes()))
    }

    fn from_payload(bytes: &[u8]) -> (r: Result<Self, FrameError>)
        ensures
            r is Ok <==> vstd::utf8::valid_utf8(bytes@),
            r matches Ok(s) ==> vstd::utf8::encode_utf8(s@) == bytes@,
            r matches Err(e) ==> e@ == FrameErrorView::Serialization(spec_utf8_error_text(bytes@)),
    {
        match string_from_utf8(bytes) {
            Ok(s) => Ok(s),
            Err(m) => Err(FrameError::Serialization(m)),
        }
    }
}

} // verus!
