//! Frame encoding.

use crate::buffer::bytes_view;
use crate::constants::{FrameFlags, TrailerType, MAX_PAYLOAD_SIZE, PROTOCOL_VERSION};
use crate::error::{FrameError, FrameErrorView};
use crate::hash::{blake3_hash, spec_blake3};
use crate::layout::{
    encode_outcome, encoded, frame_body, framed, marker, preamble, prefix, sync_word, trailer_of,
    zero_signature,
};
use crate::types::{
    chain_hash_input, length_mismatch, Frame, FrameHeader, FrameView, HeaderView,
};
use crate::wire::{put_slice, put_u32};
use bytes::Bytes;
use std::ops::Deref;
use vstd::prelude::*;

verus! {

/// The Ed25519 signature of `message` under the secret key `key`.
pub uninterp spec fn spec_ed25519_signature(key: Seq<u8>, message: Seq<u8>) -> [u8; 64];

/// `SigningKey::from_bytes` and `Signer::sign` of ed25519-dalek, with the
/// signature handed out as its 64 raw bytes: the signature depends on the
/// secret key and the message alone.
#[verifier::external_body]
pub(crate) fn ed25519_sign(key: &[u8; 32], message: &[u8]) -> (r: [u8; 64])
    ensures
        r == spec_ed25519_signature(key@, message@),
{
    ed25519_dalek::Signer::sign(&ed25519_dalek::SigningKey::from_bytes(key), message).to_bytes()
}

/// A result with its buffer and its error as what they hold.
pub open spec fn bytes_result_view(r: Result<Bytes, FrameError>) -> Result<Seq<u8>, FrameErrorView> {
    match r {
        Ok(b) => Ok(bytes_view(b)),
        Err(e) => Err(e@),
    }
}

/// Writes the prefix that the flags ask for.
fn write_prefix(out: &mut Vec<u8>, flags: FrameFlags)
    ensures
        final(out)@ == old(out)@ + prefix(flags.bits()),
{
    if flags.has_preamble() {
        let mut i: usize = 0;
        while i < 8
            invariant
                i <= 8,
                out@ == old(out)@ + preamble().subrange(0, i as int),
            decreases 8 - i,
        {
            let b: u8 = if i % 2 == 0 {
                0x55
            } else {
                0xAA
            };
            out.push(b);
            i += 1;
            assert(out@ =~= old(out)@ + preamble().subrange(0, i as int));
        }
        assert(preamble().subrange(0, 8) =~= preamble());
    }
    let ghost mid = out@;
    if flags.has_sync_prefix() {
        out.push(0xA5);
        out.push(0x5A);
        out.push(0xC3);
        out.push(0x3C);
        out.push(0x96);
        out.push(0x69);
        out.push(0x78);
        out.push(0x87);
        assert(out@ =~= mid + sync_word());
    }
    assert(out@ =~= old(out)@ + prefix(flags.bits()));
}

/// Writes the marker.
fn write_marker(out: &mut Vec<u8>)
    ensures
        final(out)@ == old(out)@ + marker(),
{
    out.push(0x44);
    out.push(0x55);
    out.push(0x52);
    out.push(0x50);
    assert(out@ =~= old(out)@ + marker());
}

/// Encodes a frame whose header and payload have been checked, with the
/// signature of `key` where one is given and the trailer holds a signature.
fn encode_checked(header: &FrameHeader, payload: &[u8], key: Option<&[u8; 32]>) -> (out: Vec<u8>)
    ensures
        out@ == encoded(
            header@,
            payload@,
            match key {
                Some(k) => spec_ed25519_signature(k@, frame_body(header@, payload@))@,
                None => zero_signature(),
            },
        ),
{
    let mut out: Vec<u8> = Vec::new();
    write_prefix(&mut out, header.flags);
    let mut body: Vec<u8> = Vec::new();
    write_marker(&mut body);
    header.write_to(&mut body);
    put_slice(&mut body, payload);
    assert(body@ =~= frame_body(header@, payload@));
    put_slice(&mut out, body.as_slice());
    let ghost signature = match key {
        Some(k) => spec_ed25519_signature(k@, frame_body(header@, payload@))@,
        None => zero_signature(),
    };
    match header.flags.trailer_type() {
        TrailerType::NoTrailer => {},
        TrailerType::Crc32c => {
            let checksum = crc32c::crc32c(body.as_slice());
            put_u32(&mut out, checksum);
        },
        TrailerType::Blake3 => {
            let hash = blake3_hash(body.as_slice());
            put_slice(&mut out, hash.as_slice());
        },
        TrailerType::Blake3WithEd25519Sig => {
            let hash = blake3_hash(body.as_slice());
            put_slice(&mut out, hash.as_slice());
            match key {
                Some(k) => {
                    let sig = ed25519_sign(k, body.as_slice());
                    put_slice(&mut out, sig.as_slice());
                },
                None => {
                    let zeros = [0u8; 64];
                    assert(zeros@ =~= zero_signature());
                    put_slice(&mut out, zeros.as_slice());
                },
            }
        },
    }
    assert(out@ =~= encoded(header@, payload@, signature));
    out
}

/// Checks header and payload as encoding does.
fn check_parts(header: &FrameHeader, payload: &[u8]) -> (r: Result<(), FrameError>)
    ensures
        match r {
            Ok(()) => encode_outcome(header@, payload@, zero_signature()) is Ok,
            Err(e) => encode_outcome(header@, payload@, zero_signature()) == Err::<
                Seq<u8>,
                FrameErrorView,
            >(e@),
        },
{
    match header.validate() {
        Err(e) => {
            return Err(e);
        },
        Ok(()) => {},
    }
    if payload.len() as u64 != header.payload_len as u64 {
        return Err(length_mismatch(header.payload_len, payload.len()));
    }
    Ok(())
}

/// Encodes a frame: the prefix that the flags ask for, the marker, the
/// header, the payload and the trailer. A signed trailer gets 64 zero bytes
/// in the signature's place.
///
/// Fails where the header is invalid or the payload has not the length that
/// the header declares.
pub fn encode_frame(header: &FrameHeader, payload: &[u8]) -> (r: Result<Bytes, FrameError>)
    ensures
        bytes_result_view(r) == encode_outcome(header@, payload@, zero_signature()),
{
    match check_parts(header, payload) {
        Err(e) => Err(e),
        Ok(()) => Ok(Bytes::from(encode_checked(header, payload, None))),
    }
}

/// Encodes a frame struct: its header and payload; the trailer is computed
/// anew.
pub fn encode_frame_struct(frame: &Frame) -> (r: Result<Bytes, FrameError>)
    ensures
        bytes_result_view(r) == encode_outcome(frame@.header, frame@.payload, zero_signature()),
{
    encode_frame(&frame.header, frame.payload.deref())
}

/// Encodes a frame and signs it: where the flags select the signed trailer,
/// the signature's place holds the Ed25519 signature, under the secret key
/// `signing_key`, of marker, header and payload. With any other trailer the
/// key is not used.
pub fn encode_frame_signed(header: &FrameHeader, payload: &[u8], signing_key: &[u8; 32]) -> (r:
    Result<Bytes, FrameError>)
    ensures
        bytes_result_view(r) == encode_outcome(
            header@,
            payload@,
            spec_ed25519_signature(signing_key@, frame_body(header@, payload@))@,
        ),
{
    match check_parts(header, payload) {
        Err(e) => Err(e),
        Ok(()) => Ok(Bytes::from(encode_checked(header, payload, Some(signing_key)))),
    }
}

/// Encodes a frame struct and signs it.
pub fn encode_frame_struct_signed(frame: &Frame, signing_key: &[u8; 32]) -> (r: Result<
    Bytes,
    FrameError,
>)
    ensures
        bytes_result_view(r) == encode_outcome(
            frame@.header,
            frame@.payload,
            spec_ed25519_signature(signing_key@, frame_body(frame@.header, frame@.payload))@,
        ),
{
    encode_frame_signed(&frame.header, frame.payload.deref(), signing_key)
}

/// The chain hash of a frame: BLAKE3 over the header's wire bytes, the
/// previous trailer where one is given, and the payload.
pub fn compute_chain_hash(frame: &Frame, prev_trailer: Option<&[u8]>) -> (h: [u8; 32])
    ensures
        h == spec_blake3(
            chain_hash_input(
                frame@.header,
                match prev_trailer {
                    Some(t) => t@,
                    None => Seq::empty(),
                },
                frame@.payload,
            ),
        ),
{
    let mut input: Vec<u8> = Vec::new();
    frame.header.write_to(&mut input);
    match prev_trailer {
        Some(t) => {
            put_slice(&mut input, t);
        },
        None => {
            assert(input@ + Seq::<u8>::empty() =~= input@);
        },
    }
    put_slice(&mut input, frame.payload.deref());
    blake3_hash(input.as_slice())
}

/// Marker, header and payload of a frame: the bytes that a signature
/// covers.
pub fn signing_input(frame: &Frame) -> (body: Vec<u8>)
    ensures
        body@ == frame_body(frame@.header, frame@.payload),
{
    let mut body: Vec<u8> = Vec::new();
    write_marker(&mut body);
    frame.header.write_to(&mut body);
    put_slice(&mut body, frame.payload.deref());
    assert(body@ =~= frame_body(frame@.header, frame@.payload));
    body
}

/// The Ed25519 signature, under the secret key `signing_key`, of marker,
/// header and payload of a frame.
pub fn ed25519_sign_header_payload(frame: &Frame, signing_key: &[u8; 32]) -> (sig: [u8; 64])
    ensures
        sig == spec_ed25519_signature(signing_key@, frame_body(frame@.header, frame@.payload)),
{
    let body = signing_input(frame);
    ed25519_sign(signing_key, body.as_slice())
}

/// Builds a frame step by step.
pub struct FrameBuilder {
    frame_id: u64,
    prev_hash: [u8; 32],
    payload: Bytes,
    flags: u8,
}

/// What a builder holds.
pub struct FrameBuilderView {
    pub frame_id: u64,
    pub prev_hash: Seq<u8>,
    pub payload: Seq<u8>,
    pub flags: u8,
}

impl FrameBuilderView {
    /// The payload length that the built header declares: the payload's
    /// length, or the largest 32-bit number where the length is above it.
    pub open spec fn declared_len(self) -> u32 {
        if self.payload.len() > u32::MAX {
            u32::MAX
        } else {
            self.payload.len() as u32
        }
    }

    /// The header that the builder builds. A frame that is marked as the
    /// first of its sequence carries a previous hash of zeros, whatever
    /// hash was set before or after the mark.
    pub open spec fn header(self) -> HeaderView {
        HeaderView {
            version: PROTOCOL_VERSION,
            frame_id: self.frame_id,
            prev_hash: if self.flags & 0x04 != 0 {
                crate::types::zero_hash()
            } else {
                self.prev_hash
            },
            payload_len: self.declared_len(),
            flags: self.flags,
        }
    }

    /// The builder with the bits of `mask` set in its flags.
    pub open spec fn with_flag(self, mask: u8) -> FrameBuilderView {
        FrameBuilderView { flags: self.flags | mask, ..self }
    }
}

impl View for FrameBuilder {
    type V = FrameBuilderView;

    closed spec fn view(&self) -> FrameBuilderView {
        FrameBuilderView {
            frame_id: self.frame_id,
            prev_hash: self.prev_hash@,
            payload: bytes_view(self.payload),
            flags: self.flags,
        }
    }
}

impl FrameBuilder {
    /// A builder for the frame with this id: no predecessor, an empty
    /// payload, no flags.
    pub fn new(frame_id: u64) -> (b: Self)
        ensures
            b@ == (FrameBuilderView {
                frame_id,
                prev_hash: crate::types::zero_hash(),
                payload: Seq::empty(),
                flags: 0,
            }),
    {
        let prev_hash = [0u8; 32];
        assert(prev_hash@ =~= crate::types::zero_hash());
        FrameBuilder { frame_id, prev_hash, payload: Bytes::new(), flags: FrameFlags::NONE }
    }

    /// Sets the chain hash of the predecessor. In a frame that is marked
    /// as first the hash has no effect: such a frame is built with a
    /// previous hash of zeros.
    pub fn prev_hash(self, hash: [u8; 32]) -> (b: Self)
        ensures
            b@ == (FrameBuilderView { prev_hash: hash@, ..self@ }),
    {
        FrameBuilder { prev_hash: hash, ..self }
    }

    /// Sets the payload.
    pub fn payload(self, payload: Bytes) -> (b: Self)
        ensures
            b@ == (FrameBuilderView { payload: bytes_view(payload), ..self@ }),
    {
        FrameBuilder { payload, ..self }
    }

    /// Asks for a CRC32C trailer.
    pub fn with_crc32c(self) -> (b: Self)
        ensures
            b@ == self@.with_flag(0x01),
    {
        FrameBuilder { flags: self.flags | FrameFlags::HAS_CRC32C, ..self }
    }

    /// Asks for a BLAKE3 trailer.
    pub fn with_blake3(self) -> (b: Self)
        ensures
            b@ == self@.with_flag(0x02),
    {
        FrameBuilder { flags: self.flags | FrameFlags::HAS_BLAKE3, ..self }
    }

    /// Marks the frame as the first of its sequence, which also clears the
    /// predecessor's hash.
    pub fn mark_first(self) -> (b: Self)
        ensures
            b@ == (FrameBuilderView { prev_hash: crate::types::zero_hash(), ..self@.with_flag(0x04) }),
    {
        let prev_hash = [0u8; 32];
        assert(prev_hash@ =~= crate::types::zero_hash());
        FrameBuilder { flags: self.flags | FrameFlags::IS_FIRST, prev_hash, ..self }
    }

    /// Marks the frame as the last of its sequence.
    pub fn mark_last(self) -> (b: Self)
        ensures
            b@ == self@.with_flag(0x08),
    {
        FrameBuilder { flags: self.flags | FrameFlags::IS_LAST, ..self }
    }

    /// Marks the frame as a superframe.
    pub fn as_superframe(self) -> (b: Self)
        ensures
            b@ == self@.with_flag(0x40),
    {
        FrameBuilder { flags: self.flags | FrameFlags::IS_SUPERFRAME, ..self }
    }

    /// Marks the payload as carrying skip-list links.
    pub fn with_skiplist(self) -> (b: Self)
        ensures
            b@ == self@.with_flag(0x80),
    {
        FrameBuilder { flags: self.flags | FrameFlags::HAS_SKIPLIST, ..self }
    }

    /// Asks for the signed trailer: a BLAKE3 hash and an Ed25519 signature.
    pub fn with_blake3_signature(self) -> (b: Self)
        ensures
            b@ == self@.with_flag(0x03),
    {
        assert(0x02u8 | 0x01u8 == 0x03u8) by (bit_vector);
        FrameBuilder { flags: self.flags | (FrameFlags::HAS_BLAKE3 | FrameFlags::HAS_CRC32C), ..self }
    }

    /// Asks for the signed trailer. The key is not kept: the signature is
    /// made when the frame is encoded with a key.
    pub fn sign_with_ed25519(self, _signing_key: &[u8; 32]) -> (b: Self)
        ensures
            b@ == self@.with_flag(0x03),
    {
        self.with_blake3_signature()
    }

    /// The header of the frame to build.
    fn header(&self) -> (h: FrameHeader)
        ensures
            h@ == self@.header(),
    {
        let len = self.payload.len();
        let declared: u32 = if len > 0xffff_ffff {
            0xffff_ffff
        } else {
            len as u32
        };
        let flags = FrameFlags::new(self.flags);
        let prev_hash = if flags.is_first() {
            let zeros = [0u8; 32];
            assert(zeros@ =~= crate::types::zero_hash());
            zeros
        } else {
            self.prev_hash
        };
        FrameHeader::with_flags(self.frame_id, prev_hash, declared, flags)
    }

    /// Builds the frame and encodes it.
    pub fn build(self) -> (r: Result<Bytes, FrameError>)
        ensures
            bytes_result_view(r) == encode_outcome(self@.header(), self@.payload, zero_signature()),
    {
        let header = self.header();
        encode_frame(&header, self.payload.deref())
    }

    /// Builds the frame without encoding it. Fails where the header is
    /// invalid.
    pub fn build_struct(self) -> (r: Result<Frame, FrameError>)
        ensures
            crate::types::frame_result_view(r) == (match self@.header().validation() {
                Err(e) => Err(e),
                Ok(()) => Ok(
                    FrameView {
                        header: self@.header(),
                        payload: self@.payload,
                        trailer: None,
                        super_index: None,
                        skip_links: None,
                    },
                ),
            }),
    {
        let header = self.header();
        match header.validate() {
            Err(e) => Err(e),
            Ok(()) => Ok(Frame::new(header, self.payload)),
        }
    }
}

} // verus!
