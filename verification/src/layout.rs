//! The wire layout of a frame, as functions on byte sequences.
//!
//! A frame on the wire is an optional preamble, an optional sync word, the
//! marker, the header, the payload and the trailer. Encoder and decoder are
//! both stated against the functions of this module.

use crate::constants::{TrailerType, MAX_FRAME_SIZE, MAX_PAYLOAD_SIZE, PROTOCOL_VERSION};
use crate::error::FrameErrorView;
use crate::hash::{spec_blake3, spec_crc32c};
use crate::types::{length_mismatch_text, FrameHeader, FrameView, HeaderView};
use crate::wire::{
    be_u32, be_u64, lemma_be_u32_round_trip, lemma_be_u64_round_trip, u32_of_be, u64_of_be,
};
use vstd::prelude::*;

verus! {

/// The marker: `DURP`.
pub open spec fn marker() -> Seq<u8> {
    seq![0x44u8, 0x55u8, 0x52u8, 0x50u8]
}

/// The preamble: `55 AA` four times.
pub open spec fn preamble() -> Seq<u8> {
    seq![0x55u8, 0xAAu8, 0x55u8, 0xAAu8, 0x55u8, 0xAAu8, 0x55u8, 0xAAu8]
}

/// The sync word.
pub open spec fn sync_word() -> Seq<u8> {
    seq![0xA5u8, 0x5Au8, 0xC3u8, 0x3Cu8, 0x96u8, 0x69u8, 0x78u8, 0x87u8]
}

/// What stands before the marker: the preamble where bit 4 of the flags is
/// set, then the sync word where bit 5 is set.
pub open spec fn prefix(flags: u8) -> Seq<u8> {
    (if flags & 0x10 != 0 {
        preamble()
    } else {
        Seq::empty()
    }) + (if flags & 0x20 != 0 {
        sync_word()
    } else {
        Seq::empty()
    })
}

/// Marker, header and payload: the bytes that trailer and signature protect.
pub open spec fn frame_body(h: HeaderView, payload: Seq<u8>) -> Seq<u8> {
    marker() + h.wire_bytes() + payload
}

/// The signature bytes of a frame that nobody signed: 64 zeros.
pub open spec fn zero_signature() -> Seq<u8> {
    Seq::new(64, |i: int| 0u8)
}

/// The trailer of a frame, with `signature` in the signature's place.
pub open spec fn trailer_of(h: HeaderView, payload: Seq<u8>, signature: Seq<u8>) -> Seq<u8> {
    match h.trailer_type() {
        TrailerType::NoTrailer => Seq::empty(),
        TrailerType::Crc32c => be_u32(spec_crc32c(frame_body(h, payload))),
        TrailerType::Blake3 => spec_blake3(frame_body(h, payload))@,
        TrailerType::Blake3WithEd25519Sig => spec_blake3(frame_body(h, payload))@ + signature,
    }
}

/// A frame on the wire, from the marker on.
pub open spec fn framed(h: HeaderView, payload: Seq<u8>, signature: Seq<u8>) -> Seq<u8> {
    frame_body(h, payload) + trailer_of(h, payload, signature)
}

/// A frame on the wire, with its prefix.
pub open spec fn encoded(h: HeaderView, payload: Seq<u8>, signature: Seq<u8>) -> Seq<u8> {
    prefix(h.flags) + framed(h, payload, signature)
}

/// What encoding returns: the error of an invalid header, the error of a
/// payload whose length is not the declared one, or the frame's bytes.
pub open spec fn encode_outcome(h: HeaderView, payload: Seq<u8>, signature: Seq<u8>) -> Result<
    Seq<u8>,
    FrameErrorView,
> {
    if h.version != PROTOCOL_VERSION {
        Err(FrameErrorView::UnsupportedVersion(h.version))
    } else if h.payload_len > MAX_PAYLOAD_SIZE {
        Err(FrameErrorView::PayloadTooLarge(h.payload_len, MAX_PAYLOAD_SIZE))
    } else if payload.len() != h.payload_len {
        Err(FrameErrorView::InvalidStructure(length_mismatch_text(h.payload_len as nat, payload.len())))
    } else {
        Ok(encoded(h, payload, signature))
    }
}

/// The header that stands behind the marker at the start of `data`.
pub open spec fn parse_header(data: Seq<u8>) -> HeaderView
    recommends
        data.len() >= 50,
{
    HeaderView {
        version: data[4],
        frame_id: u64_of_be(
            data[5],
            data[6],
            data[7],
            data[8],
            data[9],
            data[10],
            data[11],
            data[12],
        ),
        prev_hash: data.subrange(13, 45),
        payload_len: u32_of_be(data[45], data[46], data[47], data[48]),
        flags: data[49],
    }
}

/// The size that a header declares for its frame: marker and header,
/// payload, and the trailer that the flags select.
pub open spec fn frame_size(h: HeaderView) -> nat {
    50 + h.payload_len as nat + h.trailer_type().spec_size() as nat
}

/// The payload of the frame at the start of `data`.
pub open spec fn payload_in(h: HeaderView, data: Seq<u8>) -> Seq<u8> {
    data.subrange(50, 50 + h.payload_len)
}

/// The trailer of the frame at the start of `data`.
pub open spec fn trailer_in(h: HeaderView, data: Seq<u8>) -> Seq<u8> {
    data.subrange(50 + h.payload_len, frame_size(h) as int)
}

/// The check of the trailer of the frame at the start of `data`: the
/// checksum or the hash over marker, header and payload must be the one
/// stored. Of the signed trailer only the hash is checked.
pub open spec fn trailer_check(h: HeaderView, data: Seq<u8>) -> Result<(), FrameErrorView>
    recommends
        data.len() >= frame_size(h),
{
    let body = data.subrange(0, 50 + h.payload_len);
    let trailer = trailer_in(h, data);
    match h.trailer_type() {
        TrailerType::NoTrailer => Ok(()),
        TrailerType::Crc32c => {
            let expected = u32_of_be(trailer[0], trailer[1], trailer[2], trailer[3]);
            let actual = spec_crc32c(body);
            if actual != expected {
                Err(FrameErrorView::ChecksumMismatch { expected, actual })
            } else {
                Ok(())
            }
        },
        TrailerType::Blake3 => if spec_blake3(body)@ != trailer {
            Err(FrameErrorView::HashMismatch)
        } else {
            Ok(())
        },
        TrailerType::Blake3WithEd25519Sig => if spec_blake3(body)@ != trailer.subrange(0, 32) {
            Err(FrameErrorView::HashMismatch)
        } else {
            Ok(())
        },
    }
}

/// The size reported for a frame that is too large: the declared size, or
/// the largest 32-bit number where the declared size is above it.
pub open spec fn reported_size(h: HeaderView) -> u32 {
    if frame_size(h) > u32::MAX {
        u32::MAX
    } else {
        frame_size(h) as u32
    }
}

/// What strict decoding returns for `data`. The checks, in order: the
/// marker, the header's presence, the version, the declared frame size, the
/// declared payload length, the frame's presence, the trailer. A decoded
/// frame always holds a trailer, which is empty where the flags select none.
pub open spec fn decode_strict(data: Seq<u8>) -> Result<FrameView, FrameErrorView> {
    if data.len() < 4 {
        Err(FrameErrorView::IncompleteFrame { expected: 50, actual: data.len() as usize })
    } else if data.subrange(0, 4) != marker() {
        Err(FrameErrorView::BadMarker(data.subrange(0, 4)))
    } else if data.len() < 50 {
        Err(FrameErrorView::IncompleteFrame { expected: 50, actual: data.len() as usize })
    } else {
        let h = parse_header(data);
        if h.version != PROTOCOL_VERSION {
            Err(FrameErrorView::UnsupportedVersion(h.version))
        } else if frame_size(h) > MAX_FRAME_SIZE {
            Err(FrameErrorView::FrameTooLarge(reported_size(h), MAX_FRAME_SIZE))
        } else if h.payload_len > MAX_PAYLOAD_SIZE {
            Err(FrameErrorView::PayloadTooLarge(h.payload_len, MAX_PAYLOAD_SIZE))
        } else if data.len() < frame_size(h) {
            Err(
                FrameErrorView::IncompleteFrame {
                    expected: frame_size(h) as usize,
                    actual: data.len() as usize,
                },
            )
        } else {
            match trailer_check(h, data) {
                Err(e) => Err(e),
                Ok(()) => Ok(
                    FrameView {
                        header: h,
                        payload: payload_in(h, data),
                        trailer: Some(trailer_in(h, data)),
                        super_index: None,
                        skip_links: None,
                    },
                ),
            }
        }
    }
}

/// What zero-copy decoding returns for `data`. The checks, in order: the
/// header's presence, the marker, the version, the declared frame size, the
/// frame's presence, the declared payload length, the trailer. A decoded
/// frame holds a trailer only where the flags select one.
pub open spec fn decode_shared(data: Seq<u8>) -> Result<FrameView, FrameErrorView> {
    if data.len() < 50 {
        Err(FrameErrorView::IncompleteFrame { expected: 50, actual: data.len() as usize })
    } else if data.subrange(0, 4) != marker() {
        Err(FrameErrorView::BadMarker(data.subrange(0, 4)))
    } else {
        let h = parse_header(data);
        if h.version != PROTOCOL_VERSION {
            Err(FrameErrorView::UnsupportedVersion(h.version))
        } else if frame_size(h) > MAX_FRAME_SIZE {
            Err(FrameErrorView::FrameTooLarge(reported_size(h), MAX_FRAME_SIZE))
        } else if data.len() < frame_size(h) {
            Err(
                FrameErrorView::IncompleteFrame {
                    expected: frame_size(h) as usize,
                    actual: data.len() as usize,
                },
            )
        } else if h.payload_len > MAX_PAYLOAD_SIZE {
            Err(FrameErrorView::PayloadTooLarge(h.payload_len, MAX_PAYLOAD_SIZE))
        } else {
            match trailer_check(h, data) {
                Err(e) => Err(e),
                Ok(()) => Ok(
                    FrameView {
                        header: h,
                        payload: payload_in(h, data),
                        trailer: if h.trailer_type() == TrailerType::NoTrailer {
                            None
                        } else {
                            Some(trailer_in(h, data))
                        },
                        super_index: None,
                        skip_links: None,
                    },
                ),
            }
        }
    }
}

/// The frame that strict decoding makes of an encoded frame.
pub open spec fn decoded(h: HeaderView, payload: Seq<u8>, signature: Seq<u8>) -> FrameView {
    FrameView {
        header: h,
        payload,
        trailer: Some(trailer_of(h, payload, signature)),
        super_index: None,
        skip_links: None,
    }
}

/// The trailer of a frame has the size that the flags select.
pub proof fn lemma_trailer_size(h: HeaderView, payload: Seq<u8>, signature: Seq<u8>)
    requires
        signature.len() == 64,
    ensures
        trailer_of(h, payload, signature).len() == h.trailer_type().spec_size(),
{
}

/// A frame on the wire, from the marker on, decodes strictly to the frame
/// it was made of, whatever stands behind it.
pub proof fn lemma_decode_framed(h: HeaderView, payload: Seq<u8>, signature: Seq<u8>, rest: Seq<u8>)
    requires
        h.prev_hash.len() == 32,
        h.valid(),
        payload.len() == h.payload_len,
        signature.len() == 64,
    ensures
        framed(h, payload, signature).len() == frame_size(h),
        decode_strict(framed(h, payload, signature) + rest) == Ok::<FrameView, FrameErrorView>(
            decoded(h, payload, signature),
        ),
{
    let body = frame_body(h, payload);
    let trailer = trailer_of(h, payload, signature);
    let data = framed(h, payload, signature) + rest;
    lemma_trailer_size(h, payload, signature);
    lemma_be_u64_round_trip(h.frame_id);
    lemma_be_u32_round_trip(h.payload_len);
    let wire = h.wire_bytes();
    assert(wire.len() == 46);
    assert(body.len() == 50 + payload.len());
    assert(data.subrange(0, 4) =~= marker());
    assert(forall|i: int| 0 <= i < 46 ==> data[4 + i] == wire[i]);
    assert(wire[0] == h.version);
    assert(forall|i: int| 0 <= i < 8 ==> wire[1 + i] == be_u64(h.frame_id)[i]);
    assert(forall|i: int| 0 <= i < 32 ==> wire[9 + i] == h.prev_hash[i]);
    assert(forall|i: int| 0 <= i < 4 ==> wire[41 + i] == be_u32(h.payload_len)[i]);
    assert(wire[45] == h.flags);
    assert(data[5] == wire[1] && data[6] == wire[2] && data[7] == wire[3] && data[8] == wire[4]
        && data[9] == wire[5] && data[10] == wire[6] && data[11] == wire[7] && data[12] == wire[8]);
    assert(data[45] == wire[41] && data[46] == wire[42] && data[47] == wire[43] && data[48]
        == wire[44]);
    assert(data.subrange(13, 45) =~= h.prev_hash);
    assert(parse_header(data) == h);
    assert(data.subrange(0, 50 + h.payload_len) =~= body);
    assert(payload_in(h, data) =~= payload);
    assert(trailer_in(h, data) =~= trailer);
    if h.trailer_type() == TrailerType::Crc32c {
        lemma_be_u32_round_trip(spec_crc32c(body));
    }
    if h.trailer_type() == TrailerType::Blake3WithEd25519Sig {
        assert(trailer.subrange(0, 32) =~= spec_blake3(body)@);
    }
}

/// Decoding gives back what was encoded: for every header and every payload
/// of the declared length, strict decoding of the encoded bytes from the
/// marker on succeeds and gives a frame with that header and that payload.
/// A frame without preamble and sync word starts with its marker, so that
/// its encoded bytes decode as they are; one with a prefix decodes only
/// from the marker on, which is where a scan decodes it.
pub proof fn lemma_decode_inverts_encode(header: FrameHeader, payload: Seq<u8>)
    requires
        payload.len() == header.payload_len,
    ensures
        encode_outcome(header@, payload, zero_signature()) matches Ok(bytes) ==> (decode_strict(
            bytes.skip(prefix(header@.flags).len() as int),
        ) matches Ok(f) && f.header == header@ && f.payload == payload),
        prefix(header@.flags).len() == 0 ==> (encode_outcome(
            header@,
            payload,
            zero_signature(),
        ) matches Ok(bytes) ==> (decode_strict(bytes) matches Ok(f) && f.header == header@
            && f.payload == payload)),
        encode_outcome(header@, payload, zero_signature()) is Ok <==> header@.valid(),
{
    if header@.valid() {
        let bytes = encoded(header@, payload, zero_signature());
        let from_marker = framed(header@, payload, zero_signature());
        lemma_decode_framed(header@, payload, zero_signature(), Seq::empty());
        assert(from_marker + Seq::<u8>::empty() =~= from_marker);
        assert(bytes.skip(prefix(header@.flags).len() as int) =~= from_marker);
        if prefix(header@.flags).len() == 0 {
            assert(bytes =~= from_marker);
        }
    }
}

} // verus!
