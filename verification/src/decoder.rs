//! Strict frame decoding.

use crate::buffer::{bytes_slice, bytes_view};
use crate::constants::{
    FrameFlags, TrailerType, MAX_FRAME_SIZE, MAX_PAYLOAD_SIZE, MIN_HEADER_SIZE, PROTOCOL_VERSION,
};
use crate::error::{FrameError, FrameErrorView};
use crate::hash::blake3_hash;
use crate::layout::{
    decode_shared, decode_strict, frame_size, marker, parse_header, payload_in, reported_size,
    trailer_check, trailer_in,
};
use crate::types::{frame_result_view, unit_result_view, Frame, FrameHeader, HeaderView};
use crate::wire::{get_u32, get_u64};
use bytes::Bytes;
use std::ops::Deref;
use vstd::prelude::*;
use vstd::slice::slice_subrange;

verus! {

/// Whether `data` starts with the marker.
pub(crate) fn starts_with_marker(data: &[u8]) -> (r: bool)
    requires
        data.len() >= 4,
    ensures
        r == (data@.subrange(0, 4) == marker()),
{
    let r = data[0] == 0x44 && data[1] == 0x55 && data[2] == 0x52 && data[3] == 0x50;
    proof {
        let m = data@.subrange(0, 4);
        assert(m[0] == data@[0] && m[1] == data@[1] && m[2] == data@[2] && m[3] == data@[3]);
        if r {
            assert(m =~= marker());
        } else {
            assert(marker()[0] == 0x44 && marker()[1] == 0x55 && marker()[2] == 0x52 && marker()[3]
                == 0x50);
        }
    }
    r
}

/// The error for four bytes that are not the marker.
fn bad_marker(data: &[u8]) -> (e: FrameError)
    requires
        data.len() >= 4,
    ensures
        e@ == FrameErrorView::BadMarker(data@.subrange(0, 4)),
{
    let bad = [data[0], data[1], data[2], data[3]];
    assert(bad@ =~= data@.subrange(0, 4));
    FrameError::BadMarker(bad)
}

/// Reads the header behind the marker at the start of `data`.
pub(crate) fn read_header(data: &[u8]) -> (h: FrameHeader)
    requires
        data.len() >= 50,
    ensures
        h@ == parse_header(data@),
{
    let mut prev_hash = [0u8; 32];
    let mut i: usize = 0;
    while i < 32
        invariant
            i <= 32,
            data.len() >= 50,
            forall|j: int| 0 <= j < i ==> prev_hash@[j] == data@[13 + j],
        decreases 32 - i,
    {
        prev_hash[i] = data[13 + i];
        i += 1;
    }
    assert(prev_hash@ =~= data@.subrange(13, 45));
    FrameHeader {
        version: data[4],
        frame_id: get_u64(data, 5),
        prev_hash,
        payload_len: get_u32(data, 45),
        flags: FrameFlags::new(data[49]),
    }
}

/// The size that a header declares for its frame.
pub fn declared_size(header: &FrameHeader) -> (n: u64)
    ensures
        n == frame_size(header@),
{
    50 + header.payload_len as u64 + header.flags.trailer_type().size() as u64
}

/// The error for a frame that declares more than the maximum size.
fn too_large(total: u64) -> (e: FrameError)
    ensures
        e@ == FrameErrorView::FrameTooLarge(
            if total > u32::MAX {
                u32::MAX
            } else {
                total as u32
            },
            MAX_FRAME_SIZE,
        ),
{
    let reported: u32 = if total > 0xffff_ffff {
        0xffff_ffff
    } else {
        total as u32
    };
    FrameError::FrameTooLarge(reported, MAX_FRAME_SIZE)
}

/// Whether the 32 bytes of `data` at `at` are those of `hash`.
fn hash_stands_at(hash: &[u8; 32], data: &[u8], at: usize) -> (r: bool)
    requires
        at + 32 <= data.len(),
    ensures
        r == (hash@ == data@.subrange(at as int, at + 32)),
{
    let mut i: usize = 0;
    while i < 32
        invariant
            i <= 32,
            at + 32 <= data.len(),
            forall|j: int| 0 <= j < i ==> hash@[j] == data@[at + j],
        decreases 32 - i,
    {
        if hash[i] != data[at + i] {
            assert(data@.subrange(at as int, at + 32)[i as int] == data@[at + i]);
            return false;
        }
        i += 1;
    }
    assert(hash@ =~= data@.subrange(at as int, at + 32));
    true
}

/// Checks the trailer of the frame at the start of `data` against marker,
/// header and payload.
fn verify_trailer(header: &FrameHeader, data: &[u8]) -> (r: Result<(), FrameError>)
    requires
        frame_size(header@) <= MAX_FRAME_SIZE,
        data.len() >= frame_size(header@),
    ensures
        unit_result_view(r) == trailer_check(header@, data@),
{
    let payload_end: usize = 50 + header.payload_len as usize;
    let body = slice_subrange(data, 0, payload_end);
    let ghost trailer = trailer_in(header@, data@);
    match header.flags.trailer_type() {
        TrailerType::NoTrailer => Ok(()),
        TrailerType::Crc32c => {
            let expected = get_u32(data, payload_end);
            let actual = crc32c::crc32c(body);
            assert(trailer[0] == data@[payload_end as int] && trailer[1] == data@[payload_end + 1]
                && trailer[2] == data@[payload_end + 2] && trailer[3] == data@[payload_end + 3]);
            if actual != expected {
                Err(FrameError::ChecksumMismatch { expected, actual })
            } else {
                Ok(())
            }
        },
        TrailerType::Blake3 => {
            let actual = blake3_hash(body);
            if !hash_stands_at(&actual, data, payload_end) {
                Err(FrameError::HashMismatch)
            } else {
                Ok(())
            }
        },
        TrailerType::Blake3WithEd25519Sig => {
            let actual = blake3_hash(body);
            assert(trailer.subrange(0, 32) =~= data@.subrange(payload_end as int, payload_end + 32));
            if !hash_stands_at(&actual, data, payload_end) {
                Err(FrameError::HashMismatch)
            } else {
                Ok(())
            }
        },
    }
}

/// Decodes the frame at the start of `data`, strictly: a frame whose
/// marker, version, size, checksum or hash fails its check is refused, and
/// nothing is repaired. Bytes behind the frame are ignored. Payload and
/// trailer are copied out of `data`.
pub fn decode_frame_from_bytes(data: &[u8]) -> (r: Result<Frame, FrameError>)
    ensures
        frame_result_view(r) == decode_strict(data@),
{
    if data.len() < 4 {
        return Err(FrameError::IncompleteFrame { expected: MIN_HEADER_SIZE, actual: data.len() });
    }
    if !starts_with_marker(data) {
        return Err(bad_marker(data));
    }
    if data.len() < MIN_HEADER_SIZE {
        return Err(FrameError::IncompleteFrame { expected: MIN_HEADER_SIZE, actual: data.len() });
    }
    let header = read_header(data);
    if header.version != PROTOCOL_VERSION {
        return Err(FrameError::UnsupportedVersion(header.version));
    }
    let total = declared_size(&header);
    if total > MAX_FRAME_SIZE as u64 {
        return Err(too_large(total));
    }
    if header.payload_len > MAX_PAYLOAD_SIZE {
        return Err(FrameError::PayloadTooLarge(header.payload_len, MAX_PAYLOAD_SIZE));
    }
    let total: usize = total as usize;
    if data.len() < total {
        return Err(FrameError::IncompleteFrame { expected: total, actual: data.len() });
    }
    match verify_trailer(&header, data) {
        Err(e) => {
            return Err(e);
        },
        Ok(()) => {},
    }
    let payload_end: usize = 50 + header.payload_len as usize;
    let payload = Bytes::copy_from_slice(slice_subrange(data, 50, payload_end));
    let trailer = Bytes::copy_from_slice(slice_subrange(data, payload_end, total));
    Ok(Frame::with_trailer(header, payload, trailer))
}

/// Decodes the frame at the start of `buf` without copying: payload and
/// trailer of the frame share the storage of `buf`. The checks are those of
/// strict decoding, with the header's presence checked first and the
/// frame's presence before the payload limit.
pub fn decode_frame_from_bytes_zero_copy(buf: Bytes) -> (r: Result<Frame, FrameError>)
    ensures
        frame_result_view(r) == decode_shared(bytes_view(buf)),
{
    let data: &[u8] = buf.deref();
    if data.len() < MIN_HEADER_SIZE {
        return Err(FrameError::IncompleteFrame { expected: MIN_HEADER_SIZE, actual: data.len() });
    }
    if !starts_with_marker(data) {
        return Err(bad_marker(data));
    }
    let header = read_header(data);
    if header.version != PROTOCOL_VERSION {
        return Err(FrameError::UnsupportedVersion(header.version));
    }
    let total = declared_size(&header);
    if total > MAX_FRAME_SIZE as u64 {
        return Err(too_large(total));
    }
    let total: usize = total as usize;
    if data.len() < total {
        return Err(FrameError::IncompleteFrame { expected: total, actual: data.len() });
    }
    if header.payload_len > MAX_PAYLOAD_SIZE {
        return Err(FrameError::PayloadTooLarge(header.payload_len, MAX_PAYLOAD_SIZE));
    }
    match verify_trailer(&header, data) {
        Err(e) => {
            return Err(e);
        },
        Ok(()) => {},
    }
    let payload_end: usize = 50 + header.payload_len as usize;
    let payload = bytes_slice(&buf, 50, payload_end);
    match header.flags.trailer_type() {
        TrailerType::NoTrailer => Ok(Frame::new(header, payload)),
        _ => {
            let trailer = bytes_slice(&buf, payload_end, total);
            Ok(Frame::with_trailer(header, payload, trailer))
        },
    }
}

/// What the look at a header returns: the size that the header declares
/// for its frame, or the error of a missing header or of a frame that is
/// too large.
pub open spec fn lookahead(data: Seq<u8>) -> Result<usize, FrameErrorView> {
    if data.len() < 50 {
        Err(FrameErrorView::IncompleteFrame { expected: 50, actual: data.len() as usize })
    } else if frame_size(parse_header(data)) > MAX_FRAME_SIZE {
        Err(FrameErrorView::FrameTooLarge(reported_size(parse_header(data)), MAX_FRAME_SIZE))
    } else {
        Ok(frame_size(parse_header(data)) as usize)
    }
}

/// Looks at marker and header at the start of `data` to tell the size of
/// the frame: 50 bytes, the payload, and the trailer that the flags
/// select. A reader learns from it how many bytes the frame takes before it
/// reads or allocates them.
pub fn peek_frame_size(data: &[u8]) -> (r: Result<usize, FrameError>)
    ensures
        match lookahead(data@) {
            Ok(n) => r == Ok::<usize, FrameError>(n),
            Err(e) => r matches Err(x) && x@ == e,
        },
{
    if data.len() < MIN_HEADER_SIZE {
        return Err(FrameError::IncompleteFrame { expected: MIN_HEADER_SIZE, actual: data.len() });
    }
    let header = read_header(data);
    let total = declared_size(&header);
    if total > MAX_FRAME_SIZE as u64 {
        return Err(too_large(total));
    }
    Ok(total as usize)
}

/// Decodes the frame at the start of `data` strictly and tells how many
/// bytes it took.
pub fn try_decode_frame(data: &[u8]) -> (r: Result<(Frame, usize), FrameError>)
    ensures
        match decode_strict(data@) {
            Ok(f) => r matches Ok(p) && p.0@ == f && p.1 == frame_size(f.header),
            Err(e) => r matches Err(x) && x@ == e,
        },
{
    match decode_frame_from_bytes(data) {
        Err(e) => Err(e),
        Ok(frame) => {
            let size = declared_size(&frame.header) as usize;
            Ok((frame, size))
        },
    }
}

} // verus!
