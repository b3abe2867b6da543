//! The wire layout, byte for byte, and the errors of the decoder.

use bytes::Bytes;
use durapack::constants::{
    FrameFlags, TrailerType, FRAME_MARKER, MAX_FRAME_SIZE, MAX_PAYLOAD_SIZE, MIN_HEADER_SIZE,
    PREAMBLE_PATTERN, ROBUST_SYNC_WORD,
};
use durapack::decoder::{
    decode_frame_from_bytes, decode_frame_from_bytes_zero_copy, peek_frame_size, try_decode_frame,
};
use durapack::encoder::{
    compute_chain_hash, ed25519_sign_header_payload, encode_frame, encode_frame_signed,
    encode_frame_struct_signed, FrameBuilder,
};
use durapack::error::FrameError;
use durapack::types::{DurapackSerializable, Frame, FrameHeader};
use ed25519_dalek::{Signature, SigningKey, Verifier};

fn header_bytes(version: u8, id: u64, prev: [u8; 32], len: u32, flags: u8) -> Vec<u8> {
    let mut v = vec![version];
    v.extend_from_slice(&id.to_be_bytes());
    v.extend_from_slice(&prev);
    v.extend_from_slice(&len.to_be_bytes());
    v.push(flags);
    v
}

#[test]
fn layout_without_trailer_is_marker_header_payload() {
    let header = FrameHeader::new(0x0102030405060708, [9u8; 32], 3);
    let encoded = encode_frame(&header, b"abc").unwrap();
    let mut expected = b"DURP".to_vec();
    expected.extend_from_slice(&header_bytes(1, 0x0102030405060708, [9u8; 32], 3, 0));
    expected.extend_from_slice(b"abc");
    assert_eq!(&encoded[..], &expected[..]);
    assert_eq!(encoded.len(), 53);
}

#[test]
fn crc32c_trailer_is_checksum_of_marker_header_payload() {
    let header = FrameHeader::with_flags(7, [0u8; 32], 5, FrameFlags::new(FrameFlags::HAS_CRC32C));
    let encoded = encode_frame(&header, b"hello").unwrap();
    assert_eq!(encoded.len(), 50 + 5 + 4);
    let body = &encoded[..55];
    let expected = crc32c::crc32c(body);
    assert_eq!(&encoded[55..], &expected.to_be_bytes());
    // The checksum of the standard check string.
    assert_eq!(crc32c::crc32c(b"123456789"), 0xE3069283);
}

#[test]
fn blake3_trailer_is_hash_of_marker_header_payload() {
    let header = FrameHeader::with_flags(7, [0u8; 32], 5, FrameFlags::new(FrameFlags::HAS_BLAKE3));
    let encoded = encode_frame(&header, b"hello").unwrap();
    assert_eq!(encoded.len(), 50 + 5 + 32);
    let expected = blake3::hash(&encoded[..55]);
    assert_eq!(&encoded[55..], expected.as_bytes());
    assert_ne!(&encoded[55..], &encoded[..32]);
}

#[test]
fn signed_trailer_without_key_holds_zeros() {
    let header = FrameHeader::with_flags(7, [0u8; 32], 5, FrameFlags::new(0x03));
    let encoded = encode_frame(&header, b"hello").unwrap();
    assert_eq!(encoded.len(), 50 + 5 + 96);
    assert_eq!(&encoded[55..87], blake3::hash(&encoded[..55]).as_bytes());
    assert_eq!(&encoded[87..], &[0u8; 64][..]);
}

#[test]
fn signed_trailer_with_key_holds_signature() {
    let key = [7u8; 32];
    let header = FrameHeader::with_flags(7, [0u8; 32], 5, FrameFlags::new(0x03));
    let encoded = encode_frame_signed(&header, b"hello", &key).unwrap();
    assert_eq!(encoded.len(), 50 + 5 + 96);
    let mut sig = [0u8; 64];
    sig.copy_from_slice(&encoded[87..]);
    assert_ne!(sig, [0u8; 64]);
    let verifying = SigningKey::from_bytes(&key).verifying_key();
    assert!(verifying
        .verify(&encoded[..55], &Signature::from_bytes(&sig))
        .is_ok());
    // The same signature through the frame.
    let frame = Frame::new(header, Bytes::from_static(b"hello"));
    assert_eq!(ed25519_sign_header_payload(&frame, &key), sig);
    assert_eq!(
        &encode_frame_struct_signed(&frame, &key).unwrap()[..],
        &encoded[..]
    );
}

#[test]
fn signing_key_is_not_used_with_other_trailers() {
    let key = [7u8; 32];
    let header = FrameHeader::with_flags(7, [0u8; 32], 5, FrameFlags::new(FrameFlags::HAS_BLAKE3));
    let signed = encode_frame_signed(&header, b"hello", &key).unwrap();
    let plain = encode_frame(&header, b"hello").unwrap();
    assert_eq!(signed, plain);
}

#[test]
fn prefixes_stand_before_the_marker() {
    let flags = FrameFlags::HAS_PREAMBLE | FrameFlags::HAS_SYNC_PREFIX | FrameFlags::HAS_CRC32C;
    let header = FrameHeader::with_flags(1, [0u8; 32], 2, FrameFlags::new(flags));
    let encoded = encode_frame(&header, b"hi").unwrap();
    assert_eq!(encoded.len(), 16 + 50 + 2 + 4);
    assert_eq!(&encoded[..8], &[0x55, 0xAA, 0x55, 0xAA, 0x55, 0xAA, 0x55, 0xAA]);
    assert_eq!(&encoded[8..16], &ROBUST_SYNC_WORD);
    assert_eq!(&encoded[16..20], &FRAME_MARKER);
    assert_eq!(PREAMBLE_PATTERN, [0x55, 0xAA]);
    // The frame decodes from the marker on, and the scanner finds it.
    let decoded = decode_frame_from_bytes(&encoded[16..]).unwrap();
    assert_eq!(decoded.payload.as_ref(), b"hi");
    let located = durapack::scanner::scan_stream(&encoded);
    assert_eq!(located.len(), 1);
    assert_eq!(located[0].offset, 16);
    assert_eq!(located[0].size, 56);
    // With only the sync word.
    let header = FrameHeader::with_flags(1, [0u8; 32], 2, FrameFlags::new(FrameFlags::HAS_SYNC_PREFIX));
    let encoded = encode_frame(&header, b"hi").unwrap();
    assert_eq!(&encoded[..8], &ROBUST_SYNC_WORD);
    assert_eq!(&encoded[8..12], b"DURP");
}

#[test]
fn encode_refuses_wrong_length_and_invalid_headers() {
    let header = FrameHeader::new(1, [0u8; 32], 4);
    let err = encode_frame(&header, b"abc").unwrap_err();
    assert_eq!(
        err,
        FrameError::InvalidStructure("Payload length mismatch: header says 4, actual 3".to_string())
    );
    let mut header = FrameHeader::new(1, [0u8; 32], 3);
    header.version = 2;
    assert_eq!(
        encode_frame(&header, b"abc").unwrap_err(),
        FrameError::UnsupportedVersion(2)
    );
    let header = FrameHeader::new(1, [0u8; 32], MAX_PAYLOAD_SIZE + 1);
    assert_eq!(
        encode_frame(&header, b"abc").unwrap_err(),
        FrameError::PayloadTooLarge(MAX_PAYLOAD_SIZE + 1, MAX_PAYLOAD_SIZE)
    );
}

#[test]
fn maximum_payload_size_is_enforced() {
    assert_eq!(MAX_FRAME_SIZE, 16 * 1024 * 1024);
    assert_eq!(MAX_PAYLOAD_SIZE, 16 * 1024 * 1024 - 1024);
    assert!(FrameHeader::new(1, [0u8; 32], MAX_PAYLOAD_SIZE).validate().is_ok());
    assert!(FrameHeader::new(1, [0u8; 32], MAX_PAYLOAD_SIZE + 1).validate().is_err());
    assert!(FrameHeader::new(1, [0u8; 32], 16_777_000).validate().is_err());
    assert!(FrameHeader::new(1, [0u8; 32], u32::MAX).validate().is_err());
}

#[test]
fn decoder_errors_come_in_order() {
    // Too short for a marker.
    assert_eq!(
        decode_frame_from_bytes(b"DU").unwrap_err(),
        FrameError::IncompleteFrame { expected: 50, actual: 2 }
    );
    // A wrong marker.
    assert_eq!(
        decode_frame_from_bytes(b"NOPE").unwrap_err(),
        FrameError::BadMarker(*b"NOPE")
    );
    // A marker without a header.
    assert_eq!(
        decode_frame_from_bytes(b"DURP\x01").unwrap_err(),
        FrameError::IncompleteFrame { expected: 50, actual: 5 }
    );
    // A wrong version.
    let mut data = b"DURP".to_vec();
    data.extend_from_slice(&header_bytes(9, 1, [0u8; 32], 0, 0));
    assert_eq!(
        decode_frame_from_bytes(&data).unwrap_err(),
        FrameError::UnsupportedVersion(9)
    );
    // A frame that declares more than the maximum frame size.
    let mut data = b"DURP".to_vec();
    data.extend_from_slice(&header_bytes(1, 1, [0u8; 32], MAX_FRAME_SIZE, 0x01));
    assert_eq!(
        decode_frame_from_bytes(&data).unwrap_err(),
        FrameError::FrameTooLarge(MAX_FRAME_SIZE + 54, MAX_FRAME_SIZE)
    );
    // A declared size above 32 bits is reported as the largest 32-bit number.
    let mut data = b"DURP".to_vec();
    data.extend_from_slice(&header_bytes(1, 1, [0u8; 32], u32::MAX, 0));
    assert_eq!(
        decode_frame_from_bytes(&data).unwrap_err(),
        FrameError::FrameTooLarge(u32::MAX, MAX_FRAME_SIZE)
    );
    assert_eq!(
        peek_frame_size(&data).unwrap_err(),
        FrameError::FrameTooLarge(u32::MAX, MAX_FRAME_SIZE)
    );
    let mut data = b"DURP".to_vec();
    data.extend_from_slice(&header_bytes(1, 1, [0u8; 32], u32::MAX - 60, 0x01));
    assert_eq!(
        decode_frame_from_bytes(&data).unwrap_err(),
        FrameError::FrameTooLarge(u32::MAX - 6, MAX_FRAME_SIZE)
    );
    // A payload above the limit in a frame that is not too large.
    let mut data = b"DURP".to_vec();
    data.extend_from_slice(&header_bytes(1, 1, [0u8; 32], MAX_PAYLOAD_SIZE + 1, 0));
    assert_eq!(
        decode_frame_from_bytes(&data).unwrap_err(),
        FrameError::PayloadTooLarge(MAX_PAYLOAD_SIZE + 1, MAX_PAYLOAD_SIZE)
    );
    // A frame that is cut off.
    let mut data = b"DURP".to_vec();
    data.extend_from_slice(&header_bytes(1, 1, [0u8; 32], 10, 0x01));
    data.extend_from_slice(b"12345");
    assert_eq!(
        decode_frame_from_bytes(&data).unwrap_err(),
        FrameError::IncompleteFrame { expected: 64, actual: 55 }
    );
}

#[test]
fn decoder_reports_checksum_and_hash_mismatch() {
    let header = FrameHeader::with_flags(7, [0u8; 32], 5, FrameFlags::new(FrameFlags::HAS_CRC32C));
    let mut data = encode_frame(&header, b"hello").unwrap().to_vec();
    let stored = u32::from_be_bytes([data[55], data[56], data[57], data[58]]);
    data[52] ^= 0xFF;
    let actual = crc32c::crc32c(&data[..55]);
    assert_eq!(
        decode_frame_from_bytes(&data).unwrap_err(),
        FrameError::ChecksumMismatch { expected: stored, actual }
    );
    for flags in [0x02u8, 0x03u8] {
        let header = FrameHeader::with_flags(7, [0u8; 32], 5, FrameFlags::new(flags));
        let mut data = encode_frame(&header, b"hello").unwrap().to_vec();
        data[52] ^= 0xFF;
        assert_eq!(decode_frame_from_bytes(&data).unwrap_err(), FrameError::HashMismatch);
        assert_eq!(
            decode_frame_from_bytes_zero_copy(Bytes::from(data)).unwrap_err(),
            FrameError::HashMismatch
        );
    }
    // A damaged signature does not trouble the decoder.
    let header = FrameHeader::with_flags(7, [0u8; 32], 5, FrameFlags::new(0x03));
    let mut data = encode_frame(&header, b"hello").unwrap().to_vec();
    data[100] ^= 0xFF;
    assert!(decode_frame_from_bytes(&data).is_ok());
}

#[test]
fn strict_and_zero_copy_decoding_differ_in_trailer_and_order() {
    let header = FrameHeader::new(5, [3u8; 32], 4);
    let encoded = encode_frame(&header, b"data").unwrap();
    let strict = decode_frame_from_bytes(&encoded).unwrap();
    assert_eq!(strict.header, header);
    assert_eq!(strict.trailer, Some(Bytes::new()));
    let shared = decode_frame_from_bytes_zero_copy(encoded.clone()).unwrap();
    assert_eq!(shared.header, header);
    assert_eq!(shared.payload, Bytes::from_static(b"data"));
    assert_eq!(shared.trailer, None);
    // With a trailer both hold it.
    let header = FrameHeader::with_flags(5, [3u8; 32], 4, FrameFlags::new(FrameFlags::HAS_CRC32C));
    let encoded = encode_frame(&header, b"data").unwrap();
    let strict = decode_frame_from_bytes(&encoded).unwrap();
    let shared = decode_frame_from_bytes_zero_copy(encoded.clone()).unwrap();
    assert_eq!(strict.trailer.as_ref().unwrap().len(), 4);
    assert_eq!(strict.trailer, shared.trailer);
    assert_eq!(strict.trailer.clone().unwrap(), encoded.slice(54..58));
    assert_eq!(strict.total_size(), 58);
    // The zero-copy decoder asks for the header before it looks at the marker.
    assert_eq!(
        decode_frame_from_bytes_zero_copy(Bytes::from_static(b"NOPE")).unwrap_err(),
        FrameError::IncompleteFrame { expected: 50, actual: 4 }
    );
    let mut bad = vec![0u8; 50];
    bad[..4].copy_from_slice(b"NOPE");
    assert_eq!(
        decode_frame_from_bytes_zero_copy(Bytes::from(bad)).unwrap_err(),
        FrameError::BadMarker(*b"NOPE")
    );
}

#[test]
fn decoding_ignores_what_stands_behind_the_frame() {
    let header = FrameHeader::with_flags(5, [3u8; 32], 4, FrameFlags::new(FrameFlags::HAS_BLAKE3));
    let mut data = encode_frame(&header, b"data").unwrap().to_vec();
    data.extend_from_slice(b"trailing bytes");
    let (frame, size) = try_decode_frame(&data).unwrap();
    assert_eq!(size, 50 + 4 + 32);
    assert_eq!(frame.payload.as_ref(), b"data");
    assert_eq!(peek_frame_size(&data[..50]).unwrap(), 86);
    assert_eq!(
        peek_frame_size(&data[..49]).unwrap_err(),
        FrameError::IncompleteFrame { expected: 50, actual: 49 }
    );
}

#[test]
fn round_trip_over_many_payloads() {
    for len in [0usize, 1, 2, 31, 32, 33, 255, 256, 1023] {
        for flags in [0u8, 0x01, 0x02, 0x03, 0x04 | 0x01, 0x08 | 0x02, 0x40, 0x80 | 0x01] {
            let payload: Vec<u8> = (0..len).map(|i| (i * 7 + len) as u8).collect();
            let header = FrameHeader::with_flags(
                len as u64 * 1000 + flags as u64,
                [flags; 32],
                len as u32,
                FrameFlags::new(flags),
            );
            let encoded = encode_frame(&header, &payload).unwrap();
            assert_eq!(
                encoded.len(),
                MIN_HEADER_SIZE + len + FrameFlags::new(flags).trailer_type().size()
            );
            let decoded = decode_frame_from_bytes(&encoded).unwrap();
            assert_eq!(decoded.header, header);
            assert_eq!(decoded.payload.as_ref(), &payload[..]);
        }
    }
}

#[test]
fn flags_select_the_trailer() {
    assert_eq!(FrameFlags::new(0x00).trailer_type(), TrailerType::NoTrailer);
    assert_eq!(FrameFlags::new(0x01).trailer_type(), TrailerType::Crc32c);
    assert_eq!(FrameFlags::new(0x02).trailer_type(), TrailerType::Blake3);
    assert_eq!(FrameFlags::new(0x03).trailer_type(), TrailerType::Blake3WithEd25519Sig);
    assert_eq!(TrailerType::NoTrailer.size(), 0);
    assert_eq!(TrailerType::Crc32c.size(), 4);
    assert_eq!(TrailerType::Blake3.size(), 32);
    assert_eq!(TrailerType::Blake3WithEd25519Sig.size(), 96);
    let all = FrameFlags::new(0xFF);
    assert!(all.has_crc32c() && all.has_blake3() && all.is_first() && all.is_last());
    assert!(all.has_preamble() && all.has_sync_prefix() && all.is_superframe() && all.has_skiplist());
    let none = FrameFlags::default();
    assert_eq!(none.as_u8(), 0);
    assert!(!none.has_crc32c() && !none.has_blake3() && !none.is_first() && !none.is_last());
    assert!(!none.has_preamble() && !none.has_sync_prefix());
    assert!(!none.is_superframe() && !none.has_skiplist());
    assert!(FrameFlags::new(FrameFlags::IS_SUPERFRAME).is_superframe());
    assert!(FrameFlags::new(FrameFlags::HAS_SKIPLIST).has_skiplist());
}

#[test]
fn builder_sets_flags_and_clears_the_hash_of_the_first_frame() {
    let frame = FrameBuilder::new(9)
        .prev_hash([5u8; 32])
        .payload(Bytes::from_static(b"xyz"))
        .with_blake3_signature()
        .mark_last()
        .as_superframe()
        .with_skiplist()
        .build_struct()
        .unwrap();
    assert_eq!(frame.header.flags.as_u8(), 0x03 | 0x08 | 0x40 | 0x80);
    assert_eq!(frame.header.prev_hash, [5u8; 32]);
    assert_eq!(frame.header.payload_len, 3);
    assert_eq!(frame.frame_id(), 9);
    assert_eq!(frame.prev_hash(), &[5u8; 32]);
    assert!(!frame.header.is_first());
    assert!(frame.validate().is_ok());
    assert_eq!(frame.total_size(), 53);
    let first = FrameBuilder::new(9)
        .prev_hash([5u8; 32])
        .mark_first()
        .sign_with_ed25519(&[1u8; 32])
        .build_struct()
        .unwrap();
    assert_eq!(first.header.prev_hash, [0u8; 32]);
    assert_eq!(first.header.flags.as_u8(), 0x04 | 0x03);
    assert!(first.header.is_first());
    let mismatched = Frame::new(FrameHeader::new(1, [0u8; 32], 9), Bytes::from_static(b"xyz"));
    assert_eq!(
        mismatched.validate().unwrap_err(),
        FrameError::InvalidStructure("Payload length mismatch: header says 9, actual 3".to_string())
    );
}

#[test]
fn chain_hash_covers_header_and_payload_but_not_the_marker() {
    let frame = Frame::new(FrameHeader::new(1, [0u8; 32], 4), Bytes::from("test"));
    let mut input = header_bytes(1, 1, [0u8; 32], 4, 0);
    input.extend_from_slice(b"test");
    assert_eq!(frame.compute_hash(), *blake3::hash(&input).as_bytes());
    assert_eq!(compute_chain_hash(&frame, None), frame.compute_hash());
    let mut input = header_bytes(1, 1, [0u8; 32], 4, 0);
    input.extend_from_slice(b"TRAILER");
    input.extend_from_slice(b"test");
    assert_eq!(
        compute_chain_hash(&frame, Some(b"TRAILER")),
        *blake3::hash(&input).as_bytes()
    );
}

#[test]
fn payloads_of_common_types() {
    let bytes = vec![1u8, 2, 3];
    assert_eq!(bytes.to_payload().unwrap(), Bytes::from_static(&[1, 2, 3]));
    assert_eq!(Vec::<u8>::from_payload(&[4, 5]).unwrap(), vec![4, 5]);
    let buffer = Bytes::from_static(b"buf");
    assert_eq!(buffer.to_payload().unwrap(), buffer);
    assert_eq!(Bytes::from_payload(b"buf").unwrap(), buffer);
    let text = "gr\u{fc}n".to_string();
    assert_eq!(text.to_payload().unwrap().as_ref(), "gr\u{fc}n".as_bytes());
    assert_eq!(String::from_payload("gr\u{fc}n".as_bytes()).unwrap(), text);
    assert!(matches!(
        String::from_payload(&[0xFF, 0xFE]),
        Err(FrameError::Serialization(_))
    ));
}

#[test]
fn errors_have_messages() {
    assert_eq!(
        FrameError::BadMarker(*b"NOPE").message(),
        "Invalid frame marker: expected DURP, got [78, 79, 80, 69]"
    );
    assert_eq!(
        FrameError::UnsupportedVersion(9).message(),
        "Unsupported protocol version: 9"
    );
    assert_eq!(
        FrameError::FrameTooLarge(16777300, 16777216).message(),
        "Frame size 16777300 exceeds maximum 16777216"
    );
    assert_eq!(
        FrameError::PayloadTooLarge(4294967295, 16776192).message(),
        "Payload size 4294967295 exceeds maximum 16776192"
    );
    assert_eq!(
        FrameError::IncompleteFrame { expected: 50, actual: 0 }.message(),
        "Incomplete frame: expected 50 bytes, got 0"
    );
    assert_eq!(
        FrameError::ChecksumMismatch { expected: 0xdeadbeef, actual: 0x10 }.message(),
        "Checksum mismatch: expected deadbeef, got 10"
    );
    assert_eq!(FrameError::HashMismatch.message(), "Hash mismatch");
    assert_eq!(FrameError::Io("disk".to_string()).message(), "IO error: disk");
    assert_eq!(
        FrameError::Serialization("bad".to_string()).message(),
        "Serialization error: bad"
    );
    assert_eq!(
        FrameError::InvalidStructure("no blocks".to_string()).message(),
        "Invalid frame structure: no blocks"
    );
    assert_eq!(
        FrameError::NoFramesFound.message(),
        "No valid frames found in stream"
    );
    assert_eq!(
        FrameError::SequenceGap(12, 10).message(),
        "Gap in sequence: frame 12 references prev_id 10 which is missing"
    );
    assert_eq!(
        FrameError::BackLinkMismatch(18446744073709551615).message(),
        "Back-link hash mismatch for frame 18446744073709551615"
    );
}

#[test]
fn a_first_frame_is_built_with_a_previous_hash_of_zeros() {
    let f = FrameBuilder::new(1)
        .mark_first()
        .prev_hash([1u8; 32])
        .build_struct()
        .unwrap();
    assert_eq!(f.header.flags.as_u8(), 0x04);
    assert_eq!(f.header.prev_hash, [0u8; 32]);
    assert_eq!(f.header.frame_id, 1);
    assert_eq!(f.header.version, 1);
    assert_eq!(f.header.payload_len, 0);
    assert!(f.payload.is_empty());
    assert!(f.trailer.is_none());
    let encoded = FrameBuilder::new(1)
        .mark_first()
        .prev_hash([1u8; 32])
        .build()
        .unwrap();
    assert_eq!(&encoded[13..45], &[0u8; 32]);
    assert_eq!(encoded[49], 0x04);
    // Without the mark the hash is kept.
    let f = FrameBuilder::new(2).prev_hash([1u8; 32]).build_struct().unwrap();
    assert_eq!(f.header.prev_hash, [1u8; 32]);
}

#[test]
fn a_prefixed_frame_decodes_from_its_marker_on() {
    for (flags, prefix_len) in [
        (FrameFlags::HAS_PREAMBLE, 8usize),
        (FrameFlags::HAS_SYNC_PREFIX, 8),
        (FrameFlags::HAS_PREAMBLE | FrameFlags::HAS_SYNC_PREFIX, 16),
        (FrameFlags::HAS_PREAMBLE | FrameFlags::HAS_SYNC_PREFIX | FrameFlags::HAS_BLAKE3, 16),
    ] {
        let header = FrameHeader::with_flags(9, [3u8; 32], 5, FrameFlags::new(flags));
        let encoded = encode_frame(&header, b"hello").unwrap();
        let frame = decode_frame_from_bytes(&encoded[prefix_len..]).unwrap();
        assert_eq!(frame.header, header);
        assert_eq!(frame.payload.as_ref(), b"hello");
        // Before the marker stands the prefix, which is no marker.
        assert!(matches!(
            decode_frame_from_bytes(&encoded),
            Err(FrameError::BadMarker(_))
        ));
    }
}
