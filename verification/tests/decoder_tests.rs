use durapack::constants::FrameFlags;
use durapack::decoder::decode_frame_from_bytes;
use durapack::encoder::encode_frame;
use durapack::error::FrameError;
use durapack::types::FrameHeader;

#[test]
fn test_decode_simple_frame() {
    let payload = b"Hello, Durapack!";
    let header = FrameHeader::new(1, [0u8; 32], payload.len() as u32);

    let encoded = encode_frame(&header, payload).unwrap();
    let decoded = decode_frame_from_bytes(&encoded).unwrap();

    assert_eq!(decoded.header.frame_id, 1);
    assert_eq!(decoded.payload.as_ref(), payload);
}

#[test]
fn test_decode_with_crc() {
    let payload = b"test payload";
    let header = FrameHeader::with_flags(
        42,
        [0u8; 32],
        payload.len() as u32,
        FrameFlags::new(FrameFlags::HAS_CRC32C),
    );

    let encoded = encode_frame(&header, payload).unwrap();
    let decoded = decode_frame_from_bytes(&encoded).unwrap();

    assert_eq!(decoded.header.frame_id, 42);
    assert_eq!(decoded.payload.as_ref(), payload);
}

#[test]
fn test_decode_bad_marker() {
    let bad_data = b"NOPE\x01\x00\x00\x00\x00\x00\x00\x00\x00";
    let result = decode_frame_from_bytes(bad_data);

    assert!(matches!(result, Err(FrameError::BadMarker(_))));
}

#[test]
fn test_round_trip() {
    let payload = b"Round trip test payload";
    let header = FrameHeader::with_flags(
        100,
        [1u8; 32],
        payload.len() as u32,
        FrameFlags::new(FrameFlags::HAS_BLAKE3),
    );

    let encoded = encode_frame(&header, payload).unwrap();
    let decoded = decode_frame_from_bytes(&encoded).unwrap();

    assert_eq!(decoded.header.frame_id, 100);
    assert_eq!(decoded.header.prev_hash, [1u8; 32]);
    assert_eq!(decoded.payload.as_ref(), payload);
}
