use bytes::Bytes;
use durapack::constants::{FrameFlags, MIN_HEADER_SIZE};
use durapack::encoder::{encode_frame, FrameBuilder};
use durapack::types::FrameHeader;

#[test]
fn test_encode_simple_frame() {
    let payload = b"Hello, Durapack!";
    let header = FrameHeader::new(1, [0u8; 32], payload.len() as u32);

    let encoded = encode_frame(&header, payload).unwrap();

    // Check marker
    assert_eq!(&encoded[0..4], b"DURP");

    // Check version
    assert_eq!(encoded[4], 1);

    // Check frame ID (big-endian)
    assert_eq!(&encoded[5..13], &1u64.to_be_bytes());
}

#[test]
fn test_frame_builder() {
    let payload = Bytes::from("test payload");
    let encoded = FrameBuilder::new(42)
        .payload(payload)
        .with_crc32c()
        .mark_first()
        .build()
        .unwrap();

    assert!(encoded.len() > MIN_HEADER_SIZE + 12);
    assert_eq!(&encoded[0..4], b"DURP");
}

#[test]
fn test_encode_with_blake3() {
    let payload = b"test";
    let header = FrameHeader::with_flags(
        1,
        [0u8; 32],
        payload.len() as u32,
        FrameFlags::new(FrameFlags::HAS_BLAKE3),
    );

    let encoded = encode_frame(&header, payload).unwrap();

    // Should include 32-byte BLAKE3 hash at the end
    assert_eq!(encoded.len(), MIN_HEADER_SIZE + 4 + 32);
}
