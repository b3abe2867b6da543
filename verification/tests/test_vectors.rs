//! The corruption scenarios of the format, on streams built in memory.

use bytes::Bytes;
use durapack::decoder::decode_frame_from_bytes;
use durapack::encoder::{encode_frame_struct, FrameBuilder};
use durapack::error::FrameError;
use durapack::linker::link_frames;
use durapack::scanner::scan_stream;

fn minimal_frame() -> Bytes {
    FrameBuilder::new(1)
        .payload(Bytes::new())
        .mark_first()
        .build()
        .unwrap()
}

fn linked_sequence() -> Vec<u8> {
    let frame1_struct = FrameBuilder::new(1)
        .payload(Bytes::from("First frame"))
        .mark_first()
        .with_blake3()
        .build_struct()
        .unwrap();
    let hash1 = frame1_struct.compute_hash();
    let frame2_struct = FrameBuilder::new(2)
        .payload(Bytes::from("Second frame"))
        .prev_hash(hash1)
        .with_blake3()
        .build_struct()
        .unwrap();
    let hash2 = frame2_struct.compute_hash();
    let frame3_struct = FrameBuilder::new(3)
        .payload(Bytes::from("Third frame"))
        .prev_hash(hash2)
        .mark_last()
        .with_blake3()
        .build_struct()
        .unwrap();
    let mut stream = Vec::new();
    stream.extend_from_slice(&encode_frame_struct(&frame1_struct).unwrap());
    stream.extend_from_slice(&encode_frame_struct(&frame2_struct).unwrap());
    stream.extend_from_slice(&encode_frame_struct(&frame3_struct).unwrap());
    stream
}

fn reordered_frames() -> Vec<u8> {
    let frame1_struct = FrameBuilder::new(1)
        .payload(Bytes::from("First frame"))
        .mark_first()
        .with_blake3()
        .build_struct()
        .unwrap();
    let hash1 = frame1_struct.compute_hash();
    let frame2_struct = FrameBuilder::new(2)
        .payload(Bytes::from("Second frame"))
        .prev_hash(hash1)
        .with_blake3()
        .build_struct()
        .unwrap();
    let hash2 = frame2_struct.compute_hash();
    let frame3_struct = FrameBuilder::new(3)
        .payload(Bytes::from("Third frame"))
        .prev_hash(hash2)
        .with_blake3()
        .build_struct()
        .unwrap();
    let hash3 = frame3_struct.compute_hash();
    let frame4_struct = FrameBuilder::new(4)
        .payload(Bytes::from("Fourth frame"))
        .prev_hash(hash3)
        .mark_last()
        .with_blake3()
        .build_struct()
        .unwrap();
    let frame1 = encode_frame_struct(&frame1_struct).unwrap();
    let frame2 = encode_frame_struct(&frame2_struct).unwrap();
    let frame3 = encode_frame_struct(&frame3_struct).unwrap();
    let frame4 = encode_frame_struct(&frame4_struct).unwrap();
    // Scrambled order: 3, 1, 4, 2
    let mut stream = Vec::new();
    stream.extend_from_slice(&frame3);
    stream.extend_from_slice(&frame1);
    stream.extend_from_slice(&frame4);
    stream.extend_from_slice(&frame2);
    stream
}

#[test]
fn test_validate_minimal_frame() {
    let data = minimal_frame();
    assert_eq!(data.len(), 50);
    let frame = decode_frame_from_bytes(&data).unwrap();
    assert_eq!(frame.header.frame_id, 1);
    assert_eq!(frame.payload.len(), 0);
    assert_eq!(frame.header.flags.as_u8(), 0x04);
    let located = scan_stream(&data);
    assert_eq!(located.len(), 1);
    assert_eq!(located[0].offset, 0);
    assert_eq!(located[0].size, 50);
}

#[test]
fn test_validate_linked_sequence() {
    let data = linked_sequence();
    let located = scan_stream(&data);
    assert_eq!(located.len(), 3);

    let frames: Vec<_> = located.into_iter().map(|lf| lf.frame).collect();
    let timeline = link_frames(frames);

    assert_eq!(timeline.frames.len(), 3);
    assert_eq!(timeline.gaps.len(), 0);
    assert_eq!(timeline.orphans.len(), 0);
    assert_eq!(timeline.stats().continuity, 100);
}

#[test]
fn test_validate_truncated_frame() {
    let frame = FrameBuilder::new(1)
        .payload(Bytes::from("This frame will be truncated"))
        .with_crc32c()
        .build()
        .unwrap();
    // Truncate after 30 bytes (middle of header)
    let data = &frame[..30];
    let result = decode_frame_from_bytes(data);
    assert!(result.is_err());
    assert_eq!(
        result.unwrap_err(),
        FrameError::IncompleteFrame {
            expected: 50,
            actual: 30
        }
    );
}

#[test]
fn test_validate_bit_flip_error() {
    let frame = FrameBuilder::new(1)
        .payload(Bytes::from("Data with single bit error"))
        .with_crc32c()
        .build()
        .unwrap();
    let mut data = frame.to_vec();
    // Flip a bit in the payload (byte 60)
    data[60] ^= 0x01;
    let result = decode_frame_from_bytes(&data);
    assert!(result.is_err());
    assert!(matches!(
        result,
        Err(FrameError::ChecksumMismatch { .. })
    ));
}

#[test]
fn test_validate_burst_error() {
    let frame1 = FrameBuilder::new(1)
        .payload(Bytes::from("Frame before burst"))
        .with_blake3()
        .build()
        .unwrap();
    let frame2 = FrameBuilder::new(2)
        .payload(Bytes::from("Frame in burst zone"))
        .with_blake3()
        .build()
        .unwrap();
    let frame3 = FrameBuilder::new(3)
        .payload(Bytes::from("Frame after burst"))
        .with_blake3()
        .build()
        .unwrap();
    let mut data = Vec::new();
    data.extend_from_slice(&frame1);
    let burst_start = data.len();
    data.extend_from_slice(&frame2);
    let burst_end = data.len();
    data.extend_from_slice(&frame3);
    for i in burst_start..(burst_start + 50).min(burst_end) {
        data[i] = 0xFF;
    }
    let located = scan_stream(&data);
    // Should find 2 frames (1 and 3), frame 2 is destroyed
    assert_eq!(located.len(), 2);
}

#[test]
fn test_validate_inserted_garbage() {
    let frame1 = FrameBuilder::new(1)
        .payload(Bytes::from("Frame before garbage"))
        .with_crc32c()
        .build()
        .unwrap();
    let frame2 = FrameBuilder::new(2)
        .payload(Bytes::from("Frame after garbage"))
        .with_crc32c()
        .build()
        .unwrap();
    let mut data = Vec::new();
    data.extend_from_slice(&frame1);
    data.extend_from_slice(&vec![0xAA; 100]);
    data.extend_from_slice(&frame2);
    let located = scan_stream(&data);
    // Should find both frames despite garbage
    assert_eq!(located.len(), 2);
    assert_eq!(located[1].offset, frame1.len() + 100);
}

#[test]
fn test_validate_swapped_frames() {
    let frame1 = FrameBuilder::new(1)
        .payload(Bytes::from("First frame"))
        .mark_first()
        .with_blake3()
        .build()
        .unwrap();
    let frame2 = FrameBuilder::new(2)
        .payload(Bytes::from("Second frame"))
        .with_blake3()
        .build()
        .unwrap();
    let frame3 = FrameBuilder::new(3)
        .payload(Bytes::from("Third frame"))
        .mark_last()
        .with_blake3()
        .build()
        .unwrap();
    let mut data = Vec::new();
    data.extend_from_slice(&frame3);
    data.extend_from_slice(&frame1);
    data.extend_from_slice(&frame2);
    let located = scan_stream(&data);
    assert_eq!(located.len(), 3);

    // Frames should be found in physical order: 3, 1, 2
    assert_eq!(located[0].frame.header.frame_id, 3);
    assert_eq!(located[1].frame.header.frame_id, 1);
    assert_eq!(located[2].frame.header.frame_id, 2);
}

#[test]
fn test_validate_reordered_with_links() {
    let data = reordered_frames();
    let located = scan_stream(&data);
    assert_eq!(located.len(), 4);
    assert_eq!(located[0].frame.header.frame_id, 3);
    assert_eq!(located[1].frame.header.frame_id, 1);
    assert_eq!(located[2].frame.header.frame_id, 4);
    assert_eq!(located[3].frame.header.frame_id, 2);

    let frames: Vec<_> = located.into_iter().map(|lf| lf.frame).collect();
    let timeline = link_frames(frames);

    // Timeline should reconstruct correct order
    assert_eq!(timeline.frames.len(), 4);
    assert_eq!(timeline.frames[0].header.frame_id, 1);
    assert_eq!(timeline.frames[1].header.frame_id, 2);
    assert_eq!(timeline.frames[2].header.frame_id, 3);
    assert_eq!(timeline.frames[3].header.frame_id, 4);
    assert_eq!(timeline.gaps.len(), 0);
}
