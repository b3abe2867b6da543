use bytes::Bytes;
use durapack::encoder::FrameBuilder;
use durapack::scanner::{scan_stream, scan_stream_with_stats};

#[test]
fn test_scan_clean_stream() {
    // Create a clean stream with multiple frames
    let frame1 = FrameBuilder::new(1)
        .payload(Bytes::from("frame 1"))
        .mark_first()
        .build()
        .unwrap();

    let frame2 = FrameBuilder::new(2)
        .payload(Bytes::from("frame 2"))
        .build()
        .unwrap();

    let frame3 = FrameBuilder::new(3)
        .payload(Bytes::from("frame 3"))
        .mark_last()
        .build()
        .unwrap();

    let mut stream = Vec::new();
    stream.extend_from_slice(&frame1);
    stream.extend_from_slice(&frame2);
    stream.extend_from_slice(&frame3);

    let results = scan_stream(&stream);

    assert_eq!(results.len(), 3);
    assert_eq!(results[0].frame.header.frame_id, 1);
    assert_eq!(results[1].frame.header.frame_id, 2);
    assert_eq!(results[2].frame.header.frame_id, 3);
}

#[test]
fn test_scan_with_corruption() {
    // Create frames with corruption between them
    let frame1 = FrameBuilder::new(1)
        .payload(Bytes::from("frame 1"))
        .with_crc32c()
        .build()
        .unwrap();

    let frame2 = FrameBuilder::new(2)
        .payload(Bytes::from("frame 2"))
        .with_crc32c()
        .build()
        .unwrap();

    let mut stream = Vec::new();
    stream.extend_from_slice(&frame1);
    stream.extend_from_slice(b"GARBAGE DATA HERE!!!"); // Corruption
    stream.extend_from_slice(&frame2);

    let results = scan_stream(&stream);

    // Should find both valid frames
    assert_eq!(results.len(), 2);
    assert_eq!(results[0].frame.header.frame_id, 1);
    assert_eq!(results[1].frame.header.frame_id, 2);
}

#[test]
fn test_scan_missing_start() {
    // Create a stream missing the first part
    let frame1 = FrameBuilder::new(1)
        .payload(Bytes::from("frame 1"))
        .build()
        .unwrap();

    let frame2 = FrameBuilder::new(2)
        .payload(Bytes::from("frame 2"))
        .build()
        .unwrap();

    let mut stream = Vec::new();
    stream.extend_from_slice(&frame1);
    stream.extend_from_slice(&frame2);

    // Skip the first 20 bytes (corrupt the start)
    let damaged_stream = &stream[20..];

    let results = scan_stream(damaged_stream);

    // Should still find at least one frame
    assert!(!results.is_empty());
}

#[test]
fn test_scan_stats() {
    let frame1 = FrameBuilder::new(1)
        .payload(Bytes::from("test"))
        .build()
        .unwrap();

    let (results, stats) = scan_stream_with_stats(&frame1);

    assert_eq!(results.len(), 1);
    assert_eq!(stats.frames_found, 1);
    assert_eq!(stats.bytes_scanned, frame1.len());
    // Should be close to 100%
    assert!(stats.recovery_percent() > 99);
    let rate = (stats.bytes_recovered as f64 / stats.bytes_scanned as f64) * 100.0;
    assert!(rate > 99.0);
}
