use bytes::Bytes;
use durapack::linker::{link_frames, verify_backlinks, Timeline};
use durapack::types::{Frame, FrameHeader};

#[test]
fn test_link_continuous_frames() {
    // Create a chain of frames
    let frame1 = Frame::new(FrameHeader::new(1, [0u8; 32], 4), Bytes::from("test"));

    let hash1 = frame1.compute_hash();

    let frame2 = Frame::new(FrameHeader::new(2, hash1, 4), Bytes::from("test"));

    let hash2 = frame2.compute_hash();

    let frame3 = Frame::new(FrameHeader::new(3, hash2, 4), Bytes::from("test"));

    let timeline = link_frames(vec![frame1, frame2, frame3]);

    assert_eq!(timeline.frames.len(), 3);
    assert_eq!(timeline.gaps.len(), 0);
    assert_eq!(timeline.orphans.len(), 0);
}

#[test]
fn test_link_with_gap() {
    // Create frames with a missing middle frame
    let frame1 = Frame::new(FrameHeader::new(1, [0u8; 32], 4), Bytes::from("test"));

    let _hash1 = frame1.compute_hash();

    // Frame 2 is missing!
    let fake_hash2 = [1u8; 32];

    let frame3 = Frame::new(FrameHeader::new(3, fake_hash2, 4), Bytes::from("test"));

    let timeline = link_frames(vec![frame1, frame3]);

    assert_eq!(timeline.frames.len(), 2);
    assert_eq!(timeline.gaps.len(), 1);

    let gap = &timeline.gaps[0];
    assert_eq!(gap.before, 1);
    assert_eq!(gap.after, 3);
}

#[test]
fn test_link_unordered_frames() {
    // Create frames and add them out of order
    let frame1 = Frame::new(FrameHeader::new(1, [0u8; 32], 4), Bytes::from("test"));

    let hash1 = frame1.compute_hash();

    let frame2 = Frame::new(FrameHeader::new(2, hash1, 4), Bytes::from("test"));

    let hash2 = frame2.compute_hash();

    let frame3 = Frame::new(FrameHeader::new(3, hash2, 4), Bytes::from("test"));

    // Add frames in reverse order
    let timeline = link_frames(vec![frame3, frame2, frame1]);

    // Should still be ordered correctly
    assert_eq!(timeline.frames.len(), 3);
    assert_eq!(timeline.frames[0].header.frame_id, 1);
    assert_eq!(timeline.frames[1].header.frame_id, 2);
    assert_eq!(timeline.frames[2].header.frame_id, 3);
}

#[test]
fn test_verify_backlinks() {
    let frame1 = Frame::new(FrameHeader::new(1, [0u8; 32], 4), Bytes::from("test"));

    let hash1 = frame1.compute_hash();

    let frame2 = Frame::new(FrameHeader::new(2, hash1, 4), Bytes::from("test"));

    let timeline = Timeline {
        frames: vec![frame1, frame2],
        gaps: Vec::new(),
        orphans: Vec::new(),
    };

    let errors = verify_backlinks(&timeline);
    assert_eq!(errors.len(), 0);
}
