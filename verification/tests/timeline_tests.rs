//! Linking, analysis and rendering of timelines.

use bytes::Bytes;
use durapack::error::FrameError;
use durapack::linker::{
    analyze_located_frames, analyze_timeline, link_frames, link_located_frames, report_to_dot,
    verify_backlinks, ChainConflict, GapReason, RecoveryRecipe, SequenceGap, Timeline,
};
use durapack::dot::timeline_to_dot;
use durapack::pack::FecIndexEntry;
use durapack::report::build_report_from_timeline;
use durapack::scanner::LocatedFrame;
use durapack::types::{Frame, FrameHeader, SkipLink};

fn frame(id: u64, prev_hash: [u8; 32], payload: &'static str) -> Frame {
    Frame::new(
        FrameHeader::new(id, prev_hash, payload.len() as u32),
        Bytes::from(payload),
    )
}

/// A chain of `n` frames with the given ids.
fn chain(ids: &[u64]) -> Vec<Frame> {
    let mut frames = Vec::new();
    let mut prev = [0u8; 32];
    for &id in ids {
        let f = frame(id, prev, "payload");
        prev = f.compute_hash();
        frames.push(f);
    }
    frames
}

fn ids(frames: &[Frame]) -> Vec<u64> {
    frames.iter().map(|f| f.header.frame_id).collect()
}

#[test]
fn every_order_of_a_chain_links_to_the_chain() {
    let intact = chain(&[1, 2, 3, 4]);
    let orders: [[usize; 4]; 6] = [
        [0, 1, 2, 3],
        [3, 2, 1, 0],
        [2, 0, 3, 1],
        [1, 3, 0, 2],
        [3, 0, 1, 2],
        [1, 0, 3, 2],
    ];
    for order in orders {
        let shuffled: Vec<Frame> = order.iter().map(|&i| intact[i].clone()).collect();
        let timeline = link_frames(shuffled);
        assert_eq!(timeline.frames, intact);
        assert!(timeline.gaps.is_empty());
        assert!(timeline.orphans.is_empty());
        assert!(verify_backlinks(&timeline).is_empty());
    }
}

#[test]
fn a_chain_is_followed_by_hash_and_not_by_id() {
    // The ids do not ascend along the chain.
    let intact = chain(&[5, 3, 9, 1]);
    let shuffled = vec![
        intact[3].clone(),
        intact[1].clone(),
        intact[0].clone(),
        intact[2].clone(),
    ];
    let timeline = link_frames(shuffled);
    assert_eq!(ids(&timeline.frames), vec![5, 3, 9, 1]);
    assert!(timeline.gaps.is_empty());
    assert!(timeline.orphans.is_empty());
}

#[test]
fn a_removed_frame_leaves_exactly_one_gap() {
    let intact = chain(&[10, 11, 12, 13, 14]);
    for removed in 1..4 {
        let mut left = intact.clone();
        left.remove(removed);
        left.reverse();
        let timeline = link_frames(left);
        let mut expected = intact.clone();
        expected.remove(removed);
        assert_eq!(timeline.frames, expected);
        assert_eq!(
            timeline.gaps,
            vec![SequenceGap {
                before: intact[removed - 1].header.frame_id,
                after: intact[removed + 1].header.frame_id,
                expected_hash: Some(intact[removed].compute_hash()),
            }]
        );
        assert!(timeline.orphans.is_empty());
        assert_eq!(
            verify_backlinks(&timeline),
            vec![FrameError::BackLinkMismatch(intact[removed + 1].header.frame_id)]
        );
    }
}

#[test]
fn the_head_is_the_first_frame_of_smallest_id() {
    // Two heads: the walk starts at the smaller id and jumps to the other.
    let a = frame(7, [0u8; 32], "a");
    let b = frame(4, [0u8; 32], "b");
    let c = frame(5, b.compute_hash(), "c");
    let timeline = link_frames(vec![a.clone(), c.clone(), b.clone()]);
    assert_eq!(ids(&timeline.frames), vec![4, 5, 7]);
    assert_eq!(
        timeline.gaps,
        vec![SequenceGap { before: 5, after: 7, expected_hash: Some([0u8; 32]) }]
    );
}

#[test]
fn without_a_head_the_walk_starts_at_the_smallest_id() {
    let a = frame(3, [1u8; 32], "a");
    let b = frame(4, a.compute_hash(), "b");
    let c = frame(5, [2u8; 32], "c");
    let d = frame(9, c.compute_hash(), "d");
    let timeline = link_frames(vec![d, b, c, a]);
    assert_eq!(ids(&timeline.frames), vec![3, 4, 5, 9]);
    // 3 -> 4 and 5 -> 9 are linked, ids skipped or not; 4 -> 5 is broken.
    assert_eq!(
        timeline.gaps,
        vec![SequenceGap { before: 4, after: 5, expected_hash: Some([2u8; 32]) }]
    );
    assert!(timeline.orphans.is_empty());
}

#[test]
fn without_a_head_the_chain_is_followed_by_hash() {
    // A chain without a head whose ids do not ascend: 5 -> 7 -> 6.
    let c0 = frame(5, [9u8; 32], "zero");
    let c1 = frame(7, c0.compute_hash(), "one");
    let c2 = frame(6, c1.compute_hash(), "two");
    let orders: [[usize; 3]; 6] =
        [[0, 1, 2], [0, 2, 1], [1, 0, 2], [1, 2, 0], [2, 0, 1], [2, 1, 0]];
    let chain = [c0, c1, c2];
    for order in orders {
        let frames: Vec<Frame> = order.iter().map(|&i| chain[i].clone()).collect();
        let timeline = link_frames(frames);
        assert_eq!(ids(&timeline.frames), vec![5, 7, 6]);
        assert!(timeline.gaps.is_empty());
        assert!(timeline.orphans.is_empty());
        assert!(verify_backlinks(&timeline).is_empty());
    }
}

#[test]
fn of_frames_with_one_id_the_last_counts() {
    let first = frame(1, [0u8; 32], "first");
    let second = frame(1, [0u8; 32], "second");
    let timeline = link_frames(vec![first, second.clone()]);
    assert_eq!(timeline.frames, vec![second]);
    assert!(timeline.orphans.is_empty());
    let empty = link_frames(Vec::new());
    assert!(empty.frames.is_empty() && empty.gaps.is_empty() && empty.orphans.is_empty());
}

#[test]
fn linking_twice_gives_the_same_timeline() {
    let mut frames = chain(&[1, 2, 3]);
    frames.push(frame(8, [9u8; 32], "stray"));
    frames.push(frame(6, [7u8; 32], "stray"));
    let once = link_frames(frames.clone());
    let twice = link_frames(frames);
    assert_eq!(once.frames, twice.frames);
    assert_eq!(once.gaps, twice.gaps);
    assert_eq!(once.orphans, twice.orphans);
    assert_eq!(ids(&once.frames), vec![1, 2, 3, 6, 8]);
    assert_eq!(once.gaps.len(), 2);
}

#[test]
fn continuity_is_the_share_of_ordered_frames() {
    let frames = chain(&[1, 2, 3]);
    let timeline = link_frames(frames.clone());
    let stats = timeline.stats();
    assert_eq!(stats.total_frames, 3);
    assert_eq!(stats.gaps, 0);
    assert_eq!(stats.orphans, 0);
    assert_eq!(stats.continuity, 100);
    let with_orphans = Timeline {
        frames: frames.clone(),
        gaps: Vec::new(),
        orphans: vec![frame(9, [1u8; 32], "o")],
    };
    let stats = with_orphans.stats();
    assert_eq!(stats.total_frames, 4);
    assert_eq!(stats.orphans, 1);
    assert_eq!(stats.continuity, 75);
    let thirds = Timeline {
        frames: vec![frames[0].clone()],
        gaps: Vec::new(),
        orphans: vec![frames[1].clone(), frames[2].clone()],
    };
    assert_eq!(thirds.stats().continuity, 33);
    let empty = Timeline { frames: Vec::new(), gaps: Vec::new(), orphans: Vec::new() };
    assert_eq!(empty.stats().continuity, 100);
    assert_eq!(empty.stats().total_frames, 0);
}

#[test]
fn back_links_are_checked_pair_by_pair() {
    let frames = chain(&[1, 2, 3]);
    let broken = Timeline {
        frames: vec![frames[1].clone(), frames[0].clone(), frames[2].clone()],
        gaps: Vec::new(),
        orphans: Vec::new(),
    };
    assert_eq!(
        verify_backlinks(&broken),
        vec![FrameError::BackLinkMismatch(1), FrameError::BackLinkMismatch(3)]
    );
}

#[test]
fn seek_finds_frames_by_id() {
    let mut frames = chain(&[1, 2, 3, 5, 8]);
    frames[4].skip_links = Some(vec![
        SkipLink { level: 0, target_id: 5, hint: None },
        SkipLink { level: 1, target_id: 3, hint: Some(120) },
        SkipLink { level: 2, target_id: 1, hint: None },
    ]);
    let timeline = Timeline { frames: frames.clone(), gaps: Vec::new(), orphans: Vec::new() };
    for f in &frames {
        assert_eq!(timeline.seek_with_skiplist(f.header.frame_id), Some(f));
    }
    assert_eq!(timeline.seek_with_skiplist(4), None);
    assert_eq!(timeline.seek_with_skiplist(0), None);
    assert_eq!(timeline.seek_with_skiplist(100), None);
    let empty = Timeline { frames: Vec::new(), gaps: Vec::new(), orphans: Vec::new() };
    assert_eq!(empty.seek_with_skiplist(1), None);
}

#[test]
fn gaps_are_classified_and_get_recipes() {
    // 1 -> 2 is broken by hash, 2 -> 5 by id.
    let a = frame(1, [0u8; 32], "a");
    let b = frame(2, [3u8; 32], "b");
    let c = frame(5, [4u8; 32], "c");
    let report = analyze_timeline(vec![c, a, b]);
    assert_eq!(ids(&report.timeline.frames), vec![1, 2, 5]);
    assert_eq!(report.gap_details.len(), 2);
    assert_eq!(report.gap_details[0].gap.before, 1);
    assert_eq!(report.gap_details[0].gap.after, 2);
    assert_eq!(report.gap_details[0].reason, GapReason::MissingByHash);
    assert_eq!(report.gap_details[1].gap.before, 2);
    assert_eq!(report.gap_details[1].gap.after, 5);
    assert_eq!(report.gap_details[1].reason, GapReason::MissingById);
    assert!(report.conflicts.is_empty());
    assert!(report.orphan_clusters.is_empty());
    assert_eq!(
        report.recipes,
        vec![
            RecoveryRecipe::InsertParityFrame {
                between: (1, 2),
                reason: "gap detected: MissingByHash".to_string(),
            },
            RecoveryRecipe::InsertParityFrame {
                between: (2, 5),
                reason: "gap detected: MissingById".to_string(),
            },
        ]
    );
}

#[test]
fn branches_are_reported_as_conflicts() {
    let head = frame(1, [0u8; 32], "head");
    let left = frame(2, head.compute_hash(), "left");
    let right = frame(3, head.compute_hash(), "right");
    let tail = frame(4, right.compute_hash(), "tail");
    let report = analyze_timeline(vec![tail, right, left, head]);
    assert_eq!(
        report.conflicts,
        vec![ChainConflict { at: 1, contenders: vec![2, 3] }]
    );
    // The walk takes the contender of smaller id first and jumps to the other.
    assert_eq!(ids(&report.timeline.frames), vec![1, 2, 3, 4]);
    assert_eq!(report.gap_details.len(), 1);
    assert_eq!(report.gap_details[0].reason, GapReason::MissingByHash);
}

#[test]
fn located_frames_add_offset_recipes() {
    let a = frame(1, [0u8; 32], "a");
    let c = frame(3, [4u8; 32], "c");
    let located = vec![
        LocatedFrame { offset: 0, frame: a, size: 51 },
        LocatedFrame { offset: 130, frame: c, size: 51 },
    ];
    let report = analyze_located_frames(located.clone());
    assert_eq!(
        report.recipes,
        vec![
            RecoveryRecipe::InsertParityFrame {
                between: (1, 3),
                reason: "gap detected: MissingById".to_string(),
            },
            RecoveryRecipe::RewindOffset {
                near_frame: 3,
                by_bytes: 79,
                reason: "non-contiguous offsets across gap".to_string(),
            },
        ]
    );
    let timeline = link_located_frames(located);
    assert_eq!(ids(&timeline.frames), vec![1, 3]);
    // Frames found in the opposite order give a negative number of bytes.
    let a = frame(1, [0u8; 32], "a");
    let c = frame(3, [4u8; 32], "c");
    let located = vec![
        LocatedFrame { offset: 0, frame: c, size: 51 },
        LocatedFrame { offset: 51, frame: a, size: 51 },
    ];
    let report = analyze_located_frames(located);
    assert_eq!(
        report.recipes[1],
        RecoveryRecipe::RewindOffset {
            near_frame: 3,
            by_bytes: -102,
            reason: "non-contiguous offsets across gap".to_string(),
        }
    );
}

#[test]
fn a_report_renders_as_dot() {
    let a = frame(1, [0u8; 32], "a");
    let c = frame(3, [4u8; 32], "c");
    let located = vec![
        LocatedFrame { offset: 200, frame: a, size: 51 },
        LocatedFrame { offset: 0, frame: c, size: 51 },
    ];
    let mut report = analyze_located_frames(located);
    report.conflicts.push(ChainConflict { at: 1, contenders: vec![3, 12] });
    report.orphan_clusters.push(durapack::linker::OrphanCluster { ids: vec![40, 41] });
    let dot = report_to_dot(&report);
    let expected = "digraph timeline {\n\
\x20 rankdir=LR;\n\
\x20 1 [label=\"1\"];\n\
\x20 3 [label=\"3\"];\n\
\x20 subgraph cluster_orphans_0 {\n\
\x20   label=\"orphan cluster #0\";\n\
\x20   style=dashed; color=gray;\n\
\x20   40 [style=filled, fillcolor=lightgray];\n\
\x20   41 [style=filled, fillcolor=lightgray];\n\
\x20 }\n\
\x20 1 -> 3;\n\
\x20 1 -> 3 [style=dashed, color=red, label=\"gap: missing-by-id\"];\n\
\x20 1 -> 3 [style=dotted, color=orange, label=\"conflict\"];\n\
\x20 1 -> 12 [style=dotted, color=orange, label=\"conflict\"];\n\
\x20 recipe_0 [shape=note, label=\"insert parity between 1 and 3\\ngap detected: MissingById\", color=blue];\n\
\x20 recipe_1 [shape=note, label=\"rewind offset near 3 by -251 bytes\\nnon-contiguous offsets across gap\", color=blue];\n\
}\n";
    assert_eq!(dot, expected);
}

#[test]
fn a_timeline_renders_as_dot() {
    let a = frame(1, [0u8; 32], "a");
    let c = frame(3, [4u8; 32], "c");
    let timeline = link_frames(vec![a, c]);
    let plain = timeline_to_dot(&timeline, None);
    assert_eq!(
        plain,
        "digraph timeline {\n  rankdir=LR;\n  1 [label=\"1\"];\n  3 [label=\"3\"];\n  1 -> 3;\n  1 -> 3 [style=dashed, color=red, label=\"gap\"];\n}\n"
    );
    let index = vec![FecIndexEntry {
        block_start_id: 1,
        data: 2,
        parity: 1,
        parity_frame_ids: vec![4],
    }];
    let noted = timeline_to_dot(&timeline, Some(&index));
    assert_eq!(
        noted,
        "digraph timeline {\n  rankdir=LR;\n  1 [label=\"1\"];\n  3 [label=\"3\"];\n  1 -> 3;\n  1 -> 3 [style=dashed, color=red, label=\"gap\"];\n  // FEC parity annotations\n  subgraph cluster_fec_1 { label=\"RS 2+1\"; style=dotted; }\n}\n"
    );
}

#[test]
fn orphans_that_hang_together_form_clusters() {
    let ordered = chain(&[1, 2]);
    // 10 <- 11 <- 12 hang together; so do 20 <- 30; 40 claims an ordered frame; 50 nobody.
    let a = frame(10, [7u8; 32], "a");
    let b = frame(11, a.compute_hash(), "b");
    let d = frame(12, b.compute_hash(), "d");
    let c = frame(20, [8u8; 32], "c");
    let e = frame(30, c.compute_hash(), "e");
    let f = frame(40, ordered[1].compute_hash(), "f");
    let g = frame(50, [9u8; 32], "g");
    let timeline = Timeline {
        frames: ordered.clone(),
        gaps: vec![SequenceGap { before: 1, after: 2, expected_hash: None }],
        orphans: vec![e, d, g, a, f, c, b],
    };
    let report = build_report_from_timeline(&timeline, None);
    let clusters: Vec<Vec<u64>> = report.orphan_clusters.iter().map(|c| c.ids.clone()).collect();
    assert_eq!(
        clusters,
        vec![vec![10, 11, 12], vec![20, 30], vec![40], vec![50]]
    );
    assert_eq!(report.timeline.frames, ordered);
    assert_eq!(report.timeline.orphans.len(), 7);
    // The gap between consecutive ids with an intact link is put down to the ids.
    assert_eq!(report.gap_details.len(), 1);
    assert_eq!(report.gap_details[0].reason, GapReason::MissingById);
    // Frame 2 has two contenders among ordered and orphaned frames: none but 40.
    assert!(report.conflicts.is_empty());
    // A ring of orphans is one cluster.
    let x = frame(5, [1u8; 32], "x");
    let y = frame(6, x.compute_hash(), "y");
    let z = frame(7, y.compute_hash(), "z");
    let timeline = Timeline { frames: Vec::new(), gaps: Vec::new(), orphans: vec![z, x, y] };
    let report = build_report_from_timeline(&timeline, None);
    assert_eq!(report.orphan_clusters.len(), 1);
    assert_eq!(report.orphan_clusters[0].ids, vec![5, 6, 7]);
    let dot = report_to_dot(&report);
    assert!(dot.contains("  subgraph cluster_orphans_0 {\n"));
    assert!(dot.contains("    6 [style=filled, fillcolor=lightgray];\n"));
}

#[test]
fn of_two_frames_with_one_id_the_later_counts() {
    let a = frame(1, [0u8; 32], "a");
    let early = frame(3, [4u8; 32], "early");
    let late = frame(3, [4u8; 32], "late");
    let located = vec![
        LocatedFrame { offset: 0, frame: a.clone(), size: 51 },
        LocatedFrame { offset: 60, frame: early.clone(), size: 55 },
        LocatedFrame { offset: 200, frame: late.clone(), size: 54 },
    ];
    let report = analyze_located_frames(located);
    assert_eq!(report.timeline.frames, vec![a.clone(), late.clone()]);
    assert_eq!(
        report.recipes[1],
        RecoveryRecipe::RewindOffset {
            near_frame: 3,
            by_bytes: 149,
            reason: "non-contiguous offsets across gap".to_string(),
        }
    );
    let timeline = Timeline {
        frames: vec![a, early, late.clone()],
        gaps: Vec::new(),
        orphans: Vec::new(),
    };
    assert_eq!(timeline.seek_with_skiplist(3), Some(&late));
}
