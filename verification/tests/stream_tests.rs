//! Scanning, packing, parity and interleaving on whole streams.

use bytes::Bytes;
use durapack::audit::{count_valid_frames, file_status, verify_signatures, FileStatus};
use durapack::encoder::{encode_frame_struct, FrameBuilder};
use durapack::error::FrameError;
use durapack::fec::{
    rs_interleaved_encode, FecBlock, LdpcDecoder, LdpcEncoder, RaptorQDecoder, RaptorQEncoder,
    RedundancyDecoder, RedundancyEncoder, RsDecoder, RsEncoder,
};
use durapack::interleave::{deinterleave_bytes, interleave_bytes, InterleaveParams};
use durapack::linker::link_frames;
use durapack::pack::{
    export_strip_signatures, inject_parity, pack_payloads, FecIndexEntry, PackOptions,
};
use durapack::scanner::{
    scan_stream, scan_stream_with_stats, scan_stream_zero_copy, ScanStats,
};
use durapack::types::{Frame, FrameHeader};
use ed25519_dalek::SigningKey;

/// A stream of `count` frames with CRC32C trailers, linked by hash.
fn make_durp_with_frames(count: u64) -> Vec<u8> {
    let mut bytes_out = Vec::new();
    let mut prev_hash = [0u8; 32];
    for id in 1..=count {
        let mut b = FrameBuilder::new(id).payload(Bytes::from(format!("{{\"id\":{}}}", id)));
        if id == 1 {
            b = b.mark_first();
        }
        b = b.with_crc32c();
        b = b.prev_hash(prev_hash);
        let f = b.build_struct().unwrap();
        prev_hash = f.compute_hash();
        let enc = encode_frame_struct(&f).unwrap();
        bytes_out.extend_from_slice(&enc);
    }
    bytes_out
}

fn frames_with_payloads(payloads: &[&'static [u8]]) -> Vec<Frame> {
    payloads
        .iter()
        .enumerate()
        .map(|(i, p)| {
            Frame::new(
                FrameHeader::new(i as u64, [0u8; 32], p.len() as u32),
                Bytes::from_static(p),
            )
        })
        .collect()
}

#[test]
fn burst_error_costs_the_middle_frame_and_shows_as_a_gap() {
    let frames: Vec<Bytes> = (1..=3u64)
        .map(|id| {
            let mut b = FrameBuilder::new(id)
                .payload(Bytes::from(vec![id as u8; 120]))
                .with_crc32c();
            if id == 1 {
                b = b.mark_first();
            } else {
                b = b.prev_hash([id as u8; 32]);
            }
            b.build().unwrap()
        })
        .collect();
    let mut stream = Vec::new();
    for f in &frames {
        stream.extend_from_slice(f);
    }
    // Overwrite the middle 50 bytes of the middle frame.
    let start = frames[0].len() + frames[1].len() / 2 - 25;
    for b in &mut stream[start..start + 50] {
        *b = 0xFF;
    }
    let (located, stats) = scan_stream_with_stats(&stream);
    assert_eq!(located.len(), 2);
    assert_eq!(located[0].frame.header.frame_id, 1);
    assert_eq!(located[1].frame.header.frame_id, 3);
    assert_eq!(located[1].offset, frames[0].len() + frames[1].len());
    assert_eq!(
        stats,
        ScanStats {
            bytes_scanned: stream.len(),
            frames_found: 2,
            markers_found: 3,
            decode_failures: 1,
            bytes_recovered: frames[0].len() + frames[2].len(),
        }
    );
    assert_eq!(stats.recovery_percent(), 66);
    let timeline = link_frames(located.into_iter().map(|l| l.frame).collect());
    assert_eq!(timeline.gaps.len(), 1);
    assert_eq!(timeline.gaps[0].before, 1);
    assert_eq!(timeline.gaps[0].after, 3);
}

#[test]
fn scanner_steps_over_markers_that_are_no_frames() {
    let frame = FrameBuilder::new(1)
        .payload(Bytes::from_static(b"DURP inside DURP"))
        .with_crc32c()
        .build()
        .unwrap();
    let mut stream = b"DURPDURP--DURP".to_vec();
    let first = stream.len();
    stream.extend_from_slice(&frame);
    stream.extend_from_slice(b"tail DUR");
    stream.extend_from_slice(&frame);
    let (located, stats) = scan_stream_with_stats(&stream);
    assert_eq!(located.len(), 2);
    assert_eq!(located[0].offset, first);
    assert_eq!(located[0].size, frame.len());
    assert_eq!(located[1].offset, first + frame.len() + 8);
    assert_eq!(stats.markers_found, 5);
    assert_eq!(stats.decode_failures, 3);
    assert_eq!(stats.frames_found, 2);
    assert_eq!(stats.bytes_recovered, 2 * frame.len());
    // The markers in the payloads are not counted: the scan jumps over a frame.
    let none = scan_stream(b"no marker here, only DUR and URP");
    assert!(none.is_empty());
    let (none, stats) = scan_stream_with_stats(&[]);
    assert!(none.is_empty());
    assert_eq!(stats, ScanStats::default());
    assert_eq!(stats.recovery_percent(), 0);
}

#[test]
fn zero_copy_scan_finds_the_same_frames() {
    let mut stream = make_durp_with_frames(3);
    stream.extend_from_slice(b"garbage");
    let plain = FrameBuilder::new(9)
        .payload(Bytes::from_static(b"no trailer"))
        .build()
        .unwrap();
    stream.extend_from_slice(&plain);
    let copied = scan_stream(&stream);
    let shared = scan_stream_zero_copy(Bytes::from(stream));
    assert_eq!(copied.len(), 4);
    assert_eq!(shared.len(), 4);
    for (c, s) in copied.iter().zip(shared.iter()) {
        assert_eq!(c.offset, s.offset);
        assert_eq!(c.size, s.size);
        assert_eq!(c.frame.header, s.frame.header);
        assert_eq!(c.frame.payload, s.frame.payload);
    }
    assert_eq!(copied[0].frame.trailer, shared[0].frame.trailer);
    assert_eq!(copied[3].frame.trailer, Some(Bytes::new()));
    assert_eq!(shared[3].frame.trailer, None);
}

#[test]
fn interleaving_deals_blocks_out_in_turn() {
    let params = InterleaveParams::new(3, 2);
    let stripes = interleave_bytes(b"abcdefghijk", params);
    assert_eq!(
        stripes,
        vec![
            Bytes::from_static(b"abgh"),
            Bytes::from_static(b"cdij"),
            Bytes::from_static(b"efk"),
        ]
    );
    assert_eq!(&deinterleave_bytes(&stripes, params)[..], b"abcdefghijk");
    // Fewer blocks than stripes.
    let stripes = interleave_bytes(b"abc", InterleaveParams::new(4, 2));
    assert_eq!(
        stripes,
        vec![
            Bytes::from_static(b"ab"),
            Bytes::from_static(b"c"),
            Bytes::new(),
            Bytes::new(),
        ]
    );
    let stripes = interleave_bytes(b"", InterleaveParams::new(2, 5));
    assert_eq!(stripes, vec![Bytes::new(), Bytes::new()]);
    assert_eq!(deinterleave_bytes(&stripes, InterleaveParams::new(2, 5)).len(), 0);
}

#[test]
fn deinterleaving_inverts_interleaving() {
    let data: Vec<u8> = (0..1000u32).map(|i| (i * 31 % 251) as u8).collect();
    for group in [1usize, 2, 3, 7, 64] {
        for shard_len in [1usize, 2, 5, 16, 999, 1000, 1001, 5000] {
            for len in [0usize, 1, 15, 16, 17, 1000] {
                let params = InterleaveParams::new(group, shard_len);
                let stripes = interleave_bytes(&data[..len], params);
                assert_eq!(stripes.len(), group);
                assert_eq!(stripes.iter().map(|s| s.len()).sum::<usize>(), len);
                assert_eq!(&deinterleave_bytes(&stripes, params)[..], &data[..len]);
            }
        }
    }
}

#[test]
fn deinterleaving_takes_uneven_stripes_round_by_round() {
    let stripes = vec![
        Bytes::from_static(b"AAAAA"),
        Bytes::from_static(b"B"),
        Bytes::from_static(b"CCC"),
    ];
    let out = deinterleave_bytes(&stripes, InterleaveParams::new(3, 2));
    assert_eq!(&out[..], b"AABCCAACA");
}

#[test]
fn reed_solomon_gives_back_lost_shards() {
    let frames = frames_with_payloads(&[b"alpha", b"be", b"gamma-delta", b"x"]);
    let enc = RsEncoder::new(4, 2);
    let blocks = enc.encode_batch(&frames, 0).unwrap();
    assert_eq!(blocks.len(), 6);
    for (i, b) in blocks.iter().enumerate() {
        assert_eq!(b.block_id, 0);
        assert_eq!(b.index, i as u32);
        assert_eq!(b.total_blocks, 6);
        assert_eq!(b.data.len(), 11);
    }
    assert_eq!(blocks[0].data, b"alpha\0\0\0\0\0\0");
    assert_eq!(blocks[2].data, b"gamma-delta");
    assert_ne!(blocks[4].data, blocks[5].data);
    let dec = RsDecoder;
    // Every pair of shards may go.
    for a in 0..6 {
        for b in (a + 1)..6 {
            let left: Vec<FecBlock> = blocks
                .iter()
                .enumerate()
                .filter(|(i, _)| *i != a && *i != b)
                .map(|(_, blk)| blk.clone())
                .collect();
            let frames_back = dec.decode_batch(&left, 4).unwrap();
            assert_eq!(frames_back.len(), 4);
            for (back, intact) in frames_back.iter().zip(frames.iter()) {
                assert_eq!(back.payload, intact.payload);
                assert_eq!(back.header.frame_id, 0);
                assert_eq!(back.header.prev_hash, [0u8; 32]);
                assert_eq!(back.header.payload_len as usize, intact.payload.len());
            }
        }
    }
    // Three shards gone are too many.
    let left: Vec<FecBlock> = blocks[3..].to_vec();
    assert_eq!(
        dec.decode_batch(&left, 4).unwrap_err(),
        FrameError::InvalidStructure("RS reconstruct failed".to_string())
    );
    assert!(dec.can_reconstruct(4, 4));
    assert!(dec.can_reconstruct(5, 4));
    assert!(!dec.can_reconstruct(3, 4));
}

#[test]
fn reed_solomon_recovers_a_and_bc() {
    let frames = frames_with_payloads(&[b"A", b"BC"]);
    let blocks = RsEncoder::new(2, 1).encode_batch(&frames, 0).unwrap();
    assert_eq!(blocks.len(), 3);
    assert_eq!(blocks[0].data, b"A\0");
    assert_eq!(blocks[1].data, b"BC");
    let left = vec![blocks[1].clone(), blocks[2].clone()];
    let back = RsDecoder.decode_batch(&left, 2).unwrap();
    assert_eq!(back[0].payload.as_ref(), b"A");
    assert_eq!(back[1].payload.as_ref(), b"BC");
    // The shards may come in any order.
    let left = vec![blocks[2].clone(), blocks[0].clone()];
    let back = RsDecoder.decode_batch(&left, 2).unwrap();
    assert_eq!(back[0].payload.as_ref(), b"A");
    assert_eq!(back[1].payload.as_ref(), b"BC");
}

#[test]
fn reed_solomon_refuses_inadmissible_blocks() {
    let frames = frames_with_payloads(&[b"A", b"BC"]);
    let invalid = || FrameError::InvalidStructure("invalid RS parameters".to_string());
    // No parity shards.
    assert_eq!(RsEncoder::new(2, 0).encode_batch(&frames, 0).unwrap_err(), invalid());
    // More than 255 shards.
    assert_eq!(RsEncoder::new(2, 1).encode_batch(&frames, 254).unwrap_err(), invalid());
    assert!(RsEncoder::new(2, 1).encode_batch(&frames, 253).is_ok());
    // Only empty payloads.
    let empty = frames_with_payloads(&[b"", b""]);
    assert_eq!(
        RsEncoder::new(2, 1).encode_batch(&empty, 0).unwrap_err(),
        FrameError::InvalidStructure("RS encode failed".to_string())
    );
    // No frames make no block.
    assert_eq!(RsEncoder::new(2, 1).encode_batch(&[], 0).unwrap_err(), invalid());
    // The redundancy of the call goes before that of the encoder.
    assert_eq!(RsEncoder::new(2, 1).encode_batch(&frames, 3).unwrap().len(), 5);
    let dec = RsDecoder;
    assert_eq!(
        dec.decode_batch(&[], 2).unwrap_err(),
        FrameError::InvalidStructure("no blocks".to_string())
    );
    let blocks = RsEncoder::new(2, 1).encode_batch(&frames, 0).unwrap();
    assert_eq!(dec.decode_batch(&blocks, 3).unwrap_err(), invalid());
    assert_eq!(dec.decode_batch(&blocks, 0).unwrap_err(), invalid());
    assert_eq!(dec.decode_batch(&blocks, 4).unwrap_err(), invalid());
}

#[test]
fn stripes_are_encoded_as_a_block() {
    let stripes = vec![Bytes::from_static(b"abcd"), Bytes::from_static(b"ef")];
    let blocks = rs_interleaved_encode(&stripes, 2).unwrap();
    assert_eq!(blocks.len(), 4);
    assert_eq!(blocks[0].data, b"abcd");
    assert_eq!(blocks[1].data, b"ef\0\0");
    let back = RsDecoder.decode_batch(&blocks[2..], 2).unwrap();
    assert_eq!(back[0].payload.as_ref(), b"abcd");
    assert_eq!(back[1].payload.as_ref(), b"ef");
    assert_eq!(
        rs_interleaved_encode(&[], 2).unwrap_err(),
        FrameError::InvalidStructure("invalid RS parameters".to_string())
    );
}

#[test]
fn placeholder_codecs_encode_nothing() {
    assert!(RaptorQEncoder.encode_batch(&[], 1).is_err());
    assert!(RaptorQDecoder.decode_batch(&[], 1).is_err());
    assert!(!RaptorQDecoder.can_reconstruct(5, 1));
    assert!(LdpcEncoder.encode_batch(&[], 1).is_err());
    assert!(LdpcDecoder.decode_batch(&[], 1).is_err());
    assert!(!LdpcDecoder.can_reconstruct(5, 1));
}

#[test]
fn packing_chains_frames_and_adds_parity_behind_full_blocks() {
    let payloads: Vec<Vec<u8>> = (1..=5u8).map(|i| vec![b'p', b'0' + i, i]).collect();
    let options = PackOptions {
        start_id: 1,
        use_blake3: false,
        fec_rs: Some((2, 1)),
        signing_key: None,
    };
    let packed = pack_payloads(&payloads, &options).unwrap();
    assert_eq!(
        packed.fec_index,
        vec![
            FecIndexEntry { block_start_id: 1, data: 2, parity: 1, parity_frame_ids: vec![3] },
            FecIndexEntry { block_start_id: 4, data: 2, parity: 1, parity_frame_ids: vec![6] },
        ]
    );
    let located = scan_stream(&packed.bytes);
    assert_eq!(located.len(), 7);
    assert_eq!(
        located.iter().map(|l| l.size).sum::<usize>(),
        packed.bytes.len()
    );
    let frames: Vec<Frame> = located.into_iter().map(|l| l.frame).collect();
    assert_eq!(
        frames.iter().map(|f| f.header.frame_id).collect::<Vec<_>>(),
        vec![1, 2, 3, 4, 5, 6, 7]
    );
    assert_eq!(frames[0].header.flags.as_u8(), 0x05);
    assert_eq!(frames[1].header.flags.as_u8(), 0x01);
    assert_eq!(frames[0].payload.as_ref(), &payloads[0][..]);
    assert_eq!(frames[3].payload.as_ref(), &payloads[2][..]);
    assert_eq!(frames[6].payload.as_ref(), &payloads[4][..]);
    for i in 1..7 {
        assert_eq!(frames[i].header.prev_hash, frames[i - 1].compute_hash());
    }
    // The parity frame gives a lost data frame back.
    let block = vec![
        FecBlock { block_id: 0, index: 1, total_blocks: 3, data: frames[1].payload.to_vec() },
        FecBlock { block_id: 0, index: 2, total_blocks: 3, data: frames[2].payload.to_vec() },
    ];
    let back = RsDecoder.decode_batch(&block, 2).unwrap();
    assert_eq!(back[0].payload.as_ref(), &payloads[0][..]);
    let mut reversed = frames.clone();
    reversed.reverse();
    let timeline = link_frames(reversed);
    assert_eq!(timeline.frames, frames);
    assert!(timeline.gaps.is_empty());
}

#[test]
fn packing_without_parity_and_with_other_trailers() {
    let payloads: Vec<Vec<u8>> = vec![b"one".to_vec(), b"two".to_vec()];
    let options = PackOptions { start_id: 40, use_blake3: true, fec_rs: None, signing_key: None };
    let packed = pack_payloads(&payloads, &options).unwrap();
    assert!(packed.fec_index.is_empty());
    let located = scan_stream(&packed.bytes);
    assert_eq!(located.len(), 2);
    assert_eq!(located[0].frame.header.frame_id, 40);
    assert_eq!(located[0].frame.header.flags.as_u8(), 0x06);
    assert_eq!(located[1].frame.header.flags.as_u8(), 0x02);
    assert_eq!(located[0].size, 50 + 3 + 32);
    // With a key the frames are signed.
    let key = [11u8; 32];
    let options = PackOptions {
        start_id: 1,
        use_blake3: false,
        fec_rs: None,
        signing_key: Some(key),
    };
    let packed = pack_payloads(&payloads, &options).unwrap();
    let frames: Vec<Frame> = scan_stream(&packed.bytes).into_iter().map(|l| l.frame).collect();
    assert_eq!(frames.len(), 2);
    assert_eq!(frames[0].header.flags.as_u8(), 0x07);
    let public = SigningKey::from_bytes(&key).verifying_key().to_bytes();
    assert_eq!(verify_signatures(&frames, &public), Some((2, 0)));
    let other = SigningKey::from_bytes(&[12u8; 32]).verifying_key().to_bytes();
    assert_eq!(verify_signatures(&frames, &other), Some((0, 2)));
    // Without signed frames there is nothing to count.
    let plain: Vec<Frame> = scan_stream(&make_durp_with_frames(2))
        .into_iter()
        .map(|l| l.frame)
        .collect();
    assert_eq!(verify_signatures(&plain, &public), Some((0, 0)));
    // No payloads give an empty stream.
    let packed = pack_payloads(&Vec::new(), &options).unwrap();
    assert!(packed.bytes.is_empty() && packed.fec_index.is_empty());
}

#[test]
fn packing_fails_where_the_block_cannot_be_encoded_or_the_ids_run_out() {
    let payloads: Vec<Vec<u8>> = vec![b"one".to_vec(), b"two".to_vec()];
    let options = PackOptions {
        start_id: 1,
        use_blake3: false,
        fec_rs: Some((2, 0)),
        signing_key: None,
    };
    assert_eq!(
        pack_payloads(&payloads, &options).unwrap_err(),
        FrameError::InvalidStructure("invalid RS parameters".to_string())
    );
    let options = PackOptions {
        start_id: u64::MAX,
        use_blake3: false,
        fec_rs: None,
        signing_key: None,
    };
    assert_eq!(
        pack_payloads(&payloads, &options).unwrap_err(),
        FrameError::InvalidStructure("frame id out of range".to_string())
    );
    assert!(pack_payloads(&payloads[..1].to_vec(), &options).is_ok());
    // With no data frames per block nothing is protected.
    let options = PackOptions {
        start_id: 1,
        use_blake3: false,
        fec_rs: Some((0, 3)),
        signing_key: None,
    };
    let packed = pack_payloads(&payloads, &options).unwrap();
    assert!(packed.fec_index.is_empty());
    assert_eq!(scan_stream(&packed.bytes).len(), 2);
}

#[test]
fn parity_is_added_behind_a_stream_that_exists() {
    let stream = make_durp_with_frames(4);
    let before = stream.clone();
    let injected = inject_parity(&stream, 2, 1).unwrap();
    // The stream itself is not touched.
    assert_eq!(stream, before);
    assert_eq!(
        injected.fec_index,
        vec![
            FecIndexEntry { block_start_id: 1, data: 2, parity: 1, parity_frame_ids: vec![5] },
            FecIndexEntry { block_start_id: 3, data: 2, parity: 1, parity_frame_ids: vec![6] },
        ]
    );
    let mut whole = stream.clone();
    whole.extend_from_slice(&injected.bytes);
    let frames: Vec<Frame> = scan_stream(&whole).into_iter().map(|l| l.frame).collect();
    assert_eq!(frames.len(), 6);
    assert_eq!(frames[4].header.frame_id, 5);
    assert_eq!(frames[4].header.flags.as_u8(), 0x01);
    assert_eq!(frames[4].header.prev_hash, frames[3].compute_hash());
    assert_eq!(frames[5].header.prev_hash, frames[4].compute_hash());
    let timeline = link_frames(frames.clone());
    assert_eq!(timeline.frames, frames);
    assert!(timeline.gaps.is_empty());
    // The parity frame of the first block gives frame 1 back.
    let block = vec![
        FecBlock { block_id: 0, index: 1, total_blocks: 3, data: frames[1].payload.to_vec() },
        FecBlock { block_id: 0, index: 2, total_blocks: 3, data: frames[4].payload.to_vec() },
    ];
    let back = RsDecoder.decode_batch(&block, 2).unwrap();
    assert_eq!(back[0].payload, frames[0].payload);
    // A last block that is not full gets no parity.
    let injected = inject_parity(&make_durp_with_frames(5), 2, 1).unwrap();
    assert_eq!(injected.fec_index.len(), 2);
    let injected = inject_parity(&make_durp_with_frames(1), 2, 1).unwrap();
    assert!(injected.fec_index.is_empty() && injected.bytes.is_empty());
    // A stream without frames cannot be protected.
    assert_eq!(
        inject_parity(b"no frames in here", 2, 1).unwrap_err(),
        FrameError::NoFramesFound
    );
    assert_eq!(
        inject_parity(&stream, 2, 0).unwrap_err(),
        FrameError::InvalidStructure("invalid RS parameters".to_string())
    );
}

#[test]
fn signatures_are_stripped_from_a_stream() {
    let key = [5u8; 32];
    let payloads: Vec<Vec<u8>> = vec![b"one".to_vec(), b"two".to_vec()];
    let options = PackOptions {
        start_id: 1,
        use_blake3: false,
        fec_rs: None,
        signing_key: Some(key),
    };
    let packed = pack_payloads(&payloads, &options).unwrap();
    let mut stream = b"junk".to_vec();
    stream.extend_from_slice(&packed.bytes);
    let stripped = export_strip_signatures(&stream).unwrap();
    let frames: Vec<Frame> = scan_stream(&stripped).into_iter().map(|l| l.frame).collect();
    assert_eq!(frames.len(), 2);
    assert_eq!(stripped.len(), 2 * (50 + 3 + 32));
    assert_eq!(frames[0].header.flags.as_u8(), 0x02);
    assert_eq!(frames[1].header.flags.as_u8(), 0x02);
    assert_eq!(frames[0].payload.as_ref(), b"one");
    // Frames without a signature stay as they are; a stream without frames too.
    let plain = make_durp_with_frames(3);
    assert_eq!(export_strip_signatures(&plain).unwrap(), plain);
    assert_eq!(export_strip_signatures(b"nothing").unwrap(), b"nothing".to_vec());
}

#[test]
fn frames_are_counted_and_a_file_is_judged() {
    let mut frames = frames_with_payloads(&[b"a", b"bc"]);
    frames.push(Frame::new(FrameHeader::new(9, [0u8; 32], 7), Bytes::from_static(b"short")));
    assert_eq!(count_valid_frames(&frames), (2, 1));
    assert_eq!(count_valid_frames(&[]), (0, 0));
    assert_eq!(file_status(0, 0, 0), FileStatus::Complete);
    assert_eq!(file_status(1, 2, 3), FileStatus::InvalidFrames);
    assert_eq!(file_status(0, 2, 3), FileStatus::BrokenLinks);
    assert_eq!(file_status(0, 0, 3), FileStatus::Gaps);
}

#[test]
fn shards_of_disagreeing_lengths_are_refused() {
    let frames = frames_with_payloads(&[b"A", b"BC"]);
    let mut blocks = RsEncoder::new(2, 1).encode_batch(&frames, 0).unwrap();
    assert_eq!(blocks.len(), 3);
    blocks[2].data = vec![0u8; 3];
    assert_eq!(
        RsDecoder.decode_batch(&blocks, 2).unwrap_err(),
        FrameError::InvalidStructure("shard lengths disagree".to_string())
    );
    // Also where enough shards of one length are left.
    let mut blocks = RsEncoder::new(2, 2).encode_batch(&frames, 0).unwrap();
    blocks[3].data.push(0);
    assert_eq!(
        RsDecoder.decode_batch(&blocks, 2).unwrap_err(),
        FrameError::InvalidStructure("shard lengths disagree".to_string())
    );
    // A shard whose index lies outside the block is not looked at.
    let mut blocks = RsEncoder::new(2, 1).encode_batch(&frames, 0).unwrap();
    blocks.push(FecBlock { block_id: 0, index: 7, total_blocks: 3, data: vec![1, 2, 3, 4] });
    let back = RsDecoder.decode_batch(&blocks, 2).unwrap();
    assert_eq!(back[0].payload.as_ref(), b"A");
    assert_eq!(back[1].payload.as_ref(), b"BC");
}

#[test]
fn a_batch_has_one_data_shard_for_each_frame() {
    let frames = frames_with_payloads(&[b"A", b"BC"]);
    let plain = RsEncoder::new(2, 1).encode_batch(&frames, 0).unwrap();
    // The data shards that the encoder was made with do not count.
    for enc in [RsEncoder::new(1, 1), RsEncoder::new(3, 1), RsEncoder::new(254, 1), RsEncoder::new(300, 1)] {
        let blocks = enc.encode_batch(&frames, 0).unwrap();
        assert_eq!(blocks.len(), 3);
        for (i, b) in blocks.iter().enumerate() {
            assert_eq!(b.block_id, 0);
            assert_eq!(b.index, i as u32);
            assert_eq!(b.total_blocks, 3);
            assert_eq!(b.data.len(), 2);
        }
        assert_eq!(blocks[0].data, vec![b'A', 0u8]);
        assert_eq!(blocks[1].data, vec![b'B', b'C']);
        assert_eq!(blocks, plain);
        // Any two of the three shards give the payloads back.
        let left = vec![blocks[1].clone(), blocks[2].clone()];
        let back = RsDecoder.decode_batch(&left, 2).unwrap();
        assert_eq!(back[0].payload.as_ref(), b"A");
        assert_eq!(back[1].payload.as_ref(), b"BC");
    }
    let blocks = RsEncoder::new(254, 2).encode_batch(&frames, 0).unwrap();
    assert_eq!(blocks.len(), 4);
    assert_eq!(blocks[3].total_blocks, 4);
}
