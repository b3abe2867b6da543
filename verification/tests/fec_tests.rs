use bytes::Bytes;
use durapack::fec::{
    FecBlock, NoopDecoder, NoopEncoder, RedundancyDecoder, RedundancyEncoder, RsDecoder, RsEncoder,
};
use durapack::types::{Frame, FrameHeader};

#[test]
fn test_noop_encoder() {
    let encoder = NoopEncoder;
    let result = encoder.encode_batch(&[], 2);
    assert!(result.is_err());
}

#[test]
fn test_noop_decoder() {
    let decoder = NoopDecoder;
    let result = decoder.decode_batch(&[], 2);
    assert!(result.is_err());
    assert!(!decoder.can_reconstruct(5, 10));
}

#[test]
fn rs_round_trip_simple() {
    // Build a small batch of frames
    let payloads = [Bytes::from_static(b"A"), Bytes::from_static(b"BC")];
    let frames: Vec<Frame> = payloads
        .iter()
        .enumerate()
        .map(|(i, p)| {
            let header = FrameHeader::new(i as u64, [0u8; 32], p.len() as u32);
            Frame::new(header, p.clone())
        })
        .collect();
    let enc = RsEncoder::new(frames.len(), 1);
    let blocks = enc.encode_batch(&frames, 0).expect("encode ok");
    // Drop one data shard and attempt reconstruction
    let avail: Vec<FecBlock> = blocks
        .iter()
        .enumerate()
        .filter_map(|(i, b)| if i == 0 { None } else { Some(b.clone()) })
        .collect();
    let dec = RsDecoder;
    let rec = dec.decode_batch(&avail, frames.len()).expect("decode ok");
    assert_eq!(rec.len(), frames.len());
    assert_eq!(rec[0].payload, frames[0].payload);
    assert_eq!(rec[1].payload, frames[1].payload);
}
