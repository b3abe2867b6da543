//! Writing streams: packing payloads into a chain of frames, with
//! Reed-Solomon parity frames behind every full block, and adding parity to
//! a stream that exists.

use crate::buffer::bytes_view;
use crate::constants::{FrameFlags, MAX_PAYLOAD_SIZE, PROTOCOL_VERSION};
use crate::encoder::{
    encode_frame_struct, encode_frame_struct_signed, spec_ed25519_signature, FrameBuilder,
};
use crate::error::{FrameError, FrameErrorView};
use crate::fec::{
    block_outcome, block_views, blocks_of, code_word, data_shards_of, encode_block, rs_parity,
    shard_views, FecBlock,
};
use crate::layout::{encoded, frame_body, zero_signature};
use crate::linker::{frame_views, frames_of, link, link_frames};
use crate::scanner::{
    frames_found, lemma_scan_finds_written, located_of, located_views, marker_at, scan_from,
    scan_stream, stream_of, Written,
};
use crate::types::{chain_hash, zero_hash, Frame, FrameView, HeaderView};
use crate::wire::put_slice;
use bytes::Bytes;
use std::ops::Deref;
use vstd::prelude::*;
use vstd::string::StringExecFns;

verus! {

/// The sidecar record of one protected block.
#[derive(Debug, Clone, PartialEq, Eq)]
pub struct FecIndexEntry {
    /// Id of the first data frame of the block.
    pub block_start_id: u64,
    /// Number of data frames in the block.
    pub data: usize,
    /// Number of parity frames of the block.
    pub parity: usize,
    /// Ids of the parity frames.
    pub parity_frame_ids: Vec<u64>,
}

/// What a sidecar record holds.
pub struct FecIndexEntryView {
    pub block_start_id: u64,
    pub data: usize,
    pub parity: usize,
    pub parity_frame_ids: Seq<u64>,
}

impl View for FecIndexEntry {
    type V = FecIndexEntryView;

    open spec fn view(&self) -> FecIndexEntryView {
        FecIndexEntryView {
            block_start_id: self.block_start_id,
            data: self.data,
            parity: self.parity,
            parity_frame_ids: self.parity_frame_ids@,
        }
    }
}

/// What sidecar records hold.
pub open spec fn entry_views(v: Seq<FecIndexEntry>) -> Seq<FecIndexEntryView> {
    v.map_values(|e: FecIndexEntry| e@)
}

/// How frames are to be written.
#[derive(Debug, Clone, Copy)]
pub struct PackOptions {
    /// Id of the first frame.
    pub start_id: u64,
    /// Whether the frames get a BLAKE3 trailer in place of CRC32C.
    pub use_blake3: bool,
    /// Data and parity frames per block, where parity is wanted.
    pub fec_rs: Option<(usize, usize)>,
    /// The secret key to sign with, where signatures are wanted.
    pub signing_key: Option<[u8; 32]>,
}

/// What is known of how frames are to be written.
pub struct PackOptionsView {
    pub use_blake3: bool,
    pub signing_key: Option<Seq<u8>>,
}

impl View for PackOptions {
    type V = PackOptionsView;

    open spec fn view(&self) -> PackOptionsView {
        PackOptionsView {
            use_blake3: self.use_blake3,
            signing_key: match self.signing_key {
                Some(k) => Some(k@),
                None => None,
            },
        }
    }
}

impl PackOptionsView {
    /// The trailer flags of the frames: signed where there is a key, else
    /// BLAKE3 where it is asked for, else CRC32C.
    pub open spec fn trailer_flags(self) -> u8 {
        if self.signing_key is Some {
            0x03
        } else if self.use_blake3 {
            0x02
        } else {
            0x01
        }
    }

    /// What stands in the signature's place of a frame.
    pub open spec fn signature(self, h: HeaderView, payload: Seq<u8>) -> Seq<u8> {
        match self.signing_key {
            Some(k) => spec_ed25519_signature(k, frame_body(h, payload))@,
            None => zero_signature(),
        }
    }
}

/// A stream that was written, with its sidecar records.
#[derive(Debug, Clone)]
pub struct PackedStream {
    /// The bytes of the frames.
    pub bytes: Vec<u8>,
    /// One record for each protected block.
    pub fec_index: Vec<FecIndexEntry>,
}

/// The state of writing a chain.
pub struct WriterView {
    /// The bytes written.
    pub bytes: Seq<u8>,
    /// The id of the next frame.
    pub next_id: int,
    /// The chain hash of the frame written last.
    pub prev_hash: Seq<u8>,
    /// Whether the next frame is the first of the chain.
    pub first: bool,
}

/// The header of the next frame of a chain.
pub open spec fn next_header(w: WriterView, payload: Seq<u8>, flags: u8) -> HeaderView {
    HeaderView {
        version: PROTOCOL_VERSION,
        frame_id: w.next_id as u64,
        prev_hash: if w.first {
            zero_hash()
        } else {
            w.prev_hash
        },
        payload_len: if payload.len() > u32::MAX {
            u32::MAX
        } else {
            payload.len() as u32
        },
        flags: if w.first {
            flags | 0x04
        } else {
            flags
        },
    }
}

/// The state after the payloads from number `j` on were written as frames
/// of the chain: each frame gets the next id and carries the chain hash of
/// the frame before it; the first frame of a chain is marked as first.
/// Writing fails at a payload above the limit and where the ids run out.
pub open spec fn written(payloads: Seq<Seq<u8>>, j: int, w: WriterView, options: PackOptionsView) -> Result<
    WriterView,
    FrameErrorView,
>
    decreases payloads.len() - j,
{
    if j < 0 || j >= payloads.len() {
        Ok(w)
    } else if w.next_id > u64::MAX {
        Err(FrameErrorView::InvalidStructure("frame id out of range"@))
    } else {
        let h = next_header(w, payloads[j], options.trailer_flags());
        if h.payload_len > MAX_PAYLOAD_SIZE {
            Err(FrameErrorView::PayloadTooLarge(h.payload_len, MAX_PAYLOAD_SIZE))
        } else {
            written(
                payloads,
                j + 1,
                WriterView {
                    bytes: w.bytes + encoded(h, payloads[j], options.signature(h, payloads[j])),
                    next_id: w.next_id + 1,
                    prev_hash: chain_hash(h, payloads[j]),
                    first: false,
                },
                options,
            )
        }
    }
}

/// `count` consecutive ids from `first` on.
pub open spec fn ids_from(first: int, count: nat) -> Seq<u64> {
    Seq::new(count, |j: int| (first + j) as u64)
}

/// The state and the sidecar record after one full block was packed: the
/// `data` payloads from number `i` on are written as frames, then the
/// `parity` parity shards of the block, in the same chain.
pub open spec fn block_packed(
    payloads: Seq<Seq<u8>>,
    i: int,
    w: WriterView,
    data: usize,
    parity: usize,
    options: PackOptionsView,
) -> Result<(WriterView, FecIndexEntryView), FrameErrorView> {
    let block = payloads.subrange(i, i + data);
    match written(block, 0, w, options) {
        Err(e) => Err(e),
        Ok(w2) => match block_outcome(block, data as nat, parity as nat) {
            Err(e) => Err(e),
            Ok(_) => match written(
                rs_parity(data_shards_of(block, data as nat), parity as nat),
                0,
                w2,
                options,
            ) {
                Err(e) => Err(e),
                Ok(w3) => Ok(
                    (
                        w3,
                        FecIndexEntryView {
                            block_start_id: w.next_id as u64,
                            data,
                            parity,
                            parity_frame_ids: ids_from(w2.next_id, parity as nat),
                        },
                    ),
                ),
            },
        },
    }
}

/// The state and the sidecar records after the payloads from number `i` on
/// were packed: every full block of `data` payloads is followed by the
/// `parity` parity frames of the block, in the same chain, and gets a
/// record; the payloads that do not fill a block are written without
/// parity. Without parity (`data` is 0) all payloads are written as they
/// are.
pub open spec fn packed(
    payloads: Seq<Seq<u8>>,
    i: int,
    w: WriterView,
    index: Seq<FecIndexEntryView>,
    data: usize,
    parity: usize,
    options: PackOptionsView,
) -> Result<(WriterView, Seq<FecIndexEntryView>), FrameErrorView>
    decreases payloads.len() - i,
{
    if data < 1 || i < 0 || i + data > payloads.len() {
        match written(
            payloads.subrange(at_least_zero(i, payloads.len() as int), payloads.len() as int),
            0,
            w,
            options,
        ) {
            Err(e) => Err(e),
            Ok(w2) => Ok((w2, index)),
        }
    } else {
        match block_packed(payloads, i, w, data, parity, options) {
            Err(e) => Err(e),
            Ok(r) => packed(payloads, i + data, r.0, index.push(r.1), data, parity, options),
        }
    }
}

/// `i`, but at least 0 and at most `n`.
pub open spec fn at_least_zero(i: int, n: int) -> int {
    if i < 0 {
        0
    } else if i > n {
        n
    } else {
        i
    }
}

/// Data frames per block, 0 where no parity is wanted.
pub open spec fn data_per_block(fec_rs: Option<(usize, usize)>) -> usize {
    match fec_rs {
        Some(p) => p.0,
        None => 0,
    }
}

/// Parity frames per block.
pub open spec fn parity_per_block(fec_rs: Option<(usize, usize)>) -> usize {
    match fec_rs {
        Some(p) => p.1,
        None => 0,
    }
}

/// What packing returns: the bytes of the chain and the sidecar records, or
/// the first error that writing came to.
pub open spec fn pack_outcome(payloads: Seq<Seq<u8>>, options: PackOptions) -> Result<
    (Seq<u8>, Seq<FecIndexEntryView>),
    FrameErrorView,
> {
    match packed(
        payloads,
        0,
        WriterView {
            bytes: Seq::empty(),
            next_id: options.start_id as int,
            prev_hash: zero_hash(),
            first: true,
        },
        Seq::empty(),
        data_per_block(options.fec_rs),
        parity_per_block(options.fec_rs),
        options@,
    ) {
        Err(e) => Err(e),
        Ok(r) => Ok((r.0.bytes, r.1)),
    }
}

/// A packed stream or an error, as what they hold.
pub open spec fn packed_result_view(r: Result<PackedStream, FrameError>) -> Result<
    (Seq<u8>, Seq<FecIndexEntryView>),
    FrameErrorView,
> {
    match r {
        Ok(p) => Ok((p.bytes@, entry_views(p.fec_index@))),
        Err(e) => Err(e@),
    }
}

/// The state of writing a chain.
struct Writer {
    out: Vec<u8>,
    next_id: u128,
    prev_hash: [u8; 32],
    first: bool,
}

impl View for Writer {
    type V = WriterView;

    closed spec fn view(&self) -> WriterView {
        WriterView {
            bytes: self.out@,
            next_id: self.next_id as int,
            prev_hash: self.prev_hash@,
            first: self.first,
        }
    }
}

/// Writes the payloads from `from` up to `to` as frames of the chain.
fn write_frames(payloads: &Vec<Vec<u8>>, from: usize, to: usize, w: &mut Writer, options: &PackOptions) -> (r:
    Result<(), FrameError>)
    requires
        from <= to <= payloads.len(),
        old(w).next_id <= u64::MAX + 1,
    ensures
        match written(shard_views(payloads@).subrange(from as int, to as int), 0, old(w)@, options@) {
            Ok(w2) => r is Ok && final(w)@ == w2,
            Err(e) => r matches Err(x) && x@ == e,
        },
        final(w).next_id <= u64::MAX + 1,
{
    let ghost block = shard_views(payloads@).subrange(from as int, to as int);
    let ghost start = w@;
    let mut j: usize = from;
    while j < to
        invariant
            from <= j <= to,
            to <= payloads.len(),
            block == shard_views(payloads@).subrange(from as int, to as int),
            start == old(w)@,
            w.next_id <= u64::MAX + 1,
            written(block, 0, start, options@) == written(block, j - from, w@, options@),
        decreases to - j,
    {
        if w.next_id > u64::MAX as u128 {
            return Err(FrameError::InvalidStructure(String::from_str("frame id out of range")));
        }
        let payload = &payloads[j];
        assert(block[j - from] == payload@);
        let mut builder = FrameBuilder::new(w.next_id as u64).payload(
            Bytes::copy_from_slice(payload.as_slice()),
        ).prev_hash(w.prev_hash);
        if w.first {
            builder = builder.mark_first();
        }
        if options.signing_key.is_some() {
            builder = builder.with_blake3_signature();
        } else if options.use_blake3 {
            builder = builder.with_blake3();
        } else {
            builder = builder.with_crc32c();
        }
        let ghost h = next_header(w@, payload@, options@.trailer_flags());
        proof {
            assert(0u8 | 0x04u8 == 0x04u8) by (bit_vector);
            assert(0x04u8 | 0x03u8 == 0x03u8 | 0x04u8) by (bit_vector);
            assert(0x04u8 | 0x02u8 == 0x02u8 | 0x04u8) by (bit_vector);
            assert(0x04u8 | 0x01u8 == 0x01u8 | 0x04u8) by (bit_vector);
            assert(0u8 | 0x03u8 == 0x03u8) by (bit_vector);
            assert(0u8 | 0x02u8 == 0x02u8) by (bit_vector);
            assert(0u8 | 0x01u8 == 0x01u8) by (bit_vector);
            assert(0x03u8 & 0x04u8 == 0 && 0x02u8 & 0x04u8 == 0 && 0x01u8 & 0x04u8 == 0 && (0x03u8
                | 0x04u8) & 0x04u8 != 0 && (0x02u8 | 0x04u8) & 0x04u8 != 0 && (0x01u8 | 0x04u8)
                & 0x04u8 != 0) by (bit_vector);
            assert(builder@.header() == h);
        }
        let frame = match builder.build_struct() {
            Err(e) => {
                return Err(e);
            },
            Ok(frame) => frame,
        };
        let encoded_frame = match &options.signing_key {
            Some(key) => encode_frame_struct_signed(&frame, key),
            None => encode_frame_struct(&frame),
        };
        let bytes = match encoded_frame {
            Err(e) => {
                proof {
                    assert(false);
                }
                return Err(e);
            },
            Ok(bytes) => bytes,
        };
        w.prev_hash = frame.compute_hash();
        put_slice(&mut w.out, bytes.deref());
        w.next_id = w.next_id + 1;
        w.first = false;
        j += 1;
    }
    Ok(())
}

/// The parity shards of the block of the payloads from `from` up to `to`.
fn parity_of_block(payloads: &Vec<Vec<u8>>, from: usize, to: usize, parity: usize) -> (r: Result<
    Vec<Vec<u8>>,
    FrameError,
>)
    requires
        from < to <= payloads.len(),
    ensures
        match block_outcome(
            shard_views(payloads@).subrange(from as int, to as int),
            (to - from) as nat,
            parity as nat,
        ) {
            Ok(_) => r matches Ok(p) && shard_views(p@) == rs_parity(
                data_shards_of(
                    shard_views(payloads@).subrange(from as int, to as int),
                    (to - from) as nat,
                ),
                parity as nat,
            ),
            Err(e) => r matches Err(x) && x@ == e,
        },
{
    let data = to - from;
    let ghost shards = shard_views(payloads@).subrange(from as int, to as int);
    let mut block: Vec<Vec<u8>> = Vec::new();
    let mut j: usize = from;
    while j < to
        invariant
            from <= j <= to,
            to <= payloads.len(),
            block.len() == j - from,
            forall|i: int| 0 <= i < j - from ==> #[trigger] shard_views(block@)[i] == shard_views(
                payloads@,
            )[from + i],
        decreases to - j,
    {
        let ghost before = shard_views(block@);
        let copy = payloads[j].clone();
        assert(copy@ =~= payloads@[j as int]@);
        block.push(copy);
        assert forall|i: int| 0 <= i < j + 1 - from implies #[trigger] shard_views(block@)[i]
            == shard_views(payloads@)[from + i] by {
            if i < j - from {
                assert(shard_views(block@)[i] == before[i]);
            }
        }
        j += 1;
    }
    assert(shard_views(block@) =~= shards);
    match encode_block(&block, data, parity) {
        Err(e) => Err(e),
        Ok(blocks) => {
            let ghost word = code_word(data_shards_of(shards, data as nat), parity as nat);
            let ghost want = rs_parity(data_shards_of(shards, data as nat), parity as nat);
            assert(block_views(blocks@) == blocks_of(word));
            let mut out: Vec<Vec<u8>> = Vec::new();
            let mut j: usize = 0;
            while j < parity
                invariant
                    j <= parity,
                    blocks.len() == data + parity,
                    word.len() == data + parity,
                    block_views(blocks@) == blocks_of(word),
                    word == code_word(data_shards_of(shards, data as nat), parity as nat),
                    want == rs_parity(data_shards_of(shards, data as nat), parity as nat),
                    out.len() == j,
                    forall|i: int| 0 <= i < j ==> #[trigger] shard_views(out@)[i] == want[i],
                decreases parity - j,
            {
                let ghost before = shard_views(out@);
                let shard = blocks[data + j].data.clone();
                assert(block_views(blocks@)[data + j] == blocks@[data + j]@);
                assert(shard@ =~= word[data + j]);
                assert(word[data + j] == want[j as int]);
                out.push(shard);
                assert forall|i: int| 0 <= i < j + 1 implies #[trigger] shard_views(out@)[i]
                    == want[i] by {
                    if i < j {
                        assert(shard_views(out@)[i] == before[i]);
                    }
                }
                j += 1;
            }
            assert(shard_views(out@) =~= want);
            Ok(out)
        },
    }
}

/// The ids of the parity frames of a block.
fn parity_ids(first: u128, count: usize) -> (ids: Vec<u64>)
    requires
        first + count <= u64::MAX + 1,
    ensures
        ids@ == ids_from(first as int, count as nat),
{
    let mut ids: Vec<u64> = Vec::new();
    let mut j: usize = 0;
    while j < count
        invariant
            j <= count,
            first + count <= u64::MAX + 1,
            ids.len() == j,
            forall|i: int| 0 <= i < j ==> #[trigger] ids@[i] == (first + i) as u64,
        decreases count - j,
    {
        ids.push((first + j as u128) as u64);
        j += 1;
    }
    assert(ids@ =~= ids_from(first as int, count as nat));
    ids
}

/// Packs one full block: its data frames, then its parity frames.
fn pack_block(payloads: &Vec<Vec<u8>>, i: usize, data: usize, parity: usize, w: &mut Writer, options: &PackOptions) -> (r:
    Result<FecIndexEntry, FrameError>)
    requires
        data >= 1,
        i + data <= payloads.len(),
        old(w).next_id <= u64::MAX + 1,
    ensures
        match block_packed(shard_views(payloads@), i as int, old(w)@, data, parity, options@) {
            Ok(p) => r matches Ok(entry) && entry@ == p.1 && final(w)@ == p.0,
            Err(e) => r matches Err(x) && x@ == e,
        },
        final(w).next_id <= u64::MAX + 1,
{
    let ghost all = shard_views(payloads@);
    let ghost before = w@;
    let block_start = w.next_id;
    match write_frames(payloads, i, i + data, w, options) {
        Err(e) => {
            return Err(e);
        },
        Ok(()) => {},
    }
    let shards = match parity_of_block(payloads, i, i + data, parity) {
        Err(e) => {
            return Err(e);
        },
        Ok(shards) => shards,
    };
    let first_parity = w.next_id;
    let ghost mid = w@;
    assert(shard_views(shards@).subrange(0, shards.len() as int) =~= shard_views(shards@));
    match write_frames(&shards, 0, shards.len(), w, options) {
        Err(e) => {
            return Err(e);
        },
        Ok(()) => {},
    }
    proof {
        lemma_written_ids(shard_views(shards@), 0, mid, options@);
        lemma_written_ids(all.subrange(i as int, i + data), 0, before, options@);
    }
    Ok(
        FecIndexEntry {
            block_start_id: block_start as u64,
            data,
            parity,
            parity_frame_ids: parity_ids(first_parity, parity),
        },
    )
}

/// Packs payloads into one chain of frames: ids from the start id on, the
/// first frame marked as first, each frame carrying the chain hash of the
/// frame before it. Where parity is wanted, every full block of data frames
/// is followed by its parity frames, which continue the chain, and gets a
/// sidecar record; a last block that is not full gets no parity.
pub fn pack_payloads(payloads: &Vec<Vec<u8>>, options: &PackOptions) -> (r: Result<
    PackedStream,
    FrameError,
>)
    ensures
        packed_result_view(r) == pack_outcome(shard_views(payloads@), *options),
{
    let (data, parity) = match options.fec_rs {
        Some((n, k)) => (n, k),
        None => (0, 0),
    };
    let ghost all = shard_views(payloads@);
    let prev_hash = [0u8; 32];
    assert(prev_hash@ =~= zero_hash());
    let mut w = Writer { out: Vec::new(), next_id: options.start_id as u128, prev_hash, first: true };
    let ghost start = w@;
    assert(data == data_per_block(options.fec_rs) && parity == parity_per_block(options.fec_rs));
    assert(start == (WriterView {
        bytes: Seq::empty(),
        next_id: options.start_id as int,
        prev_hash: zero_hash(),
        first: true,
    }));
    let mut index: Vec<FecIndexEntry> = Vec::new();
    let mut i: usize = 0;
    assert(entry_views(index@) =~= Seq::empty());
    while data >= 1 && payloads.len() - i >= data
        invariant
            i <= payloads.len(),
            all == shard_views(payloads@),
            w.next_id <= u64::MAX + 1,
            pack_outcome(all, *options) == (match packed(
                all,
                0,
                start,
                Seq::empty(),
                data,
                parity,
                options@,
            ) {
                Err(e) => Err(e),
                Ok(r) => Ok((r.0.bytes, r.1)),
            }),
            packed(all, 0, start, Seq::empty(), data, parity, options@) == packed(
                all,
                i as int,
                w@,
                entry_views(index@),
                data,
                parity,
                options@,
            ),
        decreases payloads.len() - i,
    {
        let ghost entries = entry_views(index@);
        let ghost before = w@;
        match pack_block(payloads, i, data, parity, &mut w, options) {
            Err(e) => {
                assert(block_packed(all, i as int, before, data, parity, options@) is Err);
                assert(packed(all, i as int, before, entries, data, parity, options@) == Err::<
                    (WriterView, Seq<FecIndexEntryView>),
                    FrameErrorView,
                >(e@));
                return Err(e);
            },
            Ok(entry) => {
                index.push(entry);
                assert(entry_views(index@) =~= entries.push(entry@));
            },
        }
        i = i + data;
    }
    assert(all.subrange(at_least_zero(i as int, all.len() as int), all.len() as int) == all.subrange(
        i as int,
        payloads.len() as int,
    ));
    match write_frames(payloads, i, payloads.len(), &mut w, options) {
        Err(e) => Err(e),
        Ok(()) => Ok(PackedStream { bytes: w.out, fec_index: index }),
    }
}

/// Writing frames takes one id for each frame.
proof fn lemma_written_ids(payloads: Seq<Seq<u8>>, j: int, w: WriterView, options: PackOptionsView)
    requires
        0 <= j <= payloads.len(),
        written(payloads, j, w, options) is Ok,
    ensures
        written(payloads, j, w, options)->Ok_0.next_id == w.next_id + payloads.len() - j,
        payloads.len() - j > 0 ==> w.next_id + payloads.len() - j <= u64::MAX + 1,
    decreases payloads.len() - j,
{
    if j < payloads.len() {
        let h = next_header(w, payloads[j], options.trailer_flags());
        lemma_written_ids(
            payloads,
            j + 1,
            WriterView {
                bytes: w.bytes + encoded(h, payloads[j], options.signature(h, payloads[j])),
                next_id: w.next_id + 1,
                prev_hash: chain_hash(h, payloads[j]),
                first: false,
            },
            options,
        );
    }
}

/// The frames that writing the payloads from number `j` on puts into the
/// stream.
pub open spec fn frames_written(
    payloads: Seq<Seq<u8>>,
    j: int,
    w: WriterView,
    options: PackOptionsView,
) -> Seq<Written>
    decreases payloads.len() - j,
{
    if j < 0 || j >= payloads.len() || w.next_id > u64::MAX {
        Seq::empty()
    } else {
        let h = next_header(w, payloads[j], options.trailer_flags());
        if h.payload_len > MAX_PAYLOAD_SIZE {
            Seq::empty()
        } else {
            seq![
                Written {
                    junk: Seq::empty(),
                    header: h,
                    payload: payloads[j],
                    signature: options.signature(h, payloads[j]),
                },
            ] + frames_written(
                payloads,
                j + 1,
                WriterView {
                    bytes: w.bytes + encoded(h, payloads[j], options.signature(h, payloads[j])),
                    next_id: w.next_id + 1,
                    prev_hash: chain_hash(h, payloads[j]),
                    first: false,
                },
                options,
            )
        }
    }
}

/// The frames that packing the payloads from number `i` on puts into the
/// stream: data frames and parity frames, as they come.
pub open spec fn frames_packed(
    payloads: Seq<Seq<u8>>,
    i: int,
    w: WriterView,
    data: usize,
    parity: usize,
    options: PackOptionsView,
) -> Seq<Written>
    decreases payloads.len() - i,
{
    if data < 1 || i < 0 || i + data > payloads.len() {
        frames_written(
            payloads.subrange(at_least_zero(i, payloads.len() as int), payloads.len() as int),
            0,
            w,
            options,
        )
    } else {
        let block = payloads.subrange(i, i + data);
        let shards = rs_parity(data_shards_of(block, data as nat), parity as nat);
        match written(block, 0, w, options) {
            Err(_) => Seq::empty(),
            Ok(w2) => match written(shards, 0, w2, options) {
                Err(_) => Seq::empty(),
                Ok(w3) => frames_written(block, 0, w, options) + frames_written(
                    shards,
                    0,
                    w2,
                    options,
                ) + frames_packed(payloads, i + data, w3, data, parity, options),
            },
        }
    }
}

/// Whether the frames continue a chain: the first has the id `next_id` and
/// carries `prev_hash` (zeros, where it is the first of the chain), and
/// each of the others has the next id and carries the chain hash of the
/// frame before it.
pub open spec fn continues(frames: Seq<Written>, next_id: int, prev_hash: Seq<u8>, first: bool) -> bool
    decreases frames.len(),
{
    if frames.len() == 0 {
        true
    } else {
        let f = frames.first();
        &&& f.header.frame_id == next_id
        &&& f.header.prev_hash == (if first {
            zero_hash()
        } else {
            prev_hash
        })
        &&& continues(frames.drop_first(), next_id + 1, chain_hash(f.header, f.payload), false)
    }
}

/// Whether the state is that of a writer that begins a chain or continues
/// one behind a frame.
pub open spec fn writer_ready(w: WriterView) -> bool {
    w.first || w.prev_hash.len() == 32
}

/// Whether every frame is one that the encoder emits, with nothing before
/// it.
pub open spec fn all_clean(frames: Seq<Written>) -> bool {
    forall|i: int|
        0 <= i < frames.len() ==> (#[trigger] frames[i]).sound() && frames[i].junk.len() == 0
}

/// The stream of frames one behind the other is the stream of the first
/// frames, then that of the others.
proof fn lemma_stream_of_joined(a: Seq<Written>, b: Seq<Written>)
    ensures
        stream_of(a + b) == stream_of(a) + stream_of(b),
    decreases a.len(),
{
    if a.len() == 0 {
        assert(a + b =~= b);
        assert(stream_of(a) + stream_of(b) =~= stream_of(b));
    } else {
        lemma_stream_of_joined(a.drop_first(), b);
        assert((a + b).drop_first() =~= a.drop_first() + b);
        assert((a + b).first() == a.first());
        assert(stream_of(a + b) =~= stream_of(a) + stream_of(b));
    }
}

/// Frames that continue a chain, followed by frames that continue it
/// behind them, continue the chain.
proof fn lemma_continues_joined(
    a: Seq<Written>,
    b: Seq<Written>,
    next_id: int,
    prev_hash: Seq<u8>,
    first: bool,
)
    requires
        continues(a, next_id, prev_hash, first),
        a.len() > 0 ==> continues(
            b,
            next_id + a.len(),
            chain_hash(a.last().header, a.last().payload),
            false,
        ),
        a.len() == 0 ==> continues(b, next_id, prev_hash, first),
    ensures
        continues(a + b, next_id, prev_hash, first),
    decreases a.len(),
{
    if a.len() == 0 {
        assert(a + b =~= b);
    } else {
        let f = a.first();
        let rest = a.drop_first();
        assert((a + b).drop_first() =~= rest + b);
        assert((a + b).first() == f);
        if rest.len() > 0 {
            assert(rest.last() == a.last());
        }
        lemma_continues_joined(rest, b, next_id + 1, chain_hash(f.header, f.payload), false);
    }
}

/// What writing puts into the stream: the frames written stand in the
/// stream one behind the other, are frames that the encoder emits, and
/// continue the chain; the writer ends behind the last of them.
proof fn lemma_written_frames(
    payloads: Seq<Seq<u8>>,
    j: int,
    w: WriterView,
    options: PackOptionsView,
)
    requires
        0 <= j <= payloads.len(),
        0 <= w.next_id,
        writer_ready(w),
        written(payloads, j, w, options) is Ok,
    ensures
        written(payloads, j, w, options)->Ok_0.bytes == w.bytes + stream_of(
            frames_written(payloads, j, w, options),
        ),
        all_clean(frames_written(payloads, j, w, options)),
        continues(frames_written(payloads, j, w, options), w.next_id, w.prev_hash, w.first),
        frames_written(payloads, j, w, options).len() == payloads.len() - j,
        writer_ready(written(payloads, j, w, options)->Ok_0),
        written(payloads, j, w, options)->Ok_0.next_id == w.next_id + payloads.len() - j,
        j < payloads.len() ==> !written(payloads, j, w, options)->Ok_0.first && written(
            payloads,
            j,
            w,
            options,
        )->Ok_0.prev_hash == chain_hash(
            frames_written(payloads, j, w, options).last().header,
            frames_written(payloads, j, w, options).last().payload,
        ),
        j == payloads.len() ==> written(payloads, j, w, options)->Ok_0 == w,
    decreases payloads.len() - j,
{
    let frames = frames_written(payloads, j, w, options);
    if j < payloads.len() {
        let h = next_header(w, payloads[j], options.trailer_flags());
        let sig = options.signature(h, payloads[j]);
        let next = WriterView {
            bytes: w.bytes + encoded(h, payloads[j], sig),
            next_id: w.next_id + 1,
            prev_hash: chain_hash(h, payloads[j]),
            first: false,
        };
        let f = Written { junk: Seq::empty(), header: h, payload: payloads[j], signature: sig };
        lemma_written_frames(payloads, j + 1, next, options);
        let rest = frames_written(payloads, j + 1, next, options);
        assert(frames == seq![f] + rest);
        assert(frames.drop_first() =~= rest);
        assert(frames.first() == f);
        assert(f.sound()) by {
            assert(zero_hash().len() == 32);
            assert(zero_signature().len() == 64);
            assert forall|k: int| !marker_at(Seq::<u8>::empty(), k) by {}
        }
        assert(all_clean(frames)) by {
            assert forall|i: int| 0 <= i < frames.len() implies (#[trigger] frames[i]).sound()
                && frames[i].junk.len() == 0 by {
                if i > 0 {
                    assert(frames[i] == rest[i - 1]);
                }
            }
        }
        assert(f.wire() =~= encoded(h, payloads[j], sig));
        assert(w.bytes + stream_of(frames) =~= next.bytes + stream_of(rest));
        if rest.len() > 0 {
            assert(frames.last() == rest.last());
        } else {
            assert(frames.last() == f);
        }
    } else {
        assert(w.bytes + stream_of(frames) =~= w.bytes);
    }
}

/// What packing a full block puts into the stream: its data frames, then
/// its parity frames, one behind the other in the chain.
proof fn lemma_block_frames(
    payloads: Seq<Seq<u8>>,
    i: int,
    w: WriterView,
    data: usize,
    parity: usize,
    options: PackOptionsView,
)
    requires
        0 <= i,
        data >= 1,
        i + data <= payloads.len(),
        0 <= w.next_id,
        writer_ready(w),
        block_packed(payloads, i, w, data, parity, options) is Ok,
    ensures
        ({
            let block = payloads.subrange(i, i + data);
            let shards = rs_parity(data_shards_of(block, data as nat), parity as nat);
            let w2 = written(block, 0, w, options)->Ok_0;
            let w3 = block_packed(payloads, i, w, data, parity, options)->Ok_0.0;
            let frames = frames_written(block, 0, w, options) + frames_written(
                shards,
                0,
                w2,
                options,
            );
            &&& written(block, 0, w, options) is Ok
            &&& written(shards, 0, w2, options) == Ok::<WriterView, FrameErrorView>(w3)
            &&& w3.bytes == w.bytes + stream_of(frames)
            &&& all_clean(frames)
            &&& continues(frames, w.next_id, w.prev_hash, w.first)
            &&& frames.len() >= 1
            &&& w3.next_id == w.next_id + frames.len()
            &&& !w3.first
            &&& w3.prev_hash == chain_hash(frames.last().header, frames.last().payload)
            &&& w3.prev_hash.len() == 32
        }),
{
    let block = payloads.subrange(i, i + data);
    let shards = rs_parity(data_shards_of(block, data as nat), parity as nat);
    let w2 = written(block, 0, w, options)->Ok_0;
    let w3 = written(shards, 0, w2, options)->Ok_0;
    lemma_written_frames(block, 0, w, options);
    lemma_written_frames(shards, 0, w2, options);
    let a = frames_written(block, 0, w, options);
    let b = frames_written(shards, 0, w2, options);
    let frames = a + b;
    lemma_stream_of_joined(a, b);
    assert(w3.bytes =~= w.bytes + stream_of(frames));
    assert(all_clean(frames)) by {
        assert forall|k: int| 0 <= k < frames.len() implies (#[trigger] frames[k]).sound()
            && frames[k].junk.len() == 0 by {
            if k < a.len() {
                assert(frames[k] == a[k]);
            } else {
                assert(frames[k] == b[k - a.len()]);
            }
        }
    }
    assert(a.len() == data);
    lemma_continues_joined(a, b, w.next_id, w.prev_hash, w.first);
    if b.len() > 0 {
        assert(frames.last() == b.last());
    } else {
        assert(frames =~= a);
    }
}

/// What packing puts into the stream: the frames packed stand in the
/// stream one behind the other, are frames that the encoder emits, and
/// continue the chain.
#[verifier::spinoff_prover]
#[verifier::rlimit(50)]
proof fn lemma_packed_frames(
    payloads: Seq<Seq<u8>>,
    i: int,
    w: WriterView,
    index: Seq<FecIndexEntryView>,
    data: usize,
    parity: usize,
    options: PackOptionsView,
)
    requires
        0 <= i <= payloads.len(),
        0 <= w.next_id,
        writer_ready(w),
        packed(payloads, i, w, index, data, parity, options) is Ok,
    ensures
        packed(payloads, i, w, index, data, parity, options)->Ok_0.0.bytes == w.bytes + stream_of(
            frames_packed(payloads, i, w, data, parity, options),
        ),
        all_clean(frames_packed(payloads, i, w, data, parity, options)),
        continues(
            frames_packed(payloads, i, w, data, parity, options),
            w.next_id,
            w.prev_hash,
            w.first,
        ),
    decreases payloads.len() - i,
{
    let frames = frames_packed(payloads, i, w, data, parity, options);
    if data < 1 || i + data > payloads.len() {
        let rest = payloads.subrange(i, payloads.len() as int);
        lemma_written_frames(rest, 0, w, options);
    } else {
        let block = payloads.subrange(i, i + data);
        let shards = rs_parity(data_shards_of(block, data as nat), parity as nat);
        let w2 = written(block, 0, w, options)->Ok_0;
        let step = block_packed(payloads, i, w, data, parity, options)->Ok_0;
        let w3 = step.0;
        lemma_block_frames(payloads, i, w, data, parity, options);
        lemma_packed_frames(payloads, i + data, w3, index.push(step.1), data, parity, options);
        let ab = frames_written(block, 0, w, options) + frames_written(shards, 0, w2, options);
        let c = frames_packed(payloads, i + data, w3, data, parity, options);
        assert(frames == ab + c);
        assert(w.bytes + stream_of(frames) =~= w3.bytes + stream_of(c)) by {
            lemma_stream_of_joined(ab, c);
        }
        assert(all_clean(frames)) by {
            assert forall|k: int| 0 <= k < frames.len() implies (#[trigger] frames[k]).sound()
                && frames[k].junk.len() == 0 by {
                if k < ab.len() {
                    assert(frames[k] == ab[k]);
                } else {
                    assert(frames[k] == c[k - ab.len()]);
                }
            }
        }
        assert(continues(frames, w.next_id, w.prev_hash, w.first)) by {
            lemma_continues_joined(ab, c, w.next_id, w.prev_hash, w.first);
        }
    }
}

/// What packing writes, a scan finds: in the stream of a packing that
/// succeeded, the scanner locates exactly the frames that were packed, data
/// and parity, one behind the other from the start of the stream; and
/// these frames form one chain, with ids that count up from the start id.
pub proof fn lemma_packed_stream_scans(payloads: Seq<Seq<u8>>, options: PackOptions)
    requires
        pack_outcome(payloads, options) is Ok,
    ensures
        scan_from(pack_outcome(payloads, options)->Ok_0.0, 0) == located_of(
            frames_packed(
                payloads,
                0,
                WriterView {
                    bytes: Seq::empty(),
                    next_id: options.start_id as int,
                    prev_hash: zero_hash(),
                    first: true,
                },
                data_per_block(options.fec_rs),
                parity_per_block(options.fec_rs),
                options@,
            ),
            0,
        ),
        continues(
            frames_packed(
                payloads,
                0,
                WriterView {
                    bytes: Seq::empty(),
                    next_id: options.start_id as int,
                    prev_hash: zero_hash(),
                    first: true,
                },
                data_per_block(options.fec_rs),
                parity_per_block(options.fec_rs),
                options@,
            ),
            options.start_id as int,
            zero_hash(),
            true,
        ),
{
    let start = WriterView {
        bytes: Seq::empty(),
        next_id: options.start_id as int,
        prev_hash: zero_hash(),
        first: true,
    };
    let data = data_per_block(options.fec_rs);
    let parity = parity_per_block(options.fec_rs);
    lemma_packed_frames(payloads, 0, start, Seq::empty(), data, parity, options@);
    let frames = frames_packed(payloads, 0, start, data, parity, options@);
    let bytes = pack_outcome(payloads, options)->Ok_0.0;
    assert(bytes =~= Seq::<u8>::empty() + stream_of(frames) + Seq::<u8>::empty());
    assert forall|k: int| !marker_at(Seq::<u8>::empty(), k) by {}
    lemma_scan_finds_written(Seq::empty(), frames, Seq::empty());
}

/// How parity frames are written into a stream that exists: with a
/// CRC32C trailer and no signature.
pub open spec fn parity_options() -> PackOptionsView {
    PackOptionsView { use_blake3: false, signing_key: None }
}

/// The payloads of frames.
pub open spec fn payloads_in(frames: Seq<FrameView>) -> Seq<Seq<u8>> {
    frames.map_values(|f: FrameView| f.payload)
}

/// The state and the sidecar record after the parity frames of one block
/// were written: the block of the `data` frames from number `i` on.
pub open spec fn block_injected(
    frames: Seq<FrameView>,
    i: int,
    w: WriterView,
    data: usize,
    parity: usize,
) -> Result<(WriterView, FecIndexEntryView), FrameErrorView> {
    let block = payloads_in(frames).subrange(i, i + data);
    match block_outcome(block, data as nat, parity as nat) {
        Err(e) => Err(e),
        Ok(_) => match written(
            rs_parity(data_shards_of(block, data as nat), parity as nat),
            0,
            w,
            parity_options(),
        ) {
            Err(e) => Err(e),
            Ok(w2) => Ok(
                (
                    w2,
                    FecIndexEntryView {
                        block_start_id: frames[i].header.frame_id,
                        data,
                        parity,
                        parity_frame_ids: ids_from(w.next_id, parity as nat),
                    },
                ),
            ),
        },
    }
}

/// The state and the sidecar records after the parity frames of the blocks
/// from frame number `i` on were written: one block for every `data` frames
/// in the order of the timeline; frames that do not fill a block are left
/// without parity.
pub open spec fn injected(
    frames: Seq<FrameView>,
    i: int,
    w: WriterView,
    index: Seq<FecIndexEntryView>,
    data: usize,
    parity: usize,
) -> Result<(WriterView, Seq<FecIndexEntryView>), FrameErrorView>
    decreases frames.len() - i,
{
    if data < 1 || i < 0 || i + data > frames.len() {
        Ok((w, index))
    } else {
        match block_injected(frames, i, w, data, parity) {
            Err(e) => Err(e),
            Ok(r) => injected(frames, i + data, r.0, index.push(r.1), data, parity),
        }
    }
}

/// What adding parity to a stream returns: the bytes of the parity frames,
/// to stand behind the stream, and the sidecar records. The frames of the
/// stream are scanned and linked; the parity frames continue the chain
/// behind the last frame of the timeline. A stream without a frame gives
/// `NoFramesFound`.
pub open spec fn inject_outcome(stream: Seq<u8>, data: usize, parity: usize) -> Result<
    (Seq<u8>, Seq<FecIndexEntryView>),
    FrameErrorView,
> {
    let found = frames_found(scan_from(stream, 0));
    let timeline = link(found);
    if found.len() == 0 || timeline.frames.len() == 0 {
        Err(FrameErrorView::NoFramesFound)
    } else {
        let last = timeline.frames.last();
        match injected(
            timeline.frames,
            0,
            WriterView {
                bytes: Seq::empty(),
                next_id: last.header.frame_id + 1,
                prev_hash: last.hash(),
                first: false,
            },
            Seq::empty(),
            data,
            parity,
        ) {
            Err(e) => Err(e),
            Ok(r) => Ok((r.0.bytes, r.1)),
        }
    }
}

/// Writes the parity frames of one block.
fn inject_block(
    frames: &Vec<Frame>,
    payloads: &Vec<Vec<u8>>,
    i: usize,
    data: usize,
    parity: usize,
    w: &mut Writer,
) -> (r: Result<FecIndexEntry, FrameError>)
    requires
        data >= 1,
        i + data <= frames.len(),
        shard_views(payloads@) == payloads_in(frame_views(frames@)),
        old(w).next_id <= u64::MAX + 1,
    ensures
        match block_injected(frame_views(frames@), i as int, old(w)@, data, parity) {
            Ok(p) => r matches Ok(entry) && entry@ == p.1 && final(w)@ == p.0,
            Err(e) => r matches Err(x) && x@ == e,
        },
        final(w).next_id <= u64::MAX + 1,
{
    let options = PackOptions { start_id: 0, use_blake3: false, fec_rs: None, signing_key: None };
    assert(options@ == parity_options());
    assert(payloads.len() == frames.len());
    let shards = match parity_of_block(payloads, i, i + data, parity) {
        Err(e) => {
            return Err(e);
        },
        Ok(shards) => shards,
    };
    let first_parity = w.next_id;
    let ghost before = w@;
    assert(shard_views(shards@).subrange(0, shards.len() as int) =~= shard_views(shards@));
    match write_frames(&shards, 0, shards.len(), w, &options) {
        Err(e) => {
            return Err(e);
        },
        Ok(()) => {},
    }
    proof {
        lemma_written_ids(shard_views(shards@), 0, before, options@);
    }
    assert(frame_views(frames@)[i as int] == frames@[i as int]@);
    Ok(
        FecIndexEntry {
            block_start_id: frames[i].header.frame_id,
            data,
            parity,
            parity_frame_ids: parity_ids(first_parity, parity),
        },
    )
}

/// Adds parity to a stream that exists: scans and links its frames, takes
/// them in the order of the timeline in blocks of `n_data`, and makes
/// `k_parity` parity frames for every full block. The parity frames
/// continue the chain behind the last frame of the timeline and carry a
/// CRC32C trailer. Returned are their bytes, to be put behind the stream,
/// and the sidecar records; the stream itself is not touched.
pub fn inject_parity(stream: &[u8], n_data: usize, k_parity: usize) -> (r: Result<
    PackedStream,
    FrameError,
>)
    ensures
        packed_result_view(r) == inject_outcome(stream@, n_data, k_parity),
{
    let located = scan_stream(stream);
    let ghost found = frames_found(scan_from(stream@, 0));
    assert(crate::linker::located_frame_views(located@) =~= found);
    if located.len() == 0 {
        return Err(FrameError::NoFramesFound);
    }
    let timeline = link_frames(frames_of(&located));
    let frames = timeline.frames;
    if frames.len() == 0 {
        return Err(FrameError::NoFramesFound);
    }
    let mut payloads: Vec<Vec<u8>> = Vec::new();
    let mut i: usize = 0;
    while i < frames.len()
        invariant
            i <= frames.len(),
            payloads.len() == i,
            forall|j: int|
                0 <= j < i ==> #[trigger] shard_views(payloads@)[j] == frames@[j]@.payload,
        decreases frames.len() - i,
    {
        let ghost before = shard_views(payloads@);
        let mut p: Vec<u8> = Vec::new();
        put_slice(&mut p, frames[i].payload.deref());
        assert(p@ =~= frames@[i as int]@.payload);
        payloads.push(p);
        assert forall|j: int| 0 <= j < i + 1 implies #[trigger] shard_views(payloads@)[j]
            == frames@[j]@.payload by {
            if j < i {
                assert(shard_views(payloads@)[j] == before[j]);
            }
        }
        i += 1;
    }
    assert(shard_views(payloads@) =~= payloads_in(frame_views(frames@)));
    let last = &frames[frames.len() - 1];
    assert(frame_views(frames@).last() == last@);
    let mut w = Writer {
        out: Vec::new(),
        next_id: last.header.frame_id as u128 + 1,
        prev_hash: last.compute_hash(),
        first: false,
    };
    let ghost start = w@;
    let ghost outcome = inject_outcome(stream@, n_data, k_parity);
    assert(frame_views(frames@) == link(found).frames);
    assert(outcome == (match injected(
        frame_views(frames@),
        0,
        start,
        Seq::empty(),
        n_data,
        k_parity,
    ) {
        Err(e) => Err(e),
        Ok(r) => Ok((r.0.bytes, r.1)),
    }));
    let mut index: Vec<FecIndexEntry> = Vec::new();
    let mut i: usize = 0;
    assert(entry_views(index@) =~= Seq::empty());
    while n_data >= 1 && frames.len() - i >= n_data
        invariant
            i <= frames.len(),
            shard_views(payloads@) == payloads_in(frame_views(frames@)),
            w.next_id <= u64::MAX + 1,
            outcome == inject_outcome(stream@, n_data, k_parity),
            outcome == (match injected(
                frame_views(frames@),
                0,
                start,
                Seq::empty(),
                n_data,
                k_parity,
            ) {
                Err(e) => Err(e),
                Ok(r) => Ok((r.0.bytes, r.1)),
            }),
            injected(frame_views(frames@), 0, start, Seq::empty(), n_data, k_parity) == injected(
                frame_views(frames@),
                i as int,
                w@,
                entry_views(index@),
                n_data,
                k_parity,
            ),
        decreases frames.len() - i,
    {
        let ghost entries = entry_views(index@);
        let ghost before = w@;
        match inject_block(&frames, &payloads, i, n_data, k_parity, &mut w) {
            Err(e) => {
                assert(block_injected(frame_views(frames@), i as int, before, n_data, k_parity) is Err);
                assert(injected(
                    frame_views(frames@),
                    i as int,
                    before,
                    entries,
                    n_data,
                    k_parity,
                ) == Err::<(WriterView, Seq<FecIndexEntryView>), FrameErrorView>(e@));
                return Err(e);
            },
            Ok(entry) => {
                index.push(entry);
                assert(entry_views(index@) =~= entries.push(entry@));
            },
        }
        i = i + n_data;
    }
    Ok(PackedStream { bytes: w.out, fec_index: index })
}

/// The header under which a frame is written when signatures are
/// stripped: a frame with a signed trailer of 96 bytes keeps of its flags
/// only the one for the BLAKE3 trailer; every other frame keeps its header.
pub open spec fn stripped_header(f: FrameView) -> HeaderView {
    if f.header.trailer_type() == crate::constants::TrailerType::Blake3WithEd25519Sig && (
    f.trailer matches Some(t) && t.len() == 96) {
        HeaderView { flags: 0x02, ..f.header }
    } else {
        f.header
    }
}

/// The stream of the first `n` frames with their signatures stripped, or
/// the error of the first frame that cannot be encoded.
pub open spec fn stripped_stream(frames: Seq<FrameView>, n: int) -> Result<Seq<u8>, FrameErrorView>
    decreases n,
{
    if n <= 0 || n > frames.len() {
        Ok(Seq::empty())
    } else {
        match stripped_stream(frames, n - 1) {
            Err(e) => Err(e),
            Ok(bytes) => match crate::layout::encode_outcome(
                stripped_header(frames[n - 1]),
                frames[n - 1].payload,
                zero_signature(),
            ) {
                Err(e) => Err(e),
                Ok(frame) => Ok(bytes + frame),
            },
        }
    }
}

/// What stripping signatures returns: the stream as it is where it holds
/// no frame, else its frames, encoded anew, one behind the other.
pub open spec fn strip_outcome(stream: Seq<u8>) -> Result<Seq<u8>, FrameErrorView> {
    let found = frames_found(scan_from(stream, 0));
    if found.len() == 0 {
        Ok(stream)
    } else {
        stripped_stream(found, found.len() as int)
    }
}

/// Writes a stream anew without signatures: every frame with a signed
/// trailer becomes a frame with a BLAKE3 trailer. What stands between the
/// frames of the stream is dropped. Frames that a scan found can always be
/// encoded anew, so this never fails.
pub fn export_strip_signatures(stream: &[u8]) -> (r: Result<Vec<u8>, FrameError>)
    ensures
        r is Ok,
        strip_outcome(stream@) == Ok::<Seq<u8>, FrameErrorView>(r->Ok_0@),
{
    let located = scan_stream(stream);
    let ghost found = frames_found(scan_from(stream@, 0));
    proof {
        crate::scanner::lemma_scan_valid(stream@, 0);
        assert forall|i: int| 0 <= i < found.len() implies (#[trigger] found[i]).valid() by {
            assert(found[i] == scan_from(stream@, 0)[i].frame);
        }
    }
    assert(crate::linker::located_frame_views(located@) =~= found);
    if located.len() == 0 {
        let mut out: Vec<u8> = Vec::new();
        put_slice(&mut out, stream);
        assert(out@ =~= stream@);
        return Ok(out);
    }
    let mut out: Vec<u8> = Vec::new();
    let mut i: usize = 0;
    while i < located.len()
        invariant
            i <= located.len(),
            found == crate::linker::located_frame_views(located@),
            found == frames_found(scan_from(stream@, 0)),
            found.len() > 0,
            forall|i: int| 0 <= i < found.len() ==> (#[trigger] found[i]).valid(),
            stripped_stream(found, i as int) == Ok::<Seq<u8>, FrameErrorView>(out@),
        decreases located.len() - i,
    {
        let frame = &located[i].frame;
        assert(found[i as int] == frame@);
        let signed = match frame.header.flags.trailer_type() {
            crate::constants::TrailerType::Blake3WithEd25519Sig => match &frame.trailer {
                Some(t) => t.len() == 96,
                None => false,
            },
            _ => false,
        };
        let header = if signed {
            crate::types::FrameHeader {
                flags: FrameFlags::new(FrameFlags::HAS_BLAKE3),
                ..frame.header
            }
        } else {
            frame.header
        };
        assert(header@ == stripped_header(frame@));
        assert(found[i as int].valid());
        match crate::encoder::encode_frame(&header, frame.payload.deref()) {
            Err(e) => {
                assert(false);
                return Err(e);
            },
            Ok(bytes) => {
                put_slice(&mut out, bytes.deref());
            },
        }
        i += 1;
    }
    Ok(out)
}

} // verus!
