//! Forward error correction: Reed-Solomon parity over blocks of frames.
//!
//! A block of N data shards gets K parity shards, and any N of the N + K
//! shards give the data back. The arithmetic in GF(2^8) is that of the
//! `reed-solomon-erasure` crate; this module pads the payloads into shards,
//! checks the parameters, places the shards that are left, and trims what
//! comes back.

use crate::buffer::bytes_view;
use crate::error::{FrameError, FrameErrorView};
use crate::types::{frame_result_view, zero_hash, Frame, FrameHeader, FrameView, HeaderView};
use crate::wire::put_slice;
use bytes::Bytes;
use std::ops::Deref;
use vstd::prelude::*;
use vstd::string::StringExecFns;

verus! {

/// `reed_solomon_erasure::Error`: why the codec refused. The library tells
/// its own errors by what it handed to the codec, and never looks into this
/// one.
#[verifier::external_type_specification]
#[verifier::external_body]
pub struct ExRsError(reed_solomon_erasure::Error);

/// The byte at index `at` of parity shard number `shard`, of the
/// `parity_shards` parity shards that Reed-Solomon coding in GF(2^8) gives
/// for the data shards `data`.
pub uninterp spec fn rs_parity_byte(data: Seq<Seq<u8>>, parity_shards: nat, shard: int, at: int) -> u8;

/// The parity shards of the data shards `data`, `parity_shards` in number:
/// each as long as the first data shard.
pub open spec fn rs_parity(data: Seq<Seq<u8>>, parity_shards: nat) -> Seq<Seq<u8>> {
    Seq::new(
        parity_shards,
        |shard: int|
            Seq::new(data[0].len(), |at: int| rs_parity_byte(data, parity_shards, shard, at)),
    )
}

/// The code word of the data shards `data`: the data shards, then their
/// parity shards.
pub open spec fn code_word(data: Seq<Seq<u8>>, parity_shards: nat) -> Seq<Seq<u8>> {
    data + rs_parity(data, parity_shards)
}

/// The shards that reconstruction gives for the slots `slots`, of which the
/// first `data_shards` are data and the other `parity_shards` parity.
pub uninterp spec fn rs_reconstructed(
    data_shards: nat,
    parity_shards: nat,
    slots: Seq<Option<Seq<u8>>>,
) -> Seq<Seq<u8>>;

/// What shards hold.
pub open spec fn shard_views(shards: Seq<Vec<u8>>) -> Seq<Seq<u8>> {
    shards.map_values(|s: Vec<u8>| s@)
}

/// What slots hold.
pub open spec fn slot_views(slots: Seq<Option<Vec<u8>>>) -> Seq<Option<Seq<u8>>> {
    slots.map_values(
        |s: Option<Vec<u8>>|
            match s {
                Some(v) => Some(v@),
                None => None,
            },
    )
}

/// Slots that are all filled, with the given shards.
pub open spec fn filled(shards: Seq<Seq<u8>>) -> Seq<Option<Seq<u8>>> {
    shards.map_values(|s: Seq<u8>| Some(s))
}

/// The shard counts that the codec accepts: at least one data shard, at
/// least one parity shard, and at most 256 shards in all.
pub open spec fn rs_accepts(data_shards: nat, parity_shards: nat) -> bool {
    data_shards >= 1 && parity_shards >= 1 && data_shards + parity_shards <= 256
}

/// Whether all shards have one length, which is not zero.
pub open spec fn uniform(shards: Seq<Seq<u8>>) -> bool {
    shards.len() > 0 && shards[0].len() > 0 && forall|i: int|
        0 <= i < shards.len() ==> (#[trigger] shards[i]).len() == shards[0].len()
}

/// Whether all filled slots hold shards of the length `len`.
pub open spec fn filled_with_len(slots: Seq<Option<Seq<u8>>>, len: nat) -> bool {
    forall|i: int| 0 <= i < slots.len() ==> ((#[trigger] slots[i]) matches Some(s) ==> s.len() == len)
}

/// The number of filled slots.
pub open spec fn present_count(slots: Seq<Option<Seq<u8>>>) -> nat
    decreases slots.len(),
{
    if slots.len() == 0 {
        0
    } else {
        present_count(slots.drop_last()) + (if slots.last() is Some {
            1nat
        } else {
            0nat
        })
    }
}

/// Whether every filled slot holds the shard that `shards` has in its
/// place.
pub open spec fn agrees(slots: Seq<Option<Seq<u8>>>, shards: Seq<Seq<u8>>) -> bool {
    slots.len() == shards.len() && forall|i: int|
        0 <= i < slots.len() ==> ((#[trigger] slots[i]) matches Some(s) ==> s == shards[i])
}

/// Whether the shards can be encoded: the codec accepts the shard counts,
/// the shards are as many as data and parity together, and all have one
/// length that is not zero.
pub open spec fn encodable(data_shards: nat, parity_shards: nat, shards: Seq<Seq<u8>>) -> bool {
    &&& rs_accepts(data_shards, parity_shards)
    &&& shards.len() == data_shards + parity_shards
    &&& uniform(shards)
}

/// `ReedSolomon::new` and `ReedSolomon::encode` of `reed-solomon-erasure`,
/// over GF(2^8).
///
/// The call succeeds exactly where the codec accepts the shard counts, the
/// shards are as many as data and parity together, and all have one length
/// that is not zero. It then leaves the data shards as they are and
/// overwrites the others, byte for byte, with the parity of the data; no
/// shard changes its length. Where it fails, the shards stay as they are.
#[verifier::external_body]
pub(crate) fn rs_encode(shards: &mut Vec<Vec<u8>>, data_shards: usize, parity_shards: usize) -> (r:
    Result<(), reed_solomon_erasure::Error>)
    requires
        data_shards + parity_shards <= usize::MAX,
    ensures
        r is Ok <==> encodable(data_shards as nat, parity_shards as nat, shard_views(old(shards)@)),
        r is Ok ==> final(shards).len() == old(shards).len() && uniform(
            shard_views(final(shards)@),
        ) && shard_views(final(shards)@).subrange(0, data_shards as int) == shard_views(
            old(shards)@,
        ).subrange(0, data_shards as int),
        r is Ok ==> forall|shard: int, at: int|
            0 <= shard < parity_shards && 0 <= at < old(shards)@[0].len() ==> (
            #[trigger] shard_views(final(shards)@)[data_shards + shard][at]) == rs_parity_byte(
                shard_views(old(shards)@).subrange(0, data_shards as int),
                parity_shards as nat,
                shard,
                at,
            ),
        r is Err ==> shard_views(final(shards)@) == shard_views(old(shards)@),
{
    reed_solomon_erasure::galois_8::ReedSolomon::new(data_shards, parity_shards)?.encode(shards)
}

/// Whether reconstruction can be had from the slots: the codec accepts the
/// shard counts, the slots are as many as data and parity together, the
/// filled slots hold shards of one length that is not zero, and at least as
/// many slots are filled as there are data shards.
pub open spec fn reconstructible(data_shards: nat, parity_shards: nat, slots: Seq<Option<Seq<u8>>>) -> bool {
    &&& rs_accepts(data_shards, parity_shards)
    &&& slots.len() == data_shards + parity_shards
    &&& present_count(slots) >= data_shards
    &&& exists|len: nat| len > 0 && filled_with_len(slots, len)
}

/// Whether `after` holds the whole code word of every data whose code word
/// the filled slots of `before` hold shards of.
pub open spec fn restores_code_words(
    data_shards: nat,
    parity_shards: nat,
    before: Seq<Option<Seq<u8>>>,
    after: Seq<Option<Seq<u8>>>,
) -> bool {
    forall|data: Seq<Seq<u8>>|
        data.len() == data_shards && uniform(data) && #[trigger] agrees(
            before,
            code_word(data, parity_shards),
        ) ==> after == filled(code_word(data, parity_shards))
}

/// `ReedSolomon::new` and `ReedSolomon::reconstruct` of
/// `reed-solomon-erasure`, over GF(2^8).
///
/// The call succeeds exactly where the codec accepts the shard counts, the
/// slots are as many as data and parity together, the filled slots hold
/// shards of one length that is not zero, and at least as many slots are
/// filled as there are data shards. It then fills every empty slot and
/// leaves the filled ones as they are. Where the filled slots hold shards
/// of the code word of some data, all slots then hold that code word: this
/// is the erasure code's promise, that any `data_shards` shards of a code
/// word give the whole of it. Where the call fails, the slots stay as they
/// are.
#[verifier::external_body]
pub(crate) fn rs_reconstruct(
    shards: &mut Vec<Option<Vec<u8>>>,
    data_shards: usize,
    parity_shards: usize,
) -> (r: Result<(), reed_solomon_erasure::Error>)
    requires
        data_shards + parity_shards <= usize::MAX,
    ensures
        r is Ok <==> reconstructible(
            data_shards as nat,
            parity_shards as nat,
            slot_views(old(shards)@),
        ),
        r is Ok ==> slot_views(final(shards)@) == filled(
            rs_reconstructed(
                data_shards as nat,
                parity_shards as nat,
                slot_views(old(shards)@),
            ),
        ),
        r is Ok ==> final(shards).len() == old(shards).len() && agrees(
            slot_views(old(shards)@),
            rs_reconstructed(data_shards as nat, parity_shards as nat, slot_views(old(shards)@)),
        ),
        r is Ok ==> restores_code_words(
            data_shards as nat,
            parity_shards as nat,
            slot_views(old(shards)@),
            slot_views(final(shards)@),
        ),
        r is Err ==> slot_views(final(shards)@) == slot_views(old(shards)@),
{
    reed_solomon_erasure::galois_8::ReedSolomon::new(data_shards, parity_shards)?.reconstruct(
        shards.as_mut_slice(),
    )
}

/// One shard of a Reed-Solomon block, data or parity.
#[derive(Debug, Clone, PartialEq)]
pub struct FecBlock {
    /// Identifier of the block; 0 where the caller keeps none.
    pub block_id: u64,
    /// Position of the shard in its block.
    pub index: u32,
    /// Number of shards in the block, data and parity.
    pub total_blocks: u32,
    /// The shard's bytes.
    pub data: Vec<u8>,
}

/// What a shard of a block holds.
pub struct FecBlockView {
    pub block_id: u64,
    pub index: u32,
    pub total_blocks: u32,
    pub data: Seq<u8>,
}

impl View for FecBlock {
    type V = FecBlockView;

    open spec fn view(&self) -> FecBlockView {
        FecBlockView {
            block_id: self.block_id,
            index: self.index,
            total_blocks: self.total_blocks,
            data: self.data@,
        }
    }
}

/// What a sequence of block shards holds.
pub open spec fn block_views(blocks: Seq<FecBlock>) -> Seq<FecBlockView> {
    blocks.map_values(|b: FecBlock| b@)
}

/// A result with its blocks and its error as what they hold.
pub open spec fn blocks_result_view(r: Result<Vec<FecBlock>, FrameError>) -> Result<
    Seq<FecBlockView>,
    FrameErrorView,
> {
    match r {
        Ok(b) => Ok(block_views(b@)),
        Err(e) => Err(e@),
    }
}

/// A result with its frames and its error as what they hold.
pub open spec fn frames_result_view(r: Result<Vec<Frame>, FrameError>) -> Result<
    Seq<FrameView>,
    FrameErrorView,
> {
    match r {
        Ok(f) => Ok(f@.map_values(|f: Frame| f@)),
        Err(e) => Err(e@),
    }
}

/// `n` zero bytes.
pub open spec fn zeros(n: nat) -> Seq<u8> {
    Seq::new(n, |i: int| 0u8)
}

/// `data` with zeros behind it up to the length `len`.
pub open spec fn padded(data: Seq<u8>, len: nat) -> Seq<u8> {
    if data.len() >= len {
        data
    } else {
        data + zeros((len - data.len()) as nat)
    }
}

/// `data` without the zeros at its end.
pub open spec fn trimmed(data: Seq<u8>) -> Seq<u8>
    decreases data.len(),
{
    if data.len() > 0 && data.last() == 0 {
        trimmed(data.drop_last())
    } else {
        data
    }
}

/// The length of the longest of `payloads`.
pub open spec fn longest(payloads: Seq<Seq<u8>>) -> nat
    decreases payloads.len(),
{
    if payloads.len() == 0 {
        0
    } else if payloads.last().len() > longest(payloads.drop_last()) {
        payloads.last().len()
    } else {
        longest(payloads.drop_last())
    }
}

/// The data shards of a block: the payloads, each padded with zeros to the
/// length of the longest, and shards of zeros up to `count` shards.
pub open spec fn data_shards_of(payloads: Seq<Seq<u8>>, count: nat) -> Seq<Seq<u8>> {
    Seq::new(
        count,
        |i: int|
            if i < payloads.len() {
                padded(payloads[i], longest(payloads))
            } else {
                zeros(longest(payloads))
            },
    )
}

/// The shards of a block as block shards: block id 0, the position, the
/// number of shards.
pub open spec fn blocks_of(shards: Seq<Seq<u8>>) -> Seq<FecBlockView> {
    Seq::new(
        shards.len(),
        |i: int|
            FecBlockView {
                block_id: 0,
                index: i as u32,
                total_blocks: shards.len() as u32,
                data: shards[i],
            },
    )
}

/// The shard counts that a block may have: at least one data shard, at
/// least one parity shard, and at most 255 shards in all.
pub open spec fn rs_admissible(data_shards: nat, parity_shards: nat) -> bool {
    data_shards >= 1 && parity_shards >= 1 && data_shards + parity_shards <= 255
}

/// What encoding a block returns: the error of inadmissible shard counts,
/// the error of a block whose payloads are all empty, or the data shards
/// followed by their parity shards.
pub open spec fn block_outcome(payloads: Seq<Seq<u8>>, data_shards: nat, parity_shards: nat) -> Result<
    Seq<FecBlockView>,
    FrameErrorView,
> {
    if !rs_admissible(data_shards, parity_shards) {
        Err(FrameErrorView::InvalidStructure("invalid RS parameters"@))
    } else if longest(payloads) == 0 {
        Err(FrameErrorView::InvalidStructure("RS encode failed"@))
    } else {
        Ok(blocks_of(code_word(data_shards_of(payloads, data_shards), parity_shards)))
    }
}

/// The payloads of frames.
pub open spec fn payloads_of(frames: Seq<Frame>) -> Seq<Seq<u8>> {
    frames.map_values(|f: Frame| f@.payload)
}

/// What buffers hold.
pub open spec fn buffer_views(buffers: Seq<Bytes>) -> Seq<Seq<u8>> {
    buffers.map_values(|b: Bytes| bytes_view(b))
}

/// The error with this message.
fn invalid(message: &str) -> (e: FrameError)
    ensures
        e@ == FrameErrorView::InvalidStructure(message@),
{
    FrameError::InvalidStructure(String::from_str(message))
}

/// A shard of `len` zeros.
fn zero_shard(len: usize) -> (v: Vec<u8>)
    ensures
        v@ == zeros(len as nat),
{
    let mut v: Vec<u8> = Vec::new();
    let mut i: usize = 0;
    while i < len
        invariant
            i <= len,
            v@ == zeros(i as nat),
        decreases len - i,
    {
        v.push(0);
        i += 1;
        assert(v@ =~= zeros(i as nat));
    }
    v
}

/// The payload padded with zeros to `len`.
fn padded_shard(payload: &[u8], len: usize) -> (v: Vec<u8>)
    requires
        payload.len() <= len,
    ensures
        v@ == padded(payload@, len as nat),
{
    let mut v: Vec<u8> = Vec::new();
    put_slice(&mut v, payload);
    assert(v@ =~= payload@);
    let mut i: usize = payload.len();
    while i < len
        invariant
            payload.len() <= i <= len,
            v@ == payload@ + zeros((i - payload.len()) as nat),
        decreases len - i,
    {
        v.push(0);
        i += 1;
        assert(v@ =~= payload@ + zeros((i - payload.len()) as nat));
    }
    assert(payload@ + zeros(0) =~= payload@);
    v
}

/// Every payload is at most as long as the longest.
pub proof fn lemma_longest_bounds(payloads: Seq<Seq<u8>>, i: int)
    requires
        0 <= i < payloads.len(),
    ensures
        payloads[i].len() <= longest(payloads),
    decreases payloads.len(),
{
    if i < payloads.len() - 1 {
        lemma_longest_bounds(payloads.drop_last(), i);
    }
}

/// Encodes one block: pads the payloads into `data_shards` shards, one
/// for each payload, adds `parity_shards` shards and has the codec fill
/// them.
pub(crate) fn encode_block(payloads: &Vec<Vec<u8>>, data_shards: usize, parity_shards: usize) -> (r: Result<
    Vec<FecBlock>,
    FrameError,
>)
    requires
        payloads.len() == data_shards,
    ensures
        blocks_result_view(r) == block_outcome(
            shard_views(payloads@),
            data_shards as nat,
            parity_shards as nat,
        ),
{
    if data_shards == 0 || parity_shards == 0 || data_shards > 255 || parity_shards > 255
        || data_shards + parity_shards > 255 {
        return Err(invalid("invalid RS parameters"));
    }
    let ghost views = shard_views(payloads@);
    let mut shard_len: usize = 0;
    let mut i: usize = 0;
    assert(views.subrange(0, 0) =~= Seq::empty());
    while i < payloads.len()
        invariant
            i <= payloads.len(),
            views == shard_views(payloads@),
            shard_len == longest(views.subrange(0, i as int)),
        decreases payloads.len() - i,
    {
        if payloads[i].len() > shard_len {
            shard_len = payloads[i].len();
        }
        i += 1;
        assert(views.subrange(0, i as int).drop_last() =~= views.subrange(0, i - 1));
    }
    assert(views.subrange(0, i as int) =~= views);
    if shard_len == 0 {
        return Err(invalid("RS encode failed"));
    }
    let total: usize = data_shards + parity_shards;
    let mut shards: Vec<Vec<u8>> = Vec::new();
    let mut i: usize = 0;
    let ghost data = data_shards_of(views, data_shards as nat);
    while i < total
        invariant
            i <= total,
            total == data_shards + parity_shards,
            payloads.len() == data_shards,
            views == shard_views(payloads@),
            shard_len == longest(views),
            shard_len > 0,
            data == data_shards_of(views, data_shards as nat),
            shards.len() == i,
            forall|j: int| 0 <= j < i && j < data_shards ==> shard_views(shards@)[j] == data[j],
            forall|j: int| 0 <= j < i ==> (#[trigger] shard_views(shards@)[j]).len() == shard_len,
        decreases total - i,
    {
        let ghost before = shard_views(shards@);
        if i < payloads.len() {
            proof {
                lemma_longest_bounds(views, i as int);
            }
            let shard = padded_shard(payloads[i].as_slice(), shard_len);
            assert(shard@.len() == shard_len);
            shards.push(shard);
        } else {
            let shard = zero_shard(shard_len);
            assert(shard@.len() == shard_len);
            shards.push(shard);
        }
        assert forall|j: int| 0 <= j < i + 1 implies (#[trigger] shard_views(shards@)[j]).len()
            == shard_len by {
            if j < i {
                assert(shard_views(shards@)[j] == before[j]);
            }
        }
        assert forall|j: int| 0 <= j < i + 1 && j < data_shards implies shard_views(shards@)[j]
            == data[j] by {
            if j < i {
                assert(shard_views(shards@)[j] == before[j]);
            }
        }
        i += 1;
    }
    assert(shard_views(shards@).subrange(0, data_shards as int) =~= data);
    assert(uniform(shard_views(shards@)));
    assert(shards@[0]@ == shard_views(shards@)[0]);
    match rs_encode(&mut shards, data_shards, parity_shards) {
        Err(_) => Err(invalid("RS encode failed")),
        Ok(()) => {
            let ghost coded = shard_views(shards@);
            proof {
                let word = code_word(data, parity_shards as nat);
                assert(coded.len() == word.len());
                assert forall|j: int| 0 <= j < coded.len() implies coded[j] =~= word[j] by {
                    if j < data_shards {
                        assert(coded.subrange(0, data_shards as int)[j] == coded[j]);
                    } else {
                        assert(coded[j].len() == coded[0].len());
                        assert(coded.subrange(0, data_shards as int)[0] == coded[0]);
                        assert forall|at: int| 0 <= at < coded[j].len() implies coded[j][at]
                            == word[j][at] by {
                            assert(coded[data_shards + (j - data_shards)][at] == rs_parity_byte(
                                data,
                                parity_shards as nat,
                                j - data_shards,
                                at,
                            ));
                        }
                    }
                }
                assert(coded =~= word);
            }
            let mut out: Vec<FecBlock> = Vec::new();
            let mut i: usize = 0;
            while i < shards.len()
                invariant
                    i <= shards.len(),
                    shards.len() == total,
                    total <= 255,
                    coded == shard_views(shards@),
                    out.len() == i,
                    forall|j: int| 0 <= j < i ==> block_views(out@)[j] == blocks_of(coded)[j],
                decreases shards.len() - i,
            {
                let ghost before = block_views(out@);
                let block = FecBlock {
                    block_id: 0,
                    index: i as u32,
                    total_blocks: total as u32,
                    data: shards[i].clone(),
                };
                assert(block.data@ =~= coded[i as int]);
                out.push(block);
                assert(forall|j: int| 0 <= j < i ==> block_views(out@)[j] == before[j]);
                i += 1;
            }
            assert(block_views(out@) =~= blocks_of(coded));
            Ok(out)
        },
    }
}

/// Encodes frames into the shards of a block.
pub trait RedundancyEncoder {
    /// Encodes a batch of frames into block shards: first the data shards,
    /// then `redundancy` parity shards.
    fn encode_batch(&self, frames: &[Frame], redundancy: usize) -> Result<Vec<FecBlock>, FrameError>;
}

/// Gives frames back from the shards of a block.
pub trait RedundancyDecoder {
    /// Reconstructs the `total_frames` frames of a block from the shards
    /// that are left.
    fn decode_batch(&self, blocks: &[FecBlock], total_frames: usize) -> Result<Vec<Frame>, FrameError>;

    /// Whether `available_blocks` shards are enough to reconstruct
    /// `total_frames` frames.
    fn can_reconstruct(&self, available_blocks: usize, total_frames: usize) -> bool;
}

/// An encoder that encodes nothing.
#[derive(Debug, Clone, Copy)]
pub struct NoopEncoder;

impl RedundancyEncoder for NoopEncoder {
    fn encode_batch(&self, _frames: &[Frame], _redundancy: usize) -> (r: Result<
        Vec<FecBlock>,
        FrameError,
    >)
        ensures
            blocks_result_view(r) == Err::<Seq<FecBlockView>, FrameErrorView>(
                FrameErrorView::InvalidStructure("FEC encoding not implemented"@),
            ),
    {
        Err(invalid("FEC encoding not implemented"))
    }
}

/// A decoder that decodes nothing.
#[derive(Debug, Clone, Copy)]
pub struct NoopDecoder;

impl RedundancyDecoder for NoopDecoder {
    fn decode_batch(&self, _blocks: &[FecBlock], _total_frames: usize) -> (r: Result<
        Vec<Frame>,
        FrameError,
    >)
        ensures
            frames_result_view(r) == Err::<Seq<FrameView>, FrameErrorView>(
                FrameErrorView::InvalidStructure("FEC decoding not implemented"@),
            ),
    {
        Err(invalid("FEC decoding not implemented"))
    }

    fn can_reconstruct(&self, _available_blocks: usize, _total_frames: usize) -> (b: bool)
        ensures
            !b,
    {
        false
    }
}

/// Reed-Solomon encoder.
#[derive(Debug, Clone, Copy)]
pub struct RsEncoder {
    /// Data shards per block, as the caller plans its blocks. A batch has
    /// one data shard for each of its frames, whatever this says.
    pub data_shards: usize,
    /// Parity shards per block.
    pub parity_shards: usize,
}

impl RsEncoder {
    /// An encoder with these shard counts.
    pub fn new(data_shards: usize, parity_shards: usize) -> (e: Self)
        ensures
            e.data_shards == data_shards,
            e.parity_shards == parity_shards,
    {
        RsEncoder { data_shards, parity_shards }
    }

    /// The number of parity shards of a batch: `redundancy`, or the
    /// encoder's own count where `redundancy` is 0.
    pub open spec fn parity_for(self, redundancy: usize) -> nat {
        if redundancy > 0 {
            redundancy as nat
        } else {
            self.parity_shards as nat
        }
    }
}

impl RedundancyEncoder for RsEncoder {
    /// Encodes the payloads of `frames` as one block: as many data shards
    /// as there are frames, in their order, then the parity shards. The
    /// data shards that the encoder was made with do not count here, and
    /// no frames make no block.
    fn encode_batch(&self, frames: &[Frame], redundancy: usize) -> (r: Result<
        Vec<FecBlock>,
        FrameError,
    >)
        ensures
            blocks_result_view(r) == block_outcome(
                payloads_of(frames@),
                frames@.len(),
                self.parity_for(redundancy),
            ),
    {
        let k = if redundancy > 0 {
            redundancy
        } else {
            self.parity_shards
        };
        let n = frames.len();
        let mut payloads: Vec<Vec<u8>> = Vec::new();
        let mut i: usize = 0;
        while i < n
            invariant
                i <= n,
                n == frames@.len(),
                payloads.len() == i,
                forall|j: int| 0 <= j < i ==> shard_views(payloads@)[j] == payloads_of(frames@)[j],
            decreases n - i,
        {
            let ghost before = shard_views(payloads@);
            let mut p: Vec<u8> = Vec::new();
            put_slice(&mut p, frames[i].payload.deref());
            assert(p@ =~= frames@[i as int]@.payload);
            payloads.push(p);
            assert(forall|j: int| 0 <= j < i ==> shard_views(payloads@)[j] == before[j]);
            i += 1;
        }
        assert(shard_views(payloads@) =~= payloads_of(frames@));
        encode_block(&payloads, n, k)
    }
}

/// Encodes stripes as one block: the stripes, padded to the length of the
/// longest, are the data shards.
pub fn rs_interleaved_encode(stripes: &[Bytes], parity_shards: usize) -> (r: Result<
    Vec<FecBlock>,
    FrameError,
>)
    ensures
        blocks_result_view(r) == block_outcome(
            buffer_views(stripes@),
            stripes@.len(),
            parity_shards as nat,
        ),
{
    let n = stripes.len();
    let mut payloads: Vec<Vec<u8>> = Vec::new();
    let mut i: usize = 0;
    while i < n
        invariant
            i <= n,
            n == stripes@.len(),
            payloads.len() == i,
            forall|j: int| 0 <= j < i ==> shard_views(payloads@)[j] == buffer_views(stripes@)[j],
        decreases n - i,
    {
        let ghost before = shard_views(payloads@);
        let mut p: Vec<u8> = Vec::new();
        put_slice(&mut p, stripes[i].deref());
        assert(p@ =~= bytes_view(stripes@[i as int]));
        payloads.push(p);
        assert(forall|j: int| 0 <= j < i ==> shard_views(payloads@)[j] == before[j]);
        i += 1;
    }
    assert(shard_views(payloads@) =~= buffer_views(stripes@));
    encode_block(&payloads, n, parity_shards)
}

/// The slots of a block after the first `n` of `blocks` were placed: a
/// block goes to the slot of its index where the index is below `total`;
/// of blocks with one index the last stays.
pub open spec fn placed(blocks: Seq<FecBlockView>, total: nat, n: int) -> Seq<Option<Seq<u8>>>
    decreases n,
{
    if n <= 0 {
        Seq::new(total, |i: int| None)
    } else {
        let before = placed(blocks, total, n - 1);
        let b = blocks[n - 1];
        if b.index < total {
            before.update(b.index as int, Some(b.data))
        } else {
            before
        }
    }
}

/// Whether the shards of the blocks whose index is below `total` all have
/// the length `len`.
pub open spec fn lengths_agree(blocks: Seq<FecBlockView>, total: nat, len: nat) -> bool {
    forall|i: int|
        0 <= i < blocks.len() && (#[trigger] blocks[i]).index < total ==> blocks[i].data.len()
            == len
}

/// The frame that is made of a reconstructed data shard: the shard without
/// the zeros at its end as payload, under a placeholder header with id 0
/// and a previous hash of zeros.
pub open spec fn recovered_frame(shard: Seq<u8>) -> FrameView {
    FrameView {
        header: HeaderView {
            version: crate::constants::PROTOCOL_VERSION,
            frame_id: 0,
            prev_hash: zero_hash(),
            payload_len: if trimmed(shard).len() > u32::MAX {
                u32::MAX
            } else {
                trimmed(shard).len() as u32
            },
            flags: 0,
        },
        payload: trimmed(shard),
        trailer: None,
        super_index: None,
        skip_links: None,
    }
}

/// The number of parity shards of a block of `total` shards of which
/// `data_shards` are data.
pub open spec fn parity_count(total: nat, data_shards: nat) -> nat {
    if total >= data_shards {
        (total - data_shards) as nat
    } else {
        0
    }
}

/// What decoding a block returns. The first block tells the number of
/// shards and their length. The errors, in order: no blocks; inadmissible
/// shard counts; a shard whose length disagrees with that of the first;
/// too few shards, or a length of zero. Otherwise the frames of the first
/// `total_frames` reconstructed shards.
pub open spec fn decode_outcome(blocks: Seq<FecBlockView>, total_frames: nat) -> Result<
    Seq<FrameView>,
    FrameErrorView,
> {
    if blocks.len() == 0 {
        Err(FrameErrorView::InvalidStructure("no blocks"@))
    } else {
        let total = blocks[0].total_blocks as nat;
        let len = blocks[0].data.len();
        let parity = parity_count(total, total_frames);
        let slots = placed(blocks, total, blocks.len() as int);
        if !rs_admissible(total_frames, parity) {
            Err(FrameErrorView::InvalidStructure("invalid RS parameters"@))
        } else if !lengths_agree(blocks, total, len) {
            Err(FrameErrorView::InvalidStructure("shard lengths disagree"@))
        } else if !reconstructible(total_frames, parity, slots) {
            Err(FrameErrorView::InvalidStructure("RS reconstruct failed"@))
        } else {
            Ok(
                Seq::new(
                    total_frames,
                    |i: int| recovered_frame(rs_reconstructed(total_frames, parity, slots)[i]),
                ),
            )
        }
    }
}

/// Cutting zeros off the end does not change what trimming gives.
proof fn lemma_trimmed_prefix(data: Seq<u8>, end: int)
    requires
        0 <= end <= data.len(),
        forall|j: int| end <= j < data.len() ==> data[j] == 0,
    ensures
        trimmed(data) == trimmed(data.subrange(0, end)),
    decreases data.len() - end,
{
    if end < data.len() {
        lemma_trimmed_prefix(data.drop_last(), end);
        assert(data.drop_last().subrange(0, end) =~= data.subrange(0, end));
    } else {
        assert(data.subrange(0, end) =~= data);
    }
}

/// Makes a frame of a reconstructed data shard.
fn frame_of_shard(shard: &Vec<u8>) -> (f: Frame)
    ensures
        f@ == recovered_frame(shard@),
{
    let mut end: usize = shard.len();
    while end > 0 && shard[end - 1] == 0
        invariant
            end <= shard.len(),
            forall|j: int| end <= j < shard.len() ==> shard@[j] == 0,
        decreases end,
    {
        end -= 1;
    }
    proof {
        lemma_trimmed_prefix(shard@, end as int);
        let kept = shard@.subrange(0, end as int);
        assert(trimmed(kept) == kept);
    }
    let payload = Bytes::copy_from_slice(vstd::slice::slice_subrange(shard.as_slice(), 0, end));
    let declared: u32 = if end > 0xffff_ffff {
        0xffff_ffff
    } else {
        end as u32
    };
    let prev_hash = [0u8; 32];
    assert(prev_hash@ =~= zero_hash());
    Frame::new(FrameHeader::new(0, prev_hash, declared), payload)
}

/// Whether positions ascend strictly and lie below `bound`.
pub open spec fn ascending_below(kept: Seq<int>, bound: int) -> bool {
    &&& forall|i: int, j: int| 0 <= i < j < kept.len() ==> kept[i] < kept[j]
    &&& forall|i: int| 0 <= i < kept.len() ==> 0 <= #[trigger] kept[i] < bound
}

/// The block of the payloads: their data shards and `parity_shards` parity
/// shards, as block shards.
pub open spec fn block_of(payloads: Seq<Seq<u8>>, parity_shards: nat) -> Seq<FecBlockView> {
    blocks_of(code_word(data_shards_of(payloads, payloads.len()), parity_shards))
}

/// Whether `left` is what is left of the block of the payloads when only
/// the shards at the positions `kept` are kept: an admissible block, not
/// all of whose payloads are empty, of which at most as many shards are
/// gone as it has parity shards.
pub open spec fn survives(
    left: Seq<FecBlockView>,
    payloads: Seq<Seq<u8>>,
    parity_shards: nat,
    kept: Seq<int>,
) -> bool {
    &&& rs_admissible(payloads.len(), parity_shards)
    &&& longest(payloads) > 0
    &&& ascending_below(kept, (payloads.len() + parity_shards) as int)
    &&& kept.len() >= payloads.len()
    &&& left == Seq::new(kept.len(), |t: int| block_of(payloads, parity_shards)[kept[t]])
}

/// Whether the frames carry the payloads: each frame holds its payload
/// without the zeros at its end, under the placeholder header of a
/// recovered frame, with id 0, a previous hash of zeros and the length of
/// what it holds.
pub open spec fn carries(frames: Seq<FrameView>, payloads: Seq<Seq<u8>>) -> bool {
    frames.len() == payloads.len() && forall|i: int|
        0 <= i < payloads.len() ==> #[trigger] frames[i] == recovered_frame(payloads[i])
}

/// Trimming a padded payload gives the trimmed payload.
proof fn lemma_trimmed_padded(payload: Seq<u8>, len: nat)
    ensures
        trimmed(padded(payload, len)) == trimmed(payload),
{
    if payload.len() < len {
        let whole = padded(payload, len);
        lemma_trimmed_prefix(whole, payload.len() as int);
        assert(whole.subrange(0, payload.len() as int) =~= payload);
    }
}

/// The code word of payloads has shards of one length, that of the
/// longest payload.
proof fn lemma_code_word_shape(payloads: Seq<Seq<u8>>, parity_shards: nat)
    requires
        payloads.len() >= 1,
        longest(payloads) > 0,
    ensures
        code_word(data_shards_of(payloads, payloads.len()), parity_shards).len() == payloads.len()
            + parity_shards,
        forall|i: int|
            0 <= i < payloads.len() + parity_shards ==> (#[trigger] code_word(
                data_shards_of(payloads, payloads.len()),
                parity_shards,
            )[i]).len() == longest(payloads),
        uniform(data_shards_of(payloads, payloads.len())),
{
    let data = data_shards_of(payloads, payloads.len());
    let word = code_word(data, parity_shards);
    assert forall|i: int| 0 <= i < payloads.len() implies (#[trigger] data[i]).len() == longest(
        payloads,
    ) by {
        lemma_longest_bounds(payloads, i);
    }
    assert(data[0].len() == longest(payloads));
    assert forall|i: int| 0 <= i < payloads.len() + parity_shards implies (#[trigger] word[i]).len()
        == longest(payloads) by {
        if i < payloads.len() {
            assert(word[i] == data[i]);
        } else {
            assert(word[i] == rs_parity(data, parity_shards)[i - payloads.len()]);
        }
    }
}

/// The slots in which shards of a code word were placed hold shards of the
/// code word, and hold one at every position that was placed.
proof fn lemma_placed_of_word(
    left: Seq<FecBlockView>,
    word: Seq<Seq<u8>>,
    kept: Seq<int>,
    len: nat,
    m: int,
)
    requires
        0 <= m <= left.len(),
        left.len() == kept.len(),
        forall|t: int|
            0 <= t < kept.len() ==> 0 <= #[trigger] kept[t] < word.len() && left[t].index
                == kept[t] && left[t].data == word[kept[t]] && word[kept[t]].len() == len,
    ensures
        placed(left, word.len(), m).len() == word.len(),
        forall|i: int|
            0 <= i < word.len() ==> ((#[trigger] placed(left, word.len(), m)[i]) matches Some(
                s,
            ) ==> s == word[i]),
        forall|t: int| 0 <= t < m ==> placed(left, word.len(), m)[#[trigger] kept[t]] is Some,
    decreases m,
{
    if m > 0 {
        lemma_placed_of_word(left, word, kept, len, m - 1);
        let before = placed(left, word.len(), m - 1);
        let b = left[m - 1];
        assert(0 <= kept[m - 1] < word.len());
        assert(placed(left, word.len(), m) == before.update(b.index as int, Some(b.data)));
        assert forall|t: int| 0 <= t < m implies placed(left, word.len(), m)[#[trigger] kept[t]] is Some by {
            if t < m - 1 {
                assert(before[kept[t]] is Some);
            }
        }
    }
}

/// Slots that are filled at ascending positions hold at least as many
/// shards as there are positions.
proof fn lemma_present_at_least(slots: Seq<Option<Seq<u8>>>, kept: Seq<int>)
    requires
        ascending_below(kept, slots.len() as int),
        forall|t: int| 0 <= t < kept.len() ==> slots[#[trigger] kept[t]] is Some,
    ensures
        present_count(slots) >= kept.len(),
    decreases slots.len(),
{
    if slots.len() > 0 {
        let shorter = slots.drop_last();
        if kept.len() > 0 && kept.last() == slots.len() - 1 {
            let fewer = kept.drop_last();
            assert forall|t: int| 0 <= t < fewer.len() implies 0 <= #[trigger] fewer[t]
                < shorter.len() && shorter[fewer[t]] is Some by {
                assert(fewer[t] == kept[t]);
                assert(kept[t] < kept[kept.len() - 1]);
                assert(slots[kept[t]] is Some);
            }
            assert forall|i: int, j: int| 0 <= i < j < fewer.len() implies fewer[i] < fewer[j] by {
                assert(fewer[i] == kept[i] && fewer[j] == kept[j]);
            }
            lemma_present_at_least(shorter, fewer);
            assert(slots[kept[kept.len() - 1]] is Some);
        } else {
            assert forall|t: int| 0 <= t < kept.len() implies 0 <= #[trigger] kept[t]
                < shorter.len() && shorter[kept[t]] is Some by {
                assert(kept[t] <= kept[kept.len() - 1]);
                assert(slots[kept[t]] is Some);
            }
            lemma_present_at_least(shorter, kept);
        }
    } else {
        if kept.len() > 0 {
            assert(0 <= kept[0] < 0);
        }
    }
}

/// What is left of a block, with at most as many shards gone as the block
/// has parity shards, can be reconstructed: the slots that decoding fills
/// hold shards of the block's code word, enough of them.
proof fn lemma_survivors_reconstructible(
    left: Seq<FecBlockView>,
    payloads: Seq<Seq<u8>>,
    parity_shards: nat,
    kept: Seq<int>,
)
    requires
        survives(left, payloads, parity_shards, kept),
    ensures
        left.len() >= 1,
        left[0].total_blocks == payloads.len() + parity_shards,
        left[0].data.len() == longest(payloads),
        lengths_agree(left, payloads.len() + parity_shards, longest(payloads)),
        agrees(
            placed(
                left,
                payloads.len() + parity_shards,
                left.len() as int,
            ),
            code_word(data_shards_of(payloads, payloads.len()), parity_shards),
        ),
        reconstructible(
            payloads.len(),
            parity_shards,
            placed(
                left,
                payloads.len() + parity_shards,
                left.len() as int,
            ),
        ),
{
    let n = payloads.len();
    let total = n + parity_shards;
    let len = longest(payloads);
    let word = code_word(data_shards_of(payloads, n), parity_shards);
    lemma_code_word_shape(payloads, parity_shards);
    let blocks = blocks_of(word);
    assert forall|t: int| 0 <= t < kept.len() implies 0 <= #[trigger] kept[t] < word.len()
        && left[t].index == kept[t] && left[t].data == word[kept[t]] && word[kept[t]].len()
        == len && left[t].total_blocks == total by {
        assert(left[t] == blocks[kept[t]]);
    }
    assert(0 <= kept[0] < word.len());
    lemma_placed_of_word(left, word, kept, len, left.len() as int);
    let slots = placed(left, total, left.len() as int);
    lemma_present_at_least(slots, kept);
    assert(filled_with_len(slots, len)) by {
        assert forall|i: int| 0 <= i < slots.len() implies ((#[trigger] slots[i]) matches Some(s)
            ==> s.len() == len) by {
            if slots[i] is Some {
                assert(slots[i]->0 == word[i]);
            }
        }
    }
}

/// Where what is left of a block was reconstructed, the frames made of the
/// first shards carry the payloads of the block.
proof fn lemma_reconstructed_carries(
    left: Seq<FecBlockView>,
    payloads: Seq<Seq<u8>>,
    parity_shards: nat,
    kept: Seq<int>,
)
    requires
        survives(left, payloads, parity_shards, kept),
        restores_code_words(
            payloads.len(),
            parity_shards,
            placed(
                left,
                payloads.len() + parity_shards,
                left.len() as int,
            ),
            filled(
                rs_reconstructed(
                    payloads.len(),
                    parity_shards,
                    placed(
                        left,
                        payloads.len() + parity_shards,
                        left.len() as int,
                    ),
                ),
            ),
        ),
    ensures
        decode_outcome(left, payloads.len()) matches Ok(frames) && carries(frames, payloads),
{
    let n = payloads.len();
    let total = n + parity_shards;
    let len = longest(payloads);
    let data = data_shards_of(payloads, n);
    let word = code_word(data, parity_shards);
    let slots = placed(left, total, left.len() as int);
    let full = rs_reconstructed(n, parity_shards, slots);
    lemma_survivors_reconstructible(left, payloads, parity_shards, kept);
    lemma_code_word_shape(payloads, parity_shards);
    assert(filled(full) == filled(word));
    assert(full =~= word) by {
        assert(filled(full).len() == full.len() && filled(word).len() == word.len());
        assert forall|i: int| 0 <= i < full.len() implies full[i] == word[i] by {
            assert(filled(full)[i] == Some(full[i]));
            assert(filled(word)[i] == Some(word[i]));
        }
    }
    let frames = decode_outcome(left, n)->Ok_0;
    assert forall|i: int| 0 <= i < n implies #[trigger] frames[i] == recovered_frame(
        payloads[i],
    ) by {
        assert(word[i] == data[i]);
        lemma_trimmed_padded(payloads[i], len);
    }
}

/// Decodes one block.
fn decode_block(blocks: &[FecBlock], total_frames: usize) -> (r: Result<Vec<Frame>, FrameError>)
    ensures
        frames_result_view(r) == decode_outcome(block_views(blocks@), total_frames as nat),
        r is Ok ==> restores_code_words(
            total_frames as nat,
            parity_count(blocks@[0].total_blocks as nat, total_frames as nat),
            placed(
                block_views(blocks@),
                blocks@[0].total_blocks as nat,
                blocks@.len() as int,
            ),
            filled(
                rs_reconstructed(
                    total_frames as nat,
                    parity_count(blocks@[0].total_blocks as nat, total_frames as nat),
                    placed(
                        block_views(blocks@),
                        blocks@[0].total_blocks as nat,
                        blocks@.len() as int,
                    ),
                ),
            ),
        ),
{
    if blocks.len() == 0 {
        return Err(invalid("no blocks"));
    }
    let ghost views = block_views(blocks@);
    let total_blocks = blocks[0].total_blocks as usize;
    let shard_len = blocks[0].data.len();
    assert(views[0] == blocks@[0]@);
    let parity_shards = if total_blocks >= total_frames {
        total_blocks - total_frames
    } else {
        0
    };
    if total_frames == 0 || parity_shards == 0 || total_frames + parity_shards > 255 {
        return Err(invalid("invalid RS parameters"));
    }
    let mut shards: Vec<Option<Vec<u8>>> = Vec::new();
    let mut i: usize = 0;
    while i < total_blocks
        invariant
            i <= total_blocks,
            shards.len() == i,
            forall|j: int| 0 <= j < i ==> shards@[j] is None,
        decreases total_blocks - i,
    {
        shards.push(None);
        i += 1;
    }
    assert(slot_views(shards@) =~= placed(views, total_blocks as nat, 0));
    let ghost disagreement = FrameErrorView::InvalidStructure("shard lengths disagree"@);
    assert(!lengths_agree(views, total_blocks as nat, shard_len as nat) ==> decode_outcome(
        views,
        total_frames as nat,
    ) == Err::<Seq<FrameView>, FrameErrorView>(disagreement));
    let mut i: usize = 0;
    while i < blocks.len()
        invariant
            i <= blocks.len(),
            views == block_views(blocks@),
            shards.len() == total_blocks,
            disagreement == FrameErrorView::InvalidStructure("shard lengths disagree"@),
            !lengths_agree(views, total_blocks as nat, shard_len as nat) ==> decode_outcome(
                views,
                total_frames as nat,
            ) == Err::<Seq<FrameView>, FrameErrorView>(disagreement),
            slot_views(shards@) == placed(
                views,
                total_blocks as nat,
                i as int,
            ),
            forall|j: int|
                0 <= j < i && (#[trigger] views[j]).index < total_blocks ==> views[j].data.len()
                    == shard_len,
        decreases blocks.len() - i,
    {
        let b = &blocks[i];
        assert(views[i as int] == b@);
        if (b.index as usize) < total_blocks {
            if b.data.len() != shard_len {
                return Err(invalid("shard lengths disagree"));
            }
            let ghost before = slot_views(shards@);
            let data = b.data.clone();
            assert(data@ =~= b.data@);
            shards.set(b.index as usize, Some(data));
            assert(slot_views(shards@) =~= before.update(b.index as int, Some(b.data@)));
        }
        i += 1;
    }
    let ghost slots = slot_views(shards@);
    match rs_reconstruct(&mut shards, total_frames, parity_shards) {
        Err(_) => Err(invalid("RS reconstruct failed")),
        Ok(()) => {
            let ghost full = rs_reconstructed(
                total_frames as nat,
                parity_shards as nat,
                slots,
            );
            assert(filled(full).len() == full.len() && slot_views(shards@).len()
                == shards.len());
            let mut frames: Vec<Frame> = Vec::new();
            let mut i: usize = 0;
            while i < total_frames
                invariant
                    i <= total_frames,
                    total_frames <= shards.len(),
                    full.len() == shards.len(),
                    slot_views(shards@) == filled(full),
                    frames.len() == i,
                    forall|j: int|
                        0 <= j < i ==> (#[trigger] frames@[j])@ == recovered_frame(full[j]),
                decreases total_frames - i,
            {
                assert(slot_views(shards@)[i as int] == Some(full[i as int]));
                match &shards[i] {
                    Some(shard) => {
                        frames.push(frame_of_shard(shard));
                    },
                    None => {
                        return Err(invalid("missing reconstructed shard"));
                    },
                }
                i += 1;
            }
            assert(frames@.map_values(|f: Frame| f@) =~= Seq::new(
                total_frames as nat,
                |i: int| recovered_frame(full[i]),
            ));
            Ok(frames)
        },
    }
}

/// Reed-Solomon decoder.
#[derive(Debug, Clone, Copy)]
pub struct RsDecoder;

impl RedundancyDecoder for RsDecoder {
    /// Reconstructs the frames of a block from the shards that are left.
    /// The recovered frames carry placeholder headers: the caller binds
    /// them to their ids and links again.
    ///
    /// Recovery: where `blocks` is what is left of the block of
    /// `total_frames` payloads with any number of parity shards, and at
    /// most as many shards are gone as the block has parity shards, the
    /// call succeeds and the frames carry the payloads, each without the
    /// zeros at its end.
    fn decode_batch(&self, blocks: &[FecBlock], total_frames: usize) -> (r: Result<
        Vec<Frame>,
        FrameError,
    >)
        ensures
            frames_result_view(r) == decode_outcome(block_views(blocks@), total_frames as nat),
            forall|payloads: Seq<Seq<u8>>, parity_shards: nat, kept: Seq<int>|
                payloads.len() == total_frames && #[trigger] survives(
                    block_views(blocks@),
                    payloads,
                    parity_shards,
                    kept,
                ) ==> (frames_result_view(r) matches Ok(frames) && carries(frames, payloads)),
    {
        let r = decode_block(blocks, total_frames);
        proof {
            let left = block_views(blocks@);
            assert forall|payloads: Seq<Seq<u8>>, parity_shards: nat, kept: Seq<int>|
                payloads.len() == total_frames && #[trigger] survives(
                    left,
                    payloads,
                    parity_shards,
                    kept,
                ) implies (frames_result_view(r) matches Ok(frames) && carries(frames, payloads)) by {
                lemma_survivors_reconstructible(left, payloads, parity_shards, kept);
                assert(left[0] == blocks@[0]@);
                assert(parity_count(left[0].total_blocks as nat, total_frames as nat)
                    == parity_shards);
                assert(r is Ok);
                lemma_reconstructed_carries(left, payloads, parity_shards, kept);
            }
        }
        r
    }

    /// Whether `available_blocks` shards are enough: at least as many as
    /// there are frames to reconstruct.
    fn can_reconstruct(&self, available_blocks: usize, total_frames: usize) -> (b: bool)
        ensures
            b == (available_blocks >= total_frames),
    {
        available_blocks >= total_frames
    }
}

/// RaptorQ encoder: a placeholder that encodes nothing.
#[derive(Debug, Clone, Copy)]
pub struct RaptorQEncoder;

impl RedundancyEncoder for RaptorQEncoder {
    fn encode_batch(&self, _frames: &[Frame], _redundancy: usize) -> (r: Result<
        Vec<FecBlock>,
        FrameError,
    >)
        ensures
            blocks_result_view(r) == Err::<Seq<FecBlockView>, FrameErrorView>(
                FrameErrorView::InvalidStructure("RaptorQ PoC not implemented"@),
            ),
    {
        Err(invalid("RaptorQ PoC not implemented"))
    }
}

/// RaptorQ decoder: a placeholder that decodes nothing.
#[derive(Debug, Clone, Copy)]
pub struct RaptorQDecoder;

impl RedundancyDecoder for RaptorQDecoder {
    fn decode_batch(&self, _blocks: &[FecBlock], _total_frames: usize) -> (r: Result<
        Vec<Frame>,
        FrameError,
    >)
        ensures
            frames_result_view(r) == Err::<Seq<FrameView>, FrameErrorView>(
                FrameErrorView::InvalidStructure("RaptorQ PoC not implemented"@),
            ),
    {
        Err(invalid("RaptorQ PoC not implemented"))
    }

    fn can_reconstruct(&self, _available_blocks: usize, _total_frames: usize) -> (b: bool)
        ensures
            !b,
    {
        false
    }
}

/// LDPC encoder: a placeholder that encodes nothing.
#[derive(Debug, Clone, Copy)]
pub struct LdpcEncoder;

impl RedundancyEncoder for LdpcEncoder {
    fn encode_batch(&self, _frames: &[Frame], _redundancy: usize) -> (r: Result<
        Vec<FecBlock>,
        FrameError,
    >)
        ensures
            blocks_result_view(r) == Err::<Seq<FecBlockView>, FrameErrorView>(
                FrameErrorView::InvalidStructure("LDPC PoC not implemented"@),
            ),
    {
        Err(invalid("LDPC PoC not implemented"))
    }
}

/// LDPC decoder: a placeholder that decodes nothing.
#[derive(Debug, Clone, Copy)]
pub struct LdpcDecoder;

impl RedundancyDecoder for LdpcDecoder {
    fn decode_batch(&self, _blocks: &[FecBlock], _total_frames: usize) -> (r: Result<
        Vec<Frame>,
        FrameError,
    >)
        ensures
            frames_result_view(r) == Err::<Seq<FrameView>, FrameErrorView>(
                FrameErrorView::InvalidStructure("LDPC PoC not implemented"@),
            ),
    {
        Err(invalid("LDPC PoC not implemented"))
    }

    fn can_reconstruct(&self, _available_blocks: usize, _total_frames: usize) -> (b: bool)
        ensures
            !b,
    {
        false
    }
}

} // verus!
