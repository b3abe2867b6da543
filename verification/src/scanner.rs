//! Scanning a damaged or noisy byte stream for frames.

use crate::buffer::{bytes_slice, bytes_view};
use crate::constants::{TrailerType, FRAME_MARKER};
use crate::decoder::{declared_size, decode_frame_from_bytes, decode_frame_from_bytes_zero_copy};
use crate::layout::{
    decode_shared, decode_strict, decoded, encoded, frame_size, framed, lemma_decode_framed, marker,
    preamble, prefix, sync_word,
};
use crate::types::{Frame, FrameView, HeaderView};
use bytes::Bytes;
use std::ops::Deref;
use vstd::prelude::*;
use vstd::slice::slice_subrange;

verus! {

/// Whether `needle` stands in `haystack` at index `at`.
pub open spec fn occurs_at(haystack: Seq<u8>, needle: Seq<u8>, at: int) -> bool {
    0 <= at && at + needle.len() <= haystack.len() && haystack.subrange(at, at + needle.len())
        == needle
}

/// `memchr::memmem::find`: the index of the first occurrence of `needle`
/// in `haystack`, or `None` where it does not occur.
pub assume_specification[ memchr::memmem::find ](haystack: &[u8], needle: &[u8]) -> (r: Option<
    usize,
>)
    ensures
        match r {
            Some(i) => occurs_at(haystack@, needle@, i as int) && forall|j: int|
                0 <= j < i ==> !occurs_at(haystack@, needle@, j),
            None => forall|j: int| !occurs_at(haystack@, needle@, j),
        },
;

/// A frame as it was found in a byte buffer.
#[derive(Debug, Clone)]
pub struct LocatedFrame {
    /// Offset of the frame's marker in the buffer.
    pub offset: usize,
    /// The decoded frame.
    pub frame: Frame,
    /// Size of the frame in the buffer, from the marker to the end of the
    /// trailer.
    pub size: usize,
}

/// What a located frame holds.
pub struct LocatedView {
    pub offset: nat,
    pub frame: FrameView,
    pub size: nat,
}

impl View for LocatedFrame {
    type V = LocatedView;

    open spec fn view(&self) -> LocatedView {
        LocatedView { offset: self.offset as nat, frame: self.frame@, size: self.size as nat }
    }
}

impl LocatedFrame {
    /// A copy that holds the same values.
    pub fn duplicate(&self) -> (r: Self)
        ensures
            r@ == self@,
    {
        LocatedFrame { offset: self.offset, frame: self.frame.duplicate(), size: self.size }
    }
}

/// What a sequence of located frames holds.
pub open spec fn located_views(v: Seq<LocatedFrame>) -> Seq<LocatedView> {
    v.map_values(|l: LocatedFrame| l@)
}

/// Whether the marker stands in `data` at index `at`.
pub open spec fn marker_at(data: Seq<u8>, at: int) -> bool {
    occurs_at(data, marker(), at)
}

/// The index of the first marker in `data` at or behind `pos`.
pub open spec fn next_marker(data: Seq<u8>, pos: int) -> Option<int>
    decreases data.len() - pos,
{
    if pos < 0 || pos + 4 > data.len() {
        None
    } else if marker_at(data, pos) {
        Some(pos)
    } else {
        next_marker(data, pos + 1)
    }
}

/// The number of bytes of `data` at and behind `pos`.
pub open spec fn bytes_left(data: Seq<u8>, pos: int) -> nat {
    if pos >= data.len() {
        0
    } else {
        (data.len() - pos) as nat
    }
}

/// The frames that a scan of `data` finds from `pos` on. The scan goes to
/// the next marker and decodes there. Where that succeeds, it emits the
/// frame and goes on behind it; where it fails, it goes on four bytes behind
/// the marker's start. It ends where no marker is left.
pub open spec fn scan_from(data: Seq<u8>, pos: int) -> Seq<LocatedView>
    decreases bytes_left(data, pos),
{
    if pos < 0 || pos >= data.len() {
        Seq::empty()
    } else {
        match next_marker(data, pos) {
            None => Seq::empty(),
            Some(at) => if at < pos {
                Seq::empty()
            } else {
                match decode_strict(data.skip(at)) {
                    Ok(f) => seq![
                        LocatedView { offset: at as nat, frame: f, size: frame_size(f.header) },
                    ] + scan_from(data, at + frame_size(f.header)),
                    Err(_) => scan_from(data, at + 4),
                }
            },
        }
    }
}

/// The number of markers from `pos` on at which a scan of `data` fails to
/// decode a frame.
pub open spec fn failures_from(data: Seq<u8>, pos: int) -> nat
    decreases bytes_left(data, pos),
{
    if pos < 0 || pos >= data.len() {
        0
    } else {
        match next_marker(data, pos) {
            None => 0,
            Some(at) => if at < pos {
                0
            } else {
                match decode_strict(data.skip(at)) {
                    Ok(f) => failures_from(data, at + frame_size(f.header)),
                    Err(_) => 1 + failures_from(data, at + 4),
                }
            },
        }
    }
}

/// The sizes of located frames, added up.
pub open spec fn recovered_bytes(located: Seq<LocatedView>) -> nat
    decreases located.len(),
{
    if located.len() == 0 {
        0
    } else {
        recovered_bytes(located.drop_last()) + located.last().size
    }
}

/// The frame as a zero-copy decoder hands it out: without a trailer where
/// the flags select none.
pub open spec fn shared_frame(f: FrameView) -> FrameView {
    FrameView {
        trailer: if f.header.trailer_type() == TrailerType::NoTrailer {
            None
        } else {
            f.trailer
        },
        ..f
    }
}

/// The located frame as a zero-copy scan hands it out.
pub open spec fn shared_located(l: LocatedView) -> LocatedView {
    LocatedView { frame: shared_frame(l.frame), ..l }
}

/// The first marker behind `pos` is where a marker stands with none before
/// it.
pub proof fn lemma_next_marker_is_first(data: Seq<u8>, pos: int, at: int)
    requires
        0 <= pos <= at,
        marker_at(data, at),
        forall|j: int| pos <= j < at ==> !marker_at(data, j),
    ensures
        next_marker(data, pos) == Some(at),
    decreases at - pos,
{
    if pos < at {
        lemma_next_marker_is_first(data, pos + 1, at);
    }
}

/// Where no marker stands at or behind `pos`, the search finds none.
pub proof fn lemma_next_marker_none(data: Seq<u8>, pos: int)
    requires
        0 <= pos,
        forall|j: int| pos <= j ==> !marker_at(data, j),
    ensures
        next_marker(data, pos) is None,
    decreases data.len() - pos,
{
    if pos + 4 <= data.len() {
        lemma_next_marker_none(data, pos + 1);
    }
}

/// Strict and zero-copy decoding accept the same buffers and differ only in
/// the trailer of a frame without one.
pub proof fn lemma_decoders_agree(data: Seq<u8>)
    ensures
        decode_strict(data) is Ok <==> decode_shared(data) is Ok,
        decode_strict(data) matches Ok(f) ==> decode_shared(data) == Ok::<
            FrameView,
            crate::error::FrameErrorView,
        >(shared_frame(f)),
{
}

/// One frame as it was written to a stream, with the bytes that came to
/// stand before it.
pub struct Written {
    /// Bytes between the frame before and this frame.
    pub junk: Seq<u8>,
    /// The frame's header.
    pub header: HeaderView,
    /// The frame's payload.
    pub payload: Seq<u8>,
    /// The 64 bytes in the signature's place, where the trailer has one.
    pub signature: Seq<u8>,
}

impl Written {
    /// Whether the frame is one that the encoder emits, and the bytes
    /// before it hold no marker.
    pub open spec fn sound(self) -> bool {
        &&& self.header.valid()
        &&& self.header.prev_hash.len() == 32
        &&& self.payload.len() == self.header.payload_len
        &&& self.signature.len() == 64
        &&& forall|j: int| !marker_at(self.junk, j)
    }

    /// The bytes that the frame and what stands before it take in the
    /// stream.
    pub open spec fn wire(self) -> Seq<u8> {
        self.junk + encoded(self.header, self.payload, self.signature)
    }

    /// The frame as a scan locates it, in a stream in which `base` bytes
    /// stand before it and its junk.
    pub open spec fn located(self, base: int) -> LocatedView {
        LocatedView {
            offset: (base + self.junk.len() + prefix(self.header.flags).len()) as nat,
            frame: decoded(self.header, self.payload, self.signature),
            size: frame_size(self.header),
        }
    }
}

/// The stream of the written frames, one behind the other.
pub open spec fn stream_of(written: Seq<Written>) -> Seq<u8>
    decreases written.len(),
{
    if written.len() == 0 {
        Seq::empty()
    } else {
        written.first().wire() + stream_of(written.drop_first())
    }
}

/// The written frames as a scan locates them, in a stream in which `base`
/// bytes stand before them.
pub open spec fn located_of(written: Seq<Written>, base: int) -> Seq<LocatedView>
    decreases written.len(),
{
    if written.len() == 0 {
        Seq::empty()
    } else {
        seq![written.first().located(base)] + located_of(
            written.drop_first(),
            base + written.first().wire().len(),
        )
    }
}

/// The frames of located frames, without offsets.
pub open spec fn frames_found(located: Seq<LocatedView>) -> Seq<FrameView> {
    located.map_values(|l: LocatedView| l.frame)
}

/// The written frames without the bytes between them.
pub open spec fn without_junk(written: Seq<Written>) -> Seq<Written> {
    written.map_values(|w: Written| Written { junk: Seq::empty(), ..w })
}

/// Whether `pre` is a run of bytes that no marker can begin in or run
/// into: it holds none of the marker's first, third and fourth byte, and
/// the marker's second byte neither at its end nor before the third.
pub open spec fn marker_free_prefix(pre: Seq<u8>) -> bool {
    &&& forall|i: int|
        0 <= i < pre.len() ==> (#[trigger] pre[i]) != 0x44 && pre[i] != 0x52 && pre[i] != 0x50
    &&& pre.len() > 0 ==> pre.last() != 0x55
}

/// Behind bytes without a marker and a marker-free prefix, the first marker
/// is the one that follows them.
proof fn lemma_first_marker(before: Seq<u8>, junk: Seq<u8>, pre: Seq<u8>, behind: Seq<u8>)
    requires
        forall|j: int| !marker_at(junk, j),
        marker_free_prefix(pre),
        behind.len() >= 4,
        behind.subrange(0, 4) == marker(),
    ensures
        next_marker(before + junk + pre + behind, before.len() as int) == Some(
            (before.len() + junk.len() + pre.len()) as int,
        ),
{
    let data = before + junk + pre + behind;
    let pos = before.len() as int;
    let q = pos + junk.len();
    let at = q + pre.len();
    assert(forall|i: int| 0 <= i < junk.len() ==> data[pos + i] == junk[i]);
    assert(forall|i: int| 0 <= i < pre.len() ==> data[q + i] == pre[i]);
    assert(forall|i: int| 0 <= i < 4 ==> data[at + i] == behind.subrange(0, 4)[i]);
    assert(marker()[0] == 0x44 && marker()[1] == 0x55 && marker()[2] == 0x52 && marker()[3] == 0x50);
    assert(data.subrange(at, at + 4) =~= marker());
    assert forall|j: int| pos <= j < at implies !marker_at(data, j) by {
        if marker_at(data, j) {
            let m = data.subrange(j, j + 4);
            assert(m[0] == data[j] && m[1] == data[j + 1] && m[2] == data[j + 2] && m[3] == data[j
                + 3]);
            if j + 4 <= q {
                assert(junk.subrange(j - pos, j - pos + 4) =~= m);
                assert(marker_at(junk, j - pos));
            } else if j >= q {
                assert(data[j] == pre[j - q]);
            } else if pre.len() == 0 {
                assert(data[q] == marker()[0]);
            } else if j + 3 < at {
                assert(data[j + 3] == pre[j + 3 - q]);
            } else if j + 2 < at {
                assert(data[j + 2] == pre[j + 2 - q]);
            } else {
                assert(j + 1 == at - 1);
                assert(data[j + 1] == pre[pre.len() - 1]);
            }
        }
    }
    lemma_next_marker_is_first(data, pos, at);
}

/// A prefix is marker-free.
proof fn lemma_prefix_marker_free(flags: u8)
    ensures
        marker_free_prefix(prefix(flags)),
{
    let p = preamble();
    let w = sync_word();
    assert(p.len() == 8 && w.len() == 8);
    assert(p[0] == 0x55 && p[1] == 0xAA && p[2] == 0x55 && p[3] == 0xAA && p[4] == 0x55 && p[5]
        == 0xAA && p[6] == 0x55 && p[7] == 0xAA);
    assert(w[0] == 0xA5 && w[1] == 0x5A && w[2] == 0xC3 && w[3] == 0x3C && w[4] == 0x96 && w[5]
        == 0x69 && w[6] == 0x78 && w[7] == 0x87);
    let pre = prefix(flags);
    assert forall|i: int| 0 <= i < pre.len() implies (#[trigger] pre[i]) != 0x44 && pre[i] != 0x52
        && pre[i] != 0x50 by {
        if flags & 0x10 != 0 {
            if i < 8 {
                assert(pre[i] == p[i]);
            } else {
                assert(pre[i] == w[i - 8]);
            }
        } else {
            assert(pre[i] == w[i]);
        }
    }
    if pre.len() > 0 {
        if flags & 0x20 != 0 {
            assert(pre.last() == w[7]);
        } else {
            assert(pre.last() == p[7]);
        }
    }
}

/// Where the scan comes to a marker at which a frame decodes, it emits the
/// frame and goes on behind it.
proof fn lemma_scan_step(data: Seq<u8>, pos: int, at: int, f: FrameView)
    requires
        0 <= pos <= at,
        pos < data.len(),
        next_marker(data, pos) == Some(at),
        decode_strict(data.skip(at)) == Ok::<FrameView, crate::error::FrameErrorView>(f),
    ensures
        scan_from(data, pos) == seq![
            LocatedView { offset: at as nat, frame: f, size: frame_size(f.header) },
        ] + scan_from(data, at + frame_size(f.header)),
{
}

/// A frame on the wire starts with the marker.
proof fn lemma_framed_starts_with_marker(w: Written)
    requires
        w.sound(),
    ensures
        framed(w.header, w.payload, w.signature).len() == frame_size(w.header),
        framed(w.header, w.payload, w.signature).len() >= 4,
        framed(w.header, w.payload, w.signature).subrange(0, 4) == marker(),
{
    let frame = framed(w.header, w.payload, w.signature);
    lemma_decode_framed(w.header, w.payload, w.signature, Seq::empty());
    assert(frame.subrange(0, 4) =~= marker());
}

/// A sound frame in a stream: the scan that starts before its junk emits
/// it and goes on behind it.
proof fn lemma_scan_written(before: Seq<u8>, w: Written, rest: Seq<u8>)
    requires
        w.sound(),
    ensures
        scan_from(before + w.wire() + rest, before.len() as int) == seq![
            w.located(before.len() as int),
        ] + scan_from(before + w.wire() + rest, (before + w.wire()).len() as int),
{
    let h = w.header;
    let pre = prefix(h.flags);
    let frame = framed(h, w.payload, w.signature);
    let data = before + w.wire() + rest;
    let pos = before.len() as int;
    let at = pos + w.junk.len() + pre.len();
    let f = decoded(h, w.payload, w.signature);
    let behind = frame + rest;
    lemma_framed_starts_with_marker(w);
    assert(w.wire() == w.junk + (pre + frame));
    assert(data =~= before + w.junk + pre + behind);
    assert(next_marker(data, pos) == Some(at)) by {
        lemma_prefix_marker_free(h.flags);
        assert(behind.subrange(0, 4) =~= frame.subrange(0, 4));
        lemma_first_marker(before, w.junk, pre, behind);
    }
    assert(decode_strict(data.skip(at)) == Ok::<FrameView, crate::error::FrameErrorView>(f)) by {
        lemma_decode_framed(h, w.payload, w.signature, rest);
        assert(data.skip(at) =~= frame + rest);
    }
    assert(pos < data.len());
    lemma_scan_step(data, pos, at, f);
    assert(at + frame_size(f.header) == (before + w.wire()).len());
}

/// A scan of a stream of sound frames, with whatever marker-free bytes
/// between and behind them, finds every frame, at its place.
pub proof fn lemma_scan_finds_written(before: Seq<u8>, written: Seq<Written>, tail: Seq<u8>)
    requires
        forall|i: int| 0 <= i < written.len() ==> (#[trigger] written[i]).sound(),
        forall|j: int| !marker_at(tail, j),
    ensures
        scan_from(before + stream_of(written) + tail, before.len() as int) == located_of(
            written,
            before.len() as int,
        ),
    decreases written.len(),
{
    let data = before + stream_of(written) + tail;
    let pos = before.len() as int;
    if written.len() == 0 {
        assert(data =~= before + tail);
        if pos < data.len() {
            assert forall|j: int| pos <= j implies !marker_at(data, j) by {
                if marker_at(data, j) {
                    assert(tail.subrange(j - pos, j - pos + 4) =~= data.subrange(j, j + 4));
                    assert(marker_at(tail, j - pos));
                }
            }
            lemma_next_marker_none(data, pos);
        }
    } else {
        let w = written.first();
        let others = written.drop_first();
        let rest = stream_of(others) + tail;
        assert(w.sound());
        assert(data =~= before + w.wire() + rest);
        lemma_scan_written(before, w, rest);
        let consumed = before + w.wire();
        assert(data =~= consumed + stream_of(others) + tail);
        assert forall|i: int| 0 <= i < others.len() implies (#[trigger] others[i]).sound() by {
            assert(others[i] == written[i + 1]);
        }
        lemma_scan_finds_written(consumed, others, tail);
    }
}

/// In a clean stream the scanner finds the truth: the frames that a scan
/// locates in the concatenation of encoded frames are the frames that were
/// encoded, in their order, each at its place.
pub proof fn lemma_scan_clean_stream(written: Seq<Written>)
    requires
        forall|i: int|
            0 <= i < written.len() ==> (#[trigger] written[i]).sound() && written[i].junk.len()
                == 0,
    ensures
        scan_from(stream_of(written), 0) == located_of(written, 0),
        frames_found(scan_from(stream_of(written), 0)) == written.map_values(
            |w: Written| decoded(w.header, w.payload, w.signature),
        ),
{
    lemma_scan_finds_written(Seq::empty(), written, Seq::empty());
    assert(Seq::<u8>::empty() + stream_of(written) + Seq::<u8>::empty() =~= stream_of(written));
    lemma_located_frames(written, 0);
}

/// The frames of the located frames are those that were written.
proof fn lemma_located_frames(written: Seq<Written>, base: int)
    ensures
        frames_found(located_of(written, base)) == written.map_values(
            |w: Written| decoded(w.header, w.payload, w.signature),
        ),
    decreases written.len(),
{
    let f = |w: Written| decoded(w.header, w.payload, w.signature);
    if written.len() == 0 {
        assert(frames_found(located_of(written, base)) =~= written.map_values(f));
    } else {
        let others = written.drop_first();
        lemma_located_frames(others, base + written.first().wire().len());
        assert(frames_found(located_of(written, base)) =~= seq![f(written.first())] + frames_found(
            located_of(others, base + written.first().wire().len()),
        ));
        assert(written.map_values(f) =~= seq![f(written.first())] + others.map_values(f));
    }
}

/// The scanner is damage-monotone: bytes without a marker, put between the
/// frames of a stream and behind them, do not reduce what a scan finds. It
/// finds the same frames in the same order as in the clean stream.
pub proof fn lemma_scan_damage_monotone(written: Seq<Written>, tail: Seq<u8>)
    requires
        forall|i: int| 0 <= i < written.len() ==> (#[trigger] written[i]).sound(),
        forall|j: int| !marker_at(tail, j),
    ensures
        frames_found(scan_from(stream_of(written) + tail, 0)) == frames_found(
            scan_from(stream_of(without_junk(written)), 0),
        ),
        scan_from(stream_of(written) + tail, 0).len() == written.len(),
{
    let f = |w: Written| decoded(w.header, w.payload, w.signature);
    let clean = without_junk(written);
    lemma_scan_finds_written(Seq::empty(), written, tail);
    assert(Seq::<u8>::empty() + stream_of(written) + tail =~= stream_of(written) + tail);
    lemma_located_frames(written, 0);
    assert forall|i: int| 0 <= i < clean.len() implies (#[trigger] clean[i]).sound()
        && clean[i].junk.len() == 0 by {
        assert(written[i].sound());
        assert(forall|j: int| !marker_at(Seq::<u8>::empty(), j));
    }
    lemma_scan_clean_stream(clean);
    assert(clean.map_values(f) =~= written.map_values(f));
    assert(frames_found(located_of(written, 0)).len() == written.len());
}

/// A marker that was found stands at or behind the place where the search
/// began, inside the buffer.
pub proof fn lemma_next_marker_bounds(data: Seq<u8>, pos: int)
    requires
        0 <= pos,
        next_marker(data, pos) is Some,
    ensures
        pos <= next_marker(data, pos)->0,
        next_marker(data, pos)->0 + 4 <= data.len(),
        marker_at(data, next_marker(data, pos)->0),
    decreases data.len() - pos,
{
    if pos + 4 <= data.len() && !marker_at(data, pos) {
        lemma_next_marker_bounds(data, pos + 1);
    }
}

/// Whether located frames stand one behind the other, without overlap, at
/// or behind `pos` and inside a buffer of `len` bytes, each with at least
/// the 50 bytes of marker and header.
pub open spec fn in_order(located: Seq<LocatedView>, pos: int, len: int) -> bool {
    &&& forall|i: int|
        0 <= i < located.len() ==> pos <= (#[trigger] located[i]).offset && located[i].offset
            + located[i].size <= len && located[i].size >= 50
    &&& forall|i: int, j: int|
        0 <= i < j < located.len() ==> (#[trigger] located[i]).offset + located[i].size <= (
        #[trigger] located[j]).offset
}

/// The frames that a scan finds stand in the order of the buffer: each
/// inside the buffer, and each behind the end of the one before it.
pub proof fn lemma_scan_in_order(data: Seq<u8>, pos: int)
    requires
        0 <= pos,
    ensures
        in_order(scan_from(data, pos), pos, data.len() as int),
    decreases bytes_left(data, pos),
{
    if pos < data.len() {
        match next_marker(data, pos) {
            None => {},
            Some(at) => {
                lemma_next_marker_bounds(data, pos);
                match decode_strict(data.skip(at)) {
                    Ok(f) => {
                        let size = frame_size(f.header) as int;
                        let first = LocatedView { offset: at as nat, frame: f, size: size as nat };
                        let rest = scan_from(data, at + size);
                        lemma_scan_in_order(data, at + size);
                        let all = scan_from(data, pos);
                        assert(all == seq![first] + rest);
                        assert forall|i: int| 0 <= i < all.len() implies pos <= (
                        #[trigger] all[i]).offset && all[i].offset + all[i].size <= data.len()
                            && all[i].size >= 50 by {
                            if i > 0 {
                                assert(all[i] == rest[i - 1]);
                            }
                        }
                        assert forall|i: int, j: int| 0 <= i < j < all.len() implies (
                        #[trigger] all[i]).offset + all[i].size <= (#[trigger] all[j]).offset by {
                            assert(all[j] == rest[j - 1]);
                            if i > 0 {
                                assert(all[i] == rest[i - 1]);
                            }
                        }
                    },
                    Err(_) => {
                        lemma_scan_in_order(data, at + 4);
                        let rest = scan_from(data, at + 4);
                        assert(scan_from(data, pos) == rest);
                    },
                }
            },
        }
    }
}

/// The frames that a scan finds are valid: each has a valid header and a
/// payload of the length that the header declares.
pub proof fn lemma_scan_valid(data: Seq<u8>, pos: int)
    requires
        0 <= pos,
    ensures
        forall|i: int|
            0 <= i < scan_from(data, pos).len() ==> (#[trigger] scan_from(data, pos)[i]).frame.valid(),
    decreases bytes_left(data, pos),
{
    if pos < data.len() {
        match next_marker(data, pos) {
            None => {},
            Some(at) => {
                lemma_next_marker_bounds(data, pos);
                match decode_strict(data.skip(at)) {
                    Ok(f) => {
                        let size = frame_size(f.header) as int;
                        let rest = scan_from(data, at + size);
                        lemma_scan_valid(data, at + size);
                        let all = scan_from(data, pos);
                        assert forall|i: int| 0 <= i < all.len() implies (
                        #[trigger] all[i]).frame.valid() by {
                            if i > 0 {
                                assert(all[i] == rest[i - 1]);
                            }
                        }
                    },
                    Err(_) => {
                        lemma_scan_valid(data, at + 4);
                    },
                }
            },
        }
    }
}

/// Finds the first marker in `data` at or behind `pos`.
fn find_marker(data: &[u8], pos: usize) -> (r: Option<usize>)
    requires
        pos <= data.len(),
    ensures
        match r {
            Some(at) => next_marker(data@, pos as int) == Some(at as int) && pos <= at && at + 4
                <= data.len(),
            None => next_marker(data@, pos as int) is None,
        },
{
    let rest = slice_subrange(data, pos, data.len());
    let needle = FRAME_MARKER;
    assert(needle@ =~= marker());
    let found = memchr::memmem::find(rest, needle.as_slice());
    proof {
        assert forall|j: int| pos <= j implies marker_at(data@, j) == occurs_at(
            rest@,
            marker(),
            j - pos,
        ) by {
            if j + 4 <= data@.len() {
                assert(rest@.subrange(j - pos, j - pos + 4) =~= data@.subrange(j, j + 4));
            }
        }
    }
    match found {
        Some(rel) => {
            proof {
                assert(marker_at(data@, pos + rel));
                assert forall|j: int| pos <= j < pos + rel implies !marker_at(data@, j) by {
                    assert(!occurs_at(rest@, marker(), j - pos));
                }
                lemma_next_marker_is_first(data@, pos as int, pos + rel);
            }
            Some(pos + rel)
        },
        None => {
            proof {
                assert forall|j: int| pos <= j implies !marker_at(data@, j) by {
                    assert(!occurs_at(rest@, marker(), j - pos));
                }
                lemma_next_marker_none(data@, pos as int);
            }
            None
        },
    }
}

/// Decodes the frame whose marker stands at `offset`.
fn try_decode_at_offset(data: &[u8], offset: usize) -> (r: Option<LocatedFrame>)
    requires
        offset <= data.len(),
    ensures
        match r {
            Some(l) => decode_strict(data@.skip(offset as int)) == Ok::<
                FrameView,
                crate::error::FrameErrorView,
            >(l.frame@) && l.offset == offset && l.size == frame_size(l.frame@.header) && offset
                + l.size <= data.len(),
            None => decode_strict(data@.skip(offset as int)) is Err,
        },
{
    let rest = slice_subrange(data, offset, data.len());
    assert(rest@ =~= data@.skip(offset as int));
    match decode_frame_from_bytes(rest) {
        Ok(frame) => {
            let size = declared_size(&frame.header) as usize;
            Some(LocatedFrame { offset, frame, size })
        },
        Err(_) => None,
    }
}

/// Scans `data` for frames, damaged or not: every frame that decodes at a
/// marker the scan comes to is returned with its offset and size, in the
/// order of the buffer.
pub fn scan_stream(data: &[u8]) -> (results: Vec<LocatedFrame>)
    ensures
        located_views(results@) == scan_from(data@, 0),
        in_order(located_views(results@), 0, data@.len() as int),
{
    proof {
        lemma_scan_in_order(data@, 0);
    }
    let mut results: Vec<LocatedFrame> = Vec::new();
    let mut pos: usize = 0;
    assert(located_views(results@) =~= Seq::empty());
    while pos < data.len()
        invariant
            pos <= data.len(),
            scan_from(data@, 0) == located_views(results@) + scan_from(data@, pos as int),
        decreases data.len() - pos,
    {
        match find_marker(data, pos) {
            Some(at) => {
                match try_decode_at_offset(data, at) {
                    Some(located) => {
                        let ghost before = located_views(results@);
                        pos = at + located.size;
                        results.push(located);
                        assert(located_views(results@) =~= before + seq![located@]);
                    },
                    None => {
                        pos = at + 4;
                    },
                }
            },
            None => {
                pos = data.len();
            },
        }
    }
    assert(scan_from(data@, pos as int) =~= Seq::empty());
    results
}

/// Counts of one scan.
#[derive(Debug, Clone, Copy, PartialEq, Eq)]
pub struct ScanStats {
    /// Number of bytes in the buffer.
    pub bytes_scanned: usize,
    /// Number of frames that decoded.
    pub frames_found: usize,
    /// Number of markers at which decoding was tried.
    pub markers_found: usize,
    /// Number of markers at which decoding failed.
    pub decode_failures: usize,
    /// Sizes of the decoded frames, added up.
    pub bytes_recovered: usize,
}

impl Default for ScanStats {
    fn default() -> (s: Self)
        ensures
            s == (ScanStats {
                bytes_scanned: 0,
                frames_found: 0,
                markers_found: 0,
                decode_failures: 0,
                bytes_recovered: 0,
            }),
    {
        ScanStats {
            bytes_scanned: 0,
            frames_found: 0,
            markers_found: 0,
            decode_failures: 0,
            bytes_recovered: 0,
        }
    }
}

impl ScanStats {
    /// The share of the scanned bytes that was recovered, in percent,
    /// rounded down; 0 for an empty buffer.
    pub fn recovery_percent(&self) -> (p: u128)
        ensures
            p == (if self.bytes_scanned == 0 {
                0
            } else {
                self.bytes_recovered * 100 / self.bytes_scanned as int
            }),
    {
        if self.bytes_scanned == 0 {
            0
        } else {
            (self.bytes_recovered as u128) * 100 / (self.bytes_scanned as u128)
        }
    }
}

/// Scans as `scan_stream` does and counts: the markers at which decoding
/// was tried, those at which it failed, and the bytes of the frames found.
pub fn scan_stream_with_stats(data: &[u8]) -> (r: (Vec<LocatedFrame>, ScanStats))
    ensures
        located_views(r.0@) == scan_from(data@, 0),
        r.1.bytes_scanned == data.len(),
        r.1.frames_found == r.0.len(),
        r.1.decode_failures == failures_from(data@, 0),
        r.1.markers_found == r.1.frames_found + r.1.decode_failures,
        r.1.bytes_recovered == recovered_bytes(scan_from(data@, 0)),
        r.1.bytes_recovered <= r.1.bytes_scanned,
{
    let mut markers_found: usize = 0;
    let mut decode_failures: usize = 0;
    let mut bytes_recovered: usize = 0;
    let mut results: Vec<LocatedFrame> = Vec::new();
    let mut pos: usize = 0;
    assert(located_views(results@) =~= Seq::empty());
    while pos < data.len()
        invariant
            pos <= data.len(),
            scan_from(data@, 0) == located_views(results@) + scan_from(data@, pos as int),
            failures_from(data@, 0) == decode_failures + failures_from(data@, pos as int),
            bytes_recovered == recovered_bytes(located_views(results@)),
            markers_found == results.len() + decode_failures,
            markers_found <= pos,
            bytes_recovered <= pos,
        decreases data.len() - pos,
    {
        match find_marker(data, pos) {
            Some(at) => {
                markers_found += 1;
                match try_decode_at_offset(data, at) {
                    Some(located) => {
                        let ghost before = located_views(results@);
                        bytes_recovered += located.size;
                        pos = at + located.size;
                        results.push(located);
                        assert(located_views(results@) =~= before + seq![located@]);
                        assert(located_views(results@).drop_last() =~= before);
                    },
                    None => {
                        decode_failures += 1;
                        pos = at + 4;
                    },
                }
            },
            None => {
                pos = data.len();
            },
        }
    }
    assert(scan_from(data@, pos as int) =~= Seq::empty());
    assert(scan_from(data@, 0) =~= located_views(results@));
    let stats = ScanStats {
        bytes_scanned: data.len(),
        frames_found: results.len(),
        markers_found,
        decode_failures,
        bytes_recovered,
    };
    (results, stats)
}

/// Scans as `scan_stream` does, without copying: payload and trailer of
/// each frame share the storage of `buf`, and a frame whose flags select no
/// trailer holds none.
pub fn scan_stream_zero_copy(buf: Bytes) -> (results: Vec<LocatedFrame>)
    ensures
        located_views(results@) == scan_from(bytes_view(buf), 0).map_values(
            |l: LocatedView| shared_located(l),
        ),
{
    let data: &[u8] = buf.deref();
    let mut results: Vec<LocatedFrame> = Vec::new();
    let mut pos: usize = 0;
    let ghost shared = |l: LocatedView| shared_located(l);
    assert(located_views(results@) =~= Seq::empty());
    while pos < data.len()
        invariant
            pos <= data.len(),
            data@ == bytes_view(buf),
            shared == |l: LocatedView| shared_located(l),
            scan_from(data@, 0).map_values(shared) == located_views(results@) + scan_from(
                data@,
                pos as int,
            ).map_values(shared),
        decreases data.len() - pos,
    {
        match find_marker(data, pos) {
            Some(at) => {
                let rest = bytes_slice(&buf, at, data.len());
                assert(bytes_view(rest) =~= data@.skip(at as int));
                proof {
                    lemma_decoders_agree(data@.skip(at as int));
                }
                match decode_frame_from_bytes_zero_copy(rest) {
                    Ok(frame) => {
                        let size = declared_size(&frame.header) as usize;
                        let located = LocatedFrame { offset: at, frame, size };
                        let ghost before = located_views(results@);
                        let ghost strict = decode_strict(data@.skip(at as int))->Ok_0;
                        let ghost item = LocatedView {
                            offset: at as nat,
                            frame: strict,
                            size: frame_size(strict.header),
                        };
                        assert(located@ == shared_located(item));
                        assert(scan_from(data@, pos as int).map_values(shared) =~= seq![
                            shared_located(item),
                        ] + scan_from(data@, at + size).map_values(shared));
                        pos = at + size;
                        results.push(located);
                        assert(located_views(results@) =~= before + seq![located@]);
                    },
                    Err(_) => {
                        pos = at + 4;
                    },
                }
            },
            None => {
                pos = data.len();
            },
        }
    }
    assert(scan_from(data@, pos as int) =~= Seq::empty());
    assert(scan_from(data@, 0).map_values(shared) =~= located_views(results@));
    results
}

} // verus!
