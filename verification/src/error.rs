//! The errors of frame operations.

use crate::text::{
    decimal, hexadecimal, push_decimal, push_hexadecimal,
};
use vstd::prelude::*;
use vstd::string::StringExecFns;

verus! {

/// What can go wrong in a frame operation.
#[derive(Debug, Clone, PartialEq)]
#[allow(inconsistent_fields)]
pub enum FrameError {
    /// Four bytes other than `DURP` stood where a marker was required.
    BadMarker([u8; 4]),
    /// The version byte is not the current protocol version.
    UnsupportedVersion(u8),
    /// The declared frame size (first field) exceeds the maximum (second).
    FrameTooLarge(u32, u32),
    /// The declared payload length (first field) exceeds the maximum (second).
    PayloadTooLarge(u32, u32),
    /// The buffer is shorter than the frame it should hold.
    IncompleteFrame {
        /// The number of bytes needed.
        expected: usize,
        /// The number of bytes at hand.
        actual: usize,
    },
    /// The CRC32C trailer does not match the frame.
    ChecksumMismatch {
        /// The checksum stored in the trailer.
        expected: u32,
        /// The checksum computed over the frame.
        actual: u32,
    },
    /// The BLAKE3 trailer does not match the frame.
    HashMismatch,
    /// An error of the I/O layer, reported by a caller.
    Io(String),
    /// A payload, sidecar or index could not be serialised.
    Serialization(String),
    /// The structure is invalid: lengths disagree, parameters are
    /// inadmissible, or a reconstruction is impossible.
    InvalidStructure(String),
    /// An operation that needs at least one frame found none.
    NoFramesFound,
    /// A frame (first field) refers to a predecessor (second) that is missing.
    SequenceGap(u64, u64),
    /// The back-link of the frame with this id does not match its predecessor.
    BackLinkMismatch(u64),
}

/// What an error holds, with bytes and text as sequences.
#[allow(inconsistent_fields)]
pub enum FrameErrorView {
    BadMarker(Seq<u8>),
    UnsupportedVersion(u8),
    FrameTooLarge(u32, u32),
    PayloadTooLarge(u32, u32),
    IncompleteFrame { expected: usize, actual: usize },
    ChecksumMismatch { expected: u32, actual: u32 },
    HashMismatch,
    Io(Seq<char>),
    Serialization(Seq<char>),
    InvalidStructure(Seq<char>),
    NoFramesFound,
    SequenceGap(u64, u64),
    BackLinkMismatch(u64),
}

impl View for FrameError {
    type V = FrameErrorView;

    open spec fn view(&self) -> FrameErrorView {
        match *self {
            FrameError::BadMarker(m) => FrameErrorView::BadMarker(m@),
            FrameError::UnsupportedVersion(v) => FrameErrorView::UnsupportedVersion(v),
            FrameError::FrameTooLarge(n, max) => FrameErrorView::FrameTooLarge(n, max),
            FrameError::PayloadTooLarge(n, max) => FrameErrorView::PayloadTooLarge(n, max),
            FrameError::IncompleteFrame { expected, actual } => FrameErrorView::IncompleteFrame {
                expected,
                actual,
            },
            FrameError::ChecksumMismatch { expected, actual } => FrameErrorView::ChecksumMismatch {
                expected,
                actual,
            },
            FrameError::HashMismatch => FrameErrorView::HashMismatch,
            FrameError::Io(m) => FrameErrorView::Io(m@),
            FrameError::Serialization(m) => FrameErrorView::Serialization(m@),
            FrameError::InvalidStructure(m) => FrameErrorView::InvalidStructure(m@),
            FrameError::NoFramesFound => FrameErrorView::NoFramesFound,
            FrameError::SequenceGap(id, prev) => FrameErrorView::SequenceGap(id, prev),
            FrameError::BackLinkMismatch(id) => FrameErrorView::BackLinkMismatch(id),
        }
    }
}

impl FrameErrorView {
    /// The message of the error.
    pub open spec fn text(self) -> Seq<char> {
        match self {
            FrameErrorView::BadMarker(m) => "Invalid frame marker: expected DURP, got ["@ + decimal(
                m[0] as nat,
            ) + ", "@ + decimal(m[1] as nat) + ", "@ + decimal(m[2] as nat) + ", "@ + decimal(
                m[3] as nat,
            ) + "]"@,
            FrameErrorView::UnsupportedVersion(v) => "Unsupported protocol version: "@ + decimal(
                v as nat,
            ),
            FrameErrorView::FrameTooLarge(n, max) => "Frame size "@ + decimal(n as nat)
                + " exceeds maximum "@ + decimal(max as nat),
            FrameErrorView::PayloadTooLarge(n, max) => "Payload size "@ + decimal(n as nat)
                + " exceeds maximum "@ + decimal(max as nat),
            FrameErrorView::IncompleteFrame { expected, actual } => "Incomplete frame: expected "@
                + decimal(expected as nat) + " bytes, got "@ + decimal(actual as nat),
            FrameErrorView::ChecksumMismatch { expected, actual } => "Checksum mismatch: expected "@
                + hexadecimal(expected as nat) + ", got "@ + hexadecimal(actual as nat),
            FrameErrorView::HashMismatch => "Hash mismatch"@,
            FrameErrorView::Io(m) => "IO error: "@ + m,
            FrameErrorView::Serialization(m) => "Serialization error: "@ + m,
            FrameErrorView::InvalidStructure(m) => "Invalid frame structure: "@ + m,
            FrameErrorView::NoFramesFound => "No valid frames found in stream"@,
            FrameErrorView::SequenceGap(id, prev) => "Gap in sequence: frame "@ + decimal(id as nat)
                + " references prev_id "@ + decimal(prev as nat) + " which is missing"@,
            FrameErrorView::BackLinkMismatch(id) => "Back-link hash mismatch for frame "@ + decimal(
                id as nat,
            ),
        }
    }
}

impl FrameError {
    /// The message of the error.
    pub fn message(&self) -> (s: String)
        ensures
            s@ == self@.text(),
    {
        let mut s = String::new();
        match self {
            FrameError::BadMarker(m) => {
                s.append("Invalid frame marker: expected DURP, got [");
                push_decimal(&mut s, m[0] as u64);
                s.append(", ");
                push_decimal(&mut s, m[1] as u64);
                s.append(", ");
                push_decimal(&mut s, m[2] as u64);
                s.append(", ");
                push_decimal(&mut s, m[3] as u64);
                s.append("]");
            },
            FrameError::UnsupportedVersion(v) => {
                s.append("Unsupported protocol version: ");
                push_decimal(&mut s, *v as u64);
            },
            FrameError::FrameTooLarge(n, max) => {
                s.append("Frame size ");
                push_decimal(&mut s, *n as u64);
                s.append(" exceeds maximum ");
                push_decimal(&mut s, *max as u64);
            },
            FrameError::PayloadTooLarge(n, max) => {
                s.append("Payload size ");
                push_decimal(&mut s, *n as u64);
                s.append(" exceeds maximum ");
                push_decimal(&mut s, *max as u64);
            },
            FrameError::IncompleteFrame { expected, actual } => {
                s.append("Incomplete frame: expected ");
                push_decimal(&mut s, *expected as u64);
                s.append(" bytes, got ");
                push_decimal(&mut s, *actual as u64);
            },
            FrameError::ChecksumMismatch { expected, actual } => {
                s.append("Checksum mismatch: expected ");
                push_hexadecimal(&mut s, *expected as u64);
                s.append(", got ");
                push_hexadecimal(&mut s, *actual as u64);
            },
            FrameError::HashMismatch => {
                s.append("Hash mismatch");
            },
            FrameError::Io(m) => {
                s.append("IO error: ");
                s.append(m.as_str());
            },
            FrameError::Serialization(m) => {
                s.append("Serialization error: ");
                s.append(m.as_str());
            },
            FrameError::InvalidStructure(m) => {
                s.append("Invalid frame structure: ");
                s.append(m.as_str());
            },
            FrameError::NoFramesFound => {
                s.append("No valid frames found in stream");
            },
            FrameError::SequenceGap(id, prev) => {
                s.append("Gap in sequence: frame ");
                push_decimal(&mut s, *id);
                s.append(" references prev_id ");
                push_decimal(&mut s, *prev);
                s.append(" which is missing");
            },
            FrameError::BackLinkMismatch(id) => {
                s.append("Back-link hash mismatch for frame ");
                push_decimal(&mut s, *id);
            },
        }
        assert(s@ =~= self@.text());
        s
    }
}

} // verus!
