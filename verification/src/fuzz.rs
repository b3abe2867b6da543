//! Entry points for fuzzing: decoder and scanner take every buffer.

use crate::decoder::decode_frame_from_bytes;
use crate::scanner::scan_stream;
use vstd::prelude::*;

verus! {

/// Runs the strict decoder on arbitrary bytes and drops the outcome: the
/// decoder accepts every buffer.
pub fn fuzz_decode(data: &[u8]) {
    let _ = decode_frame_from_bytes(data);
}

/// Runs the scanner on arbitrary bytes and drops the outcome: the scanner
/// accepts every buffer.
pub fn fuzz_scan(data: &[u8]) {
    let _ = scan_stream(data);
}

} // verus!
