//! Checking a set of frames: which are valid, which signatures hold, and
//! what that says of the file they came from.

use crate::constants::TrailerType;
use crate::encoder::signing_input;
use crate::layout::frame_body;
use crate::linker::frame_views;
use crate::types::{Frame, FrameView};
use std::ops::Deref;
use vstd::prelude::*;
use vstd::slice::slice_subrange;

verus! {

/// Whether the Ed25519 signature `signature` of `message` holds under the
/// public key `public_key`; `None` where the 32 bytes are no public key.
pub uninterp spec fn spec_ed25519_verifies(
    public_key: Seq<u8>,
    message: Seq<u8>,
    signature: Seq<u8>,
) -> Option<bool>;

/// `VerifyingKey::from_bytes` and `Verifier::verify` of ed25519-dalek:
/// whether the signature holds depends on the public key, the message and
/// the signature alone. `None` where the bytes of the key are refused.
#[verifier::external_body]
fn ed25519_verify(public_key: &[u8; 32], message: &[u8], signature: &[u8; 64]) -> (r: Option<bool>)
    ensures
        r == spec_ed25519_verifies(public_key@, message@, signature@),
{
    match ed25519_dalek::VerifyingKey::from_bytes(public_key) {
        Ok(key) => Some(
            ed25519_dalek::Verifier::verify(
                &key,
                message,
                &ed25519_dalek::Signature::from_bytes(signature),
            ).is_ok(),
        ),
        Err(_) => None,
    }
}

/// The number of valid frames among the first `n`.
pub open spec fn valid_count(frames: Seq<FrameView>, n: int) -> nat
    decreases n,
{
    if n <= 0 || n > frames.len() {
        0
    } else if frames[n - 1].valid() {
        valid_count(frames, n - 1) + 1
    } else {
        valid_count(frames, n - 1)
    }
}

/// Counts the frames that pass validation and those that do not.
pub fn count_valid_frames(frames: &[Frame]) -> (r: (usize, usize))
    ensures
        r.0 == valid_count(frame_views(frames@), frames@.len() as int),
        r.0 + r.1 == frames@.len(),
{
    let mut valid: usize = 0;
    let mut i: usize = 0;
    while i < frames.len()
        invariant
            i <= frames.len(),
            valid <= i,
            valid == valid_count(frame_views(frames@), i as int),
        decreases frames.len() - i,
    {
        assert(frame_views(frames@)[i as int] == frames@[i as int]@);
        if frames[i].validate().is_ok() {
            valid += 1;
        }
        i += 1;
    }
    (valid, frames.len() - valid)
}

/// Whether the frame carries a signature: its flags select the signed
/// trailer, and its trailer has 96 bytes.
pub open spec fn is_signed(f: FrameView) -> bool {
    f.header.trailer_type() == TrailerType::Blake3WithEd25519Sig && (f.trailer matches Some(t)
        && t.len() == 96)
}

/// What the check of a frame's signature under a public key gives: the
/// signature stands behind the hash in the trailer and covers marker,
/// header and payload.
pub open spec fn signature_holds(f: FrameView, public_key: Seq<u8>) -> Option<bool> {
    spec_ed25519_verifies(public_key, frame_body(f.header, f.payload), f.trailer->0.subrange(32, 96))
}

/// The numbers of signatures among the first `n` frames that hold and that
/// do not; `None` where the public key is refused at a signed frame.
pub open spec fn signature_counts(frames: Seq<FrameView>, public_key: Seq<u8>, n: int) -> Option<
    (nat, nat),
>
    decreases n,
{
    if n <= 0 || n > frames.len() {
        Some((0, 0))
    } else {
        match signature_counts(frames, public_key, n - 1) {
            None => None,
            Some(c) => if !is_signed(frames[n - 1]) {
                Some(c)
            } else {
                match signature_holds(frames[n - 1], public_key) {
                    None => None,
                    Some(true) => Some((c.0 + 1, c.1)),
                    Some(false) => Some((c.0, c.1 + 1)),
                }
            },
        }
    }
}

/// A count that failed stays failed.
proof fn lemma_counts_fail(frames: Seq<FrameView>, public_key: Seq<u8>, m: int, n: int)
    requires
        0 <= m <= n <= frames.len(),
        signature_counts(frames, public_key, m) is None,
    ensures
        signature_counts(frames, public_key, n) is None,
    decreases n - m,
{
    if m < n {
        lemma_counts_fail(frames, public_key, m, n - 1);
    }
}

/// Checks the signature of a frame that carries one.
fn verify_frame_signature(frame: &Frame, public_key: &[u8; 32]) -> (r: Option<bool>)
    requires
        is_signed(frame@),
    ensures
        r == signature_holds(frame@, public_key@),
{
    let message = signing_input(frame);
    let trailer: &[u8] = match &frame.trailer {
        Some(t) => t.deref(),
        None => {
            return None;
        },
    };
    let mut signature = [0u8; 64];
    let mut i: usize = 0;
    while i < 64
        invariant
            i <= 64,
            trailer@.len() == 96,
            forall|j: int| 0 <= j < i ==> signature@[j] == trailer@[32 + j],
        decreases 64 - i,
    {
        signature[i] = trailer[32 + i];
        i += 1;
    }
    assert(signature@ =~= trailer@.subrange(32, 96));
    ed25519_verify(public_key, message.as_slice(), &signature)
}

/// Counts the signatures that hold under the public key and those that do
/// not, over the frames that carry one. `None` where the public key is
/// refused.
pub fn verify_signatures(frames: &[Frame], public_key: &[u8; 32]) -> (r: Option<(usize, usize)>)
    ensures
        match signature_counts(frame_views(frames@), public_key@, frames@.len() as int) {
            Some(c) => r matches Some(x) && x.0 == c.0 && x.1 == c.1,
            None => r is None,
        },
{
    let mut ok: usize = 0;
    let mut bad: usize = 0;
    let mut i: usize = 0;
    let ghost views = frame_views(frames@);
    while i < frames.len()
        invariant
            i <= frames.len(),
            views == frame_views(frames@),
            ok + bad <= i,
            signature_counts(views, public_key@, i as int) == Some((ok as nat, bad as nat)),
        decreases frames.len() - i,
    {
        let frame = &frames[i];
        assert(views[i as int] == frame@);
        let signed = match frame.header.flags.trailer_type() {
            TrailerType::Blake3WithEd25519Sig => match &frame.trailer {
                Some(t) => t.len() == 96,
                None => false,
            },
            _ => false,
        };
        if signed {
            match verify_frame_signature(frame, public_key) {
                Some(true) => {
                    ok += 1;
                },
                Some(false) => {
                    bad += 1;
                },
                None => {
                    proof {
                        assert(signature_counts(views, public_key@, i + 1) is None);
                        lemma_counts_fail(views, public_key@, i + 1, frames@.len() as int);
                    }
                    return None;
                },
            }
        }
        i += 1;
    }
    Some((ok, bad))
}

/// What a check says of a file.
#[derive(Debug, Clone, Copy, PartialEq, Eq, Structural)]
pub enum FileStatus {
    /// Every frame is valid, every back-link holds, and nothing is missing.
    Complete,
    /// Some frame is invalid.
    InvalidFrames,
    /// The frames are valid, but some back-link does not hold.
    BrokenLinks,
    /// The frames are valid and linked, but the sequence has gaps.
    Gaps,
}

/// The status of a file with these numbers of invalid frames, broken
/// back-links and gaps: invalid frames weigh most, then broken links, then
/// gaps.
pub fn file_status(invalid_frames: usize, backlink_errors: usize, gaps: usize) -> (s: FileStatus)
    ensures
        s == (if invalid_frames > 0 {
            FileStatus::InvalidFrames
        } else if backlink_errors > 0 {
            FileStatus::BrokenLinks
        } else if gaps > 0 {
            FileStatus::Gaps
        } else {
            FileStatus::Complete
        }),
{
    if invalid_frames == 0 && backlink_errors == 0 && gaps == 0 {
        FileStatus::Complete
    } else if invalid_frames > 0 {
        FileStatus::InvalidFrames
    } else if backlink_errors > 0 {
        FileStatus::BrokenLinks
    } else {
        FileStatus::Gaps
    }
}

} // verus!
