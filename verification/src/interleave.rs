//! Interleaving against burst errors.
//!
//! A buffer is cut into blocks of `shard_len` bytes, and the blocks are
//! dealt out to `group` stripes in turn. A burst that destroys a stretch of
//! one stripe then costs each part of the buffer a little, and none of it
//! all. Deinterleaving takes the blocks back from the stripes in the same
//! turn.

use crate::buffer::bytes_view;
use crate::fec::buffer_views;
use crate::wire::put_slice;
use bytes::Bytes;
use std::ops::Deref;
use vstd::prelude::*;
use vstd::slice::slice_subrange;

verus! {

/// The parameters of interleaving.
#[derive(Debug, Clone, Copy, PartialEq, Eq, Structural)]
pub struct InterleaveParams {
    /// Number of stripes.
    pub group: usize,
    /// Number of bytes that a stripe takes in each round.
    pub shard_len: usize,
}

impl InterleaveParams {
    /// Parameters with these values.
    pub fn new(group: usize, shard_len: usize) -> (p: Self)
        ensures
            p.group == group,
            p.shard_len == shard_len,
    {
        InterleaveParams { group, shard_len }
    }
}

/// The block of at most `len` bytes that starts at `start` in `input`;
/// empty where `start` lies behind the input.
pub open spec fn block_at(input: Seq<u8>, start: int, len: int) -> Seq<u8> {
    if start < 0 || start >= input.len() || len <= 0 {
        Seq::empty()
    } else if start + len >= input.len() {
        input.subrange(start, input.len() as int)
    } else {
        input.subrange(start, start + len)
    }
}

/// The number of bytes of `input` at and behind `start`.
pub open spec fn left_behind(input: Seq<u8>, start: int) -> nat {
    if start >= input.len() {
        0
    } else {
        (input.len() - start) as nat
    }
}

/// The stripe that takes the block at `start` and every block that starts
/// a multiple of `stride` behind it.
pub open spec fn stripe_from(input: Seq<u8>, start: int, len: int, stride: int) -> Seq<u8>
    decreases left_behind(input, start),
{
    if start < 0 || start >= input.len() || len <= 0 || stride < len {
        Seq::empty()
    } else {
        block_at(input, start, len) + stripe_from(input, start + stride, len, stride)
    }
}

/// The stripes of `input`: stripe number `l` of `group` takes the blocks
/// number `l`, `l + group`, `l + 2 group` and so on, of `shard_len` bytes
/// each but for the last block of the input.
pub open spec fn interleaved(input: Seq<u8>, group: nat, shard_len: nat) -> Seq<Seq<u8>> {
    Seq::new(
        group,
        |l: int| stripe_from(input, l * shard_len, shard_len as int, (group * shard_len) as int),
    )
}

/// The length of the longest stripe.
pub open spec fn longest_stripe(stripes: Seq<Seq<u8>>) -> nat
    decreases stripes.len(),
{
    if stripes.len() == 0 {
        0
    } else if stripes.last().len() > longest_stripe(stripes.drop_last()) {
        stripes.last().len()
    } else {
        longest_stripe(stripes.drop_last())
    }
}

/// What the first `k` stripes give in the round that takes their bytes
/// from `off` on: of each stripe its block at `off`, in the order of the
/// stripes.
pub open spec fn round_of(stripes: Seq<Seq<u8>>, off: int, len: int, k: int) -> Seq<u8>
    decreases k,
{
    if k <= 0 || k > stripes.len() {
        Seq::empty()
    } else {
        round_of(stripes, off, len, k - 1) + block_at(stripes[k - 1], off, len)
    }
}

/// What the stripes give from the round at `off` on: round after round,
/// until no stripe has bytes left.
pub open spec fn gathered(stripes: Seq<Seq<u8>>, off: int, len: int) -> Seq<u8>
    decreases (if off >= longest_stripe(stripes) {
        0
    } else {
        longest_stripe(stripes) - off
    }),
{
    if len <= 0 || off < 0 || off >= longest_stripe(stripes) {
        Seq::empty()
    } else {
        round_of(stripes, off, len, stripes.len() as int) + gathered(stripes, off + len, len)
    }
}

/// The buffer that the stripes give back.
pub open spec fn deinterleaved(stripes: Seq<Seq<u8>>, shard_len: nat) -> Seq<u8> {
    gathered(stripes, 0, shard_len as int)
}

/// Every stripe is at most as long as the longest.
pub proof fn lemma_longest_stripe(stripes: Seq<Seq<u8>>, i: int)
    requires
        0 <= i < stripes.len(),
    ensures
        stripes[i].len() <= longest_stripe(stripes),
    decreases stripes.len(),
{
    if i < stripes.len() - 1 {
        lemma_longest_stripe(stripes.drop_last(), i);
    }
}

/// `x`, but at most `n`.
pub open spec fn at_most(x: int, n: int) -> int {
    if x >= n {
        n
    } else {
        x
    }
}

/// A block of the second of two joined sequences is the block of the
/// joined sequence that lies as far behind the first.
proof fn lemma_block_behind(a: Seq<u8>, b: Seq<u8>, off: int, len: int)
    requires
        0 <= off,
        0 < len,
    ensures
        block_at(a + b, a.len() + off, len) == block_at(b, off, len),
{
    assert(block_at(a + b, a.len() + off, len) =~= block_at(b, off, len));
}

/// Block number `r` of a stripe is the block of the input that lies `r`
/// strides behind the stripe's first block.
proof fn lemma_stripe_block(input: Seq<u8>, start: int, len: int, stride: int, r: nat)
    requires
        0 <= start,
        0 < len <= stride,
    ensures
        block_at(stripe_from(input, start, len, stride), r * len, len) == block_at(
            input,
            start + r * stride,
            len,
        ),
    decreases r,
{
    let stripe = stripe_from(input, start, len, stride);
    assert(r * len >= 0 && r * stride >= 0) by (nonlinear_arith)
        requires
            len > 0,
            stride > 0,
    ;
    if r > 0 {
        assert(r * len == (r - 1) * len + len && r * stride == (r - 1) * stride + stride
            && (r - 1) * len >= 0 && (r - 1) * stride >= 0) by (nonlinear_arith)
            requires
                r >= 1,
                len > 0,
                stride > 0,
        ;
    }
    if r == 0 {
        assert(r * len == 0 && r * stride == 0) by (nonlinear_arith)
            requires
                r == 0,
        ;
    }
    if start >= input.len() {
        assert(stripe =~= Seq::empty());
    } else {
        let first = block_at(input, start, len);
        let rest = stripe_from(input, start + stride, len, stride);
        assert(stripe == first + rest);
        if start + len <= input.len() {
            assert(first.len() == len);
            if r == 0 {
                assert(block_at(stripe, 0, len) =~= first);
            } else {
                lemma_stripe_block(input, start + stride, len, stride, (r - 1) as nat);
                lemma_block_behind(first, rest, (r - 1) * len, len);
            }
        } else {
            assert(rest =~= Seq::empty());
            assert(stripe =~= first);
            assert(0 < first.len() < len);
            if r == 0 {
                assert(block_at(stripe, 0, len) =~= first);
            } else {
                assert(block_at(stripe, r * len, len) =~= Seq::empty());
                assert(block_at(input, start + r * stride, len) =~= Seq::empty());
            }
        }
    }
}

/// The first `k` stripes give in round `r` the bytes of the input from the
/// round's start on, `k` blocks of them.
proof fn lemma_round(input: Seq<u8>, group: int, len: int, r: int, k: int)
    requires
        group > 0,
        len > 0,
        r >= 0,
        0 <= k <= group,
    ensures
        round_of(interleaved(input, group as nat, len as nat), r * len, len, k) == input.subrange(
            at_most(r * (group * len), input.len() as int),
            at_most(r * (group * len) + k * len, input.len() as int),
        ),
    decreases k,
{
    let stripes = interleaved(input, group as nat, len as nat);
    let stride = group * len;
    assert(stride >= len) by (nonlinear_arith)
        requires
            stride == group * len,
            group >= 1,
            len >= 1,
    ;
    assert(r * stride >= 0 && k * len >= 0) by (nonlinear_arith)
        requires
            stride >= 0,
            len >= 0,
            r >= 0,
            k >= 0,
    ;
    if k == 0 {
        assert(round_of(stripes, r * len, len, 0) =~= input.subrange(
            at_most(r * stride, input.len() as int),
            at_most(r * stride + 0 * len, input.len() as int),
        ));
    } else {
        assert(k * len == (k - 1) * len + len && (k - 1) * len >= 0) by (nonlinear_arith)
            requires
                k >= 1,
                len >= 0,
        ;
        lemma_round(input, group, len, r, k - 1);
        lemma_stripe_block(input, (k - 1) * len, len, stride, r as nat);
        assert(stripes[k - 1] == stripe_from(input, (k - 1) * (len as nat), len, stride));
        let start = r * stride + (k - 1) * len;
        assert(input.subrange(
            at_most(r * stride, input.len() as int),
            at_most(start, input.len() as int),
        ) + block_at(input, start, len) =~= input.subrange(
            at_most(r * stride, input.len() as int),
            at_most(start + len, input.len() as int),
        ));
    }
}

/// From round `r` on, the stripes give the input from the round's start to
/// its end.
proof fn lemma_gathered(input: Seq<u8>, group: int, len: int, r: int)
    requires
        group > 0,
        len > 0,
        r >= 0,
    ensures
        gathered(interleaved(input, group as nat, len as nat), r * len, len) == input.subrange(
            at_most(r * (group * len), input.len() as int),
            input.len() as int,
        ),
    decreases
            (if r * len >= longest_stripe(interleaved(input, group as nat, len as nat)) {
                0
            } else {
                longest_stripe(interleaved(input, group as nat, len as nat)) - r * len
            }),
{
    let stripes = interleaved(input, group as nat, len as nat);
    let stride = group * len;
    let n = input.len() as int;
    assert(stride >= len) by (nonlinear_arith)
        requires
            stride == group * len,
            group >= 1,
            len >= 1,
    ;
    assert(r * stride >= 0 && r * len >= 0 && (r + 1) * len == r * len + len && (r + 1) * stride
        == r * stride + stride) by (nonlinear_arith)
        requires
            stride >= 0,
            len >= 0,
            r >= 0,
    ;
    if r * len >= longest_stripe(stripes) {
        if r * stride < n {
            lemma_stripe_block(input, 0, len, stride, r as nat);
            assert(stripes[0] == stripe_from(input, 0int * (len as nat), len, stride));
            assert(block_at(input, r * stride, len).len() > 0);
            lemma_longest_stripe(stripes, 0);
        }
        assert(gathered(stripes, r * len, len) =~= input.subrange(at_most(r * stride, n), n));
    } else {
        lemma_round(input, group, len, r, group);
        lemma_gathered(input, group, len, r + 1);
        assert(input.subrange(at_most(r * stride, n), at_most(r * stride + stride, n))
            + input.subrange(at_most((r + 1) * stride, n), n) =~= input.subrange(
            at_most(r * stride, n),
            n,
        ));
    }
}

/// Deinterleaving gives back what was interleaved, byte for byte, for every
/// input, every number of stripes above 0 and every block length above 0.
pub proof fn lemma_deinterleave_inverts_interleave(input: Seq<u8>, group: nat, shard_len: nat)
    requires
        group > 0,
        shard_len > 0,
    ensures
        deinterleaved(interleaved(input, group, shard_len), shard_len) == input,
{
    lemma_gathered(input, group as int, shard_len as int, 0);
    assert(0 * (shard_len as int) == 0 && 0 * ((group as int) * (shard_len as int)) == 0)
        by (nonlinear_arith);
    assert(input.subrange(0, input.len() as int) =~= input);
}

/// Deals `input` out to `group` stripes, `shard_len` bytes at a time.
pub fn interleave_bytes(input: &[u8], params: InterleaveParams) -> (stripes: Vec<Bytes>)
    requires
        params.group > 0,
        params.shard_len > 0,
    ensures
        stripes.len() == params.group,
        buffer_views(stripes@) == interleaved(input@, params.group as nat, params.shard_len as nat),
{
    let n = input.len();
    let len = params.shard_len;
    assert(params.group * len <= 0xffff_ffff_ffff_ffff * 0xffff_ffff_ffff_ffff) by (nonlinear_arith)
        requires
            0 <= params.group <= 0xffff_ffff_ffff_ffff,
            0 <= len <= 0xffff_ffff_ffff_ffff,
    ;
    let stride: u128 = (params.group as u128) * (len as u128);
    assert(stride >= len) by (nonlinear_arith)
        requires
            stride == params.group * len,
            params.group >= 1,
    ;
    let mut stripes: Vec<Bytes> = Vec::new();
    let mut lane: usize = 0;
    while lane < params.group
        invariant
            lane <= params.group,
            n == input.len(),
            len == params.shard_len,
            len > 0,
            stride == params.group * len,
            stride >= len,
            stripes.len() == lane,
            forall|l: int|
                0 <= l < lane ==> #[trigger] buffer_views(stripes@)[l] == stripe_from(
                    input@,
                    l * len,
                    len as int,
                    stride as int,
                ),
        decreases params.group - lane,
    {
        assert(lane * len <= 0xffff_ffff_ffff_ffff * 0xffff_ffff_ffff_ffff) by (nonlinear_arith)
            requires
                0 <= lane <= 0xffff_ffff_ffff_ffff,
                0 <= len <= 0xffff_ffff_ffff_ffff,
        ;
        let first: u128 = (lane as u128) * (len as u128);
        let mut stripe: Vec<u8> = Vec::new();
        if first < n as u128 {
            let mut start: usize = first as usize;
            let ghost whole = stripe_from(input@, first as int, len as int, stride as int);
            assert(stripe@ + whole =~= whole);
            loop
                invariant_except_break
                    start < n,
                    stripe@ + stripe_from(input@, start as int, len as int, stride as int) == whole,
                invariant
                    n == input.len(),
                    len > 0,
                    stride >= len,
                ensures
                    stripe@ == whole,
                decreases n - start,
            {
                let ghost before = stripe@;
                let end: usize = if n - start <= len {
                    n
                } else {
                    start + len
                };
                put_slice(&mut stripe, slice_subrange(input, start, end));
                assert(stripe@ =~= before + block_at(input@, start as int, len as int));
                assert(before + (block_at(input@, start as int, len as int) + stripe_from(
                    input@,
                    start + stride,
                    len as int,
                    stride as int,
                )) =~= stripe@ + stripe_from(input@, start + stride, len as int, stride as int));
                if ((n - start) as u128) <= stride {
                    assert(stripe@ + Seq::<u8>::empty() =~= stripe@);
                    break ;
                }
                start = start + (stride as usize);
            }
        }
        let ghost before = buffer_views(stripes@);
        let b = Bytes::from(stripe);
        stripes.push(b);
        assert forall|l: int| 0 <= l < lane + 1 implies #[trigger] buffer_views(stripes@)[l]
            == stripe_from(input@, l * len, len as int, stride as int) by {
            if l < lane {
                assert(buffer_views(stripes@)[l] == before[l]);
            }
        }
        lane += 1;
    }
    assert(buffer_views(stripes@) =~= interleaved(input@, params.group as nat, len as nat));
    stripes
}

/// Takes the blocks back from the stripes: round after round, of each
/// stripe in turn the next `shard_len` bytes, or what is left of it. The
/// result holds every byte of every stripe.
pub fn deinterleave_bytes(stripes: &[Bytes], params: InterleaveParams) -> (out: Bytes)
    requires
        params.group > 0,
        params.shard_len > 0,
        stripes@.len() == params.group,
    ensures
        bytes_view(out) == deinterleaved(buffer_views(stripes@), params.shard_len as nat),
{
    let len = params.shard_len;
    let ghost views = buffer_views(stripes@);
    let mut longest: usize = 0;
    let mut i: usize = 0;
    assert(views.subrange(0, 0) =~= Seq::empty());
    while i < stripes.len()
        invariant
            i <= stripes.len(),
            views == buffer_views(stripes@),
            longest == longest_stripe(views.subrange(0, i as int)),
        decreases stripes.len() - i,
    {
        if stripes[i].len() > longest {
            longest = stripes[i].len();
        }
        i += 1;
        assert(views.subrange(0, i as int).drop_last() =~= views.subrange(0, i - 1));
    }
    assert(views.subrange(0, i as int) =~= views);
    let mut out: Vec<u8> = Vec::new();
    let mut off: usize = 0;
    assert(out@ + gathered(views, 0, len as int) =~= gathered(views, 0, len as int));
    while off < longest
        invariant
            len == params.shard_len,
            len > 0,
            views == buffer_views(stripes@),
            longest == longest_stripe(views),
            out@ + gathered(views, off as int, len as int) == gathered(views, 0, len as int),
        decreases longest - off,
    {
        let ghost before = out@;
        let mut lane: usize = 0;
        assert(out@ + round_of(views, off as int, len as int, 0) =~= out@);
        while lane < stripes.len()
            invariant
                lane <= stripes.len(),
                len > 0,
                views == buffer_views(stripes@),
                out@ == before + round_of(views, off as int, len as int, lane as int),
            decreases stripes.len() - lane,
        {
            let stripe: &[u8] = stripes[lane].deref();
            assert(stripe@ == views[lane as int]);
            let ghost so_far = out@;
            if off < stripe.len() {
                let end: usize = if stripe.len() - off <= len {
                    stripe.len()
                } else {
                    off + len
                };
                put_slice(&mut out, slice_subrange(stripe, off, end));
            }
            assert(out@ =~= so_far + block_at(views[lane as int], off as int, len as int));
            lane += 1;
            assert(out@ =~= before + round_of(views, off as int, len as int, lane as int));
        }
        assert(before + (round_of(views, off as int, len as int, stripes.len() as int) + gathered(
            views,
            off + len,
            len as int,
        )) =~= out@ + gathered(views, off + len, len as int));
        if longest - off <= len {
            assert(gathered(views, off + len, len as int) =~= Seq::empty());
            assert(gathered(views, longest as int, len as int) =~= Seq::empty());
            off = longest;
        } else {
            off = off + len;
        }
    }
    assert(out@ + gathered(views, off as int, len as int) =~= out@);
    Bytes::from(out)
}

} // verus!
