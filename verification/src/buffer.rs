//! The byte buffer that carries payloads and trailers.
//!
//! Payloads and trailers are held as `bytes::Bytes`, so that a decoded frame
//! can share the buffer it was decoded from. This module tells the verifier
//! what the operations on such a buffer do to the bytes it holds.

use std::ops::Deref;
use vstd::prelude::*;

verus! {

/// `bytes::Bytes`: a buffer of bytes whose clones and slices share their
/// storage. What it holds is known only through `bytes_view`.
#[verifier::external_type_specification]
#[verifier::external_body]
pub struct ExBytes(bytes::Bytes);

/// The bytes that a buffer holds, in order.
pub uninterp spec fn bytes_view(b: bytes::Bytes) -> Seq<u8>;

/// `Bytes::new`: the new buffer holds no bytes.
pub assume_specification[ bytes::Bytes::new ]() -> (r: bytes::Bytes)
    ensures
        bytes_view(r) == Seq::<u8>::empty(),
;

/// `Bytes::len`: the number of bytes held.
pub assume_specification[ bytes::Bytes::len ](b: &bytes::Bytes) -> (n: usize)
    ensures
        n == bytes_view(*b).len(),
;

/// `Bytes::copy_from_slice`: the new buffer holds a copy of the slice.
pub assume_specification[ bytes::Bytes::copy_from_slice ](data: &[u8]) -> (r: bytes::Bytes)
    ensures
        bytes_view(r) == data@,
;

/// `Clone` for `Bytes`: the clone holds the same bytes.
pub assume_specification[ <bytes::Bytes as Clone>::clone ](b: &bytes::Bytes) -> (r: bytes::Bytes)
    ensures
        bytes_view(r) == bytes_view(*b),
;

/// `Deref` for `Bytes`: the slice is the bytes held.
pub assume_specification<'a>[ <bytes::Bytes as core::ops::Deref>::deref ](b: &'a bytes::Bytes) -> (r: &'a [u8])
    ensures
        r@ == bytes_view(*b),
;

/// `From<Vec<u8>>` for `Bytes`: the buffer takes over the vector's bytes.
pub assume_specification[ <bytes::Bytes as From<Vec<u8>>>::from ](v: Vec<u8>) -> (r: bytes::Bytes)
    ensures
        bytes_view(r) == v@,
;

/// `Bytes::slice` on the range `start..end`: the part of the buffer from
/// `start` up to `end`, sharing its storage. The range must lie inside the
/// buffer.
#[verifier::external_body]
pub(crate) fn bytes_slice(b: &bytes::Bytes, start: usize, end: usize) -> (r: bytes::Bytes)
    requires
        start <= end <= bytes_view(*b).len(),
    ensures
        bytes_view(r) == bytes_view(*b).subrange(start as int, end as int),
{
    b.slice(start..end)
}

} // verus!
