//! The receive buffer, kept in a `bytes::BytesMut`.
//!
//! Verus does not look inside a `BytesMut`. What it holds has a name,
//! [`buffered`], and each method that the library calls is stated over that
//! name, as the source of the `bytes` crate shows it.

use vstd::prelude::*;
use bytes::{Buf, BytesMut};

verus! {

#[verifier::external_type_specification]
#[verifier::external_body]
pub struct ExBytesMut(BytesMut);

/// The bytes that a buffer holds, first to last.
pub uninterp spec fn buffered(buffer: BytesMut) -> Seq<u8>;

/// `BytesMut::with_capacity`: a buffer that holds no bytes. The capacity is
/// passed on to `Vec::with_capacity`, which takes no more than `isize::MAX`.
#[verifier::external_body]
pub(crate) fn buffer_with_capacity(capacity: usize) -> (buffer: BytesMut)
    requires
        capacity <= isize::MAX,
    ensures
        buffered(buffer) == Seq::<u8>::empty(),
{
    BytesMut::with_capacity(capacity)
}

/// `BytesMut::len`: the number of bytes held.
#[verifier::external_body]
pub(crate) fn buffer_len(buffer: &BytesMut) -> (n: usize)
    ensures
        n == buffered(*buffer).len(),
{
    buffer.len()
}

/// `BytesMut::is_empty`: whether no byte is held.
#[verifier::external_body]
pub(crate) fn buffer_is_empty(buffer: &BytesMut) -> (r: bool)
    ensures
        r == (buffered(*buffer).len() == 0),
{
    buffer.is_empty()
}

/// `Deref` of `BytesMut`: the bytes held, as a slice.
#[verifier::external_body]
pub(crate) fn buffer_bytes(buffer: &BytesMut) -> (bytes: &[u8])
    ensures
        bytes@ == buffered(*buffer),
{
    &buffer[..]
}

/// `BytesMut::extend_from_slice`: the bytes of `data` are added at the end.
/// It reserves room first, through `Vec::reserve`, which panics where the
/// new length is beyond `isize::MAX`. As with `Vec`, memory that runs out
/// before that is not modelled.
#[verifier::external_body]
pub(crate) fn buffer_extend(buffer: &mut BytesMut, data: &[u8])
    requires
        buffered(*old(buffer)).len() + data@.len() <= isize::MAX,
    ensures
        buffered(*final(buffer)) == buffered(*old(buffer)) + data@,
{
    buffer.extend_from_slice(data)
}

/// `Buf::advance` of `BytesMut`: the first `count` bytes are dropped. It
/// panics where `count` is more than the buffer holds.
#[verifier::external_body]
pub(crate) fn buffer_advance(buffer: &mut BytesMut, count: usize)
    requires
        count <= buffered(*old(buffer)).len(),
    ensures
        buffered(*final(buffer)) == buffered(*old(buffer)).skip(count as int),
{
    buffer.advance(count)
}

} // verus!
