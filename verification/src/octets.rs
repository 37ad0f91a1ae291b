//! The byte containers of the `bytes` crate, as this library sees them.
//!
//! A `Bytes` handle and a `BytesMut` buffer are opaque to the verifier. What each
//! holds is named by a specification function, and every call into the crate goes
//! through one of the declarations below, whose contract is taken on trust.

use bytes::{Buf, BufMut, Bytes, BytesMut};
use vstd::prelude::*;

verus! {

/// `bytes::Bytes`: a handle to bytes that do not change.
#[verifier::external_type_specification]
#[verifier::external_body]
pub struct ExBytes(Bytes);

/// `bytes::BytesMut`: a buffer of bytes that grows at its end and is consumed at
/// its start.
#[verifier::external_type_specification]
#[verifier::external_body]
pub struct ExBytesMut(BytesMut);

/// The bytes that a `Bytes` handle holds, in order.
pub uninterp spec fn contents(b: Bytes) -> Seq<u8>;

/// The bytes that a `BytesMut` buffer holds, in order.
pub uninterp spec fn pending(b: BytesMut) -> Seq<u8>;

/// `Bytes::copy_from_slice`: a new handle that holds a copy of `data`.
#[verifier::external_body]
pub(crate) fn bytes_from_slice(data: &[u8]) -> (b: Bytes)
    ensures
        contents(b) == data@,
{
    Bytes::copy_from_slice(data)
}

/// `Deref` of `Bytes`: the bytes that the handle holds, as a slice.
#[verifier::external_body]
pub(crate) fn bytes_as_slice(b: &Bytes) -> (s: &[u8])
    ensures
        s@ == contents(*b),
{
    b
}

/// `Clone` of `Bytes`: a second handle to the same bytes.
pub assume_specification[ <Bytes as Clone>::clone ](b: &Bytes) -> (r: Bytes)
    ensures
        contents(r) == contents(*b),
;

/// `BytesMut::new`: an empty buffer.
#[verifier::external_body]
pub(crate) fn buffer_new() -> (b: BytesMut)
    ensures
        pending(b) == Seq::<u8>::empty(),
{
    BytesMut::new()
}

/// `BytesMut::len`: the number of bytes in the buffer.
#[verifier::external_body]
pub(crate) fn buffer_len(b: &BytesMut) -> (n: usize)
    ensures
        n == pending(*b).len(),
{
    b.len()
}

/// `Deref` of `BytesMut`: the bytes in the buffer, as a slice.
#[verifier::external_body]
pub(crate) fn buffer_as_slice(b: &BytesMut) -> (s: &[u8])
    ensures
        s@ == pending(*b),
{
    b
}

/// `BytesMut::extend_from_slice`: appends `extend` to the buffer.
#[verifier::external_body]
pub(crate) fn buffer_extend(b: &mut BytesMut, extend: &[u8])
    ensures
        pending(*final(b)) == pending(*old(b)) + extend@,
{
    b.extend_from_slice(extend)
}

/// `BufMut::put_u8`: appends one byte to the buffer.
#[verifier::external_body]
pub(crate) fn buffer_put(b: &mut BytesMut, byte: u8)
    ensures
        pending(*final(b)) == pending(*old(b)).push(byte),
{
    b.put_u8(byte)
}

/// `Buf::advance`: drops the first `count` bytes of the buffer. It panics when the
/// buffer holds fewer.
#[verifier::external_body]
pub(crate) fn buffer_advance(b: &mut BytesMut, count: usize)
    requires
        count <= pending(*old(b)).len(),
    ensures
        pending(*final(b)) == pending(*old(b)).skip(count as int),
{
    b.advance(count)
}

/// `BytesMut::split`: hands out all the bytes of the buffer and leaves it empty.
#[verifier::external_body]
pub(crate) fn buffer_split(b: &mut BytesMut) -> (taken: BytesMut)
    ensures
        pending(taken) == pending(*old(b)),
        pending(*final(b)) == Seq::<u8>::empty(),
{
    b.split()
}

/// `BytesMut::freeze`: the same bytes behind an immutable handle.
#[verifier::external_body]
pub(crate) fn buffer_freeze(b: BytesMut) -> (frozen: Bytes)
    ensures
        contents(frozen) == pending(b),
{
    b.freeze()
}

/// `BytesMut::clear`: removes all the bytes of the buffer.
#[verifier::external_body]
pub(crate) fn buffer_clear(b: &mut BytesMut)
    ensures
        pending(*final(b)) == Seq::<u8>::empty(),
{
    b.clear()
}

} // verus!
