//! Byte buffers of the `bytes` crate, as far as the engine reads and fills them.

use vstd::prelude::*;
use bytes::{Bytes, BytesMut, BufMut, Buf};

verus! {

/// `bytes::Bytes`, a cheaply cloned run of bytes that cannot be changed. Nothing is
/// known of a value but what [`bytes_seq`] names.
#[verifier::external_type_specification]
#[verifier::external_body]
pub struct ExBytes(bytes::Bytes);

/// `bytes::BytesMut`, a run of bytes that can grow at its end and shrink at its start.
/// Nothing is known of a value but what [`buf_seq`] names.
#[verifier::external_type_specification]
#[verifier::external_body]
pub struct ExBytesMut(bytes::BytesMut);

/// The bytes that a `Bytes` holds, in order: what its `Deref` to a slice shows.
pub uninterp spec fn bytes_seq(b: Bytes) -> Seq<u8>;

/// The bytes that a `BytesMut` holds, in order: what its `Deref` to a slice shows.
pub uninterp spec fn buf_seq(b: BytesMut) -> Seq<u8>;

/// `Bytes::copy_from_slice`: a new buffer holding a copy of the slice.
#[verifier::external_body]
pub(crate) fn bytes_from_slice(data: &[u8]) -> (out: Bytes)
    ensures
        bytes_seq(out) == data@,
{
    Bytes::copy_from_slice(data)
}

/// `Deref` of `Bytes`: the buffer's contents as a slice.
#[verifier::external_body]
pub(crate) fn bytes_as_slice(b: &Bytes) -> (out: &[u8])
    ensures
        out@ == bytes_seq(*b),
{
    &b[..]
}

/// `Deref` of `BytesMut`: the buffer's contents as a slice.
#[verifier::external_body]
pub(crate) fn buf_as_slice(b: &BytesMut) -> (out: &[u8])
    ensures
        out@ == buf_seq(*b),
{
    &b[..]
}

/// `Buf::advance` of `BytesMut`: drops the first `cnt` bytes. It panics where the buffer
/// holds fewer, which the caller has to rule out.
#[verifier::external_body]
pub(crate) fn buf_advance(b: &mut BytesMut, cnt: usize)
    requires
        cnt <= buf_seq(*old(b)).len(),
    ensures
        buf_seq(*final(b)) == buf_seq(*old(b)).skip(cnt as int),
{
    b.advance(cnt)
}

/// `BufMut::put_slice` of `BytesMut`: appends the slice. It panics where the new length
/// is more than a buffer can have, which the caller has to rule out.
#[verifier::external_body]
pub(crate) fn buf_put_slice(b: &mut BytesMut, src: &[u8])
    requires
        buf_seq(*old(b)).len() + src@.len() <= isize::MAX,
    ensures
        buf_seq(*final(b)) == buf_seq(*old(b)) + src@,
{
    b.put_slice(src)
}

/// `BufMut::put_u8` of `BytesMut`: appends one byte, as `put_slice` appends a slice of
/// one.
#[verifier::external_body]
pub(crate) fn buf_put_u8(b: &mut BytesMut, byte: u8)
    requires
        buf_seq(*old(b)).len() + 1 <= isize::MAX,
    ensures
        buf_seq(*final(b)) == buf_seq(*old(b)).push(byte),
{
    b.put_u8(byte)
}

/// `BytesMut::clear`: empties the buffer.
#[verifier::external_body]
pub(crate) fn buf_clear(b: &mut BytesMut)
    ensures
        buf_seq(*final(b)) == Seq::<u8>::empty(),
{
    b.clear()
}

/// `Clone` of `Bytes`: a second handle on the same bytes.
pub assume_specification[ <bytes::Bytes as Clone>::clone ](b: &Bytes) -> (out: Bytes)
    ensures
        bytes_seq(out) == bytes_seq(*b),
;

} // verus!
