use bytes::{Buf, BytesMut};
use vstd::prelude::*;

verus! {

/// `bytes::BytesMut`, a growable buffer of bytes. What it holds is known
/// only through [`buffered`].
#[verifier::external_type_specification]
#[verifier::external_body]
pub struct ExBytesMut(BytesMut);

/// The bytes that a buffer holds, from the first to the last: what
/// `BytesMut` hands out as a slice.
pub uninterp spec fn buffered(buffer: BytesMut) -> Seq<u8>;

/// `BytesMut::with_capacity`: a buffer that holds no byte, whatever room it
/// was made with.
#[verifier::external_body]
pub(crate) fn buffer_with_capacity(capacity: usize) -> (buffer: BytesMut)
    requires
        capacity <= isize::MAX,
    ensures
        buffered(buffer) == Seq::<u8>::empty(),
{
    BytesMut::with_capacity(capacity)
}

/// `BytesMut::is_empty`: whether the buffer holds no byte.
#[verifier::external_body]
pub(crate) fn buffer_is_empty(buffer: &BytesMut) -> (empty: bool)
    ensures
        empty == (buffered(*buffer).len() == 0),
{
    buffer.is_empty()
}

/// `BytesMut::len`: the number of bytes that the buffer holds.
#[verifier::external_body]
pub(crate) fn buffer_len(buffer: &BytesMut) -> (len: usize)
    ensures
        len == buffered(*buffer).len(),
{
    buffer.len()
}

/// `BytesMut::extend_from_slice`: the bytes of `extend` come behind those
/// that the buffer holds.
#[verifier::external_body]
pub(crate) fn buffer_extend_from_slice(buffer: &mut BytesMut, extend: &[u8])
    requires
        buffered(*old(buffer)).len() + extend@.len() <= isize::MAX,
    ensures
        buffered(*final(buffer)) == buffered(*old(buffer)) + extend@,
{
    buffer.extend_from_slice(extend)
}

/// `AsRef<[u8]>::as_ref` of `BytesMut`: the bytes that the buffer holds, as
/// a slice.
#[verifier::external_body]
pub(crate) fn buffer_as_ref(buffer: &BytesMut) -> (bytes: &[u8])
    ensures
        bytes@ == buffered(*buffer),
{
    buffer.as_ref()
}

/// `Buf::advance` of `BytesMut`: the first `cnt` bytes leave the buffer,
/// the others stay as they are.
#[verifier::external_body]
pub(crate) fn buffer_advance(buffer: &mut BytesMut, cnt: usize)
    requires
        cnt <= buffered(*old(buffer)).len(),
    ensures
        buffered(*final(buffer)) == buffered(*old(buffer)).skip(cnt as int),
{
    buffer.advance(cnt)
}

} // verus!
