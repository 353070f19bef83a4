//! The growable byte buffer of the `bytes` crate, `bytes::BytesMut`, as the
//! rest of the library sees it: a sequence of bytes, changed only through the
//! wrappers below. Their contracts restate what the `bytes` source does.

use vstd::prelude::*;

verus! {

#[verifier::external_type_specification]
#[verifier::external_body]
pub struct ExBytesMut(bytes::BytesMut);

/// The bytes that a `BytesMut` holds, front first.
pub uninterp spec fn buffer_contents(b: bytes::BytesMut) -> Seq<u8>;

/// `BytesMut::with_capacity`: an empty buffer. It allocates through
/// `Vec::with_capacity`, which panics when the capacity exceeds `isize::MAX`.
#[verifier::external_body]
pub(crate) fn buffer_with_capacity(cap: usize) -> (b: bytes::BytesMut)
    requires
        cap <= isize::MAX,
    ensures
        buffer_contents(b) == Seq::<u8>::empty(),
{
    bytes::BytesMut::with_capacity(cap)
}

/// `BufMut::put_u8` on a `BytesMut`: appends one byte. It panics only when the
/// buffer already holds `isize::MAX` bytes (its `remaining_mut` is then 0).
#[verifier::external_body]
pub(crate) fn buffer_put_u8(b: &mut bytes::BytesMut, byte: u8)
    requires
        buffer_contents(*old(b)).len() < isize::MAX,
    ensures
        buffer_contents(*final(b)) == buffer_contents(*old(b)).push(byte),
{
    bytes::BufMut::put_u8(b, byte)
}

/// `BytesMut::extend_from_slice`: appends the bytes of `extra`. Its `reserve`
/// panics when the new length would exceed `isize::MAX`.
#[verifier::external_body]
pub(crate) fn buffer_extend(b: &mut bytes::BytesMut, extra: &[u8])
    requires
        buffer_contents(*old(b)).len() + extra@.len() <= isize::MAX,
    ensures
        buffer_contents(*final(b)) == buffer_contents(*old(b)) + extra@,
{
    b.extend_from_slice(extra)
}

/// `BytesMut::split_to`: removes the first `at` bytes and hands them back
/// (copied into a `Vec`). It panics when `at` exceeds the length.
#[verifier::external_body]
pub(crate) fn buffer_split_to(b: &mut bytes::BytesMut, at: usize) -> (front: Vec<u8>)
    requires
        at <= buffer_contents(*old(b)).len(),
    ensures
        front@ == buffer_contents(*old(b)).take(at as int),
        buffer_contents(*final(b)) == buffer_contents(*old(b)).skip(at as int),
{
    b.split_to(at).to_vec()
}

/// `BytesMut::clear`: the buffer becomes empty.
#[verifier::external_body]
pub(crate) fn buffer_clear(b: &mut bytes::BytesMut)
    ensures
        buffer_contents(*final(b)) == Seq::<u8>::empty(),
{
    b.clear()
}

/// `AsRef<[u8]>` of a `BytesMut`: its bytes as a slice.
#[verifier::external_body]
pub(crate) fn buffer_as_slice(b: &bytes::BytesMut) -> (s: &[u8])
    ensures
        s@ == buffer_contents(*b),
{
    b.as_ref()
}

} // verus!
