//! The byte buffers of a connection: `bytes::BytesMut`, seen as the sequence
//! of bytes it holds.
use vstd::prelude::*;

verus! {

/// `bytes::BytesMut`, a growable byte buffer that can be consumed from the
/// front.
#[verifier::external_type_specification]
#[verifier::external_body]
pub struct ExBytesMut(bytes::BytesMut);

/// The bytes that a buffer holds, in order.
pub uninterp spec fn buffer_bytes(b: bytes::BytesMut) -> Seq<u8>;

/// `BytesMut::with_capacity`: a buffer that holds no bytes.  It panics, as
/// `Vec::with_capacity` does, for a capacity over `isize::MAX`.
#[verifier::external_body]
pub(crate) fn new_buffer(capacity: usize) -> (b: bytes::BytesMut)
    requires
        capacity <= isize::MAX,
    ensures
        buffer_bytes(b) == Seq::<u8>::empty(),
{
    bytes::BytesMut::with_capacity(capacity)
}

/// `BytesMut::extend_from_slice`: the bytes are appended after those held.
/// Like `Vec::push` in vstd, the panic or abort when memory for the grown
/// buffer cannot be had is left out of this contract.
#[verifier::external_body]
pub(crate) fn buffer_extend(b: &mut bytes::BytesMut, data: &[u8])
    ensures
        buffer_bytes(*final(b)) == buffer_bytes(*old(b)) + data@,
{
    b.extend_from_slice(data)
}

/// `Buf::advance` on a `BytesMut`: the first `n` bytes are dropped.  It
/// panics when fewer than `n` bytes are held.
#[verifier::external_body]
pub(crate) fn buffer_advance(b: &mut bytes::BytesMut, n: usize)
    requires
        n <= buffer_bytes(*old(b)).len(),
    ensures
        buffer_bytes(*final(b)) == buffer_bytes(*old(b)).skip(n as int),
{
    bytes::Buf::advance(b, n)
}

/// `AsRef<[u8]>` on a `BytesMut`: the bytes it holds, as a slice.
#[verifier::external_body]
pub(crate) fn buffer_slice(b: &bytes::BytesMut) -> (r: &[u8])
    ensures
        r@ == buffer_bytes(*b),
{
    AsRef::<[u8]>::as_ref(b)
}

} // verus!
