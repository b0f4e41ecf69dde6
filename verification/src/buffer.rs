//! Growable byte buffers of the `bytes` crate.

use bytes::BytesMut;

use vstd::prelude::*;

verus! {

/// The growable buffer of the `bytes` crate.
#[verifier::external_type_specification]
#[verifier::external_body]
pub struct ExBytesMut(bytes::BytesMut);

/// The bytes that a buffer holds.
pub uninterp spec fn buffer_bytes(buffer: BytesMut) -> Seq<u8>;

/// Whether a buffer may grow to that many bytes. Growing may double the room
/// of a buffer, and no allocation may exceed `isize::MAX` bytes.
pub open spec fn may_hold(len: nat) -> bool {
    len <= isize::MAX / 2
}

/// [`BytesMut::with_capacity`] makes an empty buffer with room for that many
/// bytes; more room than an allocation may have is refused by a panic.
pub assume_specification[ bytes::BytesMut::with_capacity ](capacity: usize) -> (made: bytes::BytesMut)
    requires
        capacity <= isize::MAX,
    ensures
        buffer_bytes(made) == Seq::<u8>::empty(),
;

/// [`BytesMut::extend_from_slice`] appends the bytes, growing the buffer as
/// needed; growth beyond what an allocation may have is refused by a panic.
pub assume_specification[ bytes::BytesMut::extend_from_slice ](
    grown: &mut bytes::BytesMut,
    extend: &[u8],
)
    requires
        may_hold(buffer_bytes(*old(grown)).len() + extend@.len()),
    ensures
        buffer_bytes(*final(grown)) == buffer_bytes(*old(grown)) + extend@,
;

/// Calls `as_ref` of [`BytesMut`], which lends the bytes of the buffer.
#[verifier::external_body]
pub(crate) fn buffer_slice(buffer: &BytesMut) -> (slice: &[u8])
    ensures
        slice@ == buffer_bytes(*buffer),
{
    buffer.as_ref()
}

/// Calls `as_mut` of [`BytesMut`], which lends the bytes of the buffer for
/// overwriting in place.
#[verifier::external_body]
pub(crate) fn buffer_slice_mut(buffer: &mut BytesMut) -> (slice: &mut [u8])
    ensures
        slice@ == buffer_bytes(*old(buffer)),
        buffer_bytes(*final(buffer)) == final(slice)@,
{
    buffer.as_mut()
}

} // verus!
