//! The connection buffer type of the `bytes` crate, declared for the
//! verifier, with the two operations the decoders perform on it: reading
//! its contents as a slice and dropping consumed bytes from the front.
use vstd::prelude::*;

verus! {

#[verifier::external_type_specification]
#[verifier::external_body]
pub struct ExBytesMut(bytes::BytesMut);

/// The bytes a `BytesMut` holds, front to back.
pub uninterp spec fn bytes_view(b: bytes::BytesMut) -> Seq<u8>;

/// Relies on `BytesMut`'s deref to a byte slice: the slice is the whole
/// contents of the buffer.
#[verifier::external_body]
pub(crate) fn buf_bytes(b: &bytes::BytesMut) -> (r: &[u8])
    ensures
        r@ == bytes_view(*b),
{
    &b[..]
}

/// Relies on `bytes::Buf::advance`: the first `n` bytes leave the front of
/// the buffer.  Advancing past the end panics, so it is ruled out here.
#[verifier::external_body]
pub(crate) fn buf_advance(b: &mut bytes::BytesMut, n: usize)
    requires
        n <= bytes_view(*old(b)).len(),
    ensures
        bytes_view(*final(b)) == bytes_view(*old(b)).skip(n as int),
{
    bytes::Buf::advance(b, n);
}

} // verus!
