//! The connection's receive buffer, a `bytes::BytesMut`, seen as a sequence
//! of bytes.
use vstd::prelude::*;

verus! {

#[verifier::external_type_specification]
#[verifier::external_body]
pub struct ExBytesMut(bytes::BytesMut);

/// The bytes that a buffer holds, first to last.
pub uninterp spec fn buffered(b: bytes::BytesMut) -> Seq<u8>;

/// Relies on `<BytesMut as Deref>::deref`: the slice of the bytes held.
#[verifier::external_body]
pub(crate) fn buffer_bytes(b: &bytes::BytesMut) -> (r: &[u8])
    ensures
        r@ == buffered(*b),
{
    b
}

/// Relies on `<BytesMut as Buf>::advance`: drops the first `n` bytes, which
/// panics past the end, hence the bound.
#[verifier::external_body]
pub(crate) fn buffer_consume(b: &mut bytes::BytesMut, n: usize)
    requires
        n <= buffered(*old(b)).len(),
    ensures
        buffered(*final(b)) == buffered(*old(b)).subrange(n as int, buffered(*old(b)).len() as int),
{
    bytes::Buf::advance(b, n)
}

} // verus!
