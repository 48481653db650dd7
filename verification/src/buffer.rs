//! The decoder reads from a `bytes::BytesMut`, the growable byte buffer its
//! callers fill from the network. The buffer type is opaque here: its
//! buffered contents are named by [`bytes_model`], and the two operations the
//! decoder needs stand behind trusted wrappers.

use vstd::prelude::*;

verus! {

#[verifier::external_type_specification]
#[verifier::external_body]
pub struct ExBytesMut(bytes::BytesMut);

/// The bytes a `BytesMut` currently buffers, front first.
pub uninterp spec fn bytes_model(b: bytes::BytesMut) -> Seq<u8>;

/// Relies on `BytesMut::as_ref`, which returns the whole buffered contents as
/// a byte slice; `to_vec` only copies that slice.
#[verifier::external_body]
pub(crate) fn buffered_bytes(b: &bytes::BytesMut) -> (v: Vec<u8>)
    ensures
        v@ == bytes_model(*b),
{
    b.as_ref().to_vec()
}

/// Relies on `bytes::Buf::advance` for `BytesMut`, which drops the first `n`
/// buffered bytes and panics when `n` exceeds the buffered length; the
/// precondition rules the panic out.
#[verifier::external_body]
pub(crate) fn consume_front(b: &mut bytes::BytesMut, n: usize)
    requires
        n <= bytes_model(*old(b)).len(),
    ensures
        bytes_model(*final(b)) == bytes_model(*old(b)).skip(n as int),
{
    bytes::Buf::advance(b, n)
}

} // verus!
