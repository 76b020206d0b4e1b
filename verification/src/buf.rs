//! The byte buffer the transport hands the codec: `bytes::BytesMut`,
//! declared opaquely and spoken of through the `buf_model` contents name.
//! Each wrapper relies on one function of the `bytes` crate.

use vstd::prelude::*;
use bytes::Buf;

verus! {

#[verifier::external_type_specification]
#[verifier::external_body]
pub struct ExBytesMut(bytes::BytesMut);

/// The bytes a `BytesMut` holds, in order.
pub uninterp spec fn buf_model(b: bytes::BytesMut) -> Seq<u8>;

/// Relies on `<BytesMut as AsRef<[u8]>>::as_ref`: the held bytes as a
/// slice, copied out here.
#[verifier::external_body]
pub fn buf_to_vec(b: &bytes::BytesMut) -> (r: Vec<u8>)
    ensures
        r@ == buf_model(*b),
{
    b.as_ref().to_vec()
}

/// Relies on `<BytesMut as bytes::Buf>::advance`: discards the first `n`
/// bytes. It panics past the end, so `n` is bounded here.
#[verifier::external_body]
pub fn buf_advance(b: &mut bytes::BytesMut, n: usize)
    requires
        n <= buf_model(*old(b)).len(),
    ensures
        buf_model(*final(b)) == buf_model(*old(b)).skip(n as int),
{
    b.advance(n);
}

/// Relies on `bytes::BytesMut::extend_from_slice`: appends the slice.
#[verifier::external_body]
pub fn buf_extend(b: &mut bytes::BytesMut, s: &[u8])
    ensures
        buf_model(*final(b)) == buf_model(*old(b)) + s@,
{
    b.extend_from_slice(s);
}

} // verus!
