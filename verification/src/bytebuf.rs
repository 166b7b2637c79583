//! The accumulation buffer, a `bytes::BytesMut` owned by the transport
//! driver. Its contents are modeled as a sequence of bytes; the few buffer
//! operations the codec performs are trusted wrappers around the crate's own
//! methods.

use vstd::prelude::*;

verus! {

#[verifier::external_type_specification]
#[verifier::external_body]
pub struct ExBytesMut(bytes::BytesMut);

/// The bytes a `bytes::BytesMut` currently holds, front to back.
pub uninterp spec fn bytes_view(b: bytes::BytesMut) -> Seq<u8>;

/// Relies on `bytes::BytesMut`'s `Deref` to `[u8]` and `slice::to_vec`: the
/// returned vector holds exactly the buffered bytes.
#[verifier::external_body]
pub fn buf_to_vec(b: &bytes::BytesMut) -> (r: Vec<u8>)
    ensures
        r@ == bytes_view(*b),
{
    b[..].to_vec()
}

/// Relies on `bytes::Buf::advance` for `BytesMut`: the first `cnt` buffered
/// bytes are discarded from the front. The method panics when `cnt` exceeds
/// the buffer's length, so that case is excluded here.
#[verifier::external_body]
pub fn buf_advance(b: &mut bytes::BytesMut, cnt: usize)
    requires
        cnt <= bytes_view(*old(b)).len(),
    ensures
        bytes_view(*final(b)) == bytes_view(*old(b)).skip(cnt as int),
{
    bytes::Buf::advance(b, cnt)
}

/// Relies on `bytes::BytesMut::extend_from_slice`: the slice's bytes are
/// appended at the back of the buffer.
#[verifier::external_body]
pub fn buf_extend(b: &mut bytes::BytesMut, item: &[u8])
    ensures
        bytes_view(*final(b)) == bytes_view(*old(b)) + item@,
{
    b.extend_from_slice(item)
}

} // verus!
