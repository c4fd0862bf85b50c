//! The byte buffer of a connection: `bytes::BytesMut`, with what the crate's
//! source shows of the few operations the decoder and the reactor use.

use bytes::Buf;
use bytes::BytesMut;
use vstd::prelude::*;

verus! {

/// `bytes::BytesMut`, a growable buffer of bytes. Nothing of its inside is
/// known here; what it holds is spoken of through `buffer_bytes`.
#[verifier::external_type_specification]
#[verifier::external_body]
pub struct ExBytesMut(BytesMut);

/// The bytes that a buffer holds, first to last.
pub uninterp spec fn buffer_bytes(buf: BytesMut) -> Seq<u8>;

/// `BytesMut::new`: a buffer that holds no bytes.
#[verifier::external_body]
pub(crate) fn buffer_new() -> (buf: BytesMut)
    ensures
        buffer_bytes(buf) == Seq::<u8>::empty(),
{
    BytesMut::new()
}

/// `BytesMut::len`: the number of bytes held.
#[verifier::external_body]
pub(crate) fn buffer_len(buf: &BytesMut) -> (n: usize)
    ensures
        n == buffer_bytes(*buf).len(),
{
    buf.len()
}

/// `Deref::deref` of `BytesMut`: the held bytes as a slice.
#[verifier::external_body]
pub(crate) fn buffer_slice(buf: &BytesMut) -> (s: &[u8])
    ensures
        s@ == buffer_bytes(*buf),
{
    &buf[..]
}

/// `Buf::advance` of `BytesMut`: drops the first `n` held bytes and keeps the
/// rest. The call panics when `n` exceeds the length, which `requires`
/// leaves out.
#[verifier::external_body]
pub(crate) fn buffer_advance(buf: &mut BytesMut, n: usize)
    requires
        n <= buffer_bytes(*old(buf)).len(),
    ensures
        buffer_bytes(*final(buf)) == buffer_bytes(*old(buf)).skip(n as int),
{
    buf.advance(n)
}

/// `BytesMut::extend_from_slice`: appends the bytes of `data` behind those
/// held. The call panics where the new length overflows `usize`, which
/// `requires` leaves out. Like `Vec`, the buffer ends the process where
/// memory for its growth cannot be had.
#[verifier::external_body]
pub(crate) fn buffer_extend(buf: &mut BytesMut, data: &[u8])
    requires
        buffer_bytes(*old(buf)).len() + data@.len() <= usize::MAX,
    ensures
        buffer_bytes(*final(buf)) == buffer_bytes(*old(buf)) + data@,
{
    buf.extend_from_slice(data)
}

} // verus!
