//! Shared byte buffers of the `bytes` crate, seen as sequences of bytes.
use bytes::{Bytes, BytesMut};
use vstd::prelude::*;

verus! {

/// `bytes::Bytes`, a reference-counted view of immutable bytes.
#[verifier::external_type_specification]
#[verifier::external_body]
pub struct ExBytes(Bytes);

/// `bytes::BytesMut`, a growable buffer of bytes.
#[verifier::external_type_specification]
#[verifier::external_body]
pub struct ExBytesMut(BytesMut);

/// The bytes that a `Bytes` holds.
pub uninterp spec fn content(b: Bytes) -> Seq<u8>;

/// The bytes written to a `BytesMut` so far.
pub uninterp spec fn written(b: BytesMut) -> Seq<u8>;

/// `Bytes::deref` gives the bytes held.
#[verifier::external_body]
pub(crate) fn as_slice(b: &Bytes) -> (r: &[u8])
    ensures
        r@ == content(*b),
{
    b
}

/// `Bytes::slice` gives the bytes from `start` up to `end`, without copying.
#[verifier::external_body]
pub(crate) fn slice(b: &Bytes, start: usize, end: usize) -> (r: Bytes)
    requires
        start <= end <= content(*b).len(),
    ensures
        content(r) == content(*b).subrange(start as int, end as int),
{
    b.slice(start..end)
}

/// `Bytes::clone` holds the same bytes, without copying.
#[verifier::external_body]
pub(crate) fn share(b: &Bytes) -> (r: Bytes)
    ensures
        content(r) == content(*b),
{
    b.clone()
}

/// `Bytes::from` a `String` holds the UTF-8 bytes of the text.
#[verifier::external_body]
pub(crate) fn from_text(s: String) -> (r: Bytes)
    ensures
        content(r) == vstd::utf8::encode_utf8(s@),
{
    Bytes::from(s)
}

/// `BytesMut::with_capacity` starts empty. The capacity may not exceed
/// `isize::MAX`, past which the allocation panics.
#[verifier::external_body]
pub(crate) fn buffer(capacity: usize) -> (r: BytesMut)
    requires
        capacity <= isize::MAX,
    ensures
        written(r) == Seq::<u8>::empty(),
{
    BytesMut::with_capacity(capacity)
}

/// `BytesMut::extend_from_slice` appends bytes. A buffer that has to grow at most
/// doubles, so that up to half of `isize::MAX` bytes no growth panics.
#[verifier::external_body]
pub(crate) fn extend(b: &mut BytesMut, more: &[u8])
    requires
        written(*old(b)).len() + more@.len() <= isize::MAX / 2,
    ensures
        written(*final(b)) == written(*old(b)) + more@,
{
    b.extend_from_slice(more)
}

/// `BytesMut::freeze` holds the bytes that were written.
#[verifier::external_body]
pub(crate) fn freeze(b: BytesMut) -> (r: Bytes)
    ensures
        content(r) == written(b),
{
    b.freeze()
}

} // verus!
