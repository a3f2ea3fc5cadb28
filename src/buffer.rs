use vstd::prelude::*;

verus! {

/// The growable byte buffer of the `bytes` crate.
#[verifier::external_type_specification]
#[verifier::external_body]
pub struct ExBytesMut(bytes::BytesMut);

/// The bytes that a buffer holds, in order.
pub uninterp spec fn buffered(b: bytes::BytesMut) -> Seq<u8>;

/// Relies on bytes::BytesMut::with_capacity: a new buffer holds no bytes.
pub assume_specification[ bytes::BytesMut::with_capacity ](capacity: usize) -> (r: bytes::BytesMut)
    ensures
        buffered(r) == Seq::<u8>::empty(),
;

/// Relies on bytes::BytesMut::extend_from_slice: the slice is appended; the
/// call panics when the new length overflows, which `requires` rules out.
pub assume_specification[ bytes::BytesMut::extend_from_slice ](
    b: &mut bytes::BytesMut,
    extend: &[u8],
)
    requires
        buffered(*old(b)).len() + extend@.len() <= isize::MAX,
    ensures
        buffered(*final(b)) == buffered(*old(b)) + extend@,
;

/// Relies on `AsRef<[u8]>` for bytes::BytesMut: a view of the bytes held.
#[verifier::external_body]
pub(crate) fn contents(b: &bytes::BytesMut) -> (r: &[u8])
    ensures
        r@ == buffered(*b),
{
    b.as_ref()
}

/// Relies on bytes::Buf::advance for bytes::BytesMut: the first `count` bytes
/// leave the buffer; it panics past the end, which `requires` rules out.
#[verifier::external_body]
pub(crate) fn discard_front(b: &mut bytes::BytesMut, count: usize)
    requires
        count <= buffered(*old(b)).len(),
    ensures
        buffered(*final(b)) == buffered(*old(b)).skip(count as int),
{
    bytes::Buf::advance(b, count)
}

} // verus!
