//! What this library relies on from `bytes::BytesMut`, the growable byte
//! buffer that headers and chunks are assembled in.

use bytes::BytesMut;
use vstd::prelude::*;

verus! {

/// `bytes::BytesMut`. Nothing is known of a buffer but what the
/// statements below say of the bytes it holds.
#[verifier::external_type_specification]
#[verifier::external_body]
pub struct ExBytesMut(bytes::BytesMut);

/// The bytes that a buffer holds, first to last.
pub uninterp spec fn bytes_of(b: BytesMut) -> Seq<u8>;

/// `BytesMut::new` makes a buffer that holds nothing.
pub assume_specification[ bytes::BytesMut::new ]() -> (b: BytesMut)
    ensures
        bytes_of(b) == Seq::<u8>::empty(),
;

/// `BytesMut::from` copies a slice into a new buffer.
pub assume_specification<'a>[ <bytes::BytesMut as core::convert::From<&'a [u8]>>::from ](
    src: &'a [u8],
) -> (b: BytesMut)
    ensures
        bytes_of(b) == src@,
;

/// `BytesMut::len` is the number of bytes held.
pub assume_specification[ bytes::BytesMut::len ](b: &BytesMut) -> (n: usize)
    ensures
        n == bytes_of(*b).len(),
;

/// `BufMut::put_slice` on a `BytesMut` appends the slice.
pub assume_specification[ <bytes::BytesMut as bytes::BufMut>::put_slice ](
    b: &mut BytesMut,
    src: &[u8],
)
    ensures
        bytes_of(*final(b)) == bytes_of(*old(b)) + src@,
;

/// `BufMut::put_u8` on a `BytesMut` appends one byte.
#[verifier::external_body]
pub(crate) fn put_u8(b: &mut BytesMut, n: u8)
    ensures
        bytes_of(*final(b)) == bytes_of(*old(b)).push(n),
{
    bytes::BufMut::put_u8(b, n)
}

/// `BytesMut::resize` cuts the buffer to `new_len` bytes, or pads it with
/// `value` up to that length.
pub assume_specification[ bytes::BytesMut::resize ](b: &mut BytesMut, new_len: usize, value: u8)
    ensures
        bytes_of(*final(b)).len() == new_len,
        forall|i: int|
            0 <= i < new_len ==> #[trigger] bytes_of(*final(b))[i] == (if i < bytes_of(
                *old(b),
            ).len() {
                bytes_of(*old(b))[i]
            } else {
                value
            }),
;

/// `BytesMut::clear` drops every byte.
pub assume_specification[ bytes::BytesMut::clear ](b: &mut BytesMut)
    ensures
        bytes_of(*final(b)) == Seq::<u8>::empty(),
;

/// `Buf::advance` on a `BytesMut` drops the first `cnt` bytes; it panics when
/// fewer are held.
pub assume_specification[ <bytes::BytesMut as bytes::Buf>::advance ](b: &mut BytesMut, cnt: usize)
    requires
        cnt <= bytes_of(*old(b)).len(),
    ensures
        bytes_of(*final(b)) == bytes_of(*old(b)).skip(cnt as int),
;

/// Borrowing a `BytesMut` as a slice shows the bytes it holds.
pub assume_specification[ <bytes::BytesMut as core::ops::Deref>::deref ](b: &BytesMut) -> (s:
    &[u8])
    ensures
        s@ == bytes_of(*b),
;

/// Borrowing a `BytesMut` as a mutable slice shows the bytes it holds, and
/// what is written through the slice is what the buffer holds afterwards.
pub assume_specification[ <bytes::BytesMut as core::ops::DerefMut>::deref_mut ](
    b: &mut BytesMut,
) -> (s: &mut [u8])
    ensures
        s@ == bytes_of(*old(b)),
        final(s)@ == bytes_of(*final(b)),
;

} // verus!
