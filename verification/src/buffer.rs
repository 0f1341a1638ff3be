//! The growable byte buffer that the transport fills and the codec drains.
//!
//! The buffer is `bytes::BytesMut`. Nothing here is proved: each item states
//! what the `bytes` crate does, over the sequence of bytes the buffer holds.

use bytes::{Buf, BufMut, BytesMut};
use vstd::prelude::*;

verus! {

#[verifier::external_type_specification]
#[verifier::external_body]
pub struct ExBytesMut(BytesMut);

/// The bytes that a buffer holds, first to last: what `BytesMut` dereferences to.
pub uninterp spec fn buffered(b: BytesMut) -> Seq<u8>;

/// `BytesMut::len`: the number of bytes held.
pub assume_specification[ BytesMut::len ](b: &BytesMut) -> (n: usize)
    ensures
        n == buffered(*b).len(),
;

/// `<BytesMut as Deref>::deref`: the bytes held, as a slice.
pub assume_specification<'a>[ <BytesMut as core::ops::Deref>::deref ](b: &'a BytesMut) -> (s: &'a [u8])
    ensures
        s@ == buffered(*b),
;

/// `<BytesMut as Buf>::advance`: drops the first `cnt` bytes and keeps the
/// rest. It panics when asked to drop more than the buffer holds.
pub assume_specification[ <BytesMut as Buf>::advance ](b: &mut BytesMut, cnt: usize)
    requires
        cnt <= buffered(*old(b)).len(),
    ensures
        buffered(*final(b)) == buffered(*old(b)).skip(cnt as int),
;

/// `BytesMut::reserve`: makes room for `additional` more bytes; the bytes held
/// stay as they are. It panics when the new capacity does not fit.
pub assume_specification[ BytesMut::reserve ](b: &mut BytesMut, additional: usize)
    requires
        buffered(*old(b)).len() + additional <= isize::MAX,
    ensures
        buffered(*final(b)) == buffered(*old(b)),
;

/// `BytesMut::extend_from_slice`: appends the slice's bytes. It reserves
/// first, so it panics where `reserve` does.
pub assume_specification[ BytesMut::extend_from_slice ](b: &mut BytesMut, extend: &[u8])
    requires
        buffered(*old(b)).len() + extend@.len() <= isize::MAX,
    ensures
        buffered(*final(b)) == buffered(*old(b)) + extend@,
;

/// `<BytesMut as BufMut>::put_u8`: appends one byte. It goes through
/// `extend_from_slice`, so it panics where `reserve` does.
#[verifier::external_body]
pub(crate) fn put_byte(b: &mut BytesMut, n: u8)
    requires
        buffered(*old(b)).len() + 1 <= isize::MAX,
    ensures
        buffered(*final(b)) == buffered(*old(b)).push(n),
{
    b.put_u8(n);
}

} // verus!
