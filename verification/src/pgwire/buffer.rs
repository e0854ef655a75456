//! Buffers of bytes that are sent to a client.

use bytes::{BufMut, BytesMut};
use vstd::prelude::*;

use crate::byte_order;

verus! {

/// A growable buffer of bytes of the `bytes` crate.
#[verifier::external_type_specification]
#[verifier::external_body]
pub struct ExBytesMut(BytesMut);

/// The bytes that a buffer holds.
pub uninterp spec fn buffered(buf: BytesMut) -> Seq<u8>;

/// `BytesMut::clear`: the buffer holds no bytes any more.
#[verifier::external_body]
pub(crate) fn clear(buf: &mut BytesMut)
    ensures
        buffered(*final(buf)) == Seq::<u8>::empty(),
{
    buf.clear();
}

/// `BytesMut::len`: the number of bytes.
#[verifier::external_body]
pub(crate) fn length(buf: &BytesMut) -> (len: usize)
    ensures
        len == buffered(*buf).len(),
{
    buf.len()
}

/// `BufMut::put_u8`: appends a byte.
#[verifier::external_body]
pub(crate) fn put_u8(buf: &mut BytesMut, value: u8)
    ensures
        buffered(*final(buf)) == buffered(*old(buf)).push(value),
{
    buf.put_u8(value);
}

/// `BufMut::put_i16`: appends a number as two bytes, the highest first.
#[verifier::external_body]
pub(crate) fn put_i16(buf: &mut BytesMut, value: i16)
    ensures
        buffered(*final(buf)) == buffered(*old(buf)) + byte_order::be2_bytes(
            byte_order::unsigned16(value as int),
        ),
{
    buf.put_i16(value);
}

/// `BufMut::put_i32`: appends a number as four bytes, the highest first.
#[verifier::external_body]
pub(crate) fn put_i32(buf: &mut BytesMut, value: i32)
    ensures
        buffered(*final(buf)) == buffered(*old(buf)) + byte_order::be4_bytes(
            byte_order::unsigned32(value as int),
        ),
{
    buf.put_i32(value);
}

/// `BufMut::put_u32`: appends a number as four bytes, the highest first.
#[verifier::external_body]
pub(crate) fn put_u32(buf: &mut BytesMut, value: u32)
    ensures
        buffered(*final(buf)) == buffered(*old(buf)) + byte_order::be4_bytes(value as nat),
{
    buf.put_u32(value);
}

/// `BytesMut::extend_from_slice`: appends bytes.
#[verifier::external_body]
pub(crate) fn put_slice(buf: &mut BytesMut, bytes: &[u8])
    ensures
        buffered(*final(buf)) == buffered(*old(buf)) + bytes@,
{
    buf.extend_from_slice(bytes);
}

/// The bytes of the buffer as a mutable slice, of which four from `at` on are replaced by
/// `copy_from_slice`.
#[verifier::external_body]
pub(crate) fn replace_four(buf: &mut BytesMut, at: usize, bytes: [u8; 4])
    requires
        at + 4 <= buffered(*old(buf)).len(),
    ensures
        buffered(*final(buf)) == buffered(*old(buf)).take(at as int) + bytes@ + buffered(
            *old(buf),
        ).skip(at + 4),
{
    buf[at..at + 4].copy_from_slice(&bytes);
}

} // verus!
