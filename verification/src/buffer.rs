//! What the library relies on of the `bytes` crate: the two byte containers, what they hold,
//! and the calls that read, take and append bytes.

use bytes::{Buf, BufMut, Bytes, BytesMut};
use vstd::prelude::*;

use crate::endian;

verus! {

/// `bytes::BytesMut`, a growable byte buffer that is read from its front.
#[verifier::external_type_specification]
#[verifier::external_body]
pub struct ExBytesMut(bytes::BytesMut);

/// `bytes::Bytes`, an immutable byte string.
#[verifier::external_type_specification]
#[verifier::external_body]
pub struct ExBytes(bytes::Bytes);

/// The unread bytes of a buffer, in order.
pub uninterp spec fn buffered(buffer: BytesMut) -> Seq<u8>;

/// The bytes of a byte string, in order.
pub uninterp spec fn content(bytes: Bytes) -> Seq<u8>;

/// Whether a buffer of `len` bytes can take `extra` more. A buffer may double its allocation
/// and may still hold bytes that were read, so the bound keeps a wide margin below the largest
/// allocation.
pub open spec fn can_grow(len: nat, extra: nat) -> bool {
    len + extra <= isize::MAX / 8
}

/// `BytesMut::new` makes a buffer without bytes.
pub assume_specification[ BytesMut::new ]() -> (b: BytesMut)
    ensures
        buffered(b) == Seq::<u8>::empty(),
;

/// `BytesMut::with_capacity` makes a buffer without bytes, whatever the capacity.
pub assume_specification[ BytesMut::with_capacity ](capacity: usize) -> (b: BytesMut)
    requires
        capacity <= isize::MAX,
    ensures
        buffered(b) == Seq::<u8>::empty(),
;

/// `BytesMut::len` counts the unread bytes.
pub assume_specification[ BytesMut::len ](b: &BytesMut) -> (len: usize)
    ensures
        len == buffered(*b).len(),
;

/// `BytesMut::is_empty` tells whether no unread byte is left.
pub assume_specification[ BytesMut::is_empty ](b: &BytesMut) -> (empty: bool)
    ensures
        empty == (buffered(*b).len() == 0),
;

/// `BytesMut::split_to` takes the first `at` bytes off the buffer. It panics past the end.
pub assume_specification[ BytesMut::split_to ](b: &mut BytesMut, at: usize) -> (front: BytesMut)
    requires
        at <= buffered(*old(b)).len(),
    ensures
        buffered(front) == buffered(*old(b)).take(at as int),
        buffered(*final(b)) == buffered(*old(b)).skip(at as int),
;

/// `BytesMut::freeze` hands the unread bytes over as an immutable string.
pub assume_specification[ BytesMut::freeze ](b: BytesMut) -> (frozen: Bytes)
    ensures
        content(frozen) == buffered(b),
;

/// `BytesMut::extend_from_slice` appends the slice.
pub assume_specification[ BytesMut::extend_from_slice ](b: &mut BytesMut, extend: &[u8])
    requires
        can_grow(buffered(*old(b)).len(), extend@.len()),
    ensures
        buffered(*final(b)) == buffered(*old(b)) + extend@,
;

/// `Bytes::len` counts the bytes.
pub assume_specification[ Bytes::len ](b: &Bytes) -> (len: usize)
    ensures
        len == content(*b).len(),
;

/// `Bytes::copy_from_slice` copies the slice.
pub assume_specification[ Bytes::copy_from_slice ](data: &[u8]) -> (b: Bytes)
    ensures
        content(b) == data@,
;

/// `Bytes::clone` gives a string of the same bytes.
pub assume_specification[ <Bytes as Clone>::clone ](b: &Bytes) -> (copy: Bytes)
    ensures
        content(copy) == content(*b),
;

/// `BytesMut` dereferenced: the unread bytes as a slice.
#[verifier::external_body]
pub(crate) fn unread(buffer: &BytesMut) -> (bytes: &[u8])
    ensures
        bytes@ == buffered(*buffer),
{
    &buffer[..]
}

/// `Bytes` dereferenced: the bytes as a slice.
#[verifier::external_body]
pub(crate) fn as_slice(bytes: &Bytes) -> (slice: &[u8])
    ensures
        slice@ == content(*bytes),
{
    &bytes[..]
}

/// `BytesMut::from` a slice: a buffer that holds a copy of it.
#[verifier::external_body]
pub(crate) fn buffer_from(data: &[u8]) -> (buffer: BytesMut)
    ensures
        buffered(buffer) == data@,
{
    BytesMut::from(data)
}

/// `Buf::advance` on a `BytesMut` drops the first `count` bytes. It panics past the end.
#[verifier::external_body]
pub(crate) fn advance(buffer: &mut BytesMut, count: usize)
    requires
        count <= buffered(*old(buffer)).len(),
    ensures
        buffered(*final(buffer)) == buffered(*old(buffer)).skip(count as int),
{
    buffer.advance(count)
}

/// `Buf::get_u8` on a `BytesMut` takes one byte off the front. It panics on an empty buffer.
#[verifier::external_body]
pub(crate) fn get_u8(buffer: &mut BytesMut) -> (value: u8)
    requires
        buffered(*old(buffer)).len() >= 1,
    ensures
        value == buffered(*old(buffer))[0],
        buffered(*final(buffer)) == buffered(*old(buffer)).skip(1),
{
    buffer.get_u8()
}

/// `Buf::get_u16` on a `BytesMut` takes a big-endian number off the front. It panics where the
/// bytes do not suffice.
#[verifier::external_body]
pub(crate) fn get_u16(buffer: &mut BytesMut) -> (value: u16)
    requires
        buffered(*old(buffer)).len() >= 2,
    ensures
        value == endian::be_value(buffered(*old(buffer)).take(2)),
        buffered(*final(buffer)) == buffered(*old(buffer)).skip(2),
{
    buffer.get_u16()
}

/// `Buf::get_u32` on a `BytesMut` takes a big-endian number off the front. It panics where the
/// bytes do not suffice.
#[verifier::external_body]
pub(crate) fn get_u32(buffer: &mut BytesMut) -> (value: u32)
    requires
        buffered(*old(buffer)).len() >= 4,
    ensures
        value == endian::be_value(buffered(*old(buffer)).take(4)),
        buffered(*final(buffer)) == buffered(*old(buffer)).skip(4),
{
    buffer.get_u32()
}

/// `Buf::get_u64` on a `BytesMut` takes a big-endian number off the front. It panics where the
/// bytes do not suffice.
#[verifier::external_body]
pub(crate) fn get_u64(buffer: &mut BytesMut) -> (value: u64)
    requires
        buffered(*old(buffer)).len() >= 8,
    ensures
        value == endian::be_value(buffered(*old(buffer)).take(8)),
        buffered(*final(buffer)) == buffered(*old(buffer)).skip(8),
{
    buffer.get_u64()
}

/// `Buf::get_i32` on a `BytesMut` takes a big-endian two's complement number off the front. It
/// panics where the bytes do not suffice.
#[verifier::external_body]
pub(crate) fn get_i32(buffer: &mut BytesMut) -> (value: i32)
    requires
        buffered(*old(buffer)).len() >= 4,
    ensures
        endian::twos_complement(value) == endian::be_value(buffered(*old(buffer)).take(4)),
        buffered(*final(buffer)) == buffered(*old(buffer)).skip(4),
{
    buffer.get_i32()
}

/// `BufMut::put_u8` on a `BytesMut` appends the byte.
#[verifier::external_body]
pub(crate) fn put_u8(buffer: &mut BytesMut, value: u8)
    requires
        can_grow(buffered(*old(buffer)).len(), 1),
    ensures
        buffered(*final(buffer)) == buffered(*old(buffer)).push(value),
{
    buffer.put_u8(value)
}

/// `BufMut::put_u16` on a `BytesMut` appends the number, most significant byte first.
#[verifier::external_body]
pub(crate) fn put_u16(buffer: &mut BytesMut, value: u16)
    requires
        can_grow(buffered(*old(buffer)).len(), 2),
    ensures
        buffered(*final(buffer)) == buffered(*old(buffer)) + endian::be_bytes(value as nat, 2),
{
    buffer.put_u16(value)
}

/// `BufMut::put_u32` on a `BytesMut` appends the number, most significant byte first.
#[verifier::external_body]
pub(crate) fn put_u32(buffer: &mut BytesMut, value: u32)
    requires
        can_grow(buffered(*old(buffer)).len(), 4),
    ensures
        buffered(*final(buffer)) == buffered(*old(buffer)) + endian::be_bytes(value as nat, 4),
{
    buffer.put_u32(value)
}

/// `BufMut::put_u64` on a `BytesMut` appends the number, most significant byte first.
#[verifier::external_body]
pub(crate) fn put_u64(buffer: &mut BytesMut, value: u64)
    requires
        can_grow(buffered(*old(buffer)).len(), 8),
    ensures
        buffered(*final(buffer)) == buffered(*old(buffer)) + endian::be_bytes(value as nat, 8),
{
    buffer.put_u64(value)
}

/// `BufMut::put_i32` on a `BytesMut` appends the two's complement pattern of the number, most
/// significant byte first.
#[verifier::external_body]
pub(crate) fn put_i32(buffer: &mut BytesMut, value: i32)
    requires
        can_grow(buffered(*old(buffer)).len(), 4),
    ensures
        buffered(*final(buffer)) == buffered(*old(buffer)) + endian::be_bytes(
            endian::twos_complement(value),
            4,
        ),
{
    buffer.put_i32(value)
}

} // verus!
