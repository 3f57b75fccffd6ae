//! The byte buffers of the `bytes` crate, as this library uses them.
//!
//! A [`Bytes`] stands for the sequence of bytes that it holds, a [`BytesMut`]
//! for the sequence written so far. Everything in this file but the big-endian
//! helpers at the end is a claim about that crate which is not proved here.
use bytes::{BufMut, Bytes, BytesMut};
use std::ops::Deref;
use vstd::prelude::*;

verus! {

/// The immutable, reference-counted buffer of the `bytes` crate.
#[verifier::external_type_specification]
#[verifier::external_body]
pub struct ExBytes(bytes::Bytes);

/// The growable buffer of the `bytes` crate.
#[verifier::external_type_specification]
#[verifier::external_body]
pub struct ExBytesMut(bytes::BytesMut);

/// The bytes that a [`Bytes`] holds, in order.
pub uninterp spec fn contents(buffer: bytes::Bytes) -> Seq<u8>;

/// The bytes written so far to a [`BytesMut`], in order.
pub uninterp spec fn written(buffer: bytes::BytesMut) -> Seq<u8>;

/// How many bytes a [`BytesMut`] was made to hold.
pub uninterp spec fn limit(buffer: bytes::BytesMut) -> nat;

/// `Bytes::new` gives a buffer that holds nothing.
pub assume_specification[ bytes::Bytes::new ]() -> (buffer: bytes::Bytes)
    ensures
        contents(buffer) == Seq::<u8>::empty(),
;

/// `Bytes::len` counts the bytes held.
pub assume_specification[ bytes::Bytes::len ](buffer: &bytes::Bytes) -> (count: usize)
    ensures
        count == contents(*buffer).len(),
;

/// `Bytes::is_empty` tells whether there are none.
pub assume_specification[ bytes::Bytes::is_empty ](buffer: &bytes::Bytes) -> (empty: bool)
    ensures
        empty == (contents(*buffer).len() == 0),
;

/// `Bytes::copy_from_slice` makes a buffer that holds a copy of the slice.
pub assume_specification[ bytes::Bytes::copy_from_slice ](data: &[u8]) -> (buffer: bytes::Bytes)
    ensures
        contents(buffer) == data@,
;

/// Cloning a `Bytes` gives another handle on the same bytes.
pub assume_specification[ <bytes::Bytes as Clone>::clone ](buffer: &bytes::Bytes) -> (copy:
    bytes::Bytes)
    ensures
        contents(copy) == contents(*buffer),
;

/// Dereferencing a `Bytes` gives the bytes held, as a slice.
pub assume_specification[ <bytes::Bytes as Deref>::deref ](buffer: &bytes::Bytes) -> (data: &[u8])
    ensures
        data@ == contents(*buffer),
;

/// `Bytes::slice` with the range `begin..end` gives the bytes in that range.
/// It panics where the range does not lie in the buffer.
#[verifier::external_body]
pub(crate) fn slice(buffer: &Bytes, begin: usize, end: usize) -> (part: Bytes)
    requires
        begin <= end <= contents(*buffer).len(),
    ensures
        contents(part) == contents(*buffer).subrange(begin as int, end as int),
{
    buffer.slice(begin..end)
}

/// `BytesMut::with_capacity` gives a buffer to which nothing is written yet, and
/// which holds as many bytes as it is asked for without another allocation. It
/// panics where that is more than an allocation can have.
pub assume_specification[ bytes::BytesMut::with_capacity ](capacity: usize) -> (buffer:
    bytes::BytesMut)
    requires
        capacity <= isize::MAX,
    ensures
        written(buffer) == Seq::<u8>::empty(),
        limit(buffer) == capacity,
;

/// `BytesMut::extend_from_slice` appends the slice. This is said of slices that
/// the buffer was made to hold: beyond them it has to grow, and panics where it
/// would grow longer than an allocation can be.
pub assume_specification[ bytes::BytesMut::extend_from_slice ](
    buffer: &mut bytes::BytesMut,
    extend: &[u8],
)
    requires
        written(*old(buffer)).len() + extend@.len() <= limit(*old(buffer)),
    ensures
        written(*final(buffer)) == written(*old(buffer)) + extend@,
        limit(*final(buffer)) == limit(*old(buffer)),
;

/// `BytesMut::freeze` gives the bytes written as an immutable buffer.
pub assume_specification[ bytes::BytesMut::freeze ](buffer: bytes::BytesMut) -> (frozen:
    bytes::Bytes)
    ensures
        contents(frozen) == written(buffer),
;

/// Dereferencing a `BytesMut` gives the bytes written so far, as a slice.
pub assume_specification[ <bytes::BytesMut as Deref>::deref ](
    buffer: &bytes::BytesMut,
) -> (data: &[u8])
    ensures
        data@ == written(*buffer),
;

/// `BufMut::put_u8` appends one byte, which the buffer was made to hold.
#[verifier::external_body]
pub(crate) fn put_u8(buffer: &mut BytesMut, value: u8)
    requires
        written(*old(buffer)).len() + 1 <= limit(*old(buffer)),
    ensures
        written(*final(buffer)) == written(*old(buffer)).push(value),
        limit(*final(buffer)) == limit(*old(buffer)),
{
    buffer.put_u8(value)
}

/// `BufMut::put_u16` appends the two bytes of the value, the high one first,
/// which the buffer was made to hold.
#[verifier::external_body]
pub(crate) fn put_u16(buffer: &mut BytesMut, value: u16)
    requires
        written(*old(buffer)).len() + 2 <= limit(*old(buffer)),
    ensures
        written(*final(buffer)) == written(*old(buffer)) + be16(value),
        limit(*final(buffer)) == limit(*old(buffer)),
{
    buffer.put_u16(value)
}

/// `BufMut::put_u32` appends the four bytes of the value, the highest first,
/// which the buffer was made to hold.
#[verifier::external_body]
pub(crate) fn put_u32(buffer: &mut BytesMut, value: u32)
    requires
        written(*old(buffer)).len() + 4 <= limit(*old(buffer)),
    ensures
        written(*final(buffer)) == written(*old(buffer)) + be32(value),
        limit(*final(buffer)) == limit(*old(buffer)),
{
    buffer.put_u32(value)
}

/// Assigning through the mutable dereference of a `BytesMut` replaces one of
/// the bytes written. It panics where there is no byte at the index.
#[verifier::external_body]
pub(crate) fn set_byte(buffer: &mut BytesMut, index: usize, value: u8)
    requires
        index < written(*old(buffer)).len(),
    ensures
        written(*final(buffer)) == written(*old(buffer)).update(index as int, value),
        limit(*final(buffer)) == limit(*old(buffer)),
{
    buffer[index] = value;
}

/// The two bytes of a number, the high one first.
pub open spec fn be16(value: u16) -> Seq<u8> {
    seq![(value / 256) as u8, (value % 256) as u8]
}

/// The four bytes of a number, the highest first.
pub open spec fn be32(value: u32) -> Seq<u8> {
    seq![
        (value / 0x100_0000) as u8,
        (value / 0x1_0000 % 256) as u8,
        (value / 0x100 % 256) as u8,
        (value % 256) as u8,
    ]
}

/// The number whose two bytes are these, the high one first.
pub open spec fn num16(high: u8, low: u8) -> int {
    high * 256 + low
}

/// The 16-bit number whose two bytes are these, the high one first.
pub open spec fn word(high: u8, low: u8) -> u16 {
    num16(high, low) as u16
}

/// The number whose four bytes are these, the highest first.
pub open spec fn num32(b0: u8, b1: u8, b2: u8, b3: u8) -> int {
    b0 * 0x100_0000 + b1 * 0x1_0000 + b2 * 0x100 + b3
}

/// A number is made of its bytes.
pub proof fn lemma_be16(value: u16)
    ensures
        num16(be16(value)[0], be16(value)[1]) == value,
{
}

/// A number is made of its bytes.
pub proof fn lemma_be32(value: u32)
    ensures
        num32(be32(value)[0], be32(value)[1], be32(value)[2], be32(value)[3]) == value,
{
}

/// Puts two bytes together, the high one first.
pub(crate) fn join16(high: u8, low: u8) -> (value: u16)
    ensures
        value == num16(high, low),
{
    high as u16 * 256 + low as u16
}

/// Puts four bytes together, the highest first.
pub(crate) fn join32(b0: u8, b1: u8, b2: u8, b3: u8) -> (value: u32)
    ensures
        value == num32(b0, b1, b2, b3),
{
    b0 as u32 * 0x100_0000 + b1 as u32 * 0x1_0000 + b2 as u32 * 0x100 + b3 as u32
}

/// Replaces two of the bytes written by those of a number, the high one first.
pub(crate) fn set_u16(buffer: &mut BytesMut, index: usize, value: u16)
    requires
        index < usize::MAX,
        index + 2 <= written(*old(buffer)).len(),
    ensures
        written(*final(buffer)) == written(*old(buffer)).update(
            index as int,
            be16(value)[0],
        ).update(index + 1, be16(value)[1]),
        limit(*final(buffer)) == limit(*old(buffer)),
{
    set_byte(buffer, index, (value / 256) as u8);
    set_byte(buffer, index + 1, (value % 256) as u8);
}

} // verus!
