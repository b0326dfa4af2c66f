//! Byte buffers of the `bytes` crate, and integers in network byte order.

use bytes::{BufMut, Bytes, BytesMut};
use vstd::prelude::*;

verus! {

/// The immutable shared buffer `bytes::Bytes`.
#[verifier::external_type_specification]
#[verifier::external_body]
pub struct ExBytes(bytes::Bytes);

/// The growing buffer `bytes::BytesMut`.
#[verifier::external_type_specification]
#[verifier::external_body]
pub struct ExBytesMut(bytes::BytesMut);

/// The bytes that a shared buffer holds.
pub uninterp spec fn octets(bytes: Bytes) -> Seq<u8>;

/// The bytes that a growing buffer holds.
pub uninterp spec fn buffered(buffer: BytesMut) -> Seq<u8>;

/// The largest number of bytes that a growing buffer is asked to hold.
pub const MAX_BUFFERED: usize = usize::MAX / 4;

/// Calls `<Bytes as AsRef<[u8]>>::as_ref`, which gives the bytes of the
/// buffer. As any slice it is no longer than `isize::MAX`.
#[verifier::external_body]
pub(crate) fn as_octets(bytes: &Bytes) -> (slice: &[u8])
    ensures
        slice@ == octets(*bytes),
        slice@.len() <= isize::MAX,
{
    bytes.as_ref()
}

/// Calls `<Bytes as From<Vec<u8>>>::from`, which takes the vector over: the
/// buffer holds its bytes.
#[verifier::external_body]
pub(crate) fn to_bytes(vector: Vec<u8>) -> (bytes: Bytes)
    ensures
        octets(bytes) == vector@,
{
    Bytes::from(vector)
}

/// Calls `<Bytes as Clone>::clone`, which shares the bytes: the new handle
/// holds the same ones.
#[verifier::external_body]
pub(crate) fn share(bytes: &Bytes) -> (shared: Bytes)
    ensures
        octets(shared) == octets(*bytes),
{
    bytes.clone()
}

/// Calls `Bytes::slice` with the range from `begin` to the end, which shares
/// the bytes of that range. The call panics where `begin` is beyond the end.
#[verifier::external_body]
pub(crate) fn slice_from(bytes: &Bytes, begin: usize) -> (slice: Bytes)
    requires
        begin <= octets(*bytes).len(),
    ensures
        octets(slice) == octets(*bytes).skip(begin as int),
{
    bytes.slice(begin..)
}

/// Calls `BytesMut::with_capacity`, which makes an empty buffer. The call
/// panics where the capacity is more than an allocation can be.
#[verifier::external_body]
pub(crate) fn new_buffer(capacity: usize) -> (buffer: BytesMut)
    requires
        capacity <= MAX_BUFFERED,
    ensures
        buffered(buffer) == Seq::<u8>::empty(),
{
    BytesMut::with_capacity(capacity)
}

/// Calls `<BytesMut as BufMut>::put_u8`, which appends the byte. The call
/// panics where the buffer cannot grow further.
#[verifier::external_body]
pub(crate) fn put_u8(buffer: &mut BytesMut, value: u8)
    requires
        buffered(*old(buffer)).len() + 1 <= MAX_BUFFERED,
    ensures
        buffered(*final(buffer)) == buffered(*old(buffer)).push(value),
{
    buffer.put_u8(value);
}

/// Calls `<BytesMut as BufMut>::put_u32`, which appends the four bytes of the
/// number, the most significant first. The call panics where the buffer cannot
/// grow further.
#[verifier::external_body]
pub(crate) fn put_u32(buffer: &mut BytesMut, value: u32)
    requires
        buffered(*old(buffer)).len() + 4 <= MAX_BUFFERED,
    ensures
        buffered(*final(buffer)) == buffered(*old(buffer)) + big_endian(value as nat, 4),
{
    buffer.put_u32(value);
}

/// Calls `<BytesMut as BufMut>::put_u64`, which appends the eight bytes of the
/// number, the most significant first. The call panics where the buffer cannot
/// grow further.
#[verifier::external_body]
pub(crate) fn put_u64(buffer: &mut BytesMut, value: u64)
    requires
        buffered(*old(buffer)).len() + 8 <= MAX_BUFFERED,
    ensures
        buffered(*final(buffer)) == buffered(*old(buffer)) + big_endian(value as nat, 8),
{
    buffer.put_u64(value);
}

/// Calls `BytesMut::extend_from_slice`, which appends the bytes. The call
/// panics where the buffer cannot grow further.
#[verifier::external_body]
pub(crate) fn extend_from_slice(buffer: &mut BytesMut, slice: &[u8])
    requires
        buffered(*old(buffer)).len() + slice@.len() <= MAX_BUFFERED,
    ensures
        buffered(*final(buffer)) == buffered(*old(buffer)) + slice@,
{
    buffer.extend_from_slice(slice);
}

/// Calls `BytesMut::freeze`, which makes the buffer immutable: its bytes stay.
#[verifier::external_body]
pub(crate) fn freeze(buffer: BytesMut) -> (bytes: Bytes)
    ensures
        octets(bytes) == buffered(buffer),
{
    buffer.freeze()
}

/// Calls `<BytesMut as AsRef<[u8]>>::as_ref`, which gives the bytes of the
/// buffer.
#[verifier::external_body]
pub(crate) fn as_buffered(buffer: &BytesMut) -> (slice: &[u8])
    ensures
        slice@ == buffered(*buffer),
{
    buffer.as_ref()
}

/// Calls `BytesMut::split_to`, which takes the first `at` bytes out and leaves
/// the others. The call panics where there are fewer.
#[verifier::external_body]
pub(crate) fn split_to(buffer: &mut BytesMut, at: usize) -> (head: BytesMut)
    requires
        at <= buffered(*old(buffer)).len(),
    ensures
        buffered(head) == buffered(*old(buffer)).take(at as int),
        buffered(*final(buffer)) == buffered(*old(buffer)).skip(at as int),
{
    buffer.split_to(at)
}

/// Calls `BytesMut::split_off`, which takes the bytes from `at` on out and
/// leaves the first ones. The call panics where `at` is beyond what is
/// allocated.
#[verifier::external_body]
pub(crate) fn split_off(buffer: &mut BytesMut, at: usize) -> (tail: BytesMut)
    requires
        at <= buffered(*old(buffer)).len(),
    ensures
        buffered(tail) == buffered(*old(buffer)).skip(at as int),
        buffered(*final(buffer)) == buffered(*old(buffer)).take(at as int),
{
    buffer.split_off(at)
}

/// The last `width` bytes of a number, the most significant first.
pub open spec fn big_endian(value: nat, width: nat) -> Seq<u8>
    decreases width,
{
    if width == 0 {
        Seq::empty()
    } else {
        big_endian(value / 256, (width - 1) as nat).push((value % 256) as u8)
    }
}

/// The number that bytes spell, the most significant first.
pub open spec fn big_endian_value(bytes: Seq<u8>) -> nat
    decreases bytes.len(),
{
    if bytes.len() == 0 {
        0
    } else {
        big_endian_value(bytes.drop_last()) * 256 + bytes.last() as nat
    }
}

/// How many numbers `width` bytes can spell.
pub open spec fn range_of(width: nat) -> nat
    decreases width,
{
    if width == 0 {
        1
    } else {
        256 * range_of((width - 1) as nat)
    }
}

/// A number that fits has its bytes spell it.
pub proof fn big_endian_is_read_back(value: nat, width: nat)
    requires
        value < range_of(width),
    ensures
        big_endian(value, width).len() == width,
        big_endian_value(big_endian(value, width)) == value,
    decreases width,
{
    if width > 0 {
        assert(value / 256 < range_of((width - 1) as nat));
        big_endian_is_read_back(value / 256, (width - 1) as nat);
        let bytes = big_endian(value, width);
        assert(bytes.drop_last() =~= big_endian(value / 256, (width - 1) as nat));
    }
}

/// Bytes are the bytes of the number that they spell, and that number fits.
pub proof fn big_endian_is_written_back(bytes: Seq<u8>)
    ensures
        big_endian(big_endian_value(bytes), bytes.len()) == bytes,
        big_endian_value(bytes) < range_of(bytes.len()),
    decreases bytes.len(),
{
    if bytes.len() == 0 {
        assert(big_endian(0, 0) =~= bytes);
    } else {
        let rest = bytes.drop_last();
        big_endian_is_written_back(rest);
        let value = big_endian_value(bytes);
        assert(value / 256 == big_endian_value(rest));
        assert(value % 256 == bytes.last() as nat);
        assert(big_endian(value, bytes.len()) =~= bytes);
    }
}

/// The ranges of the widths in use.
pub proof fn ranges()
    ensures
        range_of(2) == 0x1_0000,
        range_of(4) == 0x1_0000_0000,
        range_of(8) == 0x1_0000_0000_0000_0000,
{
    reveal_with_fuel(range_of, 9);
}

/// A number has as many bytes as asked for.
pub broadcast proof fn big_endian_len(value: nat, width: nat)
    ensures
        (#[trigger] big_endian(value, width)).len() == width,
    decreases width,
{
    if width > 0 {
        big_endian_len(value / 256, (width - 1) as nat);
    }
}

/// Reads a number of at most eight bytes.
pub(crate) fn read_big_endian(bytes: &[u8], begin: usize, width: usize) -> (value: u64)
    requires
        begin + width <= bytes@.len(),
        width <= 8,
    ensures
        value == big_endian_value(bytes@.subrange(begin as int, begin + width)),
        value < range_of(width as nat),
{
    let end: usize = bytes.len();
    let mut value: u64 = 0;
    let mut i: usize = 0;
    while i < width
        invariant
            i <= width,
            width <= 8,
            begin + width <= end,
            end == bytes@.len(),
            value == big_endian_value(bytes@.subrange(begin as int, begin + i)),
        decreases width - i,
    {
        proof {
            let less = bytes@.subrange(begin as int, begin + i);
            let more = bytes@.subrange(begin as int, begin + i + 1);
            assert(more.drop_last() =~= less);
            big_endian_is_written_back(more);
            reveal_with_fuel(range_of, 9);
            assert(range_of((i + 1) as nat) <= 0x1_0000_0000_0000_0000);
        }
        value = value * 256 + bytes[begin + i] as u64;
        i = i + 1;
    }
    proof {
        big_endian_is_written_back(bytes@.subrange(begin as int, begin + width));
    }
    value
}

/// The four bytes of a number, the most significant first.
pub(crate) fn to_big_endian(value: u32) -> (bytes: Vec<u8>)
    ensures
        bytes@ == big_endian(value as nat, 4),
{
    let mut bytes: Vec<u8> = Vec::new();
    bytes.push((value / 0x100_0000) as u8);
    bytes.push((value / 0x1_0000 % 256) as u8);
    bytes.push((value / 0x100 % 256) as u8);
    bytes.push((value % 256) as u8);
    proof {
        reveal_with_fuel(big_endian, 5);
        let v = value as nat;
        assert(v / 256 / 256 == v / 0x1_0000 && v / 256 / 256 / 256 == v / 0x100_0000);
        assert(bytes@ =~= big_endian(v, 4));
    }
    bytes
}

} // verus!
