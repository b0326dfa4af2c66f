//! Fields of Protocol Buffers messages, as the `prost` crate writes and reads
//! them.

use bytes::{Bytes, BytesMut};
use prost::encoding::{DecodeContext, WireType};
use prost::DecodeError;
use vstd::prelude::*;
use crate::buffer;
use crate::buffer::MAX_BUFFERED;

pub mod fields;

verus! {

/// Why bytes are not a message. Its details are a description for people.
#[verifier::external_type_specification]
#[verifier::external_body]
pub struct ExDecodeError(prost::DecodeError);

/// The wire type of numbers.
pub const VARINT: u8 = 0;

/// The wire type of eight bytes.
pub const SIXTY_FOUR_BIT: u8 = 1;

/// The wire type of bytes with their length in front.
pub const LENGTH_DELIMITED: u8 = 2;

/// The wire type that opens a group.
pub const START_GROUP: u8 = 3;

/// The wire type that closes a group.
pub const END_GROUP: u8 = 4;

/// The wire type of four bytes.
pub const THIRTY_TWO_BIT: u8 = 5;

/// How many levels of groups may be nested in a message.
pub const MAX_LEVELS: u32 = 100;

/// The largest tag of a field.
pub const MAX_TAG: u32 = 0x1fff_ffff;

/// A number in groups of seven bits, the least significant first. All bytes but
/// the last have their high bit set.
pub open spec fn varint(value: nat) -> Seq<u8>
    decreases value,
{
    if value < 128 {
        seq![value as u8]
    } else {
        seq![(128 + value % 128) as u8] + varint(value / 128)
    }
}

/// The number that bytes start with, and how many bytes it takes, when `i`
/// bytes of it have been read. A number has at most ten bytes and fits in
/// sixty-four bits.
pub open spec fn read_varint(bytes: Seq<u8>, i: nat) -> Option<(nat, nat)>
    decreases bytes.len(),
{
    if i >= 10 || bytes.len() == 0 {
        None
    } else if bytes[0] < 128 {
        if i == 9 && bytes[0] >= 2 {
            None
        } else {
            Some((bytes[0] as nat, 1))
        }
    } else {
        match read_varint(bytes.drop_first(), i + 1) {
            Some((high, n)) => Some(((high * 128 + bytes[0] - 128) as nat, n + 1)),
            None => None,
        }
    }
}

/// The key of a field.
pub open spec fn key(tag: u32, wire: u8) -> Seq<u8> {
    varint((8 * tag + wire) as nat)
}

/// A field that holds a number.
pub open spec fn uint_field(tag: u32, value: nat) -> Seq<u8> {
    key(tag, VARINT) + varint(value)
}

/// A field that holds bytes.
pub open spec fn bytes_field(tag: u32, value: Seq<u8>) -> Seq<u8> {
    key(tag, LENGTH_DELIMITED) + varint(value.len()) + value
}

/// A field that holds a number, left out where the number is zero.
pub open spec fn optional_uint(tag: u32, value: nat) -> Seq<u8> {
    if value == 0 {
        Seq::empty()
    } else {
        uint_field(tag, value)
    }
}

/// A field that holds bytes, left out where there are none.
pub open spec fn optional_bytes(tag: u32, value: Seq<u8>) -> Seq<u8> {
    if value.len() == 0 {
        Seq::empty()
    } else {
        bytes_field(tag, value)
    }
}

/// The key that bytes start with: tag, wire type, and what follows.
pub open spec fn take_key(bytes: Seq<u8>) -> Option<(u32, u8, Seq<u8>)> {
    match read_varint(bytes, 0) {
        None => None,
        Some((value, n)) => if value > u32::MAX || value % 8 > 5 || value / 8 == 0 {
            None
        } else {
            Some(((value / 8) as u32, (value % 8) as u8, bytes.skip(n as int)))
        },
    }
}

/// The number that a field holds, and what follows.
pub open spec fn take_uint(wire: u8, bytes: Seq<u8>) -> Option<(nat, Seq<u8>)> {
    if wire != VARINT {
        None
    } else {
        match read_varint(bytes, 0) {
            None => None,
            Some((value, n)) => Some((value, bytes.skip(n as int))),
        }
    }
}

/// The bytes that a field holds, and what follows.
pub open spec fn take_bytes(wire: u8, bytes: Seq<u8>) -> Option<(Seq<u8>, Seq<u8>)> {
    if wire != LENGTH_DELIMITED {
        None
    } else {
        match read_varint(bytes, 0) {
            None => None,
            Some((len, n)) => if n + len > bytes.len() {
                None
            } else {
                Some(
                    (
                        bytes.subrange(n as int, (n + len) as int),
                        bytes.skip((n + len) as int),
                    ),
                )
            },
        }
    }
}

/// What follows a field that is not known, where so many levels of groups may
/// be nested.
pub open spec fn after_unknown(levels: nat, wire: u8, tag: u32, bytes: Seq<u8>) -> Option<Seq<u8>>
    decreases bytes.len(), 1nat,
{
    if levels == 0 {
        None
    } else if wire == VARINT {
        match take_uint(wire, bytes) {
            Some((_, rest)) => Some(rest),
            None => None,
        }
    } else if wire == LENGTH_DELIMITED {
        match take_bytes(wire, bytes) {
            Some((_, rest)) => Some(rest),
            None => None,
        }
    } else if wire == SIXTY_FOUR_BIT && bytes.len() >= 8 {
        Some(bytes.skip(8))
    } else if wire == THIRTY_TWO_BIT && bytes.len() >= 4 {
        Some(bytes.skip(4))
    } else if wire == START_GROUP {
        after_group(levels, tag, bytes)
    } else {
        None
    }
}

/// What follows the fields of a group: they end with the key that closes it,
/// and each of them is one level deeper.
pub open spec fn after_group(levels: nat, tag: u32, bytes: Seq<u8>) -> Option<Seq<u8>>
    decreases bytes.len(), 0nat,
{
    match take_key(bytes) {
        Some((inner, wire, body)) => if wire == END_GROUP {
            if inner == tag {
                Some(body)
            } else {
                None
            }
        } else if body.len() < bytes.len() {
            match after_unknown((levels - 1) as nat, wire, inner, body) {
                Some(rest) => if rest.len() < bytes.len() {
                    after_group(levels, tag, rest)
                } else {
                    None
                },
                None => None,
            }
        } else {
            None
        },
        None => None,
    }
}

/// Calls `prost::encoding::uint64::encode`, which appends the key of a number
/// and the number.
#[verifier::external_body]
pub(crate) fn put_uint64(buffer: &mut BytesMut, tag: u32, value: u64)
    requires
        1 <= tag <= MAX_TAG,
        buffer::buffered(*old(buffer)).len() + uint_field(tag, value as nat).len() <= MAX_BUFFERED,
    ensures
        buffer::buffered(*final(buffer)) == buffer::buffered(*old(buffer)) + uint_field(
            tag,
            value as nat,
        ),
{
    prost::encoding::uint64::encode(tag, &value, buffer);
}

/// Calls `prost::encoding::bytes::encode`, which appends the key of bytes,
/// their number, and the bytes.
#[verifier::external_body]
pub(crate) fn put_bytes(buffer: &mut BytesMut, tag: u32, value: &Bytes)
    requires
        1 <= tag <= MAX_TAG,
        buffer::buffered(*old(buffer)).len() + bytes_field(tag, buffer::octets(*value)).len()
            <= MAX_BUFFERED,
    ensures
        buffer::buffered(*final(buffer)) == buffer::buffered(*old(buffer)) + bytes_field(
            tag,
            buffer::octets(*value),
        ),
{
    prost::encoding::bytes::encode(tag, value, buffer);
}

/// Calls `prost::encoding::string::encode`, which appends the key of bytes,
/// the number of bytes of the text in UTF-8, and these bytes.
#[verifier::external_body]
pub(crate) fn put_string(buffer: &mut BytesMut, tag: u32, value: &String)
    requires
        1 <= tag <= MAX_TAG,
        buffer::buffered(*old(buffer)).len() + bytes_field(
            tag,
            vstd::utf8::encode_utf8(value@),
        ).len() <= MAX_BUFFERED,
    ensures
        buffer::buffered(*final(buffer)) == buffer::buffered(*old(buffer)) + bytes_field(
            tag,
            vstd::utf8::encode_utf8(value@),
        ),
{
    prost::encoding::string::encode(tag, value, buffer);
}

/// Calls `prost::encoding::decode_key`, which takes the key of a field. The
/// wire type is given by its number. After an error it is left open how much
/// was taken.
#[verifier::external_body]
pub(crate) fn get_key(source: &mut Bytes) -> (key: Result<(u32, u8), DecodeError>)
    ensures
        match key {
            Ok((tag, wire)) => take_key(buffer::octets(*old(source))) == Some(
                (tag, wire, buffer::octets(*final(source))),
            ),
            Err(_) => take_key(buffer::octets(*old(source))) is None,
        },
{
    let (tag, wire) = prost::encoding::decode_key(source)?;
    Ok((tag, wire as u8))
}

/// Calls `prost::encoding::uint32::merge`, which takes the number of a field
/// and keeps its last thirty-two bits. After an error it is left open how much
/// was taken.
#[verifier::external_body]
pub(crate) fn get_uint32(wire: u8, source: &mut Bytes) -> (value: Result<u32, DecodeError>)
    ensures
        match value {
            Ok(v) => {
                &&& take_uint(wire, buffer::octets(*old(source))) matches Some((number, rest))
                &&& v == number % 0x1_0000_0000
                &&& rest == buffer::octets(*final(source))
            },
            Err(_) => take_uint(wire, buffer::octets(*old(source))) is None,
        },
{
    let mut value: u32 = 0;
    let wire = WireType::try_from(u64::from(wire))?;
    prost::encoding::uint32::merge(wire, &mut value, source, DecodeContext::default())?;
    Ok(value)
}

/// Calls `prost::encoding::uint64::merge`, which takes the number of a field.
/// After an error it is left open how much was taken.
#[verifier::external_body]
pub(crate) fn get_uint64(wire: u8, source: &mut Bytes) -> (value: Result<u64, DecodeError>)
    ensures
        match value {
            Ok(v) => take_uint(wire, buffer::octets(*old(source))) == Some(
                (v as nat, buffer::octets(*final(source))),
            ),
            Err(_) => take_uint(wire, buffer::octets(*old(source))) is None,
        },
{
    let mut value: u64 = 0;
    let wire = WireType::try_from(u64::from(wire))?;
    prost::encoding::uint64::merge(wire, &mut value, source, DecodeContext::default())?;
    Ok(value)
}

/// Calls `prost::encoding::bytes::merge`, which takes the bytes of a field.
/// After an error it is left open how much was taken.
#[verifier::external_body]
pub(crate) fn get_bytes(wire: u8, source: &mut Bytes) -> (value: Result<Bytes, DecodeError>)
    ensures
        match value {
            Ok(v) => take_bytes(wire, buffer::octets(*old(source))) == Some(
                (buffer::octets(v), buffer::octets(*final(source))),
            ),
            Err(_) => take_bytes(wire, buffer::octets(*old(source))) is None,
        },
{
    let mut value = Bytes::new();
    let wire = WireType::try_from(u64::from(wire))?;
    prost::encoding::bytes::merge(wire, &mut value, source, DecodeContext::default())?;
    Ok(value)
}

/// Calls `prost::encoding::string::merge`, which takes the bytes of a field as
/// text in UTF-8, and fails where they are not. After an error it is left open
/// how much was taken.
#[verifier::external_body]
pub(crate) fn get_string(wire: u8, source: &mut Bytes) -> (value: Result<String, DecodeError>)
    ensures
        match value {
            Ok(v) => {
                &&& take_bytes(wire, buffer::octets(*old(source))) matches Some((utf8, rest))
                &&& vstd::utf8::valid_utf8(utf8)
                &&& v@ == vstd::utf8::decode_utf8(utf8)
                &&& rest == buffer::octets(*final(source))
            },
            Err(_) => take_bytes(wire, buffer::octets(*old(source))) matches Some((utf8, _))
                ==> !vstd::utf8::valid_utf8(utf8),
        },
{
    let mut value = String::new();
    let wire = WireType::try_from(u64::from(wire))?;
    prost::encoding::string::merge(wire, &mut value, source, DecodeContext::default())?;
    Ok(value)
}

/// Calls `prost::encoding::skip_field` in the context of a message that is no
/// field itself. It skips a field that is not known. A group is skipped with
/// all that it holds, unless it is nested more than a hundred levels deep.
/// After an error it is left open how much was taken.
#[verifier::external_body]
pub(crate) fn skip_field(wire: u8, tag: u32, source: &mut Bytes) -> (skipped: Result<
    (),
    DecodeError,
>)
    ensures
        match skipped {
            Ok(_) => after_unknown(
                MAX_LEVELS as nat,
                wire,
                tag,
                buffer::octets(*old(source)),
            ) == Some(buffer::octets(*final(source))),
            Err(_) => after_unknown(
                MAX_LEVELS as nat,
                wire,
                tag,
                buffer::octets(*old(source)),
            ) is None,
        },
{
    let wire = WireType::try_from(u64::from(wire))?;
    prost::encoding::skip_field(wire, tag, source, DecodeContext::default())
}

/// Calls `DecodeError::push`, which adds to the description of an error where
/// it was found. Nothing is stated of the description.
#[verifier::external_body]
pub(crate) fn located(error: DecodeError, message: &'static str, field: &'static str) -> (located:
    DecodeError) {
    let mut error = error;
    error.push(message, field);
    error
}

/// Calls `<DecodeError as ToString>::to_string`, which gives the description
/// of an error. Nothing is stated of the description.
#[verifier::external_body]
pub(crate) fn description(error: &DecodeError) -> (text: String) {
    error.to_string()
}

/// The bound on a number when `i` of its ten bytes have been read.
pub open spec fn room(i: nat) -> nat {
    if i == 0 {
        0x1_0000_0000_0000_0000
    } else if i == 1 {
        0x200_0000_0000_0000
    } else if i == 2 {
        0x4_0000_0000_0000
    } else if i == 3 {
        0x800_0000_0000
    } else if i == 4 {
        0x10_0000_0000
    } else if i == 5 {
        0x2000_0000
    } else if i == 6 {
        0x40_0000
    } else if i == 7 {
        0x8000
    } else if i == 8 {
        0x100
    } else {
        2
    }
}

/// A number is read back from its bytes, whatever follows them.
proof fn varint_from(value: nat, i: nat, rest: Seq<u8>)
    requires
        i < 10,
        value < room(i),
    ensures
        read_varint(varint(value) + rest, i) == Some((value, varint(value).len())),
        varint(value).len() + i <= 10,
    decreases value,
{
    let bytes = varint(value) + rest;
    if value < 128 {
        assert(bytes[0] == value);
    } else {
        assert(i < 9);
        assert(value / 128 < room(i + 1));
        varint_from(value / 128, i + 1, rest);
        assert(bytes.drop_first() =~= varint(value / 128) + rest);
        assert(bytes[0] == 128 + value % 128);
        assert(value / 128 * 128 + value % 128 == value);
    }
}

/// A number is read back from its bytes, whatever follows them, and has at
/// most ten.
pub proof fn varint_is_read_back(value: nat, rest: Seq<u8>)
    requires
        value <= u64::MAX,
    ensures
        read_varint(varint(value) + rest, 0) == Some((value, varint(value).len())),
        1 <= varint(value).len() <= 10,
{
    varint_from(value, 0, rest);
}

/// What is read as a number takes at least one byte and fits in sixty-four
/// bits.
pub proof fn read_varint_bounds(bytes: Seq<u8>, i: nat)
    ensures
        read_varint(bytes, i) matches Some((value, n)) ==> {
            &&& 1 <= n <= bytes.len()
            &&& i + n <= 10
            &&& value < room(i)
            &&& value <= u64::MAX
        },
    decreases bytes.len(),
{
    if i < 10 && bytes.len() > 0 && bytes[0] >= 128 {
        read_varint_bounds(bytes.drop_first(), i + 1);
        if i == 9 {
            assert(read_varint(bytes.drop_first(), 10) is None);
        }
    }
}

/// Reading a key, a number, bytes or an unknown field takes away from the
/// source; a key takes at least one byte.
pub proof fn taking_shortens(wire: u8, tag: u32, bytes: Seq<u8>)
    ensures
        take_key(bytes) matches Some((_, _, rest)) ==> rest.len() < bytes.len(),
        take_uint(wire, bytes) matches Some((value, rest)) ==> rest.len() < bytes.len() && value
            <= u64::MAX,
        take_bytes(wire, bytes) matches Some((value, rest)) ==> rest.len() < bytes.len()
            && value.len() < bytes.len(),
{
    read_varint_bounds(bytes, 0);
}

/// A key is read back.
pub proof fn key_is_read_back(tag: u32, wire: u8, rest: Seq<u8>)
    requires
        1 <= tag <= MAX_TAG,
        wire <= 5,
    ensures
        take_key(key(tag, wire) + rest) == Some((tag, wire, rest)),
        1 <= key(tag, wire).len() <= 10,
{
    let value = (8 * tag + wire) as nat;
    varint_is_read_back(value, rest);
    let bytes = key(tag, wire) + rest;
    assert(bytes.skip(key(tag, wire).len() as int) =~= rest);
    assert(value / 8 == tag && value % 8 == wire as nat);
}

/// A number is read back from its field.
pub proof fn uint_is_read_back(value: nat, rest: Seq<u8>)
    requires
        value <= u64::MAX,
    ensures
        take_uint(VARINT, varint(value) + rest) == Some((value, rest)),
{
    varint_is_read_back(value, rest);
    assert((varint(value) + rest).skip(varint(value).len() as int) =~= rest);
}

/// Bytes are read back from their field.
pub proof fn bytes_are_read_back(value: Seq<u8>, rest: Seq<u8>)
    requires
        value.len() <= u64::MAX,
    ensures
        take_bytes(LENGTH_DELIMITED, varint(value.len()) + value + rest) == Some((value, rest)),
{
    let bytes = varint(value.len()) + value + rest;
    varint_is_read_back(value.len(), value + rest);
    assert(bytes =~= varint(value.len()) + (value + rest));
    let n = varint(value.len()).len();
    assert(bytes.subrange(n as int, (n + value.len()) as int) =~= value);
    assert(bytes.skip((n + value.len()) as int) =~= rest);
}

/// The length of a number in groups of seven bits.
pub(crate) fn varint_len(value: u64) -> (n: usize)
    ensures
        n == varint(value as nat).len(),
        1 <= n <= 10,
    decreases value,
{
    proof {
        varint_is_read_back(value as nat, Seq::empty());
    }
    if value < 128 {
        1
    } else {
        proof {
            varint_is_read_back((value / 128) as nat, Seq::empty());
        }
        1 + varint_len(value / 128)
    }
}

/// A number is read alike, whatever follows its bytes.
proof fn varint_is_local(bytes: Seq<u8>, i: nat, after: Seq<u8>)
    ensures
        read_varint(bytes, i) matches Some((value, n)) ==> {
            &&& 1 <= n <= bytes.len()
            &&& read_varint(bytes.take(n as int) + after, i) == Some((value, n))
        },
    decreases bytes.len(),
{
    read_varint_bounds(bytes, i);
    if let Some((value, n)) = read_varint(bytes, i) {
        let same = bytes.take(n as int) + after;
        assert(same[0] == bytes[0]);
        if bytes[0] >= 128 {
            varint_is_local(bytes.drop_first(), i + 1, after);
            assert(same.drop_first() =~= bytes.drop_first().take(n - 1) + after);
        }
    }
}

/// A key is read alike, whatever follows its bytes.
proof fn key_is_local(bytes: Seq<u8>, after: Seq<u8>)
    ensures
        take_key(bytes) matches Some((tag, wire, rest)) ==> {
            let n = bytes.len() - rest.len();
            &&& 1 <= n <= bytes.len()
            &&& rest == bytes.skip(n)
            &&& take_key(bytes.take(n) + after) == Some((tag, wire, after))
        },
{
    varint_is_local(bytes, 0, after);
    if let Some((value, n)) = read_varint(bytes, 0) {
        assert((bytes.take(n as int) + after).skip(n as int) =~= after);
    }
}

/// A field is skipped alike, whatever follows it.
proof fn skipping_is_local(levels: nat, wire: u8, tag: u32, bytes: Seq<u8>, after: Seq<u8>)
    ensures
        after_unknown(levels, wire, tag, bytes) matches Some(rest) ==> {
            let n = bytes.len() - rest.len();
            &&& 0 <= n <= bytes.len()
            &&& rest == bytes.skip(n)
            &&& after_unknown(levels, wire, tag, bytes.take(n) + after) == Some(after)
        },
    decreases bytes.len(), 1nat,
{
    if let Some(rest) = after_unknown(levels, wire, tag, bytes) {
        let n = bytes.len() - rest.len();
        if wire == START_GROUP {
            group_is_local(levels, tag, bytes, after);
        } else if wire == VARINT || wire == LENGTH_DELIMITED {
            let (value, k) = read_varint(bytes, 0)->0;
            varint_is_local(bytes, 0, bytes.subrange(k as int, n) + after);
            let same = bytes.take(n) + after;
            assert(same =~= bytes.take(k as int) + (bytes.subrange(k as int, n) + after));
            assert(same.skip(n) =~= after);
        } else {
            assert((bytes.take(n) + after).skip(n) =~= after);
        }
    }
}

/// A group is skipped alike, whatever follows it.
proof fn group_is_local(levels: nat, tag: u32, bytes: Seq<u8>, after: Seq<u8>)
    ensures
        after_group(levels, tag, bytes) matches Some(rest) ==> {
            let n = bytes.len() - rest.len();
            &&& 0 <= n <= bytes.len()
            &&& rest == bytes.skip(n)
            &&& after_group(levels, tag, bytes.take(n) + after) == Some(after)
        },
    decreases bytes.len(), 0nat,
{
    if let Some(rest) = after_group(levels, tag, bytes) {
        let n = bytes.len() - rest.len();
        let (inner, wire, body) = take_key(bytes)->0;
        let k = bytes.len() - body.len();
        if wire == END_GROUP {
            key_is_local(bytes, after);
        } else {
            let less = (levels - 1) as nat;
            let more = after_unknown(less, wire, inner, body)->0;
            group_is_local(levels, tag, more, after);
            let l = more.len() - rest.len();
            let last = more.take(l) + after;
            skipping_is_local(less, wire, inner, body, last);
            let m = body.len() - more.len();
            let behind = body.take(m) + last;
            key_is_local(bytes, behind);
            assert(bytes.take(n) + after =~= bytes.take(k) + behind);
            assert(rest =~= bytes.skip(n));
        }
    }
}

/// What is skipped within some levels is skipped within more.
proof fn more_levels_do_no_harm(levels: nat, more: nat, wire: u8, tag: u32, bytes: Seq<u8>)
    requires
        levels <= more,
    ensures
        after_unknown(levels, wire, tag, bytes) matches Some(rest) ==> after_unknown(
            more,
            wire,
            tag,
            bytes,
        ) == Some(rest),
    decreases bytes.len(), 1nat,
{
    if levels > 0 && wire == START_GROUP {
        more_levels_for_groups(levels, more, tag, bytes);
    }
}

/// A group that is skipped within some levels is skipped within more.
proof fn more_levels_for_groups(levels: nat, more: nat, tag: u32, bytes: Seq<u8>)
    requires
        0 < levels <= more,
    ensures
        after_group(levels, tag, bytes) matches Some(rest) ==> after_group(more, tag, bytes) == Some(
            rest,
        ),
    decreases bytes.len(), 0nat,
{
    if let Some((inner, wire, body)) = take_key(bytes) {
        if wire != END_GROUP && body.len() < bytes.len() {
            more_levels_do_no_harm(
                (levels - 1) as nat,
                (more - 1) as nat,
                wire,
                inner,
                body,
            );
            if let Some(rest) = after_unknown((levels - 1) as nat, wire, inner, body) {
                if rest.len() < bytes.len() {
                    more_levels_for_groups(levels, more, tag, rest);
                }
            }
        }
    }
}

/// A group within a group that holds nothing else.
pub open spec fn enclosed(tag: u32, group: Seq<u8>) -> Seq<u8> {
    key(tag, START_GROUP) + group + key(1, END_GROUP)
}

/// Within a group, one level less is left: a group that is skipped within some
/// levels is skipped within one level less just if it can be enclosed.
proof fn enclosing_takes_a_level(levels: nat, tag: u32, bytes: Seq<u8>, n: int)
    requires
        levels > 1,
        1 <= tag <= MAX_TAG,
        0 <= n <= bytes.len(),
        after_unknown(levels, START_GROUP, tag, bytes) == Some(bytes.skip(n)),
    ensures
        ({
            let inside = after_unknown((levels - 1) as nat, START_GROUP, tag, bytes);
            let around = after_unknown(levels, START_GROUP, 1, enclosed(tag, bytes.take(n)));
            &&& around is Some ==> inside == Some(bytes.skip(n))
            &&& around is None ==> inside is None
        }),
{
    let less = (levels - 1) as nat;
    let group = bytes.take(n);
    let close = key(1, END_GROUP);
    let none = Seq::<u8>::empty();
    let around = enclosed(tag, group);
    assert(around =~= key(tag, START_GROUP) + (group + close));
    key_is_read_back(tag, START_GROUP, group + close);
    key_is_read_back(1, END_GROUP, none);
    assert(close + none =~= close);
    assert(after_group(levels, 1, close) == Some(none));
    skipping_is_local(levels, START_GROUP, tag, bytes, close);
    more_levels_do_no_harm(less, levels, START_GROUP, tag, bytes);
    more_levels_do_no_harm(less, levels, START_GROUP, tag, group + close);
    skipping_is_local(less, START_GROUP, tag, bytes, close);
    skipping_is_local(less, START_GROUP, tag, group + close, bytes.skip(n));
    assert((group + close).take(n) =~= group);
    assert(group + bytes.skip(n) =~= bytes);
    match after_unknown(less, START_GROUP, tag, group + close) {
        Some(rest) => {
            assert(rest == close);
        },
        None => {},
    }
}

/// Skips a field that is not known.
pub(crate) fn skip_unknown(wire: u8, tag: u32, source: &mut Bytes) -> (skipped: Result<
    (),
    DecodeError,
>)
    ensures
        match skipped {
            Ok(_) => after_unknown(
                MAX_LEVELS as nat,
                wire,
                tag,
                buffer::octets(*old(source)),
            ) == Some(buffer::octets(*final(source))),
            Err(_) => after_unknown(
                MAX_LEVELS as nat,
                wire,
                tag,
                buffer::octets(*old(source)),
            ) is None,
        },
        skipped is Ok ==> buffer::octets(*final(source)).len() <= buffer::octets(
            *old(source),
        ).len(),
{
    proof {
        skipping_is_local(MAX_LEVELS as nat, wire, tag, buffer::octets(*source), Seq::empty());
    }
    skip_field(wire, tag, source)
}

/// Appends a number in groups of seven bits.
fn push_varint(bytes: &mut Vec<u8>, value: u64)
    ensures
        final(bytes)@ == old(bytes)@ + varint(value as nat),
    decreases value,
{
    let ghost before = bytes@;
    if value < 128 {
        bytes.push(value as u8);
        assert(bytes@ =~= before + varint(value as nat));
    } else {
        let low = (value % 128 + 128) as u8;
        bytes.push(low);
        push_varint(bytes, value / 128);
        assert(bytes@ =~= before + varint(value as nat));
    }
}

/// A group within a group that holds nothing else.
fn enclose(tag: u32, group: &[u8]) -> (bytes: Vec<u8>)
    ensures
        bytes@ == enclosed(tag, group@),
{
    let mut bytes: Vec<u8> = Vec::new();
    push_varint(&mut bytes, 8 * (tag as u64) + START_GROUP as u64);
    bytes.extend_from_slice(group);
    push_varint(&mut bytes, 8 + END_GROUP as u64);
    assert(bytes@ =~= enclosed(tag, group@));
    bytes
}

/// Skips a field that is not known, in a message that is itself a field of a
/// message: that takes one of the levels.
///
/// The group around the field stands for the message around it.
pub(crate) fn skip_inner(wire: u8, tag: u32, source: &mut Bytes) -> (skipped: Result<
    (),
    DecodeError,
>)
    requires
        1 <= tag <= MAX_TAG,
    ensures
        match skipped {
            Ok(_) => after_unknown(
                (MAX_LEVELS - 1) as nat,
                wire,
                tag,
                buffer::octets(*old(source)),
            ) == Some(buffer::octets(*final(source))),
            Err(_) => after_unknown(
                (MAX_LEVELS - 1) as nat,
                wire,
                tag,
                buffer::octets(*old(source)),
            ) is None,
        },
        skipped is Ok ==> buffer::octets(*final(source)).len() <= buffer::octets(
            *old(source),
        ).len(),
{
    let whole = buffer::share(source);
    let ghost bytes = buffer::octets(whole);
    proof {
        let less = (MAX_LEVELS - 1) as nat;
        more_levels_do_no_harm(less, MAX_LEVELS as nat, wire, tag, bytes);
    }
    match skip_unknown(wire, tag, source) {
        Ok(_) => {},
        Err(error) => {
            return Err(error);
        },
    }
    if wire != START_GROUP {
        return Ok(());
    }
    let all = buffer::as_octets(&whole);
    let n: usize = all.len() - buffer::as_octets(source).len();
    let group = vstd::slice::slice_subrange(all, 0, n);
    assert(group@ =~= all@.take(n as int));
    let mut around = buffer::to_bytes(enclose(tag, group));
    proof {
        skipping_is_local(MAX_LEVELS as nat, wire, tag, bytes, Seq::empty());
        enclosing_takes_a_level(MAX_LEVELS as nat, tag, bytes, n as int);
    }
    skip_field(START_GROUP, 1, &mut around)
}

} // verus!
