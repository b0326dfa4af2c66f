//! How messages are read that are written otherwise than they would be here.

use vstd::prelude::*;
use crate::protobuf;
use crate::protobuf::fields;
use crate::protobuf::fields::{FieldView, Message};
use crate::protobuf::{LENGTH_DELIMITED, VARINT};
use crate::wire::layout;

verus! {

/// A field that a message does not know, with a number or with bytes, is
/// skipped: what follows it is read as if it were not there.
pub proof fn unknown_fields_are_skipped<M: Message>(
    inner: bool,
    tag: u32,
    value: u64,
    content: Seq<u8>,
    rest: Seq<u8>,
)
    requires
        1 <= tag <= 0x1fff_ffff,
        M::holds(tag) is None,
        content.len() <= u64::MAX,
    ensures
        fields::parse_fields::<M>(
            inner,
            layout::base128((8 * tag) as nat) + layout::base128(value as nat) + rest,
        ) == fields::parse_fields::<M>(inner, rest),
        fields::parse_fields::<M>(
            inner,
            layout::base128((8 * tag + 2) as nat) + layout::base128(content.len()) + content + rest,
        ) == fields::parse_fields::<M>(inner, rest),
{
    layout::numbers_are_written_in_sevens((8 * tag) as nat);
    layout::numbers_are_written_in_sevens((8 * tag + 2) as nat);
    layout::numbers_are_written_in_sevens(value as nat);
    layout::numbers_are_written_in_sevens(content.len());
    let body = protobuf::varint(value as nat) + rest;
    let all = protobuf::key(tag, VARINT) + body;
    assert(all =~= layout::base128((8 * tag) as nat) + layout::base128(value as nat) + rest);
    assert(fields::take_field::<M>(inner, tag, VARINT, body) == Some(
        (None::<FieldView>, rest),
    )) by {
        reveal(fields::take_field);
        protobuf::uint_is_read_back(value as nat, rest);
    }
    protobuf::key_is_read_back(tag, VARINT, body);
    let more = protobuf::varint(content.len()) + content + rest;
    let whole = protobuf::key(tag, LENGTH_DELIMITED) + more;
    assert(whole =~= layout::base128((8 * tag + 2) as nat) + layout::base128(content.len())
        + content + rest);
    assert(fields::take_field::<M>(inner, tag, LENGTH_DELIMITED, more) == Some(
        (None::<FieldView>, rest),
    )) by {
        reveal(fields::take_field);
        protobuf::bytes_are_read_back(content, rest);
    }
    protobuf::key_is_read_back(tag, LENGTH_DELIMITED, more);
    reveal(fields::parse_fields);
}

/// Of several fields with one tag the last counts, and of a field that may occur
/// more than once all count, in their order.
pub proof fn the_last_field_counts(
    list: Seq<FieldView>,
    tag: u32,
    value: u64,
    content: Seq<u8>,
    n: u64,
    s: Seq<u8>,
)
    ensures
        fields::number_of(list + seq![FieldView::Number { tag, value }], tag, n) == value,
        fields::bytes_of(list + seq![FieldView::Bytes { tag, content }], tag, s) == content,
        fields::all_bytes_of(list + seq![FieldView::Bytes { tag, content }], tag)
            == fields::all_bytes_of(list, tag) + seq![content],
{
    let number = seq![FieldView::Number { tag, value }];
    let bytes = seq![FieldView::Bytes { tag, content }];
    fields::values_add(list, number, tag, n, s);
    fields::values_add(list, bytes, tag, n, s);
    reveal_with_fuel(fields::number_of, 2);
    reveal_with_fuel(fields::bytes_of, 2);
    reveal_with_fuel(fields::all_bytes_of, 2);
    assert(number.drop_first() =~= Seq::<FieldView>::empty());
    assert(bytes.drop_first() =~= Seq::<FieldView>::empty());
    assert(fields::all_bytes_of(bytes, tag) =~= seq![content]);
}

} // verus!
