//! Messages as lists of fields.

use bytes::{Bytes, BytesMut};
use prost::DecodeError;
use vstd::prelude::*;
use crate::buffer;
use crate::buffer::MAX_BUFFERED;
use crate::protobuf;
use crate::protobuf::{LENGTH_DELIMITED, MAX_LEVELS, MAX_TAG, VARINT};

verus! {

/// What a field holds.
#[derive(Clone, Copy, Debug, Eq, PartialEq, Structural)]
pub enum Kind {
    Uint32,
    Uint64,
    Bytes,
}

/// A kind of message: the fields that it knows.
pub trait Message {
    /// What the field with the tag holds, if the message knows it.
    spec fn holds(tag: u32) -> Option<Kind>;

    /// What the field with the tag holds, if the message knows it.
    fn kind(tag: u32) -> (kind: Option<Kind>)
        ensures
            kind == Self::holds(tag),
    ;

    /// The name of the message and that of the field with the tag, for the
    /// description of errors.
    spec fn named(tag: u32) -> (Seq<char>, Seq<char>);

    /// The name of the message and that of the field with the tag, for the
    /// description of errors.
    fn names(tag: u32) -> (names: (&'static str, &'static str))
        ensures
            (names.0@, names.1@) == Self::named(tag),
    ;
}

/// A field of a message.
pub enum Field {
    Number { tag: u32, value: u64 },
    Bytes { tag: u32, content: Bytes },
}

/// What a field says.
#[verifier::ext_equal]
pub enum FieldView {
    Number { tag: u32, value: u64 },
    Bytes { tag: u32, content: Seq<u8> },
}

impl View for Field {
    type V = FieldView;

    open spec fn view(&self) -> FieldView {
        match *self {
            Field::Number { tag, value } => FieldView::Number { tag, value },
            Field::Bytes { tag, content: value } => FieldView::Bytes { tag, content: buffer::octets(value) },
        }
    }
}

/// What a list of fields says.
pub open spec fn views(fields: Seq<Field>) -> Seq<FieldView> {
    fields.map_values(|field: Field| field@)
}

/// The bytes of a field.
pub open spec fn field_bytes(field: FieldView) -> Seq<u8> {
    match field {
        FieldView::Number { tag, value } => protobuf::uint_field(tag, value as nat),
        FieldView::Bytes { tag, content: value } => protobuf::bytes_field(tag, value),
    }
}

/// The bytes of a list of fields.
pub open spec fn fields_bytes(fields: Seq<FieldView>) -> Seq<u8>
    decreases fields.len(),
{
    if fields.len() == 0 {
        Seq::empty()
    } else {
        field_bytes(fields[0]) + fields_bytes(fields.drop_first())
    }
}

/// How many levels of groups may be nested in a message. An inner message is
/// itself a field of a message, which takes one of them.
pub open spec fn levels_in(inner: bool) -> nat {
    if inner {
        (MAX_LEVELS - 1) as nat
    } else {
        MAX_LEVELS as nat
    }
}

/// Takes one field, and gives what follows it. A field that the message does
/// not know is skipped.
#[verifier::opaque]
pub open spec fn take_field<M: Message>(inner: bool, tag: u32, wire: u8, bytes: Seq<u8>) -> Option<
    (Option<FieldView>, Seq<u8>),
> {
    match M::holds(tag) {
        Some(Kind::Uint32) => match protobuf::take_uint(wire, bytes) {
            Some((value, rest)) => Some(
                (
                    Some(FieldView::Number { tag, value: (value % 0x1_0000_0000) as u64 }),
                    rest,
                ),
            ),
            None => None,
        },
        Some(Kind::Uint64) => match protobuf::take_uint(wire, bytes) {
            Some((value, rest)) => Some(
                (Some(FieldView::Number { tag, value: value as u64 }), rest),
            ),
            None => None,
        },
        Some(Kind::Bytes) => match protobuf::take_bytes(wire, bytes) {
            Some((value, rest)) => Some((Some(FieldView::Bytes { tag, content: value }), rest)),
            None => None,
        },
        None => match protobuf::after_unknown(levels_in(inner), wire, tag, bytes) {
            Some(rest) => Some((None, rest)),
            None => None,
        },
    }
}

/// The list with what was found in front of it.
pub open spec fn found_before(found: Option<FieldView>, more: Seq<FieldView>) -> Seq<FieldView> {
    match found {
        Some(field) => seq![field] + more,
        None => more,
    }
}

/// The fields that a message knows, in the order in which bytes hold them;
/// `None` where the bytes are no message.
#[verifier::opaque]
pub open spec fn parse_fields<M: Message>(inner: bool, bytes: Seq<u8>) -> Option<Seq<FieldView>>
    decreases bytes.len(),
{
    if bytes.len() == 0 {
        Some(Seq::empty())
    } else {
        match protobuf::take_key(bytes) {
            None => None,
            Some((tag, wire, body)) => match take_field::<M>(inner, tag, wire, body) {
                None => None,
                Some((found, rest)) => if rest.len() < bytes.len() {
                    match parse_fields::<M>(inner, rest) {
                        Some(more) => Some(found_before(found, more)),
                        None => None,
                    }
                } else {
                    None
                },
            },
        }
    }
}

/// The number of the last field with the tag; `before` where there is none.
pub open spec fn number_of(fields: Seq<FieldView>, tag: u32, before: u64) -> u64
    decreases fields.len(),
{
    if fields.len() == 0 {
        before
    } else {
        number_of(
            fields.drop_first(),
            tag,
            match fields[0] {
                FieldView::Number { tag: t, value } => if t == tag {
                    value
                } else {
                    before
                },
                _ => before,
            },
        )
    }
}

/// The bytes of the last field with the tag; `before` where there is none.
pub open spec fn bytes_of(fields: Seq<FieldView>, tag: u32, before: Seq<u8>) -> Seq<u8>
    decreases fields.len(),
{
    if fields.len() == 0 {
        before
    } else {
        bytes_of(
            fields.drop_first(),
            tag,
            match fields[0] {
                FieldView::Bytes { tag: t, content: value } => if t == tag {
                    value
                } else {
                    before
                },
                _ => before,
            },
        )
    }
}

/// The bytes of every field with the tag.
pub open spec fn all_bytes_of(fields: Seq<FieldView>, tag: u32) -> Seq<Seq<u8>>
    decreases fields.len(),
{
    if fields.len() == 0 {
        Seq::empty()
    } else {
        (match fields[0] {
            FieldView::Bytes { tag: t, content: value } => if t == tag {
                seq![value]
            } else {
                Seq::empty()
            },
            _ => Seq::empty(),
        }) + all_bytes_of(fields.drop_first(), tag)
    }
}

/// A field with a number, left out where the number is zero.
pub open spec fn number(tag: u32, value: u64) -> Seq<FieldView> {
    if value == 0 {
        Seq::empty()
    } else {
        seq![FieldView::Number { tag, value }]
    }
}

/// A field with bytes, left out where there are none.
pub open spec fn bytes(tag: u32, value: Seq<u8>) -> Seq<FieldView> {
    if value.len() == 0 {
        Seq::empty()
    } else {
        seq![FieldView::Bytes { tag, content: value }]
    }
}

/// A field for each of the values.
pub open spec fn repeated(tag: u32, values: Seq<Seq<u8>>) -> Seq<FieldView> {
    Seq::new(values.len(), |i: int| FieldView::Bytes { tag, content: values[i] })
}

/// The bytes of two lists in a row.
pub proof fn fields_bytes_add(a: Seq<FieldView>, b: Seq<FieldView>)
    ensures
        fields_bytes(a + b) == fields_bytes(a) + fields_bytes(b),
    decreases a.len(),
{
    if a.len() == 0 {
        assert(a + b =~= b);
        assert(fields_bytes(a) + fields_bytes(b) =~= fields_bytes(b));
    } else {
        fields_bytes_add(a.drop_first(), b);
        assert((a + b).drop_first() =~= a.drop_first() + b);
        assert(fields_bytes(a + b) =~= fields_bytes(a) + fields_bytes(b));
    }
}

/// The bytes of a list of one field.
pub proof fn fields_bytes_one(field: FieldView)
    ensures
        fields_bytes(seq![field]) == field_bytes(field),
{
    assert(seq![field].drop_first() =~= Seq::<FieldView>::empty());
    assert(fields_bytes(Seq::<FieldView>::empty()) =~= Seq::<u8>::empty());
    assert(fields_bytes(seq![field]) =~= field_bytes(field));
}

/// What two lists in a row hold.
pub proof fn values_add(a: Seq<FieldView>, b: Seq<FieldView>, tag: u32, n: u64, s: Seq<u8>)
    ensures
        number_of(a + b, tag, n) == number_of(b, tag, number_of(a, tag, n)),
        bytes_of(a + b, tag, s) == bytes_of(b, tag, bytes_of(a, tag, s)),
        all_bytes_of(a + b, tag) == all_bytes_of(a, tag) + all_bytes_of(b, tag),
    decreases a.len(),
{
    if a.len() == 0 {
        assert(a + b =~= b);
        assert(all_bytes_of(a + b, tag) =~= all_bytes_of(a, tag) + all_bytes_of(b, tag));
    } else {
        let n1 = match a[0] {
            FieldView::Number { tag: t, value } => if t == tag {
                value
            } else {
                n
            },
            _ => n,
        };
        let s1 = match a[0] {
            FieldView::Bytes { tag: t, content: value } => if t == tag {
                value
            } else {
                s
            },
            _ => s,
        };
        assert((a + b)[0] == a[0]);
        assert((a + b).drop_first() =~= a.drop_first() + b);
        values_add(a.drop_first(), b, tag, n1, s1);
        assert(all_bytes_of(a + b, tag) =~= all_bytes_of(a, tag) + all_bytes_of(b, tag));
    }
}

/// What a list of at most one field holds.
pub proof fn values_one(tag: u32, value: u64, content: Seq<u8>, t: u32, n: u64, s: Seq<u8>)
    ensures
        number_of(number(tag, value), t, n) == if t == tag && value != 0 {
            value
        } else {
            n
        },
        bytes_of(number(tag, value), t, s) == s,
        all_bytes_of(number(tag, value), t) == Seq::<Seq<u8>>::empty(),
        number_of(bytes(tag, content), t, n) == n,
        bytes_of(bytes(tag, content), t, s) == if t == tag && content.len() != 0 {
            content
        } else {
            s
        },
        t != tag ==> all_bytes_of(bytes(tag, content), t) == Seq::<Seq<u8>>::empty(),
{
    reveal_with_fuel(number_of, 2);
    reveal_with_fuel(bytes_of, 2);
    reveal_with_fuel(all_bytes_of, 2);
    assert(all_bytes_of(number(tag, value), t) =~= Seq::<Seq<u8>>::empty());
    if t != tag {
        assert(all_bytes_of(bytes(tag, content), t) =~= Seq::<Seq<u8>>::empty());
    }
}

/// What repeated fields hold.
pub proof fn values_repeated(tag: u32, values: Seq<Seq<u8>>, t: u32, n: u64, s: Seq<u8>)
    ensures
        number_of(repeated(tag, values), t, n) == n,
        t != tag ==> bytes_of(repeated(tag, values), t, s) == s,
        t != tag ==> all_bytes_of(repeated(tag, values), t) == Seq::<Seq<u8>>::empty(),
        all_bytes_of(repeated(tag, values), tag) == values,
    decreases values.len(),
{
    let list = repeated(tag, values);
    if values.len() == 0 {
        assert(all_bytes_of(list, tag) =~= values);
    } else {
        values_repeated(tag, values.drop_first(), t, n, s);
        assert(list.drop_first() =~= repeated(tag, values.drop_first()));
        assert(all_bytes_of(list, tag) =~= seq![values[0]] + values.drop_first());
        assert(seq![values[0]] + values.drop_first() =~= values);
        if t != tag {
            assert(all_bytes_of(list, t) =~= Seq::<Seq<u8>>::empty());
        }
    }
}

/// The message knows the field, and what it holds is of the field's kind.
pub open spec fn suits<M: Message>(field: FieldView) -> bool {
    match field {
        FieldView::Number { tag, value } => {
            &&& 1 <= tag <= MAX_TAG
            &&& M::holds(tag) == Some(Kind::Uint64) || M::holds(tag) == Some(Kind::Uint32) && value
                <= u32::MAX
        },
        FieldView::Bytes { tag, content: value } => {
            &&& 1 <= tag <= MAX_TAG
            &&& M::holds(tag) == Some(Kind::Bytes)
            &&& value.len() <= u64::MAX
        },
    }
}

/// A field is read back, whatever follows it.
proof fn field_is_read_back<M: Message>(inner: bool, field: FieldView, rest: Seq<u8>)
    requires
        suits::<M>(field),
    ensures
        parse_fields::<M>(inner, field_bytes(field) + rest) == match parse_fields::<M>(inner, rest) {
            Some(more) => Some(seq![field] + more),
            None => None,
        },
{
    let all = field_bytes(field) + rest;
    let (tag, wire, body) = match field {
        FieldView::Number { tag, value } => {
            let body = protobuf::varint(value as nat) + rest;
            assert(take_field::<M>(inner, tag, VARINT, body) == Some((Some(field), rest))) by {
                reveal(take_field);
                protobuf::uint_is_read_back(value as nat, rest);
            }
            (tag, VARINT, body)
        },
        FieldView::Bytes { tag, content: value } => {
            let body = protobuf::varint(value.len()) + value + rest;
            assert(take_field::<M>(inner, tag, LENGTH_DELIMITED, body) == Some(
                (Some(field), rest),
            )) by {
                reveal(take_field);
                protobuf::bytes_are_read_back(value, rest);
            }
            (tag, LENGTH_DELIMITED, body)
        },
    };
    assert(all =~= protobuf::key(tag, wire) + body);
    protobuf::key_is_read_back(tag, wire, body);
    assert(rest.len() < all.len());
    reveal(parse_fields);
}

/// Reading gives back what was written: the bytes of fields that a message
/// knows are read as these fields.
pub proof fn written_fields_are_read_back<M: Message>(inner: bool, fields: Seq<FieldView>)
    requires
        forall|i: int| 0 <= i < fields.len() ==> suits::<M>(#[trigger] fields[i]),
    ensures
        parse_fields::<M>(inner, fields_bytes(fields)) == Some(fields),
    decreases fields.len(),
{
    if fields.len() == 0 {
        reveal(parse_fields);
        assert(fields =~= Seq::<FieldView>::empty());
    } else {
        let more = fields.drop_first();
        assert forall|i: int| 0 <= i < more.len() implies suits::<M>(#[trigger] more[i]) by {
            assert(more[i] == fields[i + 1]);
        }
        written_fields_are_read_back::<M>(inner, more);
        field_is_read_back::<M>(inner, fields[0], fields_bytes(more));
        assert(seq![fields[0]] + more =~= fields);
    }
}

/// A field takes little more than what it holds.
pub proof fn field_len_is_bounded(field: FieldView)
    requires
        match field {
            FieldView::Number { tag, value } => 1 <= tag <= MAX_TAG,
            FieldView::Bytes { tag, content: value } => 1 <= tag <= MAX_TAG && value.len() <= u64::MAX,
        },
    ensures
        match field {
            FieldView::Number { tag, value } => field_bytes(field).len() <= 20,
            FieldView::Bytes { tag, content: value } => field_bytes(field).len() <= 20 + value.len(),
        },
{
    match field {
        FieldView::Number { tag, value } => {
            protobuf::key_is_read_back(tag, VARINT, Seq::empty());
            protobuf::varint_is_read_back(value as nat, Seq::empty());
        },
        FieldView::Bytes { tag, content: value } => {
            protobuf::key_is_read_back(tag, LENGTH_DELIMITED, Seq::empty());
            protobuf::varint_is_read_back(value.len(), Seq::empty());
        },
    }
}

/// Lists of fields take little more than what they hold.
pub proof fn lens_are_bounded(tag: u32, value: u64, content: Seq<u8>, values: Seq<Seq<u8>>, each: nat)
    requires
        1 <= tag <= MAX_TAG,
        content.len() <= u64::MAX,
        each <= u64::MAX,
        forall|i: int| 0 <= i < values.len() ==> (#[trigger] values[i]).len() <= each,
    ensures
        fields_bytes(number(tag, value)).len() <= 20,
        fields_bytes(bytes(tag, content)).len() <= 20 + content.len(),
        fields_bytes(repeated(tag, values)).len() <= values.len() * (20 + each),
    decreases values.len(),
{
    fields_bytes_one(FieldView::Number { tag, value });
    field_len_is_bounded(FieldView::Number { tag, value });
    fields_bytes_one(FieldView::Bytes { tag, content });
    field_len_is_bounded(FieldView::Bytes { tag, content });
    if values.len() > 0 {
        let more = values.drop_first();
        assert forall|i: int| 0 <= i < more.len() implies (#[trigger] more[i]).len() <= each by {
            assert(more[i] == values[i + 1]);
        }
        lens_are_bounded(tag, value, content, more, each);
        field_len_is_bounded(FieldView::Bytes { tag, content: values[0] });
        assert(repeated(tag, values).drop_first() =~= repeated(tag, more));
        assert(values.len() * (20 + each) == more.len() * (20 + each) + (20 + each))
            by (nonlinear_arith)
            requires
                values.len() == more.len() + 1,
        ;
    }
}

/// Each of several values takes no more than all together.
pub proof fn part_fits(tag: u32, values: Seq<Seq<u8>>, i: int)
    requires
        0 <= i < values.len(),
    ensures
        values[i].len() <= fields_bytes(repeated(tag, values)).len(),
    decreases values.len(),
{
    assert(repeated(tag, values).drop_first() =~= repeated(tag, values.drop_first()));
    if i > 0 {
        part_fits(tag, values.drop_first(), i - 1);
    }
}

/// The number of bytes that a field with so many bytes takes, where its tag is
/// small.
pub(crate) fn bytes_field_len(len: usize) -> (n: u128)
    ensures
        n <= len + 12,
        forall|tag: u32, content: Seq<u8>|
            1 <= tag <= 15 && content.len() == len ==> n == fields_bytes(
                #[trigger] bytes(tag, content),
            ).len(),
{
    proof {
        assert forall|tag: u32, content: Seq<u8>|
            1 <= tag <= 15 && content.len() == len && len > 0 implies fields_bytes(
            #[trigger] bytes(tag, content),
        ).len() == 1 + protobuf::varint(len as nat).len() + len by {
            fields_bytes_one(FieldView::Bytes { tag, content });
        }
    }
    if len == 0 {
        0
    } else {
        let prefix: usize = protobuf::varint_len(len as u64);
        1 + prefix as u128 + len as u128
    }
}

/// Takes one field.
fn read_field<M: Message>(inner: bool, tag: u32, wire: u8, source: &mut Bytes) -> (field: Result<
    Option<Field>,
    DecodeError,
>)
    requires
        1 <= tag <= MAX_TAG,
    ensures
        match field {
            Ok(found) => take_field::<M>(inner, tag, wire, buffer::octets(*old(source))) == Some(
                (
                    match found {
                        Some(f) => Some(f@),
                        None => None,
                    },
                    buffer::octets(*final(source)),
                ),
            ) && buffer::octets(*final(source)).len() <= buffer::octets(*old(source)).len(),
            Err(_) => take_field::<M>(inner, tag, wire, buffer::octets(*old(source))) is None,
        },
{
    proof {
        reveal(take_field);
        protobuf::taking_shortens(wire, tag, buffer::octets(*source));
    }
    let error = match M::kind(tag) {
        Some(Kind::Uint32) => match protobuf::get_uint32(wire, source) {
            Ok(value) => {
                return Ok(Some(Field::Number { tag, value: value as u64 }));
            },
            Err(error) => error,
        },
        Some(Kind::Uint64) => match protobuf::get_uint64(wire, source) {
            Ok(value) => {
                return Ok(Some(Field::Number { tag, value }));
            },
            Err(error) => error,
        },
        Some(Kind::Bytes) => match protobuf::get_bytes(wire, source) {
            Ok(value) => {
                return Ok(Some(Field::Bytes { tag, content: value }));
            },
            Err(error) => error,
        },
        None => {
            let skipped = if inner {
                protobuf::skip_inner(wire, tag, source)
            } else {
                protobuf::skip_unknown(wire, tag, source)
            };
            return match skipped {
                Ok(_) => Ok(None),
                Err(error) => Err(error),
            };
        },
    };
    let (message, name) = M::names(tag);
    Err(protobuf::located(error, message, name))
}

/// The fields that a message knows, in the order in which bytes hold them.
pub(crate) fn read_fields<M: Message>(inner: bool, source: Bytes) -> (fields: Result<
    Vec<Field>,
    DecodeError,
>)
    ensures
        match fields {
            Ok(list) => parse_fields::<M>(inner, buffer::octets(source)) == Some(views(list@)),
            Err(_) => parse_fields::<M>(inner, buffer::octets(source)) is None,
        },
{
    let ghost all = buffer::octets(source);
    let mut rest = source;
    let mut fields: Vec<Field> = Vec::new();
    assert(views(fields@) =~= Seq::<FieldView>::empty());
    proof {
        assert(parse_fields::<M>(inner, all) == match parse_fields::<M>(inner, all) {
            Some(more) => Some(views(fields@) + more),
            None => None,
        }) by {
            if let Some(more) = parse_fields::<M>(inner, all) {
                assert(views(fields@) + more =~= more);
            }
        }
    }
    while buffer::as_octets(&rest).len() > 0
        invariant
            all == buffer::octets(source),
            parse_fields::<M>(inner, all) == match parse_fields::<M>(inner, buffer::octets(rest)) {
                Some(more) => Some(views(fields@) + more),
                None => None,
            },
        decreases buffer::octets(rest).len(),
    {
        let ghost before = buffer::octets(rest);
        let ghost done = views(fields@);
        proof {
            reveal(parse_fields);
        }
        let (tag, wire) = match protobuf::get_key(&mut rest) {
            Ok(key) => key,
            Err(error) => {
                return Err(error);
            },
        };
        proof {
            protobuf::taking_shortens(wire, tag, before);
        }
        match read_field::<M>(inner, tag, wire, &mut rest) {
            Ok(Some(field)) => {
                fields.push(field);
                proof {
                    assert(views(fields@) =~= done.push(field@));
                    if let Some(more) = parse_fields::<M>(inner, buffer::octets(rest)) {
                        assert(done + (seq![field@] + more) =~= views(fields@) + more);
                    }
                }
            },
            Ok(None) => {},
            Err(error) => {
                return Err(error);
            },
        }
    }
    proof {
        reveal(parse_fields);
        assert(views(fields@) + Seq::<FieldView>::empty() =~= views(fields@));
    }
    Ok(fields)
}

/// The number of the last field with the tag, or zero.
pub(crate) fn find_number(fields: &Vec<Field>, tag: u32) -> (value: u64)
    ensures
        value == number_of(views(fields@), tag, 0),
{
    let mut found: u64 = 0;
    let mut i: usize = 0;
    while i < fields.len()
        invariant
            i <= fields@.len(),
            found == number_of(views(fields@.take(i as int)), tag, 0),
        decreases fields@.len() - i,
    {
        let ghost done = views(fields@.take(i as int));
        proof {
            let next = views(fields@.take(i + 1));
            assert(next =~= done + seq![fields@[i as int]@]);
            values_add(done, seq![fields@[i as int]@], tag, 0, Seq::empty());
            reveal_with_fuel(number_of, 2);
        }
        if let Field::Number { tag: t, value } = &fields[i] {
            if *t == tag {
                found = *value;
            }
        }
        i = i + 1;
    }
    assert(fields@.take(i as int) =~= fields@);
    found
}

/// The bytes of the last field with the tag, or none.
pub(crate) fn find_bytes(fields: &Vec<Field>, tag: u32) -> (value: Bytes)
    ensures
        buffer::octets(value) == bytes_of(views(fields@), tag, Seq::empty()),
{
    let mut found = buffer::to_bytes(Vec::new());
    let mut i: usize = 0;
    assert(buffer::octets(found) =~= Seq::<u8>::empty());
    while i < fields.len()
        invariant
            i <= fields@.len(),
            buffer::octets(found) == bytes_of(
                views(fields@.take(i as int)),
                tag,
                Seq::empty(),
            ),
        decreases fields@.len() - i,
    {
        let ghost done = views(fields@.take(i as int));
        proof {
            let next = views(fields@.take(i + 1));
            assert(next =~= done + seq![fields@[i as int]@]);
            values_add(done, seq![fields@[i as int]@], tag, 0, Seq::empty());
            reveal_with_fuel(bytes_of, 2);
        }
        if let Field::Bytes { tag: t, content: value } = &fields[i] {
            if *t == tag {
                found = buffer::share(value);
            }
        }
        i = i + 1;
    }
    assert(fields@.take(i as int) =~= fields@);
    found
}

/// What each of several shared buffers holds.
pub open spec fn contents(list: Seq<Bytes>) -> Seq<Seq<u8>> {
    list.map_values(|value: Bytes| buffer::octets(value))
}

/// What one buffer more holds.
pub proof fn contents_push(list: Seq<Bytes>, value: Bytes)
    ensures
        contents(list.push(value)) == contents(list).push(buffer::octets(value)),
{
    assert(contents(list.push(value)) =~= contents(list).push(buffer::octets(value)));
}

/// The bytes of every field with the tag.
pub(crate) fn find_all_bytes(fields: &Vec<Field>, tag: u32) -> (values: Vec<Bytes>)
    ensures
        contents(values@) == all_bytes_of(views(fields@), tag),
{
    let mut found: Vec<Bytes> = Vec::new();
    let mut i: usize = 0;
    assert(contents(found@) =~= Seq::<Seq<u8>>::empty());
    while i < fields.len()
        invariant
            i <= fields@.len(),
            contents(found@) == all_bytes_of(views(fields@.take(i as int)), tag),
        decreases fields@.len() - i,
    {
        let ghost done = views(fields@.take(i as int));
        let ghost sofar = contents(found@);
        proof {
            let next = views(fields@.take(i + 1));
            assert(next =~= done + seq![fields@[i as int]@]);
            values_add(done, seq![fields@[i as int]@], tag, 0, Seq::empty());
            reveal_with_fuel(all_bytes_of, 2);
        }
        if let Field::Bytes { tag: t, content: value } = &fields[i] {
            if *t == tag {
                found.push(buffer::share(value));
                assert(contents(found@) =~= sofar.push(buffer::octets(*value)));
                assert(contents(found@) =~= all_bytes_of(views(fields@.take(i + 1)), tag));
            } else {
                assert(contents(found@) =~= all_bytes_of(views(fields@.take(i + 1)), tag));
            }
        } else {
            assert(contents(found@) =~= all_bytes_of(views(fields@.take(i + 1)), tag));
        }
        i = i + 1;
    }
    assert(fields@.take(i as int) =~= fields@);
    found
}

/// Adds a field with a number, unless it is zero.
pub(crate) fn add_number(fields: &mut Vec<Field>, tag: u32, value: u64)
    ensures
        views(final(fields)@) == views(old(fields)@) + number(tag, value),
{
    let ghost before = views(fields@);
    if value != 0 {
        fields.push(Field::Number { tag, value });
    }
    assert(views(fields@) =~= before + number(tag, value));
}

/// Adds a field with bytes, unless there are none.
pub(crate) fn add_bytes(fields: &mut Vec<Field>, tag: u32, value: &Bytes)
    ensures
        views(final(fields)@) == views(old(fields)@) + bytes(tag, buffer::octets(*value)),
{
    let ghost before = views(fields@);
    if buffer::as_octets(value).len() != 0 {
        fields.push(Field::Bytes { tag, content: buffer::share(value) });
    }
    assert(views(fields@) =~= before + bytes(tag, buffer::octets(*value)));
}

/// Adds a field for each of the values.
pub(crate) fn add_repeated(fields: &mut Vec<Field>, tag: u32, values: Vec<Bytes>)
    ensures
        views(final(fields)@) == views(old(fields)@) + repeated(tag, contents(values@)),
{
    let ghost before = views(fields@);
    let mut i: usize = 0;
    assert(before =~= before + repeated(tag, contents(values@.take(0))));
    while i < values.len()
        invariant
            i <= values@.len(),
            views(fields@) == before + repeated(tag, contents(values@.take(i as int))),
        decreases values@.len() - i,
    {
        let ghost sofar = views(fields@);
        fields.push(Field::Bytes { tag, content: buffer::share(&values[i]) });
        proof {
            let next = contents(values@.take(i + 1));
            assert(views(fields@) =~= sofar.push(
                FieldView::Bytes { tag, content: buffer::octets(values@[i as int]) },
            ));
            assert(views(fields@) =~= before + repeated(tag, next));
        }
        i = i + 1;
    }
    assert(values@.take(i as int) =~= values@);
}

/// The values that bytes are read as, one by one; `None` where one of them is
/// not read.
pub open spec fn read_each<T>(parts: Seq<Seq<u8>>, read: spec_fn(Seq<u8>) -> Option<T>) -> Option<
    Seq<T>,
> {
    if forall|i: int| 0 <= i < parts.len() ==> read(#[trigger] parts[i]) is Some {
        Some(Seq::new(parts.len(), |i: int| read(parts[i])->0))
    } else {
        None
    }
}

/// The fields all have tags that can be written.
pub open spec fn have_tags(fields: Seq<FieldView>) -> bool {
    forall|i: int|
        0 <= i < fields.len() ==> match #[trigger] fields[i] {
            FieldView::Number { tag, .. } => 1 <= tag <= MAX_TAG,
            FieldView::Bytes { tag, .. } => 1 <= tag <= MAX_TAG,
        }
}

/// Writes fields one after the other.
pub(crate) fn write_fields(fields: &Vec<Field>) -> (encoded: Bytes)
    requires
        have_tags(views(fields@)),
        fields_bytes(views(fields@)).len() <= MAX_BUFFERED,
    ensures
        buffer::octets(encoded) == fields_bytes(views(fields@)),
{
    let ghost all = views(fields@);
    let mut encoded: BytesMut = buffer::new_buffer(0);
    let mut i: usize = 0;
    assert(views(fields@.take(0)) =~= Seq::<FieldView>::empty());
    while i < fields.len()
        invariant
            i <= fields@.len(),
            all == views(fields@),
            have_tags(all),
            fields_bytes(all).len() <= MAX_BUFFERED,
            buffer::buffered(encoded) == fields_bytes(views(fields@.take(i as int))),
        decreases fields@.len() - i,
    {
        let ghost done = views(fields@.take(i as int));
        let ghost field = fields@[i as int]@;
        proof {
            let rest = all.skip(i + 1);
            assert(views(fields@.take(i + 1)) =~= done + seq![field]);
            fields_bytes_add(done, seq![field]);
            fields_bytes_one(field);
            assert(all =~= (done + seq![field]) + rest);
            fields_bytes_add(done + seq![field], rest);
            assert(all[i as int] == field);
        }
        match &fields[i] {
            Field::Number { tag, value } => {
                protobuf::put_uint64(&mut encoded, *tag, *value);
            },
            Field::Bytes { tag, content: value } => {
                protobuf::put_bytes(&mut encoded, *tag, value);
            },
        }
        i = i + 1;
    }
    assert(fields@.take(i as int) =~= fields@);
    buffer::freeze(encoded)
}

} // verus!
