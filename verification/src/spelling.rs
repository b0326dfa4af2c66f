//! How numbers, bytes and identities are spelled, and how they are ordered.

use vstd::prelude::*;
use crate::order;
use crate::order::{Key, Rel};
use crate::text;
use crate::types::{LinkId, MonoTime, NodeId};

verus! {

/// The character is the hexadecimal digit of the value, in lower case.
pub open spec fn is_digit_of(c: char, value: int) -> bool {
    if value < 10 {
        c as nat == 48 + value
    } else {
        c as nat == 87 + value
    }
}

/// The digit of a value below sixteen.
proof fn digits(value: int)
    requires
        0 <= value < 16,
    ensures
        is_digit_of(text::hex_digit(value), value),
{
    assert('0' as nat == 48);
    assert('a' as nat == 97);
}

/// Bytes are spelled with two digits each, the higher one first.
pub proof fn bytes_are_spelled(bytes: &[u8], spelled: String, i: int)
    requires
        call_ensures(text::hex_text, (bytes,), spelled),
        0 <= i < bytes@.len(),
    ensures
        spelled@.len() == 2 * bytes@.len(),
        is_digit_of(spelled@[2 * i], bytes@[i] as int / 16),
        is_digit_of(spelled@[2 * i + 1], bytes@[i] as int % 16),
{
    digits(bytes@[i] as int / 16);
    digits(bytes@[i] as int % 16);
    assert((2 * i) % 2 == 0 && (2 * i) / 2 == i);
    assert((2 * i + 1) % 2 == 1 && (2 * i + 1) / 2 == i);
}

/// An identity is spelled as its thirty-two bytes are.
pub proof fn identities_are_spelled(id: &NodeId, spelled: String, i: int)
    requires
        call_ensures(NodeId::to_string, (id,), spelled),
        0 <= i < 32,
    ensures
        spelled@.len() == 64,
        is_digit_of(spelled@[2 * i], id.bytes()[i] as int / 16),
        is_digit_of(spelled@[2 * i + 1], id.bytes()[i] as int % 16),
{
    id.bytes_len();
    digits(id.bytes()[i] as int / 16);
    digits(id.bytes()[i] as int % 16);
    assert((2 * i) % 2 == 0 && (2 * i) / 2 == i);
    assert((2 * i + 1) % 2 == 1 && (2 * i + 1) / 2 == i);
}

/// The number that a row of decimal digits stands for.
pub open spec fn value_of(row: Seq<char>) -> int
    decreases row.len(),
{
    if row.len() == 0 {
        0
    } else {
        10 * value_of(row.drop_last()) + (row.last() as nat - 48)
    }
}

/// A number is spelled with decimal digits that stand for it, without a zero in
/// front unless it is zero.
pub proof fn numbers_are_spelled(value: nat)
    ensures
        text::decimal(value).len() > 0,
        value_of(text::decimal(value)) == value,
        forall|i: int|
            0 <= i < text::decimal(value).len() ==> 48 <= (#[trigger] text::decimal(value)[i]) as nat
                <= 57,
        value > 0 ==> text::decimal(value)[0] != '0',
    decreases value,
{
    let row = text::decimal(value);
    if value < 10 {
        digits(value as int);
        assert(row.drop_last().len() == 0);
        assert(value_of(row.drop_last()) == 0);
    } else {
        numbers_are_spelled(value / 10);
        let less = text::decimal(value / 10);
        digits((value % 10) as int);
        assert(row.drop_last() =~= less);
        assert(row[0] == less[0]);
    }
}

/// A number is added behind what a text says.
pub proof fn numbers_are_added(said: &mut String, value: u64)
    requires
        call_ensures(text::append_decimal, (said, value), ()),
    ensures
        final(said)@ == old(said)@ + text::decimal(value as nat),
{
}

/// Bytes are ordered like words: nothing comes before everything else, and of
/// two that are not empty the first bytes decide, or where these are the same,
/// what follows them.
pub proof fn bytes_are_ordered_like_words(a: Seq<u8>, b: Seq<u8>)
    ensures
        b.len() == 0 ==> !order::bytes_before(a, b),
        a.len() == 0 && b.len() > 0 ==> order::bytes_before(a, b),
        a.len() > 0 && b.len() > 0 ==> (order::bytes_before(a, b) <==> a[0] < b[0] || (a[0] == b[0]
            && order::bytes_before(a.drop_first(), b.drop_first()))),
{
    if a.len() == 0 && b.len() > 0 {
        assert(order::falls_short_at(a, b, 0));
    }
    if a.len() > 0 && b.len() > 0 {
        let x = a.drop_first();
        let y = b.drop_first();
        if order::bytes_before(a, b) {
            let i = choose|i: int| order::falls_short_at(a, b, i);
            if i > 0 {
                assert(a[0] == b[0]);
                assert forall|j: int| 0 <= j < i - 1 implies x[j] == y[j] by {
                    assert(a[j + 1] == b[j + 1]);
                }
                assert(order::falls_short_at(x, y, i - 1));
            }
        }
        if a[0] < b[0] {
            assert(order::falls_short_at(a, b, 0));
        }
        if a[0] == b[0] && order::bytes_before(x, y) {
            let i = choose|i: int| order::falls_short_at(x, y, i);
            assert forall|j: int| 0 <= j < i + 1 implies a[j] == b[j] by {
                if j > 0 {
                    assert(x[j - 1] == y[j - 1]);
                }
            }
            assert(order::falls_short_at(a, b, i + 1));
        }
    }
}

/// Two rows of bytes are compared as they are ordered.
pub proof fn bytes_are_compared(a: &[u8], b: &[u8], rel: Rel)
    requires
        call_ensures(order::relate_bytes, (a, b), rel),
    ensures
        rel is Before <==> order::bytes_before(a@, b@),
        rel is Same <==> a@ == b@,
        rel is After <==> order::bytes_before(b@, a@),
{
}

/// Identities are ordered as their bytes are, and links by their numbers.
pub proof fn identities_and_links_are_ordered(a: NodeId, b: NodeId, x: LinkId, y: LinkId)
    ensures
        NodeId::before(a, b) <==> order::bytes_before(a.bytes(), b.bytes()),
        LinkId::before(x, y) <==> x.value() < y.value(),
{
}

/// An identity, a link and a time are what they are made of.
pub proof fn values_are_what_they_are_made_of(
    bytes: [u8; 32],
    id: NodeId,
    number: u64,
    link: LinkId,
    time: MonoTime,
)
    requires
        call_ensures(NodeId::from_bytes, (bytes,), id),
        call_ensures(LinkId::new, (number,), link),
        call_ensures(MonoTime::from_millis, (number,), time),
    ensures
        id.bytes() == bytes@,
        link.value() == number,
        time.millis() == number,
{
}

/// An identity, a link and a time tell what they are made of.
pub proof fn values_tell_what_they_are_made_of(
    id: &NodeId,
    bytes: &[u8; 32],
    link: LinkId,
    number: u64,
    time: MonoTime,
    millis: u64,
    start: MonoTime,
)
    requires
        call_ensures(NodeId::as_bytes, (id,), bytes),
        call_ensures(LinkId::get, (link,), number),
        call_ensures(MonoTime::as_millis, (time,), millis),
        call_ensures(MonoTime::zero, (), start),
    ensures
        bytes@ == id.bytes(),
        number == link.value(),
        millis == time.millis(),
        start.millis() == 0,
{
    broadcast use MonoTime::at_millis;

}

} // verus!
