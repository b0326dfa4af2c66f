//! Lists of destinations: what the payload of a multicast packet starts with.

use bytes::Bytes;
use vstd::prelude::*;
use crate::buffer;
use crate::types::NodeId;
use crate::wire::packet::{MULTICAST_COUNT_LEN, NODE_ID_LEN};

verus! {

/// The bytes of identities in a row.
pub open spec fn ids_bytes(ids: Seq<NodeId>) -> Seq<u8>
    decreases ids.len(),
{
    if ids.len() == 0 {
        Seq::empty()
    } else {
        ids_bytes(ids.drop_last()) + ids.last().bytes()
    }
}

/// A payload for several destinations: how many there are, each of them, and
/// what they all get.
pub open spec fn list_bytes(destinations: Seq<NodeId>, body: Seq<u8>) -> Seq<u8> {
    buffer::big_endian(destinations.len(), MULTICAST_COUNT_LEN as nat) + ids_bytes(destinations)
        + body
}

/// How many destinations a payload starts with.
pub open spec fn count_of(payload: Seq<u8>) -> nat {
    buffer::big_endian_value(payload.take(MULTICAST_COUNT_LEN as int))
}

/// The destinations that a payload starts with, and what they get; `None` where
/// there is no destination or the payload ends before the last of them.
pub open spec fn parse_list(payload: Seq<u8>) -> Option<(Seq<NodeId>, Seq<u8>)> {
    let n = count_of(payload);
    let end = MULTICAST_COUNT_LEN + NODE_ID_LEN * n;
    if payload.len() < MULTICAST_COUNT_LEN || n == 0 || payload.len() < end {
        None
    } else {
        Some((Seq::new(n, |i: int| NodeId::of(id_bytes(payload, i))), payload.skip(end)))
    }
}

/// The bytes of the destination at an index.
pub open spec fn id_bytes(payload: Seq<u8>, i: int) -> Seq<u8> {
    payload.subrange(
        MULTICAST_COUNT_LEN + NODE_ID_LEN * i,
        MULTICAST_COUNT_LEN + NODE_ID_LEN * (i + 1),
    )
}

/// Identities in a row take thirty-two bytes each.
pub proof fn ids_len(ids: Seq<NodeId>)
    ensures
        ids_bytes(ids).len() == NODE_ID_LEN * ids.len(),
    decreases ids.len(),
{
    if ids.len() > 0 {
        ids_len(ids.drop_last());
        ids.last().bytes_len();
    }
}

/// A payload takes two bytes, thirty-two for each destination, and what they
/// get.
pub proof fn list_len(destinations: Seq<NodeId>, body: Seq<u8>)
    ensures
        list_bytes(destinations, body).len() == MULTICAST_COUNT_LEN + NODE_ID_LEN
            * destinations.len() + body.len(),
{
    ids_len(destinations);
    buffer::big_endian_len(destinations.len(), MULTICAST_COUNT_LEN as nat);
}

/// Each of several identities stands at its place.
pub(crate) proof fn ids_stand_in_a_row(ids: Seq<NodeId>, i: int)
    requires
        0 <= i < ids.len(),
    ensures
        ids_bytes(ids).len() == NODE_ID_LEN * ids.len(),
        ids_bytes(ids).subrange(NODE_ID_LEN * i, NODE_ID_LEN * (i + 1)) == ids[i].bytes(),
    decreases ids.len(),
{
    let less = ids.drop_last();
    ids_len(ids);
    ids_len(less);
    ids.last().bytes_len();
    if i < less.len() {
        ids_stand_in_a_row(less, i);
        assert(ids_bytes(ids).subrange(NODE_ID_LEN * i, NODE_ID_LEN * (i + 1)) =~= ids_bytes(
            less,
        ).subrange(NODE_ID_LEN * i, NODE_ID_LEN * (i + 1)));
    } else {
        assert(ids_bytes(ids).subrange(NODE_ID_LEN * i, NODE_ID_LEN * (i + 1)) =~= ids[i].bytes());
    }
}

/// Reading gives back what was written.
pub proof fn written_lists_are_read_back(destinations: Seq<NodeId>, body: Seq<u8>)
    requires
        0 < destinations.len() <= u16::MAX,
    ensures
        parse_list(list_bytes(destinations, body)) == Some((destinations, body)),
{
    let bytes = list_bytes(destinations, body);
    let n = destinations.len();
    buffer::ranges();
    buffer::big_endian_is_read_back(n, MULTICAST_COUNT_LEN as nat);
    list_len(destinations, body);
    ids_len(destinations);
    assert(bytes.take(2) =~= buffer::big_endian(n, 2));
    let (found, _) = parse_list(bytes)->0;
    assert forall|i: int| 0 <= i < n implies #[trigger] found[i] == destinations[i] by {
        ids_stand_in_a_row(destinations, i);
        assert(id_bytes(bytes, i) =~= ids_bytes(destinations).subrange(
            NODE_ID_LEN * i,
            NODE_ID_LEN * (i + 1),
        ));
        destinations[i].of_own_bytes();
    }
    assert(found =~= destinations);
    assert(bytes.skip(2 + 32 * n as int) =~= body);
}

/// Writes a payload for several destinations.
pub(crate) fn write_list(destinations: &Vec<NodeId>, body: &Bytes) -> (payload: Bytes)
    ensures
        buffer::octets(payload) == list_bytes(destinations@, buffer::octets(*body)),
{
    let n: usize = destinations.len();
    let mut bytes: Vec<u8> = Vec::new();
    bytes.push((n / 256 % 256) as u8);
    bytes.push((n % 256) as u8);
    proof {
        reveal_with_fuel(buffer::big_endian, 3);
        assert(bytes@ =~= buffer::big_endian(n as nat, 2));
    }
    let ghost count = bytes@;
    let mut i: usize = 0;
    assert(destinations@.take(0) =~= Seq::<NodeId>::empty());
    assert(count + ids_bytes(destinations@.take(0)) =~= count);
    while i < destinations.len()
        invariant
            i <= destinations@.len(),
            bytes@ == count + ids_bytes(destinations@.take(i as int)),
        decreases destinations@.len() - i,
    {
        let id: NodeId = destinations[i];
        bytes.extend_from_slice(id.as_bytes().as_slice());
        proof {
            let more = destinations@.take(i + 1);
            assert(more.drop_last() =~= destinations@.take(i as int));
            assert(more.last() == id);
            assert(bytes@ =~= count + ids_bytes(more));
        }
        i = i + 1;
    }
    assert(destinations@.take(i as int) =~= destinations@);
    bytes.extend_from_slice(buffer::as_octets(body));
    assert(bytes@ =~= list_bytes(destinations@, buffer::octets(*body)));
    buffer::to_bytes(bytes)
}

/// The destinations that a payload starts with, and what they get.
pub(crate) fn read_list(payload: &Bytes) -> (list: Option<(Vec<NodeId>, Bytes)>)
    ensures
        match list {
            Some((destinations, body)) => parse_list(buffer::octets(*payload)) == Some(
                (destinations@, buffer::octets(body)),
            ),
            None => parse_list(buffer::octets(*payload)) is None,
        },
{
    let bytes = buffer::as_octets(payload);
    if bytes.len() < MULTICAST_COUNT_LEN {
        return None;
    }
    proof {
        buffer::ranges();
        assert(bytes@.subrange(0, 2) =~= bytes@.take(2));
    }
    let n: usize = buffer::read_big_endian(bytes, 0, MULTICAST_COUNT_LEN) as usize;
    let end: usize = MULTICAST_COUNT_LEN + NODE_ID_LEN * n;
    if n == 0 || bytes.len() < end {
        return None;
    }
    let ghost (goal, _) = parse_list(bytes@)->0;
    let mut destinations: Vec<NodeId> = Vec::new();
    let mut i: usize = 0;
    while i < n
        invariant
            i <= n,
            n <= u16::MAX,
            end == MULTICAST_COUNT_LEN + NODE_ID_LEN * n,
            end <= bytes@.len(),
            goal == Seq::new(n as nat, |k: int| NodeId::of(id_bytes(bytes@, k))),
            destinations@ == goal.take(i as int),
        decreases n - i,
    {
        destinations.push(NodeId::read(bytes, MULTICAST_COUNT_LEN + NODE_ID_LEN * i));
        assert(destinations@ =~= goal.take(i + 1));
        i = i + 1;
    }
    assert(destinations@ =~= goal);
    Some((destinations, buffer::slice_from(payload, end)))
}

} // verus!
