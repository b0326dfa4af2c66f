//! What a node promises to tell of itself, and to make of what it is told.

use vstd::prelude::*;
use crate::buffer;
use crate::control::cost::LinkCost;
use crate::forward::DropReason;
use crate::lab::admin;
use crate::lab::admin::{OutcomeLog, OutcomeResponse, PeerResponse, RouteResponse};
use crate::lab::admin::{RuntimeSnapshot, SnapshotResponse};
use crate::lab::args;
use crate::lab::numbers;
use crate::order;
use crate::runtime::driver::{ForwardOutcome, OutcomeView};
use crate::text;
use crate::types::{LinkId, NodeId};
use crate::wire::packet::{ForwardPacket, PacketType, Priority};

verus! {

/// The number that the last eight bytes of an identity spell, the most
/// significant first.
pub open spec fn last_eight(id: NodeId) -> int {
    0x100_0000_0000_0000 * id.bytes()[24] + 0x1_0000_0000_0000 * id.bytes()[25]
        + 0x100_0000_0000 * id.bytes()[26] + 0x1_0000_0000 * id.bytes()[27] + 0x100_0000
        * id.bytes()[28] + 0x1_0000 * id.bytes()[29] + 0x100 * id.bytes()[30] + id.bytes()[31]
}

/// What eight bytes spell.
proof fn eight_bytes_spell(bytes: Seq<u8>)
    requires
        bytes.len() == 8,
    ensures
        buffer::big_endian_value(bytes) == 0x100_0000_0000_0000 * bytes[0] + 0x1_0000_0000_0000
            * bytes[1] + 0x100_0000_0000 * bytes[2] + 0x1_0000_0000 * bytes[3] + 0x100_0000
            * bytes[4] + 0x1_0000 * bytes[5] + 0x100 * bytes[6] + bytes[7],
        buffer::big_endian_value(bytes) <= u64::MAX,
{
    reveal_with_fuel(buffer::big_endian_value, 9);
    let b7 = bytes.drop_last();
    let b6 = b7.drop_last();
    let b5 = b6.drop_last();
    let b4 = b5.drop_last();
    let b3 = b4.drop_last();
    let b2 = b3.drop_last();
    let b1 = b2.drop_last();
    assert(b1.drop_last().len() == 0);
    buffer::big_endian_is_written_back(bytes);
    buffer::ranges();
}

/// A node is told by the number that the last eight bytes of its identity spell,
/// and the identity that stands for a number has nothing but zeros in front of
/// it.
pub proof fn nodes_are_told_by_number(id: NodeId, number: u64, value: u64, made: NodeId, k: int)
    requires
        call_ensures(numbers::numeric_id, (id,), number),
        call_ensures(numbers::node_id, (value,), made),
        0 <= k < 24,
    ensures
        number == last_eight(id),
        last_eight(made) == value,
        made.bytes()[k] == 0,
{
    id.bytes_len();
    made.bytes_len();
    let tail = id.bytes().subrange(24, 32);
    eight_bytes_spell(tail);
    let last = made.bytes().subrange(24, 32);
    eight_bytes_spell(last);
    buffer::big_endian_len(value as nat, 8);
}

/// A number as an identity tells it.
proof fn number_of(id: NodeId)
    ensures
        numbers::numeric_id(id) == last_eight(id),
{
    id.bytes_len();
    eight_bytes_spell(id.bytes().subrange(24, 32));
}

/// A node tells of exactly the links that it has, each with its far end, and of
/// exactly its routes.
pub proof fn links_and_routes_are_told(
    id: u64,
    name: String,
    mesh_addr: String,
    now_ms: u64,
    snapshot: &RuntimeSnapshot,
    outcomes: Vec<OutcomeResponse>,
    told: SnapshotResponse,
    peer: PeerResponse,
    route: RouteResponse,
)
    requires
        snapshot.peers.wf(),
        snapshot.routes.wf(),
        call_ensures(
            admin::snapshot_response,
            (id, name, mesh_addr, now_ms, snapshot, outcomes),
            told,
        ),
    ensures
        told.id == id,
        told.name@ == name@,
        told.mesh_addr@ == mesh_addr@,
        told.now_ms == now_ms,
        told.outcomes@ == outcomes@,
        told.peers@.contains(peer) <==> exists|link: LinkId| #[trigger]
            snapshot.peers@.contains_key(link) && peer.link_id == link.value() && peer.peer
                == last_eight(snapshot.peers@[link]),
        told.routes@.contains(route) <==> exists|to: NodeId| #[trigger]
            snapshot.routes@.routes.contains_key(to) && route.destination == last_eight(to)
                && route.next_hop == snapshot.routes@.routes[to].next_hop.value() && route.cost
                == snapshot.routes@.routes[to].cost && route.hops
                == snapshot.routes@.routes[to].hops,
{
    let peers = snapshot.peers@;
    let routes = snapshot.routes@.routes;
    snapshot.peers.ranks_list_domain();
    snapshot.routes.destinations_are_listed();
    let links = order::finite_sets_are_listed::<LinkId>(peers.dom());
    let ends = order::finite_sets_are_listed::<NodeId>(routes.dom());
    let rows = told.peers@;
    let ways = told.routes@;
    if rows.contains(peer) {
        let k = choose|k: int| 0 <= k < rows.len() && rows[k] == peer;
        assert(links.contains(links[k]));
        assert(peers.contains_key(links[k]));
        number_of(peers[links[k]]);
    }
    if exists|link: LinkId| #[trigger]
        peers.contains_key(link) && peer.link_id == link.value() && peer.peer == last_eight(
            peers[link],
        ) {
        let link = choose|link: LinkId| #[trigger]
            peers.contains_key(link) && peer.link_id == link.value() && peer.peer == last_eight(
                peers[link],
            );
        assert(peers.dom().contains(link));
        assert(links.contains(link));
        let k = choose|k: int| 0 <= k < links.len() && links[k] == link;
        number_of(peers[link]);
        assert(rows[k] == peer);
    }
    if ways.contains(route) {
        let k = choose|k: int| 0 <= k < ways.len() && ways[k] == route;
        assert(ends.contains(ends[k]));
        assert(routes.contains_key(ends[k]));
        number_of(ends[k]);
    }
    if exists|to: NodeId| #[trigger]
        routes.contains_key(to) && route.destination == last_eight(to) && route.next_hop
            == routes[to].next_hop.value() && route.cost == routes[to].cost && route.hops
            == routes[to].hops {
        let to = choose|to: NodeId| #[trigger]
            routes.contains_key(to) && route.destination == last_eight(to) && route.next_hop
                == routes[to].next_hop.value() && route.cost == routes[to].cost && route.hops
                == routes[to].hops;
        assert(routes.dom().contains(to));
        assert(ends.contains(to));
        let k = choose|k: int| 0 <= k < ends.len() && ends[k] == to;
        number_of(to);
        assert(ways[k] == route);
    }
}

/// A node tells of every announcement that it knows, of what waits for each
/// link, and of every event, as they are and in their order. The far end of an
/// event's link is told where the link is up.
pub proof fn what_is_known_is_told(
    id: u64,
    name: String,
    mesh_addr: String,
    now_ms: u64,
    snapshot: &RuntimeSnapshot,
    outcomes: Vec<OutcomeResponse>,
    told: SnapshotResponse,
    i: int,
    k: int,
)
    requires
        snapshot.peers.wf(),
        snapshot.routes.wf(),
        call_ensures(
            admin::snapshot_response,
            (id, name, mesh_addr, now_ms, snapshot, outcomes),
            told,
        ),
    ensures
        told.lsdb@.len() == snapshot.lsas@.len(),
        0 <= i < snapshot.lsas@.len() ==> {
            let lsa = snapshot.lsas@[i];
            let row = told.lsdb@[i];
            &&& row.origin == last_eight(lsa.origin)
            &&& row.epoch == lsa.epoch
            &&& row.sequence == lsa.seq
            &&& row.adjacencies@.len() == lsa.adjacencies@.len()
            &&& 0 <= k < lsa.adjacencies@.len() ==> row.adjacencies@[k] == last_eight(
                lsa.adjacencies@[k].peer,
            )
        },
        told.queues@.len() == snapshot.queues@.len(),
        0 <= i < snapshot.queues@.len() ==> {
            &&& told.queues@[i].link_id == snapshot.queues@[i].0.value()
            &&& told.queues@[i].packets == snapshot.queues@[i].1.packet_counts
            &&& told.queues@[i].bytes == snapshot.queues@[i].1.queued_bytes
        },
        told.events@.len() == snapshot.recent_events@.len(),
        0 <= i < snapshot.recent_events@.len() ==> {
            let event = snapshot.recent_events@[i];
            let row = told.events@[i];
            &&& row.sequence == event.sequence
            &&& row.at_ms == event.at.millis()
            &&& row.kind == event.kind
            &&& row.detail@ == event.detail@
            &&& match event.link {
                Some(link) => {
                    &&& row.link_id == Some(link.value())
                    &&& if snapshot.peers@.contains_key(link) {
                        row.peer matches Some(peer) && peer == last_eight(snapshot.peers@[link])
                    } else {
                        row.peer is None
                    }
                },
                None => row.link_id is None && row.peer is None,
            }
        },
{
    if 0 <= i < snapshot.lsas@.len() {
        let lsa = snapshot.lsas@[i];
        assert(admin::shows_lsa(told.lsdb@[i], lsa));
        number_of(lsa.origin);
        if 0 <= k < lsa.adjacencies@.len() {
            number_of(lsa.adjacencies@[k].peer);
        }
    }
    if 0 <= i < snapshot.queues@.len() {
        assert(admin::shows_queue(told.queues@[i], snapshot.queues@[i]));
    }
    if 0 <= i < snapshot.recent_events@.len() {
        let event = snapshot.recent_events@[i];
        assert(admin::shows_event(told.events@[i], event, snapshot.peers@));
        if let Some(link) = event.link {
            number_of(snapshot.peers@[link]);
        }
    }
}

/// What became of a packet is told with who sent it, how urgent it was and its
/// flow. Of one that was dropped nothing more of the packet is told; of any
/// other its destination, its length and the first ninety-six bytes, as the text
/// that they are.
pub proof fn outcomes_are_told(
    sequence: u64,
    at_ms: u64,
    outcome: &ForwardOutcome,
    told: OutcomeResponse,
)
    requires
        call_ensures(admin::outcome_response, (sequence, at_ms, outcome), told),
    ensures
        ({
            let packet = match outcome@ {
                OutcomeView::Delivered(packet) => packet,
                OutcomeView::Dropped { packet, .. } => packet,
                OutcomeView::Backpressure { packet, .. } => packet,
            };
            &&& told.sequence == sequence
            &&& told.at_ms == at_ms
            &&& told.source == last_eight(packet.header.source)
            &&& told.flow_id == packet.header.flow_id
            &&& told.priority == match packet.header.priority {
                Priority::P0 => 0u8,
                Priority::P1 => 1u8,
                Priority::P2 => 2u8,
                Priority::P3 => 3u8,
            }
            &&& match outcome@ {
                OutcomeView::Dropped { reason, .. } => {
                    &&& told.kind@ == "DROPPED"@
                    &&& match reason {
                        DropReason::TtlExceeded => told.detail@ == "TtlExceeded"@,
                        DropReason::NoRoute => told.detail@ == "NoRoute"@,
                        DropReason::LoopDetected => told.detail@ == "LoopDetected"@,
                        DropReason::UnsupportedPacketType(_) => true,
                    }
                    &&& told.destination is None
                    &&& told.payload_bytes is None
                    &&& told.payload_preview@.len() == 0
                },
                _ => {
                    &&& told.destination matches Some(to) && to == last_eight(
                        packet.header.destination,
                    )
                    &&& told.payload_bytes == Some(packet.payload.len() as usize)
                    &&& told.payload_preview@ == admin::lossy_text(
                        if packet.payload.len() <= 96 {
                            packet.payload
                        } else {
                            packet.payload.take(96)
                        },
                    )
                    &&& outcome@ is Delivered ==> told.kind@ == "DELIVERED"@ && told.detail@
                        == "application delivery"@
                    &&& outcome@ matches OutcomeView::Backpressure { link, .. } ==> told.kind@
                        == "BACKPRESSURE"@ && told.detail@ == "link "@ + text::decimal(
                        link.value() as nat,
                    )
                },
            }
        }),
{
    let packet = match outcome@ {
        OutcomeView::Delivered(packet) => packet,
        OutcomeView::Dropped { packet, .. } => packet,
        OutcomeView::Backpressure { packet, .. } => packet,
    };
    number_of(packet.header.source);
    number_of(packet.header.destination);
    assert(told@ == admin::outcome_row(sequence, at_ms, outcome@));
    if packet.payload.len() == 96 {
        assert(packet.payload.take(96) =~= packet.payload);
    }
}

/// A node remembers the last hundred and twenty-eight outcomes, the oldest
/// first, each under its number.
pub proof fn outcomes_are_remembered(log: &mut OutcomeLog, at_ms: u64, outcome: &ForwardOutcome)
    requires
        old(log).rows().len() <= 128,
        call_ensures(OutcomeLog::record, (log, at_ms, outcome), ()),
    ensures
        final(log).sequence() == if old(log).sequence() < u64::MAX {
            old(log).sequence() + 1
        } else {
            0
        },
        1 <= final(log).rows().len() <= 128,
        final(log).rows().last() == admin::outcome_row(final(log).sequence(), at_ms, outcome@),
        old(log).rows().len() < 128 ==> final(log).rows().drop_last() == old(log).rows(),
        old(log).rows().len() == 128 ==> final(log).rows().drop_last() == old(log).rows().skip(1),
{
    if old(log).rows().len() < 128 {
        assert(final(log).rows().drop_last() =~= old(log).rows());
    } else {
        assert(final(log).rows().drop_last() =~= old(log).rows().skip(1));
    }
}

/// A node sends what it is asked to send as a packet for one node, with the
/// priority that was asked for and thirty-two hops to live. Only priorities up
/// to three can be asked for.
pub proof fn packets_are_made_as_asked(
    source: u64,
    destination: u64,
    priority: u8,
    flow_id: u64,
    payload: String,
    made: Result<ForwardPacket, String>,
)
    requires
        call_ensures(
            admin::request_packet,
            (source, destination, priority, flow_id, payload),
            made,
        ),
    ensures
        made is Ok <==> priority <= 3,
        made matches Ok(packet) ==> {
            let header = packet@.header;
            &&& header.packet_type == PacketType::Unicast
            &&& header.priority == match priority {
                0 => Priority::P0,
                1 => Priority::P1,
                2 => Priority::P2,
                _ => Priority::P3,
            }
            &&& header.ttl == 32
            &&& header.flags.bits() == 0
            &&& last_eight(header.source) == source
            &&& last_eight(header.destination) == destination
            &&& header.flow_id == flow_id
            &&& header.conflate_key == 0
            &&& packet@.payload == vstd::utf8::encode_utf8(payload@)
        },
{
    broadcast use crate::wire::packet::ForwardFlags::of_bits;

    if let Ok(packet) = made {
        number_of(packet@.header.source);
        number_of(packet@.header.destination);
        numbers::numbers_are_read_back(source, packet@.header.source);
        numbers::numbers_are_read_back(destination, packet@.header.destination);
    }
}

/// A cost is any number but zero.
pub proof fn costs_are_not_zero(cost: u16, checked: Result<LinkCost, String>)
    requires
        call_ensures(admin::request_cost, (cost,), checked),
    ensures
        checked is Ok <==> cost > 0,
        checked matches Ok(made) ==> made.value() == cost,
{
}

/// The flag stands at the index, and at none before it.
pub open spec fn stands_first_at(given: Seq<String>, flag: Seq<char>, i: int) -> bool {
    &&& 0 <= i < given.len()
    &&& given[i]@ == flag
    &&& forall|k: int| 0 <= k < i ==> (#[trigger] given[k])@ != flag
}

/// Where a flag is found is where it stands first.
proof fn flags_are_found(given: Seq<String>, flag: Seq<char>, from: int)
    requires
        0 <= from,
        forall|k: int| 0 <= k < from && k < given.len() ==> (#[trigger] given[k])@ != flag,
    ensures
        match args::flag_at(args::words(given), flag, from) {
            Some(i) => stands_first_at(given, flag, i),
            None => forall|k: int| 0 <= k < given.len() ==> (#[trigger] given[k])@ != flag,
        },
    decreases given.len() - from,
{
    if from < given.len() {
        assert(args::words(given)[from] == given[from]@);
        if given[from]@ != flag {
            flags_are_found(given, flag, from + 1);
        }
    }
}

/// The value of a flag is the argument behind the place where it stands first,
/// and it is an error if there is none behind it. Of a flag that is not given
/// the value is the default, and without one that is an error too.
pub proof fn flags_have_the_value_behind_them(
    given: &Vec<String>,
    flag: &str,
    default: Option<String>,
    value: Result<String, String>,
    i: int,
)
    requires
        call_ensures(args::parse_arg, (given, flag, default), value),
    ensures
        stands_first_at(given@, flag@, i) && i + 1 < given@.len() ==> (value matches Ok(v) && v@
            == given@[i + 1]@),
        stands_first_at(given@, flag@, i) && i + 1 == given@.len() ==> value is Err,
        (forall|k: int| 0 <= k < given@.len() ==> (#[trigger] given@[k])@ != flag@)
            ==> match default {
            Some(d) => value matches Ok(v) && v@ == d@,
            None => value is Err,
        },
{
    flags_are_found(given@, flag@, 0);
    let found = args::flag_at(args::words(given@), flag@, 0);
    if stands_first_at(given@, flag@, i) {
        assert(given@[i]@ == flag@);
        let k = found->0;
        if k < i {
            assert(given@[k]@ != flag@);
        }
        if i < k {
            assert(given@[i]@ != flag@);
        }
        if i + 1 < given@.len() {
            assert(args::words(given@)[i + 1] == given@[i + 1]@);
        }
    }
    if forall|k: int| 0 <= k < given@.len() ==> (#[trigger] given@[k])@ != flag@ {
        if let Some(k) = found {
            assert(given@[k]@ != flag@);
        }
    }
}

/// A node starts without outcomes, and tells those that it remembers.
pub proof fn remembered_outcomes_are_told(
    log: OutcomeLog,
    asked: &OutcomeLog,
    told: Vec<OutcomeResponse>,
)
    requires
        call_ensures(OutcomeLog::new, (), log),
        call_ensures(OutcomeLog::entries, (asked,), told),
    ensures
        log.sequence() == 0,
        log.rows().len() == 0,
        admin::outcome_rows(told@) == asked.rows(),
{
}

} // verus!
