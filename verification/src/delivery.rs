//! What becomes of packets: they are delivered where they are for, go on over
//! their routes, and otherwise come back with the reason.

use std::sync::Arc;
use vstd::prelude::*;
use crate::buffer;
use crate::control::table::{Route, RouteTable, TableView};
use crate::forward;
use crate::forward::{Crossing, DropReason, ForwardAction, ForwardActionView, ForwardEvent};
use crate::forward::{ForwardEventView, Forwarder};
use crate::order;
use crate::types::{Component, LinkId, MonoTime, NodeId};
use crate::wire::multicast;
use crate::wire::packet::{ForwardHeader, PacketType, PacketView};

verus! {

/// A packet that an application sends, or that came in over a link.
pub open spec fn comes(incoming: Option<LinkId>, packet: PacketView) -> ForwardEventView {
    match incoming {
        Some(link) => ForwardEventView::Inbound { link, packet },
        None => ForwardEventView::Outbound(packet),
    }
}

/// The second packet is the first one hop later: it has one hop less to live,
/// and nothing else is changed.
pub open spec fn is_one_hop_later(packet: PacketView, sent: PacketView) -> bool {
    &&& sent.payload == packet.payload
    &&& sent.header.ttl == packet.header.ttl - 1
    &&& sent.header.packet_type == packet.header.packet_type
    &&& sent.header.destination == packet.header.destination
    &&& have_one_journey(packet, sent)
}

/// What a packet says of where it comes from and how it is to be handled is the
/// same in both.
pub open spec fn have_one_journey(a: PacketView, b: PacketView) -> bool {
    &&& a.header.source == b.header.source
    &&& a.header.priority == b.header.priority
    &&& a.header.flags == b.header.flags
    &&& a.header.flow_id == b.header.flow_id
    &&& a.header.conflate_key == b.header.conflate_key
}

/// A packet for one node that has hops left is delivered if it is for this
/// node. Otherwise it goes on over the route to its destination, one hop later,
/// if there is a route that does not lead back over the link it came over.
pub proof fn packets_find_their_way(
    me: NodeId,
    table: TableView,
    incoming: Option<LinkId>,
    packet: PacketView,
)
    requires
        packet.header.packet_type == PacketType::Unicast,
        packet.header.ttl > 0,
    ensures
        ({
            let (after, actions) = forward::step(me, table, comes(incoming, packet));
            let to = packet.header.destination;
            &&& after == table
            &&& actions.len() == 1
            &&& if to == me {
                actions[0] == ForwardActionView::DeliverLocal(packet)
            } else if !table.routes.contains_key(to) {
                actions[0] == ForwardActionView::Drop { reason: DropReason::NoRoute, packet }
            } else if incoming == Some(table.routes[to].next_hop) {
                actions[0] == ForwardActionView::Drop { reason: DropReason::LoopDetected, packet }
            } else {
                &&& actions[0] matches ForwardActionView::Send { link, packet: sent }
                &&& link == table.routes[to].next_hop
                &&& is_one_hop_later(packet, sent)
            }
        }),
{
}

/// A packet that has no hop left is dropped wherever it is, and whoever it is
/// for.
pub proof fn worn_out_packets_are_dropped(
    me: NodeId,
    table: TableView,
    incoming: Option<LinkId>,
    packet: PacketView,
)
    requires
        packet.header.ttl == 0,
    ensures
        forward::step(me, table, comes(incoming, packet)) == (
            table,
            seq![ForwardActionView::Drop { reason: DropReason::TtlExceeded, packet }],
        ),
{
}

/// A packet of another kind is dropped: one of a circuit, one for several nodes
/// that is sent as if it were for one, and one whose list of destinations is
/// not whole.
pub proof fn unsupported_packets_are_dropped(
    me: NodeId,
    table: TableView,
    incoming: Option<LinkId>,
    packet: PacketView,
)
    requires
        packet.header.ttl > 0,
        packet.header.packet_type != PacketType::Unicast,
        packet.header.packet_type == PacketType::Multicast && incoming is Some ==> {
            ||| packet.payload.len() < 2
            ||| packet.payload[0] == 0 && packet.payload[1] == 0
            ||| packet.payload.len() < 2 + 32 * (256 * packet.payload[0] + packet.payload[1])
        },
    ensures
        forward::step(me, table, comes(incoming, packet)) == (
            table,
            seq![
                ForwardActionView::Drop {
                    reason: DropReason::UnsupportedPacketType(packet.header.packet_type),
                    packet,
                },
            ],
        ),
{
    if packet.payload.len() >= 2 {
        two_bytes_count(packet.payload.take(2));
    }
}

/// What two bytes stand for.
proof fn two_bytes_count(bytes: Seq<u8>)
    requires
        bytes.len() == 2,
    ensures
        buffer::big_endian_value(bytes) == 256 * bytes[0] + bytes[1],
{
    reveal_with_fuel(buffer::big_endian_value, 3);
    assert(bytes.drop_last().len() == 1);
    assert(bytes.drop_last().drop_last().len() == 0);
}

/// A list of destinations is written as their number in two bytes, the higher
/// one first, then thirty-two bytes for each of them, and then what they get.
pub proof fn lists_are_numbered_and_in_a_row(
    destinations: Seq<NodeId>,
    body: Seq<u8>,
    i: int,
    k: int,
)
    requires
        destinations.len() <= 65_535,
        0 <= i < destinations.len(),
        0 <= k < 32,
    ensures
        ({
            let bytes = multicast::list_bytes(destinations, body);
            &&& bytes.len() == 2 + 32 * destinations.len() + body.len()
            &&& 256 * bytes[0] + bytes[1] == destinations.len()
            &&& bytes[2 + 32 * i + k] == destinations[i].bytes()[k]
            &&& bytes.skip(2 + 32 * destinations.len() as int) == body
        }),
{
    let bytes = multicast::list_bytes(destinations, body);
    let n = destinations.len();
    multicast::list_len(destinations, body);
    multicast::ids_len(destinations);
    multicast::ids_stand_in_a_row(destinations, i);
    buffer::ranges();
    buffer::big_endian_len(n, 2);
    buffer::big_endian_is_read_back(n, 2);
    let head = buffer::big_endian(n, 2);
    two_bytes_count(head);
    assert(bytes[0] == head[0] && bytes[1] == head[1]);
    destinations[i].bytes_len();
    let ids = multicast::ids_bytes(destinations);
    let part = ids.subrange(32 * i, 32 * (i + 1));
    assert(part[k] == ids[32 * i + k]);
    assert(bytes[2 + 32 * i + k] == ids[32 * i + k]);
    assert(bytes.skip(2 + 32 * n as int) =~= body);
}

/// A packet for several destinations, as an application sends it or as it came
/// in over a link.
pub open spec fn comes_for_all(
    incoming: Option<LinkId>,
    packet: PacketView,
    destinations: Seq<NodeId>,
) -> ForwardEventView {
    match incoming {
        None => ForwardEventView::OutboundMulticast { destinations, packet },
        Some(link) => ForwardEventView::Inbound {
            link,
            packet: PacketView {
                header: ForwardHeader {
                    packet_type: PacketType::Multicast,
                    ..packet.header
                },
                payload: multicast::list_bytes(destinations, packet.payload),
            },
        },
    }
}

/// The packet is for one node, and has what the packet for several has.
pub open spec fn is_copy(packet: PacketView, copy: PacketView, destination: NodeId) -> bool {
    &&& copy.payload == packet.payload
    &&& copy.header.packet_type == PacketType::Unicast
    &&& copy.header.destination == destination
    &&& copy.header.ttl == packet.header.ttl
    &&& have_one_journey(packet, copy)
}

/// The packet carries to the destinations what the packet for several has, one
/// hop later.
pub open spec fn is_part(packet: PacketView, part: PacketView, some: Seq<NodeId>) -> bool {
    &&& some.len() > 0
    &&& part.payload == multicast::list_bytes(some, packet.payload)
    &&& part.header.packet_type == PacketType::Multicast
    &&& part.header.destination == some[0]
    &&& part.header.ttl == packet.header.ttl - 1
    &&& have_one_journey(packet, part)
}

/// A packet for the destination goes on over the link: the node is another, and
/// has a route over that link, which is not the one that the packet came over.
pub open spec fn is_routed(
    me: NodeId,
    routes: Map<NodeId, Route>,
    incoming: Option<LinkId>,
    destination: NodeId,
    link: LinkId,
) -> bool {
    &&& destination != me
    &&& routes.contains_key(destination)
    &&& routes[destination].next_hop == link
    &&& incoming != Some(link)
}

/// What a node does with a packet for several destinations is what it does with
/// a packet of its own for each of them.
proof fn crossing(
    me: NodeId,
    table: TableView,
    incoming: Option<LinkId>,
    packet: PacketView,
    destinations: Seq<NodeId>,
) -> (at: Crossing)
    requires
        packet.header.ttl > 0,
        0 < destinations.len() <= 65_535,
    ensures
        forward::step(me, table, comes_for_all(incoming, packet, destinations)) == (
            table,
            forward::fan_out(at, destinations),
        ),
        at.me == me,
        at.routes == table.routes,
        at.incoming == incoming,
        at.packet.payload == packet.payload,
        at.packet.header.ttl == packet.header.ttl,
        have_one_journey(at.packet, packet),
{
    multicast::written_lists_are_read_back(destinations, packet.payload);
    match incoming {
        None => Crossing { me, routes: table.routes, incoming, packet },
        Some(_) => Crossing {
            me,
            routes: table.routes,
            incoming,
            packet: PacketView {
                header: ForwardHeader { packet_type: PacketType::Multicast, ..packet.header },
                ..packet
            },
        },
    }
}

/// A node that is one of several destinations gets a copy of its own. A
/// destination without a way has its copy dropped, with the reason.
pub proof fn destinations_here_are_served(
    me: NodeId,
    table: TableView,
    incoming: Option<LinkId>,
    packet: PacketView,
    destinations: Seq<NodeId>,
    destination: NodeId,
) -> (copy: PacketView)
    requires
        packet.header.ttl > 0,
        destinations.len() <= 65_535,
        destinations.contains(destination),
    ensures
        is_copy(packet, copy, destination),
        ({
            let event = comes_for_all(incoming, packet, destinations);
            let (after, actions) = forward::step(me, table, event);
            &&& after == table
            &&& if destination == me {
                actions.contains(ForwardActionView::DeliverLocal(copy))
            } else if !table.routes.contains_key(destination) {
                actions.contains(
                    ForwardActionView::Drop { reason: DropReason::NoRoute, packet: copy },
                )
            } else if incoming == Some(table.routes[destination].next_hop) {
                actions.contains(
                    ForwardActionView::Drop { reason: DropReason::LoopDetected, packet: copy },
                )
            } else {
                is_routed(
                    me,
                    table.routes,
                    incoming,
                    destination,
                    table.routes[destination].next_hop,
                )
            }
        }),
{
    let at = crossing(me, table, incoming, packet, destinations);
    let actions = forward::fan_out(at, destinations);
    let ends = forward::ending(at, destinations);
    forward::endings_are_some(at, destinations);
    let ended = forward::decide_for(at, destination);
    if !(ended is Send) {
        assert(ends.contains(ended));
        let m = choose|m: int| 0 <= m < ends.len() && ends[m] == ended;
        assert(actions[m] == ended);
    }
    forward::copy_for(at.packet, destination)
}

/// What goes over a link is for those that are routed over it, in their order.
proof fn shared_destinations_keep_their_order(
    at: Crossing,
    destinations: Seq<NodeId>,
    link: LinkId,
)
    requires
        at.packet.header.ttl > 0,
    ensures
        forward::routed_over(at, destinations, link) == destinations.filter(
            |d: NodeId| is_routed(at.me, at.routes, at.incoming, d, link),
        ),
    decreases destinations.len(),
{
    reveal(Seq::filter);
    if destinations.len() > 0 {
        shared_destinations_keep_their_order(at, destinations.drop_last(), link);
        assert(forward::goes_over(at, destinations.last(), link) <==> is_routed(
            at.me,
            at.routes,
            at.incoming,
            destinations.last(),
            link,
        ));
    }
}

/// Over each link that leads on to some of several destinations goes one packet
/// for exactly these, in their order.
pub proof fn destinations_beyond_share_a_packet(
    me: NodeId,
    table: TableView,
    incoming: Option<LinkId>,
    packet: PacketView,
    destinations: Seq<NodeId>,
    link: LinkId,
) -> (part: (PacketView, Seq<NodeId>))
    requires
        packet.header.ttl > 0,
        destinations.len() <= 65_535,
        exists|d: NodeId| #[trigger]
            destinations.contains(d) && is_routed(me, table.routes, incoming, d, link),
    ensures
        is_part(packet, part.0, part.1),
        part.1 == destinations.filter(
            |d: NodeId| is_routed(me, table.routes, incoming, d, link),
        ),
        forall|d: NodeId| #[trigger]
            part.1.contains(d) <==> destinations.contains(d) && is_routed(
                me,
                table.routes,
                incoming,
                d,
                link,
            ),
        forward::step(me, table, comes_for_all(incoming, packet, destinations)).1.contains(
            ForwardActionView::Send { link, packet: part.0 },
        ),
{
    let at = crossing(me, table, incoming, packet, destinations);
    let actions = forward::fan_out(at, destinations);
    let ends = forward::ending(at, destinations);
    let some = forward::routed_over(at, destinations, link);
    forward::routed_are_some(at, destinations, link);
    let d = choose|d: NodeId| #[trigger]
        destinations.contains(d) && is_routed(me, table.routes, incoming, d, link);
    assert(forward::goes_over(at, d, link));
    shared_destinations_keep_their_order(at, destinations, link);
    let routed = |d: NodeId| is_routed(me, table.routes, incoming, d, link);
    assert(routed =~= |d: NodeId| is_routed(at.me, at.routes, at.incoming, d, link));
    assert(some.contains(d));
    let used = forward::links_used(at, destinations);
    forward::links_are_finite(at, destinations);
    let links = order::finite_sets_are_listed::<LinkId>(used);
    assert(used.contains(link));
    assert(links.contains(link));
    let k = choose|k: int| 0 <= k < links.len() && links[k] == link;
    let sent = forward::sent_over(at, destinations, link);
    assert(actions[ends.len() + k] == sent);
    (sent->Send_packet, some)
}

/// Nothing else comes of a packet for several destinations: what is delivered
/// is this node's copy, what is dropped is the copy of a destination without a
/// way, and what goes over a link is for destinations beyond it. No link
/// carries it twice.
pub proof fn only_destinations_are_served(
    me: NodeId,
    table: TableView,
    incoming: Option<LinkId>,
    packet: PacketView,
    destinations: Seq<NodeId>,
    i: int,
)
    requires
        packet.header.ttl > 0,
        0 < destinations.len() <= 65_535,
        0 <= i < forward::step(me, table, comes_for_all(incoming, packet, destinations)).1.len(),
    ensures
        ({
            let event = comes_for_all(incoming, packet, destinations);
            let actions = forward::step(me, table, event).1;
            &&& match actions[i] {
                ForwardActionView::DeliverLocal(copy) => destinations.contains(me) && is_copy(
                    packet,
                    copy,
                    me,
                ),
                ForwardActionView::Drop { reason, packet: copy } => {
                    let d = copy.header.destination;
                    &&& destinations.contains(d)
                    &&& is_copy(packet, copy, d)
                    &&& d != me
                    &&& !table.routes.contains_key(d) && reason == DropReason::NoRoute || (
                    table.routes.contains_key(d) && incoming == Some(table.routes[d].next_hop)
                        && reason == DropReason::LoopDetected)
                },
                ForwardActionView::Send { link, .. } => exists|d: NodeId| #[trigger]
                    destinations.contains(d) && is_routed(me, table.routes, incoming, d, link),
            }
            &&& forall|j: int|
                0 <= j < actions.len() && j != i && actions[i] is Send && (
                #[trigger] actions[j]) is Send ==> actions[i]->link != actions[j]->link
        }),
{
    let at = crossing(me, table, incoming, packet, destinations);
    let actions = forward::fan_out(at, destinations);
    let ends = forward::ending(at, destinations);
    forward::endings_are_some(at, destinations);
    forward::links_are_finite(at, destinations);
    let used = forward::links_used(at, destinations);
    let links = order::finite_sets_are_listed::<LinkId>(used);
    if i < ends.len() {
        assert(ends.contains(ends[i]));
        let d = choose|d: NodeId|
            destinations.contains(d) && #[trigger] forward::decide_for(at, d) == ends[i];
        assert(destinations.contains(d));
    } else {
        let link = links[i - ends.len()];
        assert(links.contains(link));
        assert(used.contains(link));
        forward::routed_are_some(at, destinations, link);
        let some = forward::routed_over(at, destinations, link);
        assert(some.contains(some[0]));
        assert(destinations.contains(some[0]));
    }
    assert forall|j: int|
        0 <= j < actions.len() && j != i && actions[i] is Send && (
        #[trigger] actions[j]) is Send implies actions[i]->link != actions[j]->link by {
        if actions[i]->link == actions[j]->link {
            forward::links_carry_a_packet_once(at, destinations, i, j);
        }
    }
}

/// A packet for several destinations that has no hop left is dropped for each
/// of them.
pub proof fn worn_out_packets_reach_no_destination(
    me: NodeId,
    table: TableView,
    packet: PacketView,
    destinations: Seq<NodeId>,
    i: int,
)
    requires
        packet.header.ttl == 0,
        0 <= i < forward::step(
            me,
            table,
            ForwardEventView::OutboundMulticast { destinations, packet },
        ).1.len(),
    ensures
        forward::step(me, table, ForwardEventView::OutboundMulticast { destinations, packet }).1[i]
            matches ForwardActionView::Drop { reason, packet: copy } && reason
            == DropReason::TtlExceeded && is_copy(packet, copy, copy.header.destination)
            && destinations.contains(copy.header.destination),
{
    let at = Crossing { me, routes: table.routes, incoming: None, packet };
    let actions = forward::fan_out(at, destinations);
    let ends = forward::ending(at, destinations);
    forward::endings_are_some(at, destinations);
    forward::links_are_finite(at, destinations);
    let used = forward::links_used(at, destinations);
    let links = order::finite_sets_are_listed::<LinkId>(used);
    if i < ends.len() {
        assert(ends.contains(ends[i]));
        let d = choose|d: NodeId|
            destinations.contains(d) && #[trigger] forward::decide_for(at, d) == ends[i];
        assert(destinations.contains(d));
    } else {
        let link = links[i - ends.len()];
        assert(links.contains(link));
        assert(used.contains(link));
        forward::routed_are_some(at, destinations, link);
        let some = forward::routed_over(at, destinations, link);
        assert(some.contains(some[0]));
    }
}

/// New routes are in use from then on, and nothing is sent on their account.
pub proof fn new_routes_are_used(me: NodeId, table: TableView, routes: TableView)
    ensures
        forward::step(me, table, ForwardEventView::RoutesUpdated(routes)) == (
            routes,
            Seq::<ForwardActionView>::empty(),
        ),
{
}

/// A forwarder that handles an event does with it what there is to do, by the
/// routes that it has, and stays the forwarder of its node.
pub proof fn events_are_handled(
    forwarder: &mut Forwarder,
    now: MonoTime,
    event: ForwardEvent,
    actions: Vec<ForwardAction>,
)
    requires
        call_ensures(<Forwarder as Component>::handle, (forwarder, now, event), actions),
    ensures
        final(forwarder).wf(),
        final(forwarder).me() == old(forwarder).me(),
        (final(forwarder).table(), forward::views(actions@)) == forward::step(
            old(forwarder).me(),
            old(forwarder).table(),
            event@,
        ),
{
}

/// A new forwarder is that of the node and uses the routes that it is given.
pub proof fn forwarders_start_with_their_routes(
    me: NodeId,
    routes: Arc<RouteTable>,
    forwarder: Forwarder,
)
    requires
        routes.wf(),
        call_ensures(Forwarder::new, (me, routes), forwarder),
    ensures
        forwarder.wf(),
        forwarder.me() == me,
        forwarder.table() == routes@,
{
}

/// A forwarder tells whose it is and which routes it uses.
pub proof fn forwarders_tell_their_routes(
    forwarder: &Forwarder,
    me: NodeId,
    routes: Arc<RouteTable>,
)
    requires
        forwarder.wf(),
        call_ensures(Forwarder::node_id, (forwarder,), me),
        call_ensures(Forwarder::route_table, (forwarder,), routes),
    ensures
        me == forwarder.me(),
        routes@ == forwarder.table(),
{
}

/// A forwarder can handle any event.
pub proof fn events_can_be_handled(forwarder: Forwarder, now: MonoTime, event: ForwardEvent)
    requires
        forwarder.wf(),
        event matches ForwardEvent::RoutesUpdated(table) ==> table.wf(),
    ensures
        forwarder.accepts(now, event),
{
}

} // verus!
