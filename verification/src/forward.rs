//! I/O-free overlay packet forwarding.
//!
//! The runtime or simulator supplies route updates and packets as events, then
//! executes the returned actions. Nothing here reads clocks or performs I/O.

use std::sync::Arc;
use vstd::prelude::*;
use crate::control::table::{Route, RouteTable, TableView};
use crate::order;
use crate::ordered_map::OrderedMap;
use crate::types::{Component, LinkId, MonoTime, NodeId};
use crate::wire::multicast;
use crate::wire::packet;
use crate::wire::packet::{ForwardHeader, ForwardPacket, PacketType, PacketView};

verus! {

/// Why a packet goes no further.
#[derive(Clone, Copy, Debug, Eq, PartialEq, Structural)]
pub enum DropReason {
    TtlExceeded,
    NoRoute,
    LoopDetected,
    UnsupportedPacketType(PacketType),
}

/// What happens to the forwarder.
#[derive(Debug, Eq, PartialEq)]
pub enum ForwardEvent {
    Outbound(ForwardPacket),
    OutboundMulticast { destinations: Vec<NodeId>, packet: ForwardPacket },
    Inbound { link: LinkId, packet: ForwardPacket },
    RoutesUpdated(Arc<RouteTable>),
}

/// What an event says.
#[verifier::ext_equal]
pub enum ForwardEventView {
    Outbound(PacketView),
    OutboundMulticast { destinations: Seq<NodeId>, packet: PacketView },
    Inbound { link: LinkId, packet: PacketView },
    RoutesUpdated(TableView),
}

impl View for ForwardEvent {
    type V = ForwardEventView;

    open spec fn view(&self) -> ForwardEventView {
        match *self {
            ForwardEvent::Outbound(packet) => ForwardEventView::Outbound(packet@),
            ForwardEvent::OutboundMulticast { destinations, packet } =>
                ForwardEventView::OutboundMulticast {
                    destinations: destinations@,
                    packet: packet@,
                },
            ForwardEvent::Inbound { link, packet } => ForwardEventView::Inbound {
                link,
                packet: packet@,
            },
            ForwardEvent::RoutesUpdated(table) => ForwardEventView::RoutesUpdated(table@),
        }
    }
}

impl Clone for ForwardEvent {
    fn clone(&self) -> (copy: Self)
        ensures
            copy@ == self@,
    {
        match self {
            ForwardEvent::Outbound(packet) => ForwardEvent::Outbound(packet.clone()),
            ForwardEvent::OutboundMulticast { destinations, packet } => {
                let nodes = destinations.clone();
                assert(nodes@ =~= destinations@);
                ForwardEvent::OutboundMulticast { destinations: nodes, packet: packet.clone() }
            },
            ForwardEvent::Inbound { link, packet } => ForwardEvent::Inbound {
                link: *link,
                packet: packet.clone(),
            },
            ForwardEvent::RoutesUpdated(table) => ForwardEvent::RoutesUpdated(table.clone()),
        }
    }
}

/// What the forwarder asks its runtime to do.
#[derive(Debug, Eq, PartialEq)]
pub enum ForwardAction {
    Send { link: LinkId, packet: ForwardPacket },
    DeliverLocal(ForwardPacket),
    Drop { reason: DropReason, packet: ForwardPacket },
}

/// What an action says.
#[verifier::ext_equal]
pub enum ForwardActionView {
    Send { link: LinkId, packet: PacketView },
    DeliverLocal(PacketView),
    Drop { reason: DropReason, packet: PacketView },
}

impl View for ForwardAction {
    type V = ForwardActionView;

    open spec fn view(&self) -> ForwardActionView {
        match *self {
            ForwardAction::Send { link, packet } => ForwardActionView::Send {
                link,
                packet: packet@,
            },
            ForwardAction::DeliverLocal(packet) => ForwardActionView::DeliverLocal(packet@),
            ForwardAction::Drop { reason, packet } => ForwardActionView::Drop {
                reason,
                packet: packet@,
            },
        }
    }
}

impl Clone for ForwardAction {
    fn clone(&self) -> (copy: Self)
        ensures
            copy@ == self@,
    {
        match self {
            ForwardAction::Send { link, packet } => ForwardAction::Send {
                link: *link,
                packet: packet.clone(),
            },
            ForwardAction::DeliverLocal(packet) => ForwardAction::DeliverLocal(packet.clone()),
            ForwardAction::Drop { reason, packet } => ForwardAction::Drop {
                reason: *reason,
                packet: packet.clone(),
            },
        }
    }
}

/// A packet one hop further.
pub open spec fn one_hop_further(packet: PacketView) -> PacketView {
    PacketView {
        header: ForwardHeader { ttl: (packet.header.ttl - 1) as u8, ..packet.header },
        ..packet
    }
}

/// What becomes of a packet for one destination at the node `me`: a worn out one
/// and one that is not unicast are dropped, one for this node is delivered, one without a
/// route or whose route leads back where it came from is dropped, and any
/// other goes on over its route.
pub open spec fn decide(
    me: NodeId,
    routes: Map<NodeId, Route>,
    incoming: Option<LinkId>,
    packet: PacketView,
) -> ForwardActionView {
    let header = packet.header;
    if header.ttl == 0 {
        ForwardActionView::Drop { reason: DropReason::TtlExceeded, packet }
    } else if header.packet_type != PacketType::Unicast {
        ForwardActionView::Drop {
            reason: DropReason::UnsupportedPacketType(header.packet_type),
            packet,
        }
    } else if header.destination == me {
        ForwardActionView::DeliverLocal(packet)
    } else if !routes.contains_key(header.destination) {
        ForwardActionView::Drop { reason: DropReason::NoRoute, packet }
    } else if incoming == Some(routes[header.destination].next_hop) {
        ForwardActionView::Drop { reason: DropReason::LoopDetected, packet }
    } else {
        ForwardActionView::Send {
            link: routes[header.destination].next_hop,
            packet: one_hop_further(packet),
        }
    }
}

/// A copy of a packet for one of several destinations.
pub open spec fn copy_for(packet: PacketView, destination: NodeId) -> PacketView {
    PacketView {
        header: ForwardHeader {
            packet_type: PacketType::Unicast,
            destination,
            ..packet.header
        },
        ..packet
    }
}

/// One packet for several destinations: its header names the first of them, and
/// its payload starts with all of them.
pub open spec fn gathered(packet: PacketView, destinations: Seq<NodeId>) -> PacketView {
    PacketView {
        header: ForwardHeader {
            packet_type: PacketType::Multicast,
            destination: destinations[0],
            ..packet.header
        },
        payload: multicast::list_bytes(destinations, packet.payload),
    }
}

/// A packet for several destinations at a node: the node, the routes there, the
/// link it came over, and what each destination gets.
#[verifier::ext_equal]
pub struct Crossing {
    pub me: NodeId,
    pub routes: Map<NodeId, Route>,
    pub incoming: Option<LinkId>,
    pub packet: PacketView,
}

/// What becomes of the copy for one of the destinations.
pub open spec fn decide_for(at: Crossing, destination: NodeId) -> ForwardActionView {
    decide(at.me, at.routes, at.incoming, copy_for(at.packet, destination))
}

/// The copy for the destination goes on over the link.
pub open spec fn goes_over(at: Crossing, destination: NodeId, link: LinkId) -> bool {
    decide_for(at, destination) matches ForwardActionView::Send { link: out, .. } && out == link
}

/// The destinations whose copies go on over the link.
pub open spec fn routed_over(at: Crossing, destinations: Seq<NodeId>, link: LinkId) -> Seq<NodeId>
    decreases destinations.len(),
{
    if destinations.len() == 0 {
        Seq::empty()
    } else {
        let less = routed_over(at, destinations.drop_last(), link);
        if goes_over(at, destinations.last(), link) {
            less.push(destinations.last())
        } else {
            less
        }
    }
}

/// What becomes of the copies that do not go on.
pub open spec fn ending(at: Crossing, destinations: Seq<NodeId>) -> Seq<ForwardActionView>
    decreases destinations.len(),
{
    if destinations.len() == 0 {
        Seq::empty()
    } else {
        let less = ending(at, destinations.drop_last());
        if decide_for(at, destinations.last()) is Send {
            less
        } else {
            less.push(decide_for(at, destinations.last()))
        }
    }
}

/// The links that some copy goes on over.
pub open spec fn links_used(at: Crossing, destinations: Seq<NodeId>) -> Set<LinkId> {
    Set::new(|link: LinkId| routed_over(at, destinations, link).len() > 0)
}

/// What goes over a link: one packet for all its destinations.
pub open spec fn sent_over(
    at: Crossing,
    destinations: Seq<NodeId>,
    link: LinkId,
) -> ForwardActionView {
    ForwardActionView::Send {
        link,
        packet: one_hop_further(gathered(at.packet, routed_over(at, destinations, link))),
    }
}

/// What becomes of a packet for several destinations: copies that end here, by
/// the order of their destinations, and then one packet for each link that
/// others go on over, by ascending link.
pub open spec fn fan_out(at: Crossing, destinations: Seq<NodeId>) -> Seq<ForwardActionView> {
    let links = order::ascending::<LinkId>(links_used(at, destinations));
    ending(at, destinations) + Seq::new(
        links.len(),
        |i: int| sent_over(at, destinations, links[i]),
    )
}

/// The destinations of a packet that came in, and what each of them gets; only
/// a multicast packet with some time to live is for several.
pub open spec fn several(packet: PacketView) -> Option<(Seq<NodeId>, PacketView)> {
    if packet.header.ttl == 0 || packet.header.packet_type != PacketType::Multicast {
        None
    } else {
        match multicast::parse_list(packet.payload) {
            Some((destinations, body)) => Some(
                (destinations, PacketView { payload: body, ..packet }),
            ),
            None => None,
        }
    }
}

/// What becomes of a packet that came in over a link.
pub open spec fn take_in(
    me: NodeId,
    routes: Map<NodeId, Route>,
    link: LinkId,
    packet: PacketView,
) -> Seq<ForwardActionView> {
    match several(packet) {
        Some((destinations, body)) => fan_out(
            Crossing { me, routes, incoming: Some(link), packet: body },
            destinations,
        ),
        None => seq![decide(me, routes, Some(link), packet)],
    }
}

/// A copy of a packet for one of several destinations.
fn packet_for(packet: &ForwardPacket, destination: NodeId) -> (copy: ForwardPacket)
    ensures
        copy@ == copy_for(packet@, destination),
{
    let copied = packet.clone();
    let copy = ForwardPacket {
        header: ForwardHeader {
            packet_type: PacketType::Unicast,
            priority: copied.header.priority,
            ttl: copied.header.ttl,
            flags: copied.header.flags,
            destination,
            source: copied.header.source,
            flow_id: copied.header.flow_id,
            conflate_key: copied.header.conflate_key,
        },
        payload: copied.payload,
    };
    assert(copy@ =~= copy_for(packet@, destination));
    copy
}

/// One packet for several destinations, one hop further.
fn gather(packet: &ForwardPacket, destinations: &Vec<NodeId>) -> (sent: ForwardPacket)
    requires
        destinations@.len() > 0,
        packet@.header.ttl > 0,
    ensures
        sent@ == one_hop_further(gathered(packet@, destinations@)),
{
    let header = packet.header;
    let sent = ForwardPacket {
        header: ForwardHeader {
            packet_type: PacketType::Multicast,
            priority: header.priority,
            ttl: header.ttl - 1,
            flags: header.flags,
            destination: destinations[0],
            source: header.source,
            flow_id: header.flow_id,
            conflate_key: header.conflate_key,
        },
        payload: multicast::write_list(destinations, &packet.payload),
    };
    assert(sent@ =~= one_hop_further(gathered(packet@, destinations@)));
    sent
}

/// Hands packets on by the routes that the control plane published.
pub struct Forwarder {
    me: NodeId,
    routes: Arc<RouteTable>,
}

impl Forwarder {
    /// The identity of the node.
    pub closed spec fn me(&self) -> NodeId {
        self.me
    }

    /// The routes in use.
    pub closed spec fn table(&self) -> TableView {
        self.routes@
    }

    /// The routes are in order.
    pub closed spec fn wf(&self) -> bool {
        self.routes.wf()
    }

    /// A forwarder with the given routes.
    pub fn new(me: NodeId, routes: Arc<RouteTable>) -> (forwarder: Self)
        requires
            routes.wf(),
        ensures
            forwarder.wf(),
            forwarder.me() == me,
            forwarder.table() == routes@,
    {
        Forwarder { me, routes }
    }

    /// The identity of the node.
    pub fn node_id(&self) -> (me: NodeId)
        ensures
            me == self.me(),
    {
        self.me
    }

    /// The routes in use.
    pub fn route_table(&self) -> (table: Arc<RouteTable>)
        requires
            self.wf(),
        ensures
            table@ == self.table(),
            table.wf(),
    {
        Arc::clone(&self.routes)
    }

    /// Decides what becomes of a packet.
    fn forward(&self, incoming: Option<LinkId>, packet: ForwardPacket) -> (action: ForwardAction)
        requires
            self.wf(),
        ensures
            action@ == decide(self.me(), self.table().routes, incoming, packet@),
    {
        let header = packet.header;
        if header.ttl == 0 {
            return ForwardAction::Drop { reason: DropReason::TtlExceeded, packet };
        }
        if header.packet_type != PacketType::Unicast {
            return ForwardAction::Drop {
                reason: DropReason::UnsupportedPacketType(header.packet_type),
                packet,
            };
        }
        if header.destination == self.me {
            return ForwardAction::DeliverLocal(packet);
        }
        let route: Route = match self.routes.get(&header.destination) {
            Some(route) => *route,
            None => {
                return ForwardAction::Drop { reason: DropReason::NoRoute, packet };
            },
        };
        let returns: bool = match incoming {
            Some(link) => link == route.next_hop,
            None => false,
        };
        if returns {
            return ForwardAction::Drop { reason: DropReason::LoopDetected, packet };
        }
        let further = ForwardPacket {
            header: ForwardHeader {
                packet_type: header.packet_type,
                priority: header.priority,
                ttl: header.ttl - 1,
                flags: header.flags,
                destination: header.destination,
                source: header.source,
                flow_id: header.flow_id,
                conflate_key: header.conflate_key,
            },
            payload: packet.payload,
        };
        ForwardAction::Send { link: route.next_hop, packet: further }
    }

    /// Decides what becomes of a packet for several destinations.
    fn spread(
        &self,
        incoming: Option<LinkId>,
        packet: &ForwardPacket,
        destinations: &Vec<NodeId>,
    ) -> (actions: Vec<ForwardAction>)
        requires
            self.wf(),
        ensures
            views(actions@) == fan_out(
                Crossing {
                    me: self.me(),
                    routes: self.table().routes,
                    incoming,
                    packet: packet@,
                },
                destinations@,
            ),
    {
        let ghost at = Crossing {
            me: self.me(),
            routes: self.table().routes,
            incoming,
            packet: packet@,
        };
        let ghost all = destinations@;
        let mut actions: Vec<ForwardAction> = Vec::new();
        let mut groups: OrderedMap<LinkId, Vec<NodeId>> = OrderedMap::new();
        let mut i: usize = 0;
        assert(all.take(0) =~= Seq::<NodeId>::empty());
        assert(views(actions@) =~= Seq::<ForwardActionView>::empty());
        while i < destinations.len()
            invariant
                self.wf(),
                i <= destinations@.len(),
                all == destinations@,
                at == (Crossing {
                    me: self.me(),
                    routes: self.table().routes,
                    incoming,
                    packet: packet@,
                }),
                groups.wf(),
                forall|link: LinkId| #[trigger]
                    groups@.contains_key(link) <==> routed_over(
                        at,
                        all.take(i as int),
                        link,
                    ).len() > 0,
                forall|link: LinkId| #[trigger]
                    groups@.contains_key(link) ==> groups@[link]@ == routed_over(
                        at,
                        all.take(i as int),
                        link,
                    ),
                views(actions@) == ending(at, all.take(i as int)),
            decreases destinations@.len() - i,
        {
            let destination: NodeId = destinations[i];
            let ghost less = all.take(i as int);
            let ghost more = all.take(i + 1);
            let ghost before = groups@;
            proof {
                assert(more.drop_last() =~= less);
                assert(more.last() == destination);
            }
            let action = self.forward(incoming, packet_for(packet, destination));
            match action {
                ForwardAction::Send { link, packet: _ } => {
                    let mut nodes: Vec<NodeId> = match groups.remove(&link) {
                        Some(nodes) => nodes,
                        None => Vec::new(),
                    };
                    assert(nodes@ =~= routed_over(at, less, link));
                    nodes.push(destination);
                    assert(nodes@ == routed_over(at, more, link));
                    groups.insert(link, nodes);
                    proof {
                        assert forall|other: LinkId| other != link implies routed_over(
                            at,
                            more,
                            other,
                        ) == routed_over(at, less, other) && groups@.contains_key(other)
                            == before.contains_key(other) && (groups@.contains_key(other)
                            ==> groups@[other] == before[other]) by {}
                    }
                },
                _ => {
                    let ghost done = actions@;
                    actions.push(action);
                    assert(views(actions@) =~= views(done).push(action@));
                    assert forall|other: LinkId| routed_over(at, more, other) == routed_over(
                        at,
                        less,
                        other,
                    ) by {}
                },
            }
            i = i + 1;
        }
        assert(all.take(i as int) =~= all);
        let ghost ended = views(actions@);
        let ghost links = groups.ranks();
        proof {
            groups.ranks_list_domain();
            assert(groups@.dom() =~= links_used(at, all));
        }
        let mut j: usize = 0;
        assert(views(actions@) =~= ended + Seq::<ForwardActionView>::empty());
        while j < groups.len()
            invariant
                groups.wf(),
                links == groups.ranks(),
                j <= links.len(),
                at.packet == packet@,
                all == destinations@,
                forall|link: LinkId| #[trigger]
                    groups@.contains_key(link) ==> groups@[link]@ == routed_over(at, all, link)
                        && groups@[link]@.len() > 0,
                views(actions@) == ended + Seq::new(
                    j as nat,
                    |k: int| sent_over(at, all, links[k]),
                ),
            decreases links.len() - j,
        {
            let link: LinkId = *groups.key_at(j);
            let nodes: &Vec<NodeId> = groups.value_at(j);
            proof {
                routed_packets_live(at, all, link);
            }
            let ghost done = actions@;
            let action = ForwardAction::Send { link, packet: gather(packet, nodes) };
            actions.push(action);
            proof {
                assert(action@ == sent_over(at, all, links[j as int]));
                assert(views(actions@) =~= views(done).push(action@));
                assert(views(actions@) =~= ended + Seq::new(
                    (j + 1) as nat,
                    |k: int| sent_over(at, all, links[k]),
                ));
            }
            j = j + 1;
        }
        actions
    }
}

/// A packet of which a copy goes on has some time to live.
proof fn routed_packets_live(at: Crossing, destinations: Seq<NodeId>, link: LinkId)
    requires
        routed_over(at, destinations, link).len() > 0,
    ensures
        at.packet.header.ttl > 0,
    decreases destinations.len(),
{
    if !goes_over(at, destinations.last(), link) {
        routed_packets_live(at, destinations.drop_last(), link);
    }
}

/// What an event does: the routes in use after it, and what it asks for.
pub open spec fn step(me: NodeId, table: TableView, event: ForwardEventView) -> (
    TableView,
    Seq<ForwardActionView>,
) {
    match event {
        ForwardEventView::Outbound(packet) => (
            table,
            seq![decide(me, table.routes, None, packet)],
        ),
        ForwardEventView::OutboundMulticast { destinations, packet } => (
            table,
            fan_out(
                Crossing { me, routes: table.routes, incoming: None, packet },
                destinations,
            ),
        ),
        ForwardEventView::Inbound { link, packet } => (
            table,
            take_in(me, table.routes, link, packet),
        ),
        ForwardEventView::RoutesUpdated(routes) => (routes, Seq::empty()),
    }
}

/// What a sequence of actions says.
pub open spec fn views(actions: Seq<ForwardAction>) -> Seq<ForwardActionView> {
    actions.map_values(|action: ForwardAction| action@)
}

impl Component for Forwarder {
    type Event = ForwardEvent;

    type Action = ForwardAction;

    open spec fn accepts(&self, now: MonoTime, event: ForwardEvent) -> bool {
        self.wf() && (event matches ForwardEvent::RoutesUpdated(table) ==> table.wf())
    }

    open spec fn may_step(
        before: Self,
        now: MonoTime,
        event: ForwardEvent,
        after: Self,
        actions: Seq<ForwardAction>,
    ) -> bool {
        &&& after.wf()
        &&& after.me() == before.me()
        &&& (after.table(), views(actions)) == step(before.me(), before.table(), event@)
    }

    fn handle(&mut self, _now: MonoTime, event: ForwardEvent) -> (actions: Vec<ForwardAction>) {
        let ghost before = *self;
        let ghost seen = event@;
        let mut actions: Vec<ForwardAction> = Vec::new();
        match event {
            ForwardEvent::Outbound(packet) => {
                actions.push(self.forward(None, packet));
            },
            ForwardEvent::OutboundMulticast { destinations, packet } => {
                actions = self.spread(None, &packet, &destinations);
            },
            ForwardEvent::Inbound { link, packet } => {
                let list: Option<(Vec<NodeId>, bytes::Bytes)> = if packet.header.ttl == 0
                    || packet.header.packet_type != PacketType::Multicast {
                    None
                } else {
                    multicast::read_list(&packet.payload)
                };
                match list {
                    Some((destinations, payload)) => {
                        let body = ForwardPacket { header: packet.header, payload };
                        actions = self.spread(Some(link), &body, &destinations);
                    },
                    None => {
                        actions.push(self.forward(Some(link), packet));
                    },
                }
            },
            ForwardEvent::RoutesUpdated(routes) => {
                self.routes = routes;
            },
        }
        assert(views(actions@) =~= step(before.me(), before.table(), seen).1);
        actions
    }
}

/// Every packet for one destination has exactly one outcome.
pub proof fn packets_have_one_outcome(me: NodeId, table: TableView, event: ForwardEventView)
    requires
        event is Outbound || (event matches ForwardEventView::Inbound { packet, .. } && several(
            packet,
        ) is None),
    ensures
        step(me, table, event).1.len() == 1,
        step(me, table, event).0 == table,
{
}

/// A packet that goes on carries the same payload to the same destination, has
/// one hop less to live, and never leaves over the link it came from.
pub proof fn packets_go_on_unchanged(
    me: NodeId,
    routes: Map<NodeId, Route>,
    incoming: Option<LinkId>,
    packet: PacketView,
)
    ensures
        decide(me, routes, incoming, packet) matches ForwardActionView::Send { link, packet: sent }
            ==> {
            &&& sent.payload == packet.payload
            &&& sent.header.destination == packet.header.destination
            &&& sent.header.source == packet.header.source
            &&& sent.header.flow_id == packet.header.flow_id
            &&& sent.header.priority == packet.header.priority
            &&& sent.header.ttl + 1 == packet.header.ttl
            &&& incoming != Some(link)
            &&& link == routes[packet.header.destination].next_hop
        },
{
}

/// A packet is delivered only at its destination, and as it is; one that is
/// dropped is handed back as it is.
pub proof fn packets_end_unchanged(
    me: NodeId,
    routes: Map<NodeId, Route>,
    incoming: Option<LinkId>,
    packet: PacketView,
)
    ensures
        decide(me, routes, incoming, packet) matches ForwardActionView::DeliverLocal(delivered)
            ==> delivered == packet && packet.header.destination == me,
        decide(me, routes, incoming, packet) matches ForwardActionView::Drop { packet: lost, .. }
            ==> lost == packet,
{
}

/// What a packet holds for a destination, if it is for that destination.
pub open spec fn held_for(packet: PacketView, destination: NodeId) -> Option<PacketView> {
    match several(packet) {
        Some((destinations, body)) => if destinations.contains(destination) {
            Some(copy_for(body, destination))
        } else {
            None
        },
        None => if packet.header.packet_type == PacketType::Unicast && packet.header.destination
            == destination {
            Some(packet)
        } else {
            None
        },
    }
}

/// A packet with its list of destinations can be written.
pub open spec fn can_gather(packet: PacketView, destinations: Seq<NodeId>) -> bool {
    &&& multicast::list_bytes(destinations, packet.payload).len()
        <= packet::MAX_FORWARD_PAYLOAD_LEN
    &&& packet.header.flags.is_supported()
}

/// The links that copies go on over are finitely many.
pub(crate) proof fn links_are_finite(at: Crossing, destinations: Seq<NodeId>)
    ensures
        links_used(at, destinations).finite(),
    decreases destinations.len(),
{
    let links = links_used(at, destinations);
    if destinations.len() == 0 {
        assert(links =~= Set::<LinkId>::empty());
    } else {
        let less = links_used(at, destinations.drop_last());
        links_are_finite(at, destinations.drop_last());
        match decide_for(at, destinations.last()) {
            ForwardActionView::Send { link, .. } => {
                assert(links =~= less.insert(link));
            },
            _ => {
                assert(links =~= less);
            },
        }
    }
}

/// What goes over a link is for some of the destinations, in their order, and
/// for each of those that are routed over it.
pub(crate) proof fn routed_are_some(at: Crossing, destinations: Seq<NodeId>, link: LinkId)
    ensures
        routed_over(at, destinations, link).len() <= destinations.len(),
        forall|d: NodeId| #[trigger]
            routed_over(at, destinations, link).contains(d) <==> destinations.contains(d)
                && goes_over(at, d, link),
    decreases destinations.len(),
{
    let some = routed_over(at, destinations, link);
    if destinations.len() > 0 {
        let rest = destinations.drop_last();
        let last = destinations.last();
        let less = routed_over(at, rest, link);
        routed_are_some(at, rest, link);
        assert forall|d: NodeId| #[trigger] some.contains(d) <==> destinations.contains(d)
            && goes_over(at, d, link) by {
            if destinations.contains(d) && d != last {
                let k = choose|k: int| 0 <= k < destinations.len() && destinations[k] == d;
                assert(rest[k] == d);
                assert(rest.contains(d));
                if less.contains(d) {
                    let m = choose|m: int| 0 <= m < less.len() && less[m] == d;
                    assert(some[m] == d);
                }
            }
            if d == last && goes_over(at, d, link) {
                assert(some.last() == d);
            }
            if some.contains(d) {
                let m = choose|m: int| 0 <= m < some.len() && some[m] == d;
                if m < less.len() {
                    assert(less[m] == d);
                    assert(less.contains(d));
                    let k = choose|k: int| 0 <= k < rest.len() && rest[k] == d;
                    assert(destinations[k] == d);
                } else {
                    assert(destinations[destinations.len() - 1] == d);
                }
            }
        }
    }
}

/// What ends here is what becomes of some copy that does not go on, and each of
/// these ends here.
pub(crate) proof fn endings_are_some(at: Crossing, destinations: Seq<NodeId>)
    ensures
        forall|action: ForwardActionView| #[trigger]
            ending(at, destinations).contains(action) ==> !(action is Send) && exists|d: NodeId|
                destinations.contains(d) && #[trigger] decide_for(at, d) == action,
        forall|d: NodeId|
            destinations.contains(d) && !(#[trigger] decide_for(at, d) is Send) ==> ending(
                at,
                destinations,
            ).contains(decide_for(at, d)),
    decreases destinations.len(),
{
    if destinations.len() > 0 {
        let all = ending(at, destinations);
        let rest = destinations.drop_last();
        let last = destinations.last();
        let less = ending(at, rest);
        endings_are_some(at, rest);
        assert forall|action: ForwardActionView| #[trigger] all.contains(action) implies !(
        action is Send) && exists|d: NodeId|
            destinations.contains(d) && #[trigger] decide_for(at, d) == action by {
            let m = choose|m: int| 0 <= m < all.len() && all[m] == action;
            if m < less.len() {
                assert(less[m] == action);
                assert(less.contains(action));
                let d = choose|d: NodeId|
                    rest.contains(d) && #[trigger] decide_for(at, d) == action;
                let k = choose|k: int| 0 <= k < rest.len() && rest[k] == d;
                assert(destinations[k] == d);
            } else {
                assert(destinations[destinations.len() - 1] == last);
                assert(decide_for(at, last) == action);
            }
        }
        assert forall|d: NodeId| destinations.contains(d) && !(
        #[trigger] decide_for(at, d) is Send) implies all.contains(decide_for(at, d)) by {
            if d == last {
                assert(all.last() == decide_for(at, d));
            } else {
                let k = choose|k: int| 0 <= k < destinations.len() && destinations[k] == d;
                assert(rest[k] == d);
                assert(rest.contains(d));
                assert(less.contains(decide_for(at, d)));
                let m = choose|m: int| 0 <= m < less.len() && less[m] == decide_for(at, d);
                assert(all[m] == decide_for(at, d));
            }
        }
    }
}

/// Every destination of a packet for several fares as if it had a packet of its
/// own: what would end here ends here, and what would go on over a link goes on
/// within the one packet for that link.
pub proof fn destinations_fare_as_alone(
    at: Crossing,
    destinations: Seq<NodeId>,
    destination: NodeId,
)
    requires
        destinations.contains(destination),
        can_gather(at.packet, destinations),
    ensures
        match decide_for(at, destination) {
            ForwardActionView::Send { link, packet: alone } => {
                let sent = sent_over(at, destinations, link)->Send_packet;
                &&& fan_out(at, destinations).contains(sent_over(at, destinations, link))
                &&& packet::is_writable(sent)
                &&& alone.header.ttl > 0 ==> held_for(sent, destination) == Some(alone)
            },
            ended => fan_out(at, destinations).contains(ended),
        },
{
    let actions = fan_out(at, destinations);
    let ends = ending(at, destinations);
    endings_are_some(at, destinations);
    match decide_for(at, destination) {
        ForwardActionView::Send { link, packet: alone } => {
            let some = routed_over(at, destinations, link);
            routed_are_some(at, destinations, link);
            assert(some.contains(destination));
            let used = links_used(at, destinations);
            links_are_finite(at, destinations);
            let links = order::finite_sets_are_listed::<LinkId>(used);
            assert(used.contains(link));
            assert(links.contains(link));
            let k = choose|k: int| 0 <= k < links.len() && links[k] == link;
            assert(actions[ends.len() + k] == sent_over(at, destinations, link));
            let sent = sent_over(at, destinations, link)->Send_packet;
            multicast::list_len(destinations, at.packet.payload);
            multicast::list_len(some, at.packet.payload);
            multicast::written_lists_are_read_back(some, at.packet.payload);
            if alone.header.ttl > 0 {
                assert(several(sent) == Some(
                    (some, PacketView { payload: at.packet.payload, ..sent }),
                ));
                assert(copy_for(PacketView { payload: at.packet.payload, ..sent }, destination)
                    =~= alone);
            }
        },
        ended => {
            assert(ends.contains(ended));
            let m = choose|m: int| 0 <= m < ends.len() && ends[m] == ended;
            assert(actions[m] == ended);
        },
    }
}

/// However many destinations a packet has, no link carries it more than once.
pub proof fn links_carry_a_packet_once(at: Crossing, destinations: Seq<NodeId>, i: int, j: int)
    requires
        0 <= i < fan_out(at, destinations).len(),
        0 <= j < fan_out(at, destinations).len(),
        fan_out(at, destinations)[i] is Send,
        fan_out(at, destinations)[j] is Send,
        fan_out(at, destinations)[i]->link == fan_out(at, destinations)[j]->link,
    ensures
        i == j,
{
    let actions = fan_out(at, destinations);
    let ends = ending(at, destinations);
    endings_are_some(at, destinations);
    if i < ends.len() {
        assert(ends.contains(ends[i]));
        assert(actions[i] == ends[i]);
    }
    if j < ends.len() {
        assert(ends.contains(ends[j]));
        assert(actions[j] == ends[j]);
    }
    links_are_finite(at, destinations);
    let links = order::finite_sets_are_listed::<LinkId>(links_used(at, destinations));
    order::ascending_is_injective::<LinkId>(links);
}

/// Of a packet for several destinations a node delivers only what is for
/// itself.
pub proof fn only_own_copies_are_delivered(at: Crossing, destinations: Seq<NodeId>, i: int)
    requires
        0 <= i < fan_out(at, destinations).len(),
    ensures
        fan_out(at, destinations)[i] matches ForwardActionView::DeliverLocal(delivered)
            ==> delivered == copy_for(at.packet, at.me) && destinations.contains(at.me),
{
    let ends = ending(at, destinations);
    endings_are_some(at, destinations);
    if i < ends.len() {
        let action = ends[i];
        assert(ends.contains(action));
        let d = choose|d: NodeId|
            destinations.contains(d) && #[trigger] decide_for(at, d) == action;
        assert(fan_out(at, destinations)[i] == action);
    }
}

/// A packet after `hops` hops.
pub open spec fn after_hops(packet: PacketView, hops: nat) -> PacketView
    decreases hops,
{
    if hops == 0 {
        packet
    } else {
        one_hop_further(after_hops(packet, (hops - 1) as nat))
    }
}

/// No packet travels further than its lifetime: after as many hops it is
/// dropped wherever it is, with its payload still the same.
pub proof fn packets_wear_out(
    me: NodeId,
    routes: Map<NodeId, Route>,
    incoming: Option<LinkId>,
    packet: PacketView,
    hops: nat,
)
    requires
        hops <= packet.header.ttl,
    ensures
        after_hops(packet, hops).header.ttl == packet.header.ttl - hops,
        after_hops(packet, hops).payload == packet.payload,
        hops == packet.header.ttl ==> decide(me, routes, incoming, after_hops(packet, hops))
            == (ForwardActionView::Drop {
            reason: DropReason::TtlExceeded,
            packet: after_hops(packet, hops),
        }),
    decreases hops,
{
    if hops > 0 {
        packets_wear_out(me, routes, incoming, packet, (hops - 1) as nat);
    }
}

/// Forwarders in the same state do the same on the same event.
pub proof fn same_inputs_give_the_same_outputs(
    a: Forwarder,
    b: Forwarder,
    now: MonoTime,
    event: ForwardEvent,
    a_after: Forwarder,
    b_after: Forwarder,
    a_actions: Seq<ForwardAction>,
    b_actions: Seq<ForwardAction>,
)
    requires
        a.me() == b.me(),
        a.table() == b.table(),
        Forwarder::may_step(a, now, event, a_after, a_actions),
        Forwarder::may_step(b, now, event, b_after, b_actions),
    ensures
        a_after.me() == b_after.me(),
        a_after.table() == b_after.table(),
        views(a_actions) == views(b_actions),
{
}

} // verus!
