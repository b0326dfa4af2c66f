//! What a node shows of itself.

use bytes::Bytes;
use std::sync::Arc;
use vstd::prelude::*;
use crate::buffer;
use crate::control::cost::{Adjacency, LinkCost};
use crate::control::message::Lsa;
use crate::control::table::{Route, RouteTable};
use crate::forward::DropReason;
use crate::lab::numbers::{node_id, numeric_id};
use crate::order;
use crate::order::Key;
use crate::ordered_map::OrderedMap;
use crate::runtime::driver::{ForwardOutcome, OutcomeView};
use crate::text;
use crate::types::{LinkId, MonoTime, NodeId};
use crate::wire::packet;
use crate::wire::packet::{ForwardFlags, ForwardHeader, ForwardPacket, PacketType, PacketView};
use crate::wire::packet::Priority;

verus! {

/// How many outcomes a node remembers.
pub const MAX_OUTCOMES: usize = 128;

/// How many bytes of a payload are shown.
pub const PREVIEW_LEN: usize = 96;

/// How many hops a packet that is sent from here may travel.
pub const SENT_TTL: u8 = 32;

/// How many packets and bytes wait for a link, by priority.
#[derive(Clone, Copy, Debug)]
pub struct QueueState {
    pub packet_counts: [usize; 4],
    pub queued_bytes: [usize; 4],
}

/// Something that happened in a runtime.
#[derive(Debug)]
pub struct RuntimeEvent {
    pub sequence: u64,
    pub at: MonoTime,
    pub kind: &'static str,
    pub detail: String,
    pub link: Option<LinkId>,
}

/// The state of a runtime at one time.
#[derive(Debug)]
pub struct RuntimeSnapshot {
    pub peers: OrderedMap<LinkId, NodeId>,
    pub lsas: Vec<Lsa>,
    pub routes: Arc<RouteTable>,
    pub queues: Vec<(LinkId, QueueState)>,
    pub recent_events: Vec<RuntimeEvent>,
}

/// A link and its far end.
#[derive(Clone, Copy, Debug, Eq, PartialEq, Structural)]
pub struct PeerResponse {
    pub link_id: u64,
    pub peer: u64,
}

/// An announcement in force.
#[derive(Debug, Eq, PartialEq)]
pub struct LsaResponse {
    pub origin: u64,
    pub epoch: u32,
    pub sequence: u64,
    pub adjacencies: Vec<u64>,
}

/// A route.
#[derive(Clone, Copy, Debug, Eq, PartialEq, Structural)]
pub struct RouteResponse {
    pub destination: u64,
    pub next_hop: u64,
    pub cost: u32,
    pub hops: u8,
}

/// What waits for a link.
#[derive(Clone, Copy, Debug, Eq, PartialEq)]
pub struct QueueResponse {
    pub link_id: u64,
    pub packets: [usize; 4],
    pub bytes: [usize; 4],
}

/// Something that happened.
#[derive(Debug, Eq, PartialEq)]
pub struct EventResponse {
    pub sequence: u64,
    pub at_ms: u64,
    pub kind: &'static str,
    pub detail: String,
    pub link_id: Option<u64>,
    pub peer: Option<u64>,
}

/// What became of a packet.
#[derive(Debug, Eq, PartialEq)]
pub struct OutcomeResponse {
    pub sequence: u64,
    pub at_ms: u64,
    pub kind: &'static str,
    pub detail: String,
    pub source: u64,
    pub destination: Option<u64>,
    pub priority: u8,
    pub flow_id: u64,
    pub payload_bytes: Option<usize>,
    pub payload_preview: String,
}

/// What a description of an outcome says.
#[verifier::ext_equal]
pub struct OutcomeRow {
    pub sequence: u64,
    pub at_ms: u64,
    pub kind: Seq<char>,
    pub detail: Seq<char>,
    pub source: u64,
    pub destination: Option<u64>,
    pub priority: u8,
    pub flow_id: u64,
    pub payload_bytes: Option<usize>,
    pub payload_preview: Seq<char>,
}

impl View for OutcomeResponse {
    type V = OutcomeRow;

    open spec fn view(&self) -> OutcomeRow {
        OutcomeRow {
            sequence: self.sequence,
            at_ms: self.at_ms,
            kind: self.kind@,
            detail: self.detail@,
            source: self.source,
            destination: self.destination,
            priority: self.priority,
            flow_id: self.flow_id,
            payload_bytes: self.payload_bytes,
            payload_preview: self.payload_preview@,
        }
    }
}

impl Clone for OutcomeResponse {
    fn clone(&self) -> (copy: Self)
        ensures
            copy@ == self@,
    {
        OutcomeResponse {
            sequence: self.sequence,
            at_ms: self.at_ms,
            kind: self.kind,
            detail: self.detail.clone(),
            source: self.source,
            destination: self.destination,
            priority: self.priority,
            flow_id: self.flow_id,
            payload_bytes: self.payload_bytes,
            payload_preview: self.payload_preview.clone(),
        }
    }
}

/// All that a node shows.
#[derive(Debug)]
pub struct SnapshotResponse {
    pub id: u64,
    pub name: String,
    pub mesh_addr: String,
    pub now_ms: u64,
    pub peers: Vec<PeerResponse>,
    pub lsdb: Vec<LsaResponse>,
    pub routes: Vec<RouteResponse>,
    pub queues: Vec<QueueResponse>,
    pub events: Vec<EventResponse>,
    pub outcomes: Vec<OutcomeResponse>,
}

/// The links and their far ends, by ascending link.
pub open spec fn peer_rows(peers: Map<LinkId, NodeId>) -> Seq<PeerResponse> {
    let links = order::ascending::<LinkId>(peers.dom());
    Seq::new(
        links.len(),
        |i: int| PeerResponse { link_id: links[i].value(), peer: numeric_id(peers[links[i]]) },
    )
}

/// The routes, by ascending destination.
pub open spec fn route_rows(routes: Map<NodeId, Route>) -> Seq<RouteResponse> {
    let destinations = order::ascending::<NodeId>(routes.dom());
    Seq::new(
        destinations.len(),
        |i: int|
            RouteResponse {
                destination: numeric_id(destinations[i]),
                next_hop: routes[destinations[i]].next_hop.value(),
                cost: routes[destinations[i]].cost,
                hops: routes[destinations[i]].hops,
            },
    )
}

/// The numbers of the far ends of edges.
pub open spec fn edge_numbers(adjacencies: Seq<Adjacency>) -> Seq<u64> {
    adjacencies.map_values(|adjacency: Adjacency| numeric_id(adjacency.peer))
}

/// The description shows the announcement.
pub open spec fn shows_lsa(row: LsaResponse, lsa: Lsa) -> bool {
    &&& row.origin == numeric_id(lsa.origin)
    &&& row.epoch == lsa.epoch
    &&& row.sequence == lsa.seq
    &&& row.adjacencies@ == edge_numbers(lsa.adjacencies@)
}

/// The description shows what waits for a link.
pub open spec fn shows_queue(row: QueueResponse, queue: (LinkId, QueueState)) -> bool {
    &&& row.link_id == queue.0.value()
    &&& row.packets == queue.1.packet_counts
    &&& row.bytes == queue.1.queued_bytes
}

/// The number of the far end of the link of an event, where it is up.
pub open spec fn event_peer(peers: Map<LinkId, NodeId>, link: Option<LinkId>) -> Option<u64> {
    match link {
        Some(link) => if peers.contains_key(link) {
            Some(numeric_id(peers[link]))
        } else {
            None
        },
        None => None,
    }
}

/// The description shows the event.
pub open spec fn shows_event(
    row: EventResponse,
    event: RuntimeEvent,
    peers: Map<LinkId, NodeId>,
) -> bool {
    &&& row.sequence == event.sequence
    &&& row.at_ms == event.at.millis()
    &&& row.kind == event.kind
    &&& row.detail@ == event.detail@
    &&& row.link_id == match event.link {
        Some(link) => Some(link.value()),
        None => None,
    }
    &&& row.peer == event_peer(peers, event.link)
}

/// The far ends of edges as numbers.
fn edge_list(adjacencies: &Vec<Adjacency>) -> (numbers: Vec<u64>)
    ensures
        numbers@ == edge_numbers(adjacencies@),
{
    let mut numbers: Vec<u64> = Vec::new();
    let mut i: usize = 0;
    while i < adjacencies.len()
        invariant
            i <= adjacencies@.len(),
            numbers@ == edge_numbers(adjacencies@).take(i as int),
        decreases adjacencies@.len() - i,
    {
        numbers.push(numeric_id(adjacencies[i].peer));
        assert(numbers@ =~= edge_numbers(adjacencies@).take(i + 1));
        i = i + 1;
    }
    assert(numbers@ =~= edge_numbers(adjacencies@));
    numbers
}

/// Describes links.
fn peer_list(peers: &OrderedMap<LinkId, NodeId>) -> (rows: Vec<PeerResponse>)
    requires
        peers.wf(),
    ensures
        rows@ == peer_rows(peers@),
{
    let mut rows: Vec<PeerResponse> = Vec::new();
    let mut i: usize = 0;
    proof {
        peers.ranks_list_domain();
    }
    while i < peers.len()
        invariant
            peers.wf(),
            peers.ranks() == order::ascending::<LinkId>(peers@.dom()),
            i <= peers.ranks().len(),
            rows@ == peer_rows(peers@).take(i as int),
        decreases peers.ranks().len() - i,
    {
        let link: LinkId = *peers.key_at(i);
        let peer: NodeId = *peers.value_at(i);
        rows.push(PeerResponse { link_id: link.get(), peer: numeric_id(peer) });
        assert(rows@ =~= peer_rows(peers@).take(i + 1));
        i = i + 1;
    }
    assert(rows@ =~= peer_rows(peers@));
    rows
}

/// Describes routes.
fn route_list(table: &RouteTable) -> (rows: Vec<RouteResponse>)
    requires
        table.wf(),
    ensures
        rows@ == route_rows(table@.routes),
{
    let entries = table.iter();
    let ghost goal = route_rows(table@.routes);
    let mut rows: Vec<RouteResponse> = Vec::new();
    let mut i: usize = 0;
    proof {
        table.destinations_are_listed();
    }
    while i < entries.len()
        invariant
            i <= entries@.len(),
            goal == route_rows(table@.routes),
            entries@.len() == goal.len(),
            forall|k: int|
                0 <= k < entries@.len() ==> {
                    &&& *(#[trigger] entries@[k]).0 == order::ascending::<NodeId>(
                        table@.routes.dom(),
                    )[k]
                    &&& *entries@[k].1 == table@.routes[*entries@[k].0]
                },
            rows@ == goal.take(i as int),
        decreases entries@.len() - i,
    {
        let destination: NodeId = *entries[i].0;
        let route: Route = *entries[i].1;
        rows.push(
            RouteResponse {
                destination: numeric_id(destination),
                next_hop: route.next_hop.get(),
                cost: route.cost,
                hops: route.hops,
            },
        );
        assert(rows@ =~= goal.take(i + 1));
        i = i + 1;
    }
    assert(rows@ =~= goal);
    rows
}

/// Describes announcements.
fn lsa_list(lsas: &Vec<Lsa>) -> (rows: Vec<LsaResponse>)
    ensures
        rows@.len() == lsas@.len(),
        forall|i: int| 0 <= i < lsas@.len() ==> shows_lsa(#[trigger] rows@[i], lsas@[i]),
{
    let mut rows: Vec<LsaResponse> = Vec::new();
    let mut i: usize = 0;
    while i < lsas.len()
        invariant
            i <= lsas@.len(),
            rows@.len() == i,
            forall|k: int| 0 <= k < i ==> shows_lsa(#[trigger] rows@[k], lsas@[k]),
        decreases lsas@.len() - i,
    {
        let lsa = &lsas[i];
        rows.push(
            LsaResponse {
                origin: numeric_id(lsa.origin),
                epoch: lsa.epoch,
                sequence: lsa.seq,
                adjacencies: edge_list(&lsa.adjacencies),
            },
        );
        i = i + 1;
    }
    rows
}

/// Describes what waits for links.
fn queue_list(queues: &Vec<(LinkId, QueueState)>) -> (rows: Vec<QueueResponse>)
    ensures
        rows@.len() == queues@.len(),
        forall|i: int| 0 <= i < queues@.len() ==> shows_queue(#[trigger] rows@[i], queues@[i]),
{
    let mut rows: Vec<QueueResponse> = Vec::new();
    let mut i: usize = 0;
    while i < queues.len()
        invariant
            i <= queues@.len(),
            rows@.len() == i,
            forall|k: int| 0 <= k < i ==> shows_queue(#[trigger] rows@[k], queues@[k]),
        decreases queues@.len() - i,
    {
        let link: LinkId = queues[i].0;
        let state: QueueState = queues[i].1;
        rows.push(
            QueueResponse {
                link_id: link.get(),
                packets: state.packet_counts,
                bytes: state.queued_bytes,
            },
        );
        i = i + 1;
    }
    rows
}

/// Describes events.
fn event_list(events: &Vec<RuntimeEvent>, peers: &OrderedMap<LinkId, NodeId>) -> (rows: Vec<
    EventResponse,
>)
    requires
        peers.wf(),
    ensures
        rows@.len() == events@.len(),
        forall|i: int|
            0 <= i < events@.len() ==> shows_event(#[trigger] rows@[i], events@[i], peers@),
{
    let mut rows: Vec<EventResponse> = Vec::new();
    let mut i: usize = 0;
    while i < events.len()
        invariant
            peers.wf(),
            i <= events@.len(),
            rows@.len() == i,
            forall|k: int| 0 <= k < i ==> shows_event(#[trigger] rows@[k], events@[k], peers@),
        decreases events@.len() - i,
    {
        let event = &events[i];
        let link_id: Option<u64> = match event.link {
            Some(link) => Some(link.get()),
            None => None,
        };
        let peer: Option<u64> = match event.link {
            Some(link) => match peers.get(&link) {
                Some(peer) => Some(numeric_id(*peer)),
                None => None,
            },
            None => None,
        };
        rows.push(
            EventResponse {
                sequence: event.sequence,
                at_ms: event.at.as_millis(),
                kind: event.kind,
                detail: event.detail.clone(),
                link_id,
                peer,
            },
        );
        i = i + 1;
    }
    rows
}

/// Describes a node: its links, the announcements that it knows, its routes,
/// what waits for its links, and what happened.
pub fn snapshot_response(
    id: u64,
    name: String,
    mesh_addr: String,
    now_ms: u64,
    snapshot: &RuntimeSnapshot,
    outcomes: Vec<OutcomeResponse>,
) -> (response: SnapshotResponse)
    requires
        snapshot.peers.wf(),
        snapshot.routes.wf(),
    ensures
        response.id == id,
        response.name@ == name@,
        response.mesh_addr@ == mesh_addr@,
        response.now_ms == now_ms,
        response.outcomes@ == outcomes@,
        response.peers@ == peer_rows(snapshot.peers@),
        response.routes@ == route_rows(snapshot.routes@.routes),
        response.lsdb@.len() == snapshot.lsas@.len(),
        forall|i: int|
            0 <= i < snapshot.lsas@.len() ==> shows_lsa(
                #[trigger] response.lsdb@[i],
                snapshot.lsas@[i],
            ),
        response.queues@.len() == snapshot.queues@.len(),
        forall|i: int|
            0 <= i < snapshot.queues@.len() ==> shows_queue(
                #[trigger] response.queues@[i],
                snapshot.queues@[i],
            ),
        response.events@.len() == snapshot.recent_events@.len(),
        forall|i: int|
            0 <= i < snapshot.recent_events@.len() ==> shows_event(
                #[trigger] response.events@[i],
                snapshot.recent_events@[i],
                snapshot.peers@,
            ),
{
    SnapshotResponse {
        id,
        name,
        mesh_addr,
        now_ms,
        peers: peer_list(&snapshot.peers),
        lsdb: lsa_list(&snapshot.lsas),
        routes: route_list(&snapshot.routes),
        queues: queue_list(&snapshot.queues),
        events: event_list(&snapshot.recent_events, &snapshot.peers),
        outcomes,
    }
}

/// The text that `String::from_utf8_lossy` makes of bytes.
pub uninterp spec fn lossy_text(bytes: Seq<u8>) -> Seq<char>;

/// Calls `String::from_utf8_lossy`, which reads bytes as text in UTF-8 and puts
/// a replacement character where they are none. The text has a name; of bytes
/// that are text in UTF-8 it is that text.
#[verifier::external_body]
fn from_utf8_lossy(bytes: &[u8]) -> (text: String)
    ensures
        text@ == lossy_text(bytes@),
        vstd::utf8::valid_utf8(bytes@) ==> text@ == vstd::utf8::decode_utf8(bytes@),
{
    String::from_utf8_lossy(bytes).into_owned()
}

/// The start of a payload, as much of it as is shown.
pub open spec fn preview(payload: Seq<u8>) -> Seq<u8> {
    if payload.len() < PREVIEW_LEN {
        payload
    } else {
        payload.take(PREVIEW_LEN as int)
    }
}

/// Describes what became of a packet, packet included.
pub open spec fn packet_row(
    sequence: u64,
    at_ms: u64,
    kind: Seq<char>,
    detail: Seq<char>,
    packet: PacketView,
) -> OutcomeRow {
    OutcomeRow {
        sequence,
        at_ms,
        kind,
        detail,
        source: numeric_id(packet.header.source),
        destination: Some(numeric_id(packet.header.destination)),
        priority: packet.header.priority.code(),
        flow_id: packet.header.flow_id,
        payload_bytes: Some(packet.payload.len() as usize),
        payload_preview: lossy_text(preview(packet.payload)),
    }
}

/// Describes what became of a packet. Of one that was dropped, neither
/// destination nor payload are shown.
pub open spec fn outcome_row(sequence: u64, at_ms: u64, outcome: OutcomeView) -> OutcomeRow {
    match outcome {
        OutcomeView::Delivered(packet) => packet_row(
            sequence,
            at_ms,
            "DELIVERED"@,
            "application delivery"@,
            packet,
        ),
        OutcomeView::Dropped { reason, packet } => OutcomeRow {
            sequence,
            at_ms,
            kind: "DROPPED"@,
            detail: reason_words(reason),
            source: numeric_id(packet.header.source),
            destination: None,
            priority: packet.header.priority.code(),
            flow_id: packet.header.flow_id,
            payload_bytes: None,
            payload_preview: Seq::empty(),
        },
        OutcomeView::Backpressure { link, packet } => packet_row(
            sequence,
            at_ms,
            "BACKPRESSURE"@,
            "link "@ + text::decimal(link.value() as nat),
            packet,
        ),
    }
}

/// The name of a kind of packet.
pub open spec fn type_words(packet_type: PacketType) -> Seq<char> {
    match packet_type {
        PacketType::Unicast => "Unicast"@,
        PacketType::Multicast => "Multicast"@,
        PacketType::CircuitData => "CircuitData"@,
        PacketType::CircuitControl => "CircuitControl"@,
    }
}

/// The reason why a packet was dropped, in words.
pub open spec fn reason_words(reason: DropReason) -> Seq<char> {
    match reason {
        DropReason::TtlExceeded => "TtlExceeded"@,
        DropReason::NoRoute => "NoRoute"@,
        DropReason::LoopDetected => "LoopDetected"@,
        DropReason::UnsupportedPacketType(packet_type) => "UnsupportedPacketType("@ + type_words(
            packet_type,
        ) + ")"@,
    }
}

/// The reason why a packet was dropped, in words.
fn reason_text(reason: DropReason) -> (words: String)
    ensures
        words@ == reason_words(reason),
{
    match reason {
        DropReason::TtlExceeded => "TtlExceeded".to_owned(),
        DropReason::NoRoute => "NoRoute".to_owned(),
        DropReason::LoopDetected => "LoopDetected".to_owned(),
        DropReason::UnsupportedPacketType(packet_type) => {
            let mut words = "UnsupportedPacketType(".to_owned();
            match packet_type {
                PacketType::Unicast => {
                    words.append("Unicast");
                },
                PacketType::Multicast => {
                    words.append("Multicast");
                },
                PacketType::CircuitData => {
                    words.append("CircuitData");
                },
                PacketType::CircuitControl => {
                    words.append("CircuitControl");
                },
            }
            words.append(")");
            words
        },
    }
}

/// Describes what became of a packet, packet included.
fn packet_outcome(
    sequence: u64,
    at_ms: u64,
    kind: &'static str,
    detail: String,
    packet: &ForwardPacket,
) -> (response: OutcomeResponse)
    ensures
        response@ == packet_row(sequence, at_ms, kind@, detail@, packet@),
{
    let payload = buffer::as_octets(&packet.payload);
    let payload_len: usize = payload.len();
    let preview_len: usize = if payload_len < PREVIEW_LEN {
        payload_len
    } else {
        PREVIEW_LEN
    };
    let start = vstd::slice::slice_subrange(payload, 0, preview_len);
    assert(start@ =~= preview(packet@.payload));
    OutcomeResponse {
        sequence,
        at_ms,
        kind,
        detail,
        source: numeric_id(packet.header.source),
        destination: Some(numeric_id(packet.header.destination)),
        priority: packet.header.priority.code(),
        flow_id: packet.header.flow_id,
        payload_bytes: Some(payload_len),
        payload_preview: from_utf8_lossy(start),
    }
}

/// Describes what became of a packet.
pub fn outcome_response(sequence: u64, at_ms: u64, outcome: &ForwardOutcome) -> (response:
    OutcomeResponse)
    ensures
        response@ == outcome_row(sequence, at_ms, outcome@),
{
    match outcome {
        ForwardOutcome::Delivered(packet) => packet_outcome(
            sequence,
            at_ms,
            "DELIVERED",
            "application delivery".to_owned(),
            packet,
        ),
        ForwardOutcome::Dropped { reason, packet } => {
            let response = OutcomeResponse {
                sequence,
                at_ms,
                kind: "DROPPED",
                detail: reason_text(*reason),
                source: numeric_id(packet.header.source),
                destination: None,
                priority: packet.header.priority.code(),
                flow_id: packet.header.flow_id,
                payload_bytes: None,
                payload_preview: String::new(),
            };
            assert(response@ =~= outcome_row(sequence, at_ms, outcome@));
            response
        },
        ForwardOutcome::Backpressure { link, packet } => {
            let mut detail = "link ".to_owned();
            text::append_decimal(&mut detail, link.get());
            packet_outcome(sequence, at_ms, "BACKPRESSURE", detail, packet)
        },
    }
}

/// What a list of descriptions says.
pub open spec fn outcome_rows(entries: Seq<OutcomeResponse>) -> Seq<OutcomeRow> {
    entries.map_values(|entry: OutcomeResponse| entry@)
}

/// The last outcomes at a node.
#[derive(Debug)]
pub struct OutcomeLog {
    sequence: u64,
    entries: Vec<OutcomeResponse>,
}

impl OutcomeLog {
    /// How many outcomes there were, as far as that can be counted.
    pub closed spec fn sequence(&self) -> u64 {
        self.sequence
    }

    /// The outcomes that are remembered, the oldest first.
    pub closed spec fn rows(&self) -> Seq<OutcomeRow> {
        outcome_rows(self.entries@)
    }

    /// There was no outcome yet.
    pub fn new() -> (log: Self)
        ensures
            log.sequence() == 0,
            log.rows() == Seq::<OutcomeRow>::empty(),
    {
        let log = OutcomeLog { sequence: 0, entries: Vec::new() };
        assert(log.rows() =~= Seq::<OutcomeRow>::empty());
        log
    }

    /// Remembers an outcome; the oldest one is forgotten where there are too
    /// many.
    pub fn record(&mut self, at_ms: u64, outcome: &ForwardOutcome)
        requires
            old(self).rows().len() <= MAX_OUTCOMES,
        ensures
            final(self).rows().len() <= MAX_OUTCOMES,
            final(self).sequence() == (if old(self).sequence() == u64::MAX {
                0
            } else {
                old(self).sequence() + 1
            }),
            final(self).rows() == (if old(self).rows().len() == MAX_OUTCOMES {
                old(self).rows().drop_first()
            } else {
                old(self).rows()
            }).push(outcome_row(final(self).sequence(), at_ms, outcome@)),
    {
        let ghost before = self.rows();
        let ghost held = self.entries@;
        self.sequence = self.sequence.wrapping_add(1);
        let entry = outcome_response(self.sequence, at_ms, outcome);
        if self.entries.len() == MAX_OUTCOMES {
            let _ = self.entries.remove(0);
            assert(self.entries@ =~= held.drop_first());
            assert(self.rows() =~= before.drop_first());
        }
        let ghost kept = self.rows();
        self.entries.push(entry);
        assert(self.rows() =~= kept.push(entry@));
    }

    /// The outcomes that are remembered, the oldest first.
    pub fn entries(&self) -> (entries: Vec<OutcomeResponse>)
        ensures
            outcome_rows(entries@) == self.rows(),
    {
        let mut entries: Vec<OutcomeResponse> = Vec::new();
        let mut i: usize = 0;
        while i < self.entries.len()
            invariant
                i <= self.entries@.len(),
                outcome_rows(entries@) == self.rows().take(i as int),
            decreases self.entries@.len() - i,
        {
            let ghost done = outcome_rows(entries@);
            let entry = self.entries[i].clone();
            entries.push(entry);
            proof {
                assert(outcome_rows(entries@) =~= done.push(entry@));
                assert(self.rows().take(i + 1) =~= self.rows().take(i as int).push(
                    self.rows()[i as int],
                ));
            }
            i = i + 1;
        }
        assert(outcome_rows(entries@) =~= self.rows());
        entries
    }
}

/// The packet that a node is asked to send.
pub open spec fn requested_packet(
    source: NodeId,
    destination: NodeId,
    priority: Priority,
    flow_id: u64,
    payload: Seq<u8>,
) -> PacketView {
    PacketView {
        header: ForwardHeader {
            packet_type: PacketType::Unicast,
            priority,
            ttl: SENT_TTL,
            flags: ForwardFlags::of(0),
            destination,
            source,
            flow_id,
            conflate_key: 0,
        },
        payload,
    }
}

/// Makes the packet that a node is asked to send.
pub fn request_packet(
    source: u64,
    destination: u64,
    priority: u8,
    flow_id: u64,
    payload: String,
) -> (packet: Result<ForwardPacket, String>)
    ensures
        match packet {
            Ok(p) => {
                &&& priority <= 3
                &&& p@.header.priority.code() == priority
                &&& p@.header.source.bytes() == crate::lab::numbers::id_bytes(source)
                &&& p@.header.destination.bytes() == crate::lab::numbers::id_bytes(destination)
                &&& p@ == requested_packet(
                    p@.header.source,
                    p@.header.destination,
                    p@.header.priority,
                    flow_id,
                    vstd::utf8::encode_utf8(payload@),
                )
            },
            Err(words) => priority > 3 && words@ == "priority must be between 0 and 3"@,
        },
{
    let level: Priority = match Priority::try_from(priority) {
        Ok(level) => level,
        Err(_) => {
            return Err("priority must be between 0 and 3".to_owned());
        },
    };
    let bytes: Bytes = buffer::to_bytes(vstd::slice::slice_to_vec(payload.as_str().as_bytes()));
    let packet = ForwardPacket {
        header: ForwardHeader {
            packet_type: PacketType::Unicast,
            priority: level,
            ttl: SENT_TTL,
            flags: ForwardFlags::empty(),
            destination: node_id(destination),
            source: node_id(source),
            flow_id,
            conflate_key: 0,
        },
        payload: bytes,
    };
    proof {
        packet.header.flags.bits_of();
        assert(packet@ =~= requested_packet(
            packet.header.source,
            packet.header.destination,
            level,
            flow_id,
            vstd::utf8::encode_utf8(payload@),
        ));
    }
    Ok(packet)
}

/// The cost of a link as it was asked for.
pub fn request_cost(cost: u16) -> (checked: Result<LinkCost, String>)
    ensures
        match checked {
            Ok(c) => cost > 0 && c.value() == cost,
            Err(words) => cost == 0 && words@ == "link cost must be greater than zero"@,
        },
{
    match LinkCost::new(cost) {
        Ok(checked) => Ok(checked),
        Err(_) => Err("link cost must be greater than zero".to_owned()),
    }
}

} // verus!
