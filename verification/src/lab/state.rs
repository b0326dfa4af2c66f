//! What the laboratory makes of what its nodes show.

use vstd::prelude::*;
use crate::lab::admin::{LsaResponse, PeerResponse, QueueResponse, RouteResponse};
use crate::lab::graph;
use crate::lab::graph::LabLink;
use crate::lab::numbers::{Number, NumberSet};
use crate::lab::showing;
use crate::ordered_map::OrderedMap;
use crate::order::Key;

verus! {

/// How many events are shown.
pub const MAX_EVENTS: usize = 100;

/// A node of the laboratory.
#[derive(Debug)]
pub struct NodeInfo {
    pub id: u64,
    pub name: String,
    pub mesh_addr: String,
    pub admin_addr: String,
    pub pid: Option<u32>,
}

impl Clone for NodeInfo {
    fn clone(&self) -> (copy: Self)
        ensures
            copy == *self,
    {
        NodeInfo {
            id: self.id,
            name: self.name.clone(),
            mesh_addr: self.mesh_addr.clone(),
            admin_addr: self.admin_addr.clone(),
            pid: self.pid,
        }
    }
}

/// Something that happened at a node.
#[derive(Debug)]
pub struct EventSnapshot {
    pub sequence: u64,
    pub at_ms: u64,
    pub kind: String,
    pub detail: String,
    pub link_id: Option<u64>,
    pub peer: Option<u64>,
}

/// What became of a packet at a node.
#[derive(Debug)]
pub struct OutcomeSnapshot {
    pub sequence: u64,
    pub at_ms: u64,
    pub kind: String,
    pub detail: String,
    pub source: u64,
    pub destination: Option<u64>,
    pub priority: u8,
    pub flow_id: u64,
    pub payload_bytes: Option<usize>,
    pub payload_preview: String,
}

/// All that a node shows.
#[derive(Debug)]
pub struct NodeSnapshot {
    pub id: u64,
    pub name: String,
    pub mesh_addr: String,
    pub now_ms: u64,
    pub peers: Vec<PeerResponse>,
    pub lsdb: Vec<LsaResponse>,
    pub routes: Vec<RouteResponse>,
    pub queues: Vec<QueueResponse>,
    pub events: Vec<EventSnapshot>,
    pub outcomes: Vec<OutcomeSnapshot>,
}

/// A node, when it was started, and what it shows. A node that shows nothing
/// is not running.
#[derive(Debug)]
pub struct NodeReport {
    pub info: NodeInfo,
    pub started_offset_ms: u64,
    pub snapshot: Option<NodeSnapshot>,
}

/// A node, whether it is running, and what it shows.
#[derive(Debug)]
pub struct LabNodeState {
    pub info: NodeInfo,
    pub running: bool,
    pub snapshot: Option<NodeSnapshot>,
}

/// Something that happened in the laboratory.
#[derive(Debug)]
pub struct LabEvent {
    pub node: u64,
    pub name: String,
    pub sequence: u64,
    pub at_ms: u64,
    pub kind: String,
    pub detail: String,
    pub link_id: Option<u64>,
    pub peer: Option<u64>,
}

/// All that the laboratory shows.
#[derive(Debug)]
pub struct LabStateResponse {
    pub converged: bool,
    pub components: usize,
    pub now_ms: u64,
    pub pace_ms: u64,
    pub nodes: Vec<LabNodeState>,
    pub links: Vec<LabLink>,
    pub events: Vec<LabEvent>,
}

/// What an announcement says to the laboratory.
#[verifier::ext_equal]
pub struct LsaRow {
    pub origin: u64,
    pub epoch: u32,
    pub sequence: u64,
    pub adjacencies: Seq<u64>,
}

/// What a node shows, as far as it tells of the mesh.
#[verifier::ext_equal]
pub struct MeshRow {
    pub peers: Seq<u64>,
    pub lsdb: Seq<LsaRow>,
    pub routes: Seq<u64>,
}

/// A node and what it shows of the mesh.
#[verifier::ext_equal]
pub struct NodeRow {
    pub id: u64,
    pub mesh: Option<MeshRow>,
}

/// What an announcement says to the laboratory.
pub open spec fn lsa_row(lsa: LsaResponse) -> LsaRow {
    LsaRow {
        origin: lsa.origin,
        epoch: lsa.epoch,
        sequence: lsa.sequence,
        adjacencies: lsa.adjacencies@,
    }
}

/// What a node shows of the mesh.
pub open spec fn mesh_row(snapshot: NodeSnapshot) -> MeshRow {
    MeshRow {
        peers: snapshot.peers@.map_values(|peer: PeerResponse| peer.peer),
        lsdb: snapshot.lsdb@.map_values(|lsa: LsaResponse| lsa_row(lsa)),
        routes: snapshot.routes@.map_values(|route: RouteResponse| route.destination),
    }
}

/// A node and what it shows of the mesh.
pub open spec fn node_row(node: LabNodeState) -> NodeRow {
    NodeRow {
        id: node.info.id,
        mesh: match node.snapshot {
            Some(snapshot) => Some(mesh_row(snapshot)),
            None => None,
        },
    }
}

/// The nodes and what they show of the mesh.
pub open spec fn node_rows(nodes: Seq<LabNodeState>) -> Seq<NodeRow> {
    nodes.map_values(|node: LabNodeState| node_row(node))
}

/// What the first node with the number shows of the mesh.
pub open spec fn shown_by(nodes: Seq<NodeRow>, id: u64) -> Option<MeshRow>
    decreases nodes.len(),
{
    if nodes.len() == 0 {
        None
    } else if nodes[0].id == id {
        nodes[0].mesh
    } else {
        shown_by(nodes.drop_first(), id)
    }
}

/// The node runs and has the number.
pub open spec fn runs_as(node: NodeRow, id: u64) -> bool {
    node.id == id && node.mesh is Some
}

/// The numbers of the nodes that are running.
pub open spec fn live_ids(nodes: Seq<NodeRow>) -> Set<u64> {
    Set::new(|id: u64| exists|i: int| 0 <= i < nodes.len() && runs_as(#[trigger] nodes[i], id))
}

/// The node with one number has a link to the node with the other.
pub open spec fn sees(nodes: Seq<NodeRow>, endpoint: u64, peer: u64) -> bool {
    shown_by(nodes, endpoint) matches Some(mesh) && mesh.peers.contains(peer)
}

/// A link is up when both ends see each other.
pub open spec fn observed(nodes: Seq<NodeRow>, link: LabLink) -> LabLink {
    LabLink { up: sees(nodes, link.a, link.b) && sees(nodes, link.b, link.a), ..link }
}

/// The links as the nodes see them.
pub open spec fn observed_links(nodes: Seq<NodeRow>, links: Seq<LabLink>) -> Seq<LabLink> {
    links.map_values(|link: LabLink| observed(nodes, link))
}

/// What is known of one origin.
#[verifier::ext_equal]
pub struct KnownRow {
    pub epoch: u32,
    pub sequence: u64,
    pub adjacencies: Set<u64>,
}

/// What is known of the origins of a part of the mesh. Of several
/// announcements of one origin the last counts; edges to nodes that are not
/// running are left out.
pub open spec fn known(lsdb: Seq<LsaRow>, part: Set<u64>, live: Set<u64>) -> Map<u64, KnownRow>
    decreases lsdb.len(),
{
    if lsdb.len() == 0 {
        Map::empty()
    } else {
        let before = known(lsdb.drop_last(), part, live);
        let last = lsdb.last();
        if part.contains(last.origin) {
            before.insert(
                last.origin,
                KnownRow {
                    epoch: last.epoch,
                    sequence: last.sequence,
                    adjacencies: last.adjacencies.to_set().intersect(live),
                },
            )
        } else {
            before
        }
    }
}

/// What the first running node of a part shows.
pub open spec fn first_of(nodes: Seq<NodeRow>, part: Set<u64>) -> Option<MeshRow>
    decreases nodes.len(),
{
    if nodes.len() == 0 {
        None
    } else if part.contains(nodes[0].id) && nodes[0].mesh is Some {
        nodes[0].mesh
    } else {
        first_of(nodes.drop_first(), part)
    }
}

/// A node of a part agrees with the first one: it knows the same of all origins
/// of the part and of no others, what they announce is what the laboratory
/// sees, and it has routes to exactly the other nodes of the part.
pub open spec fn agrees(
    nodes: Seq<NodeRow>,
    live: Set<u64>,
    links: Seq<LabLink>,
    part: Set<u64>,
    first: MeshRow,
    id: u64,
) -> bool {
    shown_by(nodes, id) matches Some(mesh) && {
        let mine = known(mesh.lsdb, part, live);
        &&& mine.dom() == part
        &&& mine == known(first.lsdb, part, live)
        &&& forall|origin: u64| #[trigger]
            part.contains(origin) ==> mine[origin].adjacencies == graph::neighbours(
                live,
                links,
                origin,
            )
        &&& mesh.routes.to_set() == part.remove(id)
    }
}

/// All nodes of a part agree.
pub open spec fn is_settled(
    nodes: Seq<NodeRow>,
    live: Set<u64>,
    links: Seq<LabLink>,
    part: Set<u64>,
) -> bool {
    first_of(nodes, part) matches Some(first) && forall|id: u64| #[trigger]
        part.contains(id) ==> agrees(nodes, live, links, part, first, id)
}

/// Some node is running, and in each part of the mesh all nodes agree.
pub open spec fn is_converged(nodes: Seq<NodeRow>, links: Seq<LabLink>) -> bool {
    let live = live_ids(nodes);
    &&& exists|id: u64| live.contains(id)
    &&& forall|part: Set<u64>| #[trigger]
        graph::components(live, links).contains(part) ==> is_settled(nodes, live, links, part)
}

/// What an event says.
#[verifier::ext_equal]
pub struct EventRow {
    pub node: u64,
    pub name: Seq<char>,
    pub sequence: u64,
    pub at_ms: u64,
    pub kind: Seq<char>,
    pub detail: Seq<char>,
    pub link_id: Option<u64>,
    pub peer: Option<u64>,
}

impl View for LabEvent {
    type V = EventRow;

    open spec fn view(&self) -> EventRow {
        EventRow {
            node: self.node,
            name: self.name@,
            sequence: self.sequence,
            at_ms: self.at_ms,
            kind: self.kind@,
            detail: self.detail@,
            link_id: self.link_id,
            peer: self.peer,
        }
    }
}

/// What several events say.
pub open spec fn event_rows(events: Seq<LabEvent>) -> Seq<EventRow> {
    events.map_values(|event: LabEvent| event@)
}

/// The sum, or the largest number there is.
pub open spec fn saturating_sum(a: u64, b: u64) -> u64 {
    if a + b > u64::MAX {
        u64::MAX
    } else {
        (a + b) as u64
    }
}

/// An event at a node, in the time of the laboratory.
pub open spec fn event_row(info: NodeInfo, started_offset_ms: u64, event: EventSnapshot) -> EventRow {
    EventRow {
        node: info.id,
        name: info.name@,
        sequence: event.sequence,
        at_ms: saturating_sum(started_offset_ms, event.at_ms),
        kind: event.kind@,
        detail: event.detail@,
        link_id: event.link_id,
        peer: event.peer,
    }
}

/// The events that a node shows.
pub open spec fn report_events(report: NodeReport) -> Seq<EventRow> {
    match report.snapshot {
        Some(snapshot) => snapshot.events@.map_values(
            |event: EventSnapshot| event_row(report.info, report.started_offset_ms, event),
        ),
        None => Seq::empty(),
    }
}

/// The events that all nodes show, node by node.
pub open spec fn all_events(reports: Seq<NodeReport>) -> Seq<EventRow>
    decreases reports.len(),
{
    if reports.len() == 0 {
        Seq::empty()
    } else {
        all_events(reports.drop_last()) + report_events(reports.last())
    }
}

/// The event `a` is older than the event `b`: by time, then by node, then by
/// number.
pub open spec fn is_older(a: EventRow, b: EventRow) -> bool {
    a.at_ms < b.at_ms || a.at_ms == b.at_ms && (a.node < b.node || a.node == b.node && a.sequence
        < b.sequence)
}

/// The events with one more, in front of all that are not newer.
pub open spec fn placed(events: Seq<EventRow>, event: EventRow) -> Seq<EventRow>
    decreases events.len(),
{
    if events.len() == 0 || !is_older(event, events[0]) {
        seq![event] + events
    } else {
        seq![events[0]] + placed(events.drop_first(), event)
    }
}

/// The events, the newest first.
pub open spec fn newest_first(events: Seq<EventRow>) -> Seq<EventRow>
    decreases events.len(),
{
    if events.len() == 0 {
        Seq::empty()
    } else {
        placed(newest_first(events.drop_last()), events.last())
    }
}

/// The first of them, as many as are shown.
pub open spec fn first_shown(events: Seq<EventRow>) -> Seq<EventRow> {
    if events.len() <= MAX_EVENTS {
        events
    } else {
        events.take(MAX_EVENTS as int)
    }
}

/// The reports with one more, behind all that do not have a greater number.
pub open spec fn filed(reports: Seq<NodeReport>, report: NodeReport) -> Seq<NodeReport>
    decreases reports.len(),
{
    if reports.len() > 0 && report.info.id < reports.last().info.id {
        filed(reports.drop_last(), report).push(reports.last())
    } else {
        reports.push(report)
    }
}

/// The reports by ascending number of their node.
pub open spec fn by_number(reports: Seq<NodeReport>) -> Seq<NodeReport>
    decreases reports.len(),
{
    if reports.len() == 0 {
        Seq::empty()
    } else {
        filed(by_number(reports.drop_last()), reports.last())
    }
}

/// The node of a report.
pub open spec fn state_of(report: NodeReport) -> LabNodeState {
    LabNodeState {
        info: report.info,
        running: report.snapshot is Some,
        snapshot: report.snapshot,
    }
}

/// The nodes of reports.
pub open spec fn states_of(reports: Seq<NodeReport>) -> Seq<LabNodeState> {
    reports.map_values(|report: NodeReport| state_of(report))
}

/// Files a report.
fn file(reports: &mut Vec<NodeReport>, report: NodeReport)
    ensures
        final(reports)@ == filed(old(reports)@, report),
{
    let ghost before = reports@;
    let mut i: usize = reports.len();
    assert(before.take(i as int) =~= before);
    assert(filed(before, report) =~= filed(before.take(i as int), report) + before.skip(i as int));
    while i > 0 && report.info.id < reports[i - 1].info.id
        invariant
            reports@ == before,
            i <= before.len(),
            filed(before, report) == filed(before.take(i as int), report) + before.skip(i as int),
        decreases i,
    {
        proof {
            let now = before.take(i as int);
            let less = before.take(i - 1);
            assert(now.drop_last() =~= less);
            assert(now.last() == before[i - 1]);
            assert(filed(now, report) + before.skip(i as int) =~= filed(less, report)
                + before.skip(i - 1));
        }
        i = i - 1;
    }
    proof {
        let now = before.take(i as int);
        if i > 0 {
            assert(now.last() == before[i - 1]);
        }
        assert(filed(now, report) =~= now.push(report));
        assert(before.insert(i as int, report) =~= now.push(report) + before.skip(i as int));
    }
    reports.insert(i, report);
}

/// Brings reports into the order of the numbers of their nodes.
fn sort_reports(collected: Vec<NodeReport>) -> (reports: Vec<NodeReport>)
    ensures
        reports@ == by_number(collected@),
{
    let ghost all = collected@;
    let mut rest = collected;
    let mut reports: Vec<NodeReport> = Vec::new();
    let ghost mut done: int = 0;
    assert(rest@ =~= all.skip(0));
    assert(all.take(0) =~= Seq::<NodeReport>::empty());
    while rest.len() > 0
        invariant
            0 <= done <= all.len(),
            rest@ == all.skip(done),
            reports@ == by_number(all.take(done)),
        decreases rest@.len(),
    {
        let report = rest.remove(0);
        proof {
            assert(report == all[done]);
            assert(all.take(done + 1).drop_last() =~= all.take(done));
            assert(rest@ =~= all.skip(done + 1));
            done = done + 1;
        }
        file(&mut reports, report);
    }
    assert(all.take(done) =~= all);
    reports
}

/// Where an event is placed.
proof fn placed_at(events: Seq<EventRow>, event: EventRow, i: int)
    requires
        0 <= i <= events.len(),
        forall|k: int| 0 <= k < i ==> is_older(event, #[trigger] events[k]),
        i < events.len() ==> !is_older(event, events[i]),
    ensures
        placed(events, event) == events.take(i) + seq![event] + events.skip(i),
    decreases events.len(),
{
    if i == 0 {
        assert(placed(events, event) =~= events.take(i) + seq![event] + events.skip(i));
    } else {
        let rest = events.drop_first();
        assert forall|k: int| 0 <= k < i - 1 implies is_older(event, #[trigger] rest[k]) by {
            assert(rest[k] == events[k + 1]);
        }
        assert(is_older(event, events[0]));
        placed_at(rest, event, i - 1);
        assert(placed(events, event) =~= events.take(i) + seq![event] + events.skip(i));
    }
}

/// Places an event.
fn place(events: &mut Vec<LabEvent>, event: LabEvent)
    ensures
        event_rows(final(events)@) == placed(event_rows(old(events)@), event@),
{
    let ghost before = events@;
    let ghost rows = event_rows(events@);
    let mut i: usize = 0;
    while i < events.len() && (event.at_ms < events[i].at_ms || event.at_ms == events[i].at_ms && (
    event.node < events[i].node || event.node == events[i].node && event.sequence
        < events[i].sequence))
        invariant
            events@ == before,
            rows == event_rows(before),
            i <= before.len(),
            forall|k: int| 0 <= k < i ==> is_older(event@, #[trigger] rows[k]),
        decreases before.len() - i,
    {
        assert(rows[i as int] == before[i as int]@);
        i = i + 1;
    }
    proof {
        if i < before.len() {
            assert(rows[i as int] == before[i as int]@);
        }
        placed_at(rows, event@, i as int);
    }
    events.insert(i, event);
    assert(event_rows(events@) =~= rows.take(i as int) + seq![event@] + rows.skip(i as int));
}

/// Collects the events of all nodes, the newest first.
fn collect_events(reports: &Vec<NodeReport>) -> (events: Vec<LabEvent>)
    ensures
        event_rows(events@) == newest_first(all_events(reports@)),
{
    let mut events: Vec<LabEvent> = Vec::new();
    let mut n: usize = 0;
    proof {
        assert(reports@.take(0) =~= Seq::<NodeReport>::empty());
        assert(all_events(reports@.take(0)) =~= Seq::<EventRow>::empty());
        assert(event_rows(events@) =~= Seq::<EventRow>::empty());
    }
    while n < reports.len()
        invariant
            n <= reports@.len(),
            event_rows(events@) == newest_first(all_events(reports@.take(n as int))),
        decreases reports@.len() - n,
    {
        let report = &reports[n];
        let ghost before = all_events(reports@.take(n as int));
        let ghost mine = report_events(*report);
        proof {
            let next = reports@.take(n + 1);
            assert(next.drop_last() =~= reports@.take(n as int));
            assert(next.last() == *report);
        }
        if let Some(snapshot) = &report.snapshot {
            let mut i: usize = 0;
            assert(before + mine.take(0) =~= before);
            while i < snapshot.events.len()
                invariant
                    i <= snapshot.events@.len(),
                    report.snapshot == Some(*snapshot),
                    mine == report_events(*report),
                    mine.len() == snapshot.events@.len(),
                    event_rows(events@) == newest_first(before + mine.take(i as int)),
                decreases snapshot.events@.len() - i,
            {
                let event = &snapshot.events[i];
                let placed_event = LabEvent {
                    node: report.info.id,
                    name: report.info.name.clone(),
                    sequence: event.sequence,
                    at_ms: report.started_offset_ms.saturating_add(event.at_ms),
                    kind: event.kind.clone(),
                    detail: event.detail.clone(),
                    link_id: event.link_id,
                    peer: event.peer,
                };
                proof {
                    let more = before + mine.take(i + 1);
                    assert(more.drop_last() =~= before + mine.take(i as int));
                    assert(more.last() == mine[i as int]);
                    assert(placed_event@ =~= mine[i as int]);
                }
                place(&mut events, placed_event);
                i = i + 1;
            }
            assert(mine.take(i as int) =~= mine);
        } else {
            assert(before + mine =~= before);
        }
        n = n + 1;
    }
    assert(reports@.take(n as int) =~= reports@);
    events
}

/// Tells reports apart into nodes.
fn to_states(reports: Vec<NodeReport>) -> (nodes: Vec<LabNodeState>)
    ensures
        nodes@ == states_of(reports@),
{
    let ghost all = reports@;
    let mut rest = reports;
    let mut nodes: Vec<LabNodeState> = Vec::new();
    let ghost mut done: int = 0;
    assert(rest@ =~= all.skip(0));
    assert(nodes@ =~= states_of(all.take(0)));
    while rest.len() > 0
        invariant
            0 <= done <= all.len(),
            rest@ == all.skip(done),
            nodes@ == states_of(all.take(done)),
        decreases rest@.len(),
    {
        let report = rest.remove(0);
        let ghost before = nodes@;
        let running: bool = report.snapshot.is_some();
        nodes.push(LabNodeState { info: report.info, running, snapshot: report.snapshot });
        proof {
            assert(report == all[done]);
            assert(all.take(done + 1) =~= all.take(done).push(report));
            assert(nodes@ =~= states_of(all.take(done + 1)));
            assert(rest@ =~= all.skip(done + 1));
            done = done + 1;
        }
    }
    assert(all.take(done) =~= all);
    nodes
}

/// The numbers of the nodes that are running.
fn find_live(nodes: &Vec<LabNodeState>) -> (live: NumberSet)
    ensures
        live.wf(),
        live@ == live_ids(node_rows(nodes@)),
{
    let ghost rows = node_rows(nodes@);
    let mut live = NumberSet::new();
    let mut i: usize = 0;
    assert(live@ =~= live_ids(rows.take(0)));
    while i < nodes.len()
        invariant
            live.wf(),
            i <= nodes@.len(),
            rows == node_rows(nodes@),
            live@ == live_ids(rows.take(i as int)),
        decreases nodes@.len() - i,
    {
        let ghost before = live@;
        let ghost less = rows.take(i as int);
        let ghost more = rows.take(i + 1);
        let id: u64 = nodes[i].info.id;
        let running: bool = nodes[i].snapshot.is_some();
        if running {
            live.insert(id);
        }
        proof {
            assert(rows[i as int] == node_row(nodes@[i as int]));
            assert forall|x: u64| #[trigger] live_ids(more).contains(x) <==> live@.contains(x) by {
                if live_ids(more).contains(x) {
                    let k = choose|k: int| 0 <= k < more.len() && runs_as(#[trigger] more[k], x);
                    if k < i {
                        assert(runs_as(less[k], x));
                        assert(live_ids(less).contains(x));
                    }
                }
                if before.contains(x) {
                    let k = choose|k: int| 0 <= k < less.len() && runs_as(#[trigger] less[k], x);
                    assert(runs_as(more[k], x));
                }
                if running && x == id {
                    assert(runs_as(more[i as int], x));
                }
            }
            assert(live@ =~= live_ids(more));
        }
        i = i + 1;
    }
    assert(rows.take(i as int) =~= rows);
    live
}

/// What the first node with the number shows.
fn find_snapshot(nodes: &Vec<LabNodeState>, id: u64) -> (snapshot: Option<&NodeSnapshot>)
    ensures
        match snapshot {
            Some(s) => shown_by(node_rows(nodes@), id) == Some(mesh_row(*s)),
            None => shown_by(node_rows(nodes@), id) is None,
        },
{
    let ghost rows = node_rows(nodes@);
    let mut i: usize = 0;
    assert(rows.skip(0) =~= rows);
    while i < nodes.len()
        invariant
            i <= nodes@.len(),
            rows == node_rows(nodes@),
            shown_by(rows, id) == shown_by(rows.skip(i as int), id),
        decreases nodes@.len() - i,
    {
        proof {
            assert(rows.skip(i as int)[0] == node_row(nodes@[i as int]));
            assert(rows.skip(i as int).drop_first() =~= rows.skip(i + 1));
        }
        if nodes[i].info.id == id {
            return match &nodes[i].snapshot {
                Some(snapshot) => Some(snapshot),
                None => None,
            };
        }
        i = i + 1;
    }
    None
}

/// What the first running node of a part shows.
fn find_first<'a>(nodes: &'a Vec<LabNodeState>, part: &NumberSet) -> (snapshot: Option<
    &'a NodeSnapshot,
>)
    requires
        part.wf(),
    ensures
        match snapshot {
            Some(s) => first_of(node_rows(nodes@), part@) == Some(mesh_row(*s)),
            None => first_of(node_rows(nodes@), part@) is None,
        },
{
    let ghost rows = node_rows(nodes@);
    let mut i: usize = 0;
    assert(rows.skip(0) =~= rows);
    while i < nodes.len()
        invariant
            part.wf(),
            i <= nodes@.len(),
            rows == node_rows(nodes@),
            first_of(rows, part@) == first_of(rows.skip(i as int), part@),
        decreases nodes@.len() - i,
    {
        proof {
            assert(rows.skip(i as int)[0] == node_row(nodes@[i as int]));
            assert(rows.skip(i as int).drop_first() =~= rows.skip(i + 1));
        }
        if part.contains(nodes[i].info.id) {
            if let Some(snapshot) = &nodes[i].snapshot {
                return Some(snapshot);
            }
        }
        i = i + 1;
    }
    None
}

/// Whether the node with one number has a link to the node with the other.
fn endpoint_sees_peer(nodes: &Vec<LabNodeState>, endpoint: u64, peer: u64) -> (seen: bool)
    ensures
        seen == sees(node_rows(nodes@), endpoint, peer),
{
    match find_snapshot(nodes, endpoint) {
        None => false,
        Some(snapshot) => {
            let ghost peers = mesh_row(*snapshot).peers;
            let mut i: usize = 0;
            while i < snapshot.peers.len()
                invariant
                    i <= snapshot.peers@.len(),
                    peers == mesh_row(*snapshot).peers,
                    shown_by(node_rows(nodes@), endpoint) == Some(mesh_row(*snapshot)),
                    forall|k: int| 0 <= k < i ==> #[trigger] peers[k] != peer,
                decreases snapshot.peers@.len() - i,
            {
                assert(peers[i as int] == snapshot.peers@[i as int].peer);
                if snapshot.peers[i].peer == peer {
                    assert(peers.contains(peer));
                    return true;
                }
                i = i + 1;
            }
            false
        },
    }
}

/// The links as the nodes see them.
fn observe_links(nodes: &Vec<LabNodeState>, links: &Vec<LabLink>) -> (seen: Vec<LabLink>)
    ensures
        seen@ == observed_links(node_rows(nodes@), links@),
{
    let ghost goal = observed_links(node_rows(nodes@), links@);
    let mut seen: Vec<LabLink> = Vec::new();
    let mut i: usize = 0;
    while i < links.len()
        invariant
            i <= links@.len(),
            goal == observed_links(node_rows(nodes@), links@),
            seen@ == goal.take(i as int),
        decreases links@.len() - i,
    {
        let link: LabLink = links[i];
        let up: bool = endpoint_sees_peer(nodes, link.a, link.b) && endpoint_sees_peer(
            nodes,
            link.b,
            link.a,
        );
        seen.push(
            LabLink {
                id: link.id,
                a: link.a,
                b: link.b,
                up,
                desired_up: link.desired_up,
                cost: link.cost,
                latency_ms: link.latency_ms,
                loss_per_million: link.loss_per_million,
                bandwidth_kbps: link.bandwidth_kbps,
            },
        );
        assert(goal.take(i + 1) =~= goal.take(i as int).push(goal[i as int]));
        assert(seen@ =~= goal.take(i + 1));
        i = i + 1;
    }
    assert(seen@ =~= goal);
    seen
}

/// What is known of one origin.
struct KnownLsa {
    epoch: u32,
    sequence: u64,
    adjacencies: NumberSet,
}

/// What is known of one origin.
spec fn known_row(lsa: KnownLsa) -> KnownRow {
    KnownRow { epoch: lsa.epoch, sequence: lsa.sequence, adjacencies: lsa.adjacencies@ }
}

/// The map holds what is known.
spec fn holds(map: OrderedMap<Number, KnownLsa>, goal: Map<u64, KnownRow>) -> bool {
    &&& map.wf()
    &&& map@.dom() == goal.dom()
    &&& forall|origin: u64| #[trigger]
        map@.contains_key(origin) ==> map@[origin].adjacencies.wf() && known_row(map@[origin])
            == goal[origin]
}

/// The edges of an announcement that lead to nodes that are running.
fn live_edges(adjacencies: &Vec<u64>, live: &NumberSet) -> (edges: NumberSet)
    requires
        live.wf(),
    ensures
        edges.wf(),
        edges@ == adjacencies@.to_set().intersect(live@),
{
    let mut edges = NumberSet::new();
    let mut i: usize = 0;
    assert(edges@ =~= adjacencies@.take(0).to_set().intersect(live@));
    while i < adjacencies.len()
        invariant
            live.wf(),
            edges.wf(),
            i <= adjacencies@.len(),
            edges@ == adjacencies@.take(i as int).to_set().intersect(live@),
        decreases adjacencies@.len() - i,
    {
        let peer: u64 = adjacencies[i];
        let ghost before = edges@;
        if live.contains(peer) {
            edges.insert(peer);
        }
        proof {
            let less = adjacencies@.take(i as int);
            let more = adjacencies@.take(i + 1);
            assert(more =~= less.push(peer));
            assert forall|x: u64| #[trigger] edges@.contains(x) <==> more.to_set().intersect(
                live@,
            ).contains(x) by {
                if less.contains(x) {
                    let k = choose|k: int| 0 <= k < less.len() && less[k] == x;
                    assert(more[k] == x);
                }
                if x == peer {
                    assert(more[i as int] == x);
                }
                if more.contains(x) {
                    let k = choose|k: int| 0 <= k < more.len() && more[k] == x;
                    if k < i {
                        assert(less[k] == x);
                    }
                }
            }
            assert(edges@ =~= more.to_set().intersect(live@));
        }
        i = i + 1;
    }
    assert(adjacencies@.take(i as int) =~= adjacencies@);
    edges
}

/// What is known of the origins of a part.
fn lsdb_view(snapshot: &NodeSnapshot, part: &NumberSet, live: &NumberSet) -> (map: OrderedMap<
    Number,
    KnownLsa,
>)
    requires
        part.wf(),
        live.wf(),
    ensures
        holds(map, known(mesh_row(*snapshot).lsdb, part@, live@)),
{
    let ghost rows = mesh_row(*snapshot).lsdb;
    let mut map: OrderedMap<Number, KnownLsa> = OrderedMap::new();
    let mut i: usize = 0;
    proof {
        assert(rows.take(0) =~= Seq::<LsaRow>::empty());
        assert(map@.dom() =~= known(rows.take(0), part@, live@).dom());
    }
    while i < snapshot.lsdb.len()
        invariant
            part.wf(),
            live.wf(),
            i <= snapshot.lsdb@.len(),
            rows == mesh_row(*snapshot).lsdb,
            holds(map, known(rows.take(i as int), part@, live@)),
        decreases snapshot.lsdb@.len() - i,
    {
        let lsa = &snapshot.lsdb[i];
        let ghost before = map;
        proof {
            let next = rows.take(i + 1);
            assert(next.drop_last() =~= rows.take(i as int));
            assert(next.last() == lsa_row(*lsa));
        }
        if part.contains(lsa.origin) {
            let entry = KnownLsa {
                epoch: lsa.epoch,
                sequence: lsa.sequence,
                adjacencies: live_edges(&lsa.adjacencies, live),
            };
            map.insert(Number(lsa.origin), entry);
            proof {
                let goal = known(rows.take(i + 1), part@, live@);
                assert(map@.dom() =~= goal.dom());
                assert forall|origin: u64| #[trigger] map@.contains_key(
                    origin,
                ) implies map@[origin].adjacencies.wf() && known_row(map@[origin])
                    == goal[origin] by {
                    if origin != lsa.origin {
                        assert(before@.contains_key(origin));
                    }
                }
            }
        }
        i = i + 1;
    }
    assert(rows.take(i as int) =~= rows);
    map
}

/// What is known is known of origins of the part only.
pub(crate) proof fn known_is_of_the_part(lsdb: Seq<LsaRow>, part: Set<u64>, live: Set<u64>)
    ensures
        known(lsdb, part, live).dom().subset_of(part),
    decreases lsdb.len(),
{
    if lsdb.len() > 0 {
        known_is_of_the_part(lsdb.drop_last(), part, live);
    }
}

/// Whether two maps hold the same.
fn same_view(
    a: &OrderedMap<Number, KnownLsa>,
    b: &OrderedMap<Number, KnownLsa>,
    Ghost(of_a): Ghost<Map<u64, KnownRow>>,
    Ghost(of_b): Ghost<Map<u64, KnownRow>>,
) -> (same: bool)
    requires
        holds(*a, of_a),
        holds(*b, of_b),
    ensures
        same == (of_a == of_b),
{
    proof {
        a.ranks_list_domain();
        b.ranks_list_domain();
    }
    if a.len() != b.len() {
        return false;
    }
    let mut i: usize = 0;
    while i < a.len()
        invariant
            holds(*a, of_a),
            holds(*b, of_b),
            a.wf(),
            b.wf(),
            i <= a.ranks().len(),
            forall|k: int|
                0 <= k < i ==> of_b.contains_key(#[trigger] a.ranks()[k]) && of_b[a.ranks()[k]]
                    == of_a[a.ranks()[k]],
        decreases a.ranks().len() - i,
    {
        let origin: u64 = a.key_at(i).0;
        let mine = a.value_at(i);
        assert(a@.contains_key(origin));
        assert(known_row(*mine) == of_a[origin]);
        match b.get(&Number(origin)) {
            None => {
                assert(!of_b.dom().contains(origin));
                assert(of_a.dom().contains(origin));
                return false;
            },
            Some(theirs) => {
                assert(known_row(*theirs) == of_b[origin]);
                if mine.epoch != theirs.epoch || mine.sequence != theirs.sequence
                    || !mine.adjacencies.equals(&theirs.adjacencies) {
                    return false;
                }
                assert(known_row(*mine) =~= known_row(*theirs));
            },
        }
        i = i + 1;
    }
    proof {
        assert forall|origin: u64| #[trigger] of_a.contains_key(origin) implies of_b.contains_key(
            origin,
        ) && of_b[origin] == of_a[origin] by {
            assert(a.ranks().contains(origin));
        }
        assert(of_a.dom().subset_of(of_b.dom()));
        vstd::set_lib::lemma_subset_equality(of_a.dom(), of_b.dom());
        assert(of_a =~= of_b);
    }
    true
}

/// The destinations of routes.
fn route_destinations(routes: &Vec<RouteResponse>) -> (destinations: NumberSet)
    ensures
        destinations.wf(),
        destinations@ == routes@.map_values(|route: RouteResponse| route.destination).to_set(),
{
    let ghost all = routes@.map_values(|route: RouteResponse| route.destination);
    let mut destinations = NumberSet::new();
    let mut i: usize = 0;
    assert(destinations@ =~= all.take(0).to_set());
    while i < routes.len()
        invariant
            destinations.wf(),
            i <= routes@.len(),
            all == routes@.map_values(|route: RouteResponse| route.destination),
            destinations@ == all.take(i as int).to_set(),
        decreases routes@.len() - i,
    {
        let destination: u64 = routes[i].destination;
        let ghost before = destinations@;
        destinations.insert(destination);
        proof {
            let less = all.take(i as int);
            let more = all.take(i + 1);
            assert(more =~= less.push(destination));
            assert forall|x: u64| #[trigger] destinations@.contains(x) <==> more.to_set().contains(
                x,
            ) by {
                if less.contains(x) {
                    let k = choose|k: int| 0 <= k < less.len() && less[k] == x;
                    assert(more[k] == x);
                }
                if x == destination {
                    assert(more[i as int] == x);
                }
                if more.contains(x) {
                    let k = choose|k: int| 0 <= k < more.len() && more[k] == x;
                    if k < i {
                        assert(less[k] == x);
                    }
                }
            }
            assert(destinations@ =~= more.to_set());
        }
        i = i + 1;
    }
    assert(all.take(i as int) =~= all);
    destinations
}

/// Whether what each origin of a part announces is what the laboratory sees.
fn edges_agree(
    map: &OrderedMap<Number, KnownLsa>,
    live: &NumberSet,
    links: &Vec<LabLink>,
    Ghost(goal): Ghost<Map<u64, KnownRow>>,
) -> (agree: bool)
    requires
        holds(*map, goal),
        live.wf(),
    ensures
        agree == (forall|origin: u64| #[trigger]
            goal.dom().contains(origin) ==> goal[origin].adjacencies == graph::neighbours(
                live@,
                links@,
                origin,
            )),
{
    proof {
        map.ranks_list_domain();
    }
    let mut i: usize = 0;
    while i < map.len()
        invariant
            holds(*map, goal),
            map.wf(),
            live.wf(),
            i <= map.ranks().len(),
            forall|k: int|
                0 <= k < i ==> goal[#[trigger] map.ranks()[k]].adjacencies == graph::neighbours(
                    live@,
                    links@,
                    map.ranks()[k],
                ),
        decreases map.ranks().len() - i,
    {
        let origin: u64 = map.key_at(i).0;
        let entry = map.value_at(i);
        assert(map@.contains_key(origin));
        assert(known_row(*entry) == goal[origin]);
        let expected = graph::find_neighbours(live, links, origin);
        if !entry.adjacencies.equals(&expected) {
            assert(goal.dom().contains(origin));
            return false;
        }
        i = i + 1;
    }
    proof {
        assert forall|origin: u64| #[trigger] goal.dom().contains(
            origin,
        ) implies goal[origin].adjacencies == graph::neighbours(live@, links@, origin) by {
            assert(map.ranks().contains(origin));
        }
    }
    true
}

/// Whether a node of a part agrees with the first one.
fn node_agrees(
    nodes: &Vec<LabNodeState>,
    live: &NumberSet,
    links: &Vec<LabLink>,
    part: &NumberSet,
    first: &NodeSnapshot,
    id: u64,
) -> (agree: bool)
    requires
        live.wf(),
        part.wf(),
        part@.contains(id),
    ensures
        agree == agrees(node_rows(nodes@), live@, links@, part@, mesh_row(*first), id),
{
    let snapshot = match find_snapshot(nodes, id) {
        None => {
            return false;
        },
        Some(snapshot) => snapshot,
    };
    let ghost mine = known(mesh_row(*snapshot).lsdb, part@, live@);
    let ghost theirs = known(mesh_row(*first).lsdb, part@, live@);
    let map = lsdb_view(snapshot, part, live);
    let canonical = lsdb_view(first, part, live);
    proof {
        known_is_of_the_part(mesh_row(*snapshot).lsdb, part@, live@);
        map.ranks_list_domain();
        part.list_is_complete();
        if mine.dom().len() == part@.len() {
            vstd::set_lib::lemma_subset_equality(mine.dom(), part@);
        }
    }
    if map.len() != part.len() {
        return false;
    }
    if !same_view(&map, &canonical, Ghost(mine), Ghost(theirs)) {
        return false;
    }
    if !edges_agree(&map, live, links, Ghost(mine)) {
        return false;
    }
    let mut expected = NumberSet::new();
    let mut i: usize = 0;
    let ghost listed = part.listed();
    assert(expected@ =~= listed.take(0).to_set().remove(id));
    while i < part.len()
        invariant
            part.wf(),
            expected.wf(),
            listed == part.listed(),
            i <= listed.len(),
            expected@ == listed.take(i as int).to_set().remove(id),
        decreases listed.len() - i,
    {
        let other: u64 = part.at(i);
        let ghost before = expected@;
        if other != id {
            expected.insert(other);
        }
        proof {
            let less = listed.take(i as int);
            let more = listed.take(i + 1);
            assert(more =~= less.push(other));
            assert forall|x: u64| #[trigger] expected@.contains(x) <==> more.to_set().remove(
                id,
            ).contains(x) by {
                if less.contains(x) {
                    let k = choose|k: int| 0 <= k < less.len() && less[k] == x;
                    assert(more[k] == x);
                }
                if x == other {
                    assert(more[i as int] == x);
                }
                if more.contains(x) {
                    let k = choose|k: int| 0 <= k < more.len() && more[k] == x;
                    if k < i {
                        assert(less[k] == x);
                    }
                }
            }
            assert(expected@ =~= more.to_set().remove(id));
        }
        i = i + 1;
    }
    proof {
        assert(listed.take(i as int) =~= listed);
        assert forall|x: u64| #[trigger] expected@.contains(x) <==> part@.remove(id).contains(
            x,
        ) by {
            assert(listed.contains(x) <==> part@.contains(x));
        }
        assert(expected@ =~= part@.remove(id));
    }
    route_destinations(&snapshot.routes).equals(&expected)
}

/// Whether all nodes of a part agree.
fn part_is_settled(
    nodes: &Vec<LabNodeState>,
    live: &NumberSet,
    links: &Vec<LabLink>,
    part: &NumberSet,
) -> (settled: bool)
    requires
        live.wf(),
        part.wf(),
    ensures
        settled == is_settled(node_rows(nodes@), live@, links@, part@),
{
    let first = match find_first(nodes, part) {
        None => {
            return false;
        },
        Some(first) => first,
    };
    proof {
        part.list_is_complete();
    }
    let mut i: usize = 0;
    while i < part.len()
        invariant
            live.wf(),
            part.wf(),
            i <= part.listed().len(),
            first_of(node_rows(nodes@), part@) == Some(mesh_row(*first)),
            forall|k: int|
                0 <= k < i ==> agrees(
                    node_rows(nodes@),
                    live@,
                    links@,
                    part@,
                    mesh_row(*first),
                    #[trigger] part.listed()[k],
                ),
        decreases part.listed().len() - i,
    {
        let id: u64 = part.at(i);
        if !node_agrees(nodes, live, links, part, first, id) {
            return false;
        }
        i = i + 1;
    }
    proof {
        assert forall|id: u64| #[trigger] part@.contains(id) implies agrees(
            node_rows(nodes@),
            live@,
            links@,
            part@,
            mesh_row(*first),
            id,
        ) by {
            assert(part.listed().contains(id));
        }
    }
    true
}

/// Makes of what the nodes show what the laboratory shows: which nodes are
/// running, which links are up, into how many parts the mesh falls, whether it
/// has converged, and what happened last.
pub fn collect_state(
    collected: Vec<NodeReport>,
    links: &Vec<LabLink>,
    now_ms: u64,
    pace_ms: u64,
) -> (response: LabStateResponse)
    ensures
        response.now_ms == now_ms,
        response.pace_ms == pace_ms,
        response.nodes@ == states_of(by_number(collected@)),
        response.links@ == observed_links(node_rows(response.nodes@), links@),
        response.links@.len() == links@.len(),
        forall|i: int|
            0 <= i < links@.len() ==> showing::is_shown_as_seen(
                collected@,
                links@[i],
                #[trigger] response.links@[i],
            ),
        event_rows(response.events@) == first_shown(
            newest_first(all_events(by_number(collected@))),
        ),
        response.components == graph::components(
            live_ids(node_rows(response.nodes@)),
            response.links@,
        ).len(),
        response.converged == is_converged(node_rows(response.nodes@), response.links@),
{
    proof {
        showing::links_are_shown_as_seen(collected@, links@);
    }
    let reports = sort_reports(collected);
    let mut events = collect_events(&reports);
    let ghost rows = event_rows(events@);
    events.truncate(MAX_EVENTS);
    assert(event_rows(events@) =~= first_shown(rows));
    let nodes = to_states(reports);
    let live = find_live(&nodes);
    let seen = observe_links(&nodes, links);
    let parts = graph::find_components(&live, &seen);
    let ghost sets = graph::contents(parts@);
    let ghost all = graph::components(live@, seen@);
    let mut settled: bool = true;
    let mut i: usize = 0;
    while i < parts.len()
        invariant
            live.wf(),
            i <= parts@.len(),
            sets == graph::contents(parts@),
            forall|k: int| 0 <= k < parts@.len() ==> (#[trigger] parts@[k]).wf(),
            settled == (forall|k: int|
                0 <= k < i ==> is_settled(
                    node_rows(nodes@),
                    live@,
                    seen@,
                    #[trigger] sets[k],
                )),
        decreases parts@.len() - i,
    {
        assert(sets[i as int] == parts@[i as int]@);
        if !part_is_settled(&nodes, &live, &seen, &parts[i]) {
            settled = false;
        }
        i = i + 1;
    }
    let converged: bool = live.len() > 0 && settled;
    proof {
        live.list_is_complete();
        if live.listed().len() > 0 {
            assert(live.listed().contains(live.listed()[0]));
            assert(live@.contains(live.listed()[0]));
        }
        assert((live.listed().len() > 0) == (exists|id: u64| live@.contains(id))) by {
            if exists|id: u64| live@.contains(id) {
                let id = choose|id: u64| live@.contains(id);
                assert(live.listed().contains(id));
            }
        }
        assert(settled == (forall|part: Set<u64>| #[trigger]
            all.contains(part) ==> is_settled(node_rows(nodes@), live@, seen@, part))) by {
            if settled {
                assert forall|part: Set<u64>| #[trigger] all.contains(part) implies is_settled(
                    node_rows(nodes@),
                    live@,
                    seen@,
                    part,
                ) by {
                    assert(sets.to_set().contains(part));
                    let k = choose|k: int| 0 <= k < sets.len() && sets[k] == part;
                    assert(is_settled(node_rows(nodes@), live@, seen@, sets[k]));
                }
            } else {
                let k = choose|k: int|
                    0 <= k < sets.len() && !is_settled(
                        node_rows(nodes@),
                        live@,
                        seen@,
                        #[trigger] sets[k],
                    );
                assert(sets.to_set().contains(sets[k]));
                assert(all.contains(sets[k]));
            }
        }
    }
    LabStateResponse {
        converged,
        components: parts.len(),
        now_ms,
        pace_ms,
        nodes,
        links: seen,
        events,
    }
}

/// Of two events, at most one is older, and what is older than a third is
/// older than what is not.
proof fn ages_are_ordered(a: EventRow, b: EventRow, c: EventRow)
    ensures
        is_older(a, b) ==> !is_older(b, a),
        is_older(a, b) && !is_older(c, b) ==> is_older(a, c),
{
}

/// No event stands behind an older one.
pub open spec fn is_newest_first(events: Seq<EventRow>) -> bool {
    forall|i: int, j: int|
        0 <= i < j < events.len() ==> !is_older(#[trigger] events[i], #[trigger] events[j])
}

/// One event more keeps the others, and keeps them in order.
proof fn placing_keeps_order(events: Seq<EventRow>, event: EventRow)
    requires
        is_newest_first(events),
    ensures
        is_newest_first(placed(events, event)),
        placed(events, event).to_multiset() == events.to_multiset().insert(event),
        forall|i: int|
            0 <= i < placed(events, event).len() ==> {
                ||| #[trigger] placed(events, event)[i] == event
                ||| events.contains(placed(events, event)[i])
            },
    decreases events.len(),
{
    broadcast use vstd::seq_lib::group_to_multiset_ensures;

    let after = placed(events, event);
    if events.len() == 0 || !is_older(event, events[0]) {
        assert forall|i: int, j: int| 0 <= i < j < after.len() implies !is_older(
            #[trigger] after[i],
            #[trigger] after[j],
        ) by {
            assert(after[j] == events[j - 1]);
            if i == 0 {
                if j > 1 {
                    assert(!is_older(events[0], events[j - 1]));
                }
                ages_are_ordered(event, events[j - 1], events[0]);
            } else {
                assert(after[i] == events[i - 1]);
                assert(!is_older(events[i - 1], events[j - 1]));
            }
        }
        assert forall|i: int| 0 <= i < after.len() implies (#[trigger] after[i] == event
            || events.contains(after[i])) by {
            if i > 0 {
                assert(after[i] == events[i - 1]);
            }
        }
        assert(after =~= seq![event] + events);
        vstd::seq_lib::lemma_multiset_commutative(seq![event], events);
        assert(seq![event].to_multiset() =~= vstd::multiset::Multiset::singleton(event)) by {
            assert(seq![event] =~= Seq::<EventRow>::empty().push(event));
        }
        assert(after.to_multiset() =~= events.to_multiset().insert(event));
    } else {
        let first = events[0];
        let rest = events.drop_first();
        assert forall|i: int, j: int| 0 <= i < j < rest.len() implies !is_older(
            #[trigger] rest[i],
            #[trigger] rest[j],
        ) by {
            assert(!is_older(events[i + 1], events[j + 1]));
        }
        placing_keeps_order(rest, event);
        let inner = placed(rest, event);
        assert forall|i: int| 0 <= i < inner.len() implies !is_older(
            first,
            #[trigger] inner[i],
        ) && (inner[i] == event || events.contains(inner[i])) by {
            ages_are_ordered(event, first, first);
            if inner[i] != event {
                let k = choose|k: int| 0 <= k < rest.len() && rest[k] == inner[i];
                assert(events[k + 1] == inner[i]);
                assert(!is_older(events[0], events[k + 1]));
            }
        }
        assert forall|i: int, j: int| 0 <= i < j < after.len() implies !is_older(
            #[trigger] after[i],
            #[trigger] after[j],
        ) by {
            assert(after[j] == inner[j - 1]);
            if i > 0 {
                assert(after[i] == inner[i - 1]);
            }
        }
        assert forall|i: int| 0 <= i < after.len() implies (#[trigger] after[i] == event
            || events.contains(after[i])) by {
            if i > 0 {
                assert(after[i] == inner[i - 1]);
            } else {
                assert(events[0] == after[0]);
            }
        }
        assert(after =~= seq![first] + inner);
        assert(events =~= seq![first] + rest);
        vstd::seq_lib::lemma_multiset_commutative(seq![first], inner);
        vstd::seq_lib::lemma_multiset_commutative(seq![first], rest);
        assert(after.to_multiset() =~= events.to_multiset().insert(event));
    }
}

/// The events are shown with the newest first, and each as often as it
/// happened.
pub proof fn newest_events_come_first(events: Seq<EventRow>)
    ensures
        is_newest_first(newest_first(events)),
        newest_first(events).to_multiset() == events.to_multiset(),
    decreases events.len(),
{
    broadcast use vstd::seq_lib::group_to_multiset_ensures;

    if events.len() > 0 {
        let less = events.drop_last();
        newest_events_come_first(less);
        placing_keeps_order(newest_first(less), events.last());
        assert(less.push(events.last()) =~= events);
    } else {
        assert(newest_first(events) =~= events);
    }
}

/// In a mesh that has converged, any two running nodes that can reach each
/// other have routes to each other, and no node has a route to one that it
/// cannot reach.
pub proof fn converged_nodes_have_routes(
    nodes: Seq<NodeRow>,
    links: Seq<LabLink>,
    a: u64,
    b: u64,
)
    requires
        is_converged(nodes, links),
        live_ids(nodes).contains(a),
        a != b,
    ensures
        shown_by(nodes, a) is Some,
        shown_by(nodes, a)->0.routes.contains(b) <==> graph::component(
            live_ids(nodes),
            links,
            a,
        ).contains(b),
{
    let live = live_ids(nodes);
    let part = graph::component(live, links, a);
    assert(graph::components(live, links).contains(part));
    graph::nodes_reach_themselves(live, links, a);
    let first = first_of(nodes, part)->0;
    assert(agrees(nodes, live, links, part, first, a));
    let routes = shown_by(nodes, a)->0.routes;
    assert(routes.to_set().contains(b) <==> part.remove(a).contains(b));
}

/// In a mesh that has converged, running nodes that can reach each other know
/// the same announcements.
pub proof fn converged_nodes_know_the_same(
    nodes: Seq<NodeRow>,
    links: Seq<LabLink>,
    a: u64,
    b: u64,
)
    requires
        is_converged(nodes, links),
        live_ids(nodes).contains(a),
        graph::component(live_ids(nodes), links, a).contains(b),
    ensures
        ({
            let live = live_ids(nodes);
            let part = graph::component(live, links, a);
            &&& shown_by(nodes, a) is Some
            &&& shown_by(nodes, b) is Some
            &&& known(shown_by(nodes, a)->0.lsdb, part, live) == known(
                shown_by(nodes, b)->0.lsdb,
                part,
                live,
            )
        }),
{
    let live = live_ids(nodes);
    let part = graph::component(live, links, a);
    assert(graph::components(live, links).contains(part));
    graph::nodes_reach_themselves(live, links, a);
    let first = first_of(nodes, part)->0;
    assert(agrees(nodes, live, links, part, first, a));
    assert(agrees(nodes, live, links, part, first, b));
}

} // verus!
