//! What the control plane does, as mathematics.
//!
//! A [`PlaneView`] is the state of a control plane. [`transition`] says how an
//! event changes it and which actions it asks for.

use vstd::prelude::*;
use crate::control::cost::{Adjacency, LinkCost};
use crate::control::message::{ActionView, ControlTimer, DigestEntry, EventView, FrameView};
use crate::control::message::{LsaView, MessageView};
use crate::control::spf;
use crate::control::spf::{Graph, Label};
use crate::control::table::{Route, TableView};
use crate::order;
use crate::types::{LinkId, MonoTime, NodeId};

verus! {

/// Time between two digests on a link.
pub const DIGEST_INTERVAL_MS: u64 = 10_000;

/// The first hold before routes are computed anew.
pub const SPF_INITIAL_HOLD_MS: u64 = 100;

/// The longest hold before routes are computed anew.
pub const SPF_MAX_HOLD_MS: u64 = 5_000;

/// After so long without a change the hold starts again from its first value.
pub const SPF_QUIET_RESET_MS: u64 = 10_000;

/// Lifetime of a locally originated announcement.
pub const DEFAULT_LSA_TTL_SEC: u32 = 300;

/// The longest lifetime that is accepted.
pub const MAX_LSA_TTL_SEC: u32 = 3_600;

/// The largest number of origins that the database holds.
pub const MAX_LSDB_ENTRIES: usize = 1_000;

/// The largest number of edges in one announcement.
pub const MAX_LSA_ADJACENCIES: usize = 256;

/// The largest number of entries in one digest.
pub const MAX_DIGEST_ENTRIES: usize = MAX_LSDB_ENTRIES;

/// The largest number of origins in one request.
pub const MAX_DIGEST_REQ_ORIGINS: usize = MAX_LSDB_ENTRIES;

/// The far end of a local link and what the link costs.
#[derive(Clone, Copy, Debug)]
pub struct LocalAdjacency {
    pub peer: NodeId,
    pub cost: LinkCost,
}

/// A computation of routes that is due.
#[derive(Clone, Copy, Debug)]
pub struct PendingSpf {
    pub generation: u64,
    pub at: MonoTime,
}

/// An announcement that has not expired.
#[verifier::ext_equal]
pub struct ActiveView {
    pub message: MessageView,
    pub received_at: MonoTime,
    pub expires_at: MonoTime,
}

/// What is known of one origin. Without an active announcement it is a
/// tombstone, which remembers the version that expired.
#[verifier::ext_equal]
pub struct EntryView {
    pub version: (u32, u64),
    pub active: Option<ActiveView>,
}

/// The state of a control plane.
#[verifier::ext_equal]
pub struct PlaneView {
    pub me: NodeId,
    pub epoch: u32,
    pub my_seq: u64,
    pub adjacencies: Map<LinkId, LocalAdjacency>,
    pub lsdb: Map<NodeId, EntryView>,
    pub routes: TableView,
    pub pending_spf: Option<PendingSpf>,
    pub spf_generation: u64,
    pub spf_hold_ms: u64,
    pub last_lsdb_change_at: Option<MonoTime>,
}

/// The state of a new control plane.
pub open spec fn initial(me: NodeId, epoch: u32, last_seq: u64) -> PlaneView {
    PlaneView {
        me,
        epoch,
        my_seq: last_seq,
        adjacencies: Map::empty(),
        lsdb: Map::empty(),
        routes: TableView { version: 0, routes: Map::empty() },
        pending_spf: None,
        spf_generation: 0,
        spf_hold_ms: SPF_INITIAL_HOLD_MS,
        last_lsdb_change_at: None,
    }
}

/// What every reachable state keeps: the database is bounded and tells of each
/// origin what that origin announced, the hold is within its bounds, and no
/// computation is due that was not asked for.
pub open spec fn is_valid(p: PlaneView) -> bool {
    &&& p.lsdb.dom().finite()
    &&& p.lsdb.dom().len() <= MAX_LSDB_ENTRIES
    &&& SPF_INITIAL_HOLD_MS <= p.spf_hold_ms <= SPF_MAX_HOLD_MS
    &&& (p.pending_spf matches Some(pending) ==> pending.generation == p.spf_generation)
    &&& forall|origin: NodeId| #[trigger]
        p.lsdb.contains_key(origin) ==> is_entry_of(origin, p.lsdb[origin])
}

/// An active entry holds an announcement of its origin, with its version.
pub open spec fn is_entry_of(origin: NodeId, entry: EntryView) -> bool {
    entry.active matches Some(active) ==> active.message.lsa.origin == origin
        && active.message.lsa.version() == entry.version
}

/// The version `a` is newer than the version `b`: by the epoch, then by the
/// sequence number.
pub open spec fn is_after(a: (u32, u64), b: (u32, u64)) -> bool {
    a.0 > b.0 || a.0 == b.0 && a.1 > b.1
}

/// The database holds an active announcement of the origin.
pub open spec fn is_active(lsdb: Map<NodeId, EntryView>, origin: NodeId) -> bool {
    lsdb.contains_key(origin) && lsdb[origin].active is Some
}

/// Whether what is known of an origin has expired, if anything is known of it.
pub open spec fn is_expired(lsdb: Map<NodeId, EntryView>, origin: NodeId) -> Option<bool> {
    if lsdb.contains_key(origin) {
        Some(lsdb[origin].active is None)
    } else {
        None
    }
}

/// The active announcement of an origin.
pub open spec fn message_of(lsdb: Map<NodeId, EntryView>, origin: NodeId) -> MessageView {
    lsdb[origin].active->0.message
}

/// Some local link leads to the peer.
pub open spec fn leads_to(adjacencies: Map<LinkId, LocalAdjacency>, link: LinkId, peer: NodeId) -> bool {
    adjacencies.contains_key(link) && adjacencies[link].peer == peer
}

/// The peers that the local links lead to.
pub open spec fn peers(adjacencies: Map<LinkId, LocalAdjacency>) -> Set<NodeId> {
    Set::new(|peer: NodeId| exists|link: LinkId| leads_to(adjacencies, link, peer))
}

/// The cost is that of a link to the peer, and no link to the peer costs less.
pub open spec fn is_cheapest(
    adjacencies: Map<LinkId, LocalAdjacency>,
    peer: NodeId,
    cost: LinkCost,
) -> bool {
    &&& exists|link: LinkId| #[trigger]
        leads_to(adjacencies, link, peer) && adjacencies[link].cost == cost
    &&& forall|link: LinkId| #[trigger]
        leads_to(adjacencies, link, peer) ==> cost.value() <= adjacencies[link].cost.value()
}

/// The least cost of a link to the peer.
pub open spec fn cheapest(adjacencies: Map<LinkId, LocalAdjacency>, peer: NodeId) -> LinkCost {
    choose|cost: LinkCost| is_cheapest(adjacencies, peer, cost)
}

/// One edge for each peer, by ascending peer, at the least cost of a link.
pub open spec fn advertised(adjacencies: Map<LinkId, LocalAdjacency>) -> Seq<Adjacency> {
    let all = order::ascending::<NodeId>(peers(adjacencies));
    Seq::new(
        all.len(),
        |i: int| Adjacency { peer: all[i], cost: cheapest(adjacencies, all[i]) },
    )
}

/// The announcement that a node makes of its own links.
pub open spec fn own_lsa(p: PlaneView) -> LsaView {
    LsaView {
        origin: p.me,
        epoch: p.epoch,
        seq: p.my_seq,
        ttl_sec: DEFAULT_LSA_TTL_SEC,
        adjacencies: advertised(p.adjacencies),
    }
}

/// The lifetime and the number of edges are within their bounds.
pub open spec fn is_acceptable(lsa: LsaView) -> bool {
    1 <= lsa.ttl_sec <= MAX_LSA_TTL_SEC && lsa.adjacencies.len() <= MAX_LSA_ADJACENCIES
}

/// The database has an entry of the origin, or room for one.
pub open spec fn fits(lsdb: Map<NodeId, EntryView>, origin: NodeId) -> bool {
    lsdb.contains_key(origin) || lsdb.dom().len() < MAX_LSDB_ENTRIES
}

/// The announcement is of an origin that is not known, or newer than what is
/// known of it.
pub open spec fn is_news(lsdb: Map<NodeId, EntryView>, lsa: LsaView) -> bool {
    lsdb.contains_key(lsa.origin) ==> is_after(lsa.version(), lsdb[lsa.origin].version)
}

/// The lifetime in milliseconds.
pub open spec fn ttl_ms(lsa: LsaView) -> u64 {
    (lsa.ttl_sec * 1_000) as u64
}

/// The state with an announcement in its database.
pub open spec fn installed(p: PlaneView, now: MonoTime, message: MessageView) -> PlaneView {
    PlaneView {
        lsdb: p.lsdb.insert(
            message.lsa.origin,
            EntryView {
                version: message.lsa.version(),
                active: Some(
                    ActiveView {
                        message,
                        received_at: now,
                        expires_at: now.later(ttl_ms(message.lsa)),
                    },
                ),
            },
        ),
        ..p
    }
}

/// Asks to be told when the announcement expires.
pub open spec fn expiry(now: MonoTime, lsa: LsaView) -> ActionView {
    ActionView::SetTimer {
        timer: ControlTimer::LsaExpire { origin: lsa.origin, epoch: lsa.epoch, seq: lsa.seq },
        at: now.later(ttl_ms(lsa)),
    }
}

/// Asks to be told when the announcement is to be made anew: after a fifth of
/// its lifetime.
pub open spec fn refresh(now: MonoTime, lsa: LsaView) -> ActionView {
    ActionView::SetTimer {
        timer: ControlTimer::LsaRefresh { epoch: lsa.epoch, seq: lsa.seq },
        at: now.later((ttl_ms(lsa) / 5) as u64),
    }
}

/// Asks to be told when the next digest is to be sent on the link.
pub open spec fn next_digest(now: MonoTime, link: LinkId) -> ActionView {
    ActionView::SetTimer { timer: ControlTimer::Digest(link), at: now.later(DIGEST_INTERVAL_MS) }
}

/// Sends an announcement.
pub open spec fn send_lsa(link: LinkId, message: MessageView) -> ActionView {
    ActionView::Send { link, frame: FrameView::Lsa(message) }
}

/// The links that an announcement is flooded to.
pub open spec fn targets(
    adjacencies: Map<LinkId, LocalAdjacency>,
    except: Option<LinkId>,
) -> Set<LinkId> {
    match except {
        Some(link) => adjacencies.dom().remove(link),
        None => adjacencies.dom(),
    }
}

/// Sends an announcement on every local link but one, by ascending link.
pub open spec fn flood(
    adjacencies: Map<LinkId, LocalAdjacency>,
    message: MessageView,
    except: Option<LinkId>,
) -> Seq<ActionView> {
    let links = order::ascending::<LinkId>(targets(adjacencies, except));
    Seq::new(links.len(), |i: int| send_lsa(links[i], message))
}

/// Sends the active announcement of each of the origins.
pub open spec fn send_each(
    link: LinkId,
    lsdb: Map<NodeId, EntryView>,
    origins: Seq<NodeId>,
) -> Seq<ActionView> {
    Seq::new(origins.len(), |i: int| send_lsa(link, message_of(lsdb, origins[i])))
}

/// The version known of each origin, by ascending origin.
pub open spec fn digest(lsdb: Map<NodeId, EntryView>) -> Seq<DigestEntry> {
    let origins = order::ascending::<NodeId>(lsdb.dom());
    Seq::new(
        origins.len(),
        |i: int|
            DigestEntry {
                origin: origins[i],
                epoch: lsdb[origins[i]].version.0,
                seq: lsdb[origins[i]].version.1,
            },
    )
}

/// Sends the digest of the database.
pub open spec fn send_digest(link: LinkId, lsdb: Map<NodeId, EntryView>) -> ActionView {
    ActionView::Send { link, frame: FrameView::Digest(digest(lsdb)) }
}

/// The database changed last long enough ago.
pub open spec fn was_quiet(p: PlaneView, now: MonoTime) -> bool {
    p.last_lsdb_change_at matches Some(last) && now.millis() - last.millis() >= SPF_QUIET_RESET_MS
}

/// A change of the database asks for a computation of routes, rather than
/// joining one that is due.
pub open spec fn starts_hold(p: PlaneView, now: MonoTime) -> bool {
    p.pending_spf is None || was_quiet(p, now)
}

/// The state after a change of the database.
///
/// After a quiet time the hold starts again from its first value. A
/// computation that is due takes the change in, unless the time was quiet.
pub open spec fn marked(p: PlaneView, now: MonoTime) -> PlaneView {
    let hold = if was_quiet(p, now) {
        SPF_INITIAL_HOLD_MS
    } else {
        p.spf_hold_ms
    };
    if starts_hold(p, now) {
        let generation = (p.spf_generation + 1) as u64;
        PlaneView {
            last_lsdb_change_at: Some(now),
            spf_hold_ms: hold,
            spf_generation: generation,
            pending_spf: Some(PendingSpf { generation, at: now.later(hold) }),
            ..p
        }
    } else {
        PlaneView { last_lsdb_change_at: Some(now), spf_hold_ms: hold, ..p }
    }
}

/// Asks to be told when routes are to be computed anew, if that is not yet
/// due.
pub open spec fn hold_timer(p: PlaneView, now: MonoTime) -> Seq<ActionView> {
    if starts_hold(p, now) {
        let pending = marked(p, now).pending_spf->0;
        seq![
            ActionView::SetTimer {
                timer: ControlTimer::SpfHold { generation: pending.generation },
                at: pending.at,
            },
        ]
    } else {
        Seq::empty()
    }
}

/// The state with the next sequence number.
pub open spec fn numbered(p: PlaneView) -> PlaneView {
    PlaneView { my_seq: (p.my_seq + 1) as u64, ..p }
}

/// Takes the signed form of the own announcement in and floods it.
pub open spec fn adopt(p: PlaneView, now: MonoTime, signed: MessageView) -> (
    PlaneView,
    Seq<ActionView>,
) {
    let next = installed(p, now, signed);
    (
        marked(next, now),
        seq![ActionView::PersistSeq(p.my_seq)] + flood(p.adjacencies, signed, None) + seq![
            expiry(now, signed.lsa),
            refresh(now, signed.lsa),
        ] + hold_timer(next, now),
    )
}

/// Answers an announcement that is older than the active one with that one.
pub open spec fn correct(
    lsdb: Map<NodeId, EntryView>,
    link: LinkId,
    lsa: LsaView,
) -> Seq<ActionView> {
    if is_active(lsdb, lsa.origin) && is_after(lsdb[lsa.origin].version, lsa.version()) {
        seq![send_lsa(link, message_of(lsdb, lsa.origin))]
    } else {
        Seq::empty()
    }
}

/// The announcement is looked at: it came over a local link and is within its
/// bounds.
pub open spec fn is_considered(p: PlaneView, link: LinkId, message: MessageView) -> bool {
    p.adjacencies.contains_key(link) && is_acceptable(message.lsa)
}

/// An accepted announcement enters the database: it is another node's, it is
/// news, and there is room.
pub open spec fn is_learned(p: PlaneView, message: MessageView) -> bool {
    &&& message.lsa.origin != p.me
    &&& is_news(p.lsdb, message.lsa)
    &&& fits(p.lsdb, message.lsa.origin)
}

/// Takes in an announcement that a peer sent.
pub open spec fn receive_lsa(
    p: PlaneView,
    now: MonoTime,
    link: LinkId,
    message: MessageView,
    accepted: bool,
) -> (PlaneView, Seq<ActionView>) {
    if !is_considered(p, link, message) || !accepted {
        (p, Seq::empty())
    } else if message.lsa.origin == p.me || !is_news(p.lsdb, message.lsa) {
        (p, correct(p.lsdb, link, message.lsa))
    } else if !fits(p.lsdb, message.lsa.origin) {
        (p, Seq::empty())
    } else {
        let next = installed(p, now, message);
        (
            marked(next, now),
            flood(p.adjacencies, message, Some(link)) + seq![expiry(now, message.lsa)] + hold_timer(
                next,
                now,
            ),
        )
    }
}

/// A digest has an entry of the origin.
pub open spec fn tells_of(entries: Seq<DigestEntry>, i: int, origin: NodeId) -> bool {
    0 <= i < entries.len() && entries[i].origin == origin
}

/// The origins that a digest tells of.
pub open spec fn origins_of(entries: Seq<DigestEntry>) -> Set<NodeId> {
    Set::new(|origin: NodeId| exists|i: int| tells_of(entries, i, origin))
}

/// The version is one that the digest gives of the origin, and it gives none
/// that is newer.
pub open spec fn is_newest(entries: Seq<DigestEntry>, origin: NodeId, version: (u32, u64)) -> bool {
    &&& exists|i: int| #[trigger]
        tells_of(entries, i, origin) && entries[i].spec_version() == version
    &&& forall|i: int| #[trigger]
        tells_of(entries, i, origin) ==> !is_after(entries[i].spec_version(), version)
}

/// The newest version that the digest gives of the origin.
pub open spec fn newest(entries: Seq<DigestEntry>, origin: NodeId) -> (u32, u64) {
    choose|version: (u32, u64)| is_newest(entries, origin, version)
}

/// The origins of which the sender of a digest knows more.
pub open spec fn wanted(p: PlaneView, entries: Seq<DigestEntry>) -> Set<NodeId> {
    Set::new(
        |origin: NodeId|
            {
                &&& origin != p.me
                &&& origins_of(entries).contains(origin)
                &&& p.lsdb.contains_key(origin) ==> is_after(
                    newest(entries, origin),
                    p.lsdb[origin].version,
                )
            },
    )
}

/// The origins of which the sender of a digest knows less.
pub open spec fn owed(p: PlaneView, entries: Seq<DigestEntry>) -> Set<NodeId> {
    Set::new(
        |origin: NodeId|
            {
                &&& is_active(p.lsdb, origin)
                &&& origins_of(entries).contains(origin) ==> is_after(
                    p.lsdb[origin].version,
                    newest(entries, origin),
                )
            },
    )
}

/// Asks a peer for announcements.
pub open spec fn request(link: LinkId, origins: Set<NodeId>) -> Seq<ActionView> {
    if origins == Set::<NodeId>::empty() {
        Seq::empty()
    } else {
        seq![
            ActionView::Send {
                link,
                frame: FrameView::DigestReq(order::ascending::<NodeId>(origins)),
            },
        ]
    }
}

/// Answers a digest: what the peer lacks is sent, what it has is requested.
pub open spec fn receive_digest(
    p: PlaneView,
    link: LinkId,
    entries: Seq<DigestEntry>,
) -> Seq<ActionView> {
    if !p.adjacencies.contains_key(link) || entries.len() > MAX_DIGEST_ENTRIES {
        Seq::empty()
    } else {
        send_each(link, p.lsdb, order::ascending::<NodeId>(owed(p, entries))) + request(
            link,
            wanted(p, entries),
        )
    }
}

/// The requested origins that have an active announcement.
pub open spec fn available(lsdb: Map<NodeId, EntryView>, origins: Seq<NodeId>) -> Set<NodeId> {
    Set::new(|origin: NodeId| origins.contains(origin) && is_active(lsdb, origin))
}

/// Answers a request, once for each origin.
pub open spec fn receive_digest_req(
    p: PlaneView,
    link: LinkId,
    origins: Seq<NodeId>,
) -> Seq<ActionView> {
    if !p.adjacencies.contains_key(link) || origins.len() > MAX_DIGEST_REQ_ORIGINS {
        Seq::empty()
    } else {
        send_each(link, p.lsdb, order::ascending::<NodeId>(available(p.lsdb, origins)))
    }
}

/// Sends a digest and asks for the next one.
pub open spec fn digest_due(p: PlaneView, now: MonoTime, link: LinkId) -> Seq<ActionView> {
    if p.adjacencies.contains_key(link) {
        seq![send_digest(link, p.lsdb), next_digest(now, link)]
    } else {
        Seq::empty()
    }
}

/// The own announcement with this version is active.
pub open spec fn is_own_current(p: PlaneView, epoch: u32, seq: u64) -> bool {
    is_active(p.lsdb, p.me) && p.lsdb[p.me].version == (epoch, seq)
}

/// The announcement with this version is active.
pub open spec fn is_current(p: PlaneView, origin: NodeId, epoch: u32, seq: u64) -> bool {
    is_active(p.lsdb, origin) && p.lsdb[origin].version == (epoch, seq)
}

/// The state with a tombstone in place of the announcement.
pub open spec fn buried(p: PlaneView, origin: NodeId) -> PlaneView {
    PlaneView {
        lsdb: p.lsdb.insert(
            origin,
            EntryView { version: p.lsdb[origin].version, active: None },
        ),
        ..p
    }
}

/// Lets an announcement expire when its time has come.
pub open spec fn expire(
    p: PlaneView,
    now: MonoTime,
    origin: NodeId,
    epoch: u32,
    seq: u64,
) -> (PlaneView, Seq<ActionView>) {
    if !is_current(p, origin, epoch, seq) {
        (p, Seq::empty())
    } else {
        let expires_at = p.lsdb[origin].active->0.expires_at;
        if now.millis() < expires_at.millis() {
            (
                p,
                seq![
                    ActionView::SetTimer {
                        timer: ControlTimer::LsaExpire { origin, epoch, seq },
                        at: expires_at,
                    },
                ],
            )
        } else {
            let next = buried(p, origin);
            (marked(next, now), hold_timer(next, now))
        }
    }
}

/// The active announcement of the edge's target has an edge back to the
/// origin.
pub open spec fn is_mutual(lsdb: Map<NodeId, EntryView>, origin: NodeId, edge: Adjacency) -> bool {
    is_active(lsdb, edge.peer) && exists|i: int|
        0 <= i < message_of(lsdb, edge.peer).lsa.adjacencies.len() && (
        #[trigger] message_of(lsdb, edge.peer).lsa.adjacencies[i]).peer == origin
}

/// The edges that both ends announce, by the node that they leave.
pub open spec fn graph(lsdb: Map<NodeId, EntryView>) -> Graph {
    Map::new(
        |origin: NodeId| is_active(lsdb, origin),
        |origin: NodeId|
            message_of(lsdb, origin).lsa.adjacencies.filter(
                |edge: Adjacency| is_mutual(lsdb, origin, edge),
            ),
    )
}

/// The best paths over the edges that both ends announce.
pub open spec fn best_paths(p: PlaneView) -> Map<NodeId, Label> {
    choose|labels: Map<NodeId, Label>| spf::is_solution(graph(p.lsdb), p.me, labels)
}

/// The link leads to the peer, and no other such link comes before it by cost
/// and then by number.
pub open spec fn is_best_link(
    adjacencies: Map<LinkId, LocalAdjacency>,
    peer: NodeId,
    link: LinkId,
) -> bool {
    &&& leads_to(adjacencies, link, peer)
    &&& forall|other: LinkId| #[trigger]
        leads_to(adjacencies, other, peer) ==> {
            let a = adjacencies[link].cost.value();
            let b = adjacencies[other].cost.value();
            a < b || a == b && link.value() <= other.value()
        }
}

/// The best link to a peer.
pub open spec fn best_link(adjacencies: Map<LinkId, LocalAdjacency>, peer: NodeId) -> LinkId {
    choose|link: LinkId| is_best_link(adjacencies, peer, link)
}

/// The routes to all other nodes whose best path starts over a local link.
pub open spec fn best_routes(p: PlaneView) -> Map<NodeId, Route> {
    let labels = best_paths(p);
    Map::new(
        |v: NodeId|
            labels.contains_key(v) && v != p.me && peers(p.adjacencies).contains(labels[v].first),
        |v: NodeId|
            Route {
                next_hop: best_link(p.adjacencies, labels[v].first),
                cost: labels[v].cost,
                hops: labels[v].hops,
            },
    )
}

/// The hold doubles up to its bound.
pub open spec fn doubled(hold: u64) -> u64 {
    if 2 * hold > SPF_MAX_HOLD_MS {
        SPF_MAX_HOLD_MS
    } else {
        (2 * hold) as u64
    }
}

/// Computes routes when their time has come, and publishes them if they
/// changed.
pub open spec fn spf_due(p: PlaneView, now: MonoTime, generation: u64) -> (
    PlaneView,
    Seq<ActionView>,
) {
    match p.pending_spf {
        None => (p, Seq::empty()),
        Some(pending) => if pending.generation != generation {
            (p, Seq::empty())
        } else if now.millis() < pending.at.millis() {
            (
                p,
                seq![
                    ActionView::SetTimer {
                        timer: ControlTimer::SpfHold { generation },
                        at: pending.at,
                    },
                ],
            )
        } else {
            let next = PlaneView { pending_spf: None, spf_hold_ms: doubled(p.spf_hold_ms), ..p };
            let routes = best_routes(p);
            if routes == p.routes.routes {
                (next, Seq::empty())
            } else {
                let table = TableView { version: (p.routes.version + 1) as u64, routes };
                (PlaneView { routes: table, ..next }, seq![ActionView::PublishRoutes(table)])
            }
        },
    }
}

/// The state in which the own announcement is made, where the event asks for
/// one.
pub open spec fn origination(p: PlaneView, event: EventView) -> Option<PlaneView> {
    match event {
        EventView::LinkUp { link, peer, cost } => Some(
            numbered(
                PlaneView {
                    adjacencies: p.adjacencies.insert(link, LocalAdjacency { peer, cost }),
                    ..p
                },
            ),
        ),
        EventView::LinkDown { link } => if p.adjacencies.contains_key(link) {
            Some(numbered(PlaneView { adjacencies: p.adjacencies.remove(link), ..p }))
        } else {
            None
        },
        EventView::Timer(ControlTimer::LsaRefresh { epoch, seq }) => if is_own_current(
            p,
            epoch,
            seq,
        ) {
            Some(numbered(p))
        } else {
            None
        },
        _ => None,
    }
}

/// The announcement that a verifier is asked about, where the event brings
/// one.
pub open spec fn judgement(p: PlaneView, event: EventView) -> Option<MessageView> {
    match event {
        EventView::Frame { link, frame: FrameView::Lsa(message) } => if is_considered(
            p,
            link,
            message,
        ) {
            Some(message)
        } else {
            None
        },
        _ => None,
    }
}

/// How an event changes the state, and what it asks for.
///
/// `signed` is what the signer made of the own announcement, where the event
/// asks for one. `accepted` is what the verifier said of the announcement that
/// the event brings.
pub open spec fn transition(
    p: PlaneView,
    now: MonoTime,
    event: EventView,
    signed: MessageView,
    accepted: bool,
) -> (PlaneView, Seq<ActionView>) {
    match origination(p, event) {
        Some(ready) => {
            let (next, actions) = adopt(ready, now, signed);
            match event {
                EventView::LinkUp { link, .. } => (
                    next,
                    actions + seq![send_digest(link, next.lsdb), next_digest(now, link)],
                ),
                _ => (next, actions),
            }
        },
        None => match event {
            EventView::Frame { link, frame } => match frame {
                FrameView::Lsa(message) => receive_lsa(p, now, link, message, accepted),
                FrameView::Digest(entries) => (p, receive_digest(p, link, entries)),
                FrameView::DigestReq(origins) => (p, receive_digest_req(p, link, origins)),
            },
            EventView::Timer(timer) => match timer {
                ControlTimer::Digest(link) => (p, digest_due(p, now, link)),
                ControlTimer::SpfHold { generation } => spf_due(p, now, generation),
                ControlTimer::LsaRefresh { .. } => (p, Seq::empty()),
                ControlTimer::LsaExpire { origin, epoch, seq } => expire(
                    p,
                    now,
                    origin,
                    epoch,
                    seq,
                ),
            },
            _ => (p, Seq::empty()),
        },
    }
}

/// A change of the database finds a number for the computation it asks for.
pub open spec fn can_mark(p: PlaneView, now: MonoTime) -> bool {
    starts_hold(p, now) ==> p.spf_generation < u64::MAX
}

/// The computation of this generation is due, and its time has come.
pub open spec fn spf_runs(p: PlaneView, now: MonoTime, generation: u64) -> bool {
    p.pending_spf matches Some(pending) && pending.generation == generation && now.millis()
        >= pending.at.millis()
}

/// The announcement of this version is in force, and its time is over.
pub open spec fn is_over(
    p: PlaneView,
    now: MonoTime,
    origin: NodeId,
    epoch: u32,
    seq: u64,
) -> bool {
    is_current(p, origin, epoch, seq) && now.millis()
        >= p.lsdb[origin].active->0.expires_at.millis()
}

/// No counter that the event advances is exhausted.
pub open spec fn has_numbers(p: PlaneView, now: MonoTime, event: EventView, accepted: bool) -> bool {
    match origination(p, event) {
        Some(_) => p.my_seq < u64::MAX && can_mark(p, now),
        None => match event {
            EventView::Frame { link, frame: FrameView::Lsa(message) } => is_considered(
                p,
                link,
                message,
            ) && accepted && is_learned(p, message) ==> can_mark(p, now),
            EventView::Timer(ControlTimer::SpfHold { generation }) => spf_runs(p, now, generation)
                && best_routes(p) != p.routes.routes ==> p.routes.version < u64::MAX,
            EventView::Timer(ControlTimer::LsaExpire { origin, epoch, seq }) => is_over(
                p,
                now,
                origin,
                epoch,
                seq,
            ) ==> can_mark(p, now),
            _ => true,
        },
    }
}

} // verus!
