//! What holds of every run of a control plane.

use vstd::prelude::*;
use crate::control::auth;
use crate::control::cost::Adjacency;
use crate::control::message;
use crate::control::message::{ActionView, ControlAction, ControlEvent, ControlTimer, DigestEntry};
use crate::control::message::{EventView, FrameView, LsaView, MessageView};
use crate::control::model;
use crate::control::model::{EntryView, LocalAdjacency, PlaneView};
use crate::control::model::{MAX_DIGEST_ENTRIES, MAX_LSDB_ENTRIES};
use crate::control::paths;
use crate::control::plane::ControlPlane;
use crate::control::spf;
use crate::order;
use crate::order::Key;
use crate::types::{Component, LinkId, MonoTime, NodeId};

verus! {

/// Every reachable state is valid: an event leads from a valid state to a
/// valid one, so that the database stays bounded and the hold stays within its
/// bounds.
pub proof fn validity_is_kept(
    p: PlaneView,
    now: MonoTime,
    event: EventView,
    signed: MessageView,
    accepted: bool,
)
    requires
        model::is_valid(p),
        model::has_numbers(p, now, event, accepted),
        model::origination(p, event) is Some ==> model::fits(p.lsdb, signed.lsa.origin),
    ensures
        model::is_valid(model::transition(p, now, event, signed, accepted).0),
{
    let next = model::transition(p, now, event, signed, accepted).0;
    match model::origination(p, event) {
        Some(ready) => {
            assert(next.lsdb == p.lsdb.insert(signed.lsa.origin, next.lsdb[signed.lsa.origin]));
            assert(next.lsdb.dom() =~= p.lsdb.dom().insert(signed.lsa.origin));
        },
        None => match event {
            EventView::Frame { link, frame: FrameView::Lsa(message) } => {
                assert(next.lsdb == p.lsdb || next.lsdb.dom() =~= p.lsdb.dom().insert(
                    message.lsa.origin,
                ));
            },
            EventView::Timer(ControlTimer::LsaExpire { origin, epoch, seq }) => {
                assert(next.lsdb.dom() =~= p.lsdb.dom());
            },
            _ => {},
        },
    }
}

/// What is known of the own origin has the own epoch and a sequence number
/// that has been used.
pub open spec fn knows_itself(p: PlaneView) -> bool {
    p.lsdb.contains_key(p.me) ==> p.lsdb[p.me].version.0 == p.epoch && p.lsdb[p.me].version.1
        <= p.my_seq
}

/// Where signing keeps the announcement as it is, a node keeps knowing itself.
pub proof fn self_knowledge_is_kept(
    p: PlaneView,
    now: MonoTime,
    event: EventView,
    signed: MessageView,
    accepted: bool,
)
    requires
        knows_itself(p),
        model::has_numbers(p, now, event, accepted),
        model::origination(p, event) matches Some(ready) ==> signed.lsa == model::own_lsa(ready),
    ensures
        knows_itself(model::transition(p, now, event, signed, accepted).0),
{
}

/// Of the own origin nothing is in force but the announcement of the links that
/// are up, with the number that was used last.
pub open spec fn announces_its_links(p: PlaneView) -> bool {
    model::is_active(p.lsdb, p.me) ==> model::message_of(p.lsdb, p.me).lsa == model::own_lsa(p)
}

/// Where signing keeps the announcement as it is, the own announcement in force
/// always lists exactly the links that are up.
pub proof fn own_announcement_is_kept_current(
    p: PlaneView,
    now: MonoTime,
    event: EventView,
    signed: MessageView,
    accepted: bool,
)
    requires
        announces_its_links(p),
        model::origination(p, event) matches Some(ready) ==> signed.lsa == model::own_lsa(ready),
    ensures
        announces_its_links(model::transition(p, now, event, signed, accepted).0),
{
}

/// The own announcement in force of an unsecured control plane always lists
/// exactly the links that are up.
pub proof fn unsecured_announcement_is_kept_current(p: PlaneView, now: MonoTime, event: EventView)
    requires
        announces_its_links(p),
    ensures
        announces_its_links(unsecured_transition(p, now, event).0),
{
    let signed = auth::unsecured(model::own_lsa(model::origination(p, event)->0));
    own_announcement_is_kept_current(p, now, event, signed, true);
}

/// An announcement has one edge for each peer that a link leads to, by
/// ascending peer, at the least cost of a link to it, and no other edge.
pub proof fn announced_edges_are_the_cheapest(adjacencies: Map<LinkId, LocalAdjacency>)
    requires
        adjacencies.dom().finite(),
    ensures
        ({
            let edges = model::advertised(adjacencies);
            &&& forall|i: int, j: int|
                0 <= i < j < edges.len() ==> NodeId::before(
                    (#[trigger] edges[i]).peer,
                    (#[trigger] edges[j]).peer,
                )
            &&& forall|i: int|
                0 <= i < edges.len() ==> model::is_cheapest(
                    adjacencies,
                    (#[trigger] edges[i]).peer,
                    edges[i].cost,
                )
            &&& forall|link: LinkId| #[trigger]
                adjacencies.contains_key(link) ==> exists|i: int|
                    0 <= i < edges.len() && (#[trigger] edges[i]).peer == adjacencies[link].peer
        }),
{
    let edges = model::advertised(adjacencies);
    let peers = model::peers(adjacencies);
    let far_end = |link: LinkId| adjacencies[link].peer;
    adjacencies.dom().lemma_map_finite(far_end);
    assert forall|peer: NodeId| peers.contains(peer) implies adjacencies.dom().map(
        far_end,
    ).contains(peer) by {
        let link = choose|link: LinkId| model::leads_to(adjacencies, link, peer);
        assert(adjacencies.dom().contains(link) && far_end(link) == peer);
    }
    vstd::set_lib::lemma_set_subset_finite(adjacencies.dom().map(far_end), peers);
    let listed = order::finite_sets_are_listed::<NodeId>(peers);
    assert forall|i: int| 0 <= i < edges.len() implies model::is_cheapest(
        adjacencies,
        (#[trigger] edges[i]).peer,
        edges[i].cost,
    ) by {
        let peer = listed[i];
        assert(listed.contains(peer));
        assert(peers.contains(peer));
        let link = choose|link: LinkId| model::leads_to(adjacencies, link, peer);
        assert(adjacencies.dom().contains(link));
        let found = some_link_is_best(adjacencies, adjacencies.dom(), peer);
        let best = found->0;
        assert(model::leads_to(adjacencies, best, peer));
        assert(model::is_cheapest(adjacencies, peer, adjacencies[best].cost));
    }
    assert forall|link: LinkId| #[trigger] adjacencies.contains_key(link) implies exists|i: int|
        0 <= i < edges.len() && (#[trigger] edges[i]).peer == adjacencies[link].peer by {
        let peer = adjacencies[link].peer;
        assert(model::leads_to(adjacencies, link, peer));
        assert(listed.contains(peer));
        let k = choose|k: int| 0 <= k < listed.len() && listed[k] == peer;
        assert(edges[k].peer == peer);
    }
}

/// Every announcement of another node that is in force has a lifetime and a
/// number of edges within their bounds.
pub open spec fn holds_acceptable(p: PlaneView) -> bool {
    forall|origin: NodeId| #[trigger]
        model::is_active(p.lsdb, origin) && origin != p.me ==> model::is_acceptable(
            model::message_of(p.lsdb, origin).lsa,
        )
}

/// Where signing keeps the origin, announcements beyond the bounds never come
/// into force.
pub proof fn bounds_are_kept(
    p: PlaneView,
    now: MonoTime,
    event: EventView,
    signed: MessageView,
    accepted: bool,
)
    requires
        holds_acceptable(p),
        model::origination(p, event) is Some ==> signed.lsa.origin == p.me,
    ensures
        holds_acceptable(model::transition(p, now, event, signed, accepted).0),
{
    let next = model::transition(p, now, event, signed, accepted).0;
    assert forall|origin: NodeId| #[trigger]
        model::is_active(next.lsdb, origin) && origin != next.me implies model::is_acceptable(
        model::message_of(next.lsdb, origin).lsa,
    ) by {
        assert(model::is_active(p.lsdb, origin) ==> model::is_acceptable(
            model::message_of(p.lsdb, origin).lsa,
        ));
    }
}

/// Origins are never forgotten, and the version known of an origin never goes
/// back: whatever happens, it stays or becomes newer.
pub proof fn versions_only_advance(
    p: PlaneView,
    now: MonoTime,
    event: EventView,
    signed: MessageView,
    accepted: bool,
    origin: NodeId,
)
    requires
        knows_itself(p),
        model::has_numbers(p, now, event, accepted),
        model::origination(p, event) matches Some(ready) ==> signed.lsa == model::own_lsa(ready),
        p.lsdb.contains_key(origin),
    ensures
        ({
            let next = model::transition(p, now, event, signed, accepted).0;
            &&& next.lsdb.contains_key(origin)
            &&& next.lsdb[origin].version == p.lsdb[origin].version || model::is_after(
                next.lsdb[origin].version,
                p.lsdb[origin].version,
            )
        }),
{
}

/// An expired announcement comes into force again only by a newer version.
pub proof fn tombstones_yield_only_to_newer(
    p: PlaneView,
    now: MonoTime,
    event: EventView,
    signed: MessageView,
    accepted: bool,
    origin: NodeId,
)
    requires
        knows_itself(p),
        model::has_numbers(p, now, event, accepted),
        model::origination(p, event) matches Some(ready) ==> signed.lsa == model::own_lsa(ready),
        p.lsdb.contains_key(origin),
        p.lsdb[origin].active is None,
    ensures
        ({
            let next = model::transition(p, now, event, signed, accepted).0;
            next.lsdb[origin].active is Some ==> model::is_after(
                next.lsdb[origin].version,
                p.lsdb[origin].version,
            )
        }),
{
}

/// A frame that the verifier does not accept changes nothing and is not
/// answered.
pub proof fn refused_announcements_have_no_effect(
    p: PlaneView,
    now: MonoTime,
    link: LinkId,
    message: MessageView,
    signed: MessageView,
)
    ensures
        ({
            let event = EventView::Frame { link, frame: FrameView::Lsa(message) };
            model::transition(p, now, event, signed, false) == (p, Seq::<ActionView>::empty())
        }),
{
}

/// Frames of a link that is not up change nothing and are not answered.
pub proof fn unknown_links_have_no_effect(
    p: PlaneView,
    now: MonoTime,
    link: LinkId,
    frame: FrameView,
    signed: MessageView,
    accepted: bool,
)
    requires
        !p.adjacencies.contains_key(link),
    ensures
        model::transition(p, now, EventView::Frame { link, frame }, signed, accepted) == (
            p,
            Seq::<ActionView>::empty(),
        ),
{
}

/// The links of a plane have an ascending listing.
proof fn links_are_listed(links: Set<LinkId>) -> (listing: Seq<LinkId>)
    requires
        links.finite(),
    ensures
        order::lists::<LinkId>(listing, links),
        order::ascending::<LinkId>(links) == listing,
{
    order::finite_sets_are_listed::<LinkId>(links)
}

/// A newly learned announcement goes to every local link but the one it came
/// over, and to no other.
pub proof fn news_is_flooded_but_not_echoed(
    p: PlaneView,
    now: MonoTime,
    incoming: LinkId,
    message: MessageView,
    signed: MessageView,
    link: LinkId,
)
    requires
        p.adjacencies.dom().finite(),
        model::is_considered(p, incoming, message),
        model::is_learned(p, message),
    ensures
        ({
            let event = EventView::Frame { link: incoming, frame: FrameView::Lsa(message) };
            let actions = model::transition(p, now, event, signed, true).1;
            actions.contains(model::send_lsa(link, message)) <==> p.adjacencies.contains_key(link)
                && link != incoming
        }),
{
    let event = EventView::Frame { link: incoming, frame: FrameView::Lsa(message) };
    let actions = model::transition(p, now, event, signed, true).1;
    let to = model::targets(p.adjacencies, Some(incoming));
    let links = links_are_listed(to);
    let sent = model::flood(p.adjacencies, message, Some(incoming));
    let rest = seq![model::expiry(now, message.lsa)] + model::hold_timer(
        model::installed(p, now, message),
        now,
    );
    assert(actions =~= sent + rest);
    assert(links.contains(link) <==> to.contains(link));
    if to.contains(link) {
        let k = choose|k: int| 0 <= k < links.len() && links[k] == link;
        assert(actions[k] == model::send_lsa(link, message));
    }
    if actions.contains(model::send_lsa(link, message)) {
        let k = choose|k: int|
            0 <= k < actions.len() && actions[k] == model::send_lsa(link, message);
        if k < sent.len() {
            assert(sent[k] == model::send_lsa(links[k], message));
            assert(links.contains(links[k]));
        } else {
            assert(actions[k] == rest[k - sent.len()]);
        }
    }
}

/// An own announcement takes the next sequence number, and asks for that
/// number to be stored before it asks for anything else.
pub proof fn sequence_is_stored_first(
    p: PlaneView,
    now: MonoTime,
    event: EventView,
    signed: MessageView,
    accepted: bool,
)
    requires
        model::origination(p, event) is Some,
        p.my_seq < u64::MAX,
    ensures
        ({
            let (next, actions) = model::transition(p, now, event, signed, accepted);
            &&& next.my_seq == p.my_seq + 1
            &&& actions.len() > 0
            &&& actions[0] == ActionView::PersistSeq((p.my_seq + 1) as u64)
        }),
{
    let ready = model::origination(p, event)->0;
    let first = seq![ActionView::PersistSeq(ready.my_seq)];
    let rest = model::flood(ready.adjacencies, signed, None);
    assert((first + rest)[0] == first[0]);
    let (_, actions) = model::adopt(ready, now, signed);
    assert(actions[0] == first[0]);
}

/// Whatever number is to be stored is the one that was used last.
pub proof fn stored_numbers_are_current(
    p: PlaneView,
    now: MonoTime,
    event: EventView,
    signed: MessageView,
    accepted: bool,
)
    ensures
        ({
            let (next, actions) = model::transition(p, now, event, signed, accepted);
            forall|i: int|
                0 <= i < actions.len() ==> ((#[trigger] actions[i]) matches
                    ActionView::PersistSeq(seq) ==> seq == next.my_seq)
        }),
{
}

/// What is sent of each of several origins is what is in force of it.
proof fn each_is_in_force(p: PlaneView, link: LinkId, origins: Set<NodeId>, i: int)
    requires
        model::is_valid(p),
        knows_itself(p),
        forall|origin: NodeId| #[trigger]
            origins.contains(origin) ==> model::is_active(p.lsdb, origin),
    ensures
        ({
            let sent = model::send_each(link, p.lsdb, order::ascending::<NodeId>(origins));
            0 <= i < sent.len() ==> (sent[i] matches ActionView::Send {
                frame: FrameView::Lsa(message),
                ..
            } && (message.lsa.origin == p.me ==> message.lsa.epoch == p.epoch && message.lsa.seq
                <= p.my_seq))
        }),
{
    assert(origins.subset_of(p.lsdb.dom()));
    vstd::set_lib::lemma_set_subset_finite(p.lsdb.dom(), origins);
    let listed = order::finite_sets_are_listed::<NodeId>(origins);
    if 0 <= i < listed.len() {
        assert(listed.contains(listed[i]));
        assert(origins.contains(listed[i]));
        assert(model::is_entry_of(listed[i], p.lsdb[listed[i]]));
    }
}

/// An announcement of its own that a node sends has the node's epoch and a
/// number that the node has used.
pub proof fn sent_numbers_are_used(
    p: PlaneView,
    now: MonoTime,
    event: EventView,
    signed: MessageView,
    accepted: bool,
    i: int,
)
    requires
        model::is_valid(p),
        knows_itself(p),
        model::has_numbers(p, now, event, accepted),
        model::origination(p, event) matches Some(ready) ==> signed.lsa == model::own_lsa(ready),
        0 <= i < model::transition(p, now, event, signed, accepted).1.len(),
    ensures
        ({
            let (next, actions) = model::transition(p, now, event, signed, accepted);
            actions[i] matches ActionView::Send { frame: FrameView::Lsa(message), .. } ==> (
            message.lsa.origin == p.me ==> message.lsa.epoch == p.epoch && message.lsa.seq
                <= next.my_seq)
        }),
{
    let (next, actions) = model::transition(p, now, event, signed, accepted);
    match event {
        EventView::Frame { link, frame: FrameView::Digest(entries) } => {
            let owed = model::owed(p, entries);
            if actions.len() > 0 {
                each_is_in_force(p, link, owed, i);
            }
        },
        EventView::Frame { link, frame: FrameView::DigestReq(origins) } => {
            let known = model::available(p.lsdb, origins);
            if actions.len() > 0 {
                each_is_in_force(p, link, known, i);
            }
        },
        EventView::Frame { link, frame: FrameView::Lsa(message) } => {
            if model::is_active(p.lsdb, p.me) {
                assert(model::is_entry_of(p.me, p.lsdb[p.me]));
            }
        },
        _ => {},
    }
}

/// Nothing but an own announcement uses a sequence number.
pub proof fn sequence_is_used_only_for_own(
    p: PlaneView,
    now: MonoTime,
    event: EventView,
    signed: MessageView,
    accepted: bool,
)
    requires
        model::origination(p, event) is None,
    ensures
        model::transition(p, now, event, signed, accepted).0.my_seq == p.my_seq,
{
}

/// While a computation of routes is due and the time was not quiet, further
/// changes of the database neither ask for another one nor put it off.
pub proof fn changes_join_a_pending_computation(p: PlaneView, now: MonoTime)
    requires
        p.pending_spf is Some,
        !model::was_quiet(p, now),
    ensures
        model::hold_timer(p, now) == Seq::<ActionView>::empty(),
        model::marked(p, now).pending_spf == p.pending_spf,
        model::marked(p, now).spf_generation == p.spf_generation,
        model::marked(p, now).spf_hold_ms == p.spf_hold_ms,
{
}

/// A timer of another generation than the one that is due has no effect.
pub proof fn stale_hold_timers_have_no_effect(
    p: PlaneView,
    now: MonoTime,
    generation: u64,
    signed: MessageView,
    accepted: bool,
)
    requires
        p.pending_spf matches Some(pending) ==> pending.generation != generation,
    ensures
        model::transition(
            p,
            now,
            EventView::Timer(ControlTimer::SpfHold { generation }),
            signed,
            accepted,
        ) == (p, Seq::<ActionView>::empty()),
{
}

/// Timers of a version that was replaced or has expired have no effect.
pub proof fn timers_of_replaced_versions_have_no_effect(
    p: PlaneView,
    now: MonoTime,
    origin: NodeId,
    epoch: u32,
    seq: u64,
    signed: MessageView,
    accepted: bool,
)
    requires
        !model::is_current(p, origin, epoch, seq),
    ensures
        model::transition(
            p,
            now,
            EventView::Timer(ControlTimer::LsaExpire { origin, epoch, seq }),
            signed,
            accepted,
        ) == (p, Seq::<ActionView>::empty()),
        origin == p.me ==> model::transition(
            p,
            now,
            EventView::Timer(ControlTimer::LsaRefresh { epoch, seq }),
            signed,
            accepted,
        ) == (p, Seq::<ActionView>::empty()),
{
}

/// An edge counts only if its target announces one back, and then the one back
/// counts too: routes never use what one side alone claims.
pub proof fn edges_are_mutual(lsdb: Map<NodeId, EntryView>, u: NodeId, i: int)
    requires
        spf::has_edge(model::graph(lsdb), u, i),
    ensures
        ({
            let g = model::graph(lsdb);
            let v = g[u][i].peer;
            exists|j: int| #[trigger] spf::has_edge(g, v, j) && g[v][j].peer == u
        }),
{
    broadcast use vstd::seq_lib::group_filter_ensures;

    let g = model::graph(lsdb);
    let ours = |edge: Adjacency| model::is_mutual(lsdb, u, edge);
    let announced = model::message_of(lsdb, u).lsa.adjacencies;
    assert(g[u] == announced.filter(ours));
    assert(g[u].contains(g[u][i]));
    assert(ours(g[u][i]));
    announced.lemma_filter_contains_rev(ours, g[u][i]);
    let v = g[u][i].peer;
    let back = model::message_of(lsdb, v).lsa.adjacencies;
    let k = choose|k: int| 0 <= k < back.len() && (#[trigger] back[k]).peer == u;
    let theirs = |edge: Adjacency| model::is_mutual(lsdb, v, edge);
    let m = choose|m: int| 0 <= m < announced.len() && announced[m] == g[u][i];
    assert(announced[m].peer == v);
    assert(model::is_mutual(lsdb, v, back[k]));
    assert(theirs(back[k]));
    assert(back.contains(back[k]));
    assert(back.filter(theirs).contains(back[k]));
    let j = choose|j: int| 0 <= j < back.filter(theirs).len() && back.filter(theirs)[j] == back[k];
    assert(spf::has_edge(g, v, j));
}

/// Expired announcements take no part in routing: their origins have no edges
/// and no edge leads to them.
pub proof fn expired_origins_are_not_routed_over(
    lsdb: Map<NodeId, EntryView>,
    origin: NodeId,
    u: NodeId,
    i: int,
)
    requires
        !model::is_active(lsdb, origin),
        spf::has_edge(model::graph(lsdb), u, i),
    ensures
        u != origin,
        model::graph(lsdb)[u][i].peer != origin,
{
    edges_are_mutual(lsdb, u, i);
}

/// The graph of a valid state has best paths.
pub proof fn best_paths_exist(p: PlaneView)
    requires
        model::is_valid(p),
    ensures
        spf::is_solution(model::graph(p.lsdb), p.me, model::best_paths(p)),
{
    let g = model::graph(p.lsdb);
    assert forall|u: NodeId, i: int| #[trigger] spf::has_edge(g, u, i) implies g.contains_key(
        g[u][i].peer,
    ) by {
        edges_are_mutual(p.lsdb, u, i);
    }
    assert(g.dom().subset_of(p.lsdb.dom()));
    vstd::set_lib::lemma_len_subset(g.dom(), p.lsdb.dom());
    vstd::set_lib::lemma_set_subset_finite(p.lsdb.dom(), g.dom());
    let labels = spf::solution_exists(g, p.me);
}

/// Among finitely many links, those to a peer have a best one.
proof fn some_link_is_best(
    adjacencies: Map<LinkId, LocalAdjacency>,
    links: Set<LinkId>,
    peer: NodeId,
) -> (best: Option<LinkId>)
    requires
        links.finite(),
        links.subset_of(adjacencies.dom()),
    ensures
        match best {
            Some(b) => {
                &&& links.contains(b)
                &&& model::leads_to(adjacencies, b, peer)
                &&& forall|l: LinkId| #[trigger]
                    links.contains(l) && model::leads_to(adjacencies, l, peer) ==> {
                        let x = adjacencies[b].cost.value();
                        let y = adjacencies[l].cost.value();
                        x < y || x == y && b.value() <= l.value()
                    }
            },
            None => forall|l: LinkId| #[trigger]
                links.contains(l) ==> !model::leads_to(adjacencies, l, peer),
        },
    decreases links.len(),
{
    if links.len() == 0 {
        None
    } else {
        let l = links.choose();
        let rest = links.remove(l);
        let best = some_link_is_best(adjacencies, rest, peer);
        assert forall|k: LinkId| #[trigger] links.contains(k) implies k == l || rest.contains(k) by {}
        if !model::leads_to(adjacencies, l, peer) {
            best
        } else {
            match best {
                None => Some(l),
                Some(b) => {
                    let x = adjacencies[b].cost.value();
                    let y = adjacencies[l].cost.value();
                    if x < y || x == y && b.value() <= l.value() {
                        Some(b)
                    } else {
                        Some(l)
                    }
                },
            }
        }
    }
}

/// Every route leaves over a local link to the first node of the best path,
/// the cheapest one and among equals the one with the least number.
pub proof fn routes_leave_over_the_best_link(p: PlaneView, v: NodeId)
    requires
        p.adjacencies.dom().finite(),
        model::best_routes(p).contains_key(v),
    ensures
        model::is_best_link(
            p.adjacencies,
            model::best_paths(p)[v].first,
            model::best_routes(p)[v].next_hop,
        ),
{
    let peer = model::best_paths(p)[v].first;
    let best = some_link_is_best(p.adjacencies, p.adjacencies.dom(), peer);
    let link = choose|link: LinkId| model::leads_to(p.adjacencies, link, peer);
    assert(p.adjacencies.dom().contains(link));
    assert(model::is_best_link(p.adjacencies, peer, best->0));
}

/// No path over mutual edges is shorter than the route to its end.
pub proof fn routes_are_shortest(p: PlaneView, path: Seq<(NodeId, int)>, v: NodeId)
    requires
        model::is_valid(p),
        model::best_routes(p).contains_key(v),
        paths::is_path(model::graph(p.lsdb), p.me, path, v),
    ensures
        model::best_routes(p)[v].cost <= paths::path_cost(model::graph(p.lsdb), path),
{
    best_paths_exist(p);
    paths::no_path_is_shorter(model::graph(p.lsdb), p.me, model::best_paths(p), path, v);
}

/// Every route has a path over mutual edges to its destination, which has the
/// cost and, up to 255, the number of hops that the route says.
pub proof fn routes_lead_to_their_destination(p: PlaneView, v: NodeId) -> (path: Seq<
    (NodeId, int),
>)
    requires
        model::is_valid(p),
        model::best_routes(p).contains_key(v),
    ensures
        paths::is_path(model::graph(p.lsdb), p.me, path, v),
        paths::path_cost(model::graph(p.lsdb), path) == model::best_routes(p)[v].cost,
        model::best_routes(p)[v].hops == if path.len() < 255 {
            path.len() as u8
        } else {
            255u8
        },
        path.len() > 0,
        paths::first_node(model::graph(p.lsdb), path) == model::best_paths(p)[v].first,
{
    best_paths_exist(p);
    paths::label_is_realised(model::graph(p.lsdb), p.me, model::best_paths(p), v)
}

/// A node whose own announcement is current has a route to every other node
/// that there is a path to over mutual edges.
pub proof fn reachable_nodes_have_routes(p: PlaneView, path: Seq<(NodeId, int)>, v: NodeId)
    requires
        model::is_valid(p),
        p.adjacencies.dom().finite(),
        announces_its_links(p),
        paths::is_path(model::graph(p.lsdb), p.me, path, v),
        v != p.me,
    ensures
        model::best_routes(p).contains_key(v),
        model::best_routes(p)[v].cost <= paths::path_cost(model::graph(p.lsdb), path),
{
    best_paths_exist(p);
    let g = model::graph(p.lsdb);
    let labels = model::best_paths(p);
    paths::no_path_is_shorter(g, p.me, labels, path, v);
    let _ = first_nodes_are_peers(p, v);
}

/// A node whose own announcement is current has a link to each of its
/// neighbours over mutual edges.
pub proof fn neighbours_are_linked(p: PlaneView, i: int)
    requires
        p.adjacencies.dom().finite(),
        announces_its_links(p),
        spf::has_edge(model::graph(p.lsdb), p.me, i),
    ensures
        model::peers(p.adjacencies).contains(model::graph(p.lsdb)[p.me][i].peer),
{
    let g = model::graph(p.lsdb);
    let edge = g[p.me][i];
    let announced = model::advertised(p.adjacencies);
    let mutual = |edge: Adjacency| model::is_mutual(p.lsdb, p.me, edge);
    assert(g[p.me] == announced.filter(mutual));
    assert(g[p.me].contains(edge));
    announced.lemma_filter_contains_rev(mutual, edge);
    let k = choose|k: int| 0 <= k < announced.len() && announced[k] == edge;
    announced_edges_are_the_cheapest(p.adjacencies);
    assert(model::is_cheapest(p.adjacencies, announced[k].peer, announced[k].cost));
    let link = choose|link: LinkId| #[trigger]
        model::leads_to(p.adjacencies, link, edge.peer) && p.adjacencies[link].cost == edge.cost;
    assert(model::leads_to(p.adjacencies, link, edge.peer));
}

/// The first node of a best path is one that a local link leads to.
proof fn first_nodes_are_peers(p: PlaneView, v: NodeId) -> (i: int)
    requires
        model::is_valid(p),
        p.adjacencies.dom().finite(),
        announces_its_links(p),
        model::best_paths(p).contains_key(v),
        v != p.me,
    ensures
        model::peers(p.adjacencies).contains(model::best_paths(p)[v].first),
        model::best_routes(p).contains_key(v),
        spf::has_edge(model::graph(p.lsdb), p.me, i),
        model::graph(p.lsdb)[p.me][i].peer == model::best_paths(p)[v].first,
{
    best_paths_exist(p);
    let g = model::graph(p.lsdb);
    let best = paths::label_is_realised(g, p.me, model::best_paths(p), v);
    paths::path_continues(g, p.me, best, v);
    neighbours_are_linked(p, best[0].1);
    best[0].1
}

/// Two nodes with one database do not send a packet back and forth: from the
/// node that a route enters first, the destination is strictly nearer.
pub proof fn routes_do_not_loop(p: PlaneView, q: PlaneView, v: NodeId)
    requires
        model::is_valid(p),
        model::is_valid(q),
        p.lsdb == q.lsdb,
        model::best_routes(p).contains_key(v),
        q.me == model::best_paths(p)[v].first,
    ensures
        model::best_paths(q).contains_key(v),
        model::best_paths(q)[v].cost < model::best_routes(p)[v].cost,
{
    best_paths_exist(p);
    best_paths_exist(q);
    paths::first_node_is_nearer(
        model::graph(p.lsdb),
        p.me,
        model::best_paths(p),
        model::best_paths(q),
        v,
    );
}

/// The nodes of a mesh have settled: they know the same, use the routes that
/// follow from it, announce the links that are up, and those lead to nodes of
/// the mesh.
pub open spec fn has_settled(mesh: Map<NodeId, PlaneView>) -> bool {
    &&& forall|a: NodeId, b: NodeId| #[trigger]
        mesh.contains_key(a) && #[trigger] mesh.contains_key(b) ==> mesh[a].lsdb == mesh[b].lsdb
    &&& forall|a: NodeId| #[trigger]
        mesh.contains_key(a) ==> {
            &&& mesh[a].me == a
            &&& model::is_valid(mesh[a])
            &&& mesh[a].adjacencies.dom().finite()
            &&& announces_its_links(mesh[a])
            &&& mesh[a].routes.routes == model::best_routes(mesh[a])
            &&& model::peers(mesh[a].adjacencies).subset_of(mesh.dom())
        }
}

/// From node to node over their routes, `v` is reached from `at` within so many
/// hops.
pub open spec fn arrives(mesh: Map<NodeId, PlaneView>, at: NodeId, v: NodeId, hops: nat) -> bool
    decreases hops,
{
    ||| at == v
    ||| {
        let link = mesh[at].routes.routes[v].next_hop;
        let next = mesh[at].adjacencies[link].peer;
        &&& hops > 0
        &&& mesh[at].routes.routes.contains_key(v)
        &&& mesh[at].adjacencies.contains_key(link)
        &&& mesh.contains_key(next)
        &&& arrives(mesh, next, v, (hops - 1) as nat)
    }
}

/// What is reached within some hops is reached within more.
proof fn more_hops_do_no_harm(
    mesh: Map<NodeId, PlaneView>,
    at: NodeId,
    v: NodeId,
    hops: nat,
    more: nat,
)
    requires
        arrives(mesh, at, v, hops),
        hops <= more,
    ensures
        arrives(mesh, at, v, more),
    decreases hops,
{
    if at != v {
        let next = mesh[at].adjacencies[mesh[at].routes.routes[v].next_hop].peer;
        more_hops_do_no_harm(mesh, next, v, (hops - 1) as nat, (more - 1) as nat);
    }
}

/// In a mesh that has settled, following the routes from node to node leads to
/// every node that has a best path.
proof fn best_paths_arrive(mesh: Map<NodeId, PlaneView>, at: NodeId, v: NodeId)
    requires
        has_settled(mesh),
        mesh.contains_key(at),
        model::best_paths(mesh[at]).contains_key(v),
    ensures
        arrives(mesh, at, v, model::best_paths(mesh[at])[v].cost as nat),
    decreases model::best_paths(mesh[at])[v].cost,
{
    if at != v {
        let p = mesh[at];
        let label = model::best_paths(p)[v];
        let first = label.first;
        let _ = first_nodes_are_peers(p, v);
        assert(mesh.dom().contains(first));
        routes_leave_over_the_best_link(p, v);
        assert(mesh[first].lsdb == p.lsdb);
        routes_do_not_loop(p, mesh[first], v);
        best_paths_arrive(mesh, first, v);
        let rest = model::best_paths(mesh[first])[v].cost as nat;
        more_hops_do_no_harm(mesh, first, v, rest, (label.cost - 1) as nat);
    }
}

/// In a mesh that has settled, following the routes from node to node leads to
/// every node that there is a path to over mutual edges, in no more hops than
/// the path costs.
pub proof fn settled_routes_arrive(
    mesh: Map<NodeId, PlaneView>,
    at: NodeId,
    path: Seq<(NodeId, int)>,
    v: NodeId,
)
    requires
        has_settled(mesh),
        mesh.contains_key(at),
        paths::is_path(model::graph(mesh[at].lsdb), at, path, v),
    ensures
        arrives(mesh, at, v, paths::path_cost(model::graph(mesh[at].lsdb), path) as nat),
{
    let p = mesh[at];
    best_paths_exist(p);
    paths::no_path_is_shorter(model::graph(p.lsdb), at, model::best_paths(p), path, v);
    best_paths_arrive(mesh, at, v);
    more_hops_do_no_harm(
        mesh,
        at,
        v,
        model::best_paths(p)[v].cost as nat,
        paths::path_cost(model::graph(p.lsdb), path) as nat,
    );
}

/// In a mesh that has settled, a route leaves over a link to the first node of
/// the best path, and that node has a link back.
pub proof fn settled_routes_lead_to_neighbours(
    mesh: Map<NodeId, PlaneView>,
    at: NodeId,
    v: NodeId,
)
    requires
        has_settled(mesh),
        mesh.contains_key(at),
        at != v,
        mesh[at].routes.routes.contains_key(v),
    ensures
        ({
            let first = model::best_paths(mesh[at])[v].first;
            &&& mesh.contains_key(first)
            &&& model::leads_to(
                mesh[at].adjacencies,
                mesh[at].routes.routes[v].next_hop,
                first,
            )
            &&& model::peers(mesh[first].adjacencies).contains(at)
        }),
{
    let p = mesh[at];
    let first = model::best_paths(p)[v].first;
    let i = first_nodes_are_peers(p, v);
    assert(mesh.dom().contains(first));
    routes_leave_over_the_best_link(p, v);
    assert(mesh[first].lsdb == p.lsdb);
    edges_are_mutual(p.lsdb, at, i);
    let g = model::graph(p.lsdb);
    let j = choose|j: int| #[trigger] spf::has_edge(g, first, j) && g[first][j].peer == at;
    neighbours_are_linked(mesh[first], j);
}

/// In a mesh that has settled, no route leads back to the node that a packet
/// came from.
pub proof fn settled_routes_do_not_return(
    mesh: Map<NodeId, PlaneView>,
    from: NodeId,
    at: NodeId,
    back: LinkId,
    v: NodeId,
)
    requires
        has_settled(mesh),
        mesh.contains_key(from),
        mesh.contains_key(at),
        from != v,
        at != v,
        mesh[from].routes.routes.contains_key(v),
        mesh[at].routes.routes.contains_key(v),
        model::best_paths(mesh[from])[v].first == at,
        model::leads_to(mesh[at].adjacencies, back, from),
    ensures
        mesh[at].routes.routes[v].next_hop != back,
{
    settled_routes_lead_to_neighbours(mesh, at, v);
    assert(mesh[at].lsdb == mesh[from].lsdb);
    routes_do_not_loop(mesh[from], mesh[at], v);
    if mesh[at].routes.routes[v].next_hop == back {
        routes_do_not_loop(mesh[at], mesh[from], v);
    }
}

/// What a digest says of an origin.
proof fn digest_tells_of(lsdb: Map<NodeId, EntryView>, origin: NodeId)
    requires
        lsdb.dom().finite(),
    ensures
        model::origins_of(model::digest(lsdb)).contains(origin) <==> lsdb.contains_key(origin),
        lsdb.contains_key(origin) ==> model::newest(model::digest(lsdb), origin)
            == lsdb[origin].version,
        model::digest(lsdb).len() == lsdb.dom().len(),
{
    let origins = order::finite_sets_are_listed::<NodeId>(lsdb.dom());
    let digest = model::digest(lsdb);
    order::ascending_is_injective::<NodeId>(origins);
    origins.unique_seq_to_set();
    assert(origins.to_set() =~= lsdb.dom());
    assert(origins.contains(origin) <==> lsdb.contains_key(origin));
    if lsdb.contains_key(origin) {
        let k = choose|k: int| 0 <= k < origins.len() && origins[k] == origin;
        assert(model::tells_of(digest, k, origin));
        assert(model::is_newest(digest, origin, lsdb[origin].version)) by {
            assert forall|i: int| #[trigger] model::tells_of(digest, i, origin) implies i == k by {}
        }
        let version = model::newest(digest, origin);
        assert(model::is_newest(digest, origin, version));
        let i = choose|i: int| #[trigger]
            model::tells_of(digest, i, origin) && digest[i].spec_version() == version;
        assert(model::tells_of(digest, i, origin) && origins[i] == origins[k]);
    }
    if model::origins_of(digest).contains(origin) {
        let i = choose|i: int| model::tells_of(digest, i, origin);
        assert(origins[i] == origin);
    }
}

/// A node that gets the digest of another answers with every announcement in
/// force that the other lacks or has in an older version.
pub proof fn digests_are_answered_with_news(
    p: PlaneView,
    link: LinkId,
    theirs: Map<NodeId, EntryView>,
    origin: NodeId,
)
    requires
        model::is_valid(p),
        p.adjacencies.contains_key(link),
        theirs.dom().finite(),
        theirs.dom().len() <= MAX_DIGEST_ENTRIES,
        model::is_active(p.lsdb, origin),
        theirs.contains_key(origin) ==> model::is_after(
            p.lsdb[origin].version,
            theirs[origin].version,
        ),
    ensures
        model::receive_digest(p, link, model::digest(theirs)).contains(
            model::send_lsa(link, model::message_of(p.lsdb, origin)),
        ),
{
    let digest = model::digest(theirs);
    digest_tells_of(theirs, origin);
    let owed = model::owed(p, digest);
    assert(owed.contains(origin));
    assert(owed.subset_of(p.lsdb.dom()));
    vstd::set_lib::lemma_set_subset_finite(p.lsdb.dom(), owed);
    let listed = order::finite_sets_are_listed::<NodeId>(owed);
    assert(listed.contains(origin));
    let k = choose|k: int| 0 <= k < listed.len() && listed[k] == origin;
    let sends = model::send_each(link, p.lsdb, listed);
    let actions = model::receive_digest(p, link, digest);
    assert(actions[k] == sends[k]);
}

/// A node that gets the digest of another requests every origin, but its own,
/// that the other alone knows or knows in a newer version.
pub proof fn digests_are_answered_with_requests(
    p: PlaneView,
    link: LinkId,
    theirs: Map<NodeId, EntryView>,
    origin: NodeId,
)
    requires
        model::is_valid(p),
        p.adjacencies.contains_key(link),
        theirs.dom().finite(),
        theirs.dom().len() <= MAX_DIGEST_ENTRIES,
        origin != p.me,
        theirs.contains_key(origin),
        p.lsdb.contains_key(origin) ==> model::is_after(
            theirs[origin].version,
            p.lsdb[origin].version,
        ),
    ensures
        ({
            let actions = model::receive_digest(p, link, model::digest(theirs));
            &&& actions.len() > 0
            &&& actions.last() matches ActionView::Send { link: l, frame: FrameView::DigestReq(o) }
            &&& l == link
            &&& o.contains(origin)
        }),
{
    let digest = model::digest(theirs);
    digest_tells_of(theirs, origin);
    let wanted = model::wanted(p, digest);
    assert(wanted.contains(origin));
    assert(wanted.subset_of(theirs.dom())) by {
        assert forall|o: NodeId| wanted.contains(o) implies theirs.dom().contains(o) by {
            digest_tells_of(theirs, o);
        }
    }
    vstd::set_lib::lemma_set_subset_finite(theirs.dom(), wanted);
    let listed = order::finite_sets_are_listed::<NodeId>(wanted);
    assert(listed.contains(origin));
}

/// A request is answered with the announcement of every requested origin that
/// has one in force.
pub proof fn requests_are_answered(
    p: PlaneView,
    link: LinkId,
    origins: Seq<NodeId>,
    origin: NodeId,
)
    requires
        model::is_valid(p),
        p.adjacencies.contains_key(link),
        origins.len() <= model::MAX_DIGEST_REQ_ORIGINS,
        origins.contains(origin),
        model::is_active(p.lsdb, origin),
    ensures
        model::receive_digest_req(p, link, origins).contains(
            model::send_lsa(link, model::message_of(p.lsdb, origin)),
        ),
{
    let known = model::available(p.lsdb, origins);
    assert(known.subset_of(p.lsdb.dom()));
    vstd::set_lib::lemma_set_subset_finite(p.lsdb.dom(), known);
    let listed = order::finite_sets_are_listed::<NodeId>(known);
    assert(known.contains(origin));
    assert(listed.contains(origin));
    let k = choose|k: int| 0 <= k < listed.len() && listed[k] == origin;
    assert(model::receive_digest_req(p, link, origins)[k] == model::send_lsa(
        link,
        model::message_of(p.lsdb, origin),
    ));
}

/// What a peer sends in answer to a digest brings the origin up to the version
/// of the peer.
pub proof fn answers_repair_the_database(
    p: PlaneView,
    now: MonoTime,
    link: LinkId,
    q: PlaneView,
    origin: NodeId,
    signed: MessageView,
)
    requires
        model::is_valid(q),
        model::is_active(q.lsdb, origin),
        origin != p.me,
        p.lsdb.contains_key(origin) ==> model::is_after(
            q.lsdb[origin].version,
            p.lsdb[origin].version,
        ),
        model::is_considered(p, link, model::message_of(q.lsdb, origin)),
        model::fits(p.lsdb, origin),
    ensures
        ({
            let message = model::message_of(q.lsdb, origin);
            let event = EventView::Frame { link, frame: FrameView::Lsa(message) };
            let next = model::transition(p, now, event, signed, true).0;
            &&& next.lsdb[origin].version == q.lsdb[origin].version
            &&& model::message_of(next.lsdb, origin) == message
        }),
{
    assert(model::is_entry_of(origin, q.lsdb[origin]));
}

/// The state after the frames among the first `n` actions of a peer came in
/// over a link, each accepted.
pub open spec fn delivered(
    p: PlaneView,
    now: MonoTime,
    link: LinkId,
    actions: Seq<ActionView>,
    n: int,
    signed: MessageView,
) -> PlaneView
    decreases n,
{
    if n <= 0 {
        p
    } else {
        let before = delivered(p, now, link, actions, n - 1, signed);
        match actions[n - 1] {
            ActionView::Send { frame, .. } => model::transition(
                before,
                now,
                EventView::Frame { link, frame },
                signed,
                true,
            ).0,
            _ => before,
        }
    }
}

/// The state of `p` after it has told `q` what it knows, in a digest over the
/// link `there`, and has got the whole answer over the link `here`.
pub open spec fn informed(
    p: PlaneView,
    here: LinkId,
    q: PlaneView,
    there: LinkId,
    now: MonoTime,
    signed: MessageView,
) -> PlaneView {
    let answer = model::receive_digest(q, there, model::digest(p.lsdb));
    delivered(p, now, here, answer, answer.len() as int, signed)
}

/// `q` has an announcement in force that `p` lacks or has in an older version,
/// and `p` learns of the origin from others.
pub open spec fn can_inform(q: PlaneView, p: PlaneView, origin: NodeId) -> bool {
    &&& origin != p.me
    &&& model::is_active(q.lsdb, origin)
    &&& p.lsdb.contains_key(origin) ==> model::is_after(
        q.lsdb[origin].version,
        p.lsdb[origin].version,
    )
}

/// The databases of two neighbours fit into one, and what each has in force is
/// within the bounds.
pub open spec fn can_exchange(p: PlaneView, here: LinkId, q: PlaneView, there: LinkId) -> bool {
    &&& model::is_valid(p)
    &&& model::is_valid(q)
    &&& p.adjacencies.contains_key(here)
    &&& q.adjacencies.contains_key(there)
    &&& p.lsdb.dom().union(q.lsdb.dom()).len() <= MAX_LSDB_ENTRIES
    &&& forall|origin: NodeId| #[trigger]
        model::is_active(p.lsdb, origin) ==> model::is_acceptable(
            model::message_of(p.lsdb, origin).lsa,
        )
    &&& forall|origin: NodeId| #[trigger]
        model::is_active(q.lsdb, origin) ==> model::is_acceptable(
            model::message_of(q.lsdb, origin).lsa,
        )
}

/// What one more answer brings.
proof fn answers_come_in(
    p: PlaneView,
    here: LinkId,
    q: PlaneView,
    there: LinkId,
    now: MonoTime,
    signed: MessageView,
    listed: Seq<NodeId>,
    n: int,
)
    requires
        can_exchange(p, here, q, there),
        order::lists::<NodeId>(listed, model::owed(q, model::digest(p.lsdb))),
        listed == order::ascending::<NodeId>(model::owed(q, model::digest(p.lsdb))),
        0 <= n <= listed.len(),
    ensures
        ({
            let answer = model::receive_digest(q, there, model::digest(p.lsdb));
            let next = delivered(p, now, here, answer, n, signed);
            &&& next.me == p.me
            &&& next.adjacencies == p.adjacencies
            &&& next.lsdb.dom().subset_of(p.lsdb.dom().union(q.lsdb.dom()))
            &&& forall|k: int|
                0 <= k < n && listed[k] != p.me ==> {
                    let origin = #[trigger] listed[k];
                    &&& model::is_active(next.lsdb, origin)
                    &&& next.lsdb[origin].version == q.lsdb[origin].version
                    &&& model::message_of(next.lsdb, origin) == model::message_of(q.lsdb, origin)
                }
            &&& forall|origin: NodeId|
                #![trigger next.lsdb[origin]]
                #![trigger next.lsdb.contains_key(origin)]
                (!listed.take(n).contains(origin) || origin == p.me) ==> {
                    &&& next.lsdb.contains_key(origin) == p.lsdb.contains_key(origin)
                    &&& p.lsdb.contains_key(origin) ==> next.lsdb[origin] == p.lsdb[origin]
                }
        }),
    decreases n,
{
    let entries = model::digest(p.lsdb);
    let answer = model::receive_digest(q, there, entries);
    if n > 0 {
        answers_come_in(p, here, q, there, now, signed, listed, n - 1);
        let before = delivered(p, now, here, answer, n - 1, signed);
        let next = delivered(p, now, here, answer, n, signed);
        let origin = listed[n - 1];
        let sends = model::send_each(there, q.lsdb, listed);
        digest_tells_of(p.lsdb, origin);
        assert(listed.contains(origin));
        assert(model::owed(q, entries).contains(origin));
        assert(answer[n - 1] == sends[n - 1]);
        let message = model::message_of(q.lsdb, origin);
        assert(answer[n - 1] == model::send_lsa(there, message));
        assert(model::is_entry_of(origin, q.lsdb[origin]));
        order::ascending_is_injective::<NodeId>(listed);
        assert(!listed.take(n - 1).contains(origin));
        assert(before.lsdb.contains_key(origin) == p.lsdb.contains_key(origin));
        let all = p.lsdb.dom().union(q.lsdb.dom());
        if !before.lsdb.contains_key(origin) {
            let less = before.lsdb.dom();
            vstd::set_lib::lemma_set_subset_finite(all, less);
            vstd::set_lib::lemma_len_subset(less.insert(origin), all);
        }
        assert(model::is_considered(before, here, message));
        if origin != p.me {
            assert(model::is_learned(before, message));
            assert(next.lsdb == model::installed(before, now, message).lsdb);
        } else {
            assert(next == before);
        }
        assert forall|k: int| 0 <= k < n && listed[k] != p.me implies ({
            let o = #[trigger] listed[k];
            &&& model::is_active(next.lsdb, o)
            &&& next.lsdb[o].version == q.lsdb[o].version
            &&& model::message_of(next.lsdb, o) == model::message_of(q.lsdb, o)
        }) by {
            assert(k < n - 1 ==> listed[k] != origin);
        }
        assert forall|o: NodeId|
            #![trigger next.lsdb[o]]
            #![trigger next.lsdb.contains_key(o)]
            !listed.take(n).contains(o) || o == p.me implies {
            &&& next.lsdb.contains_key(o) == p.lsdb.contains_key(o)
            &&& p.lsdb.contains_key(o) ==> next.lsdb[o] == p.lsdb[o]
        } by {
            assert(listed.take(n)[n - 1] == origin);
            let less = listed.take(n - 1);
            if less.contains(o) {
                let k = choose|k: int| 0 <= k < less.len() && less[k] == o;
                assert(listed.take(n)[k] == o);
            }
            assert(before.lsdb.contains_key(o) == p.lsdb.contains_key(o));
            assert(p.lsdb.contains_key(o) ==> before.lsdb[o] == p.lsdb[o]);
        }
    }
}

/// The answer to a digest brings in every announcement that the neighbour has
/// in force and that the node lacked or had in an older version, and changes
/// nothing else in the database.
pub proof fn digests_bring_the_news(
    p: PlaneView,
    here: LinkId,
    q: PlaneView,
    there: LinkId,
    now: MonoTime,
    signed: MessageView,
    origin: NodeId,
)
    requires
        can_exchange(p, here, q, there),
    ensures
        ({
            let next = informed(p, here, q, there, now, signed);
            if can_inform(q, p, origin) {
                &&& model::is_active(next.lsdb, origin)
                &&& next.lsdb[origin].version == q.lsdb[origin].version
                &&& model::message_of(next.lsdb, origin) == model::message_of(q.lsdb, origin)
            } else {
                &&& next.lsdb.contains_key(origin) == p.lsdb.contains_key(origin)
                &&& p.lsdb.contains_key(origin) ==> next.lsdb[origin] == p.lsdb[origin]
            }
        }),
{
    let entries = model::digest(p.lsdb);
    let owed = model::owed(q, entries);
    assert(owed.subset_of(q.lsdb.dom()));
    vstd::set_lib::lemma_set_subset_finite(q.lsdb.dom(), owed);
    let listed = order::finite_sets_are_listed::<NodeId>(owed);
    let n = listed.len() as int;
    let answer = model::receive_digest(q, there, entries);
    digest_tells_of(p.lsdb, origin);
    answers_come_in(p, here, q, there, now, signed, listed, n);
    let last = delivered(p, now, here, answer, n, signed);
    assert(listed.take(n) =~= listed);
    assert(answer =~= model::send_each(there, q.lsdb, listed) + model::request(
        there,
        model::wanted(q, entries),
    ));
    assert(informed(p, here, q, there, now, signed).lsdb == last.lsdb) by {
        if answer.len() > n {
            assert(answer[n] == model::request(there, model::wanted(q, entries))[0]);
        }
    }
    assert(listed.contains(origin) <==> owed.contains(origin));
    if can_inform(q, p, origin) {
        let k = choose|k: int| 0 <= k < listed.len() && listed[k] == origin;
        assert(listed[k] != p.me);
    }
}

/// The version of an origin that neither of two databases has a newer one than.
pub open spec fn is_newer_of_two(
    p: PlaneView,
    q: PlaneView,
    origin: NodeId,
    version: (u32, u64),
) -> bool {
    &&& p.lsdb.contains_key(origin) && p.lsdb[origin].version == version || q.lsdb.contains_key(
        origin,
    ) && q.lsdb[origin].version == version
    &&& p.lsdb.contains_key(origin) ==> !model::is_after(p.lsdb[origin].version, version)
    &&& q.lsdb.contains_key(origin) ==> !model::is_after(q.lsdb[origin].version, version)
}

/// After two neighbours have answered each other's digests, both have the newer
/// of their two versions of an origin.
///
/// What the newer version says must be in force with the one that has it, and
/// no node is told of its own origin by others.
pub proof fn neighbours_agree_after_digests(
    p: PlaneView,
    here: LinkId,
    q: PlaneView,
    there: LinkId,
    now: MonoTime,
    signed: MessageView,
    origin: NodeId,
)
    requires
        can_exchange(p, here, q, there),
        p.lsdb.contains_key(origin) || q.lsdb.contains_key(origin),
        p.lsdb.contains_key(origin) && (q.lsdb.contains_key(origin) ==> model::is_after(
            p.lsdb[origin].version,
            q.lsdb[origin].version,
        )) ==> model::is_active(p.lsdb, origin) && origin != q.me,
        q.lsdb.contains_key(origin) && (p.lsdb.contains_key(origin) ==> model::is_after(
            q.lsdb[origin].version,
            p.lsdb[origin].version,
        )) ==> model::is_active(q.lsdb, origin) && origin != p.me,
    ensures
        ({
            let a = informed(p, here, q, there, now, signed);
            let b = informed(q, there, p, here, now, signed);
            &&& a.lsdb.contains_key(origin)
            &&& b.lsdb.contains_key(origin)
            &&& a.lsdb[origin].version == b.lsdb[origin].version
            &&& is_newer_of_two(p, q, origin, a.lsdb[origin].version)
        }),
{
    assert(p.lsdb.dom().union(q.lsdb.dom()) =~= q.lsdb.dom().union(p.lsdb.dom()));
    digests_bring_the_news(p, here, q, there, now, signed, origin);
    digests_bring_the_news(q, there, p, here, now, signed, origin);
}

/// Two nodes of a mesh are neighbours over these links.
pub open spec fn are_neighbours(
    mesh: Map<NodeId, PlaneView>,
    a: NodeId,
    here: LinkId,
    b: NodeId,
    there: LinkId,
) -> bool {
    &&& mesh.contains_key(a)
    &&& mesh.contains_key(b)
    &&& model::leads_to(mesh[a].adjacencies, here, b)
    &&& model::leads_to(mesh[b].adjacencies, there, a)
}

/// Two nodes of a mesh are neighbours.
pub open spec fn are_linked(mesh: Map<NodeId, PlaneView>, a: NodeId, b: NodeId) -> bool {
    exists|here: LinkId, there: LinkId| are_neighbours(mesh, a, here, b, there)
}

/// Neighbours can exchange digests, and no exchange brings news.
pub open spec fn is_quiet(
    mesh: Map<NodeId, PlaneView>,
    now: MonoTime,
    signed: MessageView,
) -> bool {
    &&& forall|a: NodeId| #[trigger] mesh.contains_key(a) ==> mesh[a].me == a
    &&& forall|a: NodeId, here: LinkId, b: NodeId, there: LinkId| #[trigger]
        are_neighbours(mesh, a, here, b, there) ==> {
            &&& can_exchange(mesh[a], here, mesh[b], there)
            &&& informed(mesh[a], here, mesh[b], there, now, signed).lsdb == mesh[a].lsdb
        }
}

/// What is known of an origin anywhere in a mesh is in force there, and no node
/// knows more of it than the origin itself does.
pub open spec fn is_in_force(mesh: Map<NodeId, PlaneView>, origin: NodeId) -> bool {
    forall|a: NodeId| #[trigger]
        mesh.contains_key(a) && mesh[a].lsdb.contains_key(origin) ==> {
            &&& model::is_active(mesh[a].lsdb, origin)
            &&& mesh.contains_key(origin) ==> mesh[origin].lsdb.contains_key(origin)
                && !model::is_after(mesh[a].lsdb[origin].version, mesh[origin].lsdb[origin].version)
        }
}

/// The nodes stand in a row in which each is a neighbour of the one before it.
pub open spec fn is_chain(mesh: Map<NodeId, PlaneView>, nodes: Seq<NodeId>) -> bool {
    forall|i: int|
        #![trigger nodes[i]]
        0 <= i < nodes.len() - 1 ==> are_linked(mesh, nodes[i], nodes[i + 1])
}

/// Neighbours in a mesh where no exchange brings news know the same version of
/// an origin.
proof fn quiet_neighbours_agree(
    mesh: Map<NodeId, PlaneView>,
    now: MonoTime,
    signed: MessageView,
    a: NodeId,
    here: LinkId,
    b: NodeId,
    there: LinkId,
    origin: NodeId,
)
    requires
        is_quiet(mesh, now, signed),
        is_in_force(mesh, origin),
        are_neighbours(mesh, a, here, b, there),
        mesh[a].lsdb.contains_key(origin),
    ensures
        mesh[b].lsdb.contains_key(origin),
        mesh[b].lsdb[origin].version == mesh[a].lsdb[origin].version,
{
    let p = mesh[a];
    let q = mesh[b];
    assert(are_neighbours(mesh, b, there, a, here));
    digests_bring_the_news(p, here, q, there, now, signed, origin);
    digests_bring_the_news(q, there, p, here, now, signed, origin);
}

/// In a mesh where no exchange of digests brings news, all nodes that are
/// connected know the same version of an origin.
///
/// It must be in force wherever it is known, and not be known better elsewhere
/// than by the origin itself.
pub proof fn quiet_meshes_agree(
    mesh: Map<NodeId, PlaneView>,
    now: MonoTime,
    signed: MessageView,
    nodes: Seq<NodeId>,
    origin: NodeId,
)
    requires
        is_quiet(mesh, now, signed),
        is_in_force(mesh, origin),
        is_chain(mesh, nodes),
        nodes.len() > 0,
        mesh.contains_key(nodes[0]),
        mesh[nodes[0]].lsdb.contains_key(origin),
    ensures
        mesh.contains_key(nodes.last()),
        mesh[nodes.last()].lsdb.contains_key(origin),
        mesh[nodes.last()].lsdb[origin].version == mesh[nodes[0]].lsdb[origin].version,
    decreases nodes.len(),
{
    if nodes.len() > 1 {
        let less = nodes.drop_last();
        let n = nodes.len() as int;
        assert forall|i: int|
            #![trigger less[i]]
            0 <= i < less.len() - 1 implies are_linked(mesh, less[i], less[i + 1]) by {
            assert(less[i] == nodes[i] && less[i + 1] == nodes[i + 1]);
        }
        quiet_meshes_agree(mesh, now, signed, less, origin);
        let a = nodes[n - 2];
        assert(less.last() == a);
        let b = nodes[n - 1];
        assert(are_linked(mesh, a, b));
        let (here, there) = choose|here: LinkId, there: LinkId|
            are_neighbours(mesh, a, here, b, there);
        quiet_neighbours_agree(mesh, now, signed, a, here, b, there, origin);
    }
}

/// A peer never learns of a node's own origin by asking that node's peers for
/// it: the own origin is never requested.
pub proof fn own_origin_is_never_requested(
    p: PlaneView,
    link: LinkId,
    entries: Seq<DigestEntry>,
)
    ensures
        !model::wanted(p, entries).contains(p.me),
{
}

/// The database has a place for the own announcement: as soon as a link was up
/// or anything was learned, it holds one.
pub open spec fn has_own_place(p: PlaneView) -> bool {
    (p.adjacencies.dom().len() > 0 || p.lsdb.dom().len() > 0) ==> p.lsdb.contains_key(p.me)
}

/// Where signing keeps the origin, the place of the own announcement is never
/// lost.
pub proof fn own_place_is_kept(
    p: PlaneView,
    now: MonoTime,
    event: EventView,
    signed: MessageView,
    accepted: bool,
)
    requires
        p.adjacencies.dom().finite(),
        p.lsdb.dom().finite(),
        has_own_place(p),
        model::origination(p, event) is Some ==> signed.lsa.origin == p.me,
    ensures
        has_own_place(model::transition(p, now, event, signed, accepted).0),
        model::transition(p, now, event, signed, accepted).0.adjacencies.dom().finite(),
{
    let next = model::transition(p, now, event, signed, accepted).0;
    match event {
        EventView::Frame { link, frame: FrameView::Lsa(message) } => {
            if next.lsdb != p.lsdb {
                assert(p.adjacencies.dom().contains(link));
                assert(p.adjacencies.dom().len() > 0);
            }
        },
        EventView::Timer(ControlTimer::LsaExpire { origin, epoch, seq }) => {
            if next.lsdb != p.lsdb {
                assert(p.lsdb.dom().contains(origin));
                assert(p.lsdb.dom().len() > 0);
            }
        },
        _ => {},
    }
}

/// An unsecured control plane that has its own place can always announce
/// itself, however full its database is.
pub proof fn unsecured_planes_can_announce(plane: ControlPlane, event: EventView)
    requires
        plane.is_unsecured(),
        has_own_place(plane@),
        plane@.lsdb.dom().finite(),
    ensures
        plane.has_room_for_own(event),
{
    match model::origination(plane@, event) {
        Some(ready) => {
            assert forall|signed: MessageView| #[trigger]
                plane.may_sign(model::own_lsa(ready), signed) implies model::fits(
                plane@.lsdb,
                signed.lsa.origin,
            ) by {
                assert(signed == auth::unsecured(model::own_lsa(ready)));
            }
        },
        None => {},
    }
}

/// How an event changes the state of an unsecured control plane, and what it
/// asks for.
pub open spec fn unsecured_transition(p: PlaneView, now: MonoTime, event: EventView) -> (
    PlaneView,
    Seq<ActionView>,
) {
    let signed = auth::unsecured(model::own_lsa(model::origination(p, event)->0));
    model::transition(p, now, event, signed, true)
}

/// What an unsecured control plane does is determined by its state, the event
/// and the time.
pub proof fn unsecured_steps_are_determined(
    before: ControlPlane,
    now: MonoTime,
    event: ControlEvent,
    after: ControlPlane,
    actions: Seq<ControlAction>,
)
    requires
        before.is_unsecured(),
        ControlPlane::may_step(before, now, event, after, actions),
    ensures
        (after@, message::views(actions)) == unsecured_transition(before@, now, event@),
        after.is_unsecured(),
{
    ControlPlane::same_auth(&after, &before);
    let (s, v) = choose|signed: MessageView, accepted: bool|
        {
            &&& #[trigger] before.may_answer(event@, signed)
            &&& #[trigger] before.may_say(event@, accepted)
            &&& (after@, message::views(actions)) == model::transition(
                before@,
                now,
                event@,
                signed,
                accepted,
            )
        };
    match model::origination(before@, event@) {
        Some(ready) => {
            assert(s == auth::unsecured(model::own_lsa(ready)));
        },
        None => {
            match model::judgement(before@, event@) {
                Some(message) => {
                    assert(before.may_judge(message, v));
                },
                None => {},
            }
        },
    }
}

/// A control plane is always that of one node and one epoch.
pub proof fn identity_is_kept(
    p: PlaneView,
    now: MonoTime,
    event: EventView,
    signed: MessageView,
    accepted: bool,
)
    ensures
        model::transition(p, now, event, signed, accepted).0.me == p.me,
        model::transition(p, now, event, signed, accepted).0.epoch == p.epoch,
{
}

/// Routes that are published are those that the plane has from then on, and
/// routes that it does not publish stay as they are.
pub proof fn published_routes_are_current(
    p: PlaneView,
    now: MonoTime,
    event: EventView,
    signed: MessageView,
    accepted: bool,
)
    ensures
        ({
            let (next, actions) = model::transition(p, now, event, signed, accepted);
            &&& forall|i: int|
                0 <= i < actions.len() ==> ((#[trigger] actions[i]) matches
                    ActionView::PublishRoutes(table) ==> table == next.routes)
            &&& next.routes != p.routes ==> exists|i: int|
                0 <= i < actions.len() && #[trigger] actions[i] == ActionView::PublishRoutes(
                    next.routes,
                )
        }),
{
    let (next, actions) = model::transition(p, now, event, signed, accepted);
    match event {
        EventView::Timer(ControlTimer::SpfHold { generation }) => {
            if next.routes != p.routes {
                assert(actions[0] == ActionView::PublishRoutes(next.routes));
            }
        },
        _ => {},
    }
}

/// Two unsecured control planes in the same state do the same on the same
/// event at the same time.
pub proof fn same_inputs_give_the_same_outputs(
    a: ControlPlane,
    b: ControlPlane,
    now: MonoTime,
    event: ControlEvent,
    a_after: ControlPlane,
    b_after: ControlPlane,
    a_actions: Seq<ControlAction>,
    b_actions: Seq<ControlAction>,
)
    requires
        a.is_unsecured(),
        b.is_unsecured(),
        a@ == b@,
        ControlPlane::may_step(a, now, event, a_after, a_actions),
        ControlPlane::may_step(b, now, event, b_after, b_actions),
    ensures
        a_after@ == b_after@,
        message::views(a_actions) == message::views(b_actions),
{
    let (s, v) = choose|signed: MessageView, accepted: bool|
        {
            &&& #[trigger] a.may_answer(event@, signed)
            &&& #[trigger] a.may_say(event@, accepted)
            &&& (a_after@, message::views(a_actions)) == model::transition(
                a@,
                now,
                event@,
                signed,
                accepted,
            )
        };
    let (t, w) = choose|signed: MessageView, accepted: bool|
        {
            &&& #[trigger] b.may_answer(event@, signed)
            &&& #[trigger] b.may_say(event@, accepted)
            &&& (b_after@, message::views(b_actions)) == model::transition(
                b@,
                now,
                event@,
                signed,
                accepted,
            )
        };
    match model::origination(a@, event@) {
        Some(ready) => {
            assert(s == auth::unsecured(model::own_lsa(ready)));
            assert(t == auth::unsecured(model::own_lsa(ready)));
        },
        None => {
            assert(model::transition(a@, now, event@, s, v) == model::transition(
                a@,
                now,
                event@,
                t,
                v,
            ));
            match model::judgement(a@, event@) {
                Some(message) => {
                    assert(a.may_judge(message, v));
                    assert(b.may_judge(message, w));
                },
                None => {},
            }
        },
    }
}

} // verus!
