//! What a control plane does when it is used, and what it answers when it is
//! asked.

use std::sync::Arc;
use vstd::prelude::*;
use crate::control::announcements;
use crate::control::cost::{InvalidLinkCost, LinkCost};
use crate::control::laws;
use crate::control::message;
use crate::control::message::{ControlAction, ControlEvent, EventView, FrameView, Lsa};
use crate::control::message::MessageView;
use crate::control::model;
use crate::control::model::PlaneView;
use crate::control::plane;
use crate::control::plane::{ControlPlane, EntryRelation};
use crate::control::table::{Route, RouteTable};
use crate::order;
use crate::order::Key;
use crate::ordered_map::OrderedMap;
use crate::types::{Component, LinkId, MonoTime, NodeId};

verus! {

/// An unsecured control plane that handles an event goes from its state to the
/// next, signs its announcements by leaving them as they are, and accepts those
/// of others.
pub proof fn unsecured_planes_do_as_they_must(
    used: &mut ControlPlane,
    now: MonoTime,
    event: ControlEvent,
    actions: Vec<ControlAction>,
)
    requires
        old(used).is_unsecured(),
        call_ensures(<ControlPlane as Component>::handle, (used, now, event), actions),
    ensures
        final(used).wf(),
        final(used).is_unsecured(),
        (final(used)@, message::views(actions@)) == laws::unsecured_transition(
            old(used)@,
            now,
            event@,
        ),
{
    laws::unsecured_steps_are_determined(*old(used), now, event, *final(used), actions@);
}

/// The announcement that an unsecured plane makes of itself carries neither
/// bytes nor a signature.
pub proof fn unsecured_planes_sign_nothing(p: PlaneView, now: MonoTime, event: EventView)
    requires
        announcements::calls_for_announcement(p, event),
        p.adjacencies.dom().finite(),
        p.my_seq < u64::MAX,
    ensures
        ({
            let q = laws::unsecured_transition(p, now, event).0;
            &&& q.lsdb.contains_key(p.me)
            &&& q.lsdb[p.me].active matches Some(active) && {
                &&& active.message.canonical_bytes.len() == 0
                &&& active.message.signature.len() == 0
                &&& active.message.lsa.origin == p.me
                &&& active.message.lsa.epoch == p.epoch
                &&& active.message.lsa.seq == p.my_seq + 1
                &&& active.message.lsa.ttl_sec == 300
                &&& announcements::are_edges_of(
                    active.message.lsa.adjacencies,
                    announcements::links_after(p.adjacencies, event),
                )
            }
        }),
{
    announcements::announcements_list_the_links(p, event);
}

/// An unsecured plane can handle any event as long as it has numbers left and a
/// place for its own announcement.
pub proof fn events_can_be_handled(used: ControlPlane, now: MonoTime, event: ControlEvent)
    requires
        used.wf(),
        used.is_unsecured(),
        laws::has_own_place(used@),
        used@.my_seq < u64::MAX,
        used@.spf_generation < u64::MAX,
        used@.routes.version < u64::MAX,
    ensures
        used.accepts(now, event),
{
    used.state_is_valid();
    laws::unsecured_planes_can_announce(used, event@);
}

/// Of one who vouches for announcements in some other way, a plane takes an
/// announcement in only if that one accepts it.
pub proof fn only_accepted_announcements_count(
    used: &mut ControlPlane,
    now: MonoTime,
    event: ControlEvent,
    actions: Vec<ControlAction>,
    link: LinkId,
    message: MessageView,
)
    requires
        call_ensures(<ControlPlane as Component>::handle, (used, now, event), actions),
        event@ == (EventView::Frame { link, frame: FrameView::Lsa(message) }),
        !old(used).may_judge(message, true),
    ensures
        final(used)@ == old(used)@,
        actions@.len() == 0,
{
    let before = *old(used);
    let (s, v) = choose|signed: MessageView, accepted: bool|
        {
            &&& #[trigger] before.may_answer(event@, signed)
            &&& #[trigger] before.may_say(event@, accepted)
            &&& (final(used)@, message::views(actions@)) == model::transition(
                before@,
                now,
                event@,
                signed,
                accepted,
            )
        };
    announcements::old_announcements_are_corrected(before@, now, link, message, s, v);
    if v {
        assert(!announcements::is_welcome(before@, link, message.lsa) || before.may_judge(
            message,
            v,
        ));
    }
    assert(message::views(actions@).len() == actions@.len());
}

/// A new plane knows nothing but who it is, and goes on from the number that it
/// is given.
pub proof fn planes_start_with_nothing(
    me: NodeId,
    epoch: u32,
    last_seq: u64,
    made: ControlPlane,
    fresh: ControlPlane,
)
    requires
        call_ensures(ControlPlane::new_unsecured_with_seq, (me, epoch, last_seq), made),
        call_ensures(ControlPlane::new_unsecured, (me, epoch), fresh),
    ensures
        made.wf() && made.is_unsecured() && fresh.wf() && fresh.is_unsecured(),
        made@.me == me && made@.epoch == epoch && made@.my_seq == last_seq,
        fresh@.me == me && fresh@.epoch == epoch && fresh@.my_seq == 0,
        made@.adjacencies.dom() =~= Set::<LinkId>::empty(),
        made@.lsdb.dom() =~= Set::<NodeId>::empty(),
        made@.routes.routes.dom() =~= Set::<NodeId>::empty() && made@.routes.version == 0,
        made@.pending_spf is None && made@.last_lsdb_change_at is None,
        made@.spf_hold_ms == 100 && made@.spf_generation == 0,
        fresh@ == (PlaneView { my_seq: 0, ..made@ }),
{
    assert(fresh@ =~= PlaneView { my_seq: 0, ..made@ });
}

/// Of what is known of an origin a plane tells the announcement and when it
/// came, while it is in force; whether it has expired, once it is known; and
/// nothing of an origin that is not known.
pub proof fn what_is_known_is_told(
    asked: &ControlPlane,
    origin: &NodeId,
    lsa: Option<&Lsa>,
    received_at: Option<MonoTime>,
    expired: Option<bool>,
    known: usize,
)
    requires
        asked.wf(),
        call_ensures(ControlPlane::lsa, (asked, origin), lsa),
        call_ensures(ControlPlane::lsa_received_at, (asked, origin), received_at),
        call_ensures(ControlPlane::lsa_is_expired, (asked, origin), expired),
        call_ensures(ControlPlane::lsdb_len, (asked,), known),
    ensures
        known == asked@.lsdb.dom().len(),
        if asked@.lsdb.contains_key(*origin) {
            match asked@.lsdb[*origin].active {
                Some(active) => {
                    &&& lsa matches Some(told) && told@ == active.message.lsa
                    &&& received_at == Some(active.received_at)
                    &&& expired == Some(false)
                },
                None => lsa is None && received_at is None && expired == Some(true),
            }
        } else {
            lsa is None && received_at is None && expired is None
        },
{
}

/// All announcements in force are told, each once and by ascending origin.
pub proof fn all_in_force_is_told(asked: &ControlPlane, told: Vec<&Lsa>, origin: NodeId)
    requires
        asked.wf(),
        call_ensures(ControlPlane::lsas, (asked,), told),
    ensures
        forall|i: int, j: int|
            0 <= i < j < told@.len() ==> NodeId::before(
                (#[trigger] told@[i]).origin,
                (#[trigger] told@[j]).origin,
            ),
        asked@.lsdb.contains_key(origin) && asked@.lsdb[origin].active is Some <==> exists|i: int|
            0 <= i < told@.len() && (#[trigger] told@[i]).origin == origin,
        forall|i: int|
            0 <= i < told@.len() && (#[trigger] told@[i]).origin == origin ==> told@[i]@
                == asked@.lsdb[origin].active->0.message.lsa,
{
    asked.state_is_valid();
    let lsdb = asked@.lsdb;
    let active = model::graph(lsdb).dom();
    assert(active.subset_of(lsdb.dom()));
    vstd::set_lib::lemma_set_subset_finite(lsdb.dom(), active);
    let origins = order::finite_sets_are_listed::<NodeId>(active);
    assert forall|i: int| 0 <= i < told@.len() implies (#[trigger] told@[i]).origin == origins[i]
        && lsdb.contains_key(origins[i]) && lsdb[origins[i]].active is Some && told@[i]@
        == lsdb[origins[i]].active->0.message.lsa by {
        assert(origins.contains(origins[i]));
        assert(active.contains(origins[i]));
        assert(model::is_entry_of(origins[i], lsdb[origins[i]]));
        assert(told@[i]@.origin == told@[i].origin);
    }
    assert forall|i: int, j: int| 0 <= i < j < told@.len() implies NodeId::before(
        (#[trigger] told@[i]).origin,
        (#[trigger] told@[j]).origin,
    ) by {
        assert(NodeId::before(origins[i], origins[j]));
    }
    if lsdb.contains_key(origin) && lsdb[origin].active is Some {
        assert(active.contains(origin));
        assert(origins.contains(origin));
        let k = choose|k: int| 0 <= k < origins.len() && origins[k] == origin;
        assert(told@[k].origin == origin);
    }
}

/// A plane tells who it is, and the routes that were published last.
pub proof fn routes_are_told(asked: &ControlPlane, me: NodeId, table: Arc<RouteTable>)
    requires
        asked.wf(),
        call_ensures(ControlPlane::node_id, (asked,), me),
        call_ensures(ControlPlane::route_table, (asked,), table),
    ensures
        me == asked@.me,
        table@ == asked@.routes,
{
}

/// A table tells of each destination its route, or that there is none.
pub proof fn tables_tell_routes(
    table: &RouteTable,
    destination: &NodeId,
    route: Option<&Route>,
    count: usize,
    empty: bool,
    version: u64,
)
    requires
        table.wf(),
        call_ensures(RouteTable::get, (table, destination), route),
        call_ensures(RouteTable::len, (table,), count),
        call_ensures(RouteTable::is_empty, (table,), empty),
        call_ensures(RouteTable::current_version, (table,), version),
    ensures
        match route {
            Some(found) => table@.routes.contains_key(*destination) && *found
                == table@.routes[*destination],
            None => !table@.routes.contains_key(*destination),
        },
        count == table@.routes.dom().len(),
        empty <==> count == 0,
        version == table@.version,
{
    table.destinations_are_listed();
    if empty {
        assert(table@.routes.dom() =~= Set::<NodeId>::empty());
    }
    if count == 0 {
        assert(table@.routes =~= Map::<NodeId, Route>::empty());
    }
}

/// A table tells all its routes, each once and by ascending destination.
pub proof fn tables_tell_all_routes(
    table: &RouteTable,
    told: Vec<(&NodeId, &Route)>,
    destination: NodeId,
)
    requires
        table.wf(),
        call_ensures(RouteTable::iter, (table,), told),
    ensures
        forall|i: int, j: int|
            0 <= i < j < told@.len() ==> NodeId::before(
                *(#[trigger] told@[i]).0,
                *(#[trigger] told@[j]).0,
            ),
        table@.routes.contains_key(destination) <==> exists|i: int|
            0 <= i < told@.len() && *(#[trigger] told@[i]).0 == destination,
        forall|i: int|
            0 <= i < told@.len() && *(#[trigger] told@[i]).0 == destination ==> *told@[i].1
                == table@.routes[destination],
{
    table.destinations_are_listed();
    let all = order::finite_sets_are_listed::<NodeId>(table@.routes.dom());
    assert forall|i: int, j: int| 0 <= i < j < told@.len() implies NodeId::before(
        *(#[trigger] told@[i]).0,
        *(#[trigger] told@[j]).0,
    ) by {
        assert(NodeId::before(all[i], all[j]));
    }
    if table@.routes.contains_key(destination) {
        assert(table@.routes.dom().contains(destination));
        assert(all.contains(destination));
        let k = choose|k: int| 0 <= k < all.len() && all[k] == destination;
        assert(*told@[k].0 == destination);
    }
}

/// Of two versions of an origin the one with the higher epoch is newer, and
/// within one epoch the one with the higher number. What one side alone knows is
/// told as such.
pub proof fn versions_are_related(
    local: Option<(u32, u64)>,
    remote: Option<(u32, u64)>,
    relation: EntryRelation,
)
    requires
        local is Some || remote is Some,
        call_ensures(plane::compare_versions, (local, remote), relation),
    ensures
        relation is RemoteOnly <==> local is None,
        relation is LocalOnly <==> remote is None,
        relation is RemoteNewer <==> (local matches Some((e, n)) && remote matches Some((f, m)) && (
        f > e || (f == e && m > n))),
        relation is LocalNewer <==> (local matches Some((e, n)) && remote matches Some((f, m)) && (e
            > f || (e == f && n > m))),
        relation is SameVersion <==> local is Some && local == remote,
{
}

/// Any number but zero is a cost, and a cost is its number.
pub proof fn costs_are_numbers(value: u16, cost: Result<LinkCost, InvalidLinkCost>)
    requires
        call_ensures(LinkCost::new, (value,), cost),
    ensures
        cost is Ok <==> value > 0,
        cost matches Ok(made) ==> made.value() == value,
{
}

/// A plane tells whether it has numbers left, with which it can handle any
/// event.
pub proof fn numbers_left_are_told(
    asked: &ControlPlane,
    left: bool,
    now: MonoTime,
    event: EventView,
    accepted: bool,
)
    requires
        call_ensures(ControlPlane::has_numbers_left, (asked,), left),
    ensures
        left <==> asked@.my_seq < u64::MAX && asked@.spf_generation < u64::MAX
            && asked@.routes.version < u64::MAX,
        left ==> model::has_numbers(asked@, now, event, accepted),
{
}

/// A table has the version and the routes that it is made of, and a cost tells
/// its number.
pub proof fn tables_are_made(
    version: u64,
    routes: OrderedMap<NodeId, Route>,
    made: RouteTable,
    cost: LinkCost,
    number: u16,
)
    requires
        routes.wf(),
        call_ensures(RouteTable::new, (version, routes), made),
        call_ensures(LinkCost::get, (cost,), number),
    ensures
        made.wf(),
        made@.version == version,
        made@.routes == routes@,
        number == cost.value(),
{
}

/// A plane that has a signer announces what the signer makes of the announcement
/// of its links, and nothing else: that is what it holds and sends.
pub proof fn secured_planes_announce_what_is_signed(
    used: &mut ControlPlane,
    now: MonoTime,
    event: ControlEvent,
    actions: Vec<ControlAction>,
)
    requires
        call_ensures(<ControlPlane as Component>::handle, (used, now, event), actions),
        announcements::calls_for_announcement(old(used)@, event@),
        old(used)@.adjacencies.dom().finite(),
        old(used)@.my_seq < u64::MAX,
    ensures
        exists|signed: MessageView| #[trigger]
            old(used).may_sign(model::own_lsa(model::origination(old(used)@, event@)->0), signed)
                && (final(used)@, message::views(actions@)) == model::transition(
                old(used)@,
                now,
                event@,
                signed,
                true,
            ),
{
    let before = *old(used);
    announcements::announcements_list_the_links(before@, event@);
    let (s, v) = choose|signed: MessageView, accepted: bool|
        {
            &&& #[trigger] before.may_answer(event@, signed)
            &&& #[trigger] before.may_say(event@, accepted)
            &&& (final(used)@, message::views(actions@)) == model::transition(
                before@,
                now,
                event@,
                signed,
                accepted,
            )
        };
    assert(before.may_sign(model::own_lsa(model::origination(before@, event@)->0), s));
}

/// An announcement that the verifier cannot but accept is handled as one that is
/// accepted.
pub proof fn accepted_announcements_count(
    used: &mut ControlPlane,
    now: MonoTime,
    event: ControlEvent,
    actions: Vec<ControlAction>,
    link: LinkId,
    message: MessageView,
    signed: MessageView,
)
    requires
        call_ensures(<ControlPlane as Component>::handle, (used, now, event), actions),
        event@ == (EventView::Frame { link, frame: FrameView::Lsa(message) }),
        !old(used).may_judge(message, false),
    ensures
        (final(used)@, message::views(actions@)) == announcements::heard(
            old(used)@,
            now,
            link,
            message,
            signed,
            true,
        ),
{
    let before = *old(used);
    let (s, v) = choose|signed: MessageView, accepted: bool|
        {
            &&& #[trigger] before.may_answer(event@, signed)
            &&& #[trigger] before.may_say(event@, accepted)
            &&& (final(used)@, message::views(actions@)) == model::transition(
                before@,
                now,
                event@,
                signed,
                accepted,
            )
        };
    if !v {
        assert(model::judgement(before@, event@) is None || before.may_judge(message, v));
    }
}

} // verus!
