//! What becomes of announcements: when they are taken in, passed on, answered,
//! made, and how long they last.

use vstd::prelude::*;
use crate::control::cost::Adjacency;
use crate::control::laws;
use crate::control::message::{ActionView, ControlTimer, EventView, FrameView, LsaView};
use crate::control::message::MessageView;
use crate::control::model;
use crate::control::model::{EntryView, LocalAdjacency, PlaneView};
use crate::control::runs;
use crate::control::runs::Step;
use crate::order;
use crate::order::Key;
use crate::types::{LinkId, MonoTime, NodeId};

verus! {

/// The time is that many milliseconds after another, or the last there is.
pub open spec fn is_in(at: MonoTime, now: MonoTime, millis: int) -> bool {
    at.millis() == if now.millis() + millis <= u64::MAX {
        now.millis() + millis
    } else {
        u64::MAX as int
    }
}

/// One version of an origin's announcement is newer than another: by its epoch,
/// and within one epoch by its number.
pub open spec fn is_newer(epoch: u32, seq: u64, than: (u32, u64)) -> bool {
    epoch > than.0 || (epoch == than.0 && seq > than.1)
}

/// Its lifetime is one second to an hour, and it has no more than 256 edges.
pub open spec fn is_within_bounds(lsa: LsaView) -> bool {
    1 <= lsa.ttl_sec <= 3_600 && lsa.adjacencies.len() <= 256
}

/// An announcement is news to a node that has room for it: it came over a link
/// that is up, is within its bounds, is another node's, is newer than what is
/// known of that node, and is not one origin more than a thousand.
pub open spec fn is_welcome(p: PlaneView, link: LinkId, lsa: LsaView) -> bool {
    &&& p.adjacencies.contains_key(link)
    &&& is_within_bounds(lsa)
    &&& lsa.origin != p.me
    &&& if p.lsdb.contains_key(lsa.origin) {
        is_newer(lsa.epoch, lsa.seq, p.lsdb[lsa.origin].version)
    } else {
        p.lsdb.dom().len() < 1_000
    }
}

/// What a node does with an announcement that came over a link.
pub open spec fn heard(
    p: PlaneView,
    now: MonoTime,
    link: LinkId,
    message: MessageView,
    signed: MessageView,
    accepted: bool,
) -> (PlaneView, Seq<ActionView>) {
    model::transition(
        p,
        now,
        EventView::Frame { link, frame: FrameView::Lsa(message) },
        signed,
        accepted,
    )
}

/// Asks to be told of the end of an announcement.
pub open spec fn end_timer(lsa: LsaView, at: MonoTime) -> ActionView {
    ActionView::SetTimer {
        timer: ControlTimer::LsaExpire { origin: lsa.origin, epoch: lsa.epoch, seq: lsa.seq },
        at,
    }
}

/// The entry holds the announcement, as one that came at a time and lasts for
/// as many seconds as it says.
pub open spec fn holds_since(entry: EntryView, now: MonoTime, message: MessageView) -> bool {
    &&& entry.version == (message.lsa.epoch, message.lsa.seq)
    &&& entry.active matches Some(active) && {
        &&& active.message == message
        &&& active.received_at == now
        &&& is_in(active.expires_at, now, 1_000 * message.lsa.ttl_sec)
    }
}

/// An announcement that is news is in force from then on, in place of what was
/// known of its origin, and its end is asked for at the time that its lifetime
/// gives. Nothing else that the node knows changes.
pub proof fn news_is_taken_in(
    p: PlaneView,
    now: MonoTime,
    link: LinkId,
    message: MessageView,
    signed: MessageView,
)
    requires
        is_welcome(p, link, message.lsa),
    ensures
        ({
            let (q, actions) = heard(p, now, link, message, signed, true);
            let origin = message.lsa.origin;
            &&& q.lsdb.contains_key(origin)
            &&& holds_since(q.lsdb[origin], now, message)
            &&& actions.contains(end_timer(message.lsa, q.lsdb[origin].active->0.expires_at))
            &&& forall|other: NodeId|
                #![trigger q.lsdb[other]]
                #![trigger q.lsdb.contains_key(other)]
                other != origin ==> {
                    &&& q.lsdb.contains_key(other) == p.lsdb.contains_key(other)
                    &&& q.lsdb[other] == p.lsdb[other]
                }
            &&& q.me == p.me && q.epoch == p.epoch && q.my_seq == p.my_seq
            &&& q.adjacencies == p.adjacencies
            &&& q.routes == p.routes
        }),
{
    broadcast use MonoTime::at_millis;

    let actions = heard(p, now, link, message, signed, true).1;
    let n = model::flood(p.adjacencies, message, Some(link)).len() as int;
    assert(actions[n] == model::expiry(now, message.lsa));
}

/// News is passed on over every link that is up but the one it came over, as it
/// came, and nothing else is sent.
pub proof fn news_is_passed_on(
    p: PlaneView,
    now: MonoTime,
    incoming: LinkId,
    message: MessageView,
    signed: MessageView,
    link: LinkId,
    frame: FrameView,
)
    requires
        p.adjacencies.dom().finite(),
        is_welcome(p, incoming, message.lsa),
    ensures
        heard(p, now, incoming, message, signed, true).1.contains(ActionView::Send { link, frame })
            <==> p.adjacencies.contains_key(link) && link != incoming && frame == FrameView::Lsa(
            message,
        ),
{
    laws::news_is_flooded_but_not_echoed(p, now, incoming, message, signed, link);
    let actions = heard(p, now, incoming, message, signed, true).1;
    let action = ActionView::Send { link, frame };
    if actions.contains(action) {
        let k = choose|k: int| 0 <= k < actions.len() && actions[k] == action;
        assert(frame == FrameView::Lsa(message));
    }
}

/// News goes out over the links by ascending number.
pub proof fn news_is_passed_on_in_order(
    p: PlaneView,
    now: MonoTime,
    incoming: LinkId,
    message: MessageView,
    signed: MessageView,
    i: int,
    j: int,
)
    requires
        p.adjacencies.dom().finite(),
        is_welcome(p, incoming, message.lsa),
        0 <= i < j < heard(p, now, incoming, message, signed, true).1.len(),
    ensures
        ({
            let actions = heard(p, now, incoming, message, signed, true).1;
            actions[j] is Send ==> actions[i] is Send && actions[i]->Send_link.value()
                < actions[j]->Send_link.value()
        }),
{
    let actions = heard(p, now, incoming, message, signed, true).1;
    let links = order::finite_sets_are_listed::<LinkId>(
        model::targets(p.adjacencies, Some(incoming)),
    );
    let sent = model::flood(p.adjacencies, message, Some(incoming));
    if j < sent.len() {
        assert(actions[i] == sent[i] && actions[j] == sent[j]);
        assert(LinkId::before(links[i], links[j]));
    }
}

/// An announcement that is no news, or that is refused, changes nothing. It is
/// answered if what is in force is newer, with that alone.
pub proof fn old_announcements_are_corrected(
    p: PlaneView,
    now: MonoTime,
    link: LinkId,
    message: MessageView,
    signed: MessageView,
    accepted: bool,
)
    requires
        !(accepted && is_welcome(p, link, message.lsa)),
    ensures
        ({
            let (q, actions) = heard(p, now, link, message, signed, accepted);
            let origin = message.lsa.origin;
            let known = p.lsdb[origin];
            &&& q == p
            &&& if accepted && p.adjacencies.contains_key(link) && is_within_bounds(message.lsa)
                && p.lsdb.contains_key(origin) && known.active is Some && is_newer(
                known.version.0,
                known.version.1,
                (message.lsa.epoch, message.lsa.seq),
            ) {
                actions == seq![
                    ActionView::Send { link, frame: FrameView::Lsa(known.active->0.message) },
                ]
            } else {
                actions == Seq::<ActionView>::empty()
            }
        }),
{
}

/// The event tells nothing of the origin, and is not the end of its
/// announcement: whatever comes does so before the time is over.
pub open spec fn is_silent_of(step: Step, origin: NodeId, until: MonoTime) -> bool {
    &&& step.signed.lsa.origin != origin
    &&& match step.event {
        EventView::Frame { frame: FrameView::Lsa(message), .. } => message.lsa.origin != origin,
        EventView::Timer(ControlTimer::LsaExpire { origin: other, .. }) => other == origin
            ==> step.now.millis() < until.millis(),
        _ => true,
    }
}

/// As long as its time is not over and nothing is heard of its origin, an
/// announcement stays in force as it is, whatever else happens.
pub proof fn announcements_stay(p: PlaneView, steps: Seq<Step>, origin: NodeId)
    requires
        p.lsdb.contains_key(origin),
        p.lsdb[origin].active is Some,
        forall|i: int|
            0 <= i < steps.len() ==> is_silent_of(
                #[trigger] steps[i],
                origin,
                p.lsdb[origin].active->0.expires_at,
            ),
    ensures
        runs::after(p, steps).lsdb.contains_key(origin),
        runs::after(p, steps).lsdb[origin] == p.lsdb[origin],
    decreases steps.len(),
{
    if steps.len() > 0 {
        let less = steps.drop_last();
        assert forall|i: int| 0 <= i < less.len() implies is_silent_of(
            #[trigger] less[i],
            origin,
            p.lsdb[origin].active->0.expires_at,
        ) by {
            assert(less[i] == steps[i]);
        }
        announcements_stay(p, less, origin);
        let last = steps[steps.len() - 1];
        assert(is_silent_of(last, origin, p.lsdb[origin].active->0.expires_at));
    }
}

/// What the timer of the end of an announcement does, where the announcement is
/// the one in force: before its time nothing but asking for the timer again at
/// that time, and from then on the announcement is over. Its version stays
/// known, so that it does not come back.
pub proof fn announcements_end_at_their_time(
    p: PlaneView,
    now: MonoTime,
    origin: NodeId,
    epoch: u32,
    seq: u64,
    signed: MessageView,
    accepted: bool,
)
    requires
        p.lsdb.contains_key(origin),
        p.lsdb[origin].active is Some,
        p.lsdb[origin].version == (epoch, seq),
    ensures
        ({
            let timer = ControlTimer::LsaExpire { origin, epoch, seq };
            let (q, actions) = model::transition(
                p,
                now,
                EventView::Timer(timer),
                signed,
                accepted,
            );
            let end = p.lsdb[origin].active->0.expires_at;
            if now.millis() < end.millis() {
                &&& q == p
                &&& actions == seq![ActionView::SetTimer { timer, at: end }]
            } else {
                &&& q.lsdb.contains_key(origin)
                &&& q.lsdb[origin].active is None
                &&& q.lsdb[origin].version == (epoch, seq)
                &&& q.lsdb.remove(origin) == p.lsdb.remove(origin)
                &&& q.adjacencies == p.adjacencies && q.my_seq == p.my_seq && q.routes == p.routes
                &&& forall|i: int|
                    0 <= i < actions.len() ==> (#[trigger] actions[i]) is SetTimer
            }
        }),
{
    let q = model::transition(
        p,
        now,
        EventView::Timer(ControlTimer::LsaExpire { origin, epoch, seq }),
        signed,
        accepted,
    ).0;
    if now.millis() >= p.lsdb[origin].active->0.expires_at.millis() {
        assert(q.lsdb.remove(origin) =~= p.lsdb.remove(origin));
    }
}

/// An announcement that is heard at a time and not followed by another is in
/// force until as many seconds have gone by as it says, and over when its timer
/// comes then or later.
pub proof fn announcements_live_as_long_as_they_say(
    p: PlaneView,
    now: MonoTime,
    link: LinkId,
    message: MessageView,
    signed: MessageView,
    steps: Seq<Step>,
    end: MonoTime,
    later: MonoTime,
)
    requires
        is_welcome(p, link, message.lsa),
        is_in(end, now, 1_000 * message.lsa.ttl_sec),
        forall|i: int|
            0 <= i < steps.len() ==> is_silent_of(
                #[trigger] steps[i],
                message.lsa.origin,
                end,
            ),
    ensures
        ({
            let (q, actions) = heard(p, now, link, message, signed, true);
            let origin = message.lsa.origin;
            let then = runs::after(q, steps);
            let timer = ControlTimer::LsaExpire {
                origin,
                epoch: message.lsa.epoch,
                seq: message.lsa.seq,
            };
            let last = model::transition(
                then,
                later,
                EventView::Timer(timer),
                signed,
                true,
            ).0;
            &&& actions.contains(ActionView::SetTimer { timer, at: end })
            &&& then.lsdb.contains_key(origin)
            &&& then.lsdb[origin].active matches Some(active) && active.message == message
            &&& last.lsdb.contains_key(origin)
            &&& last.lsdb[origin].active is Some <==> later.millis() < end.millis()
        }),
{
    news_is_taken_in(p, now, link, message, signed);
    let q = heard(p, now, link, message, signed, true).0;
    let origin = message.lsa.origin;
    MonoTime::same_millis(q.lsdb[origin].active->0.expires_at, end);
    announcements_stay(q, steps, origin);
    announcements_end_at_their_time(
        runs::after(q, steps),
        later,
        origin,
        message.lsa.epoch,
        message.lsa.seq,
        signed,
        true,
    );
}

/// The links that are up after an event.
pub open spec fn links_after(
    adjacencies: Map<LinkId, LocalAdjacency>,
    event: EventView,
) -> Map<LinkId, LocalAdjacency> {
    match event {
        EventView::LinkUp { link, peer, cost } => adjacencies.insert(
            link,
            LocalAdjacency { peer, cost },
        ),
        EventView::LinkDown { link } => adjacencies.remove(link),
        _ => adjacencies,
    }
}

/// The event makes a node announce itself anew: a link comes up, a link that
/// was up goes down, or the time has come to refresh the announcement in force.
pub open spec fn calls_for_announcement(p: PlaneView, event: EventView) -> bool {
    match event {
        EventView::LinkUp { .. } => true,
        EventView::LinkDown { link } => p.adjacencies.contains_key(link),
        EventView::Timer(ControlTimer::LsaRefresh { epoch, seq }) => {
            &&& p.lsdb.contains_key(p.me)
            &&& p.lsdb[p.me].active is Some
            &&& p.lsdb[p.me].version == (epoch, seq)
        },
        _ => false,
    }
}

/// The edge is one of the links.
pub open spec fn is_some_link(adjacencies: Map<LinkId, LocalAdjacency>, edge: Adjacency) -> bool {
    exists|link: LinkId| #[trigger]
        adjacencies.contains_key(link) && adjacencies[link].peer == edge.peer
            && adjacencies[link].cost == edge.cost
}

/// Some edge leads where the link leads, and costs no more.
pub open spec fn is_listed(edges: Seq<Adjacency>, link: LocalAdjacency) -> bool {
    exists|i: int|
        0 <= i < edges.len() && (#[trigger] edges[i]).peer == link.peer && edges[i].cost.value()
            <= link.cost.value()
}

/// The edges are the links: one for each far end, in ascending order, at the
/// cost of the cheapest link to it.
pub open spec fn are_edges_of(
    edges: Seq<Adjacency>,
    adjacencies: Map<LinkId, LocalAdjacency>,
) -> bool {
    &&& forall|i: int, j: int|
        0 <= i < j < edges.len() ==> NodeId::before(
            (#[trigger] edges[i]).peer,
            (#[trigger] edges[j]).peer,
        )
    &&& forall|i: int|
        0 <= i < edges.len() ==> #[trigger] is_some_link(adjacencies, edges[i])
    &&& forall|link: LinkId|
        adjacencies.contains_key(link) ==> #[trigger] is_listed(edges, adjacencies[link])
}

/// The edges that are announced of links are the links.
pub proof fn announced_edges_are_the_links(up: Map<LinkId, LocalAdjacency>)
    requires
        up.dom().finite(),
    ensures
        are_edges_of(model::advertised(up), up),
{
    let edges = model::advertised(up);
    laws::announced_edges_are_the_cheapest(up);
    assert forall|i: int| 0 <= i < edges.len() implies #[trigger] is_some_link(up, edges[i]) by {
        assert(model::is_cheapest(up, edges[i].peer, edges[i].cost));
        let link = choose|link: LinkId| #[trigger]
            model::leads_to(up, link, edges[i].peer) && up[link].cost == edges[i].cost;
        assert(up.contains_key(link));
    }
    assert forall|link: LinkId| up.contains_key(link) implies #[trigger] is_listed(
        edges,
        up[link],
    ) by {
        let i = choose|i: int| 0 <= i < edges.len() && (#[trigger] edges[i]).peer == up[link].peer;
        assert(model::is_cheapest(up, edges[i].peer, edges[i].cost));
        assert(model::leads_to(up, link, edges[i].peer));
    }
}

/// What a node gives to be signed when it announces itself: its own identity
/// and epoch, the next number, a lifetime of five minutes, and the links that
/// are up then.
pub proof fn announcements_list_the_links(p: PlaneView, event: EventView)
    requires
        p.adjacencies.dom().finite(),
        p.my_seq < u64::MAX,
    ensures
        model::origination(p, event) is Some <==> calls_for_announcement(p, event),
        calls_for_announcement(p, event) ==> {
            let lsa = model::own_lsa(model::origination(p, event)->0);
            &&& lsa.origin == p.me
            &&& lsa.epoch == p.epoch
            &&& lsa.seq == p.my_seq + 1
            &&& lsa.ttl_sec == 300
            &&& are_edges_of(lsa.adjacencies, links_after(p.adjacencies, event))
        },
{
    if calls_for_announcement(p, event) {
        let up = links_after(p.adjacencies, event);
        announced_edges_are_the_links(up);
        assert(model::origination(p, event)->0.adjacencies == up);
    }
}

/// Whatever happens, the links that a node knows are those that it was told are
/// up.
pub proof fn links_follow_events(
    p: PlaneView,
    now: MonoTime,
    event: EventView,
    signed: MessageView,
    accepted: bool,
)
    ensures
        model::transition(p, now, event, signed, accepted).0.adjacencies == links_after(
            p.adjacencies,
            event,
        ),
        model::transition(p, now, event, signed, accepted).0.me == p.me,
        model::transition(p, now, event, signed, accepted).0.epoch == p.epoch,
{
    assert(model::transition(p, now, event, signed, accepted).0.adjacencies =~= links_after(
        p.adjacencies,
        event,
    ));
}

/// What a node does with its own announcement once it is signed: it uses the
/// next number and has it stored before all else, holds the announcement for
/// its lifetime, asks for its end and for its refreshment after a fifth of the
/// lifetime.
pub proof fn own_announcements_are_kept(
    p: PlaneView,
    now: MonoTime,
    event: EventView,
    signed: MessageView,
    accepted: bool,
)
    requires
        calls_for_announcement(p, event),
        p.my_seq < u64::MAX,
    ensures
        ({
            let (q, actions) = model::transition(p, now, event, signed, accepted);
            let origin = signed.lsa.origin;
            &&& q.my_seq == p.my_seq + 1
            &&& actions.len() > 0
            &&& actions[0] == ActionView::PersistSeq(q.my_seq)
            &&& q.lsdb.contains_key(origin)
            &&& holds_since(q.lsdb[origin], now, signed)
            &&& q.lsdb.remove(origin) == p.lsdb.remove(origin)
            &&& actions.contains(end_timer(signed.lsa, q.lsdb[origin].active->0.expires_at))
            &&& exists|at: MonoTime|
                is_in(at, now, 200 * signed.lsa.ttl_sec) && #[trigger] actions.contains(
                    ActionView::SetTimer {
                        timer: ControlTimer::LsaRefresh {
                            epoch: signed.lsa.epoch,
                            seq: signed.lsa.seq,
                        },
                        at,
                    },
                )
            &&& q.routes == p.routes
        }),
{
    broadcast use MonoTime::at_millis;

    let (q, actions) = model::transition(p, now, event, signed, accepted);
    let ready = model::origination(p, event)->0;
    laws::sequence_is_stored_first(p, now, event, signed, accepted);
    let n = model::flood(ready.adjacencies, signed, None).len() as int;
    let adopted = model::adopt(ready, now, signed).1;
    assert(adopted[n + 1] == model::expiry(now, signed.lsa));
    assert(adopted[n + 2] == model::refresh(now, signed.lsa));
    assert(actions[n + 1] == adopted[n + 1]);
    assert(actions[n + 2] == adopted[n + 2]);
    assert(q.lsdb.remove(signed.lsa.origin) =~= p.lsdb.remove(signed.lsa.origin));
    let at = now.later((model::ttl_ms(signed.lsa) / 5) as u64);
    assert(is_in(at, now, 200 * signed.lsa.ttl_sec));
    assert(actions.contains(
        ActionView::SetTimer {
            timer: ControlTimer::LsaRefresh { epoch: signed.lsa.epoch, seq: signed.lsa.seq },
            at,
        },
    ));
}

/// An own announcement goes out over every link that is up then. Over a link
/// that comes up a digest goes out too, and nothing else is sent.
pub proof fn own_announcements_are_sent(
    p: PlaneView,
    now: MonoTime,
    event: EventView,
    signed: MessageView,
    accepted: bool,
    link: LinkId,
    frame: FrameView,
)
    requires
        p.adjacencies.dom().finite(),
        calls_for_announcement(p, event),
    ensures
        ({
            let (q, actions) = model::transition(p, now, event, signed, accepted);
            actions.contains(ActionView::Send { link, frame }) <==> {
                ||| q.adjacencies.contains_key(link) && frame == FrameView::Lsa(signed)
                ||| event matches EventView::LinkUp { link: up, .. } && up == link && frame
                    == FrameView::Digest(model::digest(q.lsdb))
            }
        }),
{
    let (q, actions) = model::transition(p, now, event, signed, accepted);
    let ready = model::origination(p, event)->0;
    let links = order::finite_sets_are_listed::<LinkId>(
        model::targets(ready.adjacencies, None),
    );
    let sent = model::flood(ready.adjacencies, signed, None);
    let n = sent.len() as int;
    let adopted = model::adopt(ready, now, signed).1;
    let action = ActionView::Send { link, frame };
    assert(links.contains(link) <==> ready.adjacencies.contains_key(link));
    if actions.contains(action) {
        let k = choose|k: int| 0 <= k < actions.len() && actions[k] == action;
        if 1 <= k <= n {
            assert(actions[k] == adopted[k]);
            assert(adopted[k] == sent[k - 1]);
            assert(sent[k - 1] == model::send_lsa(links[k - 1], signed));
            assert(links.contains(links[k - 1]));
        } else if k < adopted.len() {
            assert(actions[k] == adopted[k]);
        }
    }
    if q.adjacencies.contains_key(link) && frame == FrameView::Lsa(signed) {
        let k = choose|k: int| 0 <= k < links.len() && links[k] == link;
        assert(sent[k] == action);
        assert(adopted[k + 1] == action);
        assert(actions[k + 1] == action);
    }
    match event {
        EventView::LinkUp { link: up, .. } => {
            let m = adopted.len() as int;
            assert(actions[m] == model::send_digest(up, q.lsdb));
        },
        _ => {},
    }
}

/// The next digest over a link that comes up is asked for ten seconds later.
pub proof fn links_get_digests(
    p: PlaneView,
    now: MonoTime,
    event: EventView,
    signed: MessageView,
    accepted: bool,
)
    requires
        event is LinkUp,
    ensures
        ({
            let actions = model::transition(p, now, event, signed, accepted).1;
            &&& actions.len() > 0
            &&& actions.last() matches ActionView::SetTimer { timer, at }
            &&& timer == ControlTimer::Digest(event->LinkUp_link)
            &&& is_in(at, now, 10_000)
        }),
{
    broadcast use MonoTime::at_millis;

}

/// Nothing but an announcement of its own makes a node use a number or change
/// its links.
pub proof fn other_events_announce_nothing(
    p: PlaneView,
    now: MonoTime,
    event: EventView,
    signed: MessageView,
    accepted: bool,
)
    requires
        !calls_for_announcement(p, event),
    ensures
        ({
            let (q, actions) = model::transition(p, now, event, signed, accepted);
            &&& q.my_seq == p.my_seq
            &&& q.adjacencies == p.adjacencies
            &&& forall|i: int|
                0 <= i < actions.len() ==> !((#[trigger] actions[i]) is PersistSeq)
            &&& event is LinkDown || (event matches EventView::Timer(
                ControlTimer::LsaRefresh { .. },
            )) ==> q == p && actions.len() == 0
        }),
{
}

/// The database was not changed for ten seconds.
pub open spec fn was_still(p: PlaneView, now: MonoTime) -> bool {
    p.last_lsdb_change_at matches Some(last) && now.millis() - last.millis() >= 10_000
}

/// Whatever changes what a node knows makes it compute its routes: when the
/// hold is over, or with a computation that is due already. After ten still
/// seconds the hold is a tenth of a second again.
pub proof fn changes_lead_to_computations(
    p: PlaneView,
    now: MonoTime,
    event: EventView,
    signed: MessageView,
    accepted: bool,
)
    requires
        model::has_numbers(p, now, event, accepted),
        model::transition(p, now, event, signed, accepted).0.lsdb != p.lsdb,
    ensures
        ({
            let (q, actions) = model::transition(p, now, event, signed, accepted);
            &&& q.last_lsdb_change_at == Some(now)
            &&& q.spf_hold_ms == if was_still(p, now) {
                100
            } else {
                p.spf_hold_ms
            }
            &&& if p.pending_spf is Some && !was_still(p, now) {
                q.pending_spf == p.pending_spf && q.spf_generation == p.spf_generation
            } else {
                &&& q.spf_generation == p.spf_generation + 1
                &&& q.pending_spf matches Some(pending) && {
                    &&& pending.generation == q.spf_generation
                    &&& is_in(pending.at, now, q.spf_hold_ms as int)
                    &&& actions.contains(
                        ActionView::SetTimer {
                            timer: ControlTimer::SpfHold { generation: pending.generation },
                            at: pending.at,
                        },
                    )
                }
            }
        }),
{
    broadcast use MonoTime::at_millis;

    let (q, actions) = model::transition(p, now, event, signed, accepted);
    if !(p.pending_spf is Some && !was_still(p, now)) {
        let timer = ActionView::SetTimer {
            timer: ControlTimer::SpfHold { generation: q.spf_generation },
            at: q.pending_spf->0.at,
        };
        match model::origination(p, event) {
            Some(ready) => {
                let adopted = model::adopt(ready, now, signed).1;
                let m = adopted.len() - 1;
                assert(adopted[m] == timer);
                assert(actions[m] == timer);
            },
            None => {
                assert(actions[actions.len() - 1] == timer);
            },
        }
    }
}

/// While a node knows the same, no computation of its routes is asked for, and
/// none that is due is put off.
pub proof fn still_databases_ask_for_nothing(
    p: PlaneView,
    now: MonoTime,
    event: EventView,
    signed: MessageView,
    accepted: bool,
)
    requires
        !calls_for_announcement(p, event),
        model::transition(p, now, event, signed, accepted).0.lsdb == p.lsdb,
        !(event matches EventView::Timer(ControlTimer::SpfHold { .. })),
    ensures
        model::transition(p, now, event, signed, accepted).0 == p,
{
    match event {
        EventView::Frame { link, frame: FrameView::Lsa(message) } => {
            if accepted && is_welcome(p, link, message.lsa) {
                let origin = message.lsa.origin;
                news_is_taken_in(p, now, link, message, signed);
                assert(p.lsdb.contains_key(origin));
            } else {
                old_announcements_are_corrected(p, now, link, message, signed, accepted);
            }
        },
        EventView::Timer(ControlTimer::LsaExpire { origin, epoch, seq }) => {
            if p.lsdb.contains_key(origin) && p.lsdb[origin].active is Some
                && p.lsdb[origin].version == (epoch, seq) {
                announcements_end_at_their_time(p, now, origin, epoch, seq, signed, accepted);
            }
        },
        _ => {},
    }
}

} // verus!
