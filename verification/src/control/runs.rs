//! What holds of a control plane over many events.

use vstd::prelude::*;
use crate::control::laws;
use crate::control::message::{ActionView, ControlTimer, EventView, LsaView, MessageView};
use crate::control::model;
use crate::control::model::{LocalAdjacency, PlaneView, DEFAULT_LSA_TTL_SEC};
use crate::types::{LinkId, MonoTime, NodeId};

verus! {

/// One event of a run, with the answers of the signer and the verifier.
#[verifier::ext_equal]
pub struct Step {
    pub now: MonoTime,
    pub event: EventView,
    pub signed: MessageView,
    pub accepted: bool,
}

/// The state after one event.
pub open spec fn next(p: PlaneView, step: Step) -> PlaneView {
    model::transition(p, step.now, step.event, step.signed, step.accepted).0
}

/// The state after many events.
pub open spec fn after(p: PlaneView, steps: Seq<Step>) -> PlaneView
    decreases steps.len(),
{
    if steps.len() == 0 {
        p
    } else {
        next(after(p, steps.drop_last()), steps.last())
    }
}

/// The event exhausts no counter, and there is room for the own announcement.
pub open spec fn can_happen(p: PlaneView, step: Step) -> bool {
    &&& model::has_numbers(p, step.now, step.event, step.accepted)
    &&& model::origination(p, step.event) is Some ==> model::fits(p.lsdb, step.signed.lsa.origin)
}

/// The events can happen one after the other.
pub open spec fn is_run(p: PlaneView, steps: Seq<Step>) -> bool
    decreases steps.len(),
{
    steps.len() > 0 ==> is_run(p, steps.drop_last()) && can_happen(
        after(p, steps.drop_last()),
        steps.last(),
    )
}

/// Signing keeps the announcement as it is.
pub open spec fn is_faithful(p: PlaneView, step: Step) -> bool {
    model::origination(p, step.event) matches Some(ready) ==> step.signed.lsa == model::own_lsa(
        ready,
    )
}

/// Signing keeps every announcement as it is.
pub open spec fn all_faithful(p: PlaneView, steps: Seq<Step>) -> bool
    decreases steps.len(),
{
    steps.len() > 0 ==> all_faithful(p, steps.drop_last()) && is_faithful(
        after(p, steps.drop_last()),
        steps.last(),
    )
}

/// What the signer gives back is news: of an origin that is not known, or newer
/// than what is known of it.
pub open spec fn signs_news(p: PlaneView, step: Step) -> bool {
    model::origination(p, step.event) is Some ==> model::is_news(p.lsdb, step.signed.lsa)
}

/// What the signer gives back is always news.
pub open spec fn all_sign_news(p: PlaneView, steps: Seq<Step>) -> bool
    decreases steps.len(),
{
    steps.len() > 0 ==> all_sign_news(p, steps.drop_last()) && signs_news(
        after(p, steps.drop_last()),
        steps.last(),
    )
}

/// The links whose last event says that they are up, and where they lead.
pub open spec fn links_up(steps: Seq<Step>) -> Map<LinkId, LocalAdjacency>
    decreases steps.len(),
{
    if steps.len() == 0 {
        Map::empty()
    } else {
        let before = links_up(steps.drop_last());
        match steps.last().event {
            EventView::LinkUp { link, peer, cost } => before.insert(
                link,
                LocalAdjacency { peer, cost },
            ),
            EventView::LinkDown { link } => before.remove(link),
            _ => before,
        }
    }
}

/// Whatever happens, a state that can be reached is valid.
pub proof fn runs_stay_valid(p: PlaneView, steps: Seq<Step>)
    requires
        model::is_valid(p),
        is_run(p, steps),
    ensures
        model::is_valid(after(p, steps)),
    decreases steps.len(),
{
    if steps.len() > 0 {
        runs_stay_valid(p, steps.drop_last());
        let s = steps.last();
        let before = after(p, steps.drop_last());
        laws::validity_is_kept(before, s.now, s.event, s.signed, s.accepted);
    }
}

/// A control plane knows exactly the links that are up, with the peer and the
/// cost that each came up with last.
pub proof fn links_are_those_that_are_up(me: NodeId, epoch: u32, last_seq: u64, steps: Seq<Step>)
    ensures
        after(model::initial(me, epoch, last_seq), steps).adjacencies == links_up(steps),
        after(model::initial(me, epoch, last_seq), steps).me == me,
        after(model::initial(me, epoch, last_seq), steps).epoch == epoch,
        links_up(steps).dom().finite(),
    decreases steps.len(),
{
    if steps.len() > 0 {
        links_are_those_that_are_up(me, epoch, last_seq, steps.drop_last());
        let before = after(model::initial(me, epoch, last_seq), steps.drop_last());
        let now = after(model::initial(me, epoch, last_seq), steps);
        assert(now.adjacencies =~= links_up(steps));
    }
}

/// At any time the own announcement in force is that of the links that are up:
/// one edge for each of their peers, by ascending peer, at the least cost. It
/// has the own epoch, the number that was used last, and the usual lifetime.
pub proof fn own_announcement_lists_what_is_up(
    me: NodeId,
    epoch: u32,
    last_seq: u64,
    steps: Seq<Step>,
)
    requires
        all_faithful(model::initial(me, epoch, last_seq), steps),
    ensures
        ({
            let p = after(model::initial(me, epoch, last_seq), steps);
            model::is_active(p.lsdb, me) ==> model::message_of(p.lsdb, me).lsa == (LsaView {
                origin: me,
                epoch,
                seq: p.my_seq,
                ttl_sec: DEFAULT_LSA_TTL_SEC,
                adjacencies: model::advertised(links_up(steps)),
            })
        }),
        laws::announces_its_links(after(model::initial(me, epoch, last_seq), steps)),
    decreases steps.len(),
{
    links_are_those_that_are_up(me, epoch, last_seq, steps);
    if steps.len() > 0 {
        own_announcement_lists_what_is_up(me, epoch, last_seq, steps.drop_last());
        let s = steps.last();
        let before = after(model::initial(me, epoch, last_seq), steps.drop_last());
        laws::own_announcement_is_kept_current(before, s.now, s.event, s.signed, s.accepted);
    }
}

/// Where signing keeps announcements as they are, what is signed is always
/// news.
pub proof fn faithful_signing_is_news(p: PlaneView, steps: Seq<Step>)
    requires
        laws::knows_itself(p),
        is_run(p, steps),
        all_faithful(p, steps),
    ensures
        all_sign_news(p, steps),
        laws::knows_itself(after(p, steps)),
    decreases steps.len(),
{
    if steps.len() > 0 {
        faithful_signing_is_news(p, steps.drop_last());
        let s = steps.last();
        let before = after(p, steps.drop_last());
        laws::self_knowledge_is_kept(before, s.now, s.event, s.signed, s.accepted);
    }
}

/// The event brings an announcement of the origin into force: an own one, or
/// one that a peer sent.
pub open spec fn installs(p: PlaneView, step: Step, origin: NodeId, version: (u32, u64)) -> bool {
    &&& model::is_expired(next(p, step).lsdb, origin) == Some(false)
    &&& next(p, step).lsdb[origin].version == version
    &&& model::message_of(next(p, step).lsdb, origin).lsa.version() == version
    &&& p.lsdb.contains_key(origin) ==> model::is_after(version, p.lsdb[origin].version)
}

/// An event leaves an origin that is not known unknown, or brings an
/// announcement of it into force. It leaves an origin that has expired as it
/// is, or brings a newer announcement of it into force.
pub proof fn origins_change_by_announcements(p: PlaneView, step: Step, origin: NodeId)
    requires
        signs_news(p, step),
        model::is_expired(p.lsdb, origin) != Some(false),
    ensures
        ({
            let q = next(p, step);
            ||| model::is_expired(q.lsdb, origin) == model::is_expired(p.lsdb, origin) && (
            p.lsdb.contains_key(origin) ==> q.lsdb[origin] == p.lsdb[origin])
            ||| installs(p, step, origin, q.lsdb[origin].version)
        }),
{
}

/// An origin that is known stays known, and the version known of it never goes
/// back, however much happens.
pub proof fn origins_are_never_forgotten(p: PlaneView, steps: Seq<Step>, origin: NodeId)
    requires
        all_sign_news(p, steps),
        model::is_expired(p.lsdb, origin) is Some,
    ensures
        model::is_expired(after(p, steps).lsdb, origin) is Some,
        !model::is_after(p.lsdb[origin].version, after(p, steps).lsdb[origin].version),
    decreases steps.len(),
{
    if steps.len() > 0 {
        origins_are_never_forgotten(p, steps.drop_last(), origin);
        let before = after(p, steps.drop_last());
        versions_advance(before, steps.last(), origin);
    }
}

/// The version known of an origin stays or becomes newer.
proof fn versions_advance(p: PlaneView, step: Step, origin: NodeId)
    requires
        signs_news(p, step),
        p.lsdb.contains_key(origin),
    ensures
        next(p, step).lsdb.contains_key(origin),
        next(p, step).lsdb[origin].version == p.lsdb[origin].version || model::is_after(
            next(p, step).lsdb[origin].version,
            p.lsdb[origin].version,
        ),
{
}

/// An announcement that has expired stays expired, however much happens, unless
/// a newer version of it has come.
pub proof fn expired_stays_expired(p: PlaneView, steps: Seq<Step>, origin: NodeId)
    requires
        all_sign_news(p, steps),
        model::is_expired(p.lsdb, origin) == Some(true),
    ensures
        model::is_expired(after(p, steps).lsdb, origin) == Some(true) && after(
            p,
            steps,
        ).lsdb[origin].version == p.lsdb[origin].version || model::is_after(
            after(p, steps).lsdb[origin].version,
            p.lsdb[origin].version,
        ),
    decreases steps.len(),
{
    if steps.len() > 0 {
        expired_stays_expired(p, steps.drop_last(), origin);
        origins_are_never_forgotten(p, steps.drop_last(), origin);
        let before = after(p, steps.drop_last());
        versions_advance(before, steps.last(), origin);
        if model::is_expired(before.lsdb, origin) == Some(true) {
            origins_change_by_announcements(before, steps.last(), origin);
        }
    }
}

/// What a hold timer does: nothing if its computation is not the one that is
/// due, another timer if it comes too early, and otherwise the computation,
/// which publishes routes at most once.
pub proof fn hold_timers_compute_once(
    p: PlaneView,
    now: MonoTime,
    generation: u64,
    signed: MessageView,
    accepted: bool,
)
    ensures
        ({
            let event = EventView::Timer(ControlTimer::SpfHold { generation });
            let (q, actions) = model::transition(p, now, event, signed, accepted);
            match p.pending_spf {
                None => q == p && actions == Seq::<ActionView>::empty(),
                Some(pending) => if pending.generation != generation {
                    q == p && actions == Seq::<ActionView>::empty()
                } else if now.millis() < pending.at.millis() {
                    q == p && actions == seq![
                        ActionView::SetTimer {
                            timer: ControlTimer::SpfHold { generation },
                            at: pending.at,
                        },
                    ]
                } else {
                    &&& q.pending_spf is None
                    &&& q.spf_generation == p.spf_generation
                    &&& q.routes.routes == model::best_routes(p)
                    &&& actions.len() <= 1
                    &&& actions.len() == 1 ==> actions[0] == ActionView::PublishRoutes(q.routes)
                    &&& actions.len() == 0 <==> model::best_routes(p) == p.routes.routes
                },
            }
        }),
{
}

/// No computation up to this generation is due, nor will be.
pub open spec fn is_past(p: PlaneView, generation: u64) -> bool {
    &&& p.spf_generation >= generation
    &&& p.pending_spf matches Some(pending) ==> pending.generation > generation
}

/// What is past stays past.
proof fn past_stays_past(p: PlaneView, steps: Seq<Step>, generation: u64)
    requires
        is_past(p, generation),
        is_run(p, steps),
    ensures
        is_past(after(p, steps), generation),
    decreases steps.len(),
{
    if steps.len() > 0 {
        past_stays_past(p, steps.drop_last(), generation);
    }
}

/// Once a hold timer has led to a computation, timers of its generation never
/// have an effect again, whatever happens in between.
pub proof fn computed_generations_are_over(
    p: PlaneView,
    now: MonoTime,
    generation: u64,
    signed: MessageView,
    accepted: bool,
    steps: Seq<Step>,
    later: MonoTime,
)
    requires
        model::is_valid(p),
        model::spf_runs(p, now, generation),
        is_run(
            model::transition(
                p,
                now,
                EventView::Timer(ControlTimer::SpfHold { generation }),
                signed,
                accepted,
            ).0,
            steps,
        ),
    ensures
        ({
            let event = EventView::Timer(ControlTimer::SpfHold { generation });
            let computed = model::transition(p, now, event, signed, accepted).0;
            let q = after(computed, steps);
            model::transition(q, later, event, signed, accepted) == (q, Seq::<ActionView>::empty())
        }),
{
    let event = EventView::Timer(ControlTimer::SpfHold { generation });
    let computed = model::transition(p, now, event, signed, accepted).0;
    past_stays_past(computed, steps, generation);
    laws::stale_hold_timers_have_no_effect(
        after(computed, steps),
        later,
        generation,
        signed,
        accepted,
    );
}

} // verus!
