//! What holds of every run of a runtime.

use vstd::prelude::*;
use crate::control::auth;
use crate::control::laws;
use crate::control::message::{ActionView, EventView, FrameView};
use crate::control::model;
use crate::forward;
use crate::forward::{ForwardActionView, ForwardEventView};
use crate::runtime::codec;
use crate::runtime::driver;
use crate::runtime::driver::{EffectView, InputView, OutcomeView, Reading, RuntimeView};
use crate::runtime::timers;
use crate::runtime::timers::TimerEntry;
use crate::transport::LinkEventView;
use crate::types::{LinkId, MonoTime, NodeId};
use crate::wire::frame::WireView;
use crate::wire::packet;
use crate::wire::packet::PacketView;

verus! {

/// A link to a peer without a cost is closed, and nothing else happens.
pub proof fn unknown_peers_are_refused(v: RuntimeView, now: MonoTime, link: LinkId, peer: NodeId)
    requires
        !v.peer_costs.contains_key(peer),
    ensures
        driver::run(v, now, InputView::Link(LinkEventView::Up { link, peer })) == (
            v,
            seq![EffectView::Close(link)],
        ),
{
}

/// A frame that cannot be read closes its link, and nothing else happens: it
/// reaches neither the control plane nor the forwarder.
pub proof fn unreadable_frames_close_their_link(
    v: RuntimeView,
    now: MonoTime,
    link: LinkId,
    frame: WireView,
)
    requires
        codec::control_read(frame) is Err,
        codec::forward_read(frame) is Err,
    ensures
        driver::run(v, now, InputView::Link(LinkEventView::Frame { link, frame })) == (
            v,
            seq![EffectView::Close(link)],
        ),
{
}

/// Actions of the control plane change nothing but the timers and the routes in
/// use, and the first effect is that of the first action that has one.
pub(crate) proof fn actions_are_bounded(v: RuntimeView, actions: Seq<ActionView>)
    ensures
        driver::apply_actions(v, actions).0.plane == v.plane,
        driver::apply_actions(v, actions).0.peer_costs == v.peer_costs,
        actions.len() > 0 && driver::apply_action(v, actions[0]).1 is Some ==> {
            &&& driver::apply_actions(v, actions).1.len() > 0
            &&& Some(driver::apply_actions(v, actions).1[0]) == driver::apply_action(
                v,
                actions[0],
            ).1
        },
    decreases actions.len(),
{
    if actions.len() > 0 {
        actions_are_bounded(v, actions.drop_last());
        if actions.len() == 1 {
            assert(actions.drop_last() =~= Seq::<ActionView>::empty());
            assert(driver::apply_actions(v, actions.drop_last()) == (
                v,
                Seq::<EffectView>::empty(),
            ));
        }
    }
}

/// The routes in use after actions: those that were published last.
proof fn routes_after(v: RuntimeView, actions: Seq<ActionView>)
    requires
        forall|i: int|
            0 <= i < actions.len() ==> ((#[trigger] actions[i]) matches
                ActionView::PublishRoutes(table) ==> table == v.plane.routes),
    ensures
        (exists|i: int| 0 <= i < actions.len() && #[trigger] actions[i] is PublishRoutes)
            ==> driver::apply_actions(v, actions).0.table == v.plane.routes,
        (forall|i: int| 0 <= i < actions.len() ==> !(#[trigger] actions[i] is PublishRoutes))
            ==> driver::apply_actions(v, actions).0.table == v.table,
    decreases actions.len(),
{
    if actions.len() > 0 {
        let less = actions.drop_last();
        assert forall|i: int| 0 <= i < less.len() implies ((#[trigger] less[i]) matches
            ActionView::PublishRoutes(table) ==> table == v.plane.routes) by {
            assert(less[i] == actions[i]);
        }
        routes_after(v, less);
        actions_are_bounded(v, less);
        if !(actions.last() is PublishRoutes) {
            if exists|i: int| 0 <= i < actions.len() && #[trigger] actions[i] is PublishRoutes {
                let i = choose|i: int|
                    0 <= i < actions.len() && #[trigger] actions[i] is PublishRoutes;
                assert(less[i] is PublishRoutes);
            } else {
                assert forall|i: int| 0 <= i < less.len() implies !(
                #[trigger] less[i] is PublishRoutes) by {
                    assert(less[i] == actions[i]);
                }
            }
        } else {
            assert(actions[actions.len() - 1] is PublishRoutes);
        }
    }
}

/// Packets are always forwarded by the routes that the control plane computed
/// last.
pub proof fn routes_in_use_are_current(v: RuntimeView, now: MonoTime, input: InputView)
    requires
        v.table == v.plane.routes,
    ensures
        driver::run(v, now, input).0.table == driver::run(v, now, input).0.plane.routes,
{
    match driver::reading(v, input) {
        Reading::Control(event) => {
            let signed = auth::unsecured(model::own_lsa(model::origination(v.plane, event)->0));
            laws::published_routes_are_current(v.plane, now, event, signed, true);
            let (plane, actions) = laws::unsecured_transition(v.plane, now, event);
            let ready = RuntimeView { plane, ..v };
            routes_after(ready, actions);
            actions_are_bounded(ready, actions);
            if plane.routes != v.plane.routes {
                let i = choose|i: int|
                    0 <= i < actions.len() && #[trigger] actions[i] == ActionView::PublishRoutes(
                        plane.routes,
                    );
                assert(actions[i] is PublishRoutes);
            }
        },
        _ => {},
    }
}

/// The sequence number of an own announcement is stored before anything is
/// sent.
pub proof fn sequences_are_stored_first(v: RuntimeView, now: MonoTime, input: InputView)
    requires
        driver::reading(v, input) matches Reading::Control(event) && model::origination(
            v.plane,
            event,
        ) is Some,
        v.plane.my_seq < u64::MAX,
    ensures
        ({
            let (next, effects) = driver::run(v, now, input);
            &&& next.plane.my_seq == v.plane.my_seq + 1
            &&& effects.len() > 0
            &&& effects[0] == EffectView::Persist(next.plane.my_seq)
        }),
{
    let event = driver::reading(v, input)->Control_0;
    let signed = auth::unsecured(model::own_lsa(model::origination(v.plane, event)->0));
    laws::sequence_is_stored_first(v.plane, now, event, signed, true);
    let (plane, actions) = laws::unsecured_transition(v.plane, now, event);
    actions_are_bounded(RuntimeView { plane, ..v }, actions);
}

/// What is stored by actions is what they ask for.
proof fn stores_come_from_actions(v: RuntimeView, actions: Seq<ActionView>, seq: u64)
    requires
        forall|i: int|
            0 <= i < actions.len() ==> ((#[trigger] actions[i]) matches ActionView::PersistSeq(n)
                ==> n == seq),
    ensures
        forall|i: int|
            0 <= i < driver::apply_actions(v, actions).1.len() ==> ((
            #[trigger] driver::apply_actions(v, actions).1[i]) matches EffectView::Persist(n) ==> n
                == seq),
    decreases actions.len(),
{
    if actions.len() > 0 {
        let less = actions.drop_last();
        assert forall|i: int| 0 <= i < less.len() implies ((#[trigger] less[i]) matches
            ActionView::PersistSeq(n) ==> n == seq) by {
            assert(less[i] == actions[i]);
        }
        stores_come_from_actions(v, less, seq);
        assert(actions[actions.len() - 1] == actions.last());
    }
}

/// What becomes of packets stores nothing.
proof fn forwarding_stores_nothing(actions: Seq<ForwardActionView>)
    ensures
        forall|i: int|
            0 <= i < driver::forward_effects(actions).len() ==> !(
            #[trigger] driver::forward_effects(actions)[i] is Persist),
    decreases actions.len(),
{
    if actions.len() > 0 {
        forwarding_stores_nothing(actions.drop_last());
    }
}

/// Every number that is stored is the one that the control plane used last.
proof fn stores_are_current(v: RuntimeView, now: MonoTime, input: InputView)
    ensures
        ({
            let (next, effects) = driver::run(v, now, input);
            forall|i: int|
                0 <= i < effects.len() ==> ((#[trigger] effects[i]) matches EffectView::Persist(n)
                    ==> n == next.plane.my_seq)
        }),
{
    match driver::reading(v, input) {
        Reading::Control(event) => {
            let (plane, actions) = laws::unsecured_transition(v.plane, now, event);
            let ready = RuntimeView { plane, ..v };
            let signed = auth::unsecured(model::own_lsa(model::origination(v.plane, event)->0));
            laws::stored_numbers_are_current(v.plane, now, event, signed, true);
            stores_come_from_actions(ready, actions, plane.my_seq);
            actions_are_bounded(ready, actions);
        },
        Reading::Forward(event) => {
            forwarding_stores_nothing(forward::step(v.plane.me, v.table, event).1);
        },
        _ => {},
    }
}

/// No frame is sent before the sequence number that the node used last is
/// stored, and a runtime that goes on after an input has stored it: whichever
/// effects fail, no frame tells of a number that was not stored.
pub proof fn unstored_sequences_are_not_sent(
    v: RuntimeView,
    now: MonoTime,
    input: InputView,
    done: Seq<bool>,
    i: int,
)
    requires
        v.plane.my_seq < u64::MAX,
        0 <= i <= driver::run(v, now, input).1.len(),
        i < driver::run(v, now, input).1.len() ==> driver::run(v, now, input).1[i] is Send,
        driver::gets_to(driver::run(v, now, input).1, done, i),
    ensures
        ({
            let (next, effects) = driver::run(v, now, input);
            driver::stored_at(v.plane.my_seq, effects, done, i) == next.plane.my_seq
        }),
{
    let (next, effects) = driver::run(v, now, input);
    stores_are_current(v, now, input);
    match driver::reading(v, input) {
        Reading::Control(event) => {
            let signed = auth::unsecured(model::own_lsa(model::origination(v.plane, event)->0));
            let (plane, actions) = laws::unsecured_transition(v.plane, now, event);
            actions_are_bounded(RuntimeView { plane, ..v }, actions);
            if model::origination(v.plane, event) is Some {
                sequences_are_stored_first(v, now, input);
                assert(!(driver::next_after(effects[0], done[0]) is Stop));
            } else {
                laws::sequence_is_used_only_for_own(v.plane, now, event, signed, true);
            }
        },
        Reading::Forward(_) => {
            packets_leave_no_trace(v, now, input);
        },
        _ => {},
    }
    stored_stays(v.plane.my_seq, next.plane.my_seq, effects, done, i);
}

/// Where every number that is stored is one and the same, it stays stored.
proof fn stored_stays(
    before: u64,
    seq: u64,
    effects: Seq<EffectView>,
    done: Seq<bool>,
    n: int,
)
    requires
        0 <= n <= effects.len(),
        forall|i: int|
            0 <= i < effects.len() ==> ((#[trigger] effects[i]) matches EffectView::Persist(s) ==> s
                == seq),
        before == seq || n > 0 && effects[0] is Persist && done[0],
    ensures
        driver::stored_at(before, effects, done, n) == seq,
    decreases n,
{
    if n > 0 {
        assert(effects[n - 1] matches EffectView::Persist(s) ==> s == seq);
        if n > 1 || before == seq {
            stored_stays(before, seq, effects, done, n - 1);
        }
    }
}

/// Packets change nothing in a runtime.
pub proof fn packets_leave_no_trace(v: RuntimeView, now: MonoTime, input: InputView)
    requires
        driver::reading(v, input) is Forward,
    ensures
        driver::run(v, now, input).0 == v,
{
}

/// A packet that an application sends has exactly one effect: it is sent on, or
/// its outcome is reported.
pub proof fn packets_have_one_effect(v: RuntimeView, now: MonoTime, packet: PacketView)
    requires
        packet::is_writable(packet),
    ensures
        ({
            let effects = driver::run(v, now, InputView::Outbound(packet)).1;
            &&& effects.len() == 1
            &&& effects[0] is Send || effects[0] is Report
        }),
{
    let actions = forward::step(v.plane.me, v.table, ForwardEventView::Outbound(packet)).1;
    assert(actions.drop_last() =~= Seq::<ForwardActionView>::empty());
    reveal_with_fuel(driver::forward_effects, 2);
    one_effect(v.plane.me, v.table.routes, None, packet);
}

/// What becomes of a packet has exactly one effect.
proof fn one_effect(
    me: NodeId,
    routes: Map<NodeId, crate::control::table::Route>,
    incoming: Option<LinkId>,
    packet: PacketView,
)
    requires
        packet::is_writable(packet),
    ensures
        driver::forward_effect(forward::decide(me, routes, incoming, packet)) matches Some(effect)
            && (effect is Send || effect is Report),
{
}

/// What one node tells another over a link reaches the other's control plane
/// as it was told, with the bytes that an announcement was written as.
pub proof fn control_messages_travel_from_node_to_node(
    v: RuntimeView,
    link: LinkId,
    frame: FrameView,
)
    requires
        codec::sendable(frame) is Some,
        frame matches FrameView::Lsa(message) ==> {
            &&& message.signature.len() <= u64::MAX
            &&& message.canonical_bytes.len() <= u64::MAX
            &&& if message.canonical_bytes.len() == 0 {
                codec::has_costs(message.lsa)
            } else {
                crate::wire::proto::read_lsa(message.canonical_bytes) matches Some(wire)
                    && codec::lsa_of(wire) == Ok::<
                    crate::control::message::LsaView,
                    crate::runtime::error::RuntimeFault,
                >(message.lsa)
            }
        },
    ensures
        driver::reading(
            v,
            InputView::Link(LinkEventView::Frame { link, frame: codec::sendable(frame)->0 }),
        ) == Reading::Control(EventView::Frame { link, frame: codec::completed(frame) }),
{
    codec::written_control_frames_are_read_back(frame);
}

/// Deadlines stay in the order in which they fall due.
pub proof fn timers_stay_in_order(v: RuntimeView, now: MonoTime, input: InputView)
    requires
        timers::is_in_order(v.timers),
    ensures
        timers::is_in_order(driver::run(v, now, input).0.timers),
{
    match driver::reading(v, input) {
        Reading::Control(event) => {
            let (plane, actions) = laws::unsecured_transition(v.plane, now, event);
            order_after(RuntimeView { plane, ..v }, actions);
        },
        _ => {},
    }
}

/// Actions keep deadlines in order.
proof fn order_after(v: RuntimeView, actions: Seq<ActionView>)
    requires
        timers::is_in_order(v.timers),
    ensures
        timers::is_in_order(driver::apply_actions(v, actions).0.timers),
    decreases actions.len(),
{
    if actions.len() > 0 {
        order_after(v, actions.drop_last());
        let before = driver::apply_actions(v, actions.drop_last()).0;
        match actions.last() {
            ActionView::SetTimer { timer, at } => {
                timers::scheduling_keeps_order(
                    before.timers,
                    TimerEntry { at: at.millis(), sequence: before.next_timer_sequence, timer },
                );
            },
            _ => {},
        }
    }
}

/// A deadline that was set is there to fall due.
pub proof fn timers_are_set(v: RuntimeView, actions: Seq<ActionView>, i: int)
    requires
        timers::is_in_order(v.timers),
        0 <= i < actions.len(),
        actions[i] is SetTimer,
    ensures
        exists|k: int|
            #![trigger driver::apply_actions(v, actions).0.timers[k]]
            {
                let all = driver::apply_actions(v, actions).0.timers;
                &&& 0 <= k < all.len()
                &&& all[k].timer == actions[i]->timer
                &&& all[k].at == actions[i]->at.millis()
            },
    decreases actions.len(),
{
    broadcast use vstd::seq_lib::group_to_multiset_ensures;

    let less = actions.drop_last();
    let before = driver::apply_actions(v, less).0;
    let all = driver::apply_actions(v, actions).0.timers;
    order_after(v, less);
    if i == actions.len() - 1 {
        let entry = TimerEntry {
            at: actions[i]->at.millis(),
            sequence: before.next_timer_sequence,
            timer: actions[i]->timer,
        };
        timers::scheduling_keeps_order(before.timers, entry);
        assert(all.to_multiset().count(entry) > 0);
        assert(all.contains(entry));
        let k = choose|k: int| 0 <= k < all.len() && all[k] == entry;
        assert(all[k].timer == actions[i]->timer);
    } else {
        timers_are_set(v, less, i);
        let k = choose|k: int|
            #![trigger before.timers[k]]
            {
                &&& 0 <= k < before.timers.len()
                &&& before.timers[k].timer == less[i]->timer
                &&& before.timers[k].at == less[i]->at.millis()
            };
        let entry = before.timers[k];
        match actions.last() {
            ActionView::SetTimer { timer, at } => {
                let more = TimerEntry {
                    at: at.millis(),
                    sequence: before.next_timer_sequence,
                    timer,
                };
                timers::scheduling_keeps_order(before.timers, more);
                assert(before.timers.contains(entry));
                assert(all.to_multiset().count(entry) > 0);
                assert(all.contains(entry));
                let m = choose|m: int| 0 <= m < all.len() && all[m] == entry;
                assert(all[m].timer == actions[i]->timer);
            },
            _ => {
                assert(all[k] == entry);
            },
        }
    }
}

} // verus!
