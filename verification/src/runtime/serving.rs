//! What a bus owes to the applications that publish and subscribe.

use std::sync::Arc;
use vstd::prelude::*;
use crate::control::cost::LinkCost;
use crate::control::message::ControlTimer;
use crate::pubsub::envelope;
use crate::pubsub::model;
use crate::pubsub::model::{PubSubActionView, PubSubEventView};
use crate::pubsub::node::PubSubEvent;
use crate::pubsub::publishing;
use crate::pubsub::topic::{SubId, TopicPolicies, TopicView};
use crate::runtime::bus;
use crate::runtime::bus::{BusCore, BusEffect, BusEffectView, BusInput, BusInputView, BusView};
use crate::runtime::bus::PubSubOutcomeView;
use crate::runtime::driver;
use crate::runtime::driver::{EffectView, InputView, OutcomeView, RuntimeCore, RuntimeView};
use crate::runtime::duties;
use crate::types::{LinkId, MonoTime, NodeId};
use crate::wire::packet;
use crate::wire::packet::{ForwardFlags, PacketType, PacketView};

verus! {

/// A bus that takes an input does what there is to do with it.
pub proof fn inputs_are_taken(
    served: &mut BusCore,
    now: MonoTime,
    input: BusInput,
    effects: Vec<BusEffect>,
)
    requires
        old(served).wf(),
        call_ensures(BusCore::step, (served, now, input), effects),
    ensures
        final(served).wf(),
        (final(served)@, bus::views(effects@)) == bus::run(old(served)@, now, input@),
{
}

/// The packet carries the message as its publisher wants it: to several nodes,
/// from this node, with thirty-two hops to live, and open to being replaced in a
/// queue only if that is wanted.
pub open spec fn carries(packet: PacketView, me: NodeId, action: PubSubActionView) -> bool {
    action matches PubSubActionView::SendMulticast {
        destinations,
        priority,
        flow_id,
        conflate_key,
        conflatable,
        payload,
    } && {
        &&& packet.payload == payload
        &&& packet.header.packet_type == PacketType::Multicast
        &&& packet.header.priority == priority
        &&& packet.header.ttl == 32
        &&& packet.header.flags.bits() == if conflatable {
            2u32
        } else {
            0u32
        }
        &&& packet.header.source == me
        &&& packet.header.flow_id == flow_id
        &&& packet.header.conflate_key == conflate_key
    }
}

/// What comes of one action comes of all.
proof fn each_is_carried(
    v: RuntimeView,
    now: MonoTime,
    actions: Seq<PubSubActionView>,
    i: int,
    k: int,
)
    requires
        0 <= i < actions.len(),
        0 <= k < bus::carried(v, now, actions[i]).len(),
    ensures
        bus::all_carried(v, now, actions).contains(bus::carried(v, now, actions[i])[k]),
    decreases actions.len(),
{
    let less = actions.drop_last();
    let all = bus::all_carried(v, now, actions);
    let before = bus::all_carried(v, now, less);
    let mine = bus::carried(v, now, actions[i]);
    if i == actions.len() - 1 {
        assert(all[before.len() + k] == mine[k]);
    } else {
        each_is_carried(v, now, less, i, k);
        let m = choose|m: int| 0 <= m < before.len() && before[m] == mine[k];
        assert(all[m] == mine[k]);
    }
}

/// What comes of all comes of one.
proof fn nothing_else_is_carried(
    v: RuntimeView,
    now: MonoTime,
    actions: Seq<PubSubActionView>,
    effect: BusEffectView,
) -> (i: int)
    requires
        bus::all_carried(v, now, actions).contains(effect),
    ensures
        0 <= i < actions.len(),
        bus::carried(v, now, actions[i]).contains(effect),
    decreases actions.len(),
{
    let less = actions.drop_last();
    let all = bus::all_carried(v, now, actions);
    let before = bus::all_carried(v, now, less);
    let mine = bus::carried(v, now, actions.last());
    let k = choose|k: int| 0 <= k < all.len() && all[k] == effect;
    if k < before.len() {
        assert(before[k] == effect);
        let i = nothing_else_is_carried(v, now, less, effect);
        assert(less[i] == actions[i]);
        i
    } else {
        assert(mine[k - before.len()] == effect);
        actions.len() - 1
    }
}

/// What an application is told of an action.
pub open spec fn told_of(action: PubSubActionView) -> Option<BusEffectView> {
    match action {
        PubSubActionView::DeliverToApp { sub_id, envelope, is_backfill } => Some(
            BusEffectView::Tell(PubSubOutcomeView::Delivered { sub_id, envelope, is_backfill }),
        ),
        PubSubActionView::Published { topic, seq } => Some(
            BusEffectView::Tell(PubSubOutcomeView::Published { topic, seq }),
        ),
        PubSubActionView::Rejected(reason) => Some(
            BusEffectView::Tell(PubSubOutcomeView::Rejected(reason)),
        ),
        PubSubActionView::DroppedDuplicateOrTooOld { origin, topic, seq } => Some(
            BusEffectView::Tell(
                PubSubOutcomeView::DroppedDuplicateOrTooOld { origin, topic, seq },
            ),
        ),
        PubSubActionView::LocalSubscriptionsChanged(selectors) => Some(
            BusEffectView::Advertise(selectors),
        ),
        PubSubActionView::SendMulticast { .. } => None,
    }
}

/// What an application asks of publish/subscribe changes nothing in the node.
/// Applications are told of every delivery, publication, refusal and drop, other
/// nodes of every change of the subscriptions, and of nothing else.
pub proof fn applications_are_told(
    v: BusView,
    now: MonoTime,
    event: PubSubEventView,
    effect: BusEffectView,
)
    requires
        !(effect is Node),
    ensures
        ({
            let (next, effects) = bus::run(v, now, BusInputView::Local(event));
            let (pubsub, actions) = model::step(v.pubsub, now, event);
            &&& next.node == v.node
            &&& next.pubsub == pubsub
            &&& effects.contains(effect) <==> exists|i: int|
                0 <= i < actions.len() && told_of(#[trigger] actions[i]) == Some(effect)
        }),
{
    let effects = bus::run(v, now, BusInputView::Local(event)).1;
    let actions = model::step(v.pubsub, now, event).1;
    if effects.contains(effect) {
        let i = nothing_else_is_carried(v.node, now, actions, effect);
        let mine = bus::carried(v.node, now, actions[i]);
        let k = choose|k: int| 0 <= k < mine.len() && mine[k] == effect;
        assert(told_of(actions[i]) == Some(effect));
    }
    if exists|i: int| 0 <= i < actions.len() && told_of(#[trigger] actions[i]) == Some(effect) {
        let i = choose|i: int|
            0 <= i < actions.len() && told_of(#[trigger] actions[i]) == Some(effect);
        assert(bus::carried(v.node, now, actions[i])[0] == effect);
        each_is_carried(v.node, now, actions, i, 0);
    }
}

/// A message that is to be sent is handed to the node as one packet for its
/// destinations, and whatever the node does with that packet is done.
pub proof fn messages_are_handed_to_the_node(
    v: BusView,
    now: MonoTime,
    event: PubSubEventView,
    i: int,
    k: int,
) -> (packet: PacketView)
    requires
        0 <= i < model::step(v.pubsub, now, event).1.len(),
        model::step(v.pubsub, now, event).1[i] is SendMulticast,
    ensures
        ({
            let action = model::step(v.pubsub, now, event).1[i];
            let effects = bus::run(v, now, BusInputView::Local(event)).1;
            let sent = driver::run(
                v.node,
                now,
                InputView::OutboundMulticast { destinations: action->destinations, packet },
            ).1;
            &&& carries(packet, v.node.plane.me, action)
            &&& 0 <= k < sent.len() ==> effects.contains(BusEffectView::Node(sent[k]))
        }),
{
    broadcast use ForwardFlags::of_bits;

    let actions = model::step(v.pubsub, now, event).1;
    match actions[i] {
        PubSubActionView::SendMulticast {
            destinations,
            priority,
            flow_id,
            conflate_key,
            conflatable,
            payload,
        } => {
            let packet = bus::message_packet(
                v.node.plane.me,
                priority,
                flow_id,
                conflate_key,
                conflatable,
                payload,
            );
            let sent = driver::run(
                v.node,
                now,
                InputView::OutboundMulticast { destinations, packet },
            ).1;
            if 0 <= k < sent.len() {
                assert(bus::carried(v.node, now, actions[i])[k] == BusEffectView::Node(sent[k]));
                each_is_carried(v.node, now, actions, i, k);
            }
            packet
        },
        _ => arbitrary(),
    }
}

/// A packet for this node that carries a message goes to publish/subscribe, as
/// one from the source that its header names, and applications are told what
/// comes of it. Any other packet for this node is reported as it is.
pub proof fn delivered_packets_are_told(
    v: BusView,
    now: MonoTime,
    incoming: Option<LinkId>,
    packet: PacketView,
    effect: BusEffectView,
)
    requires
        packet.header.packet_type == PacketType::Unicast,
        packet.header.ttl > 0,
        packet.header.destination == v.node.plane.me,
        packet::is_writable(packet),
        v.pubsub.subscriptions.dom().finite(),
    ensures
        ({
            let input = duties::brings(incoming, packet);
            let (next, effects) = bus::run(v, now, BusInputView::Node(input));
            let bytes = packet.payload;
            if bytes.len() >= 4 && bytes[0] == 'M' as u8 && bytes[1] == 'B' as u8 && bytes[2]
                == 'P' as u8 && bytes[3] == 'S' as u8 {
                let (pubsub, actions) = publishing::received(
                    v.pubsub,
                    now,
                    packet.header.source,
                    bytes,
                );
                &&& next == (BusView { pubsub, ..v })
                &&& effects.contains(effect) <==> exists|i: int|
                    0 <= i < actions.len() && told_of(#[trigger] actions[i]) == Some(effect)
            } else {
                &&& next == v
                &&& effects == seq![
                    BusEffectView::Node(EffectView::Report(OutcomeView::Delivered(packet))),
                ]
            }
        }),
{
    let input = duties::brings(incoming, packet);
    let (next, effects) = bus::run(v, now, BusInputView::Node(input));
    let bytes = packet.payload;
    duties::packets_are_handled(v.node, now, incoming, packet);
    let done = driver::run(v.node, now, input).1;
    let report = EffectView::Report(OutcomeView::Delivered(packet));
    assert(done =~= seq![report]);
    assert(done.drop_last() =~= Seq::<EffectView>::empty());
    reveal_with_fuel(bus::sorted, 2);
    let like = bytes.len() >= 4 && bytes[0] == 'M' as u8 && bytes[1] == 'B' as u8 && bytes[2]
        == 'P' as u8 && bytes[3] == 'S' as u8;
    if like {
        assert(bytes.take(4) =~= envelope::magic());
        let actions = publishing::received(v.pubsub, now, packet.header.source, bytes).1;
        assert(effects =~= bus::all_carried(v.node, now, actions));
        received_sends_nothing(v, now, packet.header.source, bytes);
        if effects.contains(effect) {
            let i = nothing_else_is_carried(v.node, now, actions, effect);
            let mine = bus::carried(v.node, now, actions[i]);
            let k = choose|k: int| 0 <= k < mine.len() && mine[k] == effect;
            assert(!(actions[i] is SendMulticast));
            assert(told_of(actions[i]) == Some(effect));
        }
        if exists|i: int| 0 <= i < actions.len() && told_of(#[trigger] actions[i]) == Some(effect) {
            let i = choose|i: int|
                0 <= i < actions.len() && told_of(#[trigger] actions[i]) == Some(effect);
            assert(bus::carried(v.node, now, actions[i])[0] == effect);
            each_is_carried(v.node, now, actions, i, 0);
        }
    } else {
        publishing::messages_are_marked(arbitrary(), bytes);
    }
}

/// Messages that come in are not sent on by publish/subscribe.
proof fn received_sends_nothing(v: BusView, now: MonoTime, source: NodeId, payload: Seq<u8>)
    ensures
        forall|i: int|
            0 <= i < publishing::received(v.pubsub, now, source, payload).1.len() ==> !(
            #[trigger] publishing::received(v.pubsub, now, source, payload).1[i] is SendMulticast),
{
}

/// A new bus is on the node that it is given, with the policies that it is
/// given, and nothing has been published or subscribed to.
pub proof fn buses_start_with_nothing(
    core: RuntimeCore,
    policies: Arc<TopicPolicies>,
    made: BusCore,
)
    requires
        core.wf(),
        policies.wf(),
        call_ensures(BusCore::new, (core, policies), made),
    ensures
        made.wf(),
        made@.node == core@,
        made@.pubsub.me == core@.plane.me,
        made@.pubsub.policies == policies@,
        made@.pubsub.subscriptions.dom() =~= Set::<SubId>::empty(),
        made@.pubsub.sequences.dom() =~= Set::<TopicView>::empty(),
        made@.pubsub.received.dom() =~= Set::<(NodeId, TopicView)>::empty(),
{
}

/// What a link to a peer costs is set in the node of a bus, and nothing else.
pub proof fn costs_are_set(served: &mut BusCore, peer: NodeId, cost: LinkCost)
    requires
        old(served).wf(),
        call_ensures(BusCore::allow_peer, (served, peer, cost), ()),
    ensures
        final(served)@.node.peer_costs == old(served)@.node.peer_costs.insert(peer, cost),
        final(served)@.node.plane == old(served)@.node.plane,
        final(served)@.node.table == old(served)@.node.table,
        final(served)@.node.timers == old(served)@.node.timers,
        final(served)@.pubsub == old(served)@.pubsub,
{
}

/// A bus hands out the deadlines of its node: the earliest, once it has fallen
/// due.
pub proof fn deadlines_are_handed_out(
    served: &mut BusCore,
    now: MonoTime,
    timer: Option<ControlTimer>,
    k: int,
)
    requires
        old(served).wf(),
        duties::stand_by_time(old(served)@.node.timers),
        call_ensures(BusCore::take_due_timer, (served, now), timer),
    ensures
        final(served)@.pubsub == old(served)@.pubsub,
        final(served)@.node.plane == old(served)@.node.plane,
        timer is None ==> {
            let all = old(served)@.node.timers;
            &&& final(served)@ == old(served)@
            &&& 0 <= k < all.len() ==> all[k].at > now.millis()
        },
        timer matches Some(due) ==> {
            let all = old(served)@.node.timers;
            &&& all.len() > 0
            &&& all[0].timer == due
            &&& all[0].at <= now.millis()
            &&& 0 <= k < all.len() ==> all[0].at <= all[k].at
            &&& final(served)@.node.timers == all.drop_first()
        },
{
    if 0 < k < old(served)@.node.timers.len() {
        assert(old(served)@.node.timers[0].at <= old(served)@.node.timers[k].at);
    }
}

/// The next deadline of its node is handed out whether it has fallen due or not.
pub proof fn the_next_deadline_is_handed_out(
    served: &mut BusCore,
    timer: Option<ControlTimer>,
    asked: &BusCore,
    core: &RuntimeCore,
)
    requires
        old(served).wf(),
        asked.wf(),
        call_ensures(BusCore::take_next_timer, (served,), timer),
        call_ensures(BusCore::runtime, (asked,), core),
    ensures
        core@ == asked@.node,
        timer is None <==> old(served)@.node.timers.len() == 0,
        timer matches Some(next) ==> {
            &&& next == old(served)@.node.timers[0].timer
            &&& final(served)@.node.timers == old(served)@.node.timers.drop_first()
        },
        final(served)@.pubsub == old(served)@.pubsub,
        final(served)@.node.plane == old(served)@.node.plane,
{
}

/// Whatever a node does but deliver messages is done as it is, in its order, and
/// changes nothing in publish/subscribe.
pub proof fn other_effects_are_passed_on(v: BusView, now: MonoTime, input: InputView)
    requires
        ({
            let effects = driver::run(v.node, now, input).1;
            forall|i: int|
                0 <= i < effects.len() ==> ((#[trigger] effects[i]) matches EffectView::Report(
                    OutcomeView::Delivered(packet),
                ) ==> packet.payload.len() < 4 || packet.payload[0] != 'M' as u8
                    || packet.payload[1] != 'B' as u8 || packet.payload[2] != 'P' as u8
                    || packet.payload[3] != 'S' as u8)
        }),
    ensures
        ({
            let (next, effects) = driver::run(v.node, now, input);
            &&& bus::run(v, now, BusInputView::Node(input)).0 == (BusView { node: next, ..v })
            &&& bus::run(v, now, BusInputView::Node(input)).1.len() == effects.len()
            &&& forall|i: int|
                0 <= i < effects.len() ==> #[trigger] bus::run(
                    v,
                    now,
                    BusInputView::Node(input),
                ).1[i] == BusEffectView::Node(effects[i])
        }),
{
    let (next, effects) = driver::run(v.node, now, input);
    let ready = BusView { node: next, ..v };
    assert forall|i: int| 0 <= i < effects.len() implies bus::carries(#[trigger] effects[i])
        is None by {
        if let EffectView::Report(OutcomeView::Delivered(packet)) = effects[i] {
            publishing::messages_are_marked(arbitrary(), packet.payload);
        }
    }
    nothing_is_sorted_out(ready, now, effects);
}

/// Effects that carry no message stay as they are.
proof fn nothing_is_sorted_out(v: BusView, now: MonoTime, effects: Seq<EffectView>)
    requires
        forall|i: int| 0 <= i < effects.len() ==> bus::carries(#[trigger] effects[i]) is None,
    ensures
        bus::sorted(v, now, effects).0 == v,
        bus::sorted(v, now, effects).1.len() == effects.len(),
        forall|i: int|
            0 <= i < effects.len() ==> #[trigger] bus::sorted(v, now, effects).1[i]
                == BusEffectView::Node(effects[i]),
    decreases effects.len(),
{
    if effects.len() > 0 {
        let less = effects.drop_last();
        assert forall|i: int| 0 <= i < less.len() implies bus::carries(#[trigger] less[i])
            is None by {
            assert(less[i] == effects[i]);
        }
        nothing_is_sorted_out(v, now, less);
        assert(bus::carries(effects[effects.len() - 1]) is None);
        let all = bus::sorted(v, now, effects).1;
        let before = bus::sorted(v, now, less).1;
        assert forall|i: int| 0 <= i < effects.len() implies #[trigger] all[i]
            == BusEffectView::Node(effects[i]) by {
            if i < less.len() {
                assert(all[i] == before[i]);
                assert(less[i] == effects[i]);
            }
        }
    }
}

/// A bus can take any input as long as its node has numbers left.
pub proof fn inputs_can_be_taken(served: &mut BusCore, now: MonoTime, input: BusInput)
    requires
        old(served).wf(),
        old(served)@.node.plane.my_seq < u64::MAX,
        old(served)@.node.plane.spf_generation < u64::MAX,
        old(served)@.node.plane.routes.version < u64::MAX,
        input matches BusInput::Local(PubSubEvent::DiscoveryUpdated(index)) ==> index.wf(),
    ensures
        call_requires(BusCore::step, (served, now, input)),
{
}

} // verus!
