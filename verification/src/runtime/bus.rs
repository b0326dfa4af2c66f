//! Publish/subscribe on top of a runtime.
//!
//! Messages that applications publish leave as packets of the runtime, and
//! packets that carry messages go to the subscriptions of the node.

use std::sync::Arc;
use vstd::prelude::*;
use crate::buffer;
use crate::forward;
use crate::control::cost::LinkCost;
use crate::control::message::ControlTimer;
use crate::pubsub::envelope;
use crate::pubsub::envelope::{EnvelopeCodec, EnvelopeView};
use crate::pubsub::hash;
use crate::pubsub::laws as pubsub_laws;
use crate::pubsub::model;
use crate::pubsub::model::{PubSubActionView, PubSubEventView, PubSubView, RejectView};
use crate::pubsub::node;
use crate::pubsub::node::{DeliveredMessage, PubSub, PubSubAction, PubSubDropReason};
use crate::pubsub::node::{PubSubEvent, PubSubRejectReason};
use crate::pubsub::topic;
use crate::pubsub::topic::{SelectorView, SubId, TopicKey, TopicMode, TopicPolicies};
use crate::pubsub::topic::{TopicSelector, TopicView};
use crate::runtime::codec;
use crate::runtime::driver;
use crate::runtime::driver::{EffectView, ForwardOutcome, InputView, OutcomeView};
use crate::runtime::driver::{RuntimeCore, RuntimeEffect, RuntimeInput, RuntimeView};
use crate::runtime::travel;
use crate::transport::LinkEventView;
use crate::types::{Component, LinkId, MonoTime, NodeId};
use crate::wire::frame::WireView;
use crate::wire::packet;
use crate::wire::packet::{ForwardFlags, ForwardHeader, ForwardPacket, PacketType};
use crate::wire::packet::{PacketView, Priority};

verus! {

/// How many hops a message lives.
pub const MESSAGE_TTL: u8 = 32;

/// What publish/subscribe tells applications.
#[derive(Debug, Eq, PartialEq)]
pub enum PubSubOutcome {
    Delivered { sub_id: SubId, message: DeliveredMessage },
    Published { topic: TopicKey, seq: u64 },
    Rejected(PubSubRejectReason),
    Dropped(PubSubDropReason),
}

/// What an outcome says.
#[verifier::ext_equal]
pub enum PubSubOutcomeView {
    Delivered { sub_id: SubId, envelope: EnvelopeView, is_backfill: bool },
    Published { topic: TopicView, seq: u64 },
    Rejected(RejectView),
    DroppedDuplicateOrTooOld { origin: NodeId, topic: TopicView, seq: u64 },
}

impl View for PubSubOutcome {
    type V = PubSubOutcomeView;

    open spec fn view(&self) -> PubSubOutcomeView {
        match *self {
            PubSubOutcome::Delivered { sub_id, message } => PubSubOutcomeView::Delivered {
                sub_id,
                envelope: message.envelope@,
                is_backfill: message.is_backfill,
            },
            PubSubOutcome::Published { topic, seq } => PubSubOutcomeView::Published {
                topic: topic@,
                seq,
            },
            PubSubOutcome::Rejected(reason) => PubSubOutcomeView::Rejected(reason@),
            PubSubOutcome::Dropped(
                PubSubDropReason::DuplicateOrTooOld { origin, topic, seq },
            ) => PubSubOutcomeView::DroppedDuplicateOrTooOld { origin, topic: topic@, seq },
        }
    }
}

/// What happens to a bus: something for its runtime, or something that an
/// application wants of publish/subscribe.
pub enum BusInput {
    Node(RuntimeInput),
    Local(PubSubEvent),
}

/// What an input says.
#[verifier::ext_equal]
pub enum BusInputView {
    Node(InputView),
    Local(PubSubEventView),
}

impl View for BusInput {
    type V = BusInputView;

    open spec fn view(&self) -> BusInputView {
        match *self {
            BusInput::Node(input) => BusInputView::Node(input@),
            BusInput::Local(event) => BusInputView::Local(event@),
        }
    }
}

/// What a bus asks its caller to do: an effect of its runtime, something to
/// tell applications, or selectors to be told to other nodes.
#[derive(Debug, Eq, PartialEq)]
pub enum BusEffect {
    Node(RuntimeEffect),
    Tell(PubSubOutcome),
    Advertise(Vec<TopicSelector>),
}

/// What an effect says.
#[verifier::ext_equal]
pub enum BusEffectView {
    Node(EffectView),
    Tell(PubSubOutcomeView),
    Advertise(Seq<SelectorView>),
}

impl View for BusEffect {
    type V = BusEffectView;

    open spec fn view(&self) -> BusEffectView {
        match *self {
            BusEffect::Node(effect) => BusEffectView::Node(effect@),
            BusEffect::Tell(outcome) => BusEffectView::Tell(outcome@),
            BusEffect::Advertise(selectors) => BusEffectView::Advertise(
                node::selector_views(selectors@),
            ),
        }
    }
}

/// What a list of effects says.
pub open spec fn views(effects: Seq<BusEffect>) -> Seq<BusEffectView> {
    effects.map_values(|effect: BusEffect| effect@)
}

/// What one more effect says.
proof fn views_push(effects: Seq<BusEffect>, effect: BusEffect)
    ensures
        views(effects.push(effect)) == views(effects).push(effect@),
{
    assert(views(effects.push(effect)) =~= views(effects).push(effect@));
}

/// The state of a bus.
#[verifier::ext_equal]
pub struct BusView {
    pub node: RuntimeView,
    pub pubsub: PubSubView,
}

/// Effects of a runtime as effects of a bus.
pub open spec fn of_node(effects: Seq<EffectView>) -> Seq<BusEffectView> {
    effects.map_values(|effect: EffectView| BusEffectView::Node(effect))
}

/// The packet that carries a message, before it has a destination.
pub open spec fn message_packet(
    me: NodeId,
    priority: Priority,
    flow_id: u64,
    conflate_key: u64,
    conflatable: bool,
    payload: Seq<u8>,
) -> PacketView {
    PacketView {
        header: ForwardHeader {
            packet_type: PacketType::Multicast,
            priority,
            ttl: MESSAGE_TTL,
            flags: ForwardFlags::of(
                if conflatable {
                    ForwardFlags::CONFLATABLE
                } else {
                    0
                },
            ),
            destination: NodeId::of(Seq::new(32, |i: int| 0u8)),
            source: me,
            flow_id,
            conflate_key,
        },
        payload,
    }
}

/// What an action of publish/subscribe is to the runtime or to applications.
pub open spec fn carried(v: RuntimeView, now: MonoTime, action: PubSubActionView) -> Seq<
    BusEffectView,
> {
    match action {
        PubSubActionView::SendMulticast {
            destinations,
            priority,
            flow_id,
            conflate_key,
            conflatable,
            payload,
        } => of_node(
            driver::run(
                v,
                now,
                InputView::OutboundMulticast {
                    destinations,
                    packet: message_packet(
                        v.plane.me,
                        priority,
                        flow_id,
                        conflate_key,
                        conflatable,
                        payload,
                    ),
                },
            ).1,
        ),
        PubSubActionView::DeliverToApp { sub_id, envelope, is_backfill } => seq![
            BusEffectView::Tell(PubSubOutcomeView::Delivered { sub_id, envelope, is_backfill }),
        ],
        PubSubActionView::LocalSubscriptionsChanged(selectors) => seq![
            BusEffectView::Advertise(selectors),
        ],
        PubSubActionView::Published { topic, seq } => seq![
            BusEffectView::Tell(PubSubOutcomeView::Published { topic, seq }),
        ],
        PubSubActionView::Rejected(reason) => seq![
            BusEffectView::Tell(PubSubOutcomeView::Rejected(reason)),
        ],
        PubSubActionView::DroppedDuplicateOrTooOld { origin, topic, seq } => seq![
            BusEffectView::Tell(
                PubSubOutcomeView::DroppedDuplicateOrTooOld { origin, topic, seq },
            ),
        ],
    }
}

/// What actions of publish/subscribe are, one after the other.
pub open spec fn all_carried(v: RuntimeView, now: MonoTime, actions: Seq<PubSubActionView>) -> Seq<
    BusEffectView,
>
    decreases actions.len(),
{
    if actions.len() == 0 {
        Seq::empty()
    } else {
        all_carried(v, now, actions.drop_last()) + carried(v, now, actions.last())
    }
}

/// The message that a delivered packet carries, if it carries one.
pub open spec fn carries(effect: EffectView) -> Option<PacketView> {
    match effect {
        EffectView::Report(OutcomeView::Delivered(packet)) => if envelope::is_envelope_like(
            packet.payload,
        ) {
            Some(packet)
        } else {
            None
        },
        _ => None,
    }
}

/// Sorts the effects of a runtime: packets that carry messages go to
/// publish/subscribe, everything else stays as it is.
pub open spec fn sorted(v: BusView, now: MonoTime, effects: Seq<EffectView>) -> (
    BusView,
    Seq<BusEffectView>,
)
    decreases effects.len(),
{
    if effects.len() == 0 {
        (v, Seq::empty())
    } else {
        let (before, done) = sorted(v, now, effects.drop_last());
        match carries(effects.last()) {
            Some(packet) => {
                let (pubsub, actions) = model::step(
                    before.pubsub,
                    now,
                    PubSubEventView::Inbound {
                        source: packet.header.source,
                        payload: packet.payload,
                    },
                );
                (BusView { pubsub, ..before }, done + all_carried(v.node, now, actions))
            },
            None => (before, done.push(BusEffectView::Node(effects.last()))),
        }
    }
}

/// What a bus does with an input: its state after it, and the effects.
pub open spec fn run(v: BusView, now: MonoTime, input: BusInputView) -> (
    BusView,
    Seq<BusEffectView>,
) {
    match input {
        BusInputView::Node(input) => {
            let (node, effects) = driver::run(v.node, now, input);
            sorted(BusView { node, ..v }, now, effects)
        },
        BusInputView::Local(event) => {
            let (pubsub, actions) = model::step(v.pubsub, now, event);
            (BusView { pubsub, ..v }, all_carried(v.node, now, actions))
        },
    }
}

/// A runtime with publish/subscribe.
pub struct BusCore {
    core: RuntimeCore,
    pubsub: PubSub,
}

impl View for BusCore {
    type V = BusView;

    closed spec fn view(&self) -> BusView {
        BusView { node: self.core@, pubsub: self.pubsub@ }
    }
}

impl BusCore {
    /// The parts are well-formed and belong to one node.
    pub closed spec fn wf(&self) -> bool {
        &&& self.core.wf()
        &&& self.pubsub.wf()
        &&& self.pubsub@.me == self.core@.plane.me
    }

    /// The parts of a well-formed bus are in states that can be reached, and
    /// belong to one node.
    pub proof fn state_is_valid(&self)
        requires
            self.wf(),
        ensures
            crate::control::model::is_valid(self@.node.plane),
            self@.pubsub.me == self@.node.plane.me,
            self@.pubsub.subscriptions.dom().finite(),
            forall|topic: TopicView| #[trigger]
                topic::subscribers_of(self@.pubsub.discovery, topic).finite(),
    {
        self.core.state_is_valid();
        self.pubsub.state_is_finite();
    }

    /// A bus whose applications have neither published nor subscribed to
    /// anything.
    pub fn new(core: RuntimeCore, policies: Arc<TopicPolicies>) -> (bus: Self)
        requires
            core.wf(),
            policies.wf(),
        ensures
            bus.wf(),
            bus@ == (BusView {
                node: core@,
                pubsub: model::initial(core@.plane.me, policies@),
            }),
    {
        let me: NodeId = core.node_id();
        BusCore { core, pubsub: PubSub::new(me, policies) }
    }

    /// The runtime.
    pub fn runtime(&self) -> (core: &RuntimeCore)
        requires
            self.wf(),
        ensures
            core@ == self@.node,
            core.wf(),
    {
        &self.core
    }

    /// Sets what a link to a peer costs. Links that are up keep their cost.
    pub fn allow_peer(&mut self, peer: NodeId, cost: LinkCost)
        requires
            old(self).wf(),
        ensures
            final(self).wf(),
            final(self)@ == (BusView {
                node: RuntimeView {
                    peer_costs: old(self)@.node.peer_costs.insert(peer, cost),
                    ..old(self)@.node
                },
                ..old(self)@
            }),
    {
        self.core.allow_peer(peer, cost);
    }

    /// Takes the next deadline, if it has fallen due.
    pub fn take_due_timer(&mut self, now: MonoTime) -> (timer: Option<ControlTimer>)
        requires
            old(self).wf(),
        ensures
            final(self).wf(),
            match timer {
                Some(t) => {
                    &&& old(self)@.node.timers.len() > 0
                    &&& old(self)@.node.timers[0].at <= now.millis()
                    &&& t == old(self)@.node.timers[0].timer
                    &&& final(self)@ == (BusView {
                        node: RuntimeView {
                            timers: old(self)@.node.timers.drop_first(),
                            ..old(self)@.node
                        },
                        ..old(self)@
                    })
                },
                None => {
                    &&& old(self)@.node.timers.len() > 0 ==> old(self)@.node.timers[0].at
                        > now.millis()
                    &&& final(self)@ == old(self)@
                },
            },
    {
        self.core.take_due_timer(now)
    }

    /// Takes the next deadline, if one is set.
    pub fn take_next_timer(&mut self) -> (timer: Option<ControlTimer>)
        requires
            old(self).wf(),
        ensures
            final(self).wf(),
            match timer {
                Some(t) => {
                    &&& old(self)@.node.timers.len() > 0
                    &&& t == old(self)@.node.timers[0].timer
                    &&& final(self)@ == (BusView {
                        node: RuntimeView {
                            timers: old(self)@.node.timers.drop_first(),
                            ..old(self)@.node
                        },
                        ..old(self)@
                    })
                },
                None => {
                    &&& old(self)@.node.timers.len() == 0
                    &&& final(self)@ == old(self)@
                },
            },
    {
        self.core.take_next_timer()
    }

    /// Hands an action of publish/subscribe on.
    fn carry(&mut self, now: MonoTime, action: &PubSubAction, effects: &mut Vec<BusEffect>)
        requires
            old(self).wf(),
        ensures
            final(self).wf(),
            final(self)@ == old(self)@,
            views(final(effects)@) == views(old(effects)@) + carried(
                old(self)@.node,
                now,
                action@,
            ),
    {
        let ghost before = effects@;
        let ghost start = self@;
        match action {
            PubSubAction::SendMulticast {
                destinations,
                priority,
                flow_id,
                conflate_key,
                conflatable,
                payload,
            } => {
                let packet = self.packet(
                    *priority,
                    *flow_id,
                    *conflate_key,
                    *conflatable,
                    buffer::share(payload),
                );
                let nodes = destinations.clone();
                assert(nodes@ =~= destinations@);
                let input = RuntimeInput::OutboundMulticast { destinations: nodes, packet };
                let ghost seen = input@;
                let ghost asked = driver::run(start.node, now, seen).1;
                let sent = self.core.step(now, input);
                assert(self@ =~= start);
                assert(driver::views(sent@) == asked);
                let mut i: usize = 0;
                assert(views(before) + of_node(asked.take(0)) =~= views(before));
                while i < sent.len()
                    invariant
                        i <= sent@.len(),
                        asked == driver::views(sent@),
                        views(effects@) == views(before) + of_node(asked.take(i as int)),
                    decreases sent@.len() - i,
                {
                    let effect = BusEffect::Node(sent[i].clone());
                    proof {
                        views_push(effects@, effect);
                        assert(asked.take(i + 1) =~= asked.take(i as int).push(asked[i as int]));
                        assert(of_node(asked.take(i + 1)) =~= of_node(asked.take(i as int)).push(
                            effect@,
                        ));
                    }
                    effects.push(effect);
                    assert(views(effects@) =~= views(before) + of_node(asked.take(i + 1)));
                    i = i + 1;
                }
                assert(asked.take(i as int) =~= asked);
            },
            PubSubAction::DeliverToApp { sub_id, message } => {
                let effect = BusEffect::Tell(
                    PubSubOutcome::Delivered { sub_id: *sub_id, message: message.clone() },
                );
                proof {
                    views_push(before, effect);
                    assert(views(before).push(effect@) =~= views(before) + seq![effect@]);
                }
                effects.push(effect);
            },
            PubSubAction::LocalSubscriptionsChanged(selectors) => {
                let copies = selectors.clone();
                assert(node::selector_views(copies@) =~= node::selector_views(selectors@));
                let effect = BusEffect::Advertise(copies);
                proof {
                    views_push(before, effect);
                    assert(views(before).push(effect@) =~= views(before) + seq![effect@]);
                }
                effects.push(effect);
            },
            PubSubAction::Published { topic, seq } => {
                let effect = BusEffect::Tell(
                    PubSubOutcome::Published { topic: topic.clone(), seq: *seq },
                );
                proof {
                    views_push(before, effect);
                    assert(views(before).push(effect@) =~= views(before) + seq![effect@]);
                }
                effects.push(effect);
            },
            PubSubAction::Rejected(reason) => {
                let effect = BusEffect::Tell(PubSubOutcome::Rejected(reason.clone()));
                proof {
                    views_push(before, effect);
                    assert(views(before).push(effect@) =~= views(before) + seq![effect@]);
                }
                effects.push(effect);
            },
            PubSubAction::Dropped(reason) => {
                let copy = reason.clone();
                assert(PubSubAction::Dropped(copy)@ == action@);
                let effect = BusEffect::Tell(PubSubOutcome::Dropped(copy));
                proof {
                    views_push(before, effect);
                    assert(views(before).push(effect@) =~= views(before) + seq![effect@]);
                }
                effects.push(effect);
            },
        }
    }

    /// The packet that carries a message.
    fn packet(
        &self,
        priority: Priority,
        flow_id: u64,
        conflate_key: u64,
        conflatable: bool,
        payload: bytes::Bytes,
    ) -> (packet: ForwardPacket)
        requires
            self.wf(),
        ensures
            packet@ == message_packet(
                self@.node.plane.me,
                priority,
                flow_id,
                conflate_key,
                conflatable,
                buffer::octets(payload),
            ),
    {
        let bits: u32 = if conflatable {
            ForwardFlags::CONFLATABLE
        } else {
            0
        };
        let flags = match ForwardFlags::from_bits(bits) {
            Ok(flags) => flags,
            Err(_) => ForwardFlags::empty(),
        };
        let destination = NodeId::default();
        proof {
            destination.of_own_bytes();
        }
        ForwardPacket {
            header: ForwardHeader {
                packet_type: PacketType::Multicast,
                priority,
                ttl: MESSAGE_TTL,
                flags,
                destination,
                source: self.core.node_id(),
                flow_id,
                conflate_key,
            },
            payload,
        }
    }

    /// Hands actions of publish/subscribe on, one after the other.
    fn carry_all(
        &mut self,
        now: MonoTime,
        actions: &Vec<PubSubAction>,
        effects: &mut Vec<BusEffect>,
    )
        requires
            old(self).wf(),
        ensures
            final(self).wf(),
            final(self)@ == old(self)@,
            views(final(effects)@) == views(old(effects)@) + all_carried(
                old(self)@.node,
                now,
                node::views(actions@),
            ),
    {
        let ghost start = self@;
        let ghost before = views(effects@);
        let ghost asked = node::views(actions@);
        let mut i: usize = 0;
        proof {
            assert(asked.take(0) =~= Seq::<PubSubActionView>::empty());
            assert(before + Seq::<BusEffectView>::empty() =~= before);
        }
        while i < actions.len()
            invariant
                i <= actions@.len(),
                asked == node::views(actions@),
                self.wf(),
                self@ == start,
                views(effects@) == before + all_carried(start.node, now, asked.take(i as int)),
            decreases actions@.len() - i,
        {
            self.carry(now, &actions[i], effects);
            proof {
                let next = asked.take(i + 1);
                assert(next.drop_last() =~= asked.take(i as int));
                assert(next.last() == actions@[i as int]@);
                assert(views(effects@) =~= before + all_carried(start.node, now, next));
            }
            i = i + 1;
        }
        assert(asked.take(i as int) =~= asked);
    }

    /// Takes an input, and says what is to be done.
    pub fn step(&mut self, now: MonoTime, input: BusInput) -> (effects: Vec<BusEffect>)
        requires
            old(self).wf(),
            input matches BusInput::Node(i) ==> driver::has_numbers(old(self)@.node, now, i@),
            input matches BusInput::Local(PubSubEvent::DiscoveryUpdated(index)) ==> index.wf(),
        ensures
            final(self).wf(),
            (final(self)@, views(effects@)) == run(old(self)@, now, input@),
    {
        let ghost start = self@;
        let ghost seen = input@;
        let mut effects: Vec<BusEffect> = Vec::new();
        assert(views(effects@) =~= Seq::<BusEffectView>::empty());
        match input {
            BusInput::Local(event) => {
                let actions = self.pubsub.handle(now, event);
                self.carry_all(now, &actions, &mut effects);
                assert(views(effects@) =~= run(start, now, seen).1);
                effects
            },
            BusInput::Node(input) => {
                proof {
                    identity_is_kept(start.node, now, input@);
                }
                let done = self.core.step(now, input);
                let ghost ready = self@;
                let ghost all = driver::views(done@);
                let mut i: usize = 0;
                assert(all.take(0) =~= Seq::<EffectView>::empty());
                while i < done.len()
                    invariant
                        i <= done@.len(),
                        all == driver::views(done@),
                        self.wf(),
                        self@.node == ready.node,
                        (self@, views(effects@)) == sorted(ready, now, all.take(i as int)),
                    decreases done@.len() - i,
                {
                    let ghost sofar = self@;
                    let ghost told = effects@;
                    proof {
                        let next = all.take(i + 1);
                        assert(next.drop_last() =~= all.take(i as int));
                        assert(next.last() == done@[i as int]@);
                    }
                    let message: Option<ForwardPacket> = match &done[i] {
                        RuntimeEffect::Report(ForwardOutcome::Delivered(packet)) => {
                            if EnvelopeCodec::is_envelope(&packet.payload) {
                                Some(packet.clone())
                            } else {
                                None
                            }
                        },
                        _ => None,
                    };
                    match message {
                        Some(packet) => {
                            let event = PubSubEvent::Inbound {
                                source: packet.header.source,
                                payload: packet.payload,
                            };
                            let actions = self.pubsub.handle(now, event);
                            self.carry_all(now, &actions, &mut effects);
                        },
                        None => {
                            let effect = BusEffect::Node(done[i].clone());
                            proof {
                                views_push(told, effect);
                            }
                            effects.push(effect);
                        },
                    }
                    proof {
                        let goal = sorted(ready, now, all.take(i + 1));
                        assert(self@ =~= goal.0);
                        assert(views(effects@) =~= goal.1);
                    }
                    i = i + 1;
                }
                assert(all.take(i as int) =~= all);
                effects
            },
        }
    }
}

/// What applications want of publish/subscribe leaves the runtime as it is.
pub proof fn applications_leave_the_runtime_alone(
    v: BusView,
    now: MonoTime,
    event: PubSubEventView,
)
    ensures
        run(v, now, BusInputView::Local(event)).0.node == v.node,
{
}

/// Effects that carry no message are handed on as they are.
pub proof fn other_effects_stay(v: BusView, now: MonoTime, effects: Seq<EffectView>)
    requires
        forall|i: int| 0 <= i < effects.len() ==> carries(#[trigger] effects[i]) is None,
    ensures
        sorted(v, now, effects) == (v, of_node(effects)),
    decreases effects.len(),
{
    if effects.len() == 0 {
        assert(of_node(effects) =~= Seq::<BusEffectView>::empty());
    } else {
        let less = effects.drop_last();
        assert forall|i: int| 0 <= i < less.len() implies carries(#[trigger] less[i]) is None by {
            assert(less[i] == effects[i]);
        }
        other_effects_stay(v, now, less);
        assert(carries(effects[effects.len() - 1]) is None);
        assert(of_node(effects) =~= of_node(less).push(BusEffectView::Node(effects.last())));
    }
}

/// The effects of all actions hold those of each of them.
proof fn each_is_carried(
    v: RuntimeView,
    now: MonoTime,
    actions: Seq<PubSubActionView>,
    i: int,
    effect: BusEffectView,
)
    requires
        0 <= i < actions.len(),
        carried(v, now, actions[i]).contains(effect),
    ensures
        all_carried(v, now, actions).contains(effect),
    decreases actions.len(),
{
    let less = all_carried(v, now, actions.drop_last());
    let last = carried(v, now, actions.last());
    if i == actions.len() - 1 {
        let k = choose|k: int| 0 <= k < last.len() && last[k] == effect;
        assert((less + last)[less.len() + k] == effect);
    } else {
        each_is_carried(v, now, actions.drop_last(), i, effect);
        let k = choose|k: int| 0 <= k < less.len() && less[k] == effect;
        assert((less + last)[k] == effect);
    }
}

/// What stands in the pieces in a row stands in one of them.
proof fn some_piece_holds(pieces: Seq<Seq<NodeId>>, id: NodeId) -> (at: (int, int))
    requires
        pubsub_laws::joined(pieces).contains(id),
    ensures
        0 <= at.0 < pieces.len(),
        0 <= at.1 < pieces[at.0].len(),
        pieces[at.0][at.1] == id,
    decreases pieces.len(),
{
    let all = pubsub_laws::joined(pieces);
    let k = choose|k: int| 0 <= k < all.len() && all[k] == id;
    if k < pieces[0].len() {
        (0, k)
    } else {
        let rest = pubsub_laws::joined(pieces.drop_first());
        assert(rest[k - pieces[0].len()] == id);
        let at = some_piece_holds(pieces.drop_first(), id);
        assert(pieces.drop_first()[at.0] == pieces[at.0 + 1]);
        (at.0 + 1, at.1)
    }
}

/// What an application is told of a message that it gets.
pub open spec fn told(subscriptions: Map<SubId, SelectorView>, message: EnvelopeView) -> Seq<
    BusEffectView,
> {
    model::deliveries(subscriptions, message).map_values(
        |action: PubSubActionView|
            BusEffectView::Tell(
                PubSubOutcomeView::Delivered {
                    sub_id: action->sub_id,
                    envelope: action->envelope,
                    is_backfill: action->is_backfill,
                },
            ),
    )
}

/// Deliveries are told to applications.
proof fn deliveries_are_told(v: RuntimeView, now: MonoTime, actions: Seq<PubSubActionView>)
    requires
        forall|i: int| 0 <= i < actions.len() ==> #[trigger] actions[i] is DeliverToApp,
    ensures
        all_carried(v, now, actions) == actions.map_values(
            |action: PubSubActionView|
                BusEffectView::Tell(
                    PubSubOutcomeView::Delivered {
                        sub_id: action->sub_id,
                        envelope: action->envelope,
                        is_backfill: action->is_backfill,
                    },
                ),
        ),
    decreases actions.len(),
{
    let say = |action: PubSubActionView|
        BusEffectView::Tell(
            PubSubOutcomeView::Delivered {
                sub_id: action->sub_id,
                envelope: action->envelope,
                is_backfill: action->is_backfill,
            },
        );
    if actions.len() == 0 {
        assert(actions.map_values(say) =~= Seq::<BusEffectView>::empty());
    } else {
        let less = actions.drop_last();
        assert forall|i: int| 0 <= i < less.len() implies #[trigger] less[i] is DeliverToApp by {
            assert(less[i] == actions[i]);
        }
        deliveries_are_told(v, now, less);
        assert(actions[actions.len() - 1] is DeliverToApp);
        assert(actions.map_values(say) =~= less.map_values(say) + seq![say(actions.last())]);
    }
}

/// The runtimes of a mesh of buses.
pub open spec fn nodes(mesh: Map<NodeId, BusView>) -> Map<NodeId, RuntimeView> {
    mesh.map_values(|v: BusView| v.node)
}

/// What a bus does with a frame that came in.
pub open spec fn taken_in(v: BusView, now: MonoTime, link: LinkId, frame: WireView) -> Seq<
    BusEffectView,
> {
    run(v, now, BusInputView::Node(InputView::Link(LinkEventView::Frame { link, frame }))).1
}

/// Every subscription that asks for the topic of a message is told of it.
pub open spec fn tells_all(
    effects: Seq<BusEffectView>,
    subscriptions: Map<SubId, SelectorView>,
    message: EnvelopeView,
) -> bool {
    forall|i: int|
        0 <= i < told(subscriptions, message).len() ==> effects.contains(
            #[trigger] told(subscriptions, message)[i],
        )
}

/// From the effects at a node on, a message gets to the subscriptions at a node
/// within so many hops: they are told of it, or a frame leaves for a neighbour
/// that has a link back, and whenever and over whichever of these links the
/// frame comes in there, the message gets from there to the subscriptions.
pub open spec fn gets_told(
    mesh: Map<NodeId, BusView>,
    at: NodeId,
    effects: Seq<BusEffectView>,
    v: NodeId,
    message: EnvelopeView,
    hops: nat,
) -> bool
    decreases hops,
{
    ||| at == v && tells_all(effects, mesh[v].pubsub.subscriptions, message)
    ||| hops > 0 && exists|link: LinkId, frame: WireView|
        {
            let next = mesh[at].node.plane.adjacencies[link].peer;
            &&& #[trigger] effects.contains(BusEffectView::Node(EffectView::Send { link, frame }))
            &&& mesh[at].node.plane.adjacencies.contains_key(link)
            &&& mesh.contains_key(next)
            &&& crate::control::model::peers(mesh[next].node.plane.adjacencies).contains(at)
            &&& forall|back: LinkId, later: MonoTime|
                #![trigger taken_in(mesh[next], later, back, frame)]
                crate::control::model::leads_to(mesh[next].node.plane.adjacencies, back, at)
                    ==> gets_told(
                    mesh,
                    next,
                    taken_in(mesh[next], later, back, frame),
                    v,
                    message,
                    (hops - 1) as nat,
                )
        }
}

/// An effect that carries no message is handed on.
proof fn plain_effects_stay(v: BusView, now: MonoTime, effects: Seq<EffectView>, effect: EffectView)
    requires
        effects.contains(effect),
        carries(effect) is None,
    ensures
        sorted(v, now, effects).1.contains(BusEffectView::Node(effect)),
    decreases effects.len(),
{
    let all = sorted(v, now, effects).1;
    let less = sorted(v, now, effects.drop_last()).1;
    let goal = BusEffectView::Node(effect);
    if effects.last() == effect {
        assert(all.last() == goal);
    } else {
        let k = choose|k: int| 0 <= k < effects.len() && effects[k] == effect;
        assert(effects.drop_last()[k] == effect);
        plain_effects_stay(v, now, effects.drop_last(), effect);
        let m = choose|m: int| 0 <= m < less.len() && less[m] == goal;
        assert(all[m] == goal);
    }
}

/// Where a new message is delivered to a node, and no other one with it, every
/// subscription there that asks for its topic is told of it.
proof fn delivered_messages_are_told(
    v: BusView,
    now: MonoTime,
    effects: Seq<EffectView>,
    packet: PacketView,
    message: EnvelopeView,
)
    requires
        effects.contains(EffectView::Report(OutcomeView::Delivered(packet))),
        forall|i: int|
            0 <= i < effects.len() ==> (carries(#[trigger] effects[i]) matches Some(other) ==> other
                == packet),
        envelope::is_envelope_like(packet.payload),
        model::receive(v.pubsub, packet.header.source, packet.payload).1 == model::deliveries(
            v.pubsub.subscriptions,
            message,
        ),
    ensures
        tells_all(sorted(v, now, effects).1, v.pubsub.subscriptions, message),
    decreases effects.len(),
{
    let report = EffectView::Report(OutcomeView::Delivered(packet));
    let rest = effects.drop_last();
    let all = sorted(v, now, effects).1;
    let less = sorted(v, now, rest).1;
    let goal = told(v.pubsub.subscriptions, message);
    assert forall|i: int| 0 <= i < rest.len() implies (carries(#[trigger] rest[i]) matches Some(
        other,
    ) ==> other == packet) by {
        assert(rest[i] == effects[i]);
    }
    if rest.contains(report) {
        delivered_messages_are_told(v, now, rest, packet, message);
        assert forall|i: int| 0 <= i < goal.len() implies all.contains(#[trigger] goal[i]) by {
            let m = choose|m: int| 0 <= m < less.len() && less[m] == goal[i];
            assert(all[m] == goal[i]);
        }
    } else {
        let k = choose|k: int| 0 <= k < effects.len() && effects[k] == report;
        if k < rest.len() {
            assert(rest[k] == report);
        }
        assert(effects.last() == report);
        assert forall|i: int| 0 <= i < rest.len() implies carries(#[trigger] rest[i]) is None by {
            if let Some(other) = carries(rest[i]) {
                assert(rest[i] == report);
                assert(rest.contains(report));
            }
        }
        other_effects_stay(v, now, rest);
        let got = model::deliveries(v.pubsub.subscriptions, message);
        deliveries_are_told(v.node, now, got);
        assert(all == less + goal);
        assert forall|i: int| 0 <= i < goal.len() implies all.contains(#[trigger] goal[i]) by {
            assert(all[less.len() + i] == goal[i]);
        }
    }
}

/// Where a packet with a new message gets to a node, the subscriptions there are
/// told of the message.
proof fn brought_messages_are_told(
    mesh: Map<NodeId, BusView>,
    at: NodeId,
    effects: Seq<EffectView>,
    done: Seq<BusEffectView>,
    v: NodeId,
    packet: PacketView,
    message: EnvelopeView,
    hops: nat,
)
    requires
        travel::is_brought(nodes(mesh), at, effects, v, packet, hops),
        mesh.contains_key(at),
        mesh.contains_key(v),
        envelope::is_envelope_like(packet.payload),
        model::receive(mesh[v].pubsub, packet.header.source, packet.payload).1
            == model::deliveries(mesh[v].pubsub.subscriptions, message),
        forall|link: LinkId, frame: WireView| #[trigger]
            effects.contains(EffectView::Send { link, frame }) ==> done.contains(
                BusEffectView::Node(EffectView::Send { link, frame }),
            ),
        at == v && effects.contains(EffectView::Report(OutcomeView::Delivered(packet)))
            ==> tells_all(done, mesh[v].pubsub.subscriptions, message),
    ensures
        gets_told(mesh, at, done, v, message, hops),
    decreases hops,
{
    let all = nodes(mesh);
    assert(all.contains_key(at) && all[at] == mesh[at].node);
    if !(at == v && effects.contains(EffectView::Report(OutcomeView::Delivered(packet)))) {
        let (link, frame) = choose|link: LinkId, frame: WireView|
            {
                let next = all[at].plane.adjacencies[link].peer;
                &&& #[trigger] effects.contains(EffectView::Send { link, frame })
                &&& all[at].plane.adjacencies.contains_key(link)
                &&& all.contains_key(next)
                &&& crate::control::model::peers(all[next].plane.adjacencies).contains(at)
                &&& forall|back: LinkId, later: MonoTime|
                    #![trigger travel::taken_in(all[next], later, back, frame)]
                    crate::control::model::leads_to(all[next].plane.adjacencies, back, at)
                        ==> travel::is_brought(
                        all,
                        next,
                        travel::taken_in(all[next], later, back, frame),
                        v,
                        forward::one_hop_further(packet),
                        (hops - 1) as nat,
                    )
            };
        let next = all[at].plane.adjacencies[link].peer;
        assert(mesh.contains_key(next) && all[next] == mesh[next].node);
        assert(done.contains(BusEffectView::Node(EffectView::Send { link, frame })));
        assert forall|back: LinkId, later: MonoTime|
            #![trigger taken_in(mesh[next], later, back, frame)]
            crate::control::model::leads_to(
                mesh[next].node.plane.adjacencies,
                back,
                at,
            ) implies gets_told(
            mesh,
            next,
            taken_in(mesh[next], later, back, frame),
            v,
            message,
            (hops - 1) as nat,
        ) by {
            let came = travel::taken_in(all[next], later, back, frame);
            let input = InputView::Link(LinkEventView::Frame { link: back, frame });
            let did = taken_in(mesh[next], later, back, frame);
            let further = forward::one_hop_further(packet);
            let (node, _) = driver::run(mesh[next].node, later, input);
            let ready = BusView { node, ..mesh[next] };
            assert(did == sorted(ready, later, came).1);
            assert forall|l: LinkId, f: WireView| #[trigger]
                came.contains(EffectView::Send { link: l, frame: f }) implies did.contains(
                BusEffectView::Node(EffectView::Send { link: l, frame: f }),
            ) by {
                plain_effects_stay(
                    ready,
                    later,
                    came,
                    EffectView::Send { link: l, frame: f },
                );
            }
            if next == v && came.contains(EffectView::Report(OutcomeView::Delivered(further))) {
                assert forall|i: int| 0 <= i < came.len() implies (carries(
                    #[trigger] came[i],
                ) matches Some(other) ==> other == further) by {
                    if let Some(other) = carries(came[i]) {
                        assert(came.contains(came[i]));
                        travel::frames_deliver_one_packet(
                            mesh[next].node,
                            later,
                            back,
                            frame,
                            other,
                            further,
                        );
                    }
                }
                delivered_messages_are_told(ready, later, came, further, message);
            }
            brought_messages_are_told(
                mesh,
                next,
                came,
                did,
                v,
                further,
                message,
                (hops - 1) as nat,
            );
        }
    }
}

/// What an application publishes reaches applications elsewhere: in a mesh that
/// has settled, every subscription that asks for the topic, at a node that is
/// known to subscribe to it and that the message has more time to live than
/// there are hops to, is told of it, if it is new there.
pub proof fn published_messages_reach_subscribers(
    mesh: Map<NodeId, BusView>,
    now: MonoTime,
    at: NodeId,
    topic: TopicView,
    payload: Seq<u8>,
    v: NodeId,
    hops: nat,
)
    requires
        travel::has_settled(nodes(mesh)),
        mesh.contains_key(at),
        mesh.contains_key(v),
        v != at,
        mesh[at].pubsub.me == at,
        pubsub_laws::is_publishable(mesh[at].pubsub, now, topic, payload),
        topic::topic_fault(topic) is None,
        topic::subscribers_of(mesh[at].pubsub.discovery, topic).finite(),
        topic::subscribers_of(mesh[at].pubsub.discovery, topic).contains(v),
        crate::control::laws::arrives(travel::planes(nodes(mesh)), at, v, hops),
        hops < MESSAGE_TTL,
        mesh[v].pubsub.policies.contains_key(topic.name),
        model::is_new(
            mesh[v].pubsub,
            (at, topic),
            (model::last_sequence(mesh[at].pubsub, topic) + 1) as u64,
        ),
    ensures
        ({
            let message = model::next_envelope(mesh[at].pubsub, now, topic, payload);
            let publish = BusInputView::Local(PubSubEventView::LocalPublish { topic, payload });
            &&& message.origin == at
            &&& message.topic == topic
            &&& message.payload == payload
            &&& gets_told(mesh, at, run(mesh[at], now, publish).1, v, message, hops)
        }),
{
    let a = mesh[at];
    let message = model::next_envelope(a.pubsub, now, topic, payload);
    let publish = BusInputView::Local(PubSubEventView::LocalPublish { topic, payload });
    let encoded = envelope::envelope_bytes(message);
    let all = nodes(mesh);
    assert(all.contains_key(at) && all[at] == a.node);
    assert(travel::planes(all).contains_key(at) && travel::planes(all)[at] == a.node.plane);
    let pieces = model::chunks(
        model::destinations(a.pubsub, topic),
        model::chunk_limit(encoded.len()),
    );
    pubsub_laws::multicasts_reach_all_subscribers(a.pubsub, now, topic, payload);
    assert(topic::subscribers_of(a.pubsub.discovery, topic).remove(a.pubsub.me).contains(v));
    assert(pubsub_laws::joined(pieces).contains(v));
    let (i, j) = some_piece_holds(pieces, v);
    assert(pieces[i].contains(v));
    let sends = model::multicasts(a.pubsub, message, pieces);
    let told_here = model::deliveries(a.pubsub.subscriptions, message);
    let actions = model::publish(a.pubsub, now, topic, payload).1;
    let send = sends[i];
    assert(actions[told_here.len() + i] == send);
    let packet = message_packet(
        a.node.plane.me,
        send->priority,
        send->flow_id,
        send->conflate_key,
        send->conflatable,
        send->SendMulticast_payload,
    );
    ForwardFlags::of_bits(ForwardFlags::CONFLATABLE);
    ForwardFlags::of_bits(0);
    crate::wire::multicast::list_len(pieces[i], encoded);
    assert(forward::can_gather(packet, pieces[i]));
    let input = InputView::OutboundMulticast { destinations: pieces[i], packet };
    let effects = driver::run(a.node, now, input).1;
    travel::multicasts_arrive(all, now, at, pieces[i], packet, v, hops);
    let done = run(a, now, publish).1;
    assert forall|link: LinkId, frame: WireView| #[trigger]
        effects.contains(EffectView::Send { link, frame }) implies done.contains(
        BusEffectView::Node(EffectView::Send { link, frame }),
    ) by {
        let effect = EffectView::Send { link, frame };
        let k = choose|k: int| 0 <= k < effects.len() && effects[k] == effect;
        assert(of_node(effects)[k] == BusEffectView::Node(effect));
        each_is_carried(a.node, now, actions, told_here.len() + i, BusEffectView::Node(effect));
    }
    envelope::written_envelopes_are_read_back(message);
    pubsub_laws::published_messages_are_delivered(a.pubsub, now, topic, payload, mesh[v].pubsub);
    brought_messages_are_told(
        mesh,
        at,
        effects,
        done,
        v,
        forward::copy_for(packet, v),
        message,
        hops,
    );
}

/// What an application publishes reaches the subscriptions at the same node
/// that ask for its topic, before anything else happens.
pub proof fn published_messages_reach_local_subscriptions(
    v: BusView,
    now: MonoTime,
    topic: TopicView,
    payload: Seq<u8>,
)
    requires
        pubsub_laws::is_publishable(v.pubsub, now, topic, payload),
    ensures
        ({
            let message = model::next_envelope(v.pubsub, now, topic, payload);
            let publish = BusInputView::Local(PubSubEventView::LocalPublish { topic, payload });
            let here = told(v.pubsub.subscriptions, message);
            &&& here.len() <= run(v, now, publish).1.len()
            &&& run(v, now, publish).1.take(here.len() as int) == here
        }),
{
    let message = model::next_envelope(v.pubsub, now, topic, payload);
    let actions = model::publish(v.pubsub, now, topic, payload).1;
    let here = model::deliveries(v.pubsub.subscriptions, message);
    assert(actions.take(here.len() as int) =~= here);
    deliveries_are_told(v.node, now, here);
    first_are_carried_first(v.node, now, actions, here.len() as int);
}

/// The effects of the first actions come first.
proof fn first_are_carried_first(
    v: RuntimeView,
    now: MonoTime,
    actions: Seq<PubSubActionView>,
    n: int,
)
    requires
        0 <= n <= actions.len(),
    ensures
        ({
            let first = all_carried(v, now, actions.take(n));
            &&& first.len() <= all_carried(v, now, actions).len()
            &&& all_carried(v, now, actions).take(first.len() as int) == first
        }),
    decreases actions.len(),
{
    let first = all_carried(v, now, actions.take(n));
    if n == actions.len() {
        assert(actions.take(n) =~= actions);
        assert(first.take(first.len() as int) =~= first);
    } else {
        let less = actions.drop_last();
        first_are_carried_first(v, now, less, n);
        assert(less.take(n) =~= actions.take(n));
        let before = all_carried(v, now, less);
        assert(all_carried(v, now, actions).take(first.len() as int) =~= before.take(
            first.len() as int,
        ));
    }
}

/// A runtime keeps its identity.
proof fn identity_is_kept(v: RuntimeView, now: MonoTime, input: InputView)
    ensures
        driver::run(v, now, input).0.plane.me == v.plane.me,
{
    match driver::reading(v, input) {
        driver::Reading::Control(event) => {
            let signed = crate::control::auth::unsecured(
                crate::control::model::own_lsa(
                    crate::control::model::origination(v.plane, event)->0,
                ),
            );
            crate::control::laws::identity_is_kept(v.plane, now, event, signed, true);
            let (plane, actions) = crate::control::laws::unsecured_transition(v.plane, now, event);
            crate::runtime::laws::actions_are_bounded(RuntimeView { plane, ..v }, actions);
        },
        _ => {},
    }
}

} // verus!
