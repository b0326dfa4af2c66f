//! What a runtime does with each input.

use vstd::prelude::*;
use crate::control::cost::LinkCost;
use crate::control::laws;
use crate::control::message;
use crate::control::message::{ActionView, ControlAction, ControlEvent, ControlTimer, EventView};
use crate::control::model;
use crate::control::model::PlaneView;
use crate::control::plane::ControlPlane;
use crate::control::table::TableView;
use crate::forward;
use crate::forward::{DropReason, ForwardAction, ForwardActionView, ForwardEvent};
use crate::forward::{ForwardEventView, Forwarder};
use crate::order::Key;
use crate::ordered_map::OrderedMap;
use crate::runtime::codec;
use crate::runtime::error::{RuntimeError, RuntimeFault, SeqStoreError};
use crate::runtime::timers;
use crate::runtime::timers::{TimerEntry, TimerQueue};
use crate::transport::{LinkEvent, LinkEventView};
use crate::types::{Component, LinkId, MonoTime, NodeId};
use crate::wire::frame::{FrameType, WireFrame, WireView};
use crate::wire::multicast;
use crate::wire::packet;
use crate::wire::packet::{ForwardPacket, ForwardPacketCodec, PacketView};

verus! {

/// Who a node is, and what the links to its peers cost.
#[derive(Clone, Debug)]
pub struct RuntimeConfig {
    pub node_id: NodeId,
    pub epoch: u32,
    pub peer_costs: OrderedMap<NodeId, LinkCost>,
}

/// What became of a packet at a node.
#[derive(Debug, Eq, PartialEq)]
pub enum ForwardOutcome {
    Delivered(ForwardPacket),
    Dropped { reason: DropReason, packet: ForwardPacket },
    Backpressure { link: LinkId, packet: ForwardPacket },
}

/// What an outcome says.
#[verifier::ext_equal]
pub enum OutcomeView {
    Delivered(PacketView),
    Dropped { reason: DropReason, packet: PacketView },
    Backpressure { link: LinkId, packet: PacketView },
}

impl View for ForwardOutcome {
    type V = OutcomeView;

    open spec fn view(&self) -> OutcomeView {
        match *self {
            ForwardOutcome::Delivered(packet) => OutcomeView::Delivered(packet@),
            ForwardOutcome::Dropped { reason, packet } => OutcomeView::Dropped {
                reason,
                packet: packet@,
            },
            ForwardOutcome::Backpressure { link, packet } => OutcomeView::Backpressure {
                link,
                packet: packet@,
            },
        }
    }
}

impl Clone for ForwardOutcome {
    fn clone(&self) -> (copy: Self)
        ensures
            copy@ == self@,
    {
        match self {
            ForwardOutcome::Delivered(packet) => ForwardOutcome::Delivered(packet.clone()),
            ForwardOutcome::Dropped { reason, packet } => ForwardOutcome::Dropped {
                reason: *reason,
                packet: packet.clone(),
            },
            ForwardOutcome::Backpressure { link, packet } => ForwardOutcome::Backpressure {
                link: *link,
                packet: packet.clone(),
            },
        }
    }
}

/// What happens to a runtime.
pub enum RuntimeInput {
    Link(LinkEvent),
    Outbound(ForwardPacket),
    OutboundMulticast { destinations: Vec<NodeId>, packet: ForwardPacket },
    Timer(ControlTimer),
}

/// What an input says.
#[verifier::ext_equal]
pub enum InputView {
    Link(LinkEventView),
    Outbound(PacketView),
    OutboundMulticast { destinations: Seq<NodeId>, packet: PacketView },
    Timer(ControlTimer),
}

impl View for RuntimeInput {
    type V = InputView;

    open spec fn view(&self) -> InputView {
        match *self {
            RuntimeInput::Link(event) => InputView::Link(event@),
            RuntimeInput::Outbound(packet) => InputView::Outbound(packet@),
            RuntimeInput::OutboundMulticast { destinations, packet } =>
                InputView::OutboundMulticast { destinations: destinations@, packet: packet@ },
            RuntimeInput::Timer(timer) => InputView::Timer(timer),
        }
    }
}

/// What a runtime asks its caller to do.
///
/// Effects are to be carried out in order, and after each of them
/// [`after_effect`] says how the caller goes on.
#[derive(Debug, Eq, PartialEq)]
pub enum RuntimeEffect {
    Close(LinkId),
    Send { link: LinkId, frame: WireFrame },
    Persist(u64),
    Report(ForwardOutcome),
}

/// What an effect says.
#[verifier::ext_equal]
pub enum EffectView {
    Close(LinkId),
    Send { link: LinkId, frame: WireView },
    Persist(u64),
    Report(OutcomeView),
}

impl View for RuntimeEffect {
    type V = EffectView;

    open spec fn view(&self) -> EffectView {
        match *self {
            RuntimeEffect::Close(link) => EffectView::Close(link),
            RuntimeEffect::Send { link, frame } => EffectView::Send { link, frame: frame@ },
            RuntimeEffect::Persist(seq) => EffectView::Persist(seq),
            RuntimeEffect::Report(outcome) => EffectView::Report(outcome@),
        }
    }
}

impl Clone for RuntimeEffect {
    fn clone(&self) -> (copy: Self)
        ensures
            copy@ == self@,
    {
        match self {
            RuntimeEffect::Close(link) => RuntimeEffect::Close(*link),
            RuntimeEffect::Send { link, frame } => RuntimeEffect::Send {
                link: *link,
                frame: frame.clone(),
            },
            RuntimeEffect::Persist(seq) => RuntimeEffect::Persist(*seq),
            RuntimeEffect::Report(outcome) => RuntimeEffect::Report(outcome.clone()),
        }
    }
}

/// How the caller goes on after an effect.
#[derive(Clone, Copy, Debug, Eq, PartialEq)]
pub enum Next {
    /// With the next effect.
    GoOn,
    /// With the next effect, once the link is closed.
    Close(LinkId),
    /// Not at all: the runtime ends, and the effects that are left are dropped.
    Stop,
}

/// How the caller goes on after an effect: a frame that could not be sent costs
/// the link, and a sequence number that could not be stored ends the runtime.
pub open spec fn next_after(effect: EffectView, done: bool) -> Next {
    if done {
        Next::GoOn
    } else {
        match effect {
            EffectView::Persist(_) => Next::Stop,
            EffectView::Send { link, .. } => Next::Close(link),
            _ => Next::GoOn,
        }
    }
}

/// How the caller goes on after an effect; `done` is whether it could be
/// carried out.
pub fn after_effect(effect: &RuntimeEffect, done: bool) -> (next: Next)
    ensures
        next == next_after(effect@, done),
{
    if done {
        Next::GoOn
    } else {
        match effect {
            RuntimeEffect::Persist(_) => Next::Stop,
            RuntimeEffect::Send { link, .. } => Next::Close(*link),
            _ => Next::GoOn,
        }
    }
}

/// The caller gets to the effect at `n`, where `done` says which of the effects
/// before it could be carried out.
pub open spec fn gets_to(effects: Seq<EffectView>, done: Seq<bool>, n: int) -> bool {
    forall|k: int| 0 <= k < n ==> !(next_after(#[trigger] effects[k], done[k]) is Stop)
}

/// The sequence number that is stored when the caller gets to the effect at
/// `n`.
pub open spec fn stored_at(stored: u64, effects: Seq<EffectView>, done: Seq<bool>, n: int) -> u64
    decreases n,
{
    if n <= 0 {
        stored
    } else {
        match effects[n - 1] {
            EffectView::Persist(seq) => if done[n - 1] {
                seq
            } else {
                stored_at(stored, effects, done, n - 1)
            },
            _ => stored_at(stored, effects, done, n - 1),
        }
    }
}

/// What a list of effects says.
pub open spec fn views(effects: Seq<RuntimeEffect>) -> Seq<EffectView> {
    effects.map_values(|effect: RuntimeEffect| effect@)
}

/// What one more effect says.
proof fn views_push(effects: Seq<RuntimeEffect>, effect: RuntimeEffect)
    ensures
        views(effects.push(effect)) == views(effects).push(effect@),
{
    assert(views(effects.push(effect)) =~= views(effects).push(effect@));
}

/// The state of a runtime.
#[verifier::ext_equal]
pub struct RuntimeView {
    pub peer_costs: Map<NodeId, LinkCost>,
    pub plane: PlaneView,
    pub table: TableView,
    pub timers: Seq<TimerEntry>,
    pub next_timer_sequence: u64,
}

/// What an input is to a runtime.
#[verifier::ext_equal]
pub enum Reading {
    /// Its link is to be closed.
    Refused(LinkId),
    /// Something for the control plane.
    Control(EventView),
    /// A packet for the forwarder.
    Forward(ForwardEventView),
    /// Nothing.
    Nothing,
}

/// What an input is to a runtime: a link to a peer without a cost and a frame
/// that cannot be read are refused, control messages and timers go to the
/// control plane, packets go to the forwarder.
pub open spec fn reading(v: RuntimeView, input: InputView) -> Reading {
    match input {
        InputView::Timer(timer) => Reading::Control(EventView::Timer(timer)),
        InputView::Outbound(packet) => Reading::Forward(
            ForwardEventView::Outbound(packet),
        ),
        InputView::OutboundMulticast { destinations, packet } => Reading::Forward(
            ForwardEventView::OutboundMulticast { destinations, packet },
        ),
        InputView::Link(LinkEventView::Up { link, peer }) => if v.peer_costs.contains_key(peer) {
            Reading::Control(EventView::LinkUp { link, peer, cost: v.peer_costs[peer] })
        } else {
            Reading::Refused(link)
        },
        InputView::Link(LinkEventView::Down { link }) => Reading::Control(
            EventView::LinkDown { link },
        ),
        InputView::Link(LinkEventView::Frame { link, frame }) => if frame.frame_type
            == FrameType::Forward {
            match codec::forward_read(frame) {
                Ok(packet) => Reading::Forward(ForwardEventView::Inbound { link, packet }),
                Err(_) => Reading::Refused(link),
            }
        } else {
            match codec::control_read(frame) {
                Ok(control) => Reading::Control(EventView::Frame { link, frame: control }),
                Err(_) => Reading::Refused(link),
            }
        },
        InputView::Link(LinkEventView::Sent { .. }) => Reading::Nothing,
    }
}

/// The number after a number, or zero after the last one.
pub open spec fn after_number(n: u64) -> u64 {
    if n == u64::MAX {
        0
    } else {
        (n + 1) as u64
    }
}

/// Carries out one action of the control plane.
pub open spec fn apply_action(v: RuntimeView, action: ActionView) -> (
    RuntimeView,
    Option<EffectView>,
) {
    match action {
        ActionView::Send { link, frame } => (
            v,
            match codec::sendable(frame) {
                Some(wire) => Some(EffectView::Send { link, frame: wire }),
                None => None,
            },
        ),
        ActionView::SetTimer { timer, at } => (
            RuntimeView {
                timers: timers::scheduled(
                    v.timers,
                    TimerEntry { at: at.millis(), sequence: v.next_timer_sequence, timer },
                ),
                next_timer_sequence: after_number(v.next_timer_sequence),
                ..v
            },
            None,
        ),
        ActionView::PublishRoutes(table) => (RuntimeView { table, ..v }, None),
        ActionView::PersistSeq(seq) => (v, Some(EffectView::Persist(seq))),
    }
}

/// The effects with one more, if there is one.
pub open spec fn and_then(effects: Seq<EffectView>, more: Option<EffectView>) -> Seq<EffectView> {
    match more {
        Some(effect) => effects.push(effect),
        None => effects,
    }
}

/// Carries out the actions of the control plane in order.
pub open spec fn apply_actions(v: RuntimeView, actions: Seq<ActionView>) -> (
    RuntimeView,
    Seq<EffectView>,
)
    decreases actions.len(),
{
    if actions.len() == 0 {
        (v, Seq::empty())
    } else {
        let (before, effects) = apply_actions(v, actions.drop_last());
        let (next, effect) = apply_action(before, actions.last());
        (next, and_then(effects, effect))
    }
}

/// The effect of an action of the forwarder. A packet that cannot be written
/// is not sent.
pub open spec fn forward_effect(action: ForwardActionView) -> Option<EffectView> {
    match action {
        ForwardActionView::Send { link, packet } => if packet::is_writable(packet) {
            Some(EffectView::Send { link, frame: codec::forward_wire(packet) })
        } else {
            None
        },
        ForwardActionView::DeliverLocal(packet) => Some(
            EffectView::Report(OutcomeView::Delivered(packet)),
        ),
        ForwardActionView::Drop { reason, packet } => Some(
            EffectView::Report(OutcomeView::Dropped { reason, packet }),
        ),
    }
}

/// The effects of actions of the forwarder.
pub open spec fn forward_effects(actions: Seq<ForwardActionView>) -> Seq<EffectView>
    decreases actions.len(),
{
    if actions.len() == 0 {
        Seq::empty()
    } else {
        and_then(forward_effects(actions.drop_last()), forward_effect(actions.last()))
    }
}

/// What a runtime does with an input: its state after it, and the effects.
pub open spec fn run(v: RuntimeView, now: MonoTime, input: InputView) -> (
    RuntimeView,
    Seq<EffectView>,
) {
    match reading(v, input) {
        Reading::Refused(link) => (v, seq![EffectView::Close(link)]),
        Reading::Nothing => (v, Seq::empty()),
        Reading::Forward(event) => (
            v,
            forward_effects(forward::step(v.plane.me, v.table, event).1),
        ),
        Reading::Control(event) => {
            let (plane, actions) = laws::unsecured_transition(v.plane, now, event);
            apply_actions(RuntimeView { plane, ..v }, actions)
        },
    }
}

/// No counter that the input advances is exhausted.
pub open spec fn has_numbers(v: RuntimeView, now: MonoTime, input: InputView) -> bool {
    reading(v, input) matches Reading::Control(event) ==> model::has_numbers(
        v.plane,
        now,
        event,
        true,
    )
}

/// The state of a new runtime.
pub open spec fn initial(
    node: NodeId,
    epoch: u32,
    peer_costs: Map<NodeId, LinkCost>,
    last_seq: u64,
) -> RuntimeView {
    RuntimeView {
        peer_costs,
        plane: model::initial(node, epoch, last_seq),
        table: TableView { version: 0, routes: Map::empty() },
        timers: Seq::empty(),
        next_timer_sequence: 0,
    }
}

/// Why a runtime cannot start, if it cannot: the endpoint belongs to another
/// node, the last sequence number could not be loaded, or there is none after
/// it.
pub open spec fn start_fault(
    endpoint: NodeId,
    configured: NodeId,
    loaded: Result<u64, SeqStoreError>,
) -> Option<RuntimeFault> {
    if endpoint != configured {
        Some(RuntimeFault::EndpointNodeMismatch { endpoint, configured })
    } else {
        match loaded {
            Err(error) => Some(RuntimeFault::SeqStore(error@)),
            Ok(seq) => if seq == u64::MAX {
                Some(RuntimeFault::SequenceExhausted)
            } else {
                None
            },
        }
    }
}

/// Drives the control plane and the forwarder of one node.
pub struct RuntimeCore {
    peer_costs: OrderedMap<NodeId, LinkCost>,
    plane: ControlPlane,
    forwarder: Forwarder,
    timers: TimerQueue,
}

impl View for RuntimeCore {
    type V = RuntimeView;

    closed spec fn view(&self) -> RuntimeView {
        RuntimeView {
            peer_costs: self.peer_costs@,
            plane: self.plane@,
            table: self.forwarder.table(),
            timers: self.timers.entries(),
            next_timer_sequence: self.timers.next_sequence(),
        }
    }
}

impl RuntimeCore {
    /// The parts are well-formed and belong to one node, and the control plane
    /// has a place for its own announcement and announces the links that are up.
    pub closed spec fn wf(&self) -> bool {
        &&& self.peer_costs.wf()
        &&& self.plane.wf()
        &&& self.plane.is_unsecured()
        &&& laws::has_own_place(self.plane@)
        &&& laws::knows_itself(self.plane@)
        &&& laws::announces_its_links(self.plane@)
        &&& laws::holds_acceptable(self.plane@)
        &&& self.forwarder.wf()
        &&& self.forwarder.me() == self.plane@.me
    }

    /// The control plane of a well-formed runtime is in a state that can be
    /// reached.
    pub proof fn state_is_valid(&self)
        requires
            self.wf(),
        ensures
            model::is_valid(self@.plane),
            self@.plane.adjacencies.dom().finite(),
            laws::has_own_place(self@.plane),
            laws::knows_itself(self@.plane),
            laws::announces_its_links(self@.plane),
            laws::holds_acceptable(self@.plane),
    {
        self.plane.state_is_valid();
    }

    /// A runtime that has done nothing since `loaded` was stored.
    pub fn start(
        config: RuntimeConfig,
        endpoint: NodeId,
        loaded: Result<u64, SeqStoreError>,
    ) -> (core: Result<Self, RuntimeError>)
        requires
            config.peer_costs.wf(),
        ensures
            match core {
                Ok(c) => {
                    &&& start_fault(endpoint, config.node_id, loaded) is None
                    &&& c.wf()
                    &&& c@ == initial(
                        config.node_id,
                        config.epoch,
                        config.peer_costs@,
                        loaded->Ok_0,
                    )
                },
                Err(error) => start_fault(endpoint, config.node_id, loaded) == Some(error@),
            },
    {
        if endpoint != config.node_id {
            return Err(
                RuntimeError::EndpointNodeMismatch { endpoint, configured: config.node_id },
            );
        }
        let last_seq: u64 = match loaded {
            Ok(seq) => seq,
            Err(error) => {
                return Err(RuntimeError::SeqStore(error));
            },
        };
        if last_seq == u64::MAX {
            return Err(RuntimeError::SequenceExhausted);
        }
        let plane = ControlPlane::new_unsecured_with_seq(config.node_id, config.epoch, last_seq);
        let forwarder = Forwarder::new(config.node_id, plane.route_table());
        let core = RuntimeCore {
            peer_costs: config.peer_costs,
            plane,
            forwarder,
            timers: TimerQueue::new(),
        };
        assert(core@ =~= initial(
            config.node_id,
            config.epoch,
            config.peer_costs@,
            loaded->Ok_0,
        ));
        Ok(core)
    }

    /// The identity of the node.
    pub fn node_id(&self) -> (node: NodeId)
        ensures
            node == self@.plane.me,
    {
        self.plane.node_id()
    }

    /// The control plane.
    pub fn plane(&self) -> (plane: &ControlPlane)
        requires
            self.wf(),
        ensures
            plane@ == self@.plane,
            plane.wf(),
    {
        &self.plane
    }

    /// Sets what a link to a peer costs. Links that are up keep their cost.
    pub fn allow_peer(&mut self, peer: NodeId, cost: LinkCost)
        requires
            old(self).wf(),
        ensures
            final(self).wf(),
            final(self)@ == (RuntimeView {
                peer_costs: old(self)@.peer_costs.insert(peer, cost),
                ..old(self)@
            }),
    {
        let ghost before = self@;
        self.peer_costs.insert(peer, cost);
        assert(self@ =~= RuntimeView {
            peer_costs: before.peer_costs.insert(peer, cost),
            ..before
        });
    }

    /// When the next deadline falls due, if one is set.
    pub fn next_timer_at(&self) -> (at: Option<u64>)
        ensures
            at == if self@.timers.len() > 0 {
                Some(self@.timers[0].at)
            } else {
                None
            },
    {
        self.timers.next_at()
    }

    /// Takes the next deadline, if it has fallen due.
    pub fn take_due_timer(&mut self, now: MonoTime) -> (timer: Option<ControlTimer>)
        requires
            old(self).wf(),
        ensures
            final(self).wf(),
            match timer {
                Some(t) => {
                    &&& old(self)@.timers.len() > 0
                    &&& old(self)@.timers[0].at <= now.millis()
                    &&& t == old(self)@.timers[0].timer
                    &&& final(self)@ == (RuntimeView {
                        timers: old(self)@.timers.drop_first(),
                        ..old(self)@
                    })
                },
                None => {
                    &&& old(self)@.timers.len() > 0 ==> old(self)@.timers[0].at > now.millis()
                    &&& final(self)@ == old(self)@
                },
            },
    {
        self.timers.take_due(now)
    }

    /// Takes the next deadline, if one is set.
    pub fn take_next_timer(&mut self) -> (timer: Option<ControlTimer>)
        requires
            old(self).wf(),
        ensures
            final(self).wf(),
            match timer {
                Some(t) => {
                    &&& old(self)@.timers.len() > 0
                    &&& t == old(self)@.timers[0].timer
                    &&& final(self)@ == (RuntimeView {
                        timers: old(self)@.timers.drop_first(),
                        ..old(self)@
                    })
                },
                None => {
                    &&& old(self)@.timers.len() == 0
                    &&& final(self)@ == old(self)@
                },
            },
    {
        self.timers.take_next()
    }

    /// Whether every counter can still be advanced, so that any input can be
    /// taken.
    pub fn has_numbers_left(&self) -> (left: bool)
        ensures
            left ==> forall|now: MonoTime, input: InputView| #[trigger]
                has_numbers(self@, now, input),
            left == (self@.plane.my_seq < u64::MAX && self@.plane.spf_generation < u64::MAX
                && self@.plane.routes.version < u64::MAX),
    {
        self.plane.has_numbers_left()
    }

    /// Hands an event to the control plane and carries out what it asks for.
    fn control(&mut self, now: MonoTime, event: ControlEvent) -> (effects: Vec<RuntimeEffect>)
        requires
            old(self).wf(),
            model::has_numbers(old(self)@.plane, now, event@, true),
        ensures
            final(self).wf(),
            ({
                let (plane, actions) = laws::unsecured_transition(old(self)@.plane, now, event@);
                (final(self)@, views(effects@)) == apply_actions(
                    RuntimeView { plane, ..old(self)@ },
                    actions,
                )
            }),
    {
        let ghost start = self@;
        let ghost seen = event@;
        let ghost before = self.plane;
        proof {
            self.plane.state_is_valid();
            laws::unsecured_planes_can_announce(self.plane, seen);
            assert forall|accepted: bool| #[trigger] self.plane.may_say(
                seen,
                accepted,
            ) implies model::has_numbers(self.plane@, now, seen, accepted) by {
                if let Some(message) = model::judgement(self.plane@, seen) {
                    assert(self.plane.may_judge(message, accepted));
                }
            }
        }
        let actions = self.plane.handle(now, event);
        let ghost goal = laws::unsecured_transition(start.plane, now, seen);
        let ghost asked = message::views(actions@);
        proof {
            laws::unsecured_steps_are_determined(before, now, event, self.plane, actions@);
            let signed = crate::control::auth::unsecured(
                model::own_lsa(model::origination(before@, seen)->0),
            );
            laws::own_place_is_kept(before@, now, seen, signed, true);
            laws::self_knowledge_is_kept(before@, now, seen, signed, true);
            laws::own_announcement_is_kept_current(before@, now, seen, signed, true);
            laws::bounds_are_kept(before@, now, seen, signed, true);
            laws::published_routes_are_current(before@, now, seen, signed, true);
            laws::identity_is_kept(before@, now, seen, signed, true);
        }
        let ghost ready = RuntimeView { plane: goal.0, ..start };
        let mut effects: Vec<RuntimeEffect> = Vec::new();
        let mut i: usize = 0;
        proof {
            assert(asked.take(0) =~= Seq::<ActionView>::empty());
            assert(self@ =~= ready);
            assert(views(effects@) =~= Seq::<EffectView>::empty());
        }
        while i < actions.len()
            invariant
                i <= actions@.len(),
                asked == message::views(actions@),
                self.wf(),
                self.plane@ == goal.0,
                forall|k: int|
                    0 <= k < asked.len() ==> ((#[trigger] asked[k]) matches
                        ActionView::PublishRoutes(table) ==> table == goal.0.routes),
                (self@, views(effects@)) == apply_actions(ready, asked.take(i as int)),
            decreases actions@.len() - i,
        {
            let ghost sofar = self@;
            let ghost done = effects@;
            proof {
                let next = asked.take(i + 1);
                assert(next.drop_last() =~= asked.take(i as int));
                assert(next.last() == actions@[i as int]@);
                assert(asked[i as int] == actions@[i as int]@);
            }
            match &actions[i] {
                ControlAction::Send { link, frame } => match codec::to_wire(frame) {
                    Some(wire) => {
                        let effect = RuntimeEffect::Send { link: *link, frame: wire };
                        effects.push(effect);
                        proof {
                            views_push(done, effect);
                        }
                    },
                    None => {},
                },
                ControlAction::SetTimer { timer, at } => {
                    self.timers.schedule(*at, *timer);
                    assert(self@ =~= apply_action(sofar, actions@[i as int]@).0);
                },
                ControlAction::PublishRoutes(_) => {
                    let table = self.plane.route_table();
                    let _ = self.forwarder.handle(now, ForwardEvent::RoutesUpdated(table));
                    assert(self@ =~= apply_action(sofar, actions@[i as int]@).0);
                },
                ControlAction::PersistSeq(seq) => {
                    let effect = RuntimeEffect::Persist(*seq);
                    effects.push(effect);
                    proof {
                        views_push(done, effect);
                    }
                },
            }
            i = i + 1;
        }
        assert(asked.take(i as int) =~= asked);
        effects
    }

    /// Hands an event to the forwarder and adds what it asks for.
    fn forward(&mut self, now: MonoTime, event: ForwardEvent, effects: &mut Vec<RuntimeEffect>)
        requires
            old(self).wf(),
            !(event is RoutesUpdated),
        ensures
            final(self).wf(),
            final(self)@ == old(self)@,
            views(final(effects)@) == views(old(effects)@) + forward_effects(
                forward::step(old(self)@.plane.me, old(self)@.table, event@).1,
            ),
    {
        let ghost start = self@;
        let ghost seen = event@;
        let ghost done = views(effects@);
        let actions = self.forwarder.handle(now, event);
        let ghost asked = forward::views(actions@);
        proof {
            assert(self@ =~= start);
            assert(asked == forward::step(start.plane.me, start.table, seen).1);
            assert(asked.take(0) =~= Seq::<ForwardActionView>::empty());
            assert(done + Seq::<EffectView>::empty() =~= done);
        }
        let mut i: usize = 0;
        while i < actions.len()
            invariant
                i <= actions@.len(),
                asked == forward::views(actions@),
                views(effects@) == done + forward_effects(asked.take(i as int)),
            decreases actions@.len() - i,
        {
            let ghost sofar = effects@;
            let ghost action = actions@[i as int]@;
            proof {
                let next = asked.take(i + 1);
                assert(next.drop_last() =~= asked.take(i as int));
                assert(next.last() == action);
            }
            let effect = match &actions[i] {
                ForwardAction::Send { link, packet } => match codec::encode_forward_frame(packet) {
                    Ok(frame) => Some(RuntimeEffect::Send { link: *link, frame }),
                    Err(_) => None,
                },
                ForwardAction::DeliverLocal(packet) => Some(
                    RuntimeEffect::Report(ForwardOutcome::Delivered(packet.clone())),
                ),
                ForwardAction::Drop { reason, packet } => Some(
                    RuntimeEffect::Report(
                        ForwardOutcome::Dropped { reason: *reason, packet: packet.clone() },
                    ),
                ),
            };
            if let Some(effect) = effect {
                proof {
                    views_push(sofar, effect);
                    assert(forward_effect(action) == Some(effect@));
                }
                effects.push(effect);
            }
            proof {
                assert(views(effects@) =~= done + forward_effects(asked.take(i + 1)));
            }
            i = i + 1;
        }
        assert(asked.take(i as int) =~= asked);
    }

    /// Takes an input, and says what is to be done.
    pub fn step(&mut self, now: MonoTime, input: RuntimeInput) -> (effects: Vec<RuntimeEffect>)
        requires
            old(self).wf(),
            has_numbers(old(self)@, now, input@),
        ensures
            final(self).wf(),
            (final(self)@, views(effects@)) == run(old(self)@, now, input@),
    {
        let ghost start = self@;
        let ghost seen = input@;
        let mut effects: Vec<RuntimeEffect> = Vec::new();
        assert(views(effects@) =~= Seq::<EffectView>::empty());
        match input {
            RuntimeInput::Timer(timer) => self.control(now, ControlEvent::Timer(timer)),
            RuntimeInput::Outbound(packet) => {
                self.forward(now, ForwardEvent::Outbound(packet), &mut effects);
                assert(views(effects@) =~= run(start, now, seen).1);
                effects
            },
            RuntimeInput::OutboundMulticast { destinations, packet } => {
                let event = ForwardEvent::OutboundMulticast { destinations, packet };
                self.forward(now, event, &mut effects);
                assert(views(effects@) =~= run(start, now, seen).1);
                effects
            },
            RuntimeInput::Link(LinkEvent::Up { link, peer }) => match self.peer_costs.get(&peer) {
                Some(cost) => {
                    let cost: LinkCost = *cost;
                    self.control(now, ControlEvent::LinkUp { link, peer, cost })
                },
                None => {
                    effects.push(RuntimeEffect::Close(link));
                    assert(views(effects@) =~= seq![EffectView::Close(link)]);
                    effects
                },
            },
            RuntimeInput::Link(LinkEvent::Down { link }) => self.control(
                now,
                ControlEvent::LinkDown { link },
            ),
            RuntimeInput::Link(LinkEvent::Frame { link, frame }) => {
                if frame.frame_type == FrameType::Forward {
                    match codec::decode_forward_frame(frame) {
                        Ok(packet) => {
                            self.forward(
                                now,
                                ForwardEvent::Inbound { link, packet },
                                &mut effects,
                            );
                            assert(views(effects@) =~= run(start, now, seen).1);
                            effects
                        },
                        Err(_) => {
                            effects.push(RuntimeEffect::Close(link));
                            assert(views(effects@) =~= seq![EffectView::Close(link)]);
                            effects
                        },
                    }
                } else {
                    match codec::decode_control_frame(frame) {
                        Ok(control) => self.control(
                            now,
                            ControlEvent::Frame { link, frame: control },
                        ),
                        Err(_) => {
                            effects.push(RuntimeEffect::Close(link));
                            assert(views(effects@) =~= seq![EffectView::Close(link)]);
                            effects
                        },
                    }
                }
            },
            RuntimeInput::Link(LinkEvent::Sent { .. }) => effects,
        }
    }
}

/// Refuses a packet that cannot be sent.
pub fn check_packet(packet: &ForwardPacket) -> (checked: Result<(), RuntimeError>)
    ensures
        match checked {
            Ok(_) => packet::is_writable(packet@),
            Err(error) => {
                &&& !packet::is_writable(packet@)
                &&& error@ == RuntimeFault::ForwardPacket(
                    packet::ForwardPacketError::PayloadTooLarge(packet@.payload.len() as usize),
                )
            },
        },
{
    match ForwardPacketCodec::encode(packet) {
        Ok(_) => Ok(()),
        Err(error) => Err(RuntimeError::ForwardPacket(error)),
    }
}

/// Refuses a packet for several destinations that cannot be sent: their list
/// takes part of the payload.
pub fn check_multicast(destinations: &Vec<NodeId>, packet: &ForwardPacket) -> (checked: Result<
    (),
    RuntimeError,
>)
    ensures
        ({
            let len = multicast::list_bytes(destinations@, packet@.payload).len();
            match checked {
                Ok(_) => len <= packet::MAX_FORWARD_PAYLOAD_LEN,
                Err(error) => {
                    &&& len > packet::MAX_FORWARD_PAYLOAD_LEN
                    &&& error@ == RuntimeFault::ForwardPacket(
                        packet::ForwardPacketError::PayloadTooLarge(len as usize),
                    )
                },
            }
        }),
{
    let whole = ForwardPacket {
        header: packet.header,
        payload: multicast::write_list(destinations, &packet.payload),
    };
    match ForwardPacketCodec::encode(&whole) {
        Ok(_) => Ok(()),
        Err(error) => Err(RuntimeError::ForwardPacket(error)),
    }
}

} // verus!
