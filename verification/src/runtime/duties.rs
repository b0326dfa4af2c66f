//! What a node owes to its links, its peers, its clock and its applications.

use vstd::prelude::*;
use crate::control::announcements;
use crate::control::auth;
use crate::control::cost::LinkCost;
use crate::control::laws as control_laws;
use crate::control::message::{ActionView, ControlTimer, EventView, FrameView, MessageView};
use crate::control::model;
use crate::control::model::LocalAdjacency;
use crate::control::plane::ControlPlane;
use crate::control::routing;
use crate::delivery;
use crate::forward;
use crate::forward::{DropReason, ForwardActionView, ForwardEventView};
use crate::runtime::codec;
use crate::runtime::driver;
use crate::runtime::driver::{EffectView, InputView, Next, OutcomeView, RuntimeConfig, RuntimeCore};
use crate::runtime::driver::{RuntimeEffect, RuntimeInput, RuntimeView};
use crate::runtime::error::{RuntimeError, RuntimeFault, SeqStoreError};
use crate::runtime::laws;
use crate::runtime::timers;
use crate::runtime::timers::{TimerEntry, TimerQueue};
use crate::runtime::travel;
use crate::transport::LinkEventView;
use crate::types::{LinkId, MonoTime, NodeId};
use crate::wire::frame::{Channel, FrameType, WireFrame, WireView};
use crate::wire::layout;
use crate::wire::multicast;
use crate::wire::packet;
use crate::wire::packet::{ForwardPacket, PacketType, PacketView, Priority};
use crate::wire::proto;

verus! {

/// What happens to a runtime: it takes an input, is told what a link to a peer
/// costs, or hands out its next deadline.
#[verifier::ext_equal]
pub enum Happening {
    Takes { now: MonoTime, input: InputView },
    Allows { peer: NodeId, cost: LinkCost },
    HandsOut,
}

/// The state after something has happened.
pub open spec fn next(v: RuntimeView, happening: Happening) -> RuntimeView {
    match happening {
        Happening::Takes { now, input } => driver::run(v, now, input).0,
        Happening::Allows { peer, cost } => RuntimeView {
            peer_costs: v.peer_costs.insert(peer, cost),
            ..v
        },
        Happening::HandsOut => RuntimeView {
            timers: if v.timers.len() > 0 {
                v.timers.drop_first()
            } else {
                v.timers
            },
            ..v
        },
    }
}

/// The state after many things have happened.
pub open spec fn after(v: RuntimeView, happenings: Seq<Happening>) -> RuntimeView
    decreases happenings.len(),
{
    if happenings.len() == 0 {
        v
    } else {
        next(after(v, happenings.drop_last()), happenings.last())
    }
}

/// What links to peers cost after many things have happened.
pub open spec fn costs_told(
    costs: Map<NodeId, LinkCost>,
    happenings: Seq<Happening>,
) -> Map<NodeId, LinkCost>
    decreases happenings.len(),
{
    if happenings.len() == 0 {
        costs
    } else {
        let before = costs_told(costs, happenings.drop_last());
        match happenings.last() {
            Happening::Allows { peer, cost } => before.insert(peer, cost),
            _ => before,
        }
    }
}

/// The links whose last input said that they are up, each with the peer and
/// the cost that it came up with. A link to a peer that has no cost does not
/// come up.
pub open spec fn links_told(
    costs: Map<NodeId, LinkCost>,
    happenings: Seq<Happening>,
) -> Map<LinkId, LocalAdjacency>
    decreases happenings.len(),
{
    if happenings.len() == 0 {
        Map::empty()
    } else {
        let less = happenings.drop_last();
        let before = links_told(costs, less);
        match happenings.last() {
            Happening::Takes {
                input: InputView::Link(LinkEventView::Up { link, peer }),
                ..
            } => if costs_told(costs, less).contains_key(peer) {
                before.insert(link, LocalAdjacency { peer, cost: costs_told(costs, less)[peer] })
            } else {
                before
            },
            Happening::Takes {
                input: InputView::Link(LinkEventView::Down { link }),
                ..
            } => before.remove(link),
            _ => before,
        }
    }
}

/// What an input does to the links that a node knows.
proof fn inputs_change_links(v: RuntimeView, now: MonoTime, input: InputView)
    ensures
        driver::run(v, now, input).0.plane.adjacencies == match input {
            InputView::Link(LinkEventView::Up { link, peer }) => if v.peer_costs.contains_key(
                peer,
            ) {
                v.plane.adjacencies.insert(
                    link,
                    LocalAdjacency { peer, cost: v.peer_costs[peer] },
                )
            } else {
                v.plane.adjacencies
            },
            InputView::Link(LinkEventView::Down { link }) => v.plane.adjacencies.remove(link),
            _ => v.plane.adjacencies,
        },
        driver::run(v, now, input).0.peer_costs == v.peer_costs,
        driver::run(v, now, input).0.plane.me == v.plane.me,
{
    match driver::reading(v, input) {
        driver::Reading::Control(event) => {
            let signed = auth::unsecured(model::own_lsa(model::origination(v.plane, event)->0));
            announcements::links_follow_events(v.plane, now, event, signed, true);
            let (plane, actions) = control_laws::unsecured_transition(v.plane, now, event);
            laws::actions_are_bounded(RuntimeView { plane, ..v }, actions);
        },
        _ => {},
    }
}

/// At any time, the links that a node knows are exactly those whose last input
/// said that they are up, where the peer had a cost.
pub proof fn links_are_those_told_up(
    node: NodeId,
    epoch: u32,
    costs: Map<NodeId, LinkCost>,
    last_seq: u64,
    happenings: Seq<Happening>,
)
    ensures
        after(driver::initial(node, epoch, costs, last_seq), happenings).plane.adjacencies
            == links_told(costs, happenings),
        after(driver::initial(node, epoch, costs, last_seq), happenings).peer_costs == costs_told(
            costs,
            happenings,
        ),
        after(driver::initial(node, epoch, costs, last_seq), happenings).plane.me == node,
        links_told(costs, happenings).dom().finite(),
    decreases happenings.len(),
{
    if happenings.len() > 0 {
        let less = happenings.drop_last();
        links_are_those_told_up(node, epoch, costs, last_seq, less);
        let before = after(driver::initial(node, epoch, costs, last_seq), less);
        match happenings.last() {
            Happening::Takes { now, input } => {
                inputs_change_links(before, now, input);
            },
            _ => {},
        }
    }
}

/// The own announcement stays that of the links that are up.
proof fn own_announcements_stay_current(
    node: NodeId,
    epoch: u32,
    costs: Map<NodeId, LinkCost>,
    last_seq: u64,
    happenings: Seq<Happening>,
)
    ensures
        control_laws::announces_its_links(
            after(driver::initial(node, epoch, costs, last_seq), happenings).plane,
        ),
    decreases happenings.len(),
{
    if happenings.len() > 0 {
        let less = happenings.drop_last();
        own_announcements_stay_current(node, epoch, costs, last_seq, less);
        let before = after(driver::initial(node, epoch, costs, last_seq), less);
        if let Happening::Takes { now, input } = happenings.last() {
            if let driver::Reading::Control(event) = driver::reading(before, input) {
                control_laws::unsecured_announcement_is_kept_current(before.plane, now, event);
                let (plane, actions) = control_laws::unsecured_transition(before.plane, now, event);
                laws::actions_are_bounded(RuntimeView { plane, ..before }, actions);
            }
        }
    }
}

/// At any time, the own announcement that is in force lists exactly the links
/// whose last input said that they are up.
pub proof fn own_announcements_list_the_links_told_up(
    node: NodeId,
    epoch: u32,
    costs: Map<NodeId, LinkCost>,
    last_seq: u64,
    happenings: Seq<Happening>,
)
    ensures
        ({
            let v = after(driver::initial(node, epoch, costs, last_seq), happenings);
            v.plane.lsdb.contains_key(node) ==> (v.plane.lsdb[node].active matches Some(active)
                ==> {
                &&& active.message.lsa.origin == node
                &&& active.message.lsa.seq == v.plane.my_seq
                &&& announcements::are_edges_of(
                    active.message.lsa.adjacencies,
                    links_told(costs, happenings),
                )
            })
        }),
{
    let v = after(driver::initial(node, epoch, costs, last_seq), happenings);
    links_are_those_told_up(node, epoch, costs, last_seq, happenings);
    own_announcements_stay_current(node, epoch, costs, last_seq, happenings);
    announcements::announced_edges_are_the_links(v.plane.adjacencies);
}

/// The effect of an action of the control plane: a message that can be written
/// is sent, and a number is stored.
pub open spec fn effect_of(action: ActionView) -> Option<EffectView> {
    match action {
        ActionView::Send { link, frame } => if layout::is_bounded(frame) && layout::control_layout(
            frame,
        ).len() <= usize::MAX / 4 {
            Some(EffectView::Send { link, frame: layout::control_frame(frame) })
        } else {
            None
        },
        ActionView::PersistSeq(seq) => Some(EffectView::Persist(seq)),
        _ => None,
    }
}

/// The deadline is set.
pub open spec fn is_set(entries: Seq<TimerEntry>, timer: ControlTimer, at: MonoTime) -> bool {
    exists|k: int|
        0 <= k < entries.len() && (#[trigger] entries[k]).timer == timer && entries[k].at
            == at.millis()
}

/// The effect of an action is the same in every state.
proof fn effects_are_those_of_actions(v: RuntimeView, action: ActionView)
    ensures
        driver::apply_action(v, action).1 == effect_of(action),
{
    if let ActionView::Send { link, frame } = action {
        layout::bounded_control_messages_can_be_sent(frame);
    }
}

/// What is asked for is done.
proof fn actions_are_done(v: RuntimeView, actions: Seq<ActionView>, i: int)
    requires
        0 <= i < actions.len(),
        timers::is_in_order(v.timers),
    ensures
        effect_of(actions[i]) matches Some(effect) ==> driver::apply_actions(
            v,
            actions,
        ).1.contains(effect),
        actions[i] matches ActionView::SetTimer { timer, at } ==> is_set(
            driver::apply_actions(v, actions).0.timers,
            timer,
            at,
        ),
    decreases actions.len(),
{
    let less = actions.drop_last();
    let (next, effects) = driver::apply_actions(v, actions);
    let before = driver::apply_actions(v, less).1;
    effects_are_those_of_actions(v, actions[i]);
    match actions[i] {
        ActionView::SetTimer { timer, at } => {
            laws::timers_are_set(v, actions, i);
        },
        _ => {},
    }
    if let Some(effect) = effect_of(actions[i]) {
        if i == actions.len() - 1 {
            assert(effects.last() == effect);
        } else {
            actions_are_done(v, less, i);
            let k = choose|k: int| 0 <= k < before.len() && before[k] == effect;
            assert(effects[k] == effect);
        }
    }
}

/// Nothing is done that is not asked for.
proof fn effects_are_asked_for(v: RuntimeView, actions: Seq<ActionView>, effect: EffectView) -> (i:
    int)
    requires
        driver::apply_actions(v, actions).1.contains(effect),
    ensures
        0 <= i < actions.len(),
        effect_of(actions[i]) == Some(effect),
    decreases actions.len(),
{
    let less = actions.drop_last();
    let effects = driver::apply_actions(v, actions).1;
    let before = driver::apply_actions(v, less).1;
    effects_are_those_of_actions(driver::apply_actions(v, less).0, actions.last());
    let k = choose|k: int| 0 <= k < effects.len() && effects[k] == effect;
    if k < before.len() {
        assert(before[k] == effect);
        let i = effects_are_asked_for(v, less, effect);
        assert(less[i] == actions[i]);
        i
    } else {
        actions.len() - 1
    }
}

/// The input is something for the control plane: a deadline, a link that goes
/// down, a link that comes up to a peer with a cost, or a control message.
pub open spec fn is_control(v: RuntimeView, input: InputView, event: EventView) -> bool {
    match input {
        InputView::Timer(timer) => event == EventView::Timer(timer),
        InputView::Link(LinkEventView::Up { link, peer }) => v.peer_costs.contains_key(peer)
            && event == EventView::LinkUp { link, peer, cost: v.peer_costs[peer] },
        InputView::Link(LinkEventView::Down { link }) => event == EventView::LinkDown { link },
        InputView::Link(LinkEventView::Frame { link, frame }) => {
            &&& event matches EventView::Frame { link: over, frame: control }
            &&& over == link
            &&& frame.frame_type != FrameType::Forward
            &&& codec::control_read(frame) == Ok::<FrameView, RuntimeFault>(control)
        },
        _ => false,
    }
}

/// What is for the control plane reaches it, and what it asks for is done, and
/// nothing else: messages are sent, numbers are stored, deadlines are set, and
/// routes are put to use.
pub proof fn the_control_plane_is_served(
    v: RuntimeView,
    now: MonoTime,
    input: InputView,
    event: EventView,
    effect: EffectView,
    timer: ControlTimer,
    at: MonoTime,
)
    requires
        is_control(v, input, event),
        timers::is_in_order(v.timers),
        v.table == v.plane.routes,
    ensures
        ({
            let (plane, actions) = control_laws::unsecured_transition(v.plane, now, event);
            let (next, effects) = driver::run(v, now, input);
            &&& next.plane == plane
            &&& next.peer_costs == v.peer_costs
            &&& next.table == plane.routes
            &&& effects.contains(effect) <==> exists|i: int|
                0 <= i < actions.len() && effect_of(#[trigger] actions[i]) == Some(effect)
            &&& actions.contains(ActionView::SetTimer { timer, at }) ==> is_set(
                next.timers,
                timer,
                at,
            )
        }),
{
    let (plane, actions) = control_laws::unsecured_transition(v.plane, now, event);
    let (last, effects) = driver::run(v, now, input);
    let ready = RuntimeView { plane, ..v };
    laws::actions_are_bounded(ready, actions);
    laws::routes_in_use_are_current(v, now, input);
    assert((last, effects) == driver::apply_actions(ready, actions));
    if effects.contains(effect) {
        let i = effects_are_asked_for(ready, actions, effect);
        assert(effect_of(actions[i]) == Some(effect));
    }
    if exists|i: int| 0 <= i < actions.len() && effect_of(#[trigger] actions[i]) == Some(effect) {
        let i = choose|i: int|
            0 <= i < actions.len() && effect_of(#[trigger] actions[i]) == Some(effect);
        actions_are_done(ready, actions, i);
    }
    let set = ActionView::SetTimer { timer, at };
    if actions.contains(set) {
        let i = choose|i: int| 0 <= i < actions.len() && actions[i] == set;
        actions_are_done(ready, actions, i);
    }
}

/// The own announcement in force lists exactly the links that are up, under the
/// number that was used last.
pub open spec fn announces_links(v: RuntimeView) -> bool {
    &&& v.plane.lsdb.contains_key(v.plane.me)
    &&& v.plane.lsdb[v.plane.me].active matches Some(active) && {
        let lsa = active.message.lsa;
        &&& lsa.origin == v.plane.me
        &&& lsa.epoch == v.plane.epoch
        &&& lsa.seq == v.plane.my_seq
        &&& lsa.ttl_sec == 300
        &&& announcements::are_edges_of(lsa.adjacencies, v.plane.adjacencies)
    }
}

/// A link that comes up, and one that was up and goes down, makes a node
/// announce its links anew: it stores the next number before all else, holds an
/// announcement of the links that are then up, sends it over each of them, and
/// will compute its routes.
pub proof fn changes_of_links_are_announced(
    v: RuntimeView,
    now: MonoTime,
    event: LinkEventView,
    link: LinkId,
)
    requires
        match event {
            LinkEventView::Up { link, peer } => v.peer_costs.contains_key(peer),
            LinkEventView::Down { link } => v.plane.adjacencies.contains_key(link),
            _ => false,
        },
        v.plane.adjacencies.dom().finite(),
        control_laws::knows_itself(v.plane),
        v.plane.my_seq < u64::MAX,
        v.plane.spf_generation < u64::MAX,
        timers::is_in_order(v.timers),
    ensures
        ({
            let (next, effects) = driver::run(v, now, InputView::Link(event));
            &&& next.plane.my_seq == v.plane.my_seq + 1
            &&& effects.len() > 0
            &&& effects[0] == EffectView::Persist(next.plane.my_seq)
            &&& announces_links(next)
            &&& next.plane.pending_spf is Some
            &&& next.plane.adjacencies.contains_key(link)
                && next.plane.lsdb[v.plane.me].active->0.message.lsa.adjacencies.len() <= 256
                ==> effects.contains(
                EffectView::Send {
                    link,
                    frame: layout::control_frame(
                        FrameView::Lsa(next.plane.lsdb[v.plane.me].active->0.message),
                    ),
                },
            )
        }),
{
    let input = InputView::Link(event);
    let control = match event {
        LinkEventView::Up { link, peer } => EventView::LinkUp {
            link,
            peer,
            cost: v.peer_costs[peer],
        },
        LinkEventView::Down { link } => EventView::LinkDown { link },
        _ => arbitrary(),
    };
    let p = v.plane;
    let ready = model::origination(p, control)->0;
    let signed = auth::unsecured(model::own_lsa(ready));
    let (plane, actions) = control_laws::unsecured_transition(p, now, control);
    let (last, effects) = driver::run(v, now, input);
    let start = RuntimeView { plane, ..v };
    inputs_change_links(v, now, input);
    laws::actions_are_bounded(start, actions);
    announcements::announcements_list_the_links(p, control);
    announcements::links_follow_events(p, now, control, signed, true);
    announcements::own_announcements_are_kept(p, now, control, signed, true);
    assert(plane.lsdb != p.lsdb);
    announcements::changes_lead_to_computations(p, now, control, signed, true);
    laws::sequences_are_stored_first(v, now, input);
    if plane.adjacencies.contains_key(link) {
        let sent = ActionView::Send { link, frame: FrameView::Lsa(signed) };
        announcements::own_announcements_are_sent(
            p,
            now,
            control,
            signed,
            true,
            link,
            FrameView::Lsa(signed),
        );
        let i = choose|i: int| 0 <= i < actions.len() && actions[i] == sent;
        actions_are_done(start, actions, i);
        if signed.lsa.adjacencies.len() <= 256 {
            layout::ordinary_control_messages_can_be_sent(FrameView::Lsa(signed));
            layout::bounded_control_messages_can_be_sent(FrameView::Lsa(signed));
        }
    }
}

/// Once a link has gone down, no peer is announced that no other link leads to.
pub proof fn lost_peers_are_not_announced(
    v: RuntimeView,
    now: MonoTime,
    link: LinkId,
    cost: LinkCost,
)
    requires
        v.plane.adjacencies.contains_key(link),
        v.plane.adjacencies.dom().finite(),
        control_laws::knows_itself(v.plane),
        v.plane.my_seq < u64::MAX,
        v.plane.spf_generation < u64::MAX,
        timers::is_in_order(v.timers),
        forall|other: LinkId| #[trigger]
            v.plane.adjacencies.contains_key(other) && other != link
                ==> v.plane.adjacencies[other].peer != v.plane.adjacencies[link].peer,
    ensures
        ({
            let next = driver::run(v, now, InputView::Link(LinkEventView::Down { link })).0;
            let peer = v.plane.adjacencies[link].peer;
            &&& !routing::announces(next.plane.lsdb, v.plane.me, routing::edge_to(peer, cost))
            &&& !next.plane.adjacencies.contains_key(link)
        }),
{
    let event = LinkEventView::Down { link };
    let last = driver::run(v, now, InputView::Link(event)).0;
    let peer = v.plane.adjacencies[link].peer;
    changes_of_links_are_announced(v, now, event, link);
    inputs_change_links(v, now, InputView::Link(event));
    if routing::announces(last.plane.lsdb, v.plane.me, routing::edge_to(peer, cost)) {
        let edges = last.plane.lsdb[v.plane.me].active->0.message.lsa.adjacencies;
        let k = choose|k: int| 0 <= k < edges.len() && edges[k] == routing::edge_to(peer, cost);
        assert(announcements::is_some_link(last.plane.adjacencies, edges[k]));
        let other = choose|other: LinkId| #[trigger]
            last.plane.adjacencies.contains_key(other) && last.plane.adjacencies[other].peer
                == peer && last.plane.adjacencies[other].cost == cost;
        assert(v.plane.adjacencies.contains_key(other) && other != link);
    }
}

/// When routes are computed, all that are put to use leave over links that are
/// up.
pub proof fn routes_in_use_leave_over_links_that_are_up(
    v: RuntimeView,
    now: MonoTime,
    generation: u64,
    destination: NodeId,
)
    requires
        model::is_valid(v.plane),
        v.plane.adjacencies.dom().finite(),
        routing::lists_local_peers(v.plane),
        routing::is_due(v.plane, now, generation),
        v.table == v.plane.routes,
    ensures
        ({
            let input = InputView::Timer(ControlTimer::SpfHold { generation });
            let next = driver::run(v, now, input).0;
            &&& next.plane.adjacencies == v.plane.adjacencies
            &&& next.table.routes.contains_key(destination) ==> v.plane.adjacencies.contains_key(
                next.table.routes[destination].next_hop,
            )
        }),
{
    let event = EventView::Timer(ControlTimer::SpfHold { generation });
    let input = InputView::Timer(ControlTimer::SpfHold { generation });
    let signed = auth::unsecured(model::own_lsa(model::origination(v.plane, event)->0));
    let (plane, actions) = control_laws::unsecured_transition(v.plane, now, event);
    laws::actions_are_bounded(RuntimeView { plane, ..v }, actions);
    laws::routes_in_use_are_current(v, now, input);
    inputs_change_links(v, now, input);
    if plane.routes.routes.contains_key(destination) {
        let _ = routing::routes_follow_shortest_ways(
            v.plane,
            now,
            generation,
            signed,
            true,
            destination,
        );
    }
}

/// A link to a peer without a cost, and a frame that a node does not read, make
/// it close the link, and nothing else: a control message that is not on the
/// control channel, a packet that is not on the channel of its priority, and
/// any frame of another kind.
pub proof fn what_is_not_expected_closes_the_link(
    v: RuntimeView,
    now: MonoTime,
    event: LinkEventView,
)
    requires
        match event {
            LinkEventView::Up { link, peer } => !v.peer_costs.contains_key(peer),
            LinkEventView::Frame { link, frame } => match frame.frame_type {
                FrameType::Forward => {
                    ||| packet::parse_packet(frame.payload) is Err
                    ||| frame.channel != match packet::parse_packet(
                        frame.payload,
                    )->Ok_0.header.priority {
                        Priority::P0 => Channel::PubSubP0,
                        Priority::P1 => Channel::PubSubP1,
                        Priority::P2 => Channel::PubSubP2,
                        Priority::P3 => Channel::PubSubP3,
                    }
                },
                FrameType::Lsa | FrameType::Digest | FrameType::DigestReq => frame.channel
                    != Channel::Control,
                _ => true,
            },
            _ => false,
        },
    ensures
        driver::run(v, now, InputView::Link(event)) == (
            v,
            seq![
                EffectView::Close(
                    match event {
                        LinkEventView::Up { link, .. } => link,
                        LinkEventView::Frame { link, .. } => link,
                        _ => arbitrary(),
                    },
                ),
            ],
        ),
{
}

/// What a node tells another, the other's control plane hears as it was told: a
/// digest, a request, and an announcement with the bytes that it was written as.
pub proof fn control_messages_are_heard(
    v: RuntimeView,
    now: MonoTime,
    link: LinkId,
    frame: FrameView,
)
    requires
        layout::is_bounded(frame),
        layout::control_layout(frame).len() <= usize::MAX / 4,
        frame matches FrameView::Lsa(message) ==> message.canonical_bytes.len() == 0
            && message.signature.len() <= u64::MAX && forall|i: int|
            0 <= i < message.lsa.adjacencies.len() ==> (
            #[trigger] message.lsa.adjacencies[i]).cost.value() <= 65_535,
    ensures
        ({
            let heard = match frame {
                FrameView::Lsa(message) => FrameView::Lsa(
                    MessageView {
                        canonical_bytes: proto::lsa_bytes(codec::wire_lsa(message.lsa)),
                        ..message
                    },
                ),
                _ => frame,
            };
            let event = EventView::Frame { link, frame: heard };
            let input = InputView::Link(
                LinkEventView::Frame { link, frame: layout::control_frame(frame) },
            );
            &&& is_control(v, input, event)
            &&& driver::run(v, now, input).0.plane == control_laws::unsecured_transition(
                v.plane,
                now,
                event,
            ).0
        }),
{
    layout::bounded_control_messages_can_be_sent(frame);
    laws::control_messages_travel_from_node_to_node(v, link, frame);
    let heard = codec::completed(frame);
    let event = EventView::Frame { link, frame: heard };
    let (plane, actions) = control_laws::unsecured_transition(v.plane, now, event);
    laws::actions_are_bounded(RuntimeView { plane, ..v }, actions);
}

/// A packet that an application sends, or that came in over a link.
pub open spec fn brings(incoming: Option<LinkId>, packet: PacketView) -> InputView {
    match incoming {
        None => InputView::Outbound(packet),
        Some(link) => InputView::Link(
            LinkEventView::Frame {
                link,
                frame: WireView {
                    frame_type: FrameType::Forward,
                    channel: match packet.header.priority {
                        Priority::P0 => Channel::PubSubP0,
                        Priority::P1 => Channel::PubSubP1,
                        Priority::P2 => Channel::PubSubP2,
                        Priority::P3 => Channel::PubSubP3,
                    },
                    payload: packet::packet_bytes(packet),
                },
            },
        ),
    }
}

/// What a node does with a packet for one node, whether an application sends it
/// or a link brings it: it reports it as delivered if it is for the node, sends
/// it on one hop later over the link of its route, on the channel of its
/// priority, or reports it as dropped. A packet changes nothing in the node.
pub proof fn packets_are_handled(
    v: RuntimeView,
    now: MonoTime,
    incoming: Option<LinkId>,
    packet: PacketView,
)
    requires
        packet.header.packet_type == PacketType::Unicast,
        packet::is_writable(packet),
    ensures
        ({
            let (next, effects) = driver::run(v, now, brings(incoming, packet));
            let to = packet.header.destination;
            &&& next == v
            &&& effects.len() == 1
            &&& if packet.header.ttl == 0 {
                effects[0] == EffectView::Report(
                    OutcomeView::Dropped { reason: DropReason::TtlExceeded, packet },
                )
            } else if to == v.plane.me {
                effects[0] == EffectView::Report(OutcomeView::Delivered(packet))
            } else if !v.table.routes.contains_key(to) {
                effects[0] == EffectView::Report(
                    OutcomeView::Dropped { reason: DropReason::NoRoute, packet },
                )
            } else if incoming == Some(v.table.routes[to].next_hop) {
                effects[0] == EffectView::Report(
                    OutcomeView::Dropped { reason: DropReason::LoopDetected, packet },
                )
            } else {
                &&& effects[0] matches EffectView::Send { link, frame }
                &&& link == v.table.routes[to].next_hop
                &&& exists|sent: PacketView| #[trigger]
                    delivery::is_one_hop_later(packet, sent) && InputView::Link(
                        LinkEventView::Frame { link, frame },
                    ) == brings(Some(link), sent)
            }
        }),
{
    reveal_with_fuel(driver::forward_effects, 2);
    packet::written_packets_are_read_back(packet);
    let event = delivery::comes(incoming, packet);
    let actions = forward::step(v.plane.me, v.table, event).1;
    if packet.header.ttl > 0 {
        delivery::packets_find_their_way(v.plane.me, v.table, incoming, packet);
    }
    assert(actions.drop_last() =~= Seq::<ForwardActionView>::empty());
    match actions[0] {
        ForwardActionView::Send { link, packet: sent } => {
            assert(delivery::is_one_hop_later(packet, sent));
        },
        _ => {},
    }
}

/// The effect of an action of the forwarder: a packet that can be written is
/// sent in a frame on the channel of its priority, and what is delivered or
/// dropped is reported.
pub open spec fn effect_of_packet(action: ForwardActionView) -> Option<EffectView> {
    match action {
        ForwardActionView::Send { link, packet } => if packet.payload.len() <= 1_048_488
            && packet.header.flags.is_supported() {
            match brings(Some(link), packet) {
                InputView::Link(LinkEventView::Frame { frame, .. }) => Some(
                    EffectView::Send { link, frame },
                ),
                _ => None,
            }
        } else {
            None
        },
        ForwardActionView::DeliverLocal(packet) => Some(
            EffectView::Report(OutcomeView::Delivered(packet)),
        ),
        ForwardActionView::Drop { reason, packet } => Some(
            EffectView::Report(OutcomeView::Dropped { reason, packet }),
        ),
    }
}

/// The input is a packet for the forwarder: one that an application sends, for
/// one node or for several, or one that a link brings.
pub open spec fn is_for_forwarder(input: InputView, event: ForwardEventView) -> bool {
    match event {
        ForwardEventView::Outbound(packet) => input == InputView::Outbound(packet),
        ForwardEventView::OutboundMulticast { destinations, packet } => input
            == InputView::OutboundMulticast { destinations, packet },
        ForwardEventView::Inbound { link, packet } => packet::is_writable(packet) && input
            == brings(Some(link), packet),
        _ => false,
    }
}

/// Packets reach the forwarder, by the routes in use, and what it asks for is
/// done, and nothing else. Nothing changes in the node.
pub proof fn the_forwarder_is_served(
    v: RuntimeView,
    now: MonoTime,
    input: InputView,
    event: ForwardEventView,
    effect: EffectView,
)
    requires
        is_for_forwarder(input, event),
    ensures
        ({
            let actions = forward::step(v.plane.me, v.table, event).1;
            let (next, effects) = driver::run(v, now, input);
            &&& next == v
            &&& effects.contains(effect) <==> exists|i: int|
                0 <= i < actions.len() && effect_of_packet(#[trigger] actions[i]) == Some(effect)
        }),
{
    let actions = forward::step(v.plane.me, v.table, event).1;
    let effects = driver::run(v, now, input).1;
    if let ForwardEventView::Inbound { link, packet } = event {
        packet::written_packets_are_read_back(packet);
    }
    assert(effects == driver::forward_effects(actions));
    assert forall|action: ForwardActionView| #[trigger] effect_of_packet(action)
        == driver::forward_effect(action) by {}
    if effects.contains(effect) {
        let i = reports_are_asked_for(actions, effect);
        assert(effect_of_packet(actions[i]) == Some(effect));
    }
    if exists|i: int|
        0 <= i < actions.len() && effect_of_packet(#[trigger] actions[i]) == Some(effect) {
        let i = choose|i: int|
            0 <= i < actions.len() && effect_of_packet(#[trigger] actions[i]) == Some(effect);
        assert(actions.contains(actions[i]));
        travel::each_has_its_effect(actions, actions[i]);
    }
}

/// Nothing is done with packets that is not asked for.
proof fn reports_are_asked_for(actions: Seq<ForwardActionView>, effect: EffectView) -> (i: int)
    requires
        driver::forward_effects(actions).contains(effect),
    ensures
        0 <= i < actions.len(),
        driver::forward_effect(actions[i]) == Some(effect),
    decreases actions.len(),
{
    let less = actions.drop_last();
    let effects = driver::forward_effects(actions);
    let before = driver::forward_effects(less);
    let k = choose|k: int| 0 <= k < effects.len() && effects[k] == effect;
    if k < before.len() {
        assert(before[k] == effect);
        let i = reports_are_asked_for(less, effect);
        assert(less[i] == actions[i]);
        i
    } else {
        actions.len() - 1
    }
}

/// That a frame was sent is no news to a node.
pub proof fn sent_frames_are_no_news(v: RuntimeView, now: MonoTime, event: LinkEventView)
    requires
        event is Sent,
    ensures
        driver::run(v, now, InputView::Link(event)) == (v, Seq::<EffectView>::empty()),
{
}

/// Deadlines are numbered in the order in which they are set, so that of those
/// for one time the one that was set first is handed out first.
pub proof fn deadlines_are_numbered(v: RuntimeView, timer: ControlTimer, at: MonoTime)
    requires
        stand_by_time(v.timers),
    ensures
        ({
            let next = driver::apply_action(v, ActionView::SetTimer { timer, at }).0;
            &&& next.timers.to_multiset() == v.timers.to_multiset().insert(
                TimerEntry { at: at.millis(), sequence: v.next_timer_sequence, timer },
            )
            &&& next.next_timer_sequence == if v.next_timer_sequence < u64::MAX {
                v.next_timer_sequence + 1
            } else {
                0
            }
            &&& stand_by_time(next.timers)
        }),
{
    setting_keeps_time(
        v.timers,
        TimerEntry { at: at.millis(), sequence: v.next_timer_sequence, timer },
    );
}

/// Deadlines stand in the order of their times, and those of one time in the
/// order of their numbers.
pub open spec fn stand_by_time(entries: Seq<TimerEntry>) -> bool {
    forall|i: int, j: int|
        0 <= i < j < entries.len() ==> {
            ||| (#[trigger] entries[i]).at < (#[trigger] entries[j]).at
            ||| entries[i].at == entries[j].at && entries[i].sequence <= entries[j].sequence
        }
}

/// Setting a deadline keeps the others, and keeps them all in order of time.
proof fn setting_keeps_time(entries: Seq<TimerEntry>, entry: TimerEntry)
    requires
        stand_by_time(entries),
    ensures
        stand_by_time(timers::scheduled(entries, entry)),
        timers::scheduled(entries, entry).to_multiset() == entries.to_multiset().insert(entry),
        forall|i: int|
            0 <= i < timers::scheduled(entries, entry).len() ==> {
                ||| #[trigger] timers::scheduled(entries, entry)[i] == entry
                ||| entries.contains(timers::scheduled(entries, entry)[i])
            },
    decreases entries.len(),
{
    broadcast use vstd::seq_lib::group_to_multiset_ensures;

    let all = timers::scheduled(entries, entry);
    if entries.len() > 0 && timers::entry_before(entry, entries.last()) {
        let less = entries.drop_last();
        let last = entries.last();
        assert(stand_by_time(less)) by {
            assert forall|i: int, j: int| 0 <= i < j < less.len() implies {
                ||| (#[trigger] less[i]).at < (#[trigger] less[j]).at
                ||| less[i].at == less[j].at && less[i].sequence <= less[j].sequence
            } by {
                assert(less[i] == entries[i] && less[j] == entries[j]);
            }
        }
        setting_keeps_time(less, entry);
        let inner = timers::scheduled(less, entry);
        assert(less.push(last) =~= entries);
        assert forall|i: int| 0 <= i < inner.len() implies {
            ||| (#[trigger] inner[i]).at < last.at
            ||| inner[i].at == last.at && inner[i].sequence <= last.sequence
        } by {
            if inner[i] != entry {
                let k = choose|k: int| 0 <= k < less.len() && less[k] == inner[i];
                assert(entries[k] == inner[i]);
                assert(entries[entries.len() - 1] == last);
            }
        }
        assert forall|i: int, j: int| 0 <= i < j < all.len() implies {
            ||| (#[trigger] all[i]).at < (#[trigger] all[j]).at
            ||| all[i].at == all[j].at && all[i].sequence <= all[j].sequence
        } by {
            assert(all[i] == inner[i]);
            if j < inner.len() {
                assert(all[j] == inner[j]);
            }
        }
        assert forall|i: int| 0 <= i < all.len() implies (#[trigger] all[i] == entry
            || entries.contains(all[i])) by {
            if i < inner.len() {
                assert(all[i] == inner[i]);
                if inner[i] != entry {
                    let k = choose|k: int| 0 <= k < less.len() && less[k] == inner[i];
                    assert(entries[k] == inner[i]);
                }
            } else {
                assert(entries[entries.len() - 1] == all[i]);
            }
        }
        assert(all.to_multiset() =~= entries.to_multiset().insert(entry));
    } else {
        assert forall|i: int, j: int| 0 <= i < j < all.len() implies {
            ||| (#[trigger] all[i]).at < (#[trigger] all[j]).at
            ||| all[i].at == all[j].at && all[i].sequence <= all[j].sequence
        } by {
            if j == entries.len() {
                let last = entries[entries.len() - 1];
                if i < entries.len() - 1 {
                    assert(entries[i] == all[i]);
                }
            } else {
                assert(all[i] == entries[i] && all[j] == entries[j]);
            }
        }
        assert forall|i: int| 0 <= i < all.len() implies (#[trigger] all[i] == entry
            || entries.contains(all[i])) by {
            if i < entries.len() {
                assert(entries[i] == all[i]);
            }
        }
    }
}

/// Actions keep deadlines in order of time, and lose none.
proof fn actions_keep_time(v: RuntimeView, actions: Seq<ActionView>)
    requires
        stand_by_time(v.timers),
    ensures
        stand_by_time(driver::apply_actions(v, actions).0.timers),
        v.timers.to_multiset().subset_of(
            driver::apply_actions(v, actions).0.timers.to_multiset(),
        ),
    decreases actions.len(),
{
    if actions.len() > 0 {
        actions_keep_time(v, actions.drop_last());
        let before = driver::apply_actions(v, actions.drop_last()).0;
        match actions.last() {
            ActionView::SetTimer { timer, at } => {
                setting_keeps_time(
                    before.timers,
                    TimerEntry { at: at.millis(), sequence: before.next_timer_sequence, timer },
                );
            },
            _ => {},
        }
    }
}

/// No input loses a deadline, and deadlines always stand in the order of their
/// times: the one that a node hands out next is never later than another.
pub proof fn deadlines_stand_by_time(v: RuntimeView, now: MonoTime, input: InputView)
    requires
        stand_by_time(v.timers),
    ensures
        stand_by_time(driver::run(v, now, input).0.timers),
        v.timers.to_multiset().subset_of(driver::run(v, now, input).0.timers.to_multiset()),
{
    match driver::reading(v, input) {
        driver::Reading::Control(event) => {
            let (plane, actions) = control_laws::unsecured_transition(v.plane, now, event);
            actions_keep_time(RuntimeView { plane, ..v }, actions);
        },
        _ => {},
    }
}

/// Whatever happens to a node, its deadlines stand in the order of their times.
pub proof fn deadlines_always_stand_by_time(
    node: NodeId,
    epoch: u32,
    costs: Map<NodeId, LinkCost>,
    last_seq: u64,
    happenings: Seq<Happening>,
)
    ensures
        stand_by_time(after(driver::initial(node, epoch, costs, last_seq), happenings).timers),
    decreases happenings.len(),
{
    if happenings.len() > 0 {
        let less = happenings.drop_last();
        deadlines_always_stand_by_time(node, epoch, costs, last_seq, less);
        let before = after(driver::initial(node, epoch, costs, last_seq), less);
        match happenings.last() {
            Happening::Takes { now, input } => {
                deadlines_stand_by_time(before, now, input);
            },
            Happening::HandsOut => {
                let last = next(before, Happening::HandsOut).timers;
                assert forall|i: int, j: int| 0 <= i < j < last.len() implies {
                    ||| (#[trigger] last[i]).at < (#[trigger] last[j]).at
                    ||| last[i].at == last[j].at && last[i].sequence <= last[j].sequence
                } by {
                    if before.timers.len() > 0 {
                        assert(last[i] == before.timers[i + 1]);
                        assert(last[j] == before.timers[j + 1]);
                    }
                }
            },
            _ => {},
        }
    }
}

/// A node whose number cannot be stored stops before it does anything else; a
/// frame that cannot be sent costs the node that link; nothing else that fails
/// has consequences.
pub proof fn failures_have_consequences(effect: EffectView, done: bool)
    ensures
        driver::next_after(effect, done) == Next::Stop <==> !done && effect is Persist,
        forall|link: LinkId|
            (#[trigger] driver::next_after(effect, done) == Next::Close(link)) <==> !done && (
            effect matches EffectView::Send { link: over, .. } && over == link),
{
}

/// A node starts with the number that was stored last, unless the endpoint is
/// another node's, the number cannot be had, or it is the last there is; the
/// first of these that holds is told.
pub proof fn nodes_start_where_they_left_off(
    endpoint: NodeId,
    configured: NodeId,
    loaded: Result<u64, SeqStoreError>,
    epoch: u32,
    costs: Map<NodeId, LinkCost>,
)
    ensures
        driver::start_fault(endpoint, configured, loaded) is None <==> endpoint == configured && (
        loaded matches Ok(seq) && seq < u64::MAX),
        endpoint != configured ==> driver::start_fault(endpoint, configured, loaded) == Some(
            RuntimeFault::EndpointNodeMismatch { endpoint, configured },
        ),
        endpoint == configured ==> (loaded matches Err(error) ==> driver::start_fault(
            endpoint,
            configured,
            loaded,
        ) == Some(RuntimeFault::SeqStore(error@))),
        endpoint == configured && loaded == Ok::<u64, SeqStoreError>(u64::MAX)
            ==> driver::start_fault(endpoint, configured, loaded) == Some(
            RuntimeFault::SequenceExhausted,
        ),
        loaded matches Ok(seq) ==> {
            let v = driver::initial(configured, epoch, costs, seq);
            &&& v.plane.me == configured && v.plane.epoch == epoch && v.plane.my_seq == seq
            &&& v.peer_costs == costs
            &&& v.plane.adjacencies.dom() =~= Set::<LinkId>::empty()
            &&& v.plane.lsdb.dom() =~= Set::<NodeId>::empty()
            &&& v.table == v.plane.routes && v.table.version == 0
            &&& v.table.routes.dom() =~= Set::<NodeId>::empty()
            &&& v.timers.len() == 0
            &&& v.plane.pending_spf is None
            &&& v.plane.spf_hold_ms == 100
        },
{
}

/// A runtime that takes an input does what there is to do with it.
pub proof fn inputs_are_taken(
    core: &mut RuntimeCore,
    now: MonoTime,
    input: RuntimeInput,
    effects: Vec<RuntimeEffect>,
)
    requires
        old(core).wf(),
        call_ensures(RuntimeCore::step, (core, now, input), effects),
    ensures
        final(core).wf(),
        (final(core)@, driver::views(effects@)) == driver::run(old(core)@, now, input@),
{
}

/// A runtime starts only for its own endpoint and with a number that has one
/// after it, as the node that it is configured for, with the costs that it is
/// configured with, and with nothing done yet.
pub proof fn runtimes_start_as_configured(
    config: RuntimeConfig,
    endpoint: NodeId,
    loaded: Result<u64, SeqStoreError>,
    core: Result<RuntimeCore, RuntimeError>,
)
    requires
        config.peer_costs.wf(),
        call_ensures(RuntimeCore::start, (config, endpoint, loaded), core),
    ensures
        core is Ok <==> endpoint == config.node_id && (loaded matches Ok(seq) && seq < u64::MAX),
        core matches Ok(made) ==> {
            &&& made.wf()
            &&& made@.plane.me == config.node_id
            &&& made@.plane.epoch == config.epoch
            &&& Ok::<u64, SeqStoreError>(made@.plane.my_seq) == loaded
            &&& made@.peer_costs == config.peer_costs@
            &&& made@.plane.adjacencies.dom() =~= Set::<LinkId>::empty()
            &&& made@.plane.lsdb.dom() =~= Set::<NodeId>::empty()
            &&& made@.table.routes.dom() =~= Set::<NodeId>::empty()
            &&& made@.table == made@.plane.routes
            &&& made@.timers.len() == 0
        },
{
}

/// What a link to a peer costs is set for the links that come up from then on.
pub proof fn costs_are_set(core: &mut RuntimeCore, peer: NodeId, cost: LinkCost)
    requires
        old(core).wf(),
        call_ensures(RuntimeCore::allow_peer, (core, peer, cost), ()),
    ensures
        final(core)@.peer_costs == old(core)@.peer_costs.insert(peer, cost),
        final(core)@.plane == old(core)@.plane,
        final(core)@.table == old(core)@.table,
        final(core)@.timers == old(core)@.timers,
{
}

/// A deadline is handed out as soon as one has fallen due, and not before: the
/// earliest of all, once. When it falls due is told.
pub proof fn deadlines_are_handed_out(
    core: &mut RuntimeCore,
    now: MonoTime,
    timer: Option<ControlTimer>,
    k: int,
)
    requires
        old(core).wf(),
        stand_by_time(old(core)@.timers),
        call_ensures(RuntimeCore::take_due_timer, (core, now), timer),
    ensures
        timer is None ==> {
            &&& final(core)@ == old(core)@
            &&& 0 <= k < old(core)@.timers.len() ==> old(core)@.timers[k].at > now.millis()
        },
        timer matches Some(due) ==> {
            let all = old(core)@.timers;
            &&& all.len() > 0
            &&& all[0].timer == due
            &&& all[0].at <= now.millis()
            &&& 0 <= k < all.len() ==> all[0].at <= all[k].at
            &&& final(core)@.timers == all.drop_first()
            &&& final(core)@.plane == old(core)@.plane && final(core)@.table == old(core)@.table
            &&& final(core)@.peer_costs == old(core)@.peer_costs
        },
{
    if 0 < k < old(core)@.timers.len() {
        assert(old(core)@.timers[0].at <= old(core)@.timers[k].at);
    }
}

/// The next deadline is handed out whether it has fallen due or not, and when it
/// falls due is told.
pub proof fn the_next_deadline_is_told(
    core: &mut RuntimeCore,
    timer: Option<ControlTimer>,
    asked: &RuntimeCore,
    at: Option<u64>,
)
    requires
        old(core).wf(),
        call_ensures(RuntimeCore::take_next_timer, (core,), timer),
        call_ensures(RuntimeCore::next_timer_at, (asked,), at),
    ensures
        timer is None <==> old(core)@.timers.len() == 0,
        timer matches Some(next) ==> next == old(core)@.timers[0].timer && final(core)@.timers
            == old(core)@.timers.drop_first(),
        at is None <==> asked@.timers.len() == 0,
        at matches Some(time) ==> time == asked@.timers[0].at,
{
}

/// What follows from an effect that could not be carried out is told: a number
/// that was not stored ends the node, and a frame that was not sent costs the
/// link.
pub proof fn failures_are_told(effect: &RuntimeEffect, done: bool, next: Next)
    requires
        call_ensures(driver::after_effect, (effect, done), next),
    ensures
        done ==> next == Next::GoOn,
        !done ==> match *effect {
            RuntimeEffect::Persist(_) => next == Next::Stop,
            RuntimeEffect::Send { link, .. } => next == Next::Close(link),
            _ => next == Next::GoOn,
        },
{
}

/// A packet can be sent if its payload is no longer than a frame has room for,
/// behind the header; one for several nodes must have room for their list too.
pub proof fn packets_are_checked(
    packet: &ForwardPacket,
    checked: Result<(), RuntimeError>,
    destinations: &Vec<NodeId>,
    all_checked: Result<(), RuntimeError>,
)
    requires
        call_ensures(driver::check_packet, (packet,), checked),
        call_ensures(driver::check_multicast, (destinations, packet), all_checked),
    ensures
        checked is Ok ==> packet@.payload.len() <= 1_048_488,
        checked is Err ==> packet@.payload.len() > 1_048_488
            || !packet@.header.flags.is_supported(),
        all_checked is Ok <==> 2 + 32 * destinations@.len() + packet@.payload.len() <= 1_048_488,
{
    multicast::list_len(destinations@, packet@.payload);
}

/// A runtime tells whose it is and what its control plane knows. It can take any
/// input as long as it has numbers left, and tells whether it has.
pub proof fn runtimes_tell_what_they_know(
    core: &RuntimeCore,
    me: NodeId,
    plane: &ControlPlane,
    left: bool,
    now: MonoTime,
    input: InputView,
)
    requires
        core.wf(),
        call_ensures(RuntimeCore::node_id, (core,), me),
        call_ensures(RuntimeCore::plane, (core,), plane),
        call_ensures(RuntimeCore::has_numbers_left, (core,), left),
    ensures
        me == core@.plane.me,
        plane@ == core@.plane,
        left <==> core@.plane.my_seq < u64::MAX && core@.plane.spf_generation < u64::MAX
            && core@.plane.routes.version < u64::MAX,
        left ==> driver::has_numbers(core@, now, input),
{
}

/// Packets travel in frames on the channel of their priority, and are taken out
/// of such frames as they were put in, and of no others.
pub proof fn packets_travel_in_frames(
    packet: &ForwardPacket,
    written: Result<WireFrame, RuntimeError>,
    frame: WireFrame,
    read: Result<ForwardPacket, RuntimeError>,
    link: LinkId,
)
    requires
        call_ensures(codec::encode_forward_frame, (packet,), written),
        call_ensures(codec::decode_forward_frame, (frame,), read),
    ensures
        written is Ok <==> packet@.payload.len() <= 1_048_488 && packet@.header.flags.bits() < 8,
        written matches Ok(wire) ==> brings(Some(link), packet@) == InputView::Link(
            LinkEventView::Frame { link, frame: wire@ },
        ),
        read matches Ok(found) ==> brings(Some(link), found@) == InputView::Link(
            LinkEventView::Frame { link, frame: frame@ },
        ),
        written == Ok::<WireFrame, RuntimeError>(frame) ==> (read matches Ok(found) && found@
            == packet@),
{
    layout::packets_fit_into_frames(packet@);
    if read is Ok {
        packet::read_packets_are_written_back(frame@.payload);
    }
    if written == Ok::<WireFrame, RuntimeError>(frame) {
        packet::written_packets_are_read_back(packet@);
    }
}

/// A queue of deadlines starts empty, keeps those that are set in the order of
/// their times, loses none, and hands out the earliest once it has fallen due.
pub proof fn queues_keep_deadlines(
    queue: &mut TimerQueue,
    at: MonoTime,
    timer: ControlTimer,
    other: &mut TimerQueue,
    now: MonoTime,
    due: Option<ControlTimer>,
    fresh: TimerQueue,
)
    requires
        stand_by_time(old(queue).entries()),
        call_ensures(TimerQueue::schedule, (queue, at, timer), ()),
        call_ensures(TimerQueue::take_due, (other, now), due),
        call_ensures(TimerQueue::new, (), fresh),
    ensures
        fresh.entries().len() == 0,
        stand_by_time(final(queue).entries()),
        final(queue).entries().to_multiset() == old(queue).entries().to_multiset().insert(
            TimerEntry { at: at.millis(), sequence: old(queue).next_sequence(), timer },
        ),
        due is Some <==> old(other).entries().len() > 0 && old(other).entries()[0].at
            <= now.millis(),
        due matches Some(first) ==> first == old(other).entries()[0].timer && final(other).entries()
            == old(other).entries().drop_first(),
        due is None ==> final(other).entries() == old(other).entries(),
{
    setting_keeps_time(
        old(queue).entries(),
        TimerEntry { at: at.millis(), sequence: old(queue).next_sequence(), timer },
    );
}

/// A runtime can take any input as long as it has numbers left.
pub proof fn inputs_can_be_taken(core: &mut RuntimeCore, now: MonoTime, input: RuntimeInput)
    requires
        old(core).wf(),
        old(core)@.plane.my_seq < u64::MAX,
        old(core)@.plane.spf_generation < u64::MAX,
        old(core)@.plane.routes.version < u64::MAX,
    ensures
        call_requires(RuntimeCore::step, (core, now, input)),
{
}

} // verus!
