//! How packets travel through a mesh of runtimes.

use vstd::prelude::*;
use crate::control::laws;
use crate::control::model;
use crate::control::model::PlaneView;
use crate::control::paths;
use crate::forward;
use crate::forward::{Crossing, ForwardActionView, ForwardEventView};
use crate::runtime::codec;
use crate::runtime::driver;
use crate::runtime::driver::{EffectView, InputView, OutcomeView, Reading, RuntimeView};
use crate::transport::LinkEventView;
use crate::types::{LinkId, MonoTime, NodeId};
use crate::wire::frame::WireView;
use crate::wire::multicast;
use crate::wire::packet;
use crate::wire::packet::{PacketType, PacketView};

verus! {

/// The control planes of a mesh.
pub open spec fn planes(mesh: Map<NodeId, RuntimeView>) -> Map<NodeId, PlaneView> {
    mesh.map_values(|v: RuntimeView| v.plane)
}

/// The control planes of a mesh have settled, and packets go by their routes.
pub open spec fn has_settled(mesh: Map<NodeId, RuntimeView>) -> bool {
    &&& laws::has_settled(planes(mesh))
    &&& forall|a: NodeId| #[trigger]
        mesh.contains_key(a) ==> mesh[a].table == mesh[a].plane.routes
}

/// What a node does with a frame that came in.
pub open spec fn taken_in(v: RuntimeView, now: MonoTime, link: LinkId, frame: WireView) -> Seq<
    EffectView,
> {
    driver::run(v, now, InputView::Link(LinkEventView::Frame { link, frame })).1
}

/// From the effects at a node on, a packet gets to its destination within so
/// many hops: it is delivered there, or a frame leaves for a neighbour that has
/// a link back, and whenever and over whichever of these links the frame comes
/// in there, the packet gets from there to its destination with one hop less to
/// live.
pub open spec fn is_brought(
    mesh: Map<NodeId, RuntimeView>,
    at: NodeId,
    effects: Seq<EffectView>,
    v: NodeId,
    packet: PacketView,
    hops: nat,
) -> bool
    decreases hops,
{
    ||| at == v && effects.contains(EffectView::Report(OutcomeView::Delivered(packet)))
    ||| hops > 0 && exists|link: LinkId, frame: WireView|
        {
            let next = mesh[at].plane.adjacencies[link].peer;
            &&& #[trigger] effects.contains(EffectView::Send { link, frame })
            &&& mesh[at].plane.adjacencies.contains_key(link)
            &&& mesh.contains_key(next)
            &&& model::peers(mesh[next].plane.adjacencies).contains(at)
            &&& forall|back: LinkId, later: MonoTime|
                #![trigger taken_in(mesh[next], later, back, frame)]
                model::leads_to(mesh[next].plane.adjacencies, back, at) ==> is_brought(
                    mesh,
                    next,
                    taken_in(mesh[next], later, back, frame),
                    v,
                    forward::one_hop_further(packet),
                    (hops - 1) as nat,
                )
        }
}

/// The effects do with what is for a destination what the action says.
pub open spec fn does(effects: Seq<EffectView>, action: ForwardActionView, v: NodeId) -> bool {
    match action {
        ForwardActionView::Send { link, packet: alone } => exists|sent: PacketView|
            {
                &&& effects.contains(
                    EffectView::Send { link, frame: #[trigger] codec::forward_wire(sent) },
                )
                &&& packet::is_writable(sent)
                &&& alone.header.ttl > 0 ==> forward::held_for(sent, v) == Some(alone)
            },
        ForwardActionView::DeliverLocal(packet) => effects.contains(
            EffectView::Report(OutcomeView::Delivered(packet)),
        ),
        ForwardActionView::Drop { reason, packet } => effects.contains(
            EffectView::Report(OutcomeView::Dropped { reason, packet }),
        ),
    }
}

/// The effects of actions hold the effect of each of them.
pub proof fn each_has_its_effect(actions: Seq<ForwardActionView>, action: ForwardActionView)
    requires
        actions.contains(action),
        driver::forward_effect(action) is Some,
    ensures
        driver::forward_effects(actions).contains(driver::forward_effect(action)->0),
    decreases actions.len(),
{
    let effect = driver::forward_effect(action)->0;
    let all = driver::forward_effects(actions);
    let rest = actions.drop_last();
    let less = driver::forward_effects(rest);
    if actions.last() == action {
        assert(all.last() == effect);
    } else {
        let k = choose|k: int| 0 <= k < actions.len() && actions[k] == action;
        assert(rest[k] == action);
        each_has_its_effect(rest, action);
        let m = choose|m: int| 0 <= m < less.len() && less[m] == effect;
        assert(all[m] == effect);
    }
}

/// What becomes of a destination's part of a packet for several.
proof fn parts_are_handled(at: Crossing, destinations: Seq<NodeId>, v: NodeId)
    requires
        destinations.contains(v),
        forward::can_gather(at.packet, destinations),
    ensures
        does(
            driver::forward_effects(forward::fan_out(at, destinations)),
            forward::decide_for(at, v),
            v,
        ),
{
    let actions = forward::fan_out(at, destinations);
    forward::destinations_fare_as_alone(at, destinations, v);
    match forward::decide_for(at, v) {
        ForwardActionView::Send { link, packet: alone } => {
            let action = forward::sent_over(at, destinations, link);
            each_has_its_effect(actions, action);
            let sent = action->Send_packet;
            assert(driver::forward_effect(action) == Some(
                EffectView::Send { link, frame: codec::forward_wire(sent) },
            ));
        },
        ended => {
            each_has_its_effect(actions, ended);
        },
    }
}

/// What becomes of a packet for one destination.
proof fn single_is_handled(me: NodeId, v: RuntimeView, incoming: Option<LinkId>, packet: PacketView)
    requires
        packet::is_writable(packet),
        packet.header.packet_type == PacketType::Unicast,
    ensures
        ({
            let action = forward::decide(me, v.table.routes, incoming, packet);
            does(driver::forward_effects(seq![action]), action, packet.header.destination)
        }),
{
    let action = forward::decide(me, v.table.routes, incoming, packet);
    let actions = seq![action];
    assert(actions[0] == action);
    each_has_its_effect(actions, action);
    match action {
        ForwardActionView::Send { link, packet: alone } => {
            assert(driver::forward_effect(action) == Some(
                EffectView::Send { link, frame: codec::forward_wire(alone) },
            ));
        },
        _ => {},
    }
}

/// What one node writes for a packet, the next one takes for the same packet.
pub proof fn frames_hold_their_packets(v: RuntimeView, link: LinkId, sent: PacketView)
    requires
        packet::is_writable(sent),
    ensures
        driver::reading(
            v,
            InputView::Link(LinkEventView::Frame { link, frame: codec::forward_wire(sent) }),
        ) == Reading::Forward(ForwardEventView::Inbound { link, packet: sent }),
{
    codec::written_forward_frames_are_read_back(sent);
}

/// What a node does with a frame that holds something for a destination.
proof fn frames_are_handled(
    at: RuntimeView,
    now: MonoTime,
    link: LinkId,
    sent: PacketView,
    v: NodeId,
    alone: PacketView,
)
    requires
        packet::is_writable(sent),
        forward::held_for(sent, v) == Some(alone),
    ensures
        does(
            taken_in(at, now, link, codec::forward_wire(sent)),
            forward::decide(at.plane.me, at.table.routes, Some(link), alone),
            v,
        ),
{
    frames_hold_their_packets(at, link, sent);
    match forward::several(sent) {
        Some((destinations, body)) => {
            let crossing = Crossing {
                me: at.plane.me,
                routes: at.table.routes,
                incoming: Some(link),
                packet: body,
            };
            multicast::list_len(destinations, body.payload);
            parts_are_handled(crossing, destinations, v);
        },
        None => {
            single_is_handled(at.plane.me, at, Some(link), sent);
        },
    }
}

/// From what a node does with a packet on, the packet gets to its destination.
proof fn parts_are_brought(
    mesh: Map<NodeId, RuntimeView>,
    from: Option<(NodeId, LinkId)>,
    at: NodeId,
    effects: Seq<EffectView>,
    v: NodeId,
    packet: PacketView,
    hops: nat,
)
    requires
        has_settled(mesh),
        mesh.contains_key(at),
        laws::arrives(planes(mesh), at, v, hops),
        packet.header.packet_type == PacketType::Unicast,
        packet.header.destination == v,
        packet.header.ttl > hops,
        from matches Some((node, back)) ==> {
            &&& mesh.contains_key(node)
            &&& node != v
            &&& mesh[node].plane.routes.routes.contains_key(v)
            &&& model::best_paths(mesh[node].plane)[v].first == at
            &&& model::leads_to(mesh[at].plane.adjacencies, back, node)
        },
        does(
            effects,
            forward::decide(
                at,
                mesh[at].table.routes,
                match from {
                    Some((_, back)) => Some(back),
                    None => None,
                },
                packet,
            ),
            v,
        ),
    ensures
        is_brought(mesh, at, effects, v, packet, hops),
    decreases hops,
{
    let all = planes(mesh);
    assert(all.contains_key(at) && all[at] == mesh[at].plane);
    if at != v {
        let route = mesh[at].table.routes[v];
        laws::settled_routes_lead_to_neighbours(all, at, v);
        let next = model::best_paths(mesh[at].plane)[v].first;
        assert(all.contains_key(next));
        assert(all[next] == mesh[next].plane);
        if let Some((node, back)) = from {
            assert(all.contains_key(node) && all[node] == mesh[node].plane);
            laws::settled_routes_do_not_return(all, node, at, back, v);
        }
        let alone = forward::one_hop_further(packet);
        let sent = choose|sent: PacketView|
            {
                &&& effects.contains(
                    EffectView::Send {
                        link: route.next_hop,
                        frame: #[trigger] codec::forward_wire(sent),
                    },
                )
                &&& packet::is_writable(sent)
                &&& alone.header.ttl > 0 ==> forward::held_for(sent, v) == Some(alone)
            };
        let frame = codec::forward_wire(sent);
        assert forall|back: LinkId, later: MonoTime|
            #![trigger taken_in(mesh[next], later, back, frame)]
            model::leads_to(mesh[next].plane.adjacencies, back, at) implies is_brought(
            mesh,
            next,
            taken_in(mesh[next], later, back, frame),
            v,
            alone,
            (hops - 1) as nat,
        ) by {
            frames_are_handled(mesh[next], later, back, sent, v, alone);
            parts_are_brought(
                mesh,
                Some((at, back)),
                next,
                taken_in(mesh[next], later, back, frame),
                v,
                alone,
                (hops - 1) as nat,
            );
        }
        assert(effects.contains(EffectView::Send { link: route.next_hop, frame }));
    }
}

/// In a mesh that has settled, a packet with more time to live than there are
/// hops to its destination is delivered there, with its payload unchanged and as
/// many hops less to live as it took.
pub proof fn packets_arrive(
    mesh: Map<NodeId, RuntimeView>,
    now: MonoTime,
    at: NodeId,
    packet: PacketView,
    hops: nat,
)
    requires
        has_settled(mesh),
        mesh.contains_key(at),
        packet::is_writable(packet),
        packet.header.packet_type == PacketType::Unicast,
        laws::arrives(planes(mesh), at, packet.header.destination, hops),
        packet.header.ttl > hops,
    ensures
        is_brought(
            mesh,
            at,
            driver::run(mesh[at], now, InputView::Outbound(packet)).1,
            packet.header.destination,
            packet,
            hops,
        ),
{
    assert(planes(mesh).contains_key(at) && planes(mesh)[at] == mesh[at].plane);
    single_is_handled(at, mesh[at], None, packet);
    parts_are_brought(
        mesh,
        None,
        at,
        driver::run(mesh[at], now, InputView::Outbound(packet)).1,
        packet.header.destination,
        packet,
        hops,
    );
}

/// In a mesh that has settled, a packet is delivered to every node that there is
/// a path to over mutual edges, if it has more time to live than the path costs.
pub proof fn packets_follow_paths(
    mesh: Map<NodeId, RuntimeView>,
    now: MonoTime,
    at: NodeId,
    packet: PacketView,
    path: Seq<(NodeId, int)>,
)
    requires
        has_settled(mesh),
        mesh.contains_key(at),
        packet::is_writable(packet),
        packet.header.packet_type == PacketType::Unicast,
        paths::is_path(
            model::graph(mesh[at].plane.lsdb),
            at,
            path,
            packet.header.destination,
        ),
        packet.header.ttl > paths::path_cost(model::graph(mesh[at].plane.lsdb), path),
    ensures
        is_brought(
            mesh,
            at,
            driver::run(mesh[at], now, InputView::Outbound(packet)).1,
            packet.header.destination,
            packet,
            paths::path_cost(model::graph(mesh[at].plane.lsdb), path) as nat,
        ),
{
    let all = planes(mesh);
    assert(all.contains_key(at) && all[at] == mesh[at].plane);
    let g = model::graph(mesh[at].plane.lsdb);
    laws::settled_routes_arrive(all, at, path, packet.header.destination);
    paths::path_cost_is_positive(g, path);
    packets_arrive(mesh, now, at, packet, paths::path_cost(g, path) as nat);
}

/// In a mesh that has settled, a packet for several destinations is delivered to
/// each of them that it has more time to live than there are hops to, as a
/// packet for that destination alone would be.
pub proof fn multicasts_arrive(
    mesh: Map<NodeId, RuntimeView>,
    now: MonoTime,
    at: NodeId,
    destinations: Seq<NodeId>,
    packet: PacketView,
    v: NodeId,
    hops: nat,
)
    requires
        has_settled(mesh),
        mesh.contains_key(at),
        destinations.contains(v),
        forward::can_gather(packet, destinations),
        laws::arrives(planes(mesh), at, v, hops),
        packet.header.ttl > hops,
    ensures
        is_brought(
            mesh,
            at,
            driver::run(mesh[at], now, InputView::OutboundMulticast { destinations, packet }).1,
            v,
            forward::copy_for(packet, v),
            hops,
        ),
{
    assert(planes(mesh).contains_key(at) && planes(mesh)[at] == mesh[at].plane);
    let crossing = Crossing { me: at, routes: mesh[at].table.routes, incoming: None, packet };
    parts_are_handled(crossing, destinations, v);
    parts_are_brought(
        mesh,
        None,
        at,
        driver::run(mesh[at], now, InputView::OutboundMulticast { destinations, packet }).1,
        v,
        forward::copy_for(packet, v),
        hops,
    );
}

/// However many packets a frame leads to, a node delivers only one and the same
/// of them.
pub proof fn frames_deliver_one_packet(
    v: RuntimeView,
    now: MonoTime,
    link: LinkId,
    frame: WireView,
    a: PacketView,
    b: PacketView,
)
    requires
        taken_in(v, now, link, frame).contains(EffectView::Report(OutcomeView::Delivered(a))),
        taken_in(v, now, link, frame).contains(EffectView::Report(OutcomeView::Delivered(b))),
    ensures
        a == b,
{
    let input = InputView::Link(LinkEventView::Frame { link, frame });
    match driver::reading(v, input) {
        Reading::Forward(event) => {
            let packet = event->Inbound_packet;
            let actions = forward::take_in(v.plane.me, v.table.routes, link, packet);
            let i = reports_come_from_actions(actions, a);
            let j = reports_come_from_actions(actions, b);
            if let Some((destinations, body)) = forward::several(packet) {
                let crossing = Crossing {
                    me: v.plane.me,
                    routes: v.table.routes,
                    incoming: Some(link),
                    packet: body,
                };
                forward::only_own_copies_are_delivered(crossing, destinations, i);
                forward::only_own_copies_are_delivered(crossing, destinations, j);
            }
        },
        Reading::Control(event) => {
            let (plane, actions) = laws::unsecured_transition(v.plane, now, event);
            control_reports_nothing(RuntimeView { plane, ..v }, actions, a);
        },
        Reading::Refused(other) => {
            let effects = seq![EffectView::Close(other)];
            let k = choose|k: int|
                0 <= k < effects.len() && effects[k] == EffectView::Report(
                    OutcomeView::Delivered(a),
                );
            assert(effects[k] is Close);
        },
        Reading::Nothing => {},
    }
}

/// A report of a delivery comes from a delivery.
proof fn reports_come_from_actions(actions: Seq<ForwardActionView>, packet: PacketView) -> (i: int)
    requires
        driver::forward_effects(actions).contains(
            EffectView::Report(OutcomeView::Delivered(packet)),
        ),
    ensures
        0 <= i < actions.len(),
        actions[i] == ForwardActionView::DeliverLocal(packet),
    decreases actions.len(),
{
    let report = EffectView::Report(OutcomeView::Delivered(packet));
    let all = driver::forward_effects(actions);
    let less = driver::forward_effects(actions.drop_last());
    let k = choose|k: int| 0 <= k < all.len() && all[k] == report;
    if actions.last() == ForwardActionView::DeliverLocal(packet) {
        actions.len() - 1
    } else {
        assert(less[k] == report);
        assert(less.contains(report));
        reports_come_from_actions(actions.drop_last(), packet)
    }
}

/// Actions of the control plane report no packet.
proof fn control_reports_nothing(
    v: RuntimeView,
    actions: Seq<crate::control::message::ActionView>,
    packet: PacketView,
)
    ensures
        !driver::apply_actions(v, actions).1.contains(
            EffectView::Report(OutcomeView::Delivered(packet)),
        ),
    decreases actions.len(),
{
    let report = EffectView::Report(OutcomeView::Delivered(packet));
    if actions.len() > 0 {
        let less = driver::apply_actions(v, actions.drop_last()).1;
        let all = driver::apply_actions(v, actions).1;
        control_reports_nothing(v, actions.drop_last(), packet);
        if all.contains(report) {
            let k = choose|k: int| 0 <= k < all.len() && all[k] == report;
            if k < less.len() {
                assert(less[k] == report);
            }
        }
    }
}

} // verus!
