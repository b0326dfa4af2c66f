use bytes::Bytes;
use meshbus::control::{Route, RouteTable};
use meshbus::forward::{DropReason, ForwardAction, ForwardEvent, Forwarder};
use meshbus::ordered_map::OrderedMap;
use meshbus::runtime::driver::check_multicast;
use meshbus::runtime::RuntimeError;
use meshbus::types::{Component, LinkId, MonoTime, NodeId};
use meshbus::wire::{
    ForwardFlags, ForwardHeader, ForwardPacket, ForwardPacketError, PacketType, Priority,
    MAX_FORWARD_PAYLOAD_LEN,
};
use std::sync::Arc;

fn node(value: u8) -> NodeId {
    let mut bytes = [0_u8; 32];
    bytes[31] = value;
    NodeId::from_bytes(bytes)
}

fn forwarder(me: u8, routes: &[(u8, u64)]) -> Forwarder {
    let mut table = OrderedMap::new();
    for (destination, link) in routes {
        table.insert(
            node(*destination),
            Route {
                next_hop: LinkId::new(*link),
                cost: 1,
                hops: 1,
            },
        );
    }
    Forwarder::new(node(me), Arc::new(RouteTable::new(1, table)))
}

fn packet(packet_type: PacketType, destination: NodeId, ttl: u8, payload: &[u8]) -> ForwardPacket {
    ForwardPacket {
        header: ForwardHeader {
            packet_type,
            priority: Priority::P1,
            ttl,
            flags: ForwardFlags::empty(),
            destination,
            source: node(9),
            flow_id: 42,
            conflate_key: 3,
        },
        payload: Bytes::copy_from_slice(payload),
    }
}

/// The payload for several destinations.
fn list(destinations: &[u8], body: &[u8]) -> Vec<u8> {
    let mut bytes = vec![0, destinations.len() as u8];
    for destination in destinations {
        bytes.extend_from_slice(node(*destination).as_bytes());
    }
    bytes.extend_from_slice(body);
    bytes
}

fn outbound(destinations: &[u8], ttl: u8) -> ForwardEvent {
    ForwardEvent::OutboundMulticast {
        destinations: destinations.iter().map(|id| node(*id)).collect(),
        packet: packet(PacketType::Multicast, NodeId::default(), ttl, b"body"),
    }
}

fn inbound(link: u64, ttl: u8, payload: &[u8]) -> ForwardEvent {
    ForwardEvent::Inbound {
        link: LinkId::new(link),
        packet: packet(PacketType::Multicast, node(1), ttl, payload),
    }
}

fn sent(link: u64, ttl: u8, destinations: &[u8]) -> ForwardAction {
    ForwardAction::Send {
        link: LinkId::new(link),
        packet: packet(
            PacketType::Multicast,
            node(destinations[0]),
            ttl,
            &list(destinations, b"body"),
        ),
    }
}

#[test]
fn one_packet_goes_over_each_link() {
    let mut source = forwarder(9, &[(1, 7), (2, 7), (3, 5), (4, 5)]);
    assert_eq!(
        source.handle(MonoTime::zero(), outbound(&[1, 3, 2, 4], 32)),
        vec![sent(5, 31, &[3, 4]), sent(7, 31, &[1, 2])]
    );
    assert_eq!(source.handle(MonoTime::zero(), outbound(&[], 32)), vec![]);
}

#[test]
fn a_relay_keeps_its_own_copy_and_sends_the_others_on() {
    let mut relay = forwarder(2, &[(1, 3)]);
    assert_eq!(
        relay.handle(MonoTime::zero(), inbound(8, 31, &list(&[1, 2], b"body"))),
        vec![
            ForwardAction::DeliverLocal(packet(PacketType::Unicast, node(2), 31, b"body")),
            sent(3, 30, &[1]),
        ]
    );
}

#[test]
fn each_destination_that_cannot_be_reached_has_its_reason() {
    let mut relay = forwarder(2, &[(1, 8), (5, 6)]);
    let lost = |destination: u8, reason: DropReason| ForwardAction::Drop {
        reason,
        packet: packet(PacketType::Unicast, node(destination), 31, b"body"),
    };
    assert_eq!(
        relay.handle(MonoTime::zero(), inbound(8, 31, &list(&[1, 4, 5], b"body"))),
        vec![
            lost(1, DropReason::LoopDetected),
            lost(4, DropReason::NoRoute),
            sent(6, 30, &[5]),
        ]
    );
}

#[test]
fn worn_out_multicasts_are_dropped() {
    let mut relay = forwarder(2, &[(1, 3)]);
    let payload = list(&[1, 2], b"body");
    assert_eq!(
        relay.handle(MonoTime::zero(), inbound(8, 0, &payload)),
        vec![ForwardAction::Drop {
            reason: DropReason::TtlExceeded,
            packet: packet(PacketType::Multicast, node(1), 0, &payload),
        }]
    );
    assert_eq!(
        relay.handle(MonoTime::zero(), outbound(&[1], 0)),
        vec![ForwardAction::Drop {
            reason: DropReason::TtlExceeded,
            packet: packet(PacketType::Unicast, node(1), 0, b"body"),
        }]
    );
}

#[test]
fn multicasts_without_a_whole_list_are_not_supported() {
    let mut relay = forwarder(2, &[(1, 3)]);
    let whole = list(&[1, 2], b"");
    for payload in [&[][..], &[0], &[0, 0, 1, 2], &whole[..65]] {
        assert_eq!(
            relay.handle(MonoTime::zero(), inbound(8, 31, payload)),
            vec![ForwardAction::Drop {
                reason: DropReason::UnsupportedPacketType(PacketType::Multicast),
                packet: packet(PacketType::Multicast, node(1), 31, payload),
            }]
        );
    }
    assert_eq!(
        relay
            .handle(MonoTime::zero(), inbound(8, 31, &whole))
            .len(),
        2
    );
}

#[test]
fn lists_take_part_of_the_payload() {
    let destinations = vec![node(1), node(2)];
    let room = MAX_FORWARD_PAYLOAD_LEN - 66;
    let fits = packet(PacketType::Multicast, node(1), 1, &vec![0; room]);
    assert_eq!(check_multicast(&destinations, &fits), Ok(()));
    let more = packet(PacketType::Multicast, node(1), 1, &vec![0; room + 1]);
    assert_eq!(
        check_multicast(&destinations, &more),
        Err(RuntimeError::ForwardPacket(
            ForwardPacketError::PayloadTooLarge(MAX_FORWARD_PAYLOAD_LEN + 1)
        ))
    );
}

#[test]
fn tables_tell_their_version() {
    let table = RouteTable::new(12, OrderedMap::new());
    assert_eq!(table.current_version(), 12);
}
