use bytes::Bytes;
use meshbus::control::{Adjacency, LinkCost, Lsa, Route, RouteTable};
use meshbus::forward::DropReason;
use meshbus::lab::admin::{
    outcome_response, request_cost, request_packet, snapshot_response, EventResponse, LsaResponse,
    OutcomeLog, PeerResponse, QueueResponse, QueueState, RouteResponse, RuntimeEvent,
    RuntimeSnapshot, MAX_OUTCOMES,
};
use meshbus::lab::args::parse_arg;
use meshbus::lab::nodes::{health_step, HealthStep, HEALTH_PAUSE_MS, HEALTH_TRIES};
use meshbus::lab::numbers::{node_id, numeric_id};
use meshbus::ordered_map::OrderedMap;
use meshbus::runtime::ForwardOutcome;
use meshbus::types::{LinkId, MonoTime, NodeId};
use meshbus::wire::{ForwardFlags, ForwardPacket, PacketType, Priority};
use std::sync::Arc;

fn packet(payload: &[u8]) -> ForwardPacket {
    let mut packet =
        request_packet(1, 2, 3, 4, String::new()).expect("the priority is known");
    packet.payload = Bytes::copy_from_slice(payload);
    packet
}

#[test]
fn numbers_stand_in_the_last_bytes_of_an_identity() {
    let id = node_id(0x0102_0304_0506_0708);
    assert_eq!(&id.as_bytes()[..24], &[0; 24]);
    assert_eq!(&id.as_bytes()[24..], &[1, 2, 3, 4, 5, 6, 7, 8]);
    let mut bytes = [9; 32];
    bytes[24..].copy_from_slice(&[0, 0, 0, 0, 0, 0, 1, 0]);
    assert_eq!(numeric_id(NodeId::from_bytes(bytes)), 256);
}

#[test]
fn requests_become_packets() {
    let packet = request_packet(5, 6, 2, 77, "caf\u{e9}".to_owned()).expect("a known priority");
    assert_eq!(packet.header.packet_type, PacketType::Unicast);
    assert_eq!(packet.header.priority, Priority::P2);
    assert_eq!(packet.header.ttl, 32);
    assert_eq!(packet.header.flags, ForwardFlags::empty());
    assert_eq!(packet.header.source, node_id(5));
    assert_eq!(packet.header.destination, node_id(6));
    assert_eq!(packet.header.flow_id, 77);
    assert_eq!(packet.header.conflate_key, 0);
    assert_eq!(packet.payload, Bytes::from_static(b"caf\xc3\xa9"));
    assert_eq!(
        request_packet(5, 6, 4, 77, String::new()),
        Err("priority must be between 0 and 3".to_owned())
    );
    assert_eq!(request_cost(3).map(|cost| cost.get()), Ok(3));
    assert_eq!(
        request_cost(0),
        Err("link cost must be greater than zero".to_owned())
    );
}

#[test]
fn outcomes_are_described() {
    let delivered = outcome_response(7, 8, &ForwardOutcome::Delivered(packet(b"ok\xff!")));
    assert_eq!((delivered.sequence, delivered.at_ms), (7, 8));
    assert_eq!(delivered.kind, "DELIVERED");
    assert_eq!(delivered.detail, "application delivery");
    assert_eq!((delivered.source, delivered.destination), (1, Some(2)));
    assert_eq!((delivered.priority, delivered.flow_id), (3, 4));
    assert_eq!(delivered.payload_bytes, Some(4));
    assert_eq!(delivered.payload_preview, "ok\u{fffd}!");

    let long = outcome_response(1, 1, &ForwardOutcome::Delivered(packet(&[b'a'; 97])));
    assert_eq!(long.payload_bytes, Some(97));
    assert_eq!(long.payload_preview, "a".repeat(96));

    let reasons = [
        (DropReason::TtlExceeded, "TtlExceeded"),
        (DropReason::NoRoute, "NoRoute"),
        (DropReason::LoopDetected, "LoopDetected"),
        (
            DropReason::UnsupportedPacketType(PacketType::CircuitControl),
            "UnsupportedPacketType(CircuitControl)",
        ),
    ];
    for (reason, words) in reasons {
        let dropped = outcome_response(
            1,
            2,
            &ForwardOutcome::Dropped {
                reason,
                packet: packet(b"lost"),
            },
        );
        assert_eq!(dropped.kind, "DROPPED");
        assert_eq!(dropped.detail, words);
        assert_eq!(dropped.destination, None);
        assert_eq!(dropped.payload_bytes, None);
        assert_eq!(dropped.payload_preview, "");
    }

    let held = outcome_response(
        1,
        2,
        &ForwardOutcome::Backpressure {
            link: LinkId::new(12),
            packet: packet(b"held"),
        },
    );
    assert_eq!(held.kind, "BACKPRESSURE");
    assert_eq!(held.detail, "link 12");
    assert_eq!(held.payload_preview, "held");
}

#[test]
fn the_log_forgets_the_oldest_outcome() {
    let mut log = OutcomeLog::new();
    assert!(log.entries().is_empty());
    for at in 0..MAX_OUTCOMES as u64 + 2 {
        log.record(at, &ForwardOutcome::Delivered(packet(b"x")));
    }
    let entries = log.entries();
    assert_eq!(entries.len(), 128);
    assert_eq!((entries[0].sequence, entries[0].at_ms), (3, 2));
    assert_eq!((entries[127].sequence, entries[127].at_ms), (130, 129));
}

#[test]
fn a_snapshot_shows_the_runtime() {
    let mut peers = OrderedMap::new();
    peers.insert(LinkId::new(9), node_id(3));
    peers.insert(LinkId::new(4), node_id(2));
    let mut routes = OrderedMap::new();
    routes.insert(
        node_id(3),
        Route {
            next_hop: LinkId::new(4),
            cost: 30,
            hops: 2,
        },
    );
    routes.insert(
        node_id(2),
        Route {
            next_hop: LinkId::new(4),
            cost: 10,
            hops: 1,
        },
    );
    let event = |sequence: u64, link: Option<u64>| RuntimeEvent {
        sequence,
        at: MonoTime::from_millis(50),
        kind: "LINK_UP",
        detail: "up".to_owned(),
        link: link.map(LinkId::new),
    };
    let snapshot = RuntimeSnapshot {
        peers,
        lsas: vec![Lsa {
            origin: node_id(2),
            epoch: 1,
            seq: 5,
            ttl_sec: 300,
            adjacencies: vec![Adjacency {
                peer: node_id(1),
                cost: LinkCost::new(1).expect("a valid cost"),
            }],
        }],
        routes: Arc::new(RouteTable::new(1, routes)),
        queues: vec![(
            LinkId::new(4),
            QueueState {
                packet_counts: [1, 2, 3, 4],
                queued_bytes: [5, 6, 7, 8],
            },
        )],
        recent_events: vec![event(1, Some(9)), event(2, Some(5)), event(3, None)],
    };
    let response = snapshot_response(
        1,
        "one".to_owned(),
        "127.0.0.1:1".to_owned(),
        99,
        &snapshot,
        Vec::new(),
    );
    assert_eq!((response.id, response.now_ms), (1, 99));
    assert_eq!(response.name, "one");
    assert_eq!(response.mesh_addr, "127.0.0.1:1");
    assert_eq!(
        response.peers,
        vec![
            PeerResponse {
                link_id: 4,
                peer: 2
            },
            PeerResponse {
                link_id: 9,
                peer: 3
            }
        ]
    );
    assert_eq!(
        response.lsdb,
        vec![LsaResponse {
            origin: 2,
            epoch: 1,
            sequence: 5,
            adjacencies: vec![1],
        }]
    );
    assert_eq!(
        response.routes,
        vec![
            RouteResponse {
                destination: 2,
                next_hop: 4,
                cost: 10,
                hops: 1
            },
            RouteResponse {
                destination: 3,
                next_hop: 4,
                cost: 30,
                hops: 2
            }
        ]
    );
    assert_eq!(
        response.queues,
        vec![QueueResponse {
            link_id: 4,
            packets: [1, 2, 3, 4],
            bytes: [5, 6, 7, 8],
        }]
    );
    let shown = |sequence: u64, link_id: Option<u64>, peer: Option<u64>| EventResponse {
        sequence,
        at_ms: 50,
        kind: "LINK_UP",
        detail: "up".to_owned(),
        link_id,
        peer,
    };
    assert_eq!(
        response.events,
        vec![
            shown(1, Some(9), Some(3)),
            shown(2, Some(5), None),
            shown(3, None, None)
        ]
    );
    assert!(response.outcomes.is_empty());
}

#[test]
fn arguments_follow_their_flags() {
    let args: Vec<String> = ["node", "--id", "7", "--name", "--id", "--last"]
        .iter()
        .map(|word| word.to_string())
        .collect();
    assert_eq!(parse_arg(&args, "--id", None), Ok("7".to_owned()));
    assert_eq!(parse_arg(&args, "--name", None), Ok("--id".to_owned()));
    assert_eq!(
        parse_arg(&args, "--port", Some("0".to_owned())),
        Ok("0".to_owned())
    );
    assert_eq!(
        parse_arg(&args, "--port", None),
        Err("missing required argument --port".to_owned())
    );
    assert_eq!(
        parse_arg(&args, "--last", Some("0".to_owned())),
        Err("missing value for --last".to_owned())
    );
}

#[test]
fn new_nodes_are_asked_until_they_are_ready() {
    assert_eq!(health_step(0, None), HealthStep::Ask);
    assert_eq!(health_step(1, Some(false)), HealthStep::Pause(50));
    assert_eq!(health_step(1, Some(true)), HealthStep::Ready);
    assert_eq!(health_step(59, None), HealthStep::Ask);
    assert_eq!(health_step(60, Some(true)), HealthStep::Ready);
    assert_eq!(health_step(60, Some(false)), HealthStep::Pause(HEALTH_PAUSE_MS));
    assert_eq!(health_step(HEALTH_TRIES, None), HealthStep::GiveUp);
}
