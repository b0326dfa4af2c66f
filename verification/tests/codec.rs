use bytes::Bytes;
use meshbus::control::{
    Adjacency, ControlFrame, DigestEntry, LinkCost, Lsa, LsaMessage, MAX_DIGEST_REQ_ORIGINS,
    MAX_LSA_ADJACENCIES, MAX_LSA_TTL_SEC,
};
use meshbus::runtime::codec::{channel_for_priority, encode_lsa};
use meshbus::runtime::{
    decode_control_frame, decode_forward_frame, encode_control_frame, encode_forward_frame,
    RuntimeError, SeqStoreError,
};
use meshbus::transport::TransportError;
use meshbus::types::NodeId;
use meshbus::wire::proto;
use meshbus::wire::{
    Channel, ForwardFlags, ForwardHeader, ForwardPacket, ForwardPacketError, FrameType, PacketType,
    Priority, WireFrame, MAX_FORWARD_PAYLOAD_LEN,
};
use std::sync::Arc;

fn node(value: u8) -> NodeId {
    let mut bytes = [0; 32];
    bytes[31] = value;
    NodeId::from_bytes(bytes)
}

fn lsa(edges: usize) -> Lsa {
    Lsa {
        origin: node(1),
        epoch: 2,
        seq: 3,
        ttl_sec: 300,
        adjacencies: (0..edges)
            .map(|_| Adjacency {
                peer: node(2),
                cost: LinkCost::new(9).expect("cost must be valid"),
            })
            .collect(),
    }
}

fn message(lsa: Lsa, canonical: &[u8]) -> ControlFrame {
    ControlFrame::Lsa(LsaMessage {
        lsa,
        canonical_bytes: Arc::from(canonical),
        signature: Arc::from([4]),
    })
}

fn wire_lsa() -> proto::Lsa {
    proto::Lsa {
        origin: Bytes::copy_from_slice(node(1).as_bytes()),
        seq: 3,
        ttl_sec: 300,
        adjacencies: vec![proto::Adjacency {
            peer: Bytes::copy_from_slice(node(2).as_bytes()),
            cost: 9,
        }],
        epoch: 2,
    }
}

fn read(wire: proto::Lsa) -> Result<ControlFrame, RuntimeError> {
    let signed = proto::SignedLsa {
        lsa_bytes: wire.encode_to_bytes(),
        signature: Bytes::from_static(&[4]),
    };
    decode_control_frame(WireFrame::control(FrameType::Lsa, signed.encode_to_bytes()))
}

#[test]
fn announcements_are_written_as_their_message() {
    assert_eq!(encode_lsa(&lsa(1)), wire_lsa().encode_to_bytes());
    let wire = encode_control_frame(&message(lsa(1), &[])).expect("frame must encode");
    assert_eq!(wire.frame_type, FrameType::Lsa);
    assert_eq!(wire.channel, Channel::Control);
    let signed = proto::SignedLsa::decode(wire.payload.clone()).expect("signed announcement");
    assert_eq!(signed.lsa_bytes, encode_lsa(&lsa(1)));
    assert_eq!(signed.signature.as_ref(), &[4]);
    let read_back = decode_control_frame(wire).expect("frame must decode");
    assert_eq!(read_back, message(lsa(1), encode_lsa(&lsa(1)).as_ref()));
}

#[test]
fn announcements_keep_the_bytes_they_came_with() {
    // The fields stand in another order than they would be written in.
    let mut bytes = vec![0xa0, 0x01, 2, 0x20, 0xac, 0x02, 0x10, 3, 0x0a, 32];
    bytes.extend_from_slice(node(1).as_bytes());
    let signed = proto::SignedLsa {
        lsa_bytes: Bytes::from(bytes.clone()),
        signature: Bytes::from_static(&[4]),
    };
    let frame = WireFrame::control(FrameType::Lsa, signed.encode_to_bytes());
    let control = decode_control_frame(frame.clone()).expect("frame must decode");
    assert_eq!(control, message(lsa(0), &bytes));
    assert_eq!(encode_control_frame(&control), Ok(frame));
}

#[test]
fn each_bad_announcement_has_its_error() {
    assert!(read(wire_lsa()).is_ok());
    let mut wire = wire_lsa();
    wire.adjacencies[0].peer = Bytes::from_static(&[1; 33]);
    assert_eq!(read(wire), Err(RuntimeError::InvalidNodeIdLength(33)));
    for cost in [0, 65_536, u32::MAX] {
        let mut wire = wire_lsa();
        wire.adjacencies[0].cost = cost;
        assert_eq!(read(wire), Err(RuntimeError::InvalidLinkCost(cost)));
    }
    for ttl_sec in [0, MAX_LSA_TTL_SEC + 1] {
        let mut wire = wire_lsa();
        wire.ttl_sec = ttl_sec;
        assert_eq!(read(wire), Err(RuntimeError::InvalidLsaTtl(ttl_sec)));
    }
    let mut wire = wire_lsa();
    wire.adjacencies = (0..=MAX_LSA_ADJACENCIES)
        .map(|_| proto::Adjacency {
            peer: Bytes::new(),
            cost: 0,
        })
        .collect();
    let too_many = RuntimeError::TooManyElements {
        field: "Lsa.adjacencies",
        count: MAX_LSA_ADJACENCIES + 1,
        limit: MAX_LSA_ADJACENCIES,
    };
    assert_eq!(read(wire), Err(too_many));
    assert_eq!(
        encode_control_frame(&message(lsa(MAX_LSA_ADJACENCIES + 1), &[])),
        Err(RuntimeError::TooManyElements {
            field: "Lsa.adjacencies",
            count: MAX_LSA_ADJACENCIES + 1,
            limit: MAX_LSA_ADJACENCIES,
        })
    );
    assert!(matches!(
        decode_control_frame(WireFrame::control(
            FrameType::Digest,
            Bytes::from_static(&[0x0a, 9])
        )),
        Err(RuntimeError::Protobuf(_))
    ));
    assert_eq!(
        encode_control_frame(&ControlFrame::DigestReq(vec![
            node(1);
            MAX_DIGEST_REQ_ORIGINS + 1
        ])),
        Err(RuntimeError::TooManyElements {
            field: "DigestReq.origins",
            count: MAX_DIGEST_REQ_ORIGINS + 1,
            limit: MAX_DIGEST_REQ_ORIGINS,
        })
    );
}

#[test]
fn control_frames_stay_on_the_control_channel() {
    let digest = ControlFrame::Digest(vec![DigestEntry {
        origin: node(1),
        epoch: 1,
        seq: 1,
    }]);
    let mut wire = encode_control_frame(&digest).expect("frame must encode");
    wire.channel = Channel::Tunnel;
    assert_eq!(
        decode_control_frame(wire),
        Err(RuntimeError::UnexpectedFrame {
            frame_type: FrameType::Digest,
            channel: Channel::Tunnel,
        })
    );
    assert_eq!(
        decode_control_frame(WireFrame::control(FrameType::Credit, Bytes::new())),
        Err(RuntimeError::UnexpectedFrame {
            frame_type: FrameType::Credit,
            channel: Channel::Control,
        })
    );
}

#[test]
fn packets_go_by_the_channel_of_their_priority() {
    let packet = |priority: Priority, len: usize| ForwardPacket {
        header: ForwardHeader {
            packet_type: PacketType::Unicast,
            priority,
            ttl: 1,
            flags: ForwardFlags::empty(),
            destination: node(2),
            source: node(1),
            flow_id: 1,
            conflate_key: 2,
        },
        payload: Bytes::from(vec![5; len]),
    };
    let channels = [
        (Priority::P0, Channel::PubSubP0),
        (Priority::P1, Channel::PubSubP1),
        (Priority::P2, Channel::PubSubP2),
        (Priority::P3, Channel::PubSubP3),
    ];
    for (priority, channel) in channels {
        assert_eq!(channel_for_priority(priority), channel);
        let wire = encode_forward_frame(&packet(priority, 3)).expect("packet must encode");
        assert_eq!(wire.channel, channel);
        assert_eq!(wire.frame_type, FrameType::Forward);
        assert_eq!(decode_forward_frame(wire), Ok(packet(priority, 3)));
    }
    let mut wire = encode_forward_frame(&packet(Priority::P0, 0)).expect("packet must encode");
    wire.channel = Channel::PubSubP1;
    assert_eq!(
        decode_forward_frame(wire),
        Err(RuntimeError::UnexpectedFrame {
            frame_type: FrameType::Forward,
            channel: Channel::PubSubP1,
        })
    );
    assert_eq!(
        decode_forward_frame(WireFrame::control(FrameType::Lsa, Bytes::new())),
        Err(RuntimeError::UnexpectedFrame {
            frame_type: FrameType::Lsa,
            channel: Channel::Control,
        })
    );
    assert_eq!(
        encode_forward_frame(&packet(Priority::P0, MAX_FORWARD_PAYLOAD_LEN + 1)),
        Err(RuntimeError::ForwardPacket(
            ForwardPacketError::PayloadTooLarge(MAX_FORWARD_PAYLOAD_LEN + 1)
        ))
    );
}

#[test]
fn runtime_errors_have_words() {
    let zeros = "0".repeat(62);
    let words = [
        (
            RuntimeError::EndpointNodeMismatch {
                endpoint: node(1),
                configured: node(2),
            },
            format!(
                "endpoint belongs to node {zeros}01, but runtime is configured for {zeros}02"
            ),
        ),
        (
            RuntimeError::UnexpectedFrame {
                frame_type: FrameType::DigestReq,
                channel: Channel::PubSubP3,
            },
            "unexpected runtime frame type DigestReq on channel PubSubP3".to_owned(),
        ),
        (
            RuntimeError::Protobuf("bad".to_owned()),
            "control protobuf is invalid: bad".to_owned(),
        ),
        (
            RuntimeError::InvalidNodeIdLength(31),
            "control-plane NodeId must be 32 bytes, got 31".to_owned(),
        ),
        (
            RuntimeError::InvalidLinkCost(0),
            "invalid link cost 0".to_owned(),
        ),
        (
            RuntimeError::InvalidLsaTtl(3_601),
            "invalid LSA ttl_sec 3601".to_owned(),
        ),
        (
            RuntimeError::TooManyElements {
                field: "Digest.entries",
                count: 1_001,
                limit: 1_000,
            },
            "Digest.entries contains 1001 elements, limit is 1000".to_owned(),
        ),
        (
            RuntimeError::SequenceExhausted,
            "LSA sequence is exhausted".to_owned(),
        ),
        (
            RuntimeError::ForwardPacket(ForwardPacketError::UnknownPriority(4)),
            "forward packet is invalid: unknown forward packet priority 4".to_owned(),
        ),
        (
            RuntimeError::RuntimeStopped,
            "runtime has stopped".to_owned(),
        ),
        (
            RuntimeError::SeqStore(SeqStoreError::new("full".to_owned())),
            "sequence persistence failed: full".to_owned(),
        ),
        (
            RuntimeError::Transport(TransportError::LinkIdExhausted),
            "transport operation failed: local LinkId space is exhausted".to_owned(),
        ),
    ];
    for (error, expected) in words {
        assert_eq!(error.to_string(), expected);
    }
}
