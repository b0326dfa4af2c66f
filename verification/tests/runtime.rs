use bytes::Bytes;
use meshbus::control::{
    Adjacency, ControlAction, ControlEvent, ControlFrame, ControlPlane, DigestEntry, LinkCost, Lsa,
    LsaMessage, MAX_DIGEST_ENTRIES,
};
use meshbus::runtime::{decode_control_frame, encode_control_frame, RuntimeError};
use meshbus::types::{Component, LinkId, MonoTime, NodeId};
use meshbus::wire::proto;
use meshbus::wire::{FrameType, WireFrame};
use std::sync::Arc;

fn node(value: u8) -> NodeId {
    let mut bytes = [0; 32];
    bytes[31] = value;
    NodeId::from_bytes(bytes)
}

#[test]
fn protobuf_control_frame_round_trips_and_preserves_canonical_bytes() {
    let original_lsa = Lsa {
        origin: node(1),
        epoch: 7,
        seq: 42,
        ttl_sec: 300,
        adjacencies: vec![Adjacency {
            peer: node(2),
            cost: LinkCost::new(9).expect("cost must be valid"),
        }],
    };
    let frame = ControlFrame::Lsa(LsaMessage {
        lsa: original_lsa.clone(),
        canonical_bytes: Arc::from([]),
        signature: Arc::from([1, 2, 3]),
    });

    let wire = encode_control_frame(&frame).expect("control frame must encode");
    let decoded = decode_control_frame(wire).expect("control frame must decode");
    let ControlFrame::Lsa(message) = decoded else {
        panic!("decoded frame must remain an LSA");
    };
    assert_eq!(message.lsa, original_lsa);
    assert!(!message.canonical_bytes.is_empty());
    assert_eq!(message.signature.as_ref(), &[1, 2, 3]);

    let reencoded = encode_control_frame(&ControlFrame::Lsa(message.clone()))
        .expect("forwarded frame must encode");
    let signed =
        proto::SignedLsa::decode(reencoded.payload).expect("forwarded SignedLsa must decode");
    assert_eq!(signed.lsa_bytes, message.canonical_bytes.as_ref());
}

#[test]
fn digest_frames_round_trip() {
    let frames = [
        ControlFrame::Digest(vec![DigestEntry {
            origin: node(1),
            epoch: 3,
            seq: 99,
        }]),
        ControlFrame::DigestReq(vec![node(1), node(2)]),
    ];

    for frame in frames {
        let wire = encode_control_frame(&frame).expect("digest frame must encode");
        let decoded = decode_control_frame(wire).expect("digest frame must decode");
        assert_eq!(decoded, frame);
    }
}

#[test]
fn malformed_domain_values_are_rejected() {
    let invalid = proto::Lsa {
        origin: Bytes::from(vec![0; 31]),
        seq: 1,
        ttl_sec: 300,
        adjacencies: Vec::new(),
        epoch: 1,
    };
    let signed = proto::SignedLsa {
        lsa_bytes: invalid.encode_to_bytes(),
        signature: Bytes::new(),
    };
    let frame = WireFrame::control(FrameType::Lsa, signed.encode_to_bytes());

    assert!(matches!(
        decode_control_frame(frame),
        Err(RuntimeError::InvalidNodeIdLength(31))
    ));
}

#[test]
fn control_collection_limits_are_enforced_on_encode_and_decode() {
    let oversized_digest = ControlFrame::Digest(vec![
        DigestEntry {
            origin: node(1),
            epoch: 1,
            seq: 1,
        };
        MAX_DIGEST_ENTRIES + 1
    ]);
    assert!(matches!(
        encode_control_frame(&oversized_digest),
        Err(RuntimeError::TooManyElements {
            field: "Digest.entries",
            ..
        })
    ));

    let mut entries = Vec::new();
    for _ in 0..MAX_DIGEST_ENTRIES + 1 {
        entries.push(proto::DigestEntry {
            origin: Bytes::copy_from_slice(node(1).as_bytes()),
            epoch: 1,
            seq: 1,
        });
    }
    let digest = proto::Digest { entries };
    let wire = WireFrame::control(FrameType::Digest, digest.encode_to_bytes());
    assert!(matches!(
        decode_control_frame(wire),
        Err(RuntimeError::TooManyElements {
            field: "Digest.entries",
            ..
        })
    ));

    let invalid_ttl = ControlFrame::Lsa(LsaMessage {
        lsa: Lsa {
            origin: node(1),
            epoch: 1,
            seq: 1,
            ttl_sec: 0,
            adjacencies: Vec::new(),
        },
        canonical_bytes: Arc::from([]),
        signature: Arc::from([]),
    });
    assert!(matches!(
        encode_control_frame(&invalid_ttl),
        Err(RuntimeError::InvalidLsaTtl(0))
    ));
}

#[test]
fn restart_continues_immediately_after_the_saved_sequence() {
    let saved = 41;
    let mut plane = ControlPlane::new_unsecured_with_seq(node(1), 1, saved);
    let actions = plane.handle(
        MonoTime::zero(),
        ControlEvent::LinkUp {
            link: LinkId::new(1),
            peer: node(2),
            cost: LinkCost::new(1).expect("cost is valid"),
        },
    );

    assert!(matches!(
        actions.first(),
        Some(ControlAction::PersistSeq(seq)) if *seq == saved + 1
    ));
}
