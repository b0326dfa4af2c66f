use bytes::Bytes;
use meshbus::pubsub::hash::stable_hash;
use meshbus::pubsub::{
    DiscoveryIndex, Envelope, EnvelopeCodec, EnvelopeError, PubSub, PubSubAction,
    PubSubDropReason, PubSubEvent, PubSubRejectReason, SubId, TopicError, TopicKey, TopicMode,
    TopicPolicies, TopicPolicy, TopicSelector, MAX_LIVE_ENVELOPE_LEN,
};
use meshbus::types::{Component, MonoTime, NodeId};
use meshbus::wire::Priority;
use std::sync::Arc;

fn node(value: u8) -> NodeId {
    let mut bytes = [0; 32];
    bytes[31] = value;
    NodeId::from_bytes(bytes)
}

fn topic(name: &str, partition: &'static [u8]) -> TopicKey {
    TopicKey::new(name.to_owned(), Bytes::from_static(partition)).expect("a valid topic")
}

fn pubsub(me: u8, priority: Priority, mode: TopicMode) -> PubSub {
    let policies = TopicPolicies::new(vec![
        ("log".to_owned(), TopicPolicy { priority, mode }),
        (
            "other".to_owned(),
            TopicPolicy {
                priority: Priority::P3,
                mode: TopicMode::Log,
            },
        ),
    ])
    .expect("valid policies");
    PubSub::new(node(me), Arc::new(policies))
}

fn publish(pubsub: &mut PubSub, at: u64, topic: &TopicKey, payload: &'static [u8]) -> Vec<PubSubAction> {
    pubsub.handle(
        MonoTime::from_millis(at),
        PubSubEvent::LocalPublish {
            topic: topic.clone(),
            payload: Bytes::from_static(payload),
        },
    )
}

#[test]
fn envelopes_have_their_protobuf_bytes() {
    let envelope = Envelope {
        origin: node(1),
        topic: topic("t\u{e9}", b"p"),
        seq: 300,
        ts_ms: 0,
        payload: Bytes::from_static(b"xyz"),
    };
    let encoded = EnvelopeCodec::encode(&envelope).expect("envelope must encode");
    let mut expected = b"MBPS".to_vec();
    expected.extend_from_slice(&[0x0a, 32]);
    expected.extend_from_slice(node(1).as_bytes());
    expected.extend_from_slice(&[0x12, 3, b't', 0xc3, 0xa9, 0x1a, 1, b'p', 0x20, 0xac, 0x02]);
    expected.extend_from_slice(&[0x32, 3, b'x', b'y', b'z']);
    assert_eq!(encoded.as_ref(), expected.as_slice());
    assert!(EnvelopeCodec::is_envelope(&encoded));
    assert_eq!(EnvelopeCodec::decode(encoded), Ok(envelope));
}

#[test]
fn each_bad_envelope_has_its_error() {
    let decode = |body: &[u8]| {
        let mut bytes = b"MBPS".to_vec();
        bytes.extend_from_slice(body);
        EnvelopeCodec::decode(Bytes::from(bytes))
    };
    assert_eq!(
        EnvelopeCodec::decode(Bytes::from_static(b"MBP")),
        Err(EnvelopeError::NotPubSub)
    );
    assert!(!EnvelopeCodec::is_envelope(&Bytes::from_static(b"MBPT...")));
    assert!(matches!(
        decode(&[0x0a, 5]),
        Err(EnvelopeError::Protobuf(_))
    ));
    assert!(matches!(
        decode(&[0x12, 1, 0xff]),
        Err(EnvelopeError::Protobuf(_))
    ));
    assert_eq!(
        decode(&[0x0a, 2, 1, 2]),
        Err(EnvelopeError::InvalidOriginLength(2))
    );
    let mut body = vec![0x0a, 32];
    body.extend_from_slice(node(1).as_bytes());
    assert_eq!(decode(&body), Err(EnvelopeError::InvalidSequence));
    body.extend_from_slice(&[0x20, 1]);
    assert_eq!(
        decode(&body),
        Err(EnvelopeError::InvalidTopic(TopicError::EmptyName))
    );
    body.extend_from_slice(&[0x12, 1, b't']);
    assert_eq!(
        decode(&body).map(|envelope| envelope.topic),
        Ok(topic("t", b""))
    );
    let unnumbered = Envelope {
        origin: node(1),
        topic: topic("t", b""),
        seq: 0,
        ts_ms: 1,
        payload: Bytes::new(),
    };
    assert_eq!(
        EnvelopeCodec::encode(&unnumbered),
        Err(EnvelopeError::InvalidSequence)
    );
}

#[test]
fn topics_are_bounded() {
    let named = |name: String, partition: usize| {
        TopicKey::new(name, Bytes::from(vec![0; partition])).map(|_| ())
    };
    assert_eq!(named(String::new(), 0), Err(TopicError::EmptyName));
    assert_eq!(named("n".repeat(1_024), 65_536), Ok(()));
    assert_eq!(
        named("n".repeat(1_025), 0),
        Err(TopicError::NameTooLong(1_025))
    );
    assert_eq!(
        named("\u{e9}".repeat(513), 0),
        Err(TopicError::NameTooLong(1_026))
    );
    assert_eq!(
        named("n".to_owned(), 65_537),
        Err(TopicError::PartitionTooLong(65_537))
    );
    assert_eq!(
        TopicSelector::all_partitions(String::new()).map(|_| ()),
        Err(TopicError::EmptyName)
    );
    let policy = TopicPolicy {
        priority: Priority::P0,
        mode: TopicMode::Log,
    };
    assert_eq!(
        TopicPolicies::new(vec![(String::new(), policy)]).map(|_| ()),
        Err(TopicError::EmptyName)
    );
    let policies = TopicPolicies::new(vec![(
        "t".to_owned(),
        TopicPolicy {
            priority: Priority::P3,
            mode: TopicMode::Latest,
        },
    ), ("t".to_owned(), policy)])
    .expect("valid policies");
    assert_eq!(policies.get("t"), Some(policy));
    assert_eq!(policies.get("u"), None);
    assert_eq!(TopicPolicies::default().get("t"), None);
}

#[test]
fn errors_of_topics_and_envelopes_have_words() {
    assert_eq!(
        TopicError::EmptyName.to_string(),
        "topic name must not be empty"
    );
    assert_eq!(
        TopicError::NameTooLong(1_025).to_string(),
        "topic name length 1025 exceeds the 1024 byte limit"
    );
    assert_eq!(
        TopicError::PartitionTooLong(65_537).to_string(),
        "topic partition length 65537 exceeds the 65536 byte limit"
    );
    assert_eq!(
        EnvelopeError::NotPubSub.to_string(),
        "payload is not a mesh-bus Pub/Sub envelope"
    );
    assert_eq!(
        EnvelopeError::Protobuf("bad".to_owned()).to_string(),
        "Pub/Sub envelope protobuf is invalid: bad"
    );
    assert_eq!(
        EnvelopeError::InvalidOriginLength(3).to_string(),
        "Pub/Sub origin must be 32 bytes, got 3"
    );
    assert_eq!(
        EnvelopeError::InvalidSequence.to_string(),
        "Pub/Sub sequence must be non-zero"
    );
    assert_eq!(
        EnvelopeError::InvalidTopic(TopicError::EmptyName).to_string(),
        "invalid Pub/Sub topic: topic name must not be empty"
    );
}

#[test]
fn selectors_match_a_partition_or_all() {
    let a = topic("t", b"a");
    let b = topic("t", b"b");
    let exact = TopicSelector::exact(a.clone());
    let all = TopicSelector::all_partitions("t".to_owned()).expect("a valid name");
    assert!(exact.matches(&a) && !exact.matches(&b));
    assert!(all.matches(&a) && all.matches(&b));
    assert!(!all.matches(&topic("u", b"a")));
    assert_eq!(exact.name(), "t");
    assert_eq!(exact.partition(), Some(&Bytes::from_static(b"a")));
    assert_eq!(all.partition(), None);
    assert_eq!((a.name(), a.partition().as_ref()), ("t", &b"a"[..]));

    let mut index = DiscoveryIndex::default();
    index.set_subscribers(all.clone(), vec![node(9), node(3)]);
    index.set_subscribers(exact.clone(), vec![node(3), node(1)]);
    assert_eq!(index.subscribers(&a), vec![node(1), node(3), node(9)]);
    assert_eq!(index.subscribers(&b), vec![node(3), node(9)]);
    index.set_subscribers(all, vec![]);
    assert_eq!(index.subscribers(&b), Vec::<NodeId>::new());
}

#[test]
fn local_subscriptions_get_what_is_published_at_their_node() {
    let mut pubsub = pubsub(1, Priority::P1, TopicMode::Latest);
    let log = topic("log", b"p");
    let all = TopicSelector::all_partitions("log".to_owned()).expect("a valid name");
    for (sub_id, selector) in [
        (9, all.clone()),
        (4, TopicSelector::exact(log.clone())),
        (5, TopicSelector::exact(topic("log", b"q"))),
    ] {
        pubsub.handle(
            MonoTime::zero(),
            PubSubEvent::LocalSubscribe {
                sub_id: SubId::new(sub_id),
                selector,
            },
        );
    }
    let mut index = DiscoveryIndex::default();
    index.set_subscribers(all, vec![node(1), node(2)]);
    pubsub.handle(
        MonoTime::zero(),
        PubSubEvent::DiscoveryUpdated(Arc::new(index)),
    );
    let actions = publish(&mut pubsub, 77, &log, b"body");
    assert_eq!(actions.len(), 4);
    for (action, wanted) in actions.iter().zip([4, 9]) {
        match action {
            PubSubAction::DeliverToApp { sub_id, message } => {
                assert_eq!(sub_id.get(), wanted);
                assert_eq!(message.envelope.origin, node(1));
                assert_eq!(message.envelope.ts_ms, 77);
                assert_eq!(message.envelope.payload, Bytes::from_static(b"body"));
            }
            other => panic!("expected a delivery, got {other:?}"),
        }
    }
    assert!(matches!(
        &actions[2],
        PubSubAction::SendMulticast { destinations, conflatable: true, .. }
            if destinations == &vec![node(2)]
    ));
    assert_eq!(
        actions[3],
        PubSubAction::Published {
            topic: log.clone(),
            seq: 1
        }
    );
    // The own message that comes back is a duplicate.
    let PubSubAction::SendMulticast { payload, .. } = &actions[2] else {
        panic!("expected a multicast");
    };
    let back = pubsub.handle(
        MonoTime::zero(),
        PubSubEvent::Inbound {
            source: node(1),
            payload: payload.clone(),
        },
    );
    assert_eq!(
        back,
        vec![PubSubAction::Dropped(PubSubDropReason::DuplicateOrTooOld {
            origin: node(1),
            topic: log,
            seq: 1,
        })]
    );
}

#[test]
fn flows_and_keys_are_hashes_of_their_names() {
    let mut pubsub = pubsub(1, Priority::P2, TopicMode::Latest);
    let log = topic("log", b"p");
    let mut index = DiscoveryIndex::default();
    index.set_subscribers(TopicSelector::exact(log.clone()), vec![node(2)]);
    pubsub.handle(
        MonoTime::zero(),
        PubSubEvent::DiscoveryUpdated(Arc::new(index)),
    );
    let actions = publish(&mut pubsub, 0, &log, b"");
    let fnv = |parts: &[&[u8]]| {
        let mut hash: u64 = 0xcbf2_9ce4_8422_2325;
        for part in parts {
            for byte in part.iter().chain(&[0xff]) {
                hash = (hash ^ u64::from(*byte)).wrapping_mul(0x0000_0100_0000_01b3);
            }
        }
        hash
    };
    assert!(matches!(
        &actions[0],
        PubSubAction::SendMulticast { priority: Priority::P2, flow_id, conflate_key, conflatable: false, .. }
            if *flow_id == fnv(&[b"log", b"p"])
                && *conflate_key == fnv(&[node(1).as_bytes(), b"p"])
    ));
    assert_eq!(stable_hash(b"log", b"p"), fnv(&[b"log", b"p"]));
    assert_ne!(stable_hash(b"lo", b"gp"), stable_hash(b"log", b"p"));
}

#[test]
fn topics_are_numbered_apart() {
    let mut pubsub = pubsub(1, Priority::P0, TopicMode::Log);
    let log = topic("log", b"p");
    let other = topic("other", b"p");
    for (topic, seq) in [(&log, 1), (&log, 2), (&other, 1), (&log, 3)] {
        assert_eq!(
            publish(&mut pubsub, 0, topic, b""),
            vec![PubSubAction::Published {
                topic: topic.clone(),
                seq
            }]
        );
    }
}

#[test]
fn the_largest_envelope_is_sent_and_a_larger_one_is_not() {
    let mut pubsub = pubsub(1, Priority::P0, TopicMode::Log);
    let log = topic("log", b"");
    // Magic, origin, name, sequence number, and the key and length of the payload.
    let overhead = 4 + 34 + 5 + 2 + 4;
    let largest = MAX_LIVE_ENVELOPE_LEN - overhead;
    let actions = pubsub.handle(
        MonoTime::zero(),
        PubSubEvent::LocalPublish {
            topic: log.clone(),
            payload: Bytes::from(vec![0; largest + 1]),
        },
    );
    assert_eq!(
        actions,
        vec![PubSubAction::Rejected(PubSubRejectReason::EnvelopeTooLarge {
            encoded_len: MAX_LIVE_ENVELOPE_LEN + 1,
            max: MAX_LIVE_ENVELOPE_LEN,
        })]
    );
    let actions = pubsub.handle(
        MonoTime::zero(),
        PubSubEvent::LocalPublish {
            topic: log.clone(),
            payload: Bytes::from(vec![0; largest]),
        },
    );
    assert_eq!(
        actions,
        vec![PubSubAction::Published { topic: log, seq: 1 }]
    );
}

#[test]
fn messages_from_elsewhere_are_checked() {
    let mut pubsub = pubsub(1, Priority::P0, TopicMode::Log);
    let inbound = |pubsub: &mut PubSub, source: u8, payload: Bytes| {
        pubsub.handle(
            MonoTime::zero(),
            PubSubEvent::Inbound {
                source: node(source),
                payload,
            },
        )
    };
    assert_eq!(
        inbound(&mut pubsub, 2, Bytes::from_static(b"plain")),
        vec![PubSubAction::Rejected(PubSubRejectReason::InvalidEnvelope(
            EnvelopeError::NotPubSub
        ))]
    );
    let message = |name: &str, seq: u64| {
        EnvelopeCodec::encode(&Envelope {
            origin: node(2),
            topic: topic(name, b""),
            seq,
            ts_ms: 0,
            payload: Bytes::new(),
        })
        .expect("envelope must encode")
    };
    assert_eq!(
        inbound(&mut pubsub, 3, message("log", 1)),
        vec![PubSubAction::Rejected(PubSubRejectReason::SourceMismatch {
            header: node(3),
            envelope: node(2),
        })]
    );
    assert_eq!(
        inbound(&mut pubsub, 2, message("unknown", 1)),
        vec![PubSubAction::Rejected(PubSubRejectReason::UnknownTopic(
            "unknown".to_owned()
        ))]
    );
    let dropped = |seq: u64| {
        vec![PubSubAction::Dropped(PubSubDropReason::DuplicateOrTooOld {
            origin: node(2),
            topic: topic("log", b""),
            seq,
        })]
    };
    // Nobody subscribes, so messages that are new lead to nothing.
    for (seq, new) in [
        (100, true),
        (37, true),
        (36, false),
        (100, false),
        (37, false),
        (101, true),
        (37, false),
        (38, true),
        (300, true),
        (101, false),
        (237, true),
        (236, false),
    ] {
        let expected = if new { Vec::new() } else { dropped(seq) };
        assert_eq!(inbound(&mut pubsub, 2, message("log", seq)), expected, "{seq}");
    }
}

#[test]
fn events_and_actions_can_be_copied() {
    let log = topic("log", b"p");
    let event = PubSubEvent::LocalPublish {
        topic: log.clone(),
        payload: Bytes::from_static(b"x"),
    };
    assert_eq!(event.clone(), event);
    let action = PubSubAction::LocalSubscriptionsChanged(vec![TopicSelector::exact(log.clone())]);
    assert_eq!(action.clone(), action);
    let action = PubSubAction::Rejected(PubSubRejectReason::SequenceExhausted(log));
    assert_eq!(action.clone(), action);
    assert_eq!(pubsub(7, Priority::P0, TopicMode::Log).node_id(), node(7));
}
