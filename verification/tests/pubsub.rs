use bytes::Bytes;
use meshbus::pubsub::{
    DeliveredMessage, DiscoveryIndex, Envelope, EnvelopeCodec, EnvelopeError, PubSub, PubSubAction,
    PubSubDropReason, PubSubEvent, PubSubRejectReason, SubId, TopicKey, TopicMode, TopicPolicies,
    TopicPolicy, TopicSelector, MAX_LIVE_ENVELOPE_LEN,
};
use meshbus::types::{Component, MonoTime, NodeId};
use meshbus::wire::{Priority, MAX_MULTICAST_DESTINATIONS};
use std::sync::Arc;

fn node(value: u8) -> NodeId {
    let mut bytes = [0; 32];
    bytes[31] = value;
    NodeId::from_bytes(bytes)
}

fn topic(partition: &'static [u8]) -> TopicKey {
    TopicKey::new("tracks".to_owned(), Bytes::from_static(partition)).expect("test topic must be valid")
}

fn policies() -> Arc<TopicPolicies> {
    Arc::new(
        TopicPolicies::new(vec![(
            "tracks".to_owned(),
            TopicPolicy {
                priority: Priority::P1,
                mode: TopicMode::Latest,
            },
        )])
        .expect("test policy must be valid"),
    )
}

fn envelope(origin: NodeId, sequence: u64) -> Envelope {
    Envelope {
        origin,
        topic: topic(b"drone-17"),
        seq: sequence,
        ts_ms: 10,
        payload: Bytes::from_static(b"position"),
    }
}

#[test]
fn envelope_round_trips_with_a_recognizable_prefix() {
    let original = envelope(node(1), 7);
    let encoded = EnvelopeCodec::encode(&original).expect("envelope must encode");

    assert!(EnvelopeCodec::is_envelope(&encoded));
    assert_eq!(
        EnvelopeCodec::decode(encoded).expect("envelope must decode"),
        original
    );
    assert_eq!(
        EnvelopeCodec::decode(Bytes::from_static(b"raw payload")),
        Err(EnvelopeError::NotPubSub)
    );
}

#[test]
fn publish_emits_canonical_multicast_and_ack() {
    let me = node(1);
    let key = topic(b"drone-17");
    let mut pubsub = PubSub::new(me, policies());
    let mut discovery = DiscoveryIndex::default();
    discovery.set_subscribers(TopicSelector::exact(key.clone()), vec![node(3), node(2)]);
    pubsub.handle(
        MonoTime::zero(),
        PubSubEvent::DiscoveryUpdated(Arc::new(discovery)),
    );

    let actions = pubsub.handle(
        MonoTime::from_millis(25),
        PubSubEvent::LocalPublish {
            topic: key.clone(),
            payload: Bytes::from_static(b"position"),
        },
    );

    assert!(matches!(
        &actions[0],
        PubSubAction::SendMulticast {
            destinations,
            priority: Priority::P1,
            conflatable: true,
            ..
        } if destinations == &vec![node(2), node(3)]
    ));
    assert_eq!(actions.len(), 2);
    assert_eq!(
        actions.last(),
        Some(&PubSubAction::Published { topic: key, seq: 1 })
    );
}

#[test]
fn inbound_message_is_delivered_to_a_matching_subscription() {
    let origin = node(1);
    let mut pubsub = PubSub::new(node(2), policies());
    pubsub.handle(
        MonoTime::zero(),
        PubSubEvent::LocalSubscribe {
            sub_id: SubId::new(9),
            selector: TopicSelector::exact(topic(b"drone-17")),
        },
    );
    let received = envelope(origin, 7);

    let actions = pubsub.handle(
        MonoTime::from_millis(25),
        PubSubEvent::Inbound {
            source: origin,
            payload: EnvelopeCodec::encode(&received).expect("envelope must encode"),
        },
    );

    assert_eq!(
        actions,
        vec![PubSubAction::DeliverToApp {
            sub_id: SubId::new(9),
            message: DeliveredMessage {
                envelope: received,
                is_backfill: false,
            },
        }]
    );
}

#[test]
fn subscription_ads_change_only_when_the_effective_selector_set_changes() {
    let mut pubsub = PubSub::new(node(1), policies());
    let selector = TopicSelector::exact(topic(b"drone-17"));

    assert_eq!(
        pubsub.handle(
            MonoTime::zero(),
            PubSubEvent::LocalSubscribe {
                sub_id: SubId::new(1),
                selector: selector.clone(),
            },
        ),
        vec![PubSubAction::LocalSubscriptionsChanged(vec![
            selector.clone()
        ])]
    );
    assert!(pubsub
        .handle(
            MonoTime::zero(),
            PubSubEvent::LocalSubscribe {
                sub_id: SubId::new(2),
                selector,
            },
        )
        .is_empty());
    assert!(pubsub
        .handle(MonoTime::zero(), PubSubEvent::LocalUnsubscribe(SubId::new(1)),)
        .is_empty());
    assert_eq!(
        pubsub.handle(MonoTime::zero(), PubSubEvent::LocalUnsubscribe(SubId::new(2)),),
        vec![PubSubAction::LocalSubscriptionsChanged(Vec::new())]
    );
}

#[test]
fn inbound_dedup_accepts_reordering_once_and_rejects_duplicates() {
    let origin = node(1);
    let mut pubsub = PubSub::new(node(2), policies());
    pubsub.handle(
        MonoTime::zero(),
        PubSubEvent::LocalSubscribe {
            sub_id: SubId::new(1),
            selector: TopicSelector::exact(topic(b"drone-17")),
        },
    );

    for sequence in [2, 1] {
        let actions = pubsub.handle(
            MonoTime::zero(),
            PubSubEvent::Inbound {
                source: origin,
                payload: EnvelopeCodec::encode(&envelope(origin, sequence))
                    .expect("envelope must encode"),
            },
        );
        assert!(matches!(
            actions.as_slice(),
            [PubSubAction::DeliverToApp { .. }]
        ));
    }

    let duplicate = pubsub.handle(
        MonoTime::zero(),
        PubSubEvent::Inbound {
            source: origin,
            payload: EnvelopeCodec::encode(&envelope(origin, 1)).expect("envelope must encode"),
        },
    );
    assert!(matches!(
        duplicate.as_slice(),
        [PubSubAction::Dropped(PubSubDropReason::DuplicateOrTooOld {
            seq: 1,
            ..
        })]
    ));
}

#[test]
fn header_source_must_match_the_envelope_origin() {
    let mut pubsub = PubSub::new(node(3), policies());
    let actions = pubsub.handle(
        MonoTime::zero(),
        PubSubEvent::Inbound {
            source: node(2),
            payload: EnvelopeCodec::encode(&envelope(node(1), 1))
                .expect("envelope must encode"),
        },
    );
    assert!(matches!(
        actions.as_slice(),
        [PubSubAction::Rejected(PubSubRejectReason::SourceMismatch {
            header,
            envelope,
        })] if *header == node(2) && *envelope == node(1)
    ));
}

#[test]
fn multicast_is_chunked_to_the_wire_destination_limit() {
    let key = topic(b"drone-17");
    let mut pubsub = PubSub::new(node(1), policies());
    let mut discovery = DiscoveryIndex::default();
    discovery.set_subscribers(TopicSelector::exact(key.clone()), (2..=70).map(node).collect());
    pubsub.handle(
        MonoTime::zero(),
        PubSubEvent::DiscoveryUpdated(Arc::new(discovery)),
    );

    let actions = pubsub.handle(
        MonoTime::zero(),
        PubSubEvent::LocalPublish {
            topic: key,
            payload: Bytes::new(),
        },
    );
    let chunk_lengths = actions
        .iter()
        .filter_map(|action| match action {
            PubSubAction::SendMulticast { destinations, .. } => Some(destinations.len()),
            _ => None,
        })
        .collect::<Vec<_>>();

    assert_eq!(chunk_lengths, vec![MAX_MULTICAST_DESTINATIONS, 5]);
}

#[test]
fn oversized_publish_is_rejected_without_consuming_a_sequence() {
    let key = topic(b"drone-17");
    let mut pubsub = PubSub::new(node(1), policies());

    let rejected = pubsub.handle(
        MonoTime::zero(),
        PubSubEvent::LocalPublish {
            topic: key.clone(),
            payload: Bytes::from(vec![0; MAX_LIVE_ENVELOPE_LEN]),
        },
    );
    assert!(matches!(
        rejected.as_slice(),
        [PubSubAction::Rejected(
            PubSubRejectReason::EnvelopeTooLarge { .. }
        )]
    ));

    let accepted = pubsub.handle(
        MonoTime::zero(),
        PubSubEvent::LocalPublish {
            topic: key.clone(),
            payload: Bytes::new(),
        },
    );
    assert_eq!(
        accepted.last(),
        Some(&PubSubAction::Published { topic: key, seq: 1 })
    );
}

#[test]
fn identical_inputs_produce_identical_actions() {
    fn run() -> Vec<PubSubAction> {
        let mut pubsub = PubSub::new(node(1), policies());
        let mut discovery = DiscoveryIndex::default();
        discovery.set_subscribers(
            TopicSelector::all_partitions("tracks".to_owned()).expect("selector must be valid"),
            vec![node(3), node(2)],
        );
        pubsub.handle(
            MonoTime::zero(),
            PubSubEvent::DiscoveryUpdated(Arc::new(discovery)),
        );
        pubsub.handle(
            MonoTime::from_millis(50),
            PubSubEvent::LocalPublish {
                topic: topic(b"drone-17"),
                payload: Bytes::from_static(b"position"),
            },
        )
    }

    assert_eq!(run(), run());
}
