//! What the publish/subscribe core does, as mathematics.

use vstd::prelude::*;
use crate::order;
use crate::pubsub::envelope;
use crate::pubsub::envelope::{EnvelopeFault, EnvelopeView};
use crate::pubsub::hash;
use crate::pubsub::topic;
use crate::pubsub::topic::{SelectorView, SubId, TopicMode, TopicPolicy, TopicView};
use crate::pubsub::window;
use crate::pubsub::window::WindowView;
use crate::types::{MonoTime, NodeId};
use crate::wire::packet::{MAX_FORWARD_PAYLOAD_LEN, MAX_MULTICAST_DESTINATIONS};
use crate::wire::packet::{MULTICAST_COUNT_LEN, NODE_ID_LEN, Priority};

verus! {

/// The longest envelope that is sent live: a multicast packet must hold it and
/// at least one destination.
pub const MAX_LIVE_ENVELOPE_LEN: usize = MAX_FORWARD_PAYLOAD_LEN - MULTICAST_COUNT_LEN
    - NODE_ID_LEN;

/// The state of the publish/subscribe core.
#[verifier::ext_equal]
pub struct PubSubView {
    pub me: NodeId,
    pub policies: Map<Seq<char>, TopicPolicy>,
    pub subscriptions: Map<SubId, SelectorView>,
    pub discovery: Map<SelectorView, Set<NodeId>>,
    pub sequences: Map<TopicView, u64>,
    pub received: Map<(NodeId, TopicView), WindowView>,
}

/// What an event says.
#[verifier::ext_equal]
pub enum PubSubEventView {
    LocalPublish { topic: TopicView, payload: Seq<u8> },
    LocalSubscribe { sub_id: SubId, selector: SelectorView },
    LocalUnsubscribe(SubId),
    Inbound { source: NodeId, payload: Seq<u8> },
    DiscoveryUpdated(Map<SelectorView, Set<NodeId>>),
}

/// Why something is refused.
#[verifier::ext_equal]
pub enum RejectView {
    UnknownTopic(Seq<char>),
    SequenceExhausted(TopicView),
    EnvelopeTooLarge { encoded_len: usize, max: usize },
    InvalidEnvelope(EnvelopeFault),
    SourceMismatch { header: NodeId, envelope: NodeId },
}

/// What an action says.
#[verifier::ext_equal]
pub enum PubSubActionView {
    SendMulticast {
        destinations: Seq<NodeId>,
        priority: Priority,
        flow_id: u64,
        conflate_key: u64,
        conflatable: bool,
        payload: Seq<u8>,
    },
    DeliverToApp { sub_id: SubId, envelope: EnvelopeView, is_backfill: bool },
    LocalSubscriptionsChanged(Seq<SelectorView>),
    Published { topic: TopicView, seq: u64 },
    Rejected(RejectView),
    DroppedDuplicateOrTooOld { origin: NodeId, topic: TopicView, seq: u64 },
}

/// The state of a new core.
pub open spec fn initial(me: NodeId, policies: Map<Seq<char>, TopicPolicy>) -> PubSubView {
    PubSubView {
        me,
        policies,
        subscriptions: Map::empty(),
        discovery: Map::empty(),
        sequences: Map::empty(),
        received: Map::empty(),
    }
}

/// The last sequence number used for a topic; zero where none was.
pub open spec fn last_sequence(p: PubSubView, topic: TopicView) -> u64 {
    if p.sequences.contains_key(topic) {
        p.sequences[topic]
    } else {
        0
    }
}

/// The sequence number of a feed is new to this node.
pub open spec fn is_new(p: PubSubView, feed: (NodeId, TopicView), seq: u64) -> bool {
    p.received.contains_key(feed) ==> window::is_new(p.received[feed], seq)
}

/// The state once the sequence number of a feed has been looked at.
pub open spec fn looked_at(p: PubSubView, feed: (NodeId, TopicView), seq: u64) -> PubSubView {
    let window = if p.received.contains_key(feed) {
        window::looked_at(p.received[feed], seq)
    } else {
        window::first_window(seq)
    };
    PubSubView { received: p.received.insert(feed, window), ..p }
}

/// The local subscriptions that ask for a topic.
pub open spec fn matching(subscriptions: Map<SubId, SelectorView>, topic: TopicView) -> Set<SubId> {
    Set::new(
        |sub_id: SubId|
            subscriptions.contains_key(sub_id) && topic::selects(subscriptions[sub_id], topic),
    )
}

/// Hands a message to every local subscription that asks for its topic, by
/// ascending subscription.
pub open spec fn deliveries(
    subscriptions: Map<SubId, SelectorView>,
    envelope: EnvelopeView,
) -> Seq<PubSubActionView> {
    let ids = order::ascending::<SubId>(matching(subscriptions, envelope.topic));
    Seq::new(
        ids.len(),
        |i: int|
            PubSubActionView::DeliverToApp { sub_id: ids[i], envelope, is_backfill: false },
    )
}

/// The nodes that a message is sent to, in ascending order: all subscribers of
/// its topic but this node.
pub open spec fn destinations(p: PubSubView, topic: TopicView) -> Seq<NodeId> {
    order::ascending::<NodeId>(topic::subscribers_of(p.discovery, topic).remove(p.me))
}

/// How many destinations a multicast packet with an envelope of this length
/// can have.
pub open spec fn chunk_limit(encoded_len: nat) -> nat {
    let fitting = (MAX_FORWARD_PAYLOAD_LEN - encoded_len - MULTICAST_COUNT_LEN) / (
    NODE_ID_LEN as int);
    if fitting < MAX_MULTICAST_DESTINATIONS {
        fitting as nat
    } else {
        MAX_MULTICAST_DESTINATIONS as nat
    }
}

/// A sequence in pieces of the given length; the last one may be shorter.
pub open spec fn chunks(all: Seq<NodeId>, limit: nat) -> Seq<Seq<NodeId>>
    decreases all.len(),
{
    if all.len() == 0 || limit == 0 {
        Seq::empty()
    } else if all.len() <= limit {
        seq![all]
    } else {
        seq![all.take(limit as int)] + chunks(all.skip(limit as int), limit)
    }
}

/// Sends an envelope to some of its destinations.
pub open spec fn multicast(
    p: PubSubView,
    envelope: EnvelopeView,
    destinations: Seq<NodeId>,
) -> PubSubActionView {
    let policy = p.policies[envelope.topic.name];
    PubSubActionView::SendMulticast {
        destinations,
        priority: policy.priority,
        flow_id: hash::hash_of(topic::utf8(envelope.topic.name), envelope.topic.partition),
        conflate_key: hash::hash_of(p.me.bytes(), envelope.topic.partition),
        conflatable: policy.mode == TopicMode::Latest && policy.priority == Priority::P1,
        payload: envelope::envelope_bytes(envelope),
    }
}

/// Sends an envelope to pieces of its destinations.
pub open spec fn multicasts(
    p: PubSubView,
    envelope: EnvelopeView,
    pieces: Seq<Seq<NodeId>>,
) -> Seq<PubSubActionView> {
    Seq::new(pieces.len(), |i: int| multicast(p, envelope, pieces[i]))
}

/// The envelope of the next message of a topic.
pub open spec fn next_envelope(
    p: PubSubView,
    now: MonoTime,
    topic: TopicView,
    payload: Seq<u8>,
) -> EnvelopeView {
    EnvelopeView {
        origin: p.me,
        topic,
        seq: (last_sequence(p, topic) + 1) as u64,
        ts_ms: now.millis(),
        payload,
    }
}

/// Publishes a message: it goes to the local subscriptions that ask for its
/// topic, and by multicast to all other nodes that do.
pub open spec fn publish(p: PubSubView, now: MonoTime, topic: TopicView, payload: Seq<u8>) -> (
    PubSubView,
    Seq<PubSubActionView>,
) {
    let envelope = next_envelope(p, now, topic, payload);
    let encoded_len = envelope::envelope_bytes(envelope).len();
    if !p.policies.contains_key(topic.name) {
        (p, seq![PubSubActionView::Rejected(RejectView::UnknownTopic(topic.name))])
    } else if last_sequence(p, topic) == u64::MAX {
        (p, seq![PubSubActionView::Rejected(RejectView::SequenceExhausted(topic))])
    } else if encoded_len > MAX_LIVE_ENVELOPE_LEN {
        (
            p,
            seq![
                PubSubActionView::Rejected(
                    RejectView::EnvelopeTooLarge {
                        encoded_len: encoded_len as usize,
                        max: MAX_LIVE_ENVELOPE_LEN,
                    },
                ),
            ],
        )
    } else {
        (
            looked_at(
                PubSubView { sequences: p.sequences.insert(topic, envelope.seq), ..p },
                (p.me, topic),
                envelope.seq,
            ),
            deliveries(p.subscriptions, envelope) + multicasts(
                p,
                envelope,
                chunks(destinations(p, topic), chunk_limit(encoded_len)),
            ) + seq![PubSubActionView::Published { topic, seq: envelope.seq }],
        )
    }
}

/// Takes in a message from another node.
pub open spec fn receive(p: PubSubView, source: NodeId, payload: Seq<u8>) -> (
    PubSubView,
    Seq<PubSubActionView>,
) {
    match envelope::parse_envelope(payload) {
        Err(fault) => (
            p,
            seq![PubSubActionView::Rejected(RejectView::InvalidEnvelope(fault))],
        ),
        Ok(envelope) => {
            let feed = (envelope.origin, envelope.topic);
            if envelope.origin != source {
                (
                    p,
                    seq![
                        PubSubActionView::Rejected(
                            RejectView::SourceMismatch {
                                header: source,
                                envelope: envelope.origin,
                            },
                        ),
                    ],
                )
            } else if !p.policies.contains_key(envelope.topic.name) {
                (
                    p,
                    seq![
                        PubSubActionView::Rejected(RejectView::UnknownTopic(envelope.topic.name)),
                    ],
                )
            } else if !is_new(p, feed, envelope.seq) {
                (
                    looked_at(p, feed, envelope.seq),
                    seq![
                        PubSubActionView::DroppedDuplicateOrTooOld {
                            origin: envelope.origin,
                            topic: envelope.topic,
                            seq: envelope.seq,
                        },
                    ],
                )
            } else {
                (looked_at(p, feed, envelope.seq), deliveries(p.subscriptions, envelope))
            }
        },
    }
}

/// What all local subscriptions together ask for.
pub open spec fn effective(subscriptions: Map<SubId, SelectorView>) -> Set<SelectorView> {
    Set::new(
        |selector: SelectorView|
            exists|sub_id: SubId| #[trigger]
                subscriptions.contains_key(sub_id) && subscriptions[sub_id] == selector,
    )
}

/// Tells what the local subscriptions ask for, if that changed.
pub open spec fn subscription_change(
    before: Map<SubId, SelectorView>,
    after: Map<SubId, SelectorView>,
) -> Seq<PubSubActionView> {
    if effective(before) == effective(after) {
        Seq::empty()
    } else {
        seq![
            PubSubActionView::LocalSubscriptionsChanged(
                order::ascending::<topic::TopicSelector>(effective(after)),
            ),
        ]
    }
}

/// How an event changes the state, and what it asks for.
pub open spec fn step(p: PubSubView, now: MonoTime, event: PubSubEventView) -> (
    PubSubView,
    Seq<PubSubActionView>,
) {
    match event {
        PubSubEventView::LocalPublish { topic, payload } => publish(p, now, topic, payload),
        PubSubEventView::LocalSubscribe { sub_id, selector } => {
            let subscriptions = p.subscriptions.insert(sub_id, selector);
            (
                PubSubView { subscriptions, ..p },
                subscription_change(p.subscriptions, subscriptions),
            )
        },
        PubSubEventView::LocalUnsubscribe(sub_id) => {
            let subscriptions = p.subscriptions.remove(sub_id);
            (
                PubSubView { subscriptions, ..p },
                subscription_change(p.subscriptions, subscriptions),
            )
        },
        PubSubEventView::Inbound { source, payload } => receive(p, source, payload),
        PubSubEventView::DiscoveryUpdated(discovery) => (
            PubSubView { discovery, ..p },
            Seq::empty(),
        ),
    }
}

} // verus!
