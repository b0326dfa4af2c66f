//! The publish/subscribe core itself.

use std::sync::Arc;
use bytes::Bytes;
use vstd::prelude::*;
use crate::buffer;
use crate::order;
use crate::ordered_map::OrderedMap;
use crate::pubsub::envelope;
use crate::pubsub::envelope::{Envelope, EnvelopeCodec, EnvelopeError, EnvelopeView};
use crate::pubsub::hash;
use crate::pubsub::model;
use crate::pubsub::model::{PubSubActionView, PubSubEventView, PubSubView, RejectView};
use crate::pubsub::model::MAX_LIVE_ENVELOPE_LEN;
use crate::pubsub::topic;
use crate::pubsub::topic::{DiscoveryIndex, SelectorView, SubId, TopicKey, TopicMode};
use crate::pubsub::topic::{TopicPolicies, TopicPolicy, TopicSelector, TopicView};
use crate::pubsub::window;
use crate::pubsub::window::{ReceiveWindow, WindowView};
use crate::types::{Component, MonoTime, NodeId};
use crate::wire::packet::{MAX_FORWARD_PAYLOAD_LEN, MAX_MULTICAST_DESTINATIONS};
use crate::wire::packet::{MULTICAST_COUNT_LEN, NODE_ID_LEN, Priority};

verus! {

/// A message as an application gets it.
#[derive(Debug, Eq, PartialEq)]
pub struct DeliveredMessage {
    pub envelope: Envelope,
    pub is_backfill: bool,
}

impl Clone for DeliveredMessage {
    fn clone(&self) -> (copy: Self)
        ensures
            copy.envelope@ == self.envelope@,
            copy.is_backfill == self.is_backfill,
    {
        DeliveredMessage { envelope: self.envelope.clone(), is_backfill: self.is_backfill }
    }
}

/// What happens to the core.
#[derive(Debug, Eq, PartialEq)]
pub enum PubSubEvent {
    LocalPublish { topic: TopicKey, payload: Bytes },
    LocalSubscribe { sub_id: SubId, selector: TopicSelector },
    LocalUnsubscribe(SubId),
    Inbound { source: NodeId, payload: Bytes },
    DiscoveryUpdated(Arc<DiscoveryIndex>),
}

impl View for PubSubEvent {
    type V = PubSubEventView;

    open spec fn view(&self) -> PubSubEventView {
        match *self {
            PubSubEvent::LocalPublish { topic, payload } => PubSubEventView::LocalPublish {
                topic: topic@,
                payload: buffer::octets(payload),
            },
            PubSubEvent::LocalSubscribe { sub_id, selector } => PubSubEventView::LocalSubscribe {
                sub_id,
                selector: selector@,
            },
            PubSubEvent::LocalUnsubscribe(sub_id) => PubSubEventView::LocalUnsubscribe(sub_id),
            PubSubEvent::Inbound { source, payload } => PubSubEventView::Inbound {
                source,
                payload: buffer::octets(payload),
            },
            PubSubEvent::DiscoveryUpdated(index) => PubSubEventView::DiscoveryUpdated(index@),
        }
    }
}

impl Clone for PubSubEvent {
    fn clone(&self) -> (copy: Self)
        ensures
            copy@ == self@,
    {
        match self {
            PubSubEvent::LocalPublish { topic, payload } => PubSubEvent::LocalPublish {
                topic: topic.clone(),
                payload: buffer::share(payload),
            },
            PubSubEvent::LocalSubscribe { sub_id, selector } => PubSubEvent::LocalSubscribe {
                sub_id: *sub_id,
                selector: selector.clone(),
            },
            PubSubEvent::LocalUnsubscribe(sub_id) => PubSubEvent::LocalUnsubscribe(*sub_id),
            PubSubEvent::Inbound { source, payload } => PubSubEvent::Inbound {
                source: *source,
                payload: buffer::share(payload),
            },
            PubSubEvent::DiscoveryUpdated(index) => PubSubEvent::DiscoveryUpdated(index.clone()),
        }
    }
}

/// Why something is refused.
#[derive(Debug, Eq, PartialEq)]
pub enum PubSubRejectReason {
    UnknownTopic(String),
    SequenceExhausted(TopicKey),
    EnvelopeTooLarge { encoded_len: usize, max: usize },
    InvalidEnvelope(EnvelopeError),
    SourceMismatch { header: NodeId, envelope: NodeId },
}

impl View for PubSubRejectReason {
    type V = RejectView;

    open spec fn view(&self) -> RejectView {
        match *self {
            PubSubRejectReason::UnknownTopic(name) => RejectView::UnknownTopic(name@),
            PubSubRejectReason::SequenceExhausted(topic) => RejectView::SequenceExhausted(topic@),
            PubSubRejectReason::EnvelopeTooLarge { encoded_len, max } =>
                RejectView::EnvelopeTooLarge { encoded_len, max },
            PubSubRejectReason::InvalidEnvelope(error) => RejectView::InvalidEnvelope(error@),
            PubSubRejectReason::SourceMismatch { header, envelope } => RejectView::SourceMismatch {
                header,
                envelope,
            },
        }
    }
}

impl Clone for PubSubRejectReason {
    fn clone(&self) -> (copy: Self)
        ensures
            copy@ == self@,
    {
        match self {
            PubSubRejectReason::UnknownTopic(name) => PubSubRejectReason::UnknownTopic(name.clone()),
            PubSubRejectReason::SequenceExhausted(topic) => PubSubRejectReason::SequenceExhausted(
                topic.clone(),
            ),
            PubSubRejectReason::EnvelopeTooLarge { encoded_len, max } =>
                PubSubRejectReason::EnvelopeTooLarge { encoded_len: *encoded_len, max: *max },
            PubSubRejectReason::InvalidEnvelope(error) => PubSubRejectReason::InvalidEnvelope(
                error.clone(),
            ),
            PubSubRejectReason::SourceMismatch { header, envelope } =>
                PubSubRejectReason::SourceMismatch { header: *header, envelope: *envelope },
        }
    }
}

/// Why a message is dropped.
#[derive(Debug, Eq, PartialEq)]
pub enum PubSubDropReason {
    DuplicateOrTooOld { origin: NodeId, topic: TopicKey, seq: u64 },
}

impl Clone for PubSubDropReason {
    fn clone(&self) -> (copy: Self)
        ensures
            PubSubAction::Dropped(copy)@ == PubSubAction::Dropped(*self)@,
    {
        match self {
            PubSubDropReason::DuplicateOrTooOld { origin, topic, seq } =>
                PubSubDropReason::DuplicateOrTooOld {
                    origin: *origin,
                    topic: topic.clone(),
                    seq: *seq,
                },
        }
    }
}

/// What the core asks its runtime to do.
#[derive(Debug, Eq, PartialEq)]
pub enum PubSubAction {
    SendMulticast {
        destinations: Vec<NodeId>,
        priority: Priority,
        flow_id: u64,
        conflate_key: u64,
        conflatable: bool,
        payload: Bytes,
    },
    DeliverToApp { sub_id: SubId, message: DeliveredMessage },
    LocalSubscriptionsChanged(Vec<TopicSelector>),
    Published { topic: TopicKey, seq: u64 },
    Rejected(PubSubRejectReason),
    Dropped(PubSubDropReason),
}

/// What a list of selectors asks for.
pub open spec fn selector_views(selectors: Seq<TopicSelector>) -> Seq<SelectorView> {
    selectors.map_values(|selector: TopicSelector| selector@)
}

impl View for PubSubAction {
    type V = PubSubActionView;

    open spec fn view(&self) -> PubSubActionView {
        match *self {
            PubSubAction::SendMulticast {
                destinations,
                priority,
                flow_id,
                conflate_key,
                conflatable,
                payload,
            } => PubSubActionView::SendMulticast {
                destinations: destinations@,
                priority,
                flow_id,
                conflate_key,
                conflatable,
                payload: buffer::octets(payload),
            },
            PubSubAction::DeliverToApp { sub_id, message } => PubSubActionView::DeliverToApp {
                sub_id,
                envelope: message.envelope@,
                is_backfill: message.is_backfill,
            },
            PubSubAction::LocalSubscriptionsChanged(selectors) =>
                PubSubActionView::LocalSubscriptionsChanged(selector_views(selectors@)),
            PubSubAction::Published { topic, seq } => PubSubActionView::Published {
                topic: topic@,
                seq,
            },
            PubSubAction::Rejected(reason) => PubSubActionView::Rejected(reason@),
            PubSubAction::Dropped(
                PubSubDropReason::DuplicateOrTooOld { origin, topic, seq },
            ) => PubSubActionView::DroppedDuplicateOrTooOld { origin, topic: topic@, seq },
        }
    }
}

impl Clone for PubSubAction {
    fn clone(&self) -> (copy: Self)
        ensures
            copy@ == self@,
    {
        match self {
            PubSubAction::SendMulticast {
                destinations,
                priority,
                flow_id,
                conflate_key,
                conflatable,
                payload,
            } => {
                let nodes = destinations.clone();
                assert(nodes@ =~= destinations@);
                PubSubAction::SendMulticast {
                    destinations: nodes,
                    priority: *priority,
                    flow_id: *flow_id,
                    conflate_key: *conflate_key,
                    conflatable: *conflatable,
                    payload: buffer::share(payload),
                }
            },
            PubSubAction::DeliverToApp { sub_id, message } => PubSubAction::DeliverToApp {
                sub_id: *sub_id,
                message: message.clone(),
            },
            PubSubAction::LocalSubscriptionsChanged(selectors) => {
                let copies = selectors.clone();
                proof {
                    assert(selector_views(copies@) =~= selector_views(selectors@));
                }
                PubSubAction::LocalSubscriptionsChanged(copies)
            },
            PubSubAction::Published { topic, seq } => PubSubAction::Published {
                topic: topic.clone(),
                seq: *seq,
            },
            PubSubAction::Rejected(reason) => PubSubAction::Rejected(reason.clone()),
            PubSubAction::Dropped(reason) => PubSubAction::Dropped(reason.clone()),
        }
    }
}

/// What a sequence of actions says.
pub open spec fn views(actions: Seq<PubSubAction>) -> Seq<PubSubActionView> {
    actions.map_values(|action: PubSubAction| action@)
}

/// What the subscriptions ask for.
spec fn subscription_views(subscriptions: Map<SubId, TopicSelector>) -> Map<SubId, SelectorView> {
    Map::new(
        |sub_id: SubId| subscriptions.contains_key(sub_id),
        |sub_id: SubId| subscriptions[sub_id]@,
    )
}

/// What the windows remember.
spec fn window_views(received: Map<(NodeId, TopicView), ReceiveWindow>) -> Map<
    (NodeId, TopicView),
    WindowView,
> {
    Map::new(
        |feed: (NodeId, TopicView)| received.contains_key(feed),
        |feed: (NodeId, TopicView)| received[feed]@,
    )
}

/// Live publish/subscribe of one node.
pub struct PubSub {
    me: NodeId,
    policies: Arc<TopicPolicies>,
    local_subscriptions: OrderedMap<SubId, TopicSelector>,
    discovery: Arc<DiscoveryIndex>,
    next_sequences: OrderedMap<TopicKey, u64>,
    received: OrderedMap<(NodeId, TopicKey), ReceiveWindow>,
}

impl View for PubSub {
    type V = PubSubView;

    closed spec fn view(&self) -> PubSubView {
        PubSubView {
            me: self.me,
            policies: self.policies@,
            subscriptions: subscription_views(self.local_subscriptions@),
            discovery: self.discovery@,
            sequences: self.next_sequences@,
            received: window_views(self.received@),
        }
    }
}

impl PubSub {
    /// The collections are in order.
    pub closed spec fn wf(&self) -> bool {
        &&& self.policies.wf()
        &&& self.local_subscriptions.wf()
        &&& self.discovery.wf()
        &&& self.next_sequences.wf()
        &&& self.received.wf()
    }

    /// The state of a well-formed core is finite: what it says of subscriptions,
    /// subscribers, sequence numbers and windows.
    pub proof fn state_is_finite(&self)
        requires
            self.wf(),
        ensures
            self@.subscriptions.dom().finite(),
            self@.sequences.dom().finite(),
            self@.received.dom().finite(),
            forall|topic: TopicView| #[trigger]
                topic::subscribers_of(self@.discovery, topic).finite(),
    {
        self.local_subscriptions.ranks_list_domain();
        self.next_sequences.ranks_list_domain();
        self.received.ranks_list_domain();
        assert(self@.subscriptions.dom() =~= self.local_subscriptions@.dom());
        assert(self@.received.dom() =~= self.received@.dom());
        assert forall|topic: TopicView| #[trigger]
            topic::subscribers_of(self@.discovery, topic).finite() by {
            self.discovery.subscribers_are_finite(topic);
        }
    }

    /// A core that has published and received nothing yet.
    pub fn new(me: NodeId, policies: Arc<TopicPolicies>) -> (pubsub: Self)
        requires
            policies.wf(),
        ensures
            pubsub.wf(),
            pubsub@ == model::initial(me, policies@),
    {
        let pubsub = PubSub {
            me,
            policies,
            local_subscriptions: OrderedMap::new(),
            discovery: Arc::new(DiscoveryIndex::default()),
            next_sequences: OrderedMap::new(),
            received: OrderedMap::new(),
        };
        assert(pubsub@ =~= model::initial(me, policies@));
        pubsub
    }

    /// The identity of the node.
    pub fn node_id(&self) -> (me: NodeId)
        ensures
            me == self@.me,
    {
        self.me
    }

    /// What all local subscriptions together ask for.
    fn effective_subscriptions(&self) -> (selectors: OrderedMap<TopicSelector, ()>)
        requires
            self.wf(),
        ensures
            selectors.wf(),
            selectors@.dom() == model::effective(self@.subscriptions),
            forall|i: int|
                0 <= i < selectors.ranks().len() ==> model::effective(
                    self@.subscriptions,
                ).contains(#[trigger] selectors.ranks()[i]),
    {
        let ghost goal = model::effective(self@.subscriptions);
        let mut selectors: OrderedMap<TopicSelector, ()> = OrderedMap::new();
        let mut i: usize = 0;
        proof {
            self.local_subscriptions.ranks_list_domain();
        }
        while i < self.local_subscriptions.len()
            invariant
                self.wf(),
                selectors.wf(),
                goal == model::effective(self@.subscriptions),
                i <= self.local_subscriptions.ranks().len(),
                forall|k: int|
                    0 <= k < i ==> selectors@.contains_key(
                        self@.subscriptions[#[trigger] self.local_subscriptions.ranks()[k]],
                    ),
                forall|selector: SelectorView| #[trigger]
                    selectors@.contains_key(selector) ==> goal.contains(selector),
            decreases self.local_subscriptions.ranks().len() - i,
        {
            let selector: &TopicSelector = self.local_subscriptions.value_at(i);
            proof {
                let sub_id = self.local_subscriptions.ranks()[i as int];
                assert(self@.subscriptions.contains_key(sub_id));
                assert(self@.subscriptions[sub_id] == selector@);
                assert(goal.contains(selector@));
            }
            selectors.insert(selector.clone(), ());
            i = i + 1;
        }
        proof {
            assert forall|selector: SelectorView| goal.contains(
                selector,
            ) implies selectors@.contains_key(selector) by {
                let sub_id = choose|sub_id: SubId| #[trigger]
                    self@.subscriptions.contains_key(sub_id) && self@.subscriptions[sub_id]
                        == selector;
                assert(self.local_subscriptions@.dom().contains(sub_id));
                assert(self.local_subscriptions.ranks().contains(sub_id));
                let k = choose|k: int|
                    0 <= k < self.local_subscriptions.ranks().len()
                        && self.local_subscriptions.ranks()[k] == sub_id;
                assert(self.local_subscriptions.ranks()[k] == sub_id);
            }
            assert(selectors@.dom() =~= goal);
            selectors.ranks_list_domain();
            assert forall|k: int| 0 <= k < selectors.ranks().len() implies goal.contains(
                #[trigger] selectors.ranks()[k],
            ) by {
                assert(selectors.ranks().contains(selectors.ranks()[k]));
            }
        }
        selectors
    }

    /// Whether two sets of selectors are the same.
    fn same_selectors(
        a: &OrderedMap<TopicSelector, ()>,
        b: &OrderedMap<TopicSelector, ()>,
    ) -> (same: bool)
        requires
            a.wf(),
            b.wf(),
        ensures
            same == (a@.dom() == b@.dom()),
    {
        proof {
            a.ranks_list_domain();
            b.ranks_list_domain();
        }
        if a.len() != b.len() {
            return false;
        }
        let mut i: usize = 0;
        while i < a.len()
            invariant
                a.wf(),
                b.wf(),
                i <= a.ranks().len(),
                forall|k: int| 0 <= k < i ==> b@.contains_key(#[trigger] a.ranks()[k]),
            decreases a.ranks().len() - i,
        {
            if !b.contains_key(a.key_at(i)) {
                return false;
            }
            i = i + 1;
        }
        proof {
            assert(a@.dom().subset_of(b@.dom())) by {
                assert forall|selector: SelectorView| a@.dom().contains(
                    selector,
                ) implies b@.dom().contains(selector) by {
                    assert(a.ranks().contains(selector));
                }
            }
            vstd::set_lib::lemma_subset_equality(a@.dom(), b@.dom());
        }
        true
    }

    /// Tells what the local subscriptions ask for, if that changed.
    fn subscription_change(
        &self,
        previous: OrderedMap<TopicSelector, ()>,
        Ghost(before): Ghost<Map<SubId, SelectorView>>,
    ) -> (actions: Vec<PubSubAction>)
        requires
            self.wf(),
            previous.wf(),
            previous@.dom() == model::effective(before),
        ensures
            views(actions@) == model::subscription_change(before, self@.subscriptions),
    {
        let current = self.effective_subscriptions();
        let mut actions: Vec<PubSubAction> = Vec::new();
        if !Self::same_selectors(&current, &previous) {
            let mut selectors: Vec<TopicSelector> = Vec::new();
            let mut i: usize = 0;
            proof {
                current.ranks_list_domain();
            }
            while i < current.len()
                invariant
                    current.wf(),
                    i <= current.ranks().len(),
                    selector_views(selectors@) == current.ranks().take(i as int),
                decreases current.ranks().len() - i,
            {
                let selector = current.key_at(i).clone();
                assert(selector@ == current.ranks()[i as int]);
                assert(selector_views(selectors@.push(selector)) =~= selector_views(
                    selectors@,
                ).push(selector@));
                assert(current.ranks().take(i + 1) =~= current.ranks().take(i as int).push(
                    selector@,
                ));
                selectors.push(selector);
                i = i + 1;
            }
            assert(selector_views(selectors@) =~= current.ranks());
            actions.push(PubSubAction::LocalSubscriptionsChanged(selectors));
        }
        assert(views(actions@) =~= model::subscription_change(before, self@.subscriptions));
        actions
    }

    /// Hands a message to every local subscription that asks for its topic.
    fn local_deliveries(&self, envelope: &Envelope) -> (actions: Vec<PubSubAction>)
        requires
            self.wf(),
        ensures
            views(actions@) == model::deliveries(self@.subscriptions, envelope@),
    {
        let ghost keep = model::matching(self@.subscriptions, envelope@.topic);
        let ghost mut kept: Seq<SubId> = Seq::empty();
        let mut actions: Vec<PubSubAction> = Vec::new();
        let mut i: usize = 0;
        proof {
            self.local_subscriptions.ranks_list_domain();
        }
        while i < self.local_subscriptions.len()
            invariant
                self.wf(),
                keep == model::matching(self@.subscriptions, envelope@.topic),
                order::lists::<SubId>(
                    self.local_subscriptions.ranks(),
                    self.local_subscriptions@.dom(),
                ),
                order::lists_kept::<SubId>(
                    kept,
                    self.local_subscriptions.ranks(),
                    i as int,
                    keep,
                ),
                actions@.len() == kept.len(),
                forall|k: int|
                    0 <= k < kept.len() ==> (#[trigger] actions@[k])@
                        == (PubSubActionView::DeliverToApp {
                        sub_id: kept[k],
                        envelope: envelope@,
                        is_backfill: false,
                    }),
            decreases self.local_subscriptions.ranks().len() - i,
        {
            let sub_id: SubId = *self.local_subscriptions.key_at(i);
            let selector: &TopicSelector = self.local_subscriptions.value_at(i);
            proof {
                order::lists_one_more::<SubId>(
                    kept,
                    self.local_subscriptions.ranks(),
                    i as int,
                    keep,
                );
            }
            if selector.matches(&envelope.topic) {
                assert(keep.contains(sub_id));
                actions.push(
                    PubSubAction::DeliverToApp {
                        sub_id,
                        message: DeliveredMessage {
                            envelope: envelope.clone(),
                            is_backfill: false,
                        },
                    },
                );
                proof {
                    kept = kept.push(sub_id);
                }
            } else {
                assert(!keep.contains(sub_id));
            }
            i = i + 1;
        }
        proof {
            order::lists_all_kept::<SubId>(
                kept,
                self.local_subscriptions.ranks(),
                self.local_subscriptions@.dom(),
                keep,
            );
            assert(self.local_subscriptions@.dom().intersect(keep) =~= keep);
            assert(views(actions@) =~= model::deliveries(self@.subscriptions, envelope@));
        }
        actions
    }

    /// Looks at the sequence number of a feed: whether its message is to be
    /// taken.
    fn look_at(&mut self, origin: NodeId, topic: &TopicKey, seq: u64) -> (accepted: bool)
        requires
            old(self).wf(),
        ensures
            final(self).wf(),
            accepted == model::is_new(old(self)@, (origin, topic@), seq),
            final(self)@ == model::looked_at(old(self)@, (origin, topic@), seq),
    {
        let ghost before = self@;
        let key = (origin, topic.clone());
        let known: Option<ReceiveWindow> = match self.received.get(&key) {
            Some(window) => Some(*window),
            None => None,
        };
        let (window, accepted) = match known {
            Some(window) => {
                let mut window = window;
                let accepted: bool = window.accept(seq);
                (window, accepted)
            },
            None => (ReceiveWindow::first(seq), true),
        };
        self.received.insert(key, window);
        proof {
            let goal = model::looked_at(before, (origin, topic@), seq);
            assert(self@.received =~= goal.received);
            assert(self@ =~= goal);
        }
        accepted
    }

    /// The subscribers of a topic but this node, in ascending order.
    fn destinations(&self, topic: &TopicKey) -> (nodes: Vec<NodeId>)
        requires
            self.wf(),
        ensures
            nodes@ == model::destinations(self@, topic@),
    {
        let all = self.discovery.subscribers(topic);
        let ghost set = topic::subscribers_of(self@.discovery, topic@);
        let ghost keep = set.remove(self.me);
        let mut nodes: Vec<NodeId> = Vec::new();
        let mut i: usize = 0;
        while i < all.len()
            invariant
                order::lists::<NodeId>(all@, set),
                keep == set.remove(self.me),
                order::lists_kept::<NodeId>(nodes@, all@, i as int, keep),
            decreases all@.len() - i,
        {
            let node: NodeId = all[i];
            proof {
                order::lists_one_more::<NodeId>(nodes@, all@, i as int, keep);
                assert(all@.contains(node));
            }
            if node != self.me {
                nodes.push(node);
            }
            i = i + 1;
        }
        proof {
            order::lists_all_kept::<NodeId>(nodes@, all@, set, keep);
            assert(set.intersect(keep) =~= keep);
        }
        nodes
    }

    /// Sends an envelope to its destinations, in pieces that fit.
    fn multicasts(
        &self,
        policy: TopicPolicy,
        envelope: &Envelope,
        encoded: &Bytes,
        nodes: &Vec<NodeId>,
    ) -> (actions: Vec<PubSubAction>)
        requires
            self.wf(),
            self@.policies.contains_key(envelope@.topic.name),
            policy == self@.policies[envelope@.topic.name],
            buffer::octets(*encoded) == envelope::envelope_bytes(envelope@),
            buffer::octets(*encoded).len() <= MAX_LIVE_ENVELOPE_LEN,
        ensures
            views(actions@) == model::multicasts(
                self@,
                envelope@,
                model::chunks(nodes@, model::chunk_limit(buffer::octets(*encoded).len())),
            ),
    {
        let flow_id: u64 = hash::stable_hash(
            envelope.topic.name().as_bytes(),
            buffer::as_octets(envelope.topic.partition()),
        );
        let conflate_key: u64 = hash::stable_hash(
            self.me.as_bytes().as_slice(),
            buffer::as_octets(envelope.topic.partition()),
        );
        let conflatable: bool = policy.mode == TopicMode::Latest && policy.priority
            == Priority::P1;
        let fitting: usize = (MAX_FORWARD_PAYLOAD_LEN - buffer::as_octets(encoded).len()
            - MULTICAST_COUNT_LEN) / NODE_ID_LEN;
        let limit: usize = if fitting < MAX_MULTICAST_DESTINATIONS {
            fitting
        } else {
            MAX_MULTICAST_DESTINATIONS
        };
        assert(limit == model::chunk_limit(buffer::octets(*encoded).len()));
        let mut actions: Vec<PubSubAction> = Vec::new();
        let mut begin: usize = 0;
        let ghost mut pieces: Seq<Seq<NodeId>> = Seq::empty();
        proof {
            assert(nodes@.skip(0) =~= nodes@);
            assert(pieces + model::chunks(nodes@, limit as nat) =~= model::chunks(
                nodes@,
                limit as nat,
            ));
            assert(views(actions@) =~= model::multicasts(self@, envelope@, pieces));
        }
        while begin < nodes.len()
            invariant
                begin <= nodes@.len(),
                1 <= limit <= MAX_MULTICAST_DESTINATIONS,
                policy == self@.policies[envelope@.topic.name],
                flow_id == hash::hash_of(
                    topic::utf8(envelope@.topic.name),
                    envelope@.topic.partition,
                ),
                conflate_key == hash::hash_of(self@.me.bytes(), envelope@.topic.partition),
                conflatable == (policy.mode == TopicMode::Latest && policy.priority
                    == Priority::P1),
                buffer::octets(*encoded) == envelope::envelope_bytes(envelope@),
                pieces + model::chunks(nodes@.skip(begin as int), limit as nat) == model::chunks(
                    nodes@,
                    limit as nat,
                ),
                views(actions@) == model::multicasts(self@, envelope@, pieces),
            decreases nodes@.len() - begin,
        {
            let left: usize = nodes.len() - begin;
            let size: usize = if left <= limit {
                left
            } else {
                limit
            };
            let destinations: Vec<NodeId> = vstd::slice::slice_to_vec(
                vstd::slice::slice_subrange(nodes.as_slice(), begin, begin + size),
            );
            let ghost piece = nodes@.skip(begin as int).take(size as int);
            assert(destinations@ =~= piece);
            let action = PubSubAction::SendMulticast {
                destinations,
                priority: policy.priority,
                flow_id,
                conflate_key,
                conflatable,
                payload: buffer::share(encoded),
            };
            proof {
                Self::chunks_unfold(nodes@, begin as int, size as int, limit as nat);
                let longer = pieces.push(piece);
                assert(pieces + (seq![piece] + model::chunks(
                    nodes@.skip(begin + size),
                    limit as nat,
                )) =~= longer + model::chunks(nodes@.skip(begin + size), limit as nat));
                assert(action@ =~= model::multicast(self@, envelope@, piece));
                assert(views(actions@.push(action)) =~= views(actions@).push(action@));
                assert(model::multicasts(self@, envelope@, longer) =~= model::multicasts(
                    self@,
                    envelope@,
                    pieces,
                ).push(model::multicast(self@, envelope@, piece)));
                pieces = longer;
            }
            actions.push(action);
            begin = begin + size;
        }
        proof {
            assert(nodes@.skip(begin as int).len() == 0);
            assert(pieces =~= model::chunks(nodes@, limit as nat));
        }
        actions
    }

    /// The first piece of what is left, and what is left then.
    proof fn chunks_unfold(all: Seq<NodeId>, begin: int, size: int, limit: nat)
        requires
            0 <= begin < all.len(),
            limit >= 1,
            size == if all.len() - begin <= limit {
                all.len() - begin
            } else {
                limit as int
            },
        ensures
            model::chunks(all.skip(begin), limit) == seq![all.skip(begin).take(size)]
                + model::chunks(all.skip(begin + size), limit),
    {
        let rest = all.skip(begin);
        if rest.len() <= limit {
            assert(rest.take(size) =~= rest);
            assert(all.skip(begin + size).len() == 0);
            assert(model::chunks(rest, limit) =~= seq![rest.take(size)] + model::chunks(
                all.skip(begin + size),
                limit,
            ));
        } else {
            assert(rest.skip(size) =~= all.skip(begin + size));
        }
    }

    /// Publishes a message: it goes to the local subscriptions that ask for
    /// its topic, and by multicast to all other nodes that do.
    fn publish(&mut self, now: MonoTime, topic: TopicKey, payload: Bytes) -> (actions: Vec<
        PubSubAction,
    >)
        requires
            old(self).wf(),
        ensures
            final(self).wf(),
            (final(self)@, views(actions@)) == model::publish(
                old(self)@,
                now,
                topic@,
                buffer::octets(payload),
            ),
    {
        let ghost before = self@;
        let ghost about = topic@;
        let ghost content = buffer::octets(payload);
        let ghost goal = model::publish(before, now, about, content);
        let policy: TopicPolicy = match self.policies.get(topic.name()) {
            Some(policy) => policy,
            None => {
                let mut actions: Vec<PubSubAction> = Vec::new();
                actions.push(
                    PubSubAction::Rejected(
                        PubSubRejectReason::UnknownTopic(topic.name().to_owned()),
                    ),
                );
                assert(views(actions@) =~= goal.1);
                return actions;
            },
        };
        let last: u64 = match self.next_sequences.get(&topic) {
            Some(last) => *last,
            None => 0,
        };
        if last == u64::MAX {
            let mut actions: Vec<PubSubAction> = Vec::new();
            actions.push(PubSubAction::Rejected(PubSubRejectReason::SequenceExhausted(topic)));
            assert(views(actions@) =~= goal.1);
            return actions;
        }
        let seq: u64 = last + 1;
        proof {
            use_type_invariant(&topic);
            topic.valid_is_faultless();
        }
        let envelope = Envelope {
            origin: self.me,
            topic: topic.clone(),
            seq,
            ts_ms: now.as_millis(),
            payload,
        };
        assert(envelope@ =~= model::next_envelope(before, now, about, content));
        let encoded_len: u128 = EnvelopeCodec::encoded_len(&envelope);
        if encoded_len > MAX_LIVE_ENVELOPE_LEN as u128 {
            proof {
                envelope::length_is_bounded(envelope@);
            }
            let mut actions: Vec<PubSubAction> = Vec::new();
            actions.push(
                PubSubAction::Rejected(
                    PubSubRejectReason::EnvelopeTooLarge {
                        encoded_len: encoded_len as usize,
                        max: MAX_LIVE_ENVELOPE_LEN,
                    },
                ),
            );
            assert(views(actions@) =~= goal.1);
            return actions;
        }
        let encoded = EnvelopeCodec::encode(&envelope).unwrap();
        let nodes = self.destinations(&topic);
        let mut actions = self.local_deliveries(&envelope);
        let mut sends = self.multicasts(policy, &envelope, &encoded, &nodes);
        actions.append(&mut sends);
        proof {
            let pieces = model::chunks(
                model::destinations(before, about),
                model::chunk_limit(envelope::envelope_bytes(envelope@).len()),
            );
            assert(views(actions@) =~= model::deliveries(before.subscriptions, envelope@)
                + model::multicasts(before, envelope@, pieces));
        }
        self.next_sequences.insert(topic.clone(), seq);
        proof {
            assert(self@ =~= PubSubView {
                sequences: before.sequences.insert(about, seq),
                ..before
            });
        }
        let _accepted: bool = self.look_at(self.me, &topic, seq);
        actions.push(PubSubAction::Published { topic, seq });
        proof {
            assert(views(actions@) =~= goal.1);
        }
        actions
    }

    /// Takes in a message from another node.
    fn receive(&mut self, source: NodeId, payload: Bytes) -> (actions: Vec<PubSubAction>)
        requires
            old(self).wf(),
        ensures
            final(self).wf(),
            (final(self)@, views(actions@)) == model::receive(
                old(self)@,
                source,
                buffer::octets(payload),
            ),
    {
        let ghost before = self@;
        let ghost goal = model::receive(before, source, buffer::octets(payload));
        let mut actions: Vec<PubSubAction> = Vec::new();
        let envelope = match EnvelopeCodec::decode(payload) {
            Ok(envelope) => envelope,
            Err(error) => {
                actions.push(PubSubAction::Rejected(PubSubRejectReason::InvalidEnvelope(error)));
                assert(views(actions@) =~= goal.1);
                return actions;
            },
        };
        if envelope.origin != source {
            actions.push(
                PubSubAction::Rejected(
                    PubSubRejectReason::SourceMismatch {
                        header: source,
                        envelope: envelope.origin,
                    },
                ),
            );
            assert(views(actions@) =~= goal.1);
            return actions;
        }
        if self.policies.get(envelope.topic.name()).is_none() {
            actions.push(
                PubSubAction::Rejected(
                    PubSubRejectReason::UnknownTopic(envelope.topic.name().to_owned()),
                ),
            );
            assert(views(actions@) =~= goal.1);
            return actions;
        }
        let accepted: bool = self.look_at(envelope.origin, &envelope.topic, envelope.seq);
        if !accepted {
            actions.push(
                PubSubAction::Dropped(
                    PubSubDropReason::DuplicateOrTooOld {
                        origin: envelope.origin,
                        topic: envelope.topic.clone(),
                        seq: envelope.seq,
                    },
                ),
            );
            assert(views(actions@) =~= goal.1);
            return actions;
        }
        self.local_deliveries(&envelope)
    }
}

impl Component for PubSub {
    type Event = PubSubEvent;

    type Action = PubSubAction;

    open spec fn accepts(&self, now: MonoTime, event: PubSubEvent) -> bool {
        self.wf() && (event matches PubSubEvent::DiscoveryUpdated(index) ==> index.wf())
    }

    open spec fn may_step(
        before: Self,
        now: MonoTime,
        event: PubSubEvent,
        after: Self,
        actions: Seq<PubSubAction>,
    ) -> bool {
        &&& after.wf()
        &&& (after@, views(actions)) == model::step(before@, now, event@)
    }

    fn handle(&mut self, now: MonoTime, event: PubSubEvent) -> (actions: Vec<PubSubAction>) {
        let ghost before = self@;
        let ghost seen = event@;
        match event {
            PubSubEvent::LocalPublish { topic, payload } => self.publish(now, topic, payload),
            PubSubEvent::LocalSubscribe { sub_id, selector } => {
                let previous = self.effective_subscriptions();
                self.local_subscriptions.insert(sub_id, selector);
                proof {
                    let goal = model::step(before, now, seen).0;
                    assert(self@.subscriptions =~= goal.subscriptions);
                    assert(self@ =~= goal);
                }
                self.subscription_change(previous, Ghost(before.subscriptions))
            },
            PubSubEvent::LocalUnsubscribe(sub_id) => {
                let previous = self.effective_subscriptions();
                self.local_subscriptions.remove(&sub_id);
                proof {
                    let goal = model::step(before, now, seen).0;
                    assert(self@.subscriptions =~= goal.subscriptions);
                    assert(self@ =~= goal);
                }
                self.subscription_change(previous, Ghost(before.subscriptions))
            },
            PubSubEvent::Inbound { source, payload } => self.receive(source, payload),
            PubSubEvent::DiscoveryUpdated(discovery) => {
                self.discovery = discovery;
                let actions: Vec<PubSubAction> = Vec::new();
                proof {
                    let goal = model::step(before, now, seen);
                    assert(self@ =~= goal.0);
                    assert(views(actions@) =~= goal.1);
                }
                actions
            },
        }
    }
}

} // verus!
