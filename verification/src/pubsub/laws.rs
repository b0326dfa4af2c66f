//! What holds of every run of the publish/subscribe core.

use vstd::prelude::*;
use crate::order;
use crate::pubsub::envelope;
use crate::pubsub::envelope::EnvelopeView;
use crate::pubsub::model;
use crate::pubsub::model::{PubSubActionView, PubSubEventView, PubSubView, RejectView};
use crate::pubsub::model::MAX_LIVE_ENVELOPE_LEN;
use crate::pubsub::node;
use crate::pubsub::node::{PubSub, PubSubAction, PubSubEvent};
use crate::pubsub::topic;
use crate::pubsub::topic::{SelectorView, SubId, TopicView};
use crate::pubsub::window;
use crate::types::{Component, MonoTime, NodeId};
use crate::wire::packet::{MAX_FORWARD_PAYLOAD_LEN, MAX_MULTICAST_DESTINATIONS};
use crate::wire::packet::{MULTICAST_COUNT_LEN, NODE_ID_LEN};

verus! {

/// The message is taken for publishing.
pub open spec fn is_publishable(
    p: PubSubView,
    now: MonoTime,
    topic: TopicView,
    payload: Seq<u8>,
) -> bool {
    &&& p.policies.contains_key(topic.name)
    &&& model::last_sequence(p, topic) < u64::MAX
    &&& envelope::envelope_bytes(model::next_envelope(p, now, topic, payload)).len()
        <= MAX_LIVE_ENVELOPE_LEN
}

/// A published message takes the next sequence number of its topic, and is
/// acknowledged with it after everything else.
pub proof fn publishing_takes_the_next_sequence(
    p: PubSubView,
    now: MonoTime,
    topic: TopicView,
    payload: Seq<u8>,
)
    requires
        is_publishable(p, now, topic, payload),
    ensures
        ({
            let (next, actions) = model::publish(p, now, topic, payload);
            let seq = (model::last_sequence(p, topic) + 1) as u64;
            &&& model::last_sequence(next, topic) == seq
            &&& actions.len() > 0
            &&& actions.last() == (PubSubActionView::Published { topic, seq })
        }),
{
}

/// A message that is not taken uses no sequence number, changes nothing, and
/// is answered with the reason alone.
pub proof fn refused_messages_use_no_sequence(
    p: PubSubView,
    now: MonoTime,
    topic: TopicView,
    payload: Seq<u8>,
)
    requires
        !is_publishable(p, now, topic, payload),
    ensures
        model::publish(p, now, topic, payload).0 == p,
        model::publish(p, now, topic, payload).1.len() == 1,
        model::publish(p, now, topic, payload).1[0] is Rejected,
{
}

/// Publishing on one topic leaves the sequence numbers of all others alone.
pub proof fn topics_are_numbered_apart(
    p: PubSubView,
    now: MonoTime,
    topic: TopicView,
    payload: Seq<u8>,
    other: TopicView,
)
    requires
        other != topic,
    ensures
        model::last_sequence(model::publish(p, now, topic, payload).0, other)
            == model::last_sequence(p, other),
{
}

/// Only publishing uses sequence numbers.
pub proof fn only_publishing_uses_sequences(p: PubSubView, now: MonoTime, event: PubSubEventView)
    requires
        !(event is LocalPublish),
    ensures
        model::step(p, now, event).0.sequences == p.sequences,
{
}

/// All the pieces in a row.
pub open spec fn joined(pieces: Seq<Seq<NodeId>>) -> Seq<NodeId>
    decreases pieces.len(),
{
    if pieces.len() == 0 {
        Seq::empty()
    } else {
        pieces[0] + joined(pieces.drop_first())
    }
}

/// Pieces cover a sequence in its order, and none is empty or too long.
pub proof fn pieces_cover_all(all: Seq<NodeId>, limit: nat)
    requires
        limit >= 1,
    ensures
        joined(model::chunks(all, limit)) == all,
        forall|i: int|
            0 <= i < model::chunks(all, limit).len() ==> 1 <= (#[trigger] model::chunks(
                all,
                limit,
            )[i]).len() <= limit,
    decreases all.len(),
{
    let pieces = model::chunks(all, limit);
    if all.len() == 0 {
        assert(joined(pieces) =~= all);
    } else if all.len() <= limit {
        assert(pieces.drop_first() =~= Seq::<Seq<NodeId>>::empty());
        assert(joined(pieces.drop_first()) =~= Seq::<NodeId>::empty());
        assert(joined(pieces) =~= all);
    } else {
        let rest = all.skip(limit as int);
        pieces_cover_all(rest, limit);
        let more = model::chunks(rest, limit);
        assert(pieces.drop_first() =~= more);
        assert(joined(pieces) =~= all);
        assert forall|i: int| 0 <= i < pieces.len() implies 1 <= (#[trigger] pieces[i]).len()
            <= limit by {
            if i > 0 {
                assert(pieces[i] == more[i - 1]);
            }
        }
    }
}

/// The multicast packets of a message together go to every subscriber of its
/// topic but this node, each once and in ascending order. None has more
/// destinations than a packet may have, and each fits in a packet.
pub proof fn multicasts_reach_all_subscribers(
    p: PubSubView,
    now: MonoTime,
    topic: TopicView,
    payload: Seq<u8>,
)
    requires
        is_publishable(p, now, topic, payload),
        topic::subscribers_of(p.discovery, topic).finite(),
    ensures
        ({
            let encoded = envelope::envelope_bytes(model::next_envelope(p, now, topic, payload));
            let pieces = model::chunks(
                model::destinations(p, topic),
                model::chunk_limit(encoded.len()),
            );
            &&& order::lists::<NodeId>(
                joined(pieces),
                topic::subscribers_of(p.discovery, topic).remove(p.me),
            )
            &&& !joined(pieces).contains(p.me)
            &&& forall|i: int|
                0 <= i < pieces.len() ==> {
                    &&& 1 <= (#[trigger] pieces[i]).len() <= MAX_MULTICAST_DESTINATIONS
                    &&& MULTICAST_COUNT_LEN + NODE_ID_LEN * pieces[i].len() + encoded.len()
                        <= MAX_FORWARD_PAYLOAD_LEN
                }
        }),
{
    let encoded = envelope::envelope_bytes(model::next_envelope(p, now, topic, payload));
    let limit = model::chunk_limit(encoded.len());
    let to = topic::subscribers_of(p.discovery, topic).remove(p.me);
    let all = order::finite_sets_are_listed::<NodeId>(to);
    assert(32 <= MAX_FORWARD_PAYLOAD_LEN - encoded.len() - MULTICAST_COUNT_LEN);
    assert(1 <= limit <= 64);
    assert(32 * limit <= MAX_FORWARD_PAYLOAD_LEN - encoded.len() - MULTICAST_COUNT_LEN);
    pieces_cover_all(all, limit);
    assert(all.contains(p.me) <==> to.contains(p.me));
}

/// What one node publishes, another delivers: the envelope that is sent is
/// read as the message that was published, and if it is new to the receiver,
/// every subscription there that asks for the topic gets it.
pub proof fn published_messages_are_delivered(
    p: PubSubView,
    now: MonoTime,
    topic: TopicView,
    payload: Seq<u8>,
    q: PubSubView,
)
    requires
        is_publishable(p, now, topic, payload),
        topic::topic_fault(topic) is None,
        q.policies.contains_key(topic.name),
        model::is_new(q, (p.me, topic), (model::last_sequence(p, topic) + 1) as u64),
    ensures
        ({
            let message = model::next_envelope(p, now, topic, payload);
            let (next, actions) = model::receive(q, p.me, envelope::envelope_bytes(message));
            &&& message.payload == payload
            &&& message.topic == topic
            &&& actions == model::deliveries(q.subscriptions, message)
            &&& !model::is_new(next, (p.me, topic), message.seq)
        }),
{
    let message = model::next_envelope(p, now, topic, payload);
    assert(envelope::envelope_fault(message) is None);
    envelope::payload_fits(message);
    envelope::written_envelopes_are_read_back(message);
}

/// A delivery goes to each subscription that asks for the topic, once, and to
/// no other.
pub proof fn deliveries_reach_matching_subscriptions(
    subscriptions: Map<SubId, SelectorView>,
    message: EnvelopeView,
    sub_id: SubId,
)
    requires
        subscriptions.dom().finite(),
    ensures
        model::deliveries(subscriptions, message).contains(
            PubSubActionView::DeliverToApp { sub_id, envelope: message, is_backfill: false },
        ) <==> subscriptions.contains_key(sub_id) && topic::selects(
            subscriptions[sub_id],
            message.topic,
        ),
        model::deliveries(subscriptions, message).no_duplicates(),
{
    let ids = model::matching(subscriptions, message.topic);
    assert(ids.subset_of(subscriptions.dom()));
    vstd::set_lib::lemma_set_subset_finite(subscriptions.dom(), ids);
    let listed = order::finite_sets_are_listed::<SubId>(ids);
    order::ascending_is_injective::<SubId>(listed);
    let actions = model::deliveries(subscriptions, message);
    let wanted = PubSubActionView::DeliverToApp { sub_id, envelope: message, is_backfill: false };
    assert(listed.contains(sub_id) <==> ids.contains(sub_id));
    if listed.contains(sub_id) {
        let k = choose|k: int| 0 <= k < listed.len() && listed[k] == sub_id;
        assert(actions[k] == wanted);
    }
    if actions.contains(wanted) {
        let k = choose|k: int| 0 <= k < actions.len() && actions[k] == wanted;
        assert(listed[k] == sub_id);
    }
    assert forall|i: int, j: int| 0 <= i < actions.len() && 0 <= j < actions.len() && i != j implies
        actions[i] != actions[j] by {
        assert(listed[i] != listed[j]);
    }
}

/// A message that is not new is dropped, and is not delivered: however often
/// and by whatever way it comes, an application gets it once.
pub proof fn duplicates_are_dropped(p: PubSubView, source: NodeId, payload: Seq<u8>)
    requires
        envelope::parse_envelope(payload) matches Ok(message) && {
            &&& message.origin == source
            &&& p.policies.contains_key(message.topic.name)
            &&& !model::is_new(p, (source, message.topic), message.seq)
        },
    ensures
        model::receive(p, source, payload).1.len() == 1,
        model::receive(p, source, payload).1[0] is DroppedDuplicateOrTooOld,
{
}

/// What is not new to a node never becomes new to it, whatever happens.
pub proof fn what_is_not_new_stays_so(
    p: PubSubView,
    now: MonoTime,
    event: PubSubEventView,
    feed: (NodeId, TopicView),
    seq: u64,
)
    requires
        !model::is_new(p, feed, seq),
    ensures
        !model::is_new(model::step(p, now, event).0, feed, seq),
{
    match event {
        PubSubEventView::LocalPublish { topic, payload } => {
            if feed == (p.me, topic) {
                let next = model::next_envelope(p, now, topic, payload);
                window::what_is_not_new_stays_so(p.received[feed], seq, next.seq);
            }
        },
        PubSubEventView::Inbound { source, payload } => {
            match envelope::parse_envelope(payload) {
                Ok(message) => {
                    if feed == (message.origin, message.topic) {
                        window::what_is_not_new_stays_so(p.received[feed], seq, message.seq);
                    }
                },
                Err(_) => {},
            }
        },
        _ => {},
    }
}

/// A received message is not new afterwards, and an own message that comes
/// back is not new either.
pub proof fn messages_are_new_once(p: PubSubView, feed: (NodeId, TopicView), seq: u64)
    ensures
        !model::is_new(model::looked_at(p, feed, seq), feed, seq),
{
    if p.received.contains_key(feed) {
        window::what_was_looked_at_is_not_new(p.received[feed], seq);
    }
}

/// A message whose envelope names another origin than the packet it came in is
/// refused.
pub proof fn origins_cannot_be_borrowed(p: PubSubView, source: NodeId, payload: Seq<u8>)
    requires
        envelope::parse_envelope(payload) matches Ok(message) && message.origin != source,
    ensures
        model::receive(p, source, payload).0 == p,
        ({
            let message = envelope::parse_envelope(payload)->Ok_0;
            model::receive(p, source, payload).1 == seq![
                PubSubActionView::Rejected(
                    RejectView::SourceMismatch { header: source, envelope: message.origin },
                ),
            ]
        }),
{
}

/// What the local subscriptions ask for is told exactly when it changes.
pub proof fn subscriptions_are_told_on_change(
    p: PubSubView,
    now: MonoTime,
    event: PubSubEventView,
)
    requires
        event is LocalSubscribe || event is LocalUnsubscribe,
    ensures
        ({
            let (next, actions) = model::step(p, now, event);
            model::effective(next.subscriptions) == model::effective(p.subscriptions)
                <==> actions.len() == 0
        }),
{
}

/// Cores in the same state do the same on the same event at the same time.
pub proof fn same_inputs_give_the_same_outputs(
    a: PubSub,
    b: PubSub,
    now: MonoTime,
    event: PubSubEvent,
    a_after: PubSub,
    b_after: PubSub,
    a_actions: Seq<PubSubAction>,
    b_actions: Seq<PubSubAction>,
)
    requires
        a@ == b@,
        PubSub::may_step(a, now, event, a_after, a_actions),
        PubSub::may_step(b, now, event, b_after, b_actions),
    ensures
        a_after@ == b_after@,
        node::views(a_actions) == node::views(b_actions),
{
}

} // verus!
