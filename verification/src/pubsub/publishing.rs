//! What publishing is for: a message gets to everyone who asks for its topic,
//! carried as its topic demands, and to each of them once.

use vstd::prelude::*;
use crate::order;
use crate::order::Key;
use crate::pubsub::envelope;
use crate::pubsub::envelope::{EnvelopeFault, EnvelopeView};
use crate::pubsub::hash;
use crate::pubsub::laws;
use crate::pubsub::model;
use crate::pubsub::model::{PubSubActionView, PubSubEventView, PubSubView, RejectView};
use crate::pubsub::topic;
use crate::pubsub::topic::{SelectorView, SubId, TopicError, TopicMode, TopicSelector, TopicView};
use crate::pubsub::window::WindowView;
use crate::types::{MonoTime, NodeId};
use crate::wire::packet::Priority;

verus! {

/// The selector asks for the topic: it has its name, and asks for its partition
/// or for all.
pub open spec fn asks_for(selector: SelectorView, topic: TopicView) -> bool {
    selector.name == topic.name && (selector.partition is None || selector.partition == Some(
        topic.partition,
    ))
}

/// Some local subscription with this number asks for the topic.
pub open spec fn is_wanted_by(p: PubSubView, sub_id: SubId, topic: TopicView) -> bool {
    p.subscriptions.contains_key(sub_id) && asks_for(p.subscriptions[sub_id], topic)
}

/// Another node is known to ask for the topic.
pub open spec fn is_wanted_at(p: PubSubView, node: NodeId, topic: TopicView) -> bool {
    node != p.me && exists|selector: SelectorView| #[trigger]
        p.discovery.contains_key(selector) && asks_for(selector, topic)
            && p.discovery[selector].contains(node)
}

/// Hands a message to a subscription.
pub open spec fn hand_to(sub_id: SubId, message: EnvelopeView) -> PubSubActionView {
    PubSubActionView::DeliverToApp { sub_id, envelope: message, is_backfill: false }
}

/// What a node does when an application publishes.
pub open spec fn published(p: PubSubView, now: MonoTime, topic: TopicView, payload: Seq<u8>) -> (
    PubSubView,
    Seq<PubSubActionView>,
) {
    model::step(p, now, PubSubEventView::LocalPublish { topic, payload })
}

/// The number of the last message of a topic that was published here, or zero.
pub open spec fn last_number(p: PubSubView, topic: TopicView) -> int {
    if p.sequences.contains_key(topic) {
        p.sequences[topic] as int
    } else {
        0
    }
}

/// The message is the next one of its topic: it has the node as its origin, the
/// number after the last, and the time.
pub open spec fn is_next_message(
    p: PubSubView,
    now: MonoTime,
    topic: TopicView,
    payload: Seq<u8>,
    message: EnvelopeView,
) -> bool {
    &&& message.origin == p.me
    &&& message.topic == topic
    &&& message.seq == last_number(p, topic) + 1
    &&& message.ts_ms == now.millis()
    &&& message.payload == payload
}

/// The message can be published: its topic has a policy, and it fits into a
/// packet with one destination.
pub open spec fn can_be_published(p: PubSubView, message: EnvelopeView) -> bool {
    &&& p.policies.contains_key(message.topic.name)
    &&& envelope::envelope_bytes(message).len() <= 1_048_454
}

/// Parts of the actions of publishing.
proof fn publishing_in_parts(
    p: PubSubView,
    now: MonoTime,
    message: EnvelopeView,
) -> (parts: (Seq<SubId>, Seq<Seq<NodeId>>))
    requires
        can_be_published(p, message),
        is_next_message(p, now, message.topic, message.payload, message),
        p.subscriptions.dom().finite(),
        topic::subscribers_of(p.discovery, message.topic).finite(),
    ensures
        ({
            let (next, actions) = published(p, now, message.topic, message.payload);
            let (ids, pieces) = parts;
            &&& pieces == model::chunks(
                model::destinations(p, message.topic),
                model::chunk_limit(envelope::envelope_bytes(message).len()),
            )
            &&& actions == Seq::new(ids.len(), |i: int| hand_to(ids[i], message)) + Seq::new(
                pieces.len(),
                |i: int| model::multicast(p, message, pieces[i]),
            ) + seq![PubSubActionView::Published { topic: message.topic, seq: message.seq }]
            &&& order::is_ascending::<SubId>(ids)
            &&& forall|id: SubId| #[trigger]
                ids.contains(id) <==> is_wanted_by(p, id, message.topic)
            &&& order::is_ascending::<NodeId>(laws::joined(pieces))
            &&& forall|node: NodeId| #[trigger]
                laws::joined(pieces).contains(node) <==> is_wanted_at(p, node, message.topic)
            &&& forall|i: int|
                0 <= i < pieces.len() ==> {
                    &&& 1 <= (#[trigger] pieces[i]).len() <= 64
                    &&& 2 + 32 * pieces[i].len() + envelope::envelope_bytes(message).len()
                        <= 1_048_488
                }
        }),
{
    let topic = message.topic;
    let next = model::next_envelope(p, now, topic, message.payload);
    assert(next =~= message);
    let ids = model::matching(p.subscriptions, topic);
    assert(ids.subset_of(p.subscriptions.dom()));
    vstd::set_lib::lemma_set_subset_finite(p.subscriptions.dom(), ids);
    let listed = order::finite_sets_are_listed::<SubId>(ids);
    assert forall|id: SubId| #[trigger] listed.contains(id) <==> is_wanted_by(p, id, topic) by {
        assert(ids.contains(id) <==> listed.contains(id));
    }
    laws::multicasts_reach_all_subscribers(p, now, topic, message.payload);
    let pieces = model::chunks(
        model::destinations(p, topic),
        model::chunk_limit(envelope::envelope_bytes(message).len()),
    );
    let to = topic::subscribers_of(p.discovery, topic).remove(p.me);
    assert forall|node: NodeId| #[trigger] laws::joined(pieces).contains(node) <==> is_wanted_at(
        p,
        node,
        topic,
    ) by {
        assert(to.contains(node) <==> laws::joined(pieces).contains(node));
        assert(topic::subscribers_of(p.discovery, topic).contains(node) <==> topic::is_subscriber(
            p.discovery,
            topic,
            node,
        ));
        if topic::is_subscriber(p.discovery, topic, node) {
            let selector = choose|selector: SelectorView| #[trigger]
                p.discovery.contains_key(selector) && topic::selects(selector, topic)
                    && p.discovery[selector].contains(node);
            assert(asks_for(selector, topic));
        }
        if is_wanted_at(p, node, topic) {
            let selector = choose|selector: SelectorView| #[trigger]
                p.discovery.contains_key(selector) && asks_for(selector, topic)
                    && p.discovery[selector].contains(node);
            assert(topic::selects(selector, topic));
        }
    }
    let actions = published(p, now, topic, message.payload).1;
    assert(actions =~= Seq::new(listed.len(), |i: int| hand_to(listed[i], message)) + Seq::new(
        pieces.len(),
        |i: int| model::multicast(p, message, pieces[i]),
    ) + seq![PubSubActionView::Published { topic, seq: message.seq }]);
    (listed, pieces)
}

/// The places of the pieces in the whole.
proof fn pieces_are_parts(pieces: Seq<Seq<NodeId>>, node: NodeId)
    ensures
        laws::joined(pieces).contains(node) <==> exists|i: int|
            0 <= i < pieces.len() && (#[trigger] pieces[i]).contains(node),
    decreases pieces.len(),
{
    let all = laws::joined(pieces);
    if pieces.len() > 0 {
        let rest = pieces.drop_first();
        let more = laws::joined(rest);
        pieces_are_parts(rest, node);
        if all.contains(node) {
            let k = choose|k: int| 0 <= k < all.len() && all[k] == node;
            if k < pieces[0].len() {
                assert(pieces[0][k] == node);
                assert(pieces[0].contains(node));
            } else {
                assert(more[k - pieces[0].len()] == node);
                assert(more.contains(node));
                let i = choose|i: int| 0 <= i < rest.len() && (#[trigger] rest[i]).contains(node);
                assert(pieces[i + 1].contains(node));
            }
        }
        if exists|i: int| 0 <= i < pieces.len() && (#[trigger] pieces[i]).contains(node) {
            let i = choose|i: int| 0 <= i < pieces.len() && (#[trigger] pieces[i]).contains(node);
            if i == 0 {
                let k = choose|k: int| 0 <= k < pieces[0].len() && pieces[0][k] == node;
                assert(all[k] == node);
            } else {
                assert(rest[i - 1].contains(node));
                let k = choose|k: int| 0 <= k < more.len() && more[k] == node;
                assert(all[pieces[0].len() + k] == node);
            }
        }
    }
}

/// Every packet that publishing sends carries the message as it is, has the
/// priority that the policy of its topic gives, and may replace one another in
/// a queue exactly if the topic keeps the latest message only and its priority
/// is `P1`. It is for one to sixty-four nodes, which it fits with into a packet.
pub proof fn messages_are_carried_by_policy(
    p: PubSubView,
    now: MonoTime,
    message: EnvelopeView,
    i: int,
)
    requires
        can_be_published(p, message),
        is_next_message(p, now, message.topic, message.payload, message),
        p.subscriptions.dom().finite(),
        topic::subscribers_of(p.discovery, message.topic).finite(),
        0 <= i < published(p, now, message.topic, message.payload).1.len(),
    ensures
        published(p, now, message.topic, message.payload).1[i] matches
            PubSubActionView::SendMulticast {
            destinations,
            priority,
            flow_id,
            conflate_key,
            conflatable,
            payload,
        } ==> {
            let policy = p.policies[message.topic.name];
            &&& priority == policy.priority
            &&& conflatable <==> policy.mode == TopicMode::Latest && policy.priority
                == Priority::P1
            &&& policy.mode == TopicMode::Log ==> !conflatable
            &&& payload == envelope::envelope_bytes(message)
            &&& flow_id == hash::hash_of(
                vstd::utf8::encode_utf8(message.topic.name),
                message.topic.partition,
            )
            &&& conflate_key == hash::hash_of(p.me.bytes(), message.topic.partition)
            &&& 1 <= destinations.len() <= 64
            &&& 2 + 32 * destinations.len() + payload.len() <= 1_048_488
        },
{
    let (ids, pieces) = publishing_in_parts(p, now, message);
    let actions = published(p, now, message.topic, message.payload).1;
    if ids.len() <= i < ids.len() + pieces.len() {
        assert(actions[i] == model::multicast(p, message, pieces[i - ids.len()]));
    }
}

/// A published message is handed to every local subscription that asks for its
/// topic, and to no other.
pub proof fn messages_reach_local_subscriptions(
    p: PubSubView,
    now: MonoTime,
    message: EnvelopeView,
    action: PubSubActionView,
)
    requires
        can_be_published(p, message),
        is_next_message(p, now, message.topic, message.payload, message),
        p.subscriptions.dom().finite(),
        topic::subscribers_of(p.discovery, message.topic).finite(),
        action is DeliverToApp,
    ensures
        published(p, now, message.topic, message.payload).1.contains(action) <==> exists|
            sub_id: SubId,
        | #[trigger] is_wanted_by(p, sub_id, message.topic) && action == hand_to(sub_id, message),
{
    let (ids, pieces) = publishing_in_parts(p, now, message);
    let actions = published(p, now, message.topic, message.payload).1;
    if actions.contains(action) {
        let k = choose|k: int| 0 <= k < actions.len() && actions[k] == action;
        if k < ids.len() {
            assert(actions[k] == hand_to(ids[k], message));
            assert(ids.contains(ids[k]));
        } else if k < ids.len() + pieces.len() {
            assert(actions[k] == model::multicast(p, message, pieces[k - ids.len()]));
        }
    }
    if exists|sub_id: SubId| #[trigger]
        is_wanted_by(p, sub_id, message.topic) && action == hand_to(sub_id, message) {
        let id = choose|sub_id: SubId| #[trigger]
            is_wanted_by(p, sub_id, message.topic) && action == hand_to(sub_id, message);
        assert(ids.contains(id));
        let k = choose|k: int| 0 <= k < ids.len() && ids[k] == id;
        assert(actions[k] == action);
    }
}

/// A published message is sent to every other node that is known to ask for its
/// topic, and to no other.
pub proof fn messages_are_sent_to_subscribers(
    p: PubSubView,
    now: MonoTime,
    message: EnvelopeView,
    node: NodeId,
)
    requires
        can_be_published(p, message),
        is_next_message(p, now, message.topic, message.payload, message),
        p.subscriptions.dom().finite(),
        topic::subscribers_of(p.discovery, message.topic).finite(),
    ensures
        ({
            let actions = published(p, now, message.topic, message.payload).1;
            is_wanted_at(p, node, message.topic) <==> exists|i: int|
                0 <= i < actions.len() && ((#[trigger] actions[i]) matches
                    PubSubActionView::SendMulticast { destinations, .. } && destinations.contains(
                    node,
                ))
        }),
{
    let (ids, pieces) = publishing_in_parts(p, now, message);
    let actions = published(p, now, message.topic, message.payload).1;
    pieces_are_parts(pieces, node);
    if is_wanted_at(p, node, message.topic) {
        assert(laws::joined(pieces).contains(node));
        let i = choose|i: int| 0 <= i < pieces.len() && (#[trigger] pieces[i]).contains(node);
        assert(actions[ids.len() + i] == model::multicast(p, message, pieces[i]));
    }
    if exists|i: int|
        0 <= i < actions.len() && ((#[trigger] actions[i]) matches
            PubSubActionView::SendMulticast { destinations, .. } && destinations.contains(node)) {
        let i = choose|i: int|
            0 <= i < actions.len() && ((#[trigger] actions[i]) matches
                PubSubActionView::SendMulticast { destinations, .. } && destinations.contains(
                node,
            ));
        assert(ids.len() <= i < ids.len() + pieces.len());
        assert(actions[i] == model::multicast(p, message, pieces[i - ids.len()]));
        assert(pieces[i - ids.len()].contains(node));
        assert(laws::joined(pieces).contains(node));
    }
}

/// A piece stands within the whole, after all pieces before it.
proof fn pieces_keep_order(pieces: Seq<Seq<NodeId>>, i: int, a: int, j: int, b: int)
    requires
        order::is_ascending::<NodeId>(laws::joined(pieces)),
        0 <= i < pieces.len(),
        0 <= a < pieces[i].len(),
        0 <= j < pieces.len(),
        0 <= b < pieces[j].len(),
        pieces[i][a] == pieces[j][b],
    ensures
        i == j && a == b,
    decreases pieces.len(),
{
    let all = laws::joined(pieces);
    order::ascending_is_injective::<NodeId>(all);
    let rest = pieces.drop_first();
    let more = laws::joined(rest);
    let n = pieces[0].len() as int;
    let node = pieces[i][a];
    if i == 0 && j == 0 {
        assert(all[a] == all[b]);
    } else if i == 0 || j == 0 {
        let (near, far, c) = if i == 0 {
            (a, j, b)
        } else {
            (b, i, a)
        };
        assert(all[near] == node);
        assert(rest[far - 1][c] == node);
        assert(rest[far - 1].contains(node));
        pieces_are_parts(rest, node);
        let k = choose|k: int| 0 <= k < more.len() && more[k] == node;
        assert(all[n + k] == node);
    } else {
        assert forall|x: int, y: int| 0 <= x < y < more.len() implies NodeId::before(
            #[trigger] more[x],
            #[trigger] more[y],
        ) by {
            assert(all[n + x] == more[x] && all[n + y] == more[y]);
        }
        pieces_keep_order(rest, i - 1, a, j - 1, b);
    }
}

/// However many packets publishing sends, no node is named twice.
pub proof fn messages_are_sent_once(
    p: PubSubView,
    now: MonoTime,
    message: EnvelopeView,
    i: int,
    a: int,
    j: int,
    b: int,
)
    requires
        can_be_published(p, message),
        is_next_message(p, now, message.topic, message.payload, message),
        p.subscriptions.dom().finite(),
        topic::subscribers_of(p.discovery, message.topic).finite(),
        ({
            let actions = published(p, now, message.topic, message.payload).1;
            &&& 0 <= i < actions.len() && actions[i] is SendMulticast
            &&& 0 <= j < actions.len() && actions[j] is SendMulticast
            &&& 0 <= a < actions[i]->destinations.len()
            &&& 0 <= b < actions[j]->destinations.len()
            &&& actions[i]->destinations[a] == actions[j]->destinations[b]
        }),
    ensures
        i == j && a == b,
{
    let (ids, pieces) = publishing_in_parts(p, now, message);
    let actions = published(p, now, message.topic, message.payload).1;
    assert(ids.len() <= i < ids.len() + pieces.len());
    assert(ids.len() <= j < ids.len() + pieces.len());
    assert(actions[i] == model::multicast(p, message, pieces[i - ids.len()]));
    assert(actions[j] == model::multicast(p, message, pieces[j - ids.len()]));
    pieces_keep_order(pieces, i - ids.len(), a, j - ids.len(), b);
}

/// All pieces but the last are as long as they may be.
proof fn pieces_are_full(all: Seq<NodeId>, limit: nat, i: int)
    requires
        limit >= 1,
        0 <= i < model::chunks(all, limit).len() - 1,
    ensures
        model::chunks(all, limit)[i].len() == limit,
    decreases all.len(),
{
    let rest = all.skip(limit as int);
    let more = model::chunks(rest, limit);
    let pieces = model::chunks(all, limit);
    assert(pieces =~= seq![all.take(limit as int)] + more);
    if i > 0 {
        assert(pieces[i] == more[i - 1]);
        pieces_are_full(rest, limit, i - 1);
    }
}

/// No more packets are sent than there must be: each but the last is for as many
/// nodes as a packet may be for, or as fit into it with the message.
pub proof fn no_packet_is_wasted(
    p: PubSubView,
    now: MonoTime,
    message: EnvelopeView,
    i: int,
    j: int,
)
    requires
        can_be_published(p, message),
        is_next_message(p, now, message.topic, message.payload, message),
        p.subscriptions.dom().finite(),
        topic::subscribers_of(p.discovery, message.topic).finite(),
        ({
            let actions = published(p, now, message.topic, message.payload).1;
            0 <= i < j < actions.len() && actions[i] is SendMulticast && actions[j] is SendMulticast
        }),
    ensures
        ({
            let sent = published(p, now, message.topic, message.payload).1[i]->destinations.len();
            let length = envelope::envelope_bytes(message).len();
            sent == 64 || 2 + 32 * (sent + 1) + length > 1_048_488
        }),
{
    let (ids, pieces) = publishing_in_parts(p, now, message);
    let actions = published(p, now, message.topic, message.payload).1;
    assert(ids.len() <= i < ids.len() + pieces.len());
    assert(ids.len() <= j < ids.len() + pieces.len());
    assert(actions[i] == model::multicast(p, message, pieces[i - ids.len()]));
    let length = envelope::envelope_bytes(message).len();
    let all = model::destinations(p, message.topic);
    let limit = model::chunk_limit(length);
    assert(model::next_envelope(p, now, message.topic, message.payload) =~= message);
    assert(pieces == model::chunks(all, limit));
    pieces_are_full(all, limit, i - ids.len());
}

/// Publishing hands a message to subscriptions by ascending number, before
/// anything else.
pub proof fn messages_are_handed_out_in_order(
    p: PubSubView,
    now: MonoTime,
    message: EnvelopeView,
    i: int,
    j: int,
)
    requires
        can_be_published(p, message),
        is_next_message(p, now, message.topic, message.payload, message),
        p.subscriptions.dom().finite(),
        topic::subscribers_of(p.discovery, message.topic).finite(),
        0 <= i < j < published(p, now, message.topic, message.payload).1.len(),
    ensures
        ({
            let actions = published(p, now, message.topic, message.payload).1;
            &&& actions[j] is DeliverToApp ==> actions[i] is DeliverToApp
            &&& actions[i] is DeliverToApp && actions[j] is DeliverToApp
                ==> actions[i]->sub_id.value() < actions[j]->sub_id.value()
        }),
{
    let (ids, pieces) = publishing_in_parts(p, now, message);
    let actions = published(p, now, message.topic, message.payload).1;
    assert forall|k: int| 0 <= k < actions.len() implies (#[trigger] actions[k] is DeliverToApp
        <==> k < ids.len()) && (k < ids.len() ==> actions[k] == hand_to(ids[k], message)) by {
        if ids.len() <= k < ids.len() + pieces.len() {
            assert(actions[k] == model::multicast(p, message, pieces[k - ids.len()]));
        }
    }
    if j < ids.len() {
        assert(SubId::before(ids[i], ids[j]));
    }
}

/// The numbers of a feed that a window tells of: which of those that are less
/// than sixty-four behind the highest have come.
pub open spec fn tells_of(window: WindowView, numbers: Seq<u64>) -> bool {
    &&& numbers.contains(window.highest)
    &&& forall|i: int| 0 <= i < numbers.len() ==> #[trigger] numbers[i] <= window.highest
    &&& forall|n: u64| #[trigger]
        window.seen.contains(n) <==> numbers.contains(n) && window.highest - n < 64
}

/// The numbers are those of a feed that a node has looked at so far, as far as
/// it remembers them.
pub open spec fn remembers(
    p: PubSubView,
    origin: NodeId,
    topic: TopicView,
    numbers: Seq<u64>,
) -> bool {
    if numbers.len() == 0 {
        !p.received.contains_key((origin, topic))
    } else {
        p.received.contains_key((origin, topic)) && tells_of(p.received[(origin, topic)], numbers)
    }
}

/// A number is fresh after others: it is none of them, and none of them is
/// higher by sixty-four or more.
pub open spec fn is_fresh(numbers: Seq<u64>, number: u64) -> bool {
    forall|i: int|
        0 <= i < numbers.len() ==> #[trigger] numbers[i] != number && numbers[i] - number < 64
}

/// What a node remembers of a feed decides whether a number is new, and it
/// remembers each number that it looks at.
proof fn looking_is_remembered(
    p: PubSubView,
    origin: NodeId,
    topic: TopicView,
    numbers: Seq<u64>,
    number: u64,
)
    requires
        remembers(p, origin, topic, numbers),
    ensures
        model::is_new(p, (origin, topic), number) <==> is_fresh(numbers, number),
        remembers(
            model::looked_at(p, (origin, topic), number),
            origin,
            topic,
            numbers.push(number),
        ),
{
    let feed = (origin, topic);
    let more = numbers.push(number);
    assert(more[numbers.len() as int] == number);
    assert(more.contains(number));
    assert forall|n: u64| #[trigger] more.contains(n) <==> numbers.contains(n) || n == number by {
        if numbers.contains(n) {
            let k = choose|k: int| 0 <= k < numbers.len() && numbers[k] == n;
            assert(more[k] == n);
        }
        if more.contains(n) && n != number {
            let k = choose|k: int| 0 <= k < more.len() && more[k] == n;
            assert(numbers[k] == n);
        }
    }
    if numbers.len() > 0 {
        let old_window = p.received[feed];
        let k = choose|k: int| 0 <= k < numbers.len() && numbers[k] == old_window.highest;
        if is_fresh(numbers, number) {
            assert(numbers[k] != number && numbers[k] - number < 64);
            if old_window.seen.contains(number) {
                let m = choose|m: int| 0 <= m < numbers.len() && numbers[m] == number;
                assert(numbers[m] != number);
            }
        } else {
            let m = choose|m: int|
                0 <= m < numbers.len() && !(#[trigger] numbers[m] != number && numbers[m] - number
                    < 64);
            assert(numbers[m] <= old_window.highest);
        }
        let window = model::looked_at(p, feed, number).received[feed];
        assert forall|i: int| 0 <= i < more.len() implies #[trigger] more[i] <= window.highest by {
            if i < numbers.len() {
                assert(more[i] == numbers[i]);
            }
        }
        assert forall|n: u64| numbers.contains(n) implies n <= old_window.highest by {
            let k = choose|k: int| 0 <= k < numbers.len() && numbers[k] == n;
            assert(numbers[k] <= old_window.highest);
        }
        assert(tells_of(window, more));
    } else {
        assert(more =~= seq![number]);
        let window = model::looked_at(p, feed, number).received[feed];
        assert(tells_of(window, more));
    }
}

/// A publication uses the next number of its topic and no other topic's, and is
/// confirmed with that number, after everything else and once. The node
/// remembers the message as one that it has seen.
pub proof fn publications_are_numbered(
    p: PubSubView,
    now: MonoTime,
    message: EnvelopeView,
    numbers: Seq<u64>,
)
    requires
        can_be_published(p, message),
        is_next_message(p, now, message.topic, message.payload, message),
        p.subscriptions.dom().finite(),
        topic::subscribers_of(p.discovery, message.topic).finite(),
        remembers(p, p.me, message.topic, numbers),
    ensures
        ({
            let (next, actions) = published(p, now, message.topic, message.payload);
            &&& next.sequences == p.sequences.insert(message.topic, message.seq)
            &&& remembers(next, p.me, message.topic, numbers.push(message.seq))
            &&& next.received.remove((p.me, message.topic)) == p.received.remove(
                (p.me, message.topic),
            )
            &&& next.subscriptions == p.subscriptions
            &&& next.discovery == p.discovery
            &&& next.policies == p.policies
            &&& next.me == p.me
            &&& actions.len() > 0
            &&& actions.last() == PubSubActionView::Published {
                topic: message.topic,
                seq: message.seq,
            }
            &&& forall|i: int|
                0 <= i < actions.len() - 1 ==> (#[trigger] actions[i]) is DeliverToApp
                    || actions[i] is SendMulticast
        }),
{
    let (ids, pieces) = publishing_in_parts(p, now, message);
    let (next, actions) = published(p, now, message.topic, message.payload);
    assert(model::next_envelope(p, now, message.topic, message.payload) =~= message);
    let counted = PubSubView {
        sequences: p.sequences.insert(message.topic, message.seq),
        ..p
    };
    looking_is_remembered(counted, p.me, message.topic, numbers, message.seq);
    assert(next.received.remove((p.me, message.topic)) =~= p.received.remove(
        (p.me, message.topic),
    ));
    assert forall|i: int| 0 <= i < actions.len() - 1 implies (#[trigger] actions[i]) is DeliverToApp
        || actions[i] is SendMulticast by {
        if i < ids.len() {
            assert(actions[i] == hand_to(ids[i], message));
        } else {
            assert(actions[i] == model::multicast(p, message, pieces[i - ids.len()]));
        }
    }
}

/// What cannot be published is refused with the reason, and uses no number: a
/// topic without a policy, one whose numbers are used up, and a message that is
/// too large, in this order.
pub proof fn other_publications_are_refused(
    p: PubSubView,
    now: MonoTime,
    topic: TopicView,
    payload: Seq<u8>,
)
    requires
        forall|message: EnvelopeView| #[trigger]
            is_next_message(p, now, topic, payload, message) ==> !can_be_published(p, message),
    ensures
        ({
            let (next, actions) = published(p, now, topic, payload);
            &&& next == p
            &&& actions.len() == 1
            &&& actions[0] matches PubSubActionView::Rejected(reason)
            &&& if !p.policies.contains_key(topic.name) {
                reason == RejectView::UnknownTopic(topic.name)
            } else if last_number(p, topic) == u64::MAX {
                reason == RejectView::SequenceExhausted(topic)
            } else {
                &&& reason matches RejectView::EnvelopeTooLarge { encoded_len, max }
                &&& max == 1_048_454
                &&& exists|message: EnvelopeView| #[trigger]
                    is_next_message(p, now, topic, payload, message) && encoded_len
                        == envelope::envelope_bytes(message).len() as usize
            }
        }),
{
    let message = model::next_envelope(p, now, topic, payload);
    if last_number(p, topic) < u64::MAX {
        assert(is_next_message(p, now, topic, payload, message));
    }
}

/// What a node does with a payload that came in a packet from a source.
pub open spec fn received(p: PubSubView, now: MonoTime, source: NodeId, payload: Seq<u8>) -> (
    PubSubView,
    Seq<PubSubActionView>,
) {
    model::step(p, now, PubSubEventView::Inbound { source, payload })
}

/// A message that comes in from its origin, of a topic with a policy, is handed
/// to every local subscription that asks for its topic and to no other, if its
/// number is fresh. If it is not, it is dropped and told as such. Either way the
/// node remembers the number, and changes nothing else.
pub proof fn received_messages_are_delivered_once(
    p: PubSubView,
    now: MonoTime,
    message: EnvelopeView,
    payload: Seq<u8>,
    numbers: Seq<u64>,
    action: PubSubActionView,
)
    requires
        envelope::parse_envelope(payload) == Ok::<EnvelopeView, EnvelopeFault>(message),
        p.policies.contains_key(message.topic.name),
        p.subscriptions.dom().finite(),
        remembers(p, message.origin, message.topic, numbers),
    ensures
        ({
            let (next, actions) = received(p, now, message.origin, payload);
            let feed = (message.origin, message.topic);
            &&& if is_fresh(numbers, message.seq) {
                actions.contains(action) <==> exists|sub_id: SubId| #[trigger]
                    is_wanted_by(p, sub_id, message.topic) && action == hand_to(sub_id, message)
            } else {
                actions == seq![
                    PubSubActionView::DroppedDuplicateOrTooOld {
                        origin: message.origin,
                        topic: message.topic,
                        seq: message.seq,
                    },
                ]
            }
            &&& actions.no_duplicates()
            &&& remembers(next, message.origin, message.topic, numbers.push(message.seq))
            &&& next.received.remove(feed) == p.received.remove(feed)
            &&& next.me == p.me && next.policies == p.policies
            &&& next.subscriptions == p.subscriptions
            &&& next.discovery == p.discovery
            &&& next.sequences == p.sequences
        }),
{
    let (next, actions) = received(p, now, message.origin, payload);
    let feed = (message.origin, message.topic);
    looking_is_remembered(p, message.origin, message.topic, numbers, message.seq);
    assert(next.received.remove(feed) =~= p.received.remove(feed));
    if is_fresh(numbers, message.seq) {
        match action {
            PubSubActionView::DeliverToApp { sub_id, envelope, is_backfill } => {
                laws::deliveries_reach_matching_subscriptions(p.subscriptions, message, sub_id);
            },
            _ => {
                laws::deliveries_reach_matching_subscriptions(
                    p.subscriptions,
                    message,
                    arbitrary(),
                );
            },
        }
        if actions.contains(action) {
            let k = choose|k: int| 0 <= k < actions.len() && actions[k] == action;
            assert(actions[k] is DeliverToApp);
            let id = actions[k]->sub_id;
            assert(action == hand_to(id, message));
            assert(is_wanted_by(p, id, message.topic));
        }
    }
}

/// A payload that is no message, a message that does not come from its origin,
/// and one of a topic without a policy are refused with the reason, in this
/// order, and change nothing.
pub proof fn other_payloads_are_refused(
    p: PubSubView,
    now: MonoTime,
    source: NodeId,
    payload: Seq<u8>,
)
    requires
        !(envelope::parse_envelope(payload) matches Ok(message) && message.origin == source
            && p.policies.contains_key(message.topic.name)),
    ensures
        ({
            let (next, actions) = received(p, now, source, payload);
            &&& next == p
            &&& actions.len() == 1
            &&& actions[0] == PubSubActionView::Rejected(
                match envelope::parse_envelope(payload) {
                    Err(fault) => RejectView::InvalidEnvelope(fault),
                    Ok(message) => if message.origin != source {
                        RejectView::SourceMismatch { header: source, envelope: message.origin }
                    } else {
                        RejectView::UnknownTopic(message.topic.name)
                    },
                },
            )
        }),
{
}

/// Some subscription asks for what the selector says.
pub open spec fn is_subscribed(p: PubSubView, selector: SelectorView) -> bool {
    exists|sub_id: SubId| #[trigger]
        p.subscriptions.contains_key(sub_id) && p.subscriptions[sub_id] == selector
}

/// The state and the actions after a subscription is made, where the selector is
/// given, or ended.
pub open spec fn resubscribed(
    p: PubSubView,
    now: MonoTime,
    sub_id: SubId,
    selector: Option<SelectorView>,
) -> (PubSubView, Seq<PubSubActionView>) {
    match selector {
        Some(selector) => model::step(
            p,
            now,
            PubSubEventView::LocalSubscribe { sub_id, selector },
        ),
        None => model::step(p, now, PubSubEventView::LocalUnsubscribe(sub_id)),
    }
}

/// A subscription asks for what it said last, until it ends, and no other is
/// touched. What all subscriptions together ask for is told, each once and in
/// ascending order, exactly when it changes.
pub proof fn subscriptions_ask_for_what_they_said(
    p: PubSubView,
    now: MonoTime,
    sub_id: SubId,
    selector: Option<SelectorView>,
)
    requires
        p.subscriptions.dom().finite(),
    ensures
        ({
            let (next, actions) = resubscribed(p, now, sub_id, selector);
            &&& match selector {
                Some(s) => next.subscriptions.contains_key(sub_id) && next.subscriptions[sub_id]
                    == s,
                None => !next.subscriptions.contains_key(sub_id),
            }
            &&& next.subscriptions.remove(sub_id) == p.subscriptions.remove(sub_id)
            &&& next.sequences == p.sequences && next.received == p.received
            &&& next.discovery == p.discovery && next.policies == p.policies && next.me == p.me
            &&& if forall|s: SelectorView| #[trigger]
                is_subscribed(p, s) == is_subscribed(next, s) {
                actions.len() == 0
            } else {
                &&& actions.len() == 1
                &&& actions[0] matches PubSubActionView::LocalSubscriptionsChanged(told)
                &&& forall|s: SelectorView| #[trigger]
                    told.contains(s) <==> is_subscribed(next, s)
                &&& forall|i: int, j: int|
                    0 <= i < j < told.len() ==> TopicSelector::before(
                        #[trigger] told[i],
                        #[trigger] told[j],
                    )
            }
        }),
{
    let (next, actions) = resubscribed(p, now, sub_id, selector);
    assert(next.subscriptions.remove(sub_id) =~= p.subscriptions.remove(sub_id));
    let before = model::effective(p.subscriptions);
    let now_asked = model::effective(next.subscriptions);
    assert forall|s: SelectorView| #[trigger] is_subscribed(p, s) == before.contains(s) by {}
    assert forall|s: SelectorView| #[trigger] is_subscribed(next, s) == now_asked.contains(s) by {}
    if forall|s: SelectorView| #[trigger] is_subscribed(p, s) == is_subscribed(next, s) {
        assert(before =~= now_asked) by {
            assert forall|s: SelectorView| before.contains(s) == now_asked.contains(s) by {
                assert(is_subscribed(p, s) == is_subscribed(next, s));
            }
        }
    } else {
        let s = choose|s: SelectorView| #[trigger] is_subscribed(p, s) != is_subscribed(next, s);
        assert(before.contains(s) != now_asked.contains(s));
        let said = |id: SubId| next.subscriptions[id];
        next.subscriptions.dom().lemma_map_finite(said);
        assert forall|s: SelectorView| now_asked.contains(s) implies next.subscriptions.dom().map(
            said,
        ).contains(s) by {
            let id = choose|id: SubId| #[trigger]
                next.subscriptions.contains_key(id) && next.subscriptions[id] == s;
            assert(next.subscriptions.dom().contains(id) && said(id) == s);
        }
        vstd::set_lib::lemma_set_subset_finite(next.subscriptions.dom().map(said), now_asked);
        let told = order::finite_sets_are_listed::<TopicSelector>(now_asked);
        assert forall|s: SelectorView| #[trigger] told.contains(s) <==> is_subscribed(next, s) by {
            assert(told.contains(s) <==> now_asked.contains(s));
        }
        assert(actions.len() == 1);
    }
}

/// What is told of the subscribers of other nodes takes the place of what was
/// told before, and nothing else happens.
pub proof fn what_is_discovered_is_used(
    p: PubSubView,
    now: MonoTime,
    discovery: Map<SelectorView, Set<NodeId>>,
)
    ensures
        ({
            let (next, actions) = model::step(
                p,
                now,
                PubSubEventView::DiscoveryUpdated(discovery),
            );
            &&& next == (PubSubView { discovery, ..p })
            &&& actions.len() == 0
        }),
{
}

/// A name of a topic has one to 1024 bytes, and a partition no more than 65536.
/// What is wrong is told, of the name first.
pub proof fn topics_are_bounded(topic: TopicView)
    ensures
        ({
            let length = vstd::utf8::encode_utf8(topic.name).len();
            let fault = topic::topic_fault(topic);
            if topic.name.len() == 0 {
                fault == Some(TopicError::EmptyName)
            } else if length > 1_024 {
                fault == Some(TopicError::NameTooLong(length as usize))
            } else if topic.partition.len() > 65_536 {
                fault == Some(TopicError::PartitionTooLong(topic.partition.len() as usize))
            } else {
                fault is None
            }
        }),
        topic::name_fault(topic.name) is None <==> topic.name.len() > 0
            && vstd::utf8::encode_utf8(topic.name).len() <= 1_024,
{
}

/// Every message starts with the four letters "MBPS", and nothing that does not
/// is taken for one.
pub proof fn messages_are_marked(message: EnvelopeView, bytes: Seq<u8>)
    ensures
        envelope::envelope_bytes(message).len() >= 4,
        envelope::envelope_bytes(message).take(4) == seq![
            'M' as u8,
            'B' as u8,
            'P' as u8,
            'S' as u8,
        ],
        bytes.len() < 4 || bytes[0] != 'M' as u8 || bytes[1] != 'B' as u8 || bytes[2] != 'P' as u8
            || bytes[3] != 'S' as u8 ==> envelope::parse_envelope(bytes) == Err::<
            EnvelopeView,
            EnvelopeFault,
        >(EnvelopeFault::NotPubSub) && !envelope::is_envelope_like(bytes),
{
    assert(envelope::envelope_bytes(message).take(4) =~= envelope::magic());
    assert(envelope::magic() =~= seq!['M' as u8, 'B' as u8, 'P' as u8, 'S' as u8]);
    if envelope::is_envelope_like(bytes) {
        assert(bytes.take(4)[0] == bytes[0] && bytes.take(4)[1] == bytes[1]);
        assert(bytes.take(4)[2] == bytes[2] && bytes.take(4)[3] == bytes[3]);
    }
}

} // verus!
