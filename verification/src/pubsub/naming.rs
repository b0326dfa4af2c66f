//! What topics, policies, selectors and envelopes promise.

use bytes::Bytes;
use vstd::prelude::*;
use crate::buffer;
use crate::order::Key;
use crate::pubsub::envelope;
use crate::pubsub::envelope::{Envelope, EnvelopeCodec, EnvelopeError};
use crate::pubsub::hash;
use crate::pubsub::model;
use crate::pubsub::node;
use crate::pubsub::node::{PubSub, PubSubAction, PubSubEvent};
use crate::pubsub::publishing;
use crate::pubsub::topic;
use crate::pubsub::topic::{DiscoveryIndex, SelectorView, SubId, TopicError, TopicKey};
use crate::pubsub::topic::{TopicPolicies, TopicPolicy, TopicSelector, TopicView};
use crate::types::{Component, MonoTime, NodeId};

verus! {

/// The publish/subscribe core goes from its state to the next when it handles an
/// event.
pub proof fn events_are_handled(
    core: &mut PubSub,
    now: MonoTime,
    event: PubSubEvent,
    actions: Vec<PubSubAction>,
)
    requires
        call_ensures(<PubSub as Component>::handle, (core, now, event), actions),
    ensures
        final(core).wf(),
        (final(core)@, node::views(actions@)) == model::step(old(core)@, now, event@),
{
}

/// A new core has seen nothing and is asked for nothing.
pub proof fn cores_start_with_nothing(
    me: NodeId,
    policies: std::sync::Arc<TopicPolicies>,
    core: PubSub,
    origin: NodeId,
    topic: TopicView,
)
    requires
        policies.wf(),
        call_ensures(PubSub::new, (me, policies), core),
    ensures
        core.wf(),
        core@.me == me,
        core@.policies == policies@,
        core@.subscriptions.dom() =~= Set::<SubId>::empty(),
        core@.discovery.dom() =~= Set::<SelectorView>::empty(),
        publishing::last_number(core@, topic) == 0,
        publishing::remembers(core@, origin, topic, Seq::<u64>::empty()),
{
}

/// A topic has the name and the partition that it is made of, if the name has
/// one to 1024 bytes and the partition no more than 65536.
pub proof fn topics_are_made(name: String, partition: Bytes, made: Result<TopicKey, TopicError>)
    requires
        call_ensures(TopicKey::new, (name, partition), made),
    ensures
        ({
            let length = vstd::utf8::encode_utf8(name@).len();
            let part = buffer::octets(partition);
            &&& made is Ok <==> name@.len() > 0 && length <= 1_024 && part.len() <= 65_536
            &&& made matches Ok(topic) ==> topic@.name == name@ && topic@.partition == part
            &&& made matches Err(error) ==> error == if name@.len() == 0 {
                TopicError::EmptyName
            } else if length > 1_024 {
                TopicError::NameTooLong(length as usize)
            } else {
                TopicError::PartitionTooLong(part.len() as usize)
            }
        }),
{
}

/// The entry at the index is the last for its name.
pub open spec fn is_last(given: Seq<(String, TopicPolicy)>, i: int) -> bool {
    &&& 0 <= i < given.len()
    &&& forall|k: int| i < k < given.len() ==> (#[trigger] given[k]).0@ != given[i].0@
}

/// What a list of policies holds.
proof fn last_policies_count(given: Seq<(String, TopicPolicy)>, name: Seq<char>)
    ensures
        topic::collected(given).contains_key(name) <==> exists|i: int|
            #[trigger] is_last(given, i) && given[i].0@ == name,
        forall|i: int|
            #[trigger] is_last(given, i) && given[i].0@ == name ==> topic::collected(given)[name]
                == given[i].1,
    decreases given.len(),
{
    if given.len() > 0 {
        let less = given.drop_last();
        let n = given.len() - 1;
        last_policies_count(less, name);
        if given[n].0@ == name {
            assert(is_last(given, n));
            assert forall|i: int| #[trigger] is_last(given, i) && given[i].0@ == name implies i
                == n by {
                if i < n {
                    assert(given[n].0@ != given[i].0@);
                }
            }
        } else {
            assert forall|i: int| given[i].0@ == name && 0 <= i < n implies #[trigger] is_last(
                given,
                i,
            ) == is_last(less, i) by {
                if is_last(less, i) {
                    assert forall|k: int| i < k < given.len() implies (#[trigger] given[k]).0@
                        != given[i].0@ by {
                        if k < n {
                            assert(less[k] == given[k]);
                        }
                    }
                }
                if is_last(given, i) {
                    assert forall|k: int| i < k < less.len() implies (#[trigger] less[k]).0@
                        != less[i].0@ by {
                        assert(less[k] == given[k]);
                    }
                }
            }
            if topic::collected(less).contains_key(name) {
                let i = choose|i: int| #[trigger] is_last(less, i) && less[i].0@ == name;
                assert(given[i].0@ == name);
                assert(is_last(given, i));
            }
            if exists|i: int| #[trigger] is_last(given, i) && given[i].0@ == name {
                let i = choose|i: int| #[trigger] is_last(given, i) && given[i].0@ == name;
                assert(is_last(less, i) && less[i].0@ == name);
            }
            assert forall|i: int| #[trigger] is_last(given, i) && given[i].0@ == name implies
                topic::collected(given)[name] == given[i].1 by {
                assert(is_last(less, i) && less[i].0@ == name);
            }
        }
    } else {
        assert forall|i: int| !#[trigger] is_last(given, i) by {}
    }
}

/// Policies are taken if every name in the list is one of a topic. Each name
/// then has the policy that the list gives it last, and no other name has one.
pub proof fn policies_are_taken(
    given: Vec<(String, TopicPolicy)>,
    made: Result<TopicPolicies, TopicError>,
    name: Seq<char>,
    i: int,
)
    requires
        call_ensures(TopicPolicies::new, (given,), made),
    ensures
        made is Ok <==> forall|k: int|
            0 <= k < given@.len() ==> (#[trigger] given@[k]).0@.len() > 0
                && vstd::utf8::encode_utf8(given@[k].0@).len() <= 1_024,
        made matches Ok(policies) ==> {
            &&& policies@.contains_key(name) <==> exists|k: int|
                #[trigger] is_last(given@, k) && given@[k].0@ == name
            &&& is_last(given@, i) ==> policies@.contains_key(given@[i].0@)
                && policies@[given@[i].0@] == given@[i].1
        },
{
    last_policies_count(given@, name);
    if is_last(given@, i) {
        last_policies_count(given@, given@[i].0@);
    }
    if made is Ok {
        assert forall|k: int| 0 <= k < given@.len() implies (#[trigger] given@[k]).0@.len() > 0
            && vstd::utf8::encode_utf8(given@[k].0@).len() <= 1_024 by {
            assert(topic::name_fault(given@[k].0@) is None);
        }
    } else {
        let error = made->Err_0;
        let k = choose|k: int| topic::is_first_fault(given@, k, error);
        assert(topic::name_fault(given@[k].0@) is Some);
    }
}

/// The policy of a topic is found by its name.
pub proof fn policies_are_found(policies: &TopicPolicies, name: &str, found: Option<TopicPolicy>)
    requires
        policies.wf(),
        call_ensures(TopicPolicies::get, (policies, name), found),
    ensures
        found is Some <==> policies@.contains_key(name@),
        found matches Some(policy) ==> policy == policies@[name@],
{
}

/// A selector for a topic asks for that topic alone, and one for all partitions
/// of a name asks for every topic of that name and for no other.
pub proof fn selectors_ask_for_topics(
    wanted: TopicKey,
    exact: TopicSelector,
    name: String,
    all: Result<TopicSelector, TopicError>,
    topic: &TopicKey,
    is_exact: bool,
    selector: &TopicSelector,
)
    requires
        call_ensures(TopicSelector::exact, (wanted,), exact),
        call_ensures(TopicSelector::all_partitions, (name,), all),
        call_ensures(TopicSelector::matches, (selector, topic), is_exact),
    ensures
        *selector == exact ==> (is_exact <==> topic@ == wanted@),
        all is Ok <==> name@.len() > 0 && vstd::utf8::encode_utf8(name@).len() <= 1_024,
        all matches Ok(made) ==> (*selector == made ==> (is_exact <==> topic@.name == name@)),
        is_exact <==> publishing::asks_for(selector@, topic@),
{
    if *selector == exact && is_exact {
        assert(topic@ =~= wanted@);
    }
}

/// What is said of a selector takes the place of what was said of it before, and
/// of no other selector.
pub proof fn subscribers_are_set(
    index: &mut DiscoveryIndex,
    selector: TopicSelector,
    nodes: Vec<NodeId>,
    other: SelectorView,
    node: NodeId,
)
    requires
        old(index).wf(),
        call_ensures(DiscoveryIndex::set_subscribers, (index, selector, nodes), ()),
    ensures
        final(index).wf(),
        final(index)@.contains_key(selector@),
        final(index)@[selector@].contains(node) <==> nodes@.contains(node),
        other != selector@ ==> final(index)@.contains_key(other) == old(index)@.contains_key(other)
            && final(index)@[other] == old(index)@[other],
{
}

/// The subscribers of a topic are the nodes that some selector which asks for it
/// has, each once and in ascending order.
pub proof fn subscribers_are_found(
    index: &DiscoveryIndex,
    topic: &TopicKey,
    nodes: Vec<NodeId>,
    node: NodeId,
)
    requires
        index.wf(),
        call_ensures(DiscoveryIndex::subscribers, (index, topic), nodes),
    ensures
        nodes@.contains(node) <==> exists|selector: SelectorView| #[trigger]
            index@.contains_key(selector) && publishing::asks_for(selector, topic@)
                && index@[selector].contains(node),
        forall|i: int, j: int|
            0 <= i < j < nodes@.len() ==> NodeId::before(
                #[trigger] nodes@[i],
                #[trigger] nodes@[j],
            ),
{
    let all = topic::subscribers_of(index@, topic@);
    assert(nodes@.contains(node) <==> all.contains(node));
    if topic::is_subscriber(index@, topic@, node) {
        let selector = choose|selector: SelectorView| #[trigger]
            index@.contains_key(selector) && topic::selects(selector, topic@)
                && index@[selector].contains(node);
        assert(publishing::asks_for(selector, topic@));
    }
    if exists|selector: SelectorView| #[trigger]
        index@.contains_key(selector) && publishing::asks_for(selector, topic@)
            && index@[selector].contains(node) {
        let selector = choose|selector: SelectorView| #[trigger]
            index@.contains_key(selector) && publishing::asks_for(selector, topic@)
                && index@[selector].contains(node);
        assert(topic::selects(selector, topic@));
    }
}

/// What is written of a message is read as that message.
pub proof fn messages_are_written_and_read(
    message: &Envelope,
    written: Result<Bytes, EnvelopeError>,
    encoded: Bytes,
    like: bool,
    read: Result<Envelope, EnvelopeError>,
)
    requires
        envelope::envelope_bytes(message@).len() <= buffer::MAX_BUFFERED,
        call_ensures(EnvelopeCodec::encode, (message,), written),
        written == Ok::<Bytes, EnvelopeError>(encoded),
        call_ensures(EnvelopeCodec::is_envelope, (&encoded,), like),
        call_ensures(EnvelopeCodec::decode, (encoded,), read),
    ensures
        like,
        read matches Ok(found) && found@ == message@,
{
    envelope::payload_fits(message@);
    envelope::written_envelopes_are_read_back(message@);
}

/// A message is written if it has a number and a topic, and only then read.
pub proof fn messages_have_numbers_and_topics(
    message: &Envelope,
    written: Result<Bytes, EnvelopeError>,
    encoded: Bytes,
    read: Result<Envelope, EnvelopeError>,
)
    requires
        call_ensures(EnvelopeCodec::encode, (message,), written),
        call_ensures(EnvelopeCodec::decode, (encoded,), read),
    ensures
        written is Ok <==> message@.seq > 0 && topic::topic_fault(message@.topic) is None,
        written matches Ok(bytes) ==> buffer::octets(bytes) == envelope::envelope_bytes(message@),
        read matches Ok(found) ==> found@.seq > 0 && topic::topic_fault(found@.topic) is None,
        read matches Err(error) ==> (error@ is NotPubSub <==> !envelope::is_envelope_like(
            buffer::octets(encoded),
        )),
{
    if read is Ok {
        envelope::read_envelopes_are_faultless(buffer::octets(encoded));
    }
}

/// The hash of bytes after others: each byte is mixed in by exclusive or, and
/// the result multiplied with 0x100000001b3.
pub open spec fn hashed(start: u64, bytes: Seq<u8>) -> u64
    decreases bytes.len(),
{
    if bytes.len() == 0 {
        start
    } else {
        hashed((start ^ (bytes[0] as u64)).wrapping_mul(0x100_0000_01b3), bytes.drop_first())
    }
}

/// The hash of bytes is mixed from the front as from the back.
proof fn hashes_agree(start: u64, bytes: Seq<u8>)
    ensures
        hashed(start, bytes) == hash::mixed_all(start, bytes),
    decreases bytes.len(),
{
    if bytes.len() > 0 {
        let next = (start ^ (bytes[0] as u64)).wrapping_mul(0x100_0000_01b3);
        let rest = bytes.drop_first();
        hashes_agree(next, rest);
        front_first(start, bytes);
    }
}

/// The first byte can be mixed in first.
proof fn front_first(start: u64, bytes: Seq<u8>)
    requires
        bytes.len() > 0,
    ensures
        hash::mixed_all(start, bytes) == hash::mixed_all(
            hash::mixed(start, bytes[0]),
            bytes.drop_first(),
        ),
    decreases bytes.len(),
{
    let less = bytes.drop_last();
    let rest = bytes.drop_first();
    let next = hash::mixed(start, bytes[0]);
    assert(hash::mixed_all(start, bytes) == hash::mixed(
        hash::mixed_all(start, less),
        bytes.last(),
    ));
    if bytes.len() == 1 {
        assert(hash::mixed_all(start, less) == start);
        assert(hash::mixed_all(next, rest) == next);
        assert(bytes.last() == bytes[0]);
    } else {
        front_first(start, less);
        assert(less[0] == bytes[0]);
        assert(rest.drop_last() =~= less.drop_first());
        assert(rest.last() == bytes.last());
        assert(hash::mixed_all(next, rest) == hash::mixed(
            hash::mixed_all(next, rest.drop_last()),
            rest.last(),
        ));
    }
}

/// Hashes in a row are the hash of the row.
proof fn hashes_add_up(start: u64, a: Seq<u8>, b: Seq<u8>)
    ensures
        hashed(hashed(start, a), b) == hashed(start, a + b),
    decreases a.len(),
{
    if a.len() == 0 {
        assert(a + b =~= b);
    } else {
        let next = (start ^ (a[0] as u64)).wrapping_mul(0x100_0000_01b3);
        hashes_add_up(next, a.drop_first(), b);
        assert((a + b).drop_first() =~= a.drop_first() + b);
    }
}

/// The hash of two parts is the FNV-1a hash, of sixty-four bits, of the two in a
/// row, each closed by the byte 255.
pub proof fn hashes_are_fnv(first: &[u8], second: &[u8], hash: u64)
    requires
        call_ensures(hash::stable_hash, (first, second), hash),
    ensures
        hash == hashed(
            0xcbf2_9ce4_8422_2325,
            first@ + seq![255u8] + second@ + seq![255u8],
        ),
{
    let start = 0xcbf2_9ce4_8422_2325u64;
    let end = seq![255u8];
    hashes_agree(start, first@);
    let a = hashed(start, first@);
    closed(a);
    hashes_add_up(start, first@, end);
    let b = hashed(start, first@ + end);
    hashes_agree(b, second@);
    let c = hashed(b, second@);
    hashes_add_up(start, first@ + end, second@);
    closed(c);
    hashes_add_up(start, first@ + end + second@, end);
}

/// The hash with the byte 255 mixed in.
proof fn closed(start: u64)
    ensures
        hashed(start, seq![255u8]) == hash::mixed(start, 0xff),
{
    let end = seq![255u8];
    assert(end.drop_first() =~= Seq::<u8>::empty());
    reveal_with_fuel(hashed, 2);
}

/// A core tells whose it is, a topic and a selector what they are made of, and a
/// subscription its number.
pub proof fn parts_are_told(
    core: &PubSub,
    me: NodeId,
    topic: &TopicKey,
    name: &str,
    partition: &Bytes,
    selector: &TopicSelector,
    asked: &str,
    part: Option<&Bytes>,
    number: u64,
    sub_id: SubId,
)
    requires
        call_ensures(PubSub::node_id, (core,), me),
        call_ensures(TopicKey::name, (topic,), name),
        call_ensures(TopicKey::partition, (topic,), partition),
        call_ensures(TopicSelector::name, (selector,), asked),
        call_ensures(TopicSelector::partition, (selector,), part),
        call_ensures(SubId::new, (number,), sub_id),
    ensures
        me == core@.me,
        name@ == topic@.name,
        buffer::octets(*partition) == topic@.partition,
        asked@ == selector@.name,
        part is Some <==> selector@.partition is Some,
        part matches Some(bytes) ==> selector@.partition == Some(buffer::octets(*bytes)),
        sub_id.value() == number,
{
}

/// A core can handle any event.
pub proof fn events_can_be_handled(core: PubSub, now: MonoTime, event: PubSubEvent)
    requires
        core.wf(),
        event matches PubSubEvent::DiscoveryUpdated(index) ==> index.wf(),
    ensures
        core.accepts(now, event),
{
}

} // verus!
