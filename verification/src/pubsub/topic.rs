//! Topics, the policies that govern them, and who subscribes to them.

use bytes::Bytes;
use vstd::prelude::*;
use crate::buffer;
use crate::order;
use crate::order::{Key, Rel};
use crate::ordered_map::OrderedMap;
use crate::text;
use crate::types::NodeId;
use crate::wire::packet::Priority;

verus! {

/// The longest name of a topic, in bytes.
pub const MAX_TOPIC_NAME_LEN: usize = 1_024;

/// The longest partition of a topic, in bytes.
pub const MAX_PARTITION_LEN: usize = 64 * 1_024;

/// A text in UTF-8.
pub open spec fn utf8(name: Seq<char>) -> Seq<u8> {
    vstd::utf8::encode_utf8(name)
}

/// Texts with the same bytes are the same.
proof fn same_utf8(a: Seq<char>, b: Seq<char>)
    requires
        utf8(a) == utf8(b),
    ensures
        a == b,
{
    vstd::utf8::encode_utf8_decode_utf8(a);
    vstd::utf8::encode_utf8_decode_utf8(b);
}

/// Any two texts are the same or ordered by their bytes.
proof fn texts_are_connected(a: Seq<char>, b: Seq<char>)
    ensures
        a == b || order::bytes_before(utf8(a), utf8(b)) || order::bytes_before(utf8(b), utf8(a)),
{
    order::bytes_before_connected(utf8(a), utf8(b));
    if utf8(a) == utf8(b) {
        same_utf8(a, b);
    }
}

/// Compares two texts by their bytes.
fn relate_texts(a: &String, b: &String) -> (rel: Rel)
    ensures
        (rel is Before) == order::bytes_before(utf8(a@), utf8(b@)),
        (rel is Same) == (a@ == b@),
        (rel is After) == order::bytes_before(utf8(b@), utf8(a@)),
{
    let rel = order::relate_bytes(a.as_str().as_bytes(), b.as_str().as_bytes());
    proof {
        if utf8(a@) == utf8(b@) {
            same_utf8(a@, b@);
        }
    }
    rel
}

impl Key for String {
    type Rank = Seq<char>;

    open spec fn rank(&self) -> Seq<char> {
        self@
    }

    open spec fn before(a: Seq<char>, b: Seq<char>) -> bool {
        order::bytes_before(utf8(a), utf8(b))
    }

    proof fn irreflexive(a: Seq<char>) {
        order::bytes_before_irreflexive(utf8(a));
    }

    proof fn transitive(a: Seq<char>, b: Seq<char>, c: Seq<char>) {
        order::bytes_before_transitive(utf8(a), utf8(b), utf8(c));
    }

    proof fn connected(a: Seq<char>, b: Seq<char>) {
        texts_are_connected(a, b);
    }

    fn relate(&self, other: &String) -> (rel: Rel) {
        relate_texts(self, other)
    }
}

/// Why something is not a topic.
#[derive(Clone, Copy, Debug, Eq, PartialEq, Structural)]
pub enum TopicError {
    EmptyName,
    NameTooLong(usize),
    PartitionTooLong(usize),
}

impl TopicError {
    /// The error in words.
    pub open spec fn words(self) -> Seq<char> {
        match self {
            TopicError::EmptyName => "topic name must not be empty"@,
            TopicError::NameTooLong(length) => "topic name length "@ + text::decimal(length as nat)
                + " exceeds the 1024 byte limit"@,
            TopicError::PartitionTooLong(length) => "topic partition length "@ + text::decimal(
                length as nat,
            ) + " exceeds the 65536 byte limit"@,
        }
    }

    /// The error in words.
    pub fn to_string(&self) -> (words: String)
        ensures
            words@ == self.words(),
    {
        match *self {
            TopicError::EmptyName => "topic name must not be empty".to_owned(),
            TopicError::NameTooLong(length) => {
                let mut words = "topic name length ".to_owned();
                text::append_decimal(&mut words, length as u64);
                words.append(" exceeds the 1024 byte limit");
                words
            },
            TopicError::PartitionTooLong(length) => {
                let mut words = "topic partition length ".to_owned();
                text::append_decimal(&mut words, length as u64);
                words.append(" exceeds the 65536 byte limit");
                words
            },
        }
    }
}

/// What a topic is: a name and a partition of it.
#[verifier::ext_equal]
pub struct TopicView {
    pub name: Seq<char>,
    pub partition: Seq<u8>,
}

/// What is wrong with a name and a partition, if anything is.
pub open spec fn topic_fault(topic: TopicView) -> Option<TopicError> {
    if topic.name.len() == 0 {
        Some(TopicError::EmptyName)
    } else if utf8(topic.name).len() > MAX_TOPIC_NAME_LEN {
        Some(TopicError::NameTooLong(utf8(topic.name).len() as usize))
    } else if topic.partition.len() > MAX_PARTITION_LEN {
        Some(TopicError::PartitionTooLong(topic.partition.len() as usize))
    } else {
        None
    }
}

/// Tells what is wrong with a name and a partition.
pub(crate) fn validate_topic(name: &str, partition: &[u8]) -> (valid: Result<(), TopicError>)
    ensures
        match valid {
            Ok(_) => topic_fault(TopicView { name: name@, partition: partition@ }) is None,
            Err(error) => topic_fault(TopicView { name: name@, partition: partition@ }) == Some(
                error,
            ),
        },
{
    if name.is_empty() {
        return Err(TopicError::EmptyName);
    }
    let bytes = name.as_bytes();
    if bytes.len() > MAX_TOPIC_NAME_LEN {
        return Err(TopicError::NameTooLong(bytes.len()));
    }
    if partition.len() > MAX_PARTITION_LEN {
        return Err(TopicError::PartitionTooLong(partition.len()));
    }
    Ok(())
}

/// A topic: a name and a partition of it.
#[derive(Debug, Eq, Hash, Ord, PartialEq, PartialOrd)]
pub struct TopicKey {
    name: String,
    partition: Bytes,
}

impl View for TopicKey {
    type V = TopicView;

    closed spec fn view(&self) -> TopicView {
        TopicView { name: self.name@, partition: buffer::octets(self.partition) }
    }
}

impl TopicKey {
    /// Name and partition are within their bounds.
    #[verifier::type_invariant]
    pub closed spec fn is_valid(self) -> bool {
        topic_fault(TopicView { name: self.name@, partition: buffer::octets(self.partition) })
            is None
    }

    /// Nothing is wrong with a valid topic.
    pub proof fn valid_is_faultless(self)
        ensures
            self.is_valid() == (topic_fault(self@) is None),
    {
    }

    /// The topic with this name and partition.
    pub fn new(name: String, partition: Bytes) -> (topic: Result<Self, TopicError>)
        ensures
            match topic {
                Ok(t) => {
                    &&& t@ == (TopicView { name: name@, partition: buffer::octets(partition) })
                    &&& topic_fault(t@) is None
                },
                Err(error) => topic_fault(
                    TopicView { name: name@, partition: buffer::octets(partition) },
                ) == Some(error),
            },
    {
        match validate_topic(name.as_str(), buffer::as_octets(&partition)) {
            Ok(_) => Ok(TopicKey { name, partition }),
            Err(error) => Err(error),
        }
    }

    /// The name of the topic.
    pub fn name(&self) -> (name: &str)
        ensures
            name@ == self@.name,
    {
        self.name.as_str()
    }

    /// The name of the topic, as it is kept.
    pub(crate) fn name_text(&self) -> (name: &String)
        ensures
            name@ == self@.name,
    {
        &self.name
    }

    /// The partition of the topic.
    pub fn partition(&self) -> (partition: &Bytes)
        ensures
            buffer::octets(*partition) == self@.partition,
    {
        &self.partition
    }
}

impl Clone for TopicKey {
    fn clone(&self) -> (copy: Self)
        ensures
            copy@ == self@,
    {
        proof {
            use_type_invariant(self);
        }
        TopicKey { name: self.name.clone(), partition: buffer::share(&self.partition) }
    }
}

/// Topics are ordered by name, and then by partition.
pub open spec fn topic_before(a: TopicView, b: TopicView) -> bool {
    ||| order::bytes_before(utf8(a.name), utf8(b.name))
    ||| a.name == b.name && order::bytes_before(a.partition, b.partition)
}

/// No topic comes before itself.
proof fn topic_irreflexive(a: TopicView)
    ensures
        !topic_before(a, a),
{
    order::bytes_before_irreflexive(utf8(a.name));
    order::bytes_before_irreflexive(a.partition);
}

/// The order of topics is transitive.
proof fn topic_transitive(a: TopicView, b: TopicView, c: TopicView)
    requires
        topic_before(a, b),
        topic_before(b, c),
    ensures
        topic_before(a, c),
{
    if order::bytes_before(utf8(a.name), utf8(b.name)) && order::bytes_before(
        utf8(b.name),
        utf8(c.name),
    ) {
        order::bytes_before_transitive(utf8(a.name), utf8(b.name), utf8(c.name));
    }
    if order::bytes_before(a.partition, b.partition) && order::bytes_before(
        b.partition,
        c.partition,
    ) {
        order::bytes_before_transitive(a.partition, b.partition, c.partition);
    }
}

/// Any two topics are equal or ordered.
proof fn topic_connected(a: TopicView, b: TopicView)
    ensures
        a == b || topic_before(a, b) || topic_before(b, a),
{
    texts_are_connected(a.name, b.name);
    order::bytes_before_connected(a.partition, b.partition);
}

impl TopicKey {
    /// Compares two topics by name, and then by partition.
    fn relate_topic(&self, other: &TopicKey) -> (rel: Rel)
        ensures
            (rel is Before) == topic_before(self@, other@),
            (rel is Same) == (self@ == other@),
            (rel is After) == topic_before(other@, self@),
    {
        proof {
            topic_irreflexive(self@);
            topic_irreflexive(other@);
            if topic_before(self@, other@) && topic_before(other@, self@) {
                topic_transitive(self@, other@, self@);
            }
        }
        match relate_texts(&self.name, &other.name) {
            Rel::Before => Rel::Before,
            Rel::After => Rel::After,
            Rel::Same => order::relate_bytes(
                buffer::as_octets(&self.partition),
                buffer::as_octets(&other.partition),
            ),
        }
    }
}

impl Key for TopicKey {
    type Rank = TopicView;

    open spec fn rank(&self) -> TopicView {
        self@
    }

    open spec fn before(a: TopicView, b: TopicView) -> bool {
        topic_before(a, b)
    }

    proof fn irreflexive(a: TopicView) {
        topic_irreflexive(a);
    }

    proof fn transitive(a: TopicView, b: TopicView, c: TopicView) {
        topic_transitive(a, b, c);
    }

    proof fn connected(a: TopicView, b: TopicView) {
        topic_connected(a, b);
    }

    fn relate(&self, other: &TopicKey) -> (rel: Rel) {
        self.relate_topic(other)
    }
}

/// Feeds, given by origin and topic, are ordered by origin, and then by topic.
pub open spec fn feed_before(a: (NodeId, TopicView), b: (NodeId, TopicView)) -> bool {
    order::bytes_before(a.0.bytes(), b.0.bytes()) || a.0 == b.0 && topic_before(a.1, b.1)
}

/// The order of feeds is transitive.
proof fn feed_transitive(a: (NodeId, TopicView), b: (NodeId, TopicView), c: (NodeId, TopicView))
    requires
        feed_before(a, b),
        feed_before(b, c),
    ensures
        feed_before(a, c),
{
    if order::bytes_before(a.0.bytes(), b.0.bytes()) && order::bytes_before(
        b.0.bytes(),
        c.0.bytes(),
    ) {
        order::bytes_before_transitive(a.0.bytes(), b.0.bytes(), c.0.bytes());
    }
    if topic_before(a.1, b.1) && topic_before(b.1, c.1) {
        topic_transitive(a.1, b.1, c.1);
    }
}

/// An origin and a topic: where a sequence of messages comes from.
impl Key for (NodeId, TopicKey) {
    type Rank = (NodeId, TopicView);

    open spec fn rank(&self) -> (NodeId, TopicView) {
        (self.0, self.1@)
    }

    open spec fn before(a: (NodeId, TopicView), b: (NodeId, TopicView)) -> bool {
        feed_before(a, b)
    }

    proof fn irreflexive(a: (NodeId, TopicView)) {
        order::bytes_before_irreflexive(a.0.bytes());
        topic_irreflexive(a.1);
    }

    proof fn transitive(a: (NodeId, TopicView), b: (NodeId, TopicView), c: (NodeId, TopicView)) {
        feed_transitive(a, b, c);
    }

    proof fn connected(a: (NodeId, TopicView), b: (NodeId, TopicView)) {
        NodeId::ids_are_connected(a.0, b.0);
        topic_connected(a.1, b.1);
    }

    fn relate(&self, other: &(NodeId, TopicKey)) -> (rel: Rel) {
        proof {
            order::bytes_before_irreflexive(self.0.bytes());
            topic_irreflexive(self.1@);
            if feed_before(self.rank(), other.rank()) && feed_before(other.rank(), self.rank()) {
                feed_transitive(self.rank(), other.rank(), self.rank());
            }
        }
        match self.0.relate_id(&other.0) {
            Rel::Before => Rel::Before,
            Rel::After => Rel::After,
            Rel::Same => self.1.relate_topic(&other.1),
        }
    }
}

/// What a subscriber wants of a topic.
#[derive(Clone, Copy, Debug, Eq, PartialEq, Structural)]
pub enum TopicMode {
    Log,
    Latest,
}

/// How messages of a topic are carried.
#[derive(Clone, Copy, Debug, Eq, PartialEq, Structural)]
pub struct TopicPolicy {
    pub priority: Priority,
    pub mode: TopicMode,
}

/// The policies of all known topics, by name.
#[derive(Clone, Debug, Eq, PartialEq)]
pub struct TopicPolicies {
    policies: OrderedMap<String, TopicPolicy>,
}

impl View for TopicPolicies {
    type V = Map<Seq<char>, TopicPolicy>;

    closed spec fn view(&self) -> Map<Seq<char>, TopicPolicy> {
        self.policies@
    }
}

/// What is wrong with a name of a topic, if anything is.
pub open spec fn name_fault(name: Seq<char>) -> Option<TopicError> {
    topic_fault(TopicView { name, partition: Seq::empty() })
}

/// The policies that a list gives; for a name that occurs more than once the
/// last one counts.
pub open spec fn collected(policies: Seq<(String, TopicPolicy)>) -> Map<Seq<char>, TopicPolicy>
    decreases policies.len(),
{
    if policies.len() == 0 {
        Map::empty()
    } else {
        collected(policies.drop_last()).insert(policies.last().0@, policies.last().1)
    }
}

/// The first name of a list that is no name of a topic, with what is wrong
/// with it.
pub open spec fn is_first_fault(policies: Seq<(String, TopicPolicy)>, i: int, error: TopicError) -> bool {
    &&& 0 <= i < policies.len()
    &&& name_fault(policies[i].0@) == Some(error)
    &&& forall|k: int| 0 <= k < i ==> name_fault((#[trigger] policies[k]).0@) is None
}

impl TopicPolicies {
    /// The names are in ascending order.
    pub closed spec fn wf(&self) -> bool {
        self.policies.wf()
    }

    /// The policies of a list, unless one of its names is no name of a topic.
    pub fn new(policies: Vec<(String, TopicPolicy)>) -> (all: Result<Self, TopicError>)
        ensures
            match all {
                Ok(a) => {
                    &&& a.wf()
                    &&& a@ == collected(policies@)
                    &&& forall|k: int|
                        0 <= k < policies@.len() ==> name_fault((#[trigger] policies@[k]).0@)
                            is None
                },
                Err(error) => exists|i: int| is_first_fault(policies@, i, error),
            },
    {
        let mut all: OrderedMap<String, TopicPolicy> = OrderedMap::new();
        let mut i: usize = 0;
        let nothing: Vec<u8> = Vec::new();
        assert(nothing@ =~= Seq::<u8>::empty());
        while i < policies.len()
            invariant
                i <= policies@.len(),
                all.wf(),
                nothing@ == Seq::<u8>::empty(),
                all@ == collected(policies@.take(i as int)),
                forall|k: int| 0 <= k < i ==> name_fault((#[trigger] policies@[k]).0@) is None,
            decreases policies@.len() - i,
        {
            match validate_topic(policies[i].0.as_str(), nothing.as_slice()) {
                Ok(_) => {},
                Err(error) => {
                    assert(is_first_fault(policies@, i as int, error));
                    return Err(error);
                },
            }
            all.insert(policies[i].0.clone(), policies[i].1);
            proof {
                let more = policies@.take(i + 1);
                assert(more.drop_last() =~= policies@.take(i as int));
                assert(more.last() == policies@[i as int]);
            }
            i = i + 1;
        }
        assert(policies@.take(i as int) =~= policies@);
        Ok(TopicPolicies { policies: all })
    }

    /// The policy of a topic.
    pub fn get(&self, topic_name: &str) -> (policy: Option<TopicPolicy>)
        requires
            self.wf(),
        ensures
            policy == if self@.contains_key(topic_name@) {
                Some(self@[topic_name@])
            } else {
                None
            },
    {
        match self.policies.get(&topic_name.to_owned()) {
            Some(policy) => Some(*policy),
            None => None,
        }
    }
}

impl Default for TopicPolicies {
    /// No policies.
    fn default() -> (policies: Self)
        ensures
            policies.wf(),
            policies@ == Map::<Seq<char>, TopicPolicy>::empty(),
    {
        TopicPolicies { policies: OrderedMap::new() }
    }
}

/// A local subscription.
#[derive(Clone, Copy, Debug, Eq, Hash, Ord, PartialEq, PartialOrd, Structural)]
pub struct SubId(u64);

impl SubId {
    /// The number of the subscription.
    pub closed spec fn value(&self) -> u64 {
        self.0
    }

    /// The subscription with the given number.
    pub fn new(value: u64) -> (id: Self)
        ensures
            id.value() == value,
    {
        SubId(value)
    }

    /// The number of the subscription.
    pub fn get(self) -> (value: u64)
        ensures
            value == self.value(),
    {
        self.0
    }
}

impl Key for SubId {
    type Rank = SubId;

    open spec fn rank(&self) -> SubId {
        *self
    }

    open spec fn before(a: SubId, b: SubId) -> bool {
        a.value() < b.value()
    }

    proof fn irreflexive(a: SubId) {
    }

    proof fn transitive(a: SubId, b: SubId, c: SubId) {
    }

    proof fn connected(a: SubId, b: SubId) {
    }

    fn relate(&self, other: &SubId) -> (rel: Rel) {
        if self.0 < other.0 {
            Rel::Before
        } else if self.0 == other.0 {
            Rel::Same
        } else {
            Rel::After
        }
    }
}

/// What a selector asks for: a topic by name, in one partition or in all.
#[verifier::ext_equal]
pub struct SelectorView {
    pub name: Seq<char>,
    pub partition: Option<Seq<u8>>,
}

/// The selector asks for the topic.
pub open spec fn selects(selector: SelectorView, topic: TopicView) -> bool {
    &&& selector.name == topic.name
    &&& (selector.partition matches Some(partition) ==> partition == topic.partition)
}

/// Selectors are ordered by name; all partitions come before any one of them.
pub open spec fn selector_before(a: SelectorView, b: SelectorView) -> bool {
    ||| order::bytes_before(utf8(a.name), utf8(b.name))
    ||| a.name == b.name && match (a.partition, b.partition) {
        (None, Some(_)) => true,
        (Some(p), Some(q)) => order::bytes_before(p, q),
        _ => false,
    }
}

/// No selector comes before itself.
proof fn selector_irreflexive(a: SelectorView)
    ensures
        !selector_before(a, a),
{
    order::bytes_before_irreflexive(utf8(a.name));
    if let Some(p) = a.partition {
        order::bytes_before_irreflexive(p);
    }
}

/// The order of selectors is transitive.
proof fn selector_transitive(a: SelectorView, b: SelectorView, c: SelectorView)
    requires
        selector_before(a, b),
        selector_before(b, c),
    ensures
        selector_before(a, c),
{
    if order::bytes_before(utf8(a.name), utf8(b.name)) && order::bytes_before(
        utf8(b.name),
        utf8(c.name),
    ) {
        order::bytes_before_transitive(utf8(a.name), utf8(b.name), utf8(c.name));
    }
    match (a.partition, b.partition, c.partition) {
        (Some(p), Some(q), Some(r)) => {
            if order::bytes_before(p, q) && order::bytes_before(q, r) {
                order::bytes_before_transitive(p, q, r);
            }
        },
        _ => {},
    }
}

/// What a subscriber asks for: a topic by name, in one partition or in all.
#[derive(Debug, Eq, Hash, Ord, PartialEq, PartialOrd)]
pub struct TopicSelector {
    name: String,
    partition: Option<Bytes>,
}

impl View for TopicSelector {
    type V = SelectorView;

    closed spec fn view(&self) -> SelectorView {
        SelectorView {
            name: self.name@,
            partition: match self.partition {
                Some(partition) => Some(buffer::octets(partition)),
                None => None,
            },
        }
    }
}

impl TopicSelector {
    /// Asks for one topic.
    pub fn exact(topic: TopicKey) -> (selector: Self)
        ensures
            selector@ == (SelectorView {
                name: topic@.name,
                partition: Some(topic@.partition),
            }),
    {
        TopicSelector { name: topic.name, partition: Some(topic.partition) }
    }

    /// Asks for all partitions of a name.
    pub fn all_partitions(name: String) -> (selector: Result<Self, TopicError>)
        ensures
            match selector {
                Ok(s) => {
                    &&& name_fault(name@) is None
                    &&& s@ == (SelectorView { name: name@, partition: None })
                },
                Err(error) => name_fault(name@) == Some(error),
            },
    {
        let nothing: Vec<u8> = Vec::new();
        assert(nothing@ =~= Seq::<u8>::empty());
        match validate_topic(name.as_str(), nothing.as_slice()) {
            Ok(_) => Ok(TopicSelector { name, partition: None }),
            Err(error) => Err(error),
        }
    }

    /// Whether the selector asks for the topic.
    pub fn matches(&self, topic: &TopicKey) -> (matched: bool)
        ensures
            matched == selects(self@, topic@),
    {
        if self.name != topic.name {
            return false;
        }
        match &self.partition {
            None => true,
            Some(partition) => match order::relate_bytes(
                buffer::as_octets(partition),
                buffer::as_octets(&topic.partition),
            ) {
                Rel::Same => true,
                _ => false,
            },
        }
    }

    /// The name that the selector asks for.
    pub fn name(&self) -> (name: &str)
        ensures
            name@ == self@.name,
    {
        self.name.as_str()
    }

    /// The partition that the selector asks for, unless it asks for all.
    pub fn partition(&self) -> (partition: Option<&Bytes>)
        ensures
            match partition {
                Some(p) => self@.partition == Some(buffer::octets(*p)),
                None => self@.partition is None,
            },
    {
        match &self.partition {
            Some(partition) => Some(partition),
            None => None,
        }
    }
}

impl Clone for TopicSelector {
    fn clone(&self) -> (copy: Self)
        ensures
            copy@ == self@,
    {
        let partition = match &self.partition {
            Some(partition) => Some(buffer::share(partition)),
            None => None,
        };
        TopicSelector { name: self.name.clone(), partition }
    }
}

impl Key for TopicSelector {
    type Rank = SelectorView;

    open spec fn rank(&self) -> SelectorView {
        self@
    }

    open spec fn before(a: SelectorView, b: SelectorView) -> bool {
        selector_before(a, b)
    }

    proof fn irreflexive(a: SelectorView) {
        selector_irreflexive(a);
    }

    proof fn transitive(a: SelectorView, b: SelectorView, c: SelectorView) {
        selector_transitive(a, b, c);
    }

    proof fn connected(a: SelectorView, b: SelectorView) {
        texts_are_connected(a.name, b.name);
        match (a.partition, b.partition) {
            (Some(p), Some(q)) => {
                order::bytes_before_connected(p, q);
            },
            _ => {},
        }
    }

    fn relate(&self, other: &TopicSelector) -> (rel: Rel) {
        proof {
            selector_irreflexive(self@);
            if selector_before(self@, other@) && selector_before(other@, self@) {
                selector_transitive(self@, other@, self@);
            }
        }
        match relate_texts(&self.name, &other.name) {
            Rel::Before => Rel::Before,
            Rel::After => Rel::After,
            Rel::Same => match (&self.partition, &other.partition) {
                (None, None) => Rel::Same,
                (None, Some(_)) => Rel::Before,
                (Some(_), None) => Rel::After,
                (Some(p), Some(q)) => order::relate_bytes(
                    buffer::as_octets(p),
                    buffer::as_octets(q),
                ),
            },
        }
    }
}

/// Which nodes subscribe to what.
#[derive(Clone, Debug, Eq, PartialEq)]
pub struct DiscoveryIndex {
    subscribers: OrderedMap<TopicSelector, OrderedMap<NodeId, ()>>,
}

impl View for DiscoveryIndex {
    type V = Map<SelectorView, Set<NodeId>>;

    closed spec fn view(&self) -> Map<SelectorView, Set<NodeId>> {
        Map::new(
            |selector: SelectorView| self.subscribers@.contains_key(selector),
            |selector: SelectorView| self.subscribers@[selector]@.dom(),
        )
    }
}

/// Some selector for the topic has the node among its subscribers.
pub open spec fn is_subscriber(
    index: Map<SelectorView, Set<NodeId>>,
    topic: TopicView,
    node: NodeId,
) -> bool {
    exists|selector: SelectorView| #[trigger]
        index.contains_key(selector) && selects(selector, topic) && index[selector].contains(node)
}

/// The nodes that subscribe to a topic.
pub open spec fn subscribers_of(index: Map<SelectorView, Set<NodeId>>, topic: TopicView) -> Set<
    NodeId,
> {
    Set::new(|node: NodeId| is_subscriber(index, topic, node))
}

/// The subscribers of finitely many selectors are among finitely many nodes.
proof fn some_nodes_hold_all(
    index: Map<SelectorView, Set<NodeId>>,
    selectors: Set<SelectorView>,
) -> (nodes: Set<NodeId>)
    requires
        selectors.finite(),
        forall|selector: SelectorView| #[trigger]
            selectors.contains(selector) ==> index[selector].finite(),
    ensures
        nodes.finite(),
        forall|selector: SelectorView| #[trigger]
            selectors.contains(selector) ==> index[selector].subset_of(nodes),
    decreases selectors.len(),
{
    if selectors.len() == 0 {
        Set::empty()
    } else {
        let one = selectors.choose();
        let rest = selectors.remove(one);
        let less = some_nodes_hold_all(index, rest);
        let nodes = less.union(index[one]);
        assert forall|selector: SelectorView| #[trigger]
            selectors.contains(selector) implies index[selector].subset_of(nodes) by {
            if selector != one {
                assert(rest.contains(selector));
            }
        }
        nodes
    }
}

impl DiscoveryIndex {
    /// A topic has finitely many subscribers.
    pub proof fn subscribers_are_finite(&self, topic: TopicView)
        requires
            self.wf(),
        ensures
            subscribers_of(self@, topic).finite(),
    {
        self.subscribers.ranks_list_domain();
        assert(self@.dom() =~= self.subscribers@.dom());
        assert forall|selector: SelectorView| #[trigger]
            self@.dom().contains(selector) implies self@[selector].finite() by {
            self.subscribers@[selector].ranks_list_domain();
        }
        let nodes = some_nodes_hold_all(self@, self@.dom());
        let goal = subscribers_of(self@, topic);
        assert forall|node: NodeId| goal.contains(node) implies nodes.contains(node) by {
            let selector = choose|selector: SelectorView| #[trigger]
                self@.contains_key(selector) && selects(selector, topic)
                    && self@[selector].contains(node);
            assert(self@.dom().contains(selector));
        }
        vstd::set_lib::lemma_set_subset_finite(nodes, goal);
    }

    /// Selectors and nodes are in ascending order.
    pub closed spec fn wf(&self) -> bool {
        &&& self.subscribers.wf()
        &&& forall|selector: SelectorView| #[trigger]
            self.subscribers@.contains_key(selector) ==> self.subscribers@[selector].wf()
    }

    /// Says who subscribes to what a selector asks for, in place of what was
    /// said of it before.
    pub fn set_subscribers(&mut self, selector: TopicSelector, subscribers: Vec<NodeId>)
        requires
            old(self).wf(),
        ensures
            final(self).wf(),
            final(self)@ == old(self)@.insert(selector@, subscribers@.to_set()),
    {
        let mut nodes: OrderedMap<NodeId, ()> = OrderedMap::new();
        let mut i: usize = 0;
        while i < subscribers.len()
            invariant
                i <= subscribers@.len(),
                nodes.wf(),
                nodes@.dom() == subscribers@.take(i as int).to_set(),
            decreases subscribers@.len() - i,
        {
            nodes.insert(subscribers[i], ());
            proof {
                let less = subscribers@.take(i as int);
                let more = subscribers@.take(i + 1);
                assert(more =~= less.push(subscribers@[i as int]));
                assert forall|n: NodeId| #[trigger] more.to_set().contains(n) <==> less.to_set().insert(
                    subscribers@[i as int],
                ).contains(n) by {
                    if less.contains(n) {
                        let k = choose|k: int| 0 <= k < less.len() && less[k] == n;
                        assert(more[k] == n);
                    }
                    if n == subscribers@[i as int] {
                        assert(more[i as int] == n);
                    }
                }
                assert(nodes@.dom() =~= more.to_set());
            }
            i = i + 1;
        }
        assert(subscribers@.take(i as int) =~= subscribers@);
        let ghost before = self@;
        let ghost asked = selector@;
        self.subscribers.insert(selector, nodes);
        assert(self@ =~= before.insert(asked, subscribers@.to_set()));
    }

    /// The nodes that subscribe to a topic, in ascending order.
    pub fn subscribers(&self, topic: &TopicKey) -> (nodes: Vec<NodeId>)
        requires
            self.wf(),
        ensures
            nodes@ == order::ascending::<NodeId>(subscribers_of(self@, topic@)),
            order::lists::<NodeId>(nodes@, subscribers_of(self@, topic@)),
    {
        let mut all: OrderedMap<NodeId, ()> = OrderedMap::new();
        let mut i: usize = 0;
        proof {
            self.subscribers.ranks_list_domain();
        }
        while i < self.subscribers.len()
            invariant
                self.wf(),
                all.wf(),
                i <= self.subscribers.ranks().len(),
                forall|node: NodeId| #[trigger]
                    all@.contains_key(node) ==> is_subscriber(self@, topic@, node),
                forall|k: int, node: NodeId|
                    #![trigger self.subscribers.ranks()[k], all@.contains_key(node)]
                    0 <= k < i && selects(self.subscribers.ranks()[k], topic@)
                        && self@[self.subscribers.ranks()[k]].contains(node) ==> all@.contains_key(
                        node,
                    ),
            decreases self.subscribers.ranks().len() - i,
        {
            let selector: &TopicSelector = self.subscribers.key_at(i);
            let nodes: &OrderedMap<NodeId, ()> = self.subscribers.value_at(i);
            let ghost asked = self.subscribers.ranks()[i as int];
            let ghost before = all@;
            if selector.matches(topic) {
                let mut j: usize = 0;
                proof {
                    nodes.ranks_list_domain();
                    assert(self@[asked] == nodes@.dom());
                }
                while j < nodes.len()
                    invariant
                        nodes.wf(),
                        all.wf(),
                        j <= nodes.ranks().len(),
                        order::lists::<NodeId>(nodes.ranks(), nodes@.dom()),
                        self@.contains_key(asked),
                        selects(asked, topic@),
                        self@[asked] == nodes@.dom(),
                        forall|node: NodeId| #[trigger]
                            all@.contains_key(node) ==> is_subscriber(self@, topic@, node),
                        forall|node: NodeId| #[trigger]
                            before.contains_key(node) ==> all@.contains_key(node),
                        forall|k: int|
                            0 <= k < j ==> all@.contains_key(#[trigger] nodes.ranks()[k]),
                    decreases nodes.ranks().len() - j,
                {
                    let node: NodeId = *nodes.key_at(j);
                    assert(is_subscriber(self@, topic@, node)) by {
                        assert(self@.contains_key(asked) && selects(asked, topic@)
                            && self@[asked].contains(node));
                    }
                    all.insert(node, ());
                    j = j + 1;
                }
                proof {
                    assert forall|node: NodeId| self@[asked].contains(node) implies all@.contains_key(
                        node,
                    ) by {
                        assert(nodes.ranks().contains(node));
                    }
                }
            }
            proof {
                assert forall|k: int, node: NodeId|
                    #![trigger self.subscribers.ranks()[k], all@.contains_key(node)]
                    0 <= k < i + 1 && selects(self.subscribers.ranks()[k], topic@)
                        && self@[self.subscribers.ranks()[k]].contains(
                        node,
                    ) implies all@.contains_key(node) by {
                    if k < i {
                        assert(before.contains_key(node));
                    }
                }
            }
            i = i + 1;
        }
        proof {
            let goal = subscribers_of(self@, topic@);
            assert forall|node: NodeId| goal.contains(node) implies all@.contains_key(node) by {
                let selector = choose|selector: SelectorView| #[trigger]
                    self@.contains_key(selector) && selects(selector, topic@)
                        && self@[selector].contains(node);
                assert(self.subscribers@.dom().contains(selector));
                assert(self.subscribers.ranks().contains(selector));
                let k = choose|k: int|
                    0 <= k < self.subscribers.ranks().len() && self.subscribers.ranks()[k]
                        == selector;
                assert(self.subscribers.ranks()[k] == selector);
            }
            assert(all@.dom() =~= goal);
            all.ranks_list_domain();
        }
        let mut nodes: Vec<NodeId> = Vec::new();
        let mut n: usize = 0;
        while n < all.len()
            invariant
                all.wf(),
                n <= all.ranks().len(),
                nodes@ == all.ranks().take(n as int),
            decreases all.ranks().len() - n,
        {
            nodes.push(*all.key_at(n));
            assert(nodes@ =~= all.ranks().take(n + 1));
            n = n + 1;
        }
        assert(nodes@ =~= all.ranks());
        nodes
    }
}

impl Default for DiscoveryIndex {
    /// No subscribers.
    fn default() -> (index: Self)
        ensures
            index.wf(),
            index@ == Map::<SelectorView, Set<NodeId>>::empty(),
    {
        let index = DiscoveryIndex { subscribers: OrderedMap::new() };
        assert(index@ =~= Map::<SelectorView, Set<NodeId>>::empty());
        index
    }
}

} // verus!
