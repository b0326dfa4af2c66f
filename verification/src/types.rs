//! Identities and time shared by every component.

use std::cmp::Ordering;
use vstd::prelude::*;
use crate::order;
use crate::order::{Key, Rel};
use crate::text;

verus! {

/// Stable identity of a mesh node.
///
/// Production nodes derive this value from the SHA-256 digest of their public
/// key. Routing code does not depend on how an identity is produced.
#[derive(Clone, Copy, Debug, Eq, Hash, Ord)]
pub struct NodeId([u8; 32]);

impl NodeId {
    /// The bytes of the identity.
    pub closed spec fn bytes(&self) -> Seq<u8> {
        self.0@
    }

    /// An identity has thirty-two bytes.
    pub proof fn bytes_len(&self)
        ensures
            self.bytes().len() == 32,
    {
    }

    /// Two identities with the same bytes are the same.
    pub proof fn same_bytes(a: NodeId, b: NodeId)
        requires
            a.bytes() == b.bytes(),
        ensures
            a == b,
    {
        assert forall|i: int| 0 <= i < 32 implies a.0[i] == b.0[i] by {
            assert(a.bytes()[i] == b.bytes()[i]);
        }
        assert(a.0 =~= b.0);
    }

    /// The identity with the given bytes.
    pub open spec fn of(bytes: Seq<u8>) -> NodeId {
        choose|id: NodeId| id.bytes() == bytes
    }

    /// An identity is the one with its bytes.
    pub proof fn of_own_bytes(self)
        ensures
            NodeId::of(self.bytes()) == self,
    {
        NodeId::same_bytes(NodeId::of(self.bytes()), self);
    }

    /// Some array starts with the first `n` bytes.
    proof fn array_with(bytes: Seq<u8>, n: int) -> (array: [u8; 32])
        requires
            bytes.len() == 32,
            0 <= n <= 32,
        ensures
            forall|i: int| 0 <= i < n ==> array@[i] == bytes[i],
        decreases n,
    {
        if n == 0 {
            arbitrary()
        } else {
            let less = NodeId::array_with(bytes, n - 1);
            vstd::array::spec_array_update(less, n - 1, bytes[n - 1])
        }
    }

    /// Any thirty-two bytes are those of an identity.
    pub proof fn bytes_of(bytes: Seq<u8>)
        requires
            bytes.len() == 32,
        ensures
            NodeId::of(bytes).bytes() == bytes,
    {
        let array = NodeId::array_with(bytes, 32);
        assert(NodeId(array).bytes() =~= bytes);
    }

    /// The identity whose bytes start at `begin`.
    pub(crate) fn read(bytes: &[u8], begin: usize) -> (id: NodeId)
        requires
            begin + 32 <= bytes@.len(),
        ensures
            id.bytes() == bytes@.subrange(begin as int, begin + 32),
            id == NodeId::of(bytes@.subrange(begin as int, begin + 32)),
    {
        let end: usize = bytes.len();
        let mut array: [u8; 32] = [0u8; 32];
        let mut i: usize = 0;
        while i < 32
            invariant
                i <= 32,
                begin + 32 <= end,
                end == bytes@.len(),
                forall|k: int| 0 <= k < i ==> array@[k] == bytes@[begin + k],
            decreases 32 - i,
        {
            array[i] = bytes[begin + i];
            i = i + 1;
        }
        let id = NodeId(array);
        proof {
            assert(id.bytes() =~= bytes@.subrange(begin as int, begin + 32));
            id.of_own_bytes();
        }
        id
    }

    /// The identity with the given bytes.
    pub fn from_bytes(bytes: [u8; 32]) -> (id: Self)
        ensures
            id.bytes() == bytes@,
            id == NodeId::of(bytes@),
    {
        let id = NodeId(bytes);
        proof {
            id.of_own_bytes();
        }
        id
    }

    /// The bytes of the identity.
    pub fn as_bytes(&self) -> (bytes: &[u8; 32])
        ensures
            bytes@ == self.bytes(),
    {
        &self.0
    }

    /// Any two identities are the same or ordered by their bytes.
    pub proof fn ids_are_connected(a: NodeId, b: NodeId)
        ensures
            a == b || order::bytes_before(a.bytes(), b.bytes()) || order::bytes_before(
                b.bytes(),
                a.bytes(),
            ),
    {
        order::bytes_before_connected(a.bytes(), b.bytes());
        if a.bytes() == b.bytes() {
            NodeId::same_bytes(a, b);
        }
    }

    /// Compares two identities by their bytes.
    pub(crate) fn relate_id(&self, other: &NodeId) -> (rel: Rel)
        ensures
            (rel is Before) == order::bytes_before(self.bytes(), other.bytes()),
            (rel is Same) == (*self == *other),
            (rel is After) == order::bytes_before(other.bytes(), self.bytes()),
    {
        let rel = order::relate_bytes(self.0.as_slice(), other.0.as_slice());
        proof {
            if self.bytes() == other.bytes() {
                NodeId::same_bytes(*self, *other);
            }
        }
        rel
    }

    /// The identity in lower-case hexadecimal, two digits for each byte.
    pub fn to_string(&self) -> (text: String)
        ensures
            text@ == text::hex(self.bytes()),
            text@.len() == 64,
    {
        text::hex_text(self.0.as_slice())
    }
}

impl PartialEq for NodeId {
    fn eq(&self, other: &NodeId) -> (same: bool) {
        let mut i: usize = 0;
        while i < 32
            invariant
                i <= 32,
                forall|j: int| 0 <= j < i ==> self.0[j] == other.0[j],
            decreases 32 - i,
        {
            if self.0[i] != other.0[i] {
                return false;
            }
            i = i + 1;
        }
        assert(self.0 =~= other.0);
        true
    }
}

impl vstd::std_specs::cmp::PartialEqSpecImpl for NodeId {
    open spec fn obeys_eq_spec() -> bool {
        true
    }

    open spec fn eq_spec(&self, other: &NodeId) -> bool {
        *self == *other
    }
}

impl PartialOrd for NodeId {
    fn partial_cmp(&self, other: &NodeId) -> (order: Option<Ordering>) {
        match self.relate_id(other) {
            Rel::Before => Some(Ordering::Less),
            Rel::Same => Some(Ordering::Equal),
            Rel::After => Some(Ordering::Greater),
        }
    }
}

impl vstd::std_specs::cmp::PartialOrdSpecImpl for NodeId {
    open spec fn obeys_partial_cmp_spec() -> bool {
        true
    }

    /// Identities are ordered by their bytes.
    open spec fn partial_cmp_spec(&self, other: &NodeId) -> Option<Ordering> {
        if order::bytes_before(self.bytes(), other.bytes()) {
            Some(Ordering::Less)
        } else if *self == *other {
            Some(Ordering::Equal)
        } else {
            Some(Ordering::Greater)
        }
    }
}

/// An identity is the one that is made of its bytes, any thirty-two bytes are
/// those of one, and identities are ordered as their bytes are.
pub proof fn identities_are_their_bytes(a: NodeId, b: NodeId, bytes: Seq<u8>)
    ensures
        NodeId::of(a.bytes()) == a,
        bytes.len() == 32 ==> NodeId::of(bytes).bytes() == bytes,
        vstd::std_specs::cmp::PartialOrdIs::is_lt(&a, &b) <==> order::bytes_before(
            a.bytes(),
            b.bytes(),
        ),
        a == b <==> a.bytes() == b.bytes(),
{
    a.of_own_bytes();
    if bytes.len() == 32 {
        NodeId::bytes_of(bytes);
    }
    if a.bytes() == b.bytes() {
        NodeId::same_bytes(a, b);
    }
}

impl Default for NodeId {
    /// The identity whose bytes are all zero.
    fn default() -> (id: Self)
        ensures
            id.bytes() == Seq::new(32, |i: int| 0u8),
    {
        let id = NodeId([0u8; 32]);
        assert(id.bytes() =~= Seq::new(32, |i: int| 0u8));
        id
    }
}

impl Key for NodeId {
    type Rank = NodeId;

    open spec fn rank(&self) -> NodeId {
        *self
    }

    open spec fn before(a: NodeId, b: NodeId) -> bool {
        order::bytes_before(a.bytes(), b.bytes())
    }

    proof fn irreflexive(a: NodeId) {
        order::bytes_before_irreflexive(a.bytes());
    }

    proof fn transitive(a: NodeId, b: NodeId, c: NodeId) {
        order::bytes_before_transitive(a.bytes(), b.bytes(), c.bytes());
    }

    proof fn connected(a: NodeId, b: NodeId) {
        NodeId::ids_are_connected(a, b);
    }

    fn relate(&self, other: &NodeId) -> (rel: Rel) {
        self.relate_id(other)
    }
}

/// Identifier of one local link incarnation.
///
/// A reconnect creates a new `LinkId`, even when the peer is unchanged.
#[derive(Clone, Copy, Debug, Eq, Hash, Ord, PartialEq, Structural)]
pub struct LinkId(u64);

impl LinkId {
    /// The number of the link.
    pub closed spec fn value(&self) -> u64 {
        self.0
    }

    /// Two links with one number are the same.
    pub proof fn same_value(a: LinkId, b: LinkId)
        requires
            a.value() == b.value(),
        ensures
            a == b,
    {
    }

    /// The link with the given number.
    pub fn new(value: u64) -> (link: Self)
        ensures
            link.value() == value,
    {
        LinkId(value)
    }

    /// The number of the link.
    pub fn get(self) -> (value: u64)
        ensures
            value == self.value(),
    {
        self.0
    }
}

impl PartialOrd for LinkId {
    fn partial_cmp(&self, other: &LinkId) -> (order: Option<Ordering>) {
        if self.0 < other.0 {
            Some(Ordering::Less)
        } else if self.0 == other.0 {
            Some(Ordering::Equal)
        } else {
            Some(Ordering::Greater)
        }
    }
}

impl vstd::std_specs::cmp::PartialOrdSpecImpl for LinkId {
    open spec fn obeys_partial_cmp_spec() -> bool {
        true
    }

    /// Links are ordered by their numbers.
    open spec fn partial_cmp_spec(&self, other: &LinkId) -> Option<Ordering> {
        if self.value() < other.value() {
            Some(Ordering::Less)
        } else if self.value() == other.value() {
            Some(Ordering::Equal)
        } else {
            Some(Ordering::Greater)
        }
    }
}

impl Key for LinkId {
    type Rank = LinkId;

    open spec fn rank(&self) -> LinkId {
        *self
    }

    open spec fn before(a: LinkId, b: LinkId) -> bool {
        a.value() < b.value()
    }

    proof fn irreflexive(a: LinkId) {
    }

    proof fn transitive(a: LinkId, b: LinkId, c: LinkId) {
    }

    proof fn connected(a: LinkId, b: LinkId) {
    }

    fn relate(&self, other: &LinkId) -> (rel: Rel) {
        if self.0 < other.0 {
            Rel::Before
        } else if self.0 == other.0 {
            Rel::Same
        } else {
            Rel::After
        }
    }
}

/// Monotonic time measured from a runtime-defined epoch.
///
/// The core never reads wall clock time. A production runtime and a simulator
/// can therefore provide time from different sources without changing core
/// logic.
#[derive(Clone, Copy, Debug, Eq, Ord, PartialEq, Structural)]
pub struct MonoTime(u64);

impl MonoTime {
    /// Milliseconds since the epoch.
    pub closed spec fn millis(&self) -> u64 {
        self.0
    }

    /// Two times with the same milliseconds are the same.
    pub proof fn same_millis(a: MonoTime, b: MonoTime)
        requires
            a.millis() == b.millis(),
        ensures
            a == b,
    {
    }

    /// The time that many milliseconds after the epoch.
    pub closed spec fn at(millis: u64) -> MonoTime {
        MonoTime(millis)
    }

    /// A time is known by its milliseconds.
    pub broadcast proof fn at_millis(millis: u64)
        ensures
            (#[trigger] MonoTime::at(millis)).millis() == millis,
    {
    }

    /// The start of the epoch.
    pub fn zero() -> (time: Self)
        ensures
            time == MonoTime::at(0),
    {
        MonoTime(0)
    }

    /// The time that many milliseconds after the epoch.
    pub fn from_millis(value: u64) -> (time: Self)
        ensures
            time == MonoTime::at(value),
            time.millis() == value,
    {
        MonoTime(value)
    }

    /// The time that many milliseconds later, or the last one there is.
    pub open spec fn later(self, millis: u64) -> MonoTime {
        MonoTime::at(
            if self.millis() + millis > u64::MAX {
                u64::MAX
            } else {
                (self.millis() + millis) as u64
            },
        )
    }

    /// The time that many milliseconds later, or the last one there is.
    pub(crate) fn plus(self, millis: u64) -> (time: Self)
        ensures
            time == self.later(millis),
    {
        MonoTime(self.0.saturating_add(millis))
    }

    /// Milliseconds since the epoch.
    pub fn as_millis(self) -> (value: u64)
        ensures
            value == self.millis(),
    {
        self.0
    }
}

impl PartialOrd for MonoTime {
    fn partial_cmp(&self, other: &MonoTime) -> (order: Option<Ordering>) {
        if self.0 < other.0 {
            Some(Ordering::Less)
        } else if self.0 == other.0 {
            Some(Ordering::Equal)
        } else {
            Some(Ordering::Greater)
        }
    }
}

impl vstd::std_specs::cmp::PartialOrdSpecImpl for MonoTime {
    open spec fn obeys_partial_cmp_spec() -> bool {
        true
    }

    /// Times are ordered by their milliseconds.
    open spec fn partial_cmp_spec(&self, other: &MonoTime) -> Option<Ordering> {
        if self.millis() < other.millis() {
            Some(Ordering::Less)
        } else if self.millis() == other.millis() {
            Some(Ordering::Equal)
        } else {
            Some(Ordering::Greater)
        }
    }
}

impl Default for MonoTime {
    /// The start of the epoch.
    fn default() -> (time: Self)
        ensures
            time.millis() == 0,
    {
        MonoTime(0)
    }
}

/// Common shape of an I/O-free core component.
pub trait Component: Sized {
    type Event;

    type Action;

    /// The component can handle the event now without running out of a
    /// counter.
    spec fn accepts(&self, now: MonoTime, event: Self::Event) -> bool;

    /// Handling `event` may lead from `before` to `after` and ask for
    /// `actions`.
    spec fn may_step(
        before: Self,
        now: MonoTime,
        event: Self::Event,
        after: Self,
        actions: Seq<Self::Action>,
    ) -> bool;

    fn handle(&mut self, now: MonoTime, event: Self::Event) -> (actions: Vec<Self::Action>)
        requires
            old(self).accepts(now, event),
        ensures
            Self::may_step(*old(self), now, event, *final(self), actions@),
    ;
}

} // verus!
