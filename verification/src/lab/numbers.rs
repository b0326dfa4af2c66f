//! Small numbers as names of nodes, and sets of them.

use vstd::prelude::*;
use crate::buffer;
use crate::order;
use crate::order::{Key, Rel};
use crate::ordered_map::OrderedMap;
use crate::types::NodeId;

verus! {

/// The number that the last eight bytes of an identity spell.
pub open spec fn spec_numeric_id(value: NodeId) -> u64 {
    buffer::big_endian_value(value.bytes().subrange(24, 32)) as u64
}

/// The number that the last eight bytes of an identity spell.
#[verifier::when_used_as_spec(spec_numeric_id)]
pub fn numeric_id(value: NodeId) -> (number: u64)
    ensures
        number == spec_numeric_id(value),
{
    proof {
        value.bytes_len();
    }
    buffer::read_big_endian(value.as_bytes().as_slice(), 24, 8)
}

/// The bytes of the identity that stands for a number: zeros, and the number
/// in the last eight.
pub open spec fn id_bytes(value: u64) -> Seq<u8> {
    Seq::new(24, |i: int| 0u8) + buffer::big_endian(value as nat, 8)
}

/// The identity that stands for a number.
pub fn node_id(value: u64) -> (id: NodeId)
    ensures
        id.bytes() == id_bytes(value),
        numeric_id(id) == value,
{
    let mut bytes: [u8; 32] = [0u8; 32];
    let mut rest: u64 = value;
    let mut i: usize = 0;
    proof {
        buffer::big_endian_len(value as nat, 8);
    }
    while i < 8
        invariant
            i <= 8,
            rest as nat == high_part(value as nat, i as nat),
            forall|k: int| 0 <= k < 32 - i ==> bytes@[k] == 0,
            forall|k: int|
                32 - i <= k < 32 ==> bytes@[k] == buffer::big_endian(value as nat, 8)[k - 24],
        decreases 8 - i,
    {
        proof {
            digit_is(value as nat, 8, i as nat);
        }
        bytes[31 - i] = (rest % 256) as u8;
        rest = rest / 256;
        i = i + 1;
    }
    let id = NodeId::from_bytes(bytes);
    proof {
        assert(id.bytes() =~= id_bytes(value));
        assert(id.bytes().subrange(24, 32) =~= buffer::big_endian(value as nat, 8));
        buffer::ranges();
        buffer::big_endian_is_read_back(value as nat, 8);
    }
    id
}

/// A number without its last bytes.
spec fn high_part(value: nat, bytes: nat) -> nat
    decreases bytes,
{
    if bytes == 0 {
        value
    } else {
        high_part(value, (bytes - 1) as nat) / 256
    }
}

/// A number without its last bytes, the other way round.
proof fn high_part_of_quotient(value: nat, bytes: nat)
    ensures
        high_part(value / 256, bytes) == high_part(value, bytes) / 256,
    decreases bytes,
{
    if bytes > 0 {
        high_part_of_quotient(value, (bytes - 1) as nat);
    }
}

/// The byte of a number that has so many behind it.
proof fn digit_is(value: nat, width: nat, behind: nat)
    requires
        behind < width,
    ensures
        buffer::big_endian(value, width).len() == width,
        buffer::big_endian(value, width)[width - 1 - behind] == high_part(value, behind) % 256,
    decreases width,
{
    buffer::big_endian_len(value, width);
    buffer::big_endian_len(value / 256, (width - 1) as nat);
    if behind > 0 {
        digit_is(value / 256, (width - 1) as nat, (behind - 1) as nat);
        high_part_of_quotient(value, (behind - 1) as nat);
    }
}

/// An identity that stands for a number is read as that number.
pub proof fn numbers_are_read_back(value: u64, id: NodeId)
    requires
        id.bytes() == id_bytes(value),
    ensures
        numeric_id(id) == value,
{
    buffer::big_endian_len(value as nat, 8);
    assert(id.bytes().subrange(24, 32) =~= buffer::big_endian(value as nat, 8));
    buffer::ranges();
    buffer::big_endian_is_read_back(value as nat, 8);
}

/// A number in a set or as the key of a map.
#[derive(Clone, Copy, Debug, Eq, PartialEq, Structural)]
pub struct Number(pub u64);

impl Key for Number {
    type Rank = u64;

    open spec fn rank(&self) -> u64 {
        self.0
    }

    open spec fn before(a: u64, b: u64) -> bool {
        a < b
    }

    proof fn irreflexive(a: u64) {
    }

    proof fn transitive(a: u64, b: u64, c: u64) {
    }

    proof fn connected(a: u64, b: u64) {
    }

    fn relate(&self, other: &Number) -> (rel: Rel) {
        if self.0 < other.0 {
            Rel::Before
        } else if self.0 == other.0 {
            Rel::Same
        } else {
            Rel::After
        }
    }
}

/// A set of numbers.
#[derive(Debug)]
pub struct NumberSet {
    numbers: OrderedMap<Number, ()>,
}

impl View for NumberSet {
    type V = Set<u64>;

    closed spec fn view(&self) -> Set<u64> {
        self.numbers@.dom()
    }
}

impl NumberSet {
    /// The numbers are in order.
    pub closed spec fn wf(&self) -> bool {
        self.numbers.wf()
    }

    /// The numbers in ascending order.
    pub closed spec fn listed(&self) -> Seq<u64> {
        self.numbers.ranks()
    }

    /// The list has each number once.
    pub proof fn list_is_complete(&self)
        requires
            self.wf(),
        ensures
            self@.finite(),
            self.listed().len() == self@.len(),
            self.listed().no_duplicates(),
            self.listed() == order::ascending::<Number>(self@),
            forall|n: u64| #[trigger] self.listed().contains(n) <==> self@.contains(n),
    {
        self.numbers.ranks_list_domain();
    }

    /// A set without numbers.
    pub fn new() -> (set: Self)
        ensures
            set.wf(),
            set@ == Set::<u64>::empty(),
            set.listed().len() == 0,
    {
        let set = NumberSet { numbers: OrderedMap::new() };
        assert(set@ =~= Set::<u64>::empty());
        set
    }

    /// How many numbers there are.
    pub fn len(&self) -> (n: usize)
        ensures
            n == self.listed().len(),
    {
        self.numbers.len()
    }

    /// The number at an index, in ascending order.
    pub fn at(&self, i: usize) -> (number: u64)
        requires
            self.wf(),
            i < self.listed().len(),
        ensures
            number == self.listed()[i as int],
            self@.contains(number),
    {
        self.numbers.key_at(i).0
    }

    /// Whether the number is in the set.
    pub fn contains(&self, number: u64) -> (present: bool)
        requires
            self.wf(),
        ensures
            present == self@.contains(number),
    {
        self.numbers.contains_key(&Number(number))
    }

    /// Puts a number in.
    pub fn insert(&mut self, number: u64)
        requires
            old(self).wf(),
        ensures
            final(self).wf(),
            final(self)@ == old(self)@.insert(number),
    {
        let ghost before = self@;
        self.numbers.insert(Number(number), ());
        assert(self@ =~= before.insert(number));
    }

    /// Takes a number out.
    pub fn remove(&mut self, number: u64)
        requires
            old(self).wf(),
        ensures
            final(self).wf(),
            final(self)@ == old(self)@.remove(number),
    {
        let ghost before = self@;
        let _ = self.numbers.remove(&Number(number));
        assert(self@ =~= before.remove(number));
    }

    /// Whether two sets have the same numbers.
    pub fn equals(&self, other: &NumberSet) -> (same: bool)
        requires
            self.wf(),
            other.wf(),
        ensures
            same == (self@ == other@),
    {
        proof {
            self.list_is_complete();
            other.list_is_complete();
        }
        if self.len() != other.len() {
            return false;
        }
        let mut i: usize = 0;
        while i < self.len()
            invariant
                self.wf(),
                other.wf(),
                i <= self.listed().len(),
                forall|k: int| 0 <= k < i ==> other@.contains(#[trigger] self.listed()[k]),
            decreases self.listed().len() - i,
        {
            let number: u64 = self.at(i);
            if !other.contains(number) {
                return false;
            }
            i = i + 1;
        }
        proof {
            assert forall|n: u64| #[trigger] self@.contains(n) implies other@.contains(n) by {
                assert(self.listed().contains(n));
            }
            vstd::set_lib::lemma_subset_equality(self@, other@);
        }
        true
    }
}

} // verus!
