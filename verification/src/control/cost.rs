//! Costs of links, and the adjacencies that carry them.

use std::cmp::Ordering;
use vstd::prelude::*;
use crate::types::NodeId;

verus! {

/// Cost of traversing one directed edge.
///
/// It is kept as one less than the cost, so that nothing stands for zero.
#[derive(Clone, Copy, Debug, Eq, Ord, PartialEq, Structural)]
pub struct LinkCost {
    less_one: u16,
}

/// The value zero was offered as a cost.
#[derive(Clone, Copy, Debug, Eq, PartialEq, Structural)]
pub struct InvalidLinkCost;

impl LinkCost {
    /// Every cost fits in sixteen bits.
    #[verifier::type_invariant]
    spec fn is_in_range(self) -> bool {
        self.less_one < u16::MAX
    }

    /// The cost as a number, which is at least one.
    pub closed spec fn value(&self) -> nat {
        (self.less_one + 1) as nat
    }

    /// The cost with the given value.
    pub closed spec fn of(value: nat) -> LinkCost {
        LinkCost { less_one: (value - 1) as u16 }
    }

    /// A cost is the one with its value.
    pub proof fn of_own_value(self)
        ensures
            LinkCost::of(self.value()) == self,
    {
    }

    /// Costs with one value are the same.
    pub proof fn same_value(a: LinkCost, b: LinkCost)
        requires
            a.value() == b.value(),
        ensures
            a == b,
    {
    }

    /// Every cost is at least one.
    pub broadcast proof fn value_is_positive(self)
        ensures
            #[trigger] self.value() >= 1,
    {
    }

    /// No cost is beyond the range of sixteen bits by more than one.
    pub proof fn value_is_bounded(self)
        ensures
            self.value() <= 65_536,
    {
    }

    /// The given cost, unless it is zero.
    pub fn new(value: u16) -> (cost: Result<Self, InvalidLinkCost>)
        ensures
            cost is Err <==> value == 0,
            cost matches Ok(c) ==> c.value() == value && c == LinkCost::of(value as nat),
    {
        if value == 0 {
            Err(InvalidLinkCost)
        } else {
            Ok(LinkCost { less_one: value - 1 })
        }
    }

    /// The cost as a number.
    pub fn get(self) -> (value: u16)
        ensures
            value == self.value(),
            value >= 1,
    {
        proof {
            use_type_invariant(&self);
        }
        self.less_one + 1
    }
}

impl PartialOrd for LinkCost {
    fn partial_cmp(&self, other: &LinkCost) -> (order: Option<Ordering>) {
        if self.less_one < other.less_one {
            Some(Ordering::Less)
        } else if self.less_one == other.less_one {
            Some(Ordering::Equal)
        } else {
            Some(Ordering::Greater)
        }
    }
}

impl vstd::std_specs::cmp::PartialOrdSpecImpl for LinkCost {
    open spec fn obeys_partial_cmp_spec() -> bool {
        true
    }

    /// Costs are ordered by their values.
    open spec fn partial_cmp_spec(&self, other: &LinkCost) -> Option<Ordering> {
        if self.value() < other.value() {
            Some(Ordering::Less)
        } else if self.value() == other.value() {
            Some(Ordering::Equal)
        } else {
            Some(Ordering::Greater)
        }
    }
}

/// A cost is at least one, is the one that is made of its value, and costs are
/// ordered as their values are.
pub proof fn costs_are_their_values(a: LinkCost, b: LinkCost)
    ensures
        a.value() >= 1,
        LinkCost::of(a.value()) == a,
        vstd::std_specs::cmp::PartialOrdIs::is_lt(&a, &b) <==> a.value() < b.value(),
        a == b <==> a.value() == b.value(),
{
}

/// One directed edge, as its origin announces it.
#[derive(Clone, Copy, Debug, Eq, PartialEq)]
pub struct Adjacency {
    pub peer: NodeId,
    pub cost: LinkCost,
}

} // verus!
