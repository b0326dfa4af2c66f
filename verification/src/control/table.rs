//! Route tables.

use vstd::prelude::*;
use crate::order::Key;
use crate::ordered_map::OrderedMap;
use crate::types::{LinkId, NodeId};

verus! {

/// How to reach one destination.
#[derive(Clone, Copy, Debug, Eq, PartialEq, Structural)]
pub struct Route {
    pub next_hop: LinkId,
    pub cost: u32,
    pub hops: u8,
}

/// A numbered set of routes.
#[derive(Debug, Eq, PartialEq)]
pub struct RouteTable {
    pub version: u64,
    routes: OrderedMap<NodeId, Route>,
}

/// What a table says.
#[verifier::ext_equal]
pub struct TableView {
    pub version: u64,
    pub routes: Map<NodeId, Route>,
}

impl View for RouteTable {
    type V = TableView;

    closed spec fn view(&self) -> TableView {
        TableView { version: self.version, routes: self.routes@ }
    }
}

impl RouteTable {
    /// The destinations are in ascending order.
    pub closed spec fn wf(&self) -> bool {
        self.routes.wf()
    }

    /// The destinations can be listed, each once and in ascending order.
    pub proof fn destinations_are_listed(&self)
        requires
            self.wf(),
        ensures
            self@.routes.dom().finite(),
            crate::order::ascending::<NodeId>(self@.routes.dom()).len() == self@.routes.dom().len(),
    {
        self.routes.ranks_list_domain();
    }

    /// The version of the table.
    pub fn current_version(&self) -> (version: u64)
        ensures
            version == self@.version,
    {
        self.version
    }

    /// A table with the given routes.
    pub fn new(version: u64, routes: OrderedMap<NodeId, Route>) -> (table: Self)
        requires
            routes.wf(),
        ensures
            table.wf(),
            table@ == (TableView { version, routes: routes@ }),
    {
        RouteTable { version, routes }
    }

    /// The route to a destination.
    pub fn get(&self, destination: &NodeId) -> (route: Option<&Route>)
        requires
            self.wf(),
        ensures
            match route {
                Some(r) => self@.routes.contains_key(*destination) && *r
                    == self@.routes[*destination],
                None => !self@.routes.contains_key(*destination),
            },
    {
        self.routes.get(destination)
    }

    /// The destinations and their routes, by ascending destination.
    pub fn iter(&self) -> (entries: Vec<(&NodeId, &Route)>)
        requires
            self.wf(),
        ensures
            entries@.len() == self@.routes.dom().len(),
            forall|i: int|
                0 <= i < entries@.len() ==> {
                    &&& *(#[trigger] entries@[i]).0 == crate::order::ascending::<NodeId>(
                        self@.routes.dom(),
                    )[i]
                    &&& self@.routes.contains_key(*entries@[i].0)
                    &&& *entries@[i].1 == self@.routes[*entries@[i].0]
                },
    {
        let mut entries: Vec<(&NodeId, &Route)> = Vec::new();
        let mut i: usize = 0;
        proof {
            self.routes.ranks_list_domain();
        }
        while i < self.routes.len()
            invariant
                self.routes.wf(),
                i <= self.routes.ranks().len(),
                entries@.len() == i,
                forall|k: int|
                    0 <= k < i ==> {
                        &&& *(#[trigger] entries@[k]).0 == self.routes.ranks()[k]
                        &&& self.routes@.contains_key(*entries@[k].0)
                        &&& *entries@[k].1 == self.routes@[*entries@[k].0]
                    },
            decreases self.routes.ranks().len() - i,
        {
            let destination: &NodeId = self.routes.key_at(i);
            let route: &Route = self.routes.value_at(i);
            entries.push((destination, route));
            i = i + 1;
        }
        entries
    }

    /// The number of routes.
    pub fn len(&self) -> (n: usize)
        requires
            self.wf(),
        ensures
            n == self@.routes.dom().len(),
    {
        self.routes.len()
    }

    /// Whether there is no route.
    pub fn is_empty(&self) -> (empty: bool)
        requires
            self.wf(),
        ensures
            empty == (self@.routes == Map::<NodeId, Route>::empty()),
    {
        self.routes.is_empty()
    }

    /// Whether the table has exactly the given routes.
    pub(crate) fn has_routes(&self, routes: &OrderedMap<NodeId, Route>) -> (same: bool)
        requires
            self.wf(),
            routes.wf(),
        ensures
            same == (self@.routes == routes@),
    {
        proof {
            self.routes.ranks_list_domain();
            routes.ranks_list_domain();
        }
        if self.routes.len() != routes.len() {
            return false;
        }
        let mut i: usize = 0;
        while i < routes.len()
            invariant
                self.routes.wf(),
                routes.wf(),
                self.routes.ranks().len() == routes.ranks().len(),
                i <= routes.ranks().len(),
                forall|k: int|
                    0 <= k < i ==> {
                        &&& self.routes@.contains_key(#[trigger] routes.ranks()[k])
                        &&& self.routes@[routes.ranks()[k]] == routes@[routes.ranks()[k]]
                    },
            decreases routes.ranks().len() - i,
        {
            let destination: NodeId = *routes.key_at(i);
            let route: Route = *routes.value_at(i);
            match self.routes.get(&destination) {
                Some(mine) => if *mine != route {
                    return false;
                },
                None => {
                    return false;
                },
            }
            i = i + 1;
        }
        proof {
            let mine = self.routes@;
            let theirs = routes@;
            assert forall|r: NodeId| #[trigger] theirs.contains_key(r) implies mine.contains_key(r)
                && mine[r] == theirs[r] by {
                assert(theirs.dom().contains(r));
                assert(routes.ranks().contains(r));
            }
            assert(theirs.dom().subset_of(mine.dom()));
            vstd::set_lib::lemma_subset_equality(theirs.dom(), mine.dom());
            assert(mine =~= theirs);
        }
        true
    }
}

impl Clone for RouteTable {
    fn clone(&self) -> (copy: Self)
        ensures
            copy@ == self@,
            self.wf() ==> copy.wf(),
    {
        RouteTable { version: self.version, routes: self.routes.copy() }
    }
}

impl Default for RouteTable {
    /// The table of version zero, without routes.
    fn default() -> (table: Self)
        ensures
            table.wf(),
            table@ == (TableView { version: 0, routes: Map::empty() }),
    {
        RouteTable { version: 0, routes: OrderedMap::new() }
    }
}

} // verus!
