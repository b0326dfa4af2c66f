//! A map that keeps its entries in ascending key order.

use vstd::prelude::*;
use crate::order::{Key, Rel};
use crate::order;

verus! {

/// A map from keys to values, kept as a vector in ascending key order.
///
/// Its view maps the ranks of its keys to its values.
#[derive(Clone, Debug, PartialEq, Eq)]
pub struct OrderedMap<K: Key, V> {
    entries: Vec<(K, V)>,
}

impl<K: Key, V> View for OrderedMap<K, V> {
    type V = Map<K::Rank, V>;

    closed spec fn view(&self) -> Map<K::Rank, V> {
        Map::new(
            |r: K::Rank| self.ranks().contains(r),
            |r: K::Rank| self.entries@[self.index_of(r)].1,
        )
    }
}

impl<K: Key, V> OrderedMap<K, V> {
    /// The ranks of the keys in the order in which the entries stand.
    pub closed spec fn ranks(&self) -> Seq<K::Rank> {
        Seq::new(self.entries@.len(), |i: int| self.entries@[i].0.rank())
    }

    /// Where the entry of a rank stands.
    spec fn index_of(&self, r: K::Rank) -> int {
        choose|i: int| 0 <= i < self.entries@.len() && #[trigger] self.ranks()[i] == r
    }

    /// The keys are strictly ascending.
    pub closed spec fn wf(&self) -> bool {
        order::is_ascending::<K>(self.ranks())
    }

    /// The entry at an index holds the value of its own rank.
    proof fn index_of_own(&self, i: int)
        requires
            self.wf(),
            0 <= i < self.entries@.len(),
        ensures
            self.index_of(self.ranks()[i]) == i,
            self@.contains_key(self.ranks()[i]),
            self@[self.ranks()[i]] == self.entries@[i].1,
    {
        order::ascending_is_injective::<K>(self.ranks());
        assert(self.ranks().contains(self.ranks()[i]));
    }

    /// The ranks list the domain of the view, each once and in ascending order.
    pub proof fn ranks_list_domain(&self)
        requires
            self.wf(),
        ensures
            order::lists::<K>(self.ranks(), self@.dom()),
            self.ranks() == order::ascending::<K>(self@.dom()),
            self.ranks().no_duplicates(),
            self@.dom().finite(),
            self@.dom().len() == self.ranks().len(),
    {
        assert forall|r: K::Rank| #[trigger] self.ranks().contains(r) <==> self@.dom().contains(
            r,
        ) by {}
        order::listing_is_ascending::<K>(self.ranks(), self@.dom());
        order::ascending_is_injective::<K>(self.ranks());
        self.ranks().unique_seq_to_set();
        assert(self.ranks().to_set() =~= self@.dom());
    }

    /// A map without entries.
    pub fn new() -> (map: Self)
        ensures
            map.wf(),
            map@ == Map::<K::Rank, V>::empty(),
            map.ranks().len() == 0,
    {
        let map = OrderedMap { entries: Vec::new() };
        assert(map@ =~= Map::<K::Rank, V>::empty());
        map
    }

    /// The number of entries.
    pub fn len(&self) -> (n: usize)
        ensures
            n == self.ranks().len(),
            self.wf() ==> n == self@.dom().len() && self@.dom().finite(),
    {
        proof {
            if self.wf() {
                self.ranks_list_domain();
            }
        }
        self.entries.len()
    }

    /// Whether there is no entry.
    pub fn is_empty(&self) -> (empty: bool)
        ensures
            empty == (self.ranks().len() == 0),
            self.wf() ==> empty == (self@ == Map::<K::Rank, V>::empty()),
    {
        proof {
            if self.wf() {
                self.ranks_list_domain();
                if self.ranks().len() == 0 {
                    assert(self@ =~= Map::<K::Rank, V>::empty());
                } else {
                    assert(self@.dom().contains(self.ranks()[0]));
                }
            }
        }
        self.entries.len() == 0
    }

    /// The key at an index.
    pub fn key_at(&self, i: usize) -> (key: &K)
        requires
            self.wf(),
            i < self.ranks().len(),
        ensures
            key.rank() == self.ranks()[i as int],
            self@.contains_key(key.rank()),
    {
        proof {
            self.index_of_own(i as int);
        }
        &self.entries[i].0
    }

    /// The value at an index.
    pub fn value_at(&self, i: usize) -> (value: &V)
        requires
            self.wf(),
            i < self.ranks().len(),
        ensures
            self@.contains_key(self.ranks()[i as int]),
            *value == self@[self.ranks()[i as int]],
    {
        proof {
            self.index_of_own(i as int);
        }
        &self.entries[i].1
    }

    /// The index of the first entry whose key is not before `key`, and whether
    /// that entry has this key.
    fn locate(&self, key: &K) -> (found: (usize, bool))
        requires
            self.wf(),
        ensures
            found.0 <= self.entries@.len(),
            forall|i: int|
                0 <= i < found.0 ==> K::before(#[trigger] self.ranks()[i], key.rank()),
            found.1 ==> found.0 < self.entries@.len() && self.ranks()[found.0 as int]
                == key.rank(),
            !found.1 ==> forall|i: int|
                found.0 <= i < self.entries@.len() ==> K::before(
                    key.rank(),
                    #[trigger] self.ranks()[i],
                ),
            found.1 == self@.contains_key(key.rank()),
    {
        let mut low: usize = 0;
        let mut high: usize = self.entries.len();
        while low < high
            invariant
                self.wf(),
                low <= high <= self.entries@.len(),
                forall|i: int|
                    0 <= i < low ==> K::before(#[trigger] self.ranks()[i], key.rank()),
                forall|i: int|
                    high <= i < self.entries@.len() ==> K::before(
                        key.rank(),
                        #[trigger] self.ranks()[i],
                    ),
            decreases high - low,
        {
            let middle: usize = low + (high - low) / 2;
            match self.entries[middle].0.relate(key) {
                Rel::Before => {
                    proof {
                        assert(self.ranks()[middle as int] == self.entries@[middle as int].0.rank());
                        assert forall|i: int| 0 <= i < middle + 1 implies K::before(
                            #[trigger] self.ranks()[i],
                            key.rank(),
                        ) by {
                            if i < middle {
                                K::transitive(
                                    self.ranks()[i],
                                    self.ranks()[middle as int],
                                    key.rank(),
                                );
                            }
                        }
                    }
                    low = middle + 1;
                },
                Rel::Same => {
                    proof {
                        assert(self.ranks()[middle as int] == self.entries@[middle as int].0.rank());
                        self.index_of_own(middle as int);
                    }
                    return (middle, true);
                },
                Rel::After => {
                    proof {
                        assert(self.ranks()[middle as int] == self.entries@[middle as int].0.rank());
                        assert forall|i: int| middle <= i < self.entries@.len() implies K::before(
                            key.rank(),
                            #[trigger] self.ranks()[i],
                        ) by {
                            if i > middle {
                                K::transitive(
                                    key.rank(),
                                    self.ranks()[middle as int],
                                    self.ranks()[i],
                                );
                            }
                        }
                    }
                    high = middle;
                },
            }
        }
        proof {
            K::irreflexive(key.rank());
            if self.ranks().contains(key.rank()) {
                let i = choose|i: int|
                    0 <= i < self.ranks().len() && self.ranks()[i] == key.rank();
                assert(K::before(key.rank(), self.ranks()[i]) || K::before(
                    self.ranks()[i],
                    key.rank(),
                ));
            }
        }
        (low, false)
    }

    /// The value of a key.
    pub fn get(&self, key: &K) -> (value: Option<&V>)
        requires
            self.wf(),
        ensures
            match value {
                Some(v) => self@.contains_key(key.rank()) && *v == self@[key.rank()],
                None => !self@.contains_key(key.rank()),
            },
    {
        let (i, present) = self.locate(key);
        if present {
            proof {
                self.index_of_own(i as int);
            }
            Some(&self.entries[i].1)
        } else {
            None
        }
    }

    /// Whether a key has an entry.
    pub fn contains_key(&self, key: &K) -> (present: bool)
        requires
            self.wf(),
        ensures
            present == self@.contains_key(key.rank()),
    {
        self.locate(key).1
    }

    /// Gives a key a value, in place of the one it had.
    pub fn insert(&mut self, key: K, value: V)
        requires
            old(self).wf(),
        ensures
            final(self).wf(),
            final(self)@ == old(self)@.insert(key.rank(), value),
    {
        let (i, present) = self.locate(&key);
        let ghost before = *self;
        let ghost rank = key.rank();
        let ghost at = i as int;
        if present {
            self.entries[i] = (key, value);
            proof {
                assert(self.ranks() =~= before.ranks());
            }
        } else {
            self.entries.insert(i, (key, value));
            proof {
                assert(self.ranks() =~= before.ranks().insert(at, rank));
                let ranks = self.ranks();
                assert forall|a: int, b: int| 0 <= a < b < ranks.len() implies K::before(
                    #[trigger] ranks[a],
                    #[trigger] ranks[b],
                ) by {
                    if b < at {
                        assert(ranks[a] == before.ranks()[a]);
                        assert(ranks[b] == before.ranks()[b]);
                    } else if b == at {
                        assert(ranks[a] == before.ranks()[a]);
                    } else if a < at {
                        assert(ranks[a] == before.ranks()[a]);
                        assert(ranks[b] == before.ranks()[b - 1]);
                    } else if a == at {
                        assert(ranks[b] == before.ranks()[b - 1]);
                    } else {
                        assert(ranks[a] == before.ranks()[a - 1]);
                        assert(ranks[b] == before.ranks()[b - 1]);
                    }
                }
            }
        }
        proof {
            assert(self.wf());
            self.same_but_for(&before, rank, at, present);
        }
    }

    /// A map whose entry at `at` is new, and whose others are those of
    /// `before`, has the view of `before` with this one rank changed.
    proof fn same_but_for(&self, before: &Self, rank: K::Rank, at: int, replaced: bool)
        requires
            self.wf(),
            before.wf(),
            0 <= at < self.entries@.len(),
            self.ranks()[at] == rank,
            replaced ==> at < before.entries@.len() && before.ranks()[at] == rank
                && self.entries@ == before.entries@.update(at, self.entries@[at]),
            !replaced ==> at <= before.entries@.len() && !before@.contains_key(rank)
                && self.entries@ == before.entries@.insert(at, self.entries@[at]),
        ensures
            self@ == before@.insert(rank, self.entries@[at].1),
    {
        let goal = before@.insert(rank, self.entries@[at].1);
        self.index_of_own(at);
        assert forall|r: K::Rank| #[trigger] self@.contains_key(r) == goal.contains_key(r) && (
        self@.contains_key(r) ==> self@[r] == goal[r]) by {
            if self@.contains_key(r) {
                let k = choose|k: int| 0 <= k < self.ranks().len() && self.ranks()[k] == r;
                self.index_of_own(k);
                if k != at {
                    let m = if replaced || k < at {
                        k
                    } else {
                        k - 1
                    };
                    assert(before.entries@[m] == self.entries@[k]);
                    assert(before.ranks()[m] == r);
                    before.index_of_own(m);
                    order::ascending_is_injective::<K>(self.ranks());
                }
            }
            if before@.contains_key(r) {
                let k = choose|k: int| 0 <= k < before.ranks().len() && before.ranks()[k] == r;
                before.index_of_own(k);
                let m = if replaced || k < at {
                    k
                } else {
                    k + 1
                };
                if !(replaced && k == at) {
                    assert(self.entries@[m] == before.entries@[k]);
                    assert(self.ranks()[m] == r);
                    self.index_of_own(m);
                }
            }
        }
        assert(self@ =~= goal);
    }

    /// Takes the entry of a key out, and returns its value.
    pub fn remove(&mut self, key: &K) -> (value: Option<V>)
        requires
            old(self).wf(),
        ensures
            final(self).wf(),
            final(self)@ == old(self)@.remove(key.rank()),
            match value {
                Some(v) => old(self)@.contains_key(key.rank()) && v == old(self)@[key.rank()],
                None => !old(self)@.contains_key(key.rank()),
            },
    {
        let (i, present) = self.locate(key);
        let ghost before = *self;
        let ghost at = i as int;
        if !present {
            assert(self@ =~= before@.remove(key.rank()));
            return None;
        }
        let (_, value) = self.entries.remove(i);
        proof {
            before.index_of_own(at);
            assert(self.ranks() =~= before.ranks().remove(at));
            let ranks = self.ranks();
            assert forall|a: int, b: int| 0 <= a < b < ranks.len() implies K::before(
                #[trigger] ranks[a],
                #[trigger] ranks[b],
            ) by {
                let a0 = if a < at {
                    a
                } else {
                    a + 1
                };
                let b0 = if b < at {
                    b
                } else {
                    b + 1
                };
                assert(ranks[a] == before.ranks()[a0]);
                assert(ranks[b] == before.ranks()[b0]);
            }
            assert(self.wf());
            let goal = before@.remove(key.rank());
            assert forall|r: K::Rank| #[trigger] self@.contains_key(r) == goal.contains_key(r) && (
            self@.contains_key(r) ==> self@[r] == goal[r]) by {
                order::ascending_is_injective::<K>(before.ranks());
                if self@.contains_key(r) {
                    let k = choose|k: int| 0 <= k < ranks.len() && ranks[k] == r;
                    let m = if k < at {
                        k
                    } else {
                        k + 1
                    };
                    assert(before.entries@[m] == self.entries@[k]);
                    assert(before.ranks()[m] == r);
                    self.index_of_own(k);
                    before.index_of_own(m);
                }
                if goal.contains_key(r) {
                    let k = choose|k: int|
                        0 <= k < before.ranks().len() && before.ranks()[k] == r;
                    let m = if k < at {
                        k
                    } else {
                        k - 1
                    };
                    assert(self.entries@[m] == before.entries@[k]);
                    assert(ranks[m] == r);
                    self.index_of_own(m);
                    before.index_of_own(k);
                }
            }
            assert(self@ =~= goal);
        }
        Some(value)
    }
}

impl<K: Key + Copy, V: Copy> OrderedMap<K, V> {
    /// A map with the same entries.
    pub fn copy(&self) -> (map: Self)
        ensures
            map@ == self@,
            map.ranks() == self.ranks(),
            self.wf() ==> map.wf(),
    {
        let mut entries: Vec<(K, V)> = Vec::new();
        let mut i: usize = 0;
        while i < self.entries.len()
            invariant
                i <= self.entries@.len(),
                entries@ == self.entries@.take(i as int),
            decreases self.entries@.len() - i,
        {
            entries.push((self.entries[i].0, self.entries[i].1));
            assert(entries@ =~= self.entries@.take(i + 1));
            i = i + 1;
        }
        let map = OrderedMap { entries };
        proof {
            assert(map.entries@ =~= self.entries@);
            assert(map.ranks() =~= self.ranks());
            assert forall|r: K::Rank| #[trigger] map.index_of(r) == self.index_of(r) by {}
            assert(map@ =~= self@);
        }
        map
    }
}

} // verus!
