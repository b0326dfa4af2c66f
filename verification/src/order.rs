//! Total orders on the keys of ordered collections.

use vstd::prelude::*;

verus! {

/// How one key stands to another.
#[derive(Clone, Copy, Debug, PartialEq, Eq, Structural)]
pub enum Rel {
    Before,
    Same,
    After,
}

/// A type whose values are told apart and ordered by a rank.
///
/// Two values with one rank are the same key. `before` is a strict total order
/// of the ranks.
pub trait Key: Sized {
    type Rank;

    /// What identifies a key.
    spec fn rank(&self) -> Self::Rank;

    /// The strict order of the ranks.
    spec fn before(a: Self::Rank, b: Self::Rank) -> bool;

    proof fn irreflexive(a: Self::Rank)
        ensures
            !Self::before(a, a),
    ;

    proof fn transitive(a: Self::Rank, b: Self::Rank, c: Self::Rank)
        requires
            Self::before(a, b),
            Self::before(b, c),
        ensures
            Self::before(a, c),
    ;

    proof fn connected(a: Self::Rank, b: Self::Rank)
        ensures
            a == b || Self::before(a, b) || Self::before(b, a),
    ;

    /// Tells how `self` stands to `other`.
    fn relate(&self, other: &Self) -> (rel: Rel)
        ensures
            (rel is Before) == Self::before(self.rank(), other.rank()),
            (rel is Same) == (self.rank() == other.rank()),
            (rel is After) == Self::before(other.rank(), self.rank()),
    ;
}

/// The two byte strings agree below `i`, and at `i` the first one ends or has
/// the smaller byte.
pub open spec fn falls_short_at(a: Seq<u8>, b: Seq<u8>, i: int) -> bool {
    &&& 0 <= i <= a.len()
    &&& i < b.len()
    &&& forall|j: int| 0 <= j < i ==> a[j] == b[j]
    &&& (i == a.len() || a[i] < b[i])
}

/// Lexicographic order of byte strings: a proper prefix comes before what it
/// is a prefix of.
pub open spec fn bytes_before(a: Seq<u8>, b: Seq<u8>) -> bool {
    exists|i: int| falls_short_at(a, b, i)
}

/// No byte string comes before itself.
pub proof fn bytes_before_irreflexive(a: Seq<u8>)
    ensures
        !bytes_before(a, a),
{
}

/// The lexicographic order is transitive.
pub proof fn bytes_before_transitive(a: Seq<u8>, b: Seq<u8>, c: Seq<u8>)
    requires
        bytes_before(a, b),
        bytes_before(b, c),
    ensures
        bytes_before(a, c),
{
    let i = choose|i: int| falls_short_at(a, b, i);
    let j = choose|j: int| falls_short_at(b, c, j);
    if i <= j {
        assert(falls_short_at(a, c, i));
    } else {
        assert(falls_short_at(a, c, j));
    }
}

/// Two byte strings that agree below `n` are equal or ordered.
proof fn bytes_connected_from(a: Seq<u8>, b: Seq<u8>, n: int)
    requires
        0 <= n <= a.len(),
        n <= b.len(),
        forall|j: int| 0 <= j < n ==> a[j] == b[j],
    ensures
        a == b || bytes_before(a, b) || bytes_before(b, a),
    decreases a.len() - n,
{
    if n == a.len() && n == b.len() {
        assert(a =~= b);
    } else if n == a.len() {
        assert(falls_short_at(a, b, n));
    } else if n == b.len() {
        assert(falls_short_at(b, a, n));
    } else if a[n] < b[n] {
        assert(falls_short_at(a, b, n));
    } else if b[n] < a[n] {
        assert(falls_short_at(b, a, n));
    } else {
        bytes_connected_from(a, b, n + 1);
    }
}

/// Any two byte strings are equal or one comes before the other.
pub proof fn bytes_before_connected(a: Seq<u8>, b: Seq<u8>)
    ensures
        a == b || bytes_before(a, b) || bytes_before(b, a),
{
    bytes_connected_from(a, b, 0);
}

/// Compares two byte strings lexicographically.
pub fn relate_bytes(a: &[u8], b: &[u8]) -> (rel: Rel)
    ensures
        (rel is Before) == bytes_before(a@, b@),
        (rel is Same) == (a@ == b@),
        (rel is After) == bytes_before(b@, a@),
{
    proof {
        bytes_before_irreflexive(a@);
        if bytes_before(a@, b@) && bytes_before(b@, a@) {
            bytes_before_transitive(a@, b@, a@);
        }
    }
    let mut i: usize = 0;
    while i < a.len() && i < b.len()
        invariant
            i <= a.len(),
            i <= b.len(),
            forall|j: int| 0 <= j < i ==> a@[j] == b@[j],
            !bytes_before(a@, a@),
            !(bytes_before(a@, b@) && bytes_before(b@, a@)),
        decreases a.len() - i,
    {
        if a[i] < b[i] {
            assert(falls_short_at(a@, b@, i as int));
            return Rel::Before;
        }
        if b[i] < a[i] {
            assert(falls_short_at(b@, a@, i as int));
            return Rel::After;
        }
        i = i + 1;
    }
    if i < b.len() {
        assert(falls_short_at(a@, b@, i as int));
        Rel::Before
    } else if i < a.len() {
        assert(falls_short_at(b@, a@, i as int));
        Rel::After
    } else {
        assert(a@ =~= b@);
        Rel::Same
    }
}

/// The ranks stand in strictly ascending order.
pub open spec fn is_ascending<K: Key>(ranks: Seq<K::Rank>) -> bool {
    forall|i: int, j: int|
        0 <= i < j < ranks.len() ==> K::before(#[trigger] ranks[i], #[trigger] ranks[j])
}

/// `ranks` lists each member of `set` once, in ascending order.
pub open spec fn lists<K: Key>(ranks: Seq<K::Rank>, set: Set<K::Rank>) -> bool {
    &&& is_ascending::<K>(ranks)
    &&& forall|r: K::Rank| #[trigger] ranks.contains(r) <==> set.contains(r)
}

/// The members of a finite set in ascending order.
pub open spec fn ascending<K: Key>(set: Set<K::Rank>) -> Seq<K::Rank> {
    choose|ranks: Seq<K::Rank>| lists::<K>(ranks, set)
}

/// An ascending sequence has no repetition.
pub proof fn ascending_is_injective<K: Key>(ranks: Seq<K::Rank>)
    requires
        is_ascending::<K>(ranks),
    ensures
        ranks.no_duplicates(),
{
    assert forall|i: int, j: int| 0 <= i < ranks.len() && 0 <= j < ranks.len() && i != j implies
        ranks[i] != ranks[j] by {
        K::irreflexive(ranks[i]);
        if i < j {
            assert(K::before(ranks[i], ranks[j]));
        } else {
            assert(K::before(ranks[j], ranks[i]));
        }
    }
}

/// A set has only one ascending listing.
pub proof fn listing_is_unique<K: Key>(a: Seq<K::Rank>, b: Seq<K::Rank>, set: Set<K::Rank>)
    requires
        lists::<K>(a, set),
        lists::<K>(b, set),
    ensures
        a == b,
    decreases a.len(),
{
    if a.len() == 0 {
        if b.len() > 0 {
            assert(b.contains(b[0]));
            assert(a.contains(b[0]));
        }
        assert(a =~= b);
    } else {
        let x = a.last();
        assert(a.contains(x));
        assert(b.contains(x));
        let y = b.last();
        assert(b.contains(y));
        assert(a.contains(y));
        let i = choose|i: int| 0 <= i < b.len() && b[i] == x;
        let j = choose|j: int| 0 <= j < a.len() && a[j] == y;
        if x != y {
            assert(K::before(b[i], b[b.len() - 1]));
            assert(K::before(a[j], a[a.len() - 1]));
            K::transitive(x, y, x);
            K::irreflexive(x);
        }
        ascending_is_injective::<K>(a);
        ascending_is_injective::<K>(b);
        let rest = set.remove(x);
        let a0 = a.drop_last();
        let b0 = b.drop_last();
        assert forall|r: K::Rank| #[trigger] a0.contains(r) <==> rest.contains(r) by {
            if a0.contains(r) {
                let k = choose|k: int| 0 <= k < a0.len() && a0[k] == r;
                assert(a[k] == r);
                assert(a.contains(r));
            }
            if rest.contains(r) {
                assert(a.contains(r));
                let k = choose|k: int| 0 <= k < a.len() && a[k] == r;
                assert(a0[k] == r);
            }
        }
        assert forall|r: K::Rank| #[trigger] b0.contains(r) <==> rest.contains(r) by {
            if b0.contains(r) {
                let k = choose|k: int| 0 <= k < b0.len() && b0[k] == r;
                assert(b[k] == r);
                assert(b.contains(r));
            }
            if rest.contains(r) {
                assert(b.contains(r));
                let k = choose|k: int| 0 <= k < b.len() && b[k] == r;
                assert(b0[k] == r);
            }
        }
        listing_is_unique::<K>(a0, b0, rest);
        assert(a =~= a0.push(x));
        assert(b =~= b0.push(y));
    }
}

/// Whatever lists a set is its ascending sequence.
pub proof fn listing_is_ascending<K: Key>(ranks: Seq<K::Rank>, set: Set<K::Rank>)
    requires
        lists::<K>(ranks, set),
    ensures
        ascending::<K>(set) == ranks,
{
    listing_is_unique::<K>(ascending::<K>(set), ranks, set);
}

/// `kept` lists those of the first `n` ranks that are members of `keep`.
pub open spec fn lists_kept<K: Key>(
    kept: Seq<K::Rank>,
    ranks: Seq<K::Rank>,
    n: int,
    keep: Set<K::Rank>,
) -> bool {
    &&& 0 <= n <= ranks.len()
    &&& is_ascending::<K>(kept)
    &&& forall|r: K::Rank| #[trigger]
        kept.contains(r) <==> ranks.take(n).contains(r) && keep.contains(r)
}

/// One more rank is kept if it is a member, and left out if it is not.
pub proof fn lists_one_more<K: Key>(
    kept: Seq<K::Rank>,
    ranks: Seq<K::Rank>,
    n: int,
    keep: Set<K::Rank>,
)
    requires
        lists_kept::<K>(kept, ranks, n, keep),
        is_ascending::<K>(ranks),
        n < ranks.len(),
    ensures
        keep.contains(ranks[n]) ==> lists_kept::<K>(kept.push(ranks[n]), ranks, n + 1, keep),
        !keep.contains(ranks[n]) ==> lists_kept::<K>(kept, ranks, n + 1, keep),
{
    let less = ranks.take(n);
    let more = ranks.take(n + 1);
    assert(more =~= less.push(ranks[n]));
    assert forall|r: K::Rank| #[trigger] more.contains(r) <==> less.contains(r) || r == ranks[n] by {
        if less.contains(r) {
            let k = choose|k: int| 0 <= k < less.len() && less[k] == r;
            assert(more[k] == r);
        }
        if r == ranks[n] {
            assert(more[n] == r);
        }
    }
    if keep.contains(ranks[n]) {
        let longer = kept.push(ranks[n]);
        assert forall|r: K::Rank| #[trigger] longer.contains(r) <==> kept.contains(r) || r
            == ranks[n] by {
            if kept.contains(r) {
                let k = choose|k: int| 0 <= k < kept.len() && kept[k] == r;
                assert(longer[k] == r);
            }
            if r == ranks[n] {
                assert(longer[kept.len() as int] == r);
            }
        }
        assert forall|i: int, j: int| 0 <= i < j < longer.len() implies K::before(
            #[trigger] longer[i],
            #[trigger] longer[j],
        ) by {
            if j == kept.len() {
                assert(kept.contains(kept[i]));
                let k = choose|k: int| 0 <= k < less.len() && less[k] == kept[i];
                assert(K::before(ranks[k], ranks[n]));
            } else {
                assert(longer[i] == kept[i] && longer[j] == kept[j]);
            }
        }
    }
}

/// When every rank has been looked at, the kept ones are the ascending
/// sequence of the members that are to be kept.
pub proof fn lists_all_kept<K: Key>(
    kept: Seq<K::Rank>,
    ranks: Seq<K::Rank>,
    set: Set<K::Rank>,
    keep: Set<K::Rank>,
)
    requires
        lists_kept::<K>(kept, ranks, ranks.len() as int, keep),
        lists::<K>(ranks, set),
    ensures
        kept == ascending::<K>(set.intersect(keep)),
        lists::<K>(kept, set.intersect(keep)),
{
    assert(ranks.take(ranks.len() as int) =~= ranks);
    listing_is_ascending::<K>(kept, set.intersect(keep));
}

/// Puts one more rank into its place.
proof fn listing_with<K: Key>(ranks: Seq<K::Rank>, set: Set<K::Rank>, r: K::Rank, n: int) -> (longer:
    Seq<K::Rank>)
    requires
        lists::<K>(ranks, set),
        !set.contains(r),
        0 <= n <= ranks.len(),
        forall|i: int| 0 <= i < n ==> K::before(#[trigger] ranks[i], r),
    ensures
        lists::<K>(longer, set.insert(r)),
    decreases ranks.len() - n,
{
    if n < ranks.len() && K::before(ranks[n], r) {
        listing_with::<K>(ranks, set, r, n + 1)
    } else {
        let longer = ranks.insert(n, r);
        assert forall|x: K::Rank| #[trigger] longer.contains(x) <==> set.insert(r).contains(x) by {
            if longer.contains(x) {
                let k = choose|k: int| 0 <= k < longer.len() && longer[k] == x;
                if k < n {
                    assert(ranks[k] == x);
                    assert(ranks.contains(x));
                } else if k > n {
                    assert(ranks[k - 1] == x);
                    assert(ranks.contains(x));
                }
            }
            if set.contains(x) {
                assert(ranks.contains(x));
                let k = choose|k: int| 0 <= k < ranks.len() && ranks[k] == x;
                if k < n {
                    assert(longer[k] == x);
                } else {
                    assert(longer[k + 1] == x);
                }
            }
            if x == r {
                assert(longer[n] == x);
            }
        }
        if n < ranks.len() {
            assert(ranks.contains(ranks[n]));
            K::connected(ranks[n], r);
        }
        assert forall|i: int, j: int| 0 <= i < j < longer.len() implies K::before(
            #[trigger] longer[i],
            #[trigger] longer[j],
        ) by {
            let a = if i < n {
                i
            } else {
                i - 1
            };
            let b = if j < n {
                j
            } else {
                j - 1
            };
            if i == n {
                assert(longer[j] == ranks[b]);
                if b > n {
                    assert(K::before(ranks[n], ranks[b]));
                    K::transitive(r, ranks[n], ranks[b]);
                }
            } else if j == n {
                assert(longer[i] == ranks[a]);
            } else {
                assert(longer[i] == ranks[a] && longer[j] == ranks[b]);
            }
        }
        longer
    }
}

/// Every finite set has an ascending listing.
pub proof fn finite_sets_are_listed<K: Key>(set: Set<K::Rank>) -> (ranks: Seq<K::Rank>)
    requires
        set.finite(),
    ensures
        lists::<K>(ranks, set),
        ascending::<K>(set) == ranks,
    decreases set.len(),
{
    let ranks = if set.len() == 0 {
        let none = Seq::<K::Rank>::empty();
        assert forall|r: K::Rank| #[trigger] none.contains(r) <==> set.contains(r) by {
            if set.contains(r) {
                vstd::set_lib::lemma_set_empty_equivalency_len(set);
            }
        }
        none
    } else {
        let r = set.choose();
        let rest = finite_sets_are_listed::<K>(set.remove(r));
        let ranks = listing_with::<K>(rest, set.remove(r), r, 0);
        assert(set.remove(r).insert(r) =~= set);
        ranks
    };
    listing_is_ascending::<K>(ranks, set);
    ranks
}

} // verus!
