//! The mesh as the laboratory sees it: which nodes belong together.

use vstd::prelude::*;
use crate::lab::numbers::NumberSet;

verus! {

/// A link between two nodes of the laboratory.
///
/// Losses are counted in frames of a million.
#[derive(Clone, Copy, Debug, Eq, PartialEq, Structural)]
pub struct LabLink {
    pub id: u64,
    pub a: u64,
    pub b: u64,
    pub up: bool,
    pub desired_up: bool,
    pub cost: u16,
    pub latency_ms: u64,
    pub loss_per_million: u64,
    pub bandwidth_kbps: u64,
}

/// The link is up and leads from one node to the other.
pub open spec fn joins(link: LabLink, id: u64, peer: u64) -> bool {
    link.up && if link.a == id {
        link.b == peer
    } else {
        link.b == id && link.a == peer
    }
}

/// The live nodes to which a link leads that is up.
pub open spec fn neighbours(live: Set<u64>, links: Seq<LabLink>, id: u64) -> Set<u64> {
    Set::new(
        |peer: u64|
            live.contains(peer) && exists|i: int|
                0 <= i < links.len() && joins(#[trigger] links[i], id, peer),
    )
}

/// Each node of the path is a neighbour of the one before it.
pub open spec fn is_walk(live: Set<u64>, links: Seq<LabLink>, path: Seq<u64>) -> bool {
    &&& path.len() >= 1
    &&& forall|i: int, j: int|
        0 <= i && j == i + 1 && j < path.len() ==> neighbours(
            live,
            links,
            #[trigger] path[i],
        ).contains(#[trigger] path[j])
}

/// The path leads from one node to the other.
pub open spec fn leads(live: Set<u64>, links: Seq<LabLink>, path: Seq<u64>, x: u64, y: u64) -> bool {
    is_walk(live, links, path) && path[0] == x && path.last() == y
}

/// The nodes that can be reached from a node.
pub open spec fn component(live: Set<u64>, links: Seq<LabLink>, x: u64) -> Set<u64> {
    Set::new(|y: u64| exists|path: Seq<u64>| leads(live, links, path, x, y))
}

/// The parts into which the live nodes fall.
pub open spec fn components(live: Set<u64>, links: Seq<LabLink>) -> Set<Set<u64>> {
    Set::new(
        |part: Set<u64>| exists|x: u64| #[trigger]
            live.contains(x) && part == component(live, links, x),
    )
}

/// A node reaches itself.
pub proof fn nodes_reach_themselves(live: Set<u64>, links: Seq<LabLink>, x: u64)
    ensures
        component(live, links, x).contains(x),
{
    assert(leads(live, links, seq![x], x, x));
}

/// A node reaches the neighbours of what it reaches.
pub(crate) proof fn reach_extends(live: Set<u64>, links: Seq<LabLink>, x: u64, y: u64, z: u64)
    requires
        component(live, links, x).contains(y),
        neighbours(live, links, y).contains(z),
    ensures
        component(live, links, x).contains(z),
{
    let path = choose|path: Seq<u64>| leads(live, links, path, x, y);
    let longer = path.push(z);
    assert forall|i: int, j: int| 0 <= i && j == i + 1 && j < longer.len() implies neighbours(
        live,
        links,
        #[trigger] longer[i],
    ).contains(#[trigger] longer[j]) by {
        if j < path.len() {
            assert(longer[i] == path[i] && longer[j] == path[j]);
        } else {
            assert(longer[i] == path.last());
        }
    }
    assert(leads(live, links, longer, x, z));
}

/// Whatever holds a node and all neighbours of its members holds all that the
/// node reaches.
pub(crate) proof fn reach_is_least(
    live: Set<u64>,
    links: Seq<LabLink>,
    x: u64,
    y: u64,
    path: Seq<u64>,
    all: Set<u64>,
)
    requires
        leads(live, links, path, x, y),
        all.contains(x),
        forall|p: u64, q: u64| #[trigger]
            all.contains(p) && #[trigger] neighbours(live, links, p).contains(q) ==> all.contains(
                q,
            ),
    ensures
        all.contains(y),
    decreases path.len(),
{
    if path.len() > 1 {
        let less = path.drop_last();
        assert forall|i: int, j: int| 0 <= i && j == i + 1 && j < less.len() implies neighbours(
            live,
            links,
            #[trigger] less[i],
        ).contains(#[trigger] less[j]) by {
            assert(less[i] == path[i] && less[j] == path[j]);
        }
        let last = less.last();
        assert(leads(live, links, less, x, last));
        reach_is_least(live, links, x, last, less, all);
        assert(neighbours(live, links, path[path.len() - 2]).contains(path[path.len() - 1]));
    }
}

/// Of two live nodes, each is a neighbour of the other or none is.
pub proof fn neighbours_are_mutual(live: Set<u64>, links: Seq<LabLink>, x: u64, y: u64)
    requires
        live.contains(x),
        neighbours(live, links, x).contains(y),
    ensures
        neighbours(live, links, y).contains(x),
{
    let i = choose|i: int| 0 <= i < links.len() && joins(#[trigger] links[i], x, y);
    assert(joins(links[i], y, x));
}

/// What a live node reaches is live and reaches it too.
proof fn reach_is_mutual(live: Set<u64>, links: Seq<LabLink>, x: u64, y: u64, path: Seq<u64>)
    requires
        live.contains(x),
        leads(live, links, path, x, y),
    ensures
        live.contains(y),
        component(live, links, y).contains(x),
    decreases path.len(),
{
    if path.len() > 1 {
        let less = path.drop_last();
        assert forall|i: int, j: int| 0 <= i && j == i + 1 && j < less.len() implies neighbours(
            live,
            links,
            #[trigger] less[i],
        ).contains(#[trigger] less[j]) by {
            assert(less[i] == path[i] && less[j] == path[j]);
        }
        let last = less.last();
        assert(leads(live, links, less, x, last));
        reach_is_mutual(live, links, x, last, less);
        assert(neighbours(live, links, path[path.len() - 2]).contains(path[path.len() - 1]));
        neighbours_are_mutual(live, links, last, y);
        // y reaches last, and last reaches x.
        nodes_reach_themselves(live, links, y);
        reach_extends(live, links, y, y, last);
        reach_adds_up(live, links, y, last, x);
    } else {
        nodes_reach_themselves(live, links, x);
    }
}

/// A node reaches what is reached from what it reaches.
proof fn reach_adds_up(live: Set<u64>, links: Seq<LabLink>, x: u64, y: u64, z: u64)
    requires
        component(live, links, x).contains(y),
        component(live, links, y).contains(z),
    ensures
        component(live, links, x).contains(z),
{
    let path = choose|path: Seq<u64>| leads(live, links, path, y, z);
    let all = component(live, links, x);
    assert forall|p: u64, q: u64| #[trigger]
        all.contains(p) && #[trigger] neighbours(live, links, p).contains(q) implies all.contains(
        q,
    ) by {
        reach_extends(live, links, x, p, q);
    }
    reach_is_least(live, links, y, z, path, all);
}

/// The nodes that a live node reaches all reach the same nodes, and are live.
pub proof fn members_share_their_component(live: Set<u64>, links: Seq<LabLink>, x: u64, y: u64)
    requires
        live.contains(x),
        component(live, links, x).contains(y),
    ensures
        live.contains(y),
        component(live, links, y) == component(live, links, x),
{
    let path = choose|path: Seq<u64>| leads(live, links, path, x, y);
    reach_is_mutual(live, links, x, y, path);
    assert forall|z: u64| #[trigger]
        component(live, links, y).contains(z) <==> component(live, links, x).contains(z) by {
        if component(live, links, y).contains(z) {
            reach_adds_up(live, links, x, y, z);
        }
        if component(live, links, x).contains(z) {
            reach_adds_up(live, links, y, x, z);
        }
    }
    assert(component(live, links, y) =~= component(live, links, x));
}

/// Every live node belongs to exactly one part.
pub proof fn components_are_a_partition(live: Set<u64>, links: Seq<LabLink>, part: Set<u64>, x: u64)
    requires
        components(live, links).contains(part),
        part.contains(x),
    ensures
        live.contains(x),
        part == component(live, links, x),
        part.subset_of(live),
{
    let y = choose|y: u64| #[trigger] live.contains(y) && part == component(live, links, y);
    members_share_their_component(live, links, y, x);
    assert forall|z: u64| #[trigger] part.contains(z) implies live.contains(z) by {
        members_share_their_component(live, links, y, z);
    }
}

/// The live nodes to which a link leads that is up.
pub(crate) fn find_neighbours(live: &NumberSet, links: &Vec<LabLink>, id: u64) -> (peers: NumberSet)
    requires
        live.wf(),
    ensures
        peers.wf(),
        peers@ == neighbours(live@, links@, id),
{
    let mut peers = NumberSet::new();
    let mut i: usize = 0;
    assert(peers@ =~= neighbours(live@, links@.take(0), id));
    while i < links.len()
        invariant
            live.wf(),
            peers.wf(),
            i <= links@.len(),
            peers@ == neighbours(live@, links@.take(i as int), id),
        decreases links@.len() - i,
    {
        let link: LabLink = links[i];
        let ghost before = peers@;
        let ghost less = links@.take(i as int);
        let ghost more = links@.take(i + 1);
        let peer: u64 = if link.a == id {
            link.b
        } else {
            link.a
        };
        let joined: bool = link.up && (link.a == id || link.b == id) && live.contains(peer);
        if joined {
            peers.insert(peer);
        }
        proof {
            assert forall|p: u64| #[trigger]
                neighbours(live@, more, id).contains(p) <==> peers@.contains(p) by {
                if neighbours(live@, more, id).contains(p) {
                    let k = choose|k: int| 0 <= k < more.len() && joins(#[trigger] more[k], id, p);
                    if k < i {
                        assert(joins(less[k], id, p));
                        assert(neighbours(live@, less, id).contains(p));
                    } else {
                        assert(more[k] == link);
                    }
                }
                if before.contains(p) {
                    let k = choose|k: int| 0 <= k < less.len() && joins(#[trigger] less[k], id, p);
                    assert(joins(more[k], id, p));
                }
                if joined && p == peer {
                    assert(more[i as int] == link);
                    assert(joins(more[i as int], id, p));
                }
            }
            assert(peers@ =~= neighbours(live@, more, id));
        }
        i = i + 1;
    }
    assert(links@.take(i as int) =~= links@);
    peers
}

/// The nodes that a live node reaches.
pub(crate) fn find_component(live: &NumberSet, links: &Vec<LabLink>, start: u64) -> (part: NumberSet)
    requires
        live.wf(),
        live@.contains(start),
    ensures
        part.wf(),
        part@ == component(live@, links@, start),
{
    let ghost goal = component(live@, links@, start);
    let mut part = NumberSet::new();
    let mut pending: Vec<u64> = Vec::new();
    pending.push(start);
    proof {
        nodes_reach_themselves(live@, links@, start);
        live.list_is_complete();
        assert(pending@.contains(start)) by {
            assert(pending@[0] == start);
        }
    }
    while pending.len() > 0
        invariant
            live.wf(),
            live@.finite(),
            live@.contains(start),
            part.wf(),
            part@.subset_of(live@),
            goal == component(live@, links@, start),
            part@.subset_of(goal),
            part@.contains(start) || pending@.contains(start),
            forall|k: int| 0 <= k < pending@.len() ==> goal.contains(#[trigger] pending@[k]),
            forall|p: u64, q: u64| #[trigger]
                part@.contains(p) && #[trigger] neighbours(live@, links@, p).contains(q)
                    ==> part@.contains(q) || pending@.contains(q),
        decreases live@.difference(part@).len(), pending@.len(),
    {
        let ghost waiting = pending@;
        let id: u64 = pending.pop().unwrap();
        let ghost rest = pending@;
        proof {
            assert(waiting =~= rest.push(id));
            assert(waiting[waiting.len() - 1] == id);
            assert(goal.contains(id));
            members_share_their_component(live@, links@, start, id);
            assert forall|q: u64| #[trigger] waiting.contains(q) implies q == id || rest.contains(
                q,
            ) by {
                let k = choose|k: int| 0 <= k < waiting.len() && waiting[k] == q;
                if k < rest.len() {
                    assert(rest[k] == q);
                }
            }
            assert forall|k: int| 0 <= k < rest.len() implies goal.contains(#[trigger] rest[k]) by {
                assert(rest[k] == waiting[k]);
            }
        }
        if part.contains(id) {
            continue ;
        }
        let ghost before = part@;
        part.insert(id);
        proof {
            assert(live@.difference(part@) =~= live@.difference(before).remove(id));
            assert(live@.difference(before).contains(id));
        }
        let peers = find_neighbours(live, links, id);
        proof {
            peers.list_is_complete();
        }
        let mut i: usize = 0;
        while i < peers.len()
            invariant
                live.wf(),
                part.wf(),
                peers.wf(),
                i <= peers.listed().len(),
                goal == component(live@, links@, start),
                goal.contains(id),
                peers@ == neighbours(live@, links@, id),
                part@ == before.insert(id),
                forall|k: int| 0 <= k < pending@.len() ==> goal.contains(#[trigger] pending@[k]),
                forall|q: u64| #[trigger] rest.contains(q) ==> pending@.contains(q),
                forall|k: int|
                    0 <= k < i ==> {
                        ||| part@.contains(#[trigger] peers.listed()[k])
                        ||| pending@.contains(peers.listed()[k])
                    },
            decreases peers.listed().len() - i,
        {
            let peer: u64 = peers.at(i);
            let ghost held = pending@;
            if !part.contains(peer) {
                pending.push(peer);
                proof {
                    reach_extends(live@, links@, start, id, peer);
                    assert forall|q: u64| held.contains(q) implies #[trigger] pending@.contains(
                        q,
                    ) by {
                        let k = choose|k: int| 0 <= k < held.len() && held[k] == q;
                        assert(pending@[k] == q);
                    }
                    assert(pending@[held.len() as int] == peer);
                }
            }
            i = i + 1;
        }
        proof {
            assert forall|p: u64, q: u64| #[trigger]
                part@.contains(p) && #[trigger] neighbours(live@, links@, p).contains(
                    q,
                ) implies part@.contains(q) || pending@.contains(q) by {
                if p == id {
                    assert(peers.listed().contains(q));
                    let k = choose|k: int| 0 <= k < peers.listed().len() && peers.listed()[k] == q;
                    assert(part@.contains(peers.listed()[k]) || pending@.contains(
                        peers.listed()[k],
                    ));
                } else {
                    assert(before.contains(p));
                    assert(before.contains(q) || waiting.contains(q));
                }
            }
            if waiting.contains(start) {
                assert(start == id || rest.contains(start));
            }
        }
    }
    proof {
        assert forall|y: u64| #[trigger] goal.contains(y) implies part@.contains(y) by {
            let path = choose|path: Seq<u64>| leads(live@, links@, path, start, y);
            reach_is_least(live@, links@, start, y, path, part@);
        }
        assert(part@ =~= goal);
    }
    part
}

/// What each of several sets holds.
pub open spec fn contents(parts: Seq<NumberSet>) -> Seq<Set<u64>> {
    parts.map_values(|part: NumberSet| part@)
}

/// The parts into which the live nodes fall, each once.
pub(crate) fn find_components(live: &NumberSet, links: &Vec<LabLink>) -> (parts: Vec<NumberSet>)
    requires
        live.wf(),
    ensures
        forall|i: int| 0 <= i < parts@.len() ==> (#[trigger] parts@[i]).wf(),
        contents(parts@).no_duplicates(),
        contents(parts@).to_set() == components(live@, links@),
        components(live@, links@).finite(),
        parts@.len() == components(live@, links@).len(),
{
    let mut unseen = NumberSet::new();
    let mut n: usize = 0;
    proof {
        live.list_is_complete();
    }
    while n < live.len()
        invariant
            live.wf(),
            unseen.wf(),
            n <= live.listed().len(),
            unseen@ == live.listed().take(n as int).to_set(),
        decreases live.listed().len() - n,
    {
        let id: u64 = live.at(n);
        let ghost before = unseen@;
        unseen.insert(id);
        proof {
            let less = live.listed().take(n as int);
            let more = live.listed().take(n + 1);
            assert(more =~= less.push(id));
            assert forall|x: u64| #[trigger]
                more.to_set().contains(x) <==> before.insert(id).contains(x) by {
                if less.contains(x) {
                    let k = choose|k: int| 0 <= k < less.len() && less[k] == x;
                    assert(more[k] == x);
                }
                if x == id {
                    assert(more[n as int] == x);
                }
                if more.contains(x) {
                    let k = choose|k: int| 0 <= k < more.len() && more[k] == x;
                    if k < n {
                        assert(less[k] == x);
                    }
                }
            }
            assert(unseen@ =~= more.to_set());
        }
        n = n + 1;
    }
    proof {
        assert(live.listed().take(n as int) =~= live.listed());
        assert forall|x: u64| #[trigger] unseen@.contains(x) <==> live@.contains(x) by {
            assert(live.listed().contains(x) <==> live@.contains(x));
        }
        assert(unseen@ =~= live@);
        unseen.list_is_complete();
    }
    let mut parts: Vec<NumberSet> = Vec::new();
    while unseen.len() > 0
        invariant
            live.wf(),
            unseen.wf(),
            unseen@.finite(),
            unseen.listed().len() == unseen@.len(),
            unseen@.subset_of(live@),
            forall|i: int| 0 <= i < parts@.len() ==> (#[trigger] parts@[i]).wf(),
            forall|i: int|
                0 <= i < parts@.len() ==> components(live@, links@).contains(
                    (#[trigger] parts@[i])@,
                ),
            forall|i: int, x: u64|
                0 <= i < parts@.len() && #[trigger] parts@[i]@.contains(x) ==> !unseen@.contains(x),
            forall|x: u64| #[trigger]
                live@.contains(x) && !unseen@.contains(x) ==> exists|i: int|
                    0 <= i < parts@.len() && (#[trigger] parts@[i])@.contains(x),
            contents(parts@).no_duplicates(),
        decreases unseen@.len(),
    {
        proof {
            unseen.list_is_complete();
        }
        let start: u64 = unseen.at(0);
        let part = find_component(live, links, start);
        let ghost before = unseen@;
        proof {
            nodes_reach_themselves(live@, links@, start);
            assert(components(live@, links@).contains(part@));
            part.list_is_complete();
        }
        let mut i: usize = 0;
        while i < part.len()
            invariant
                part.wf(),
                unseen.wf(),
                i <= part.listed().len(),
                unseen@.subset_of(before),
                forall|k: int| 0 <= k < i ==> !unseen@.contains(#[trigger] part.listed()[k]),
                forall|x: u64| #[trigger]
                    before.contains(x) && !unseen@.contains(x) ==> part@.contains(x),
            decreases part.listed().len() - i,
        {
            let id: u64 = part.at(i);
            unseen.remove(id);
            i = i + 1;
        }
        proof {
            assert forall|x: u64| #[trigger] part@.contains(x) implies !unseen@.contains(x) by {
                assert(part.listed().contains(x));
            }
            vstd::set_lib::lemma_set_subset_finite(before, unseen@);
            assert(!unseen@.contains(start));
            assert(unseen@.subset_of(before.remove(start)));
            vstd::set_lib::lemma_len_subset(unseen@, before.remove(start));
            unseen.list_is_complete();
        }
        let ghost held = parts@;
        parts.push(part);
        proof {
            let all = contents(parts@);
            assert(all =~= contents(held).push(part@));
            assert forall|i: int, j: int|
                0 <= i < all.len() && 0 <= j < all.len() && i != j implies all[i] != all[j] by {
                if i == held.len() {
                    assert(all[j] == contents(held)[j]);
                    assert(held[j]@ == all[j]);
                    assert(!held[j]@.contains(start)) by {
                        if held[j]@.contains(start) {
                            assert(!before.contains(start));
                        }
                    }
                } else if j == held.len() {
                    assert(held[i]@ == all[i]);
                    assert(!held[i]@.contains(start)) by {
                        if held[i]@.contains(start) {
                            assert(!before.contains(start));
                        }
                    }
                } else {
                    assert(contents(held)[i] != contents(held)[j]);
                }
            }
            assert forall|x: u64| #[trigger]
                live@.contains(x) && !unseen@.contains(x) implies exists|i: int|
                0 <= i < parts@.len() && (#[trigger] parts@[i])@.contains(x) by {
                if before.contains(x) {
                    assert(parts@[held.len() as int]@.contains(x));
                } else {
                    let i = choose|i: int|
                        0 <= i < held.len() && (#[trigger] held[i])@.contains(x);
                    assert(parts@[i]@.contains(x));
                }
            }
            assert forall|i: int, x: u64|
                0 <= i < parts@.len() && #[trigger] parts@[i]@.contains(x) implies !unseen@.contains(
                x,
            ) by {
                if i < held.len() {
                    assert(parts@[i] == held[i]);
                    assert(held[i]@.contains(x));
                }
            }
            assert forall|i: int| 0 <= i < parts@.len() implies components(
                live@,
                links@,
            ).contains((#[trigger] parts@[i])@) by {
                if i < held.len() {
                    assert(parts@[i] == held[i]);
                }
            }
        }
    }
    proof {
        let all = contents(parts@);
        assert forall|c: Set<u64>| #[trigger]
            all.to_set().contains(c) <==> components(live@, links@).contains(c) by {
            if all.to_set().contains(c) {
                let i = choose|i: int| 0 <= i < all.len() && all[i] == c;
                assert(parts@[i]@ == c);
            }
            if components(live@, links@).contains(c) {
                let x = choose|x: u64| #[trigger]
                    live@.contains(x) && c == component(live@, links@, x);
                assert(!unseen@.contains(x)) by {
                    if unseen@.contains(x) {
                        unseen.list_is_complete();
                        assert(unseen.listed().contains(x));
                    }
                }
                let i = choose|i: int| 0 <= i < parts@.len() && (#[trigger] parts@[i])@.contains(x);
                components_are_a_partition(live@, links@, parts@[i]@, x);
                assert(all[i] == c);
                assert(all.contains(c));
            }
        }
        assert(all.to_set() =~= components(live@, links@));
        all.unique_seq_to_set();
    }
    parts
}

} // verus!
