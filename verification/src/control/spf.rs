//! Shortest paths from one node over a directed graph.

use vstd::prelude::*;
use crate::control::cost::{Adjacency, LinkCost};
use crate::order::{Key, Rel};
use crate::ordered_map::OrderedMap;
use crate::types::NodeId;

verus! {

/// Edges of a graph, by the node that they leave.
pub type Graph = Map<NodeId, Seq<Adjacency>>;

/// What is known of the best path to a node.
#[derive(Clone, Copy, Debug, Eq, PartialEq)]
pub struct Label {
    /// The cost of the path.
    pub cost: u32,
    /// Its number of edges, at most 255.
    pub hops: u8,
    /// The node that the path enters first; for the root, the root itself.
    pub first: NodeId,
}

/// The number of nodes for which every path cost is known to fit in `u32`.
pub const MAX_GRAPH_NODES: usize = 65_534;

/// The graph has an `i`-th edge that leaves `u`.
pub open spec fn has_edge(g: Graph, u: NodeId, i: int) -> bool {
    g.contains_key(u) && 0 <= i < g[u].len()
}

/// Every edge of the graph enters one of its nodes.
pub open spec fn is_closed(g: Graph) -> bool {
    forall|u: NodeId, i: int| #[trigger] has_edge(g, u, i) ==> g.contains_key(g[u][i].peer)
}

/// The first node on the best path to `v` whose last edge leaves `u`.
pub open spec fn via(me: NodeId, labels: Map<NodeId, Label>, u: NodeId, v: NodeId) -> NodeId {
    if u == me {
        v
    } else {
        labels[u].first
    }
}

/// The `i`-th edge of `u` is the last edge of a least-cost path to `v`.
pub open spec fn is_tight(
    g: Graph,
    labels: Map<NodeId, Label>,
    u: NodeId,
    i: int,
    v: NodeId,
) -> bool {
    &&& has_edge(g, u, i)
    &&& g[u][i].peer == v
    &&& labels.contains_key(u)
    &&& labels.contains_key(v)
    &&& labels[v].cost == labels[u].cost + g[u][i].cost.value()
}

/// Reaching `v` from `w` is preferred to reaching it from `u`: by the smaller
/// first node, then by the nearer of the two, then by the smaller of the two.
pub open spec fn is_preferred(
    me: NodeId,
    labels: Map<NodeId, Label>,
    v: NodeId,
    w: NodeId,
    u: NodeId,
) -> bool {
    let a = via(me, labels, w, v);
    let b = via(me, labels, u, v);
    ||| NodeId::before(a, b)
    ||| a == b && is_nearer(labels, w, u)
}

/// `w` is nearer than `u`, or as near with a smaller identity.
pub open spec fn is_nearer(labels: Map<NodeId, Label>, w: NodeId, u: NodeId) -> bool {
    ||| labels[w].cost < labels[u].cost
    ||| labels[w].cost == labels[u].cost && NodeId::before(w, u)
}

/// One more than a number of hops, at most 255.
pub open spec fn one_more_hop(hops: u8) -> u8 {
    if hops == 255 {
        255
    } else {
        (hops + 1) as u8
    }
}

/// The label of `v` continues the label of `u` by its `i`-th edge.
pub open spec fn continues(
    g: Graph,
    me: NodeId,
    labels: Map<NodeId, Label>,
    u: NodeId,
    i: int,
    v: NodeId,
) -> bool {
    &&& is_tight(g, labels, u, i, v)
    &&& labels[v].first == via(me, labels, u, v)
    &&& labels[v].hops == one_more_hop(labels[u].hops)
}

/// The edge continues a label and no other tight edge is preferred to it.
pub open spec fn is_chosen(
    g: Graph,
    me: NodeId,
    labels: Map<NodeId, Label>,
    u: NodeId,
    i: int,
    v: NodeId,
) -> bool {
    &&& continues(g, me, labels, u, i, v)
    &&& forall|w: NodeId, j: int| #[trigger]
        is_tight(g, labels, w, j, v) ==> !is_preferred(me, labels, v, w, u)
}

/// The label of the root.
pub open spec fn root_label(me: NodeId) -> Label {
    Label { cost: 0, hops: 0, first: me }
}

/// The labels describe the best paths from `me`.
///
/// No edge offers a shorter path than its target's label, and each label other
/// than the root's continues the label of the predecessor that is preferred
/// among all those on a least-cost path.
pub open spec fn is_solution(g: Graph, me: NodeId, labels: Map<NodeId, Label>) -> bool {
    &&& labels.contains_key(me)
    &&& labels[me] == root_label(me)
    &&& forall|u: NodeId, i: int| #[trigger]
        has_edge(g, u, i) && labels.contains_key(u) ==> {
            &&& labels.contains_key(g[u][i].peer)
            &&& labels[g[u][i].peer].cost <= labels[u].cost + g[u][i].cost.value()
        }
    &&& forall|v: NodeId| #[trigger]
        labels.contains_key(v) && v != me ==> exists|u: NodeId, i: int| #[trigger]
            is_chosen(g, me, labels, u, i, v)
}

/// The edge has been offered to its target: its node is settled, or it is
/// among the first `n` edges of the node `at` that is being expanded.
pub open spec fn is_offered(
    g: Graph,
    settled: Set<NodeId>,
    at: NodeId,
    n: int,
    u: NodeId,
    i: int,
) -> bool {
    has_edge(g, u, i) && (settled.contains(u) || u == at && i < n)
}

/// Among the offered edges, this one gives `v` its label.
pub open spec fn is_chosen_so_far(
    g: Graph,
    me: NodeId,
    labels: Map<NodeId, Label>,
    settled: Set<NodeId>,
    at: NodeId,
    n: int,
    u: NodeId,
    i: int,
    v: NodeId,
) -> bool {
    &&& continues(g, me, labels, u, i, v)
    &&& forall|w: NodeId, j: int|
        #![trigger is_offered(g, settled, at, n, w, j)]
        is_offered(g, settled, at, n, w, j) && is_tight(g, labels, w, j, v) ==> !is_preferred(
            me,
            labels,
            v,
            w,
            u,
        )
}

/// What holds while the first `n` edges of `at` have been offered.
pub open spec fn is_underway(
    g: Graph,
    me: NodeId,
    labels: Map<NodeId, Label>,
    settled: Set<NodeId>,
    at: NodeId,
    n: int,
) -> bool {
    &&& labels.contains_key(me)
    &&& labels[me] == root_label(me)
    &&& forall|v: NodeId| #[trigger] labels.contains_key(v) ==> v == me || g.contains_key(v)
    &&& forall|v: NodeId| #[trigger] settled.contains(v) ==> labels.contains_key(v)
    &&& forall|u: NodeId, w: NodeId|
        #![trigger settled.contains(u), labels.contains_key(w)]
        settled.contains(u) && labels.contains_key(w) && !settled.contains(w) ==> is_nearer(
            labels,
            u,
            w,
        )
    &&& forall|u: NodeId, i: int| #[trigger]
        is_offered(g, settled, at, n, u, i) ==> {
            &&& labels.contains_key(u)
            &&& labels.contains_key(g[u][i].peer)
            &&& labels[g[u][i].peer].cost <= labels[u].cost + g[u][i].cost.value()
        }
    &&& forall|v: NodeId| #[trigger]
        labels.contains_key(v) && v != me ==> exists|u: NodeId, i: int|
            #![trigger is_offered(g, settled, at, n, u, i)]
            is_offered(g, settled, at, n, u, i) && is_chosen_so_far(
                g,
                me,
                labels,
                settled,
                at,
                n,
                u,
                i,
                v,
            )
}

/// `at` is the nearest labelled node that is not settled.
pub open spec fn is_next(labels: Map<NodeId, Label>, settled: Set<NodeId>, at: NodeId) -> bool {
    &&& labels.contains_key(at)
    &&& !settled.contains(at)
    &&& forall|w: NodeId| #[trigger]
        labels.contains_key(w) && !settled.contains(w) && w != at ==> is_nearer(labels, at, w)
}

/// No label costs more than `edges` edges can.
pub open spec fn is_within(labels: Map<NodeId, Label>, edges: int) -> bool {
    forall|v: NodeId| #[trigger] labels.contains_key(v) ==> labels[v].cost <= 65_536 * edges
}

/// The label that the `n`-th edge of `at` offers to its target.
pub open spec fn offer(g: Graph, me: NodeId, labels: Map<NodeId, Label>, at: NodeId, n: int) -> Label {
    Label {
        cost: (labels[at].cost + g[at][n].cost.value()) as u32,
        hops: one_more_hop(labels[at].hops),
        first: via(me, labels, at, g[at][n].peer),
    }
}

/// The offer replaces what is known of the target.
pub open spec fn is_better(labels: Map<NodeId, Label>, v: NodeId, offer: Label) -> bool {
    ||| !labels.contains_key(v)
    ||| offer.cost < labels[v].cost
    ||| offer.cost == labels[v].cost && NodeId::before(offer.first, labels[v].first)
}

/// An edge whose offer is refused changes nothing.
proof fn refused_offer(
    g: Graph,
    me: NodeId,
    labels: Map<NodeId, Label>,
    settled: Set<NodeId>,
    at: NodeId,
    n: int,
)
    requires
        is_underway(g, me, labels, settled, at, n),
        is_next(labels, settled, at),
        has_edge(g, at, n),
        labels[at].cost + g[at][n].cost.value() <= u32::MAX,
        !is_better(labels, g[at][n].peer, offer(g, me, labels, at, n))
            || g[at][n].peer == me,
    ensures
        is_underway(g, me, labels, settled, at, n + 1),
{
    broadcast use LinkCost::value_is_positive;

    let peer = g[at][n].peer;
    assert forall|u: NodeId, i: int| #[trigger] is_offered(g, settled, at, n + 1, u, i) implies {
        &&& labels.contains_key(u)
        &&& labels.contains_key(g[u][i].peer)
        &&& labels[g[u][i].peer].cost <= labels[u].cost + g[u][i].cost.value()
    } by {
        if !(u == at && i == n) {
            assert(is_offered(g, settled, at, n, u, i));
        }
    }
    assert forall|v: NodeId| #[trigger] labels.contains_key(v) && v != me implies exists|
        u: NodeId,
        i: int,
    |
        #![trigger is_offered(g, settled, at, n + 1, u, i)]
        is_offered(g, settled, at, n + 1, u, i) && is_chosen_so_far(
            g,
            me,
            labels,
            settled,
            at,
            n + 1,
            u,
            i,
            v,
        ) by {
        let (u, i) = choose|u: NodeId, i: int|
            #![trigger is_offered(g, settled, at, n, u, i)]
            is_offered(g, settled, at, n, u, i) && is_chosen_so_far(
                g,
                me,
                labels,
                settled,
                at,
                n,
                u,
                i,
                v,
            );
        assert(is_offered(g, settled, at, n + 1, u, i));
        assert forall|w: NodeId, j: int|
            #![trigger is_offered(g, settled, at, n + 1, w, j)]
            is_offered(g, settled, at, n + 1, w, j) && is_tight(
                g,
                labels,
                w,
                j,
                v,
            ) implies !is_preferred(me, labels, v, w, u) by {
            if w == at && j == n {
                if peer == v {
                    NodeId::irreflexive(via(me, labels, u, v));
                    NodeId::irreflexive(u);
                    if settled.contains(u) {
                        assert(is_nearer(labels, u, at));
                        if NodeId::before(at, u) && NodeId::before(u, at) {
                            NodeId::transitive(at, u, at);
                            NodeId::irreflexive(at);
                        }
                    }
                }
            } else {
                assert(is_offered(g, settled, at, n, w, j));
            }
        }
    }
}

/// An edge whose offer is taken gives its target a new label.
proof fn taken_offer(
    g: Graph,
    me: NodeId,
    labels: Map<NodeId, Label>,
    settled: Set<NodeId>,
    at: NodeId,
    n: int,
)
    requires
        is_closed(g),
        is_underway(g, me, labels, settled, at, n),
        is_next(labels, settled, at),
        has_edge(g, at, n),
        labels[at].cost + g[at][n].cost.value() <= u32::MAX,
        is_better(labels, g[at][n].peer, offer(g, me, labels, at, n)),
        g[at][n].peer != me,
    ensures
        is_underway(
            g,
            me,
            labels.insert(g[at][n].peer, offer(g, me, labels, at, n)),
            settled,
            at,
            n + 1,
        ),
        is_next(labels.insert(g[at][n].peer, offer(g, me, labels, at, n)), settled, at),
        !settled.contains(g[at][n].peer),
        g[at][n].peer != at,
{
    broadcast use LinkCost::value_is_positive;

    let peer = g[at][n].peer;
    let new = labels.insert(peer, offer(g, me, labels, at, n));
    assert(g.contains_key(peer));
    if settled.contains(peer) {
        assert(is_nearer(labels, peer, at));
        assert(false);
    }
    assert forall|w: NodeId| #[trigger]
        new.contains_key(w) && !settled.contains(w) && w != at implies is_nearer(new, at, w) by {
        if w != peer {
            assert(labels.contains_key(w));
        }
    }
    assert forall|u: NodeId, w: NodeId|
        #![trigger settled.contains(u), new.contains_key(w)]
        settled.contains(u) && new.contains_key(w) && !settled.contains(w) implies is_nearer(
        new,
        u,
        w,
    ) by {
        assert(labels.contains_key(at));
        assert(is_nearer(labels, u, at));
        if w != peer {
            assert(labels.contains_key(w));
        }
    }
    assert forall|u: NodeId, i: int| #[trigger] is_offered(g, settled, at, n + 1, u, i) implies {
        &&& new.contains_key(u)
        &&& new.contains_key(g[u][i].peer)
        &&& new[g[u][i].peer].cost <= new[u].cost + g[u][i].cost.value()
        &&& u != peer
    } by {
        if !(u == at && i == n) {
            assert(is_offered(g, settled, at, n, u, i));
        }
    }
    assert forall|v: NodeId| #[trigger] new.contains_key(v) && v != me implies exists|
        u: NodeId,
        i: int,
    |
        #![trigger is_offered(g, settled, at, n + 1, u, i)]
        is_offered(g, settled, at, n + 1, u, i) && is_chosen_so_far(
            g,
            me,
            new,
            settled,
            at,
            n + 1,
            u,
            i,
            v,
        ) by {
        if v == peer {
            assert(is_offered(g, settled, at, n + 1, at, n));
            assert forall|w: NodeId, j: int|
                #![trigger is_offered(g, settled, at, n + 1, w, j)]
                is_offered(g, settled, at, n + 1, w, j) && is_tight(
                    g,
                    new,
                    w,
                    j,
                    v,
                ) implies !is_preferred(me, new, v, w, at) by {
                if w == at {
                    NodeId::irreflexive(via(me, new, at, v));
                    NodeId::irreflexive(at);
                } else {
                    assert(is_offered(g, settled, at, n, w, j));
                    assert(labels.contains_key(v));
                    assert(is_tight(g, labels, w, j, v));
                    let (u, i) = choose|u: NodeId, i: int|
                        #![trigger is_offered(g, settled, at, n, u, i)]
                        is_offered(g, settled, at, n, u, i) && is_chosen_so_far(
                            g,
                            me,
                            labels,
                            settled,
                            at,
                            n,
                            u,
                            i,
                            v,
                        );
                    assert(!is_preferred(me, labels, v, w, u));
                    let a = via(me, labels, at, v);
                    let b = via(me, labels, w, v);
                    let c = via(me, labels, u, v);
                    NodeId::connected(b, c);
                    NodeId::irreflexive(a);
                    if NodeId::before(b, a) {
                        NodeId::transitive(b, a, c);
                    }
                    if c == b {
                        if NodeId::before(b, a) {
                            NodeId::transitive(a, c, a);
                        }
                    } else {
                        NodeId::transitive(a, c, b);
                        if NodeId::before(b, a) {
                            NodeId::transitive(a, b, a);
                        }
                    }
                }
            }
            assert(is_chosen_so_far(g, me, new, settled, at, n + 1, at, n, v));
        } else {
            assert(labels.contains_key(v));
            let (u, i) = choose|u: NodeId, i: int|
                #![trigger is_offered(g, settled, at, n, u, i)]
                is_offered(g, settled, at, n, u, i) && is_chosen_so_far(
                    g,
                    me,
                    labels,
                    settled,
                    at,
                    n,
                    u,
                    i,
                    v,
                );
            assert(is_offered(g, settled, at, n + 1, u, i));
            assert forall|w: NodeId, j: int|
                #![trigger is_offered(g, settled, at, n + 1, w, j)]
                is_offered(g, settled, at, n + 1, w, j) && is_tight(
                    g,
                    new,
                    w,
                    j,
                    v,
                ) implies !is_preferred(me, new, v, w, u) by {
                assert(is_offered(g, settled, at, n, w, j));
                assert(is_tight(g, labels, w, j, v));
                assert(!is_preferred(me, labels, v, w, u));
            }
            assert(is_chosen_so_far(g, me, new, settled, at, n + 1, u, i, v));
        }
    }
}

/// A node whose edges have all been offered is settled.
proof fn settle(
    g: Graph,
    me: NodeId,
    labels: Map<NodeId, Label>,
    settled: Set<NodeId>,
    at: NodeId,
    n: int,
    next: NodeId,
)
    requires
        is_underway(g, me, labels, settled, at, n),
        is_next(labels, settled, at),
        g.contains_key(at) ==> n == g[at].len(),
    ensures
        is_underway(g, me, labels, settled.insert(at), next, 0),
{
    let more = settled.insert(at);
    assert forall|u: NodeId, i: int| #[trigger] is_offered(g, more, next, 0, u, i) == is_offered(
        g,
        settled,
        at,
        n,
        u,
        i,
    ) by {}
    assert forall|v: NodeId| #[trigger] labels.contains_key(v) && v != me implies exists|
        u: NodeId,
        i: int,
    |
        #![trigger is_offered(g, more, next, 0, u, i)]
        is_offered(g, more, next, 0, u, i) && is_chosen_so_far(
            g,
            me,
            labels,
            more,
            next,
            0,
            u,
            i,
            v,
        ) by {
        let (u, i) = choose|u: NodeId, i: int|
            #![trigger is_offered(g, settled, at, n, u, i)]
            is_offered(g, settled, at, n, u, i) && is_chosen_so_far(
                g,
                me,
                labels,
                settled,
                at,
                n,
                u,
                i,
                v,
            );
        assert(is_offered(g, more, next, 0, u, i));
    }
}

/// Once every labelled node is settled, the labels are the solution.
proof fn finished(
    g: Graph,
    me: NodeId,
    labels: Map<NodeId, Label>,
    settled: Set<NodeId>,
    at: NodeId,
)
    requires
        is_underway(g, me, labels, settled, at, 0),
        forall|v: NodeId| #[trigger] labels.contains_key(v) ==> settled.contains(v),
    ensures
        is_solution(g, me, labels),
{
    assert forall|u: NodeId, i: int| #[trigger]
        has_edge(g, u, i) && labels.contains_key(u) implies {
        &&& labels.contains_key(g[u][i].peer)
        &&& labels[g[u][i].peer].cost <= labels[u].cost + g[u][i].cost.value()
    } by {
        assert(is_offered(g, settled, at, 0, u, i));
    }
    assert forall|v: NodeId| #[trigger] labels.contains_key(v) && v != me implies exists|
        u: NodeId,
        i: int,
    | #[trigger] is_chosen(g, me, labels, u, i, v) by {
        let (u, i) = choose|u: NodeId, i: int|
            #![trigger is_offered(g, settled, at, 0, u, i)]
            is_offered(g, settled, at, 0, u, i) && is_chosen_so_far(
                g,
                me,
                labels,
                settled,
                at,
                0,
                u,
                i,
                v,
            );
        assert forall|w: NodeId, j: int| #[trigger] is_tight(g, labels, w, j, v) implies !is_preferred(
            me,
            labels,
            v,
            w,
            u,
        ) by {
            assert(is_offered(g, settled, at, 0, w, j));
        }
        assert(is_chosen(g, me, labels, u, i, v));
    }
}

/// The edges that an exec map holds, by the node that they leave.
pub open spec fn edges_of(map: Map<NodeId, Vec<Adjacency>>) -> Graph {
    Map::new(|u: NodeId| map.contains_key(u), |u: NodeId| map[u]@)
}

/// The nearest labelled node that is not settled.
fn next_node(labels: &OrderedMap<NodeId, Label>, settled: &OrderedMap<NodeId, ()>) -> (next: Option<
    (NodeId, Label),
>)
    requires
        labels.wf(),
        settled.wf(),
    ensures
        match next {
            Some((at, label)) => {
                &&& is_next(labels@, settled@.dom(), at)
                &&& label == labels@[at]
            },
            None => forall|v: NodeId| #[trigger]
                labels@.contains_key(v) ==> settled@.contains_key(v),
        },
{
    let mut next: Option<(NodeId, Label)> = None;
    let mut i: usize = 0;
    proof {
        labels.ranks_list_domain();
    }
    while i < labels.len()
        invariant
            labels.wf(),
            settled.wf(),
            i <= labels.ranks().len(),
            crate::order::lists::<NodeId>(labels.ranks(), labels@.dom()),
            match next {
                Some((at, label)) => {
                    &&& labels@.contains_key(at)
                    &&& !settled@.contains_key(at)
                    &&& label == labels@[at]
                    &&& exists|k: int| 0 <= k < i && #[trigger] labels.ranks()[k] == at
                    &&& forall|k: int|
                        0 <= k < i && !settled@.contains_key(#[trigger] labels.ranks()[k])
                            && labels.ranks()[k] != at ==> is_nearer(
                            labels@,
                            at,
                            labels.ranks()[k],
                        )
                },
                None => forall|k: int|
                    0 <= k < i ==> settled@.contains_key(#[trigger] labels.ranks()[k]),
            },
        decreases labels.ranks().len() - i,
    {
        let node: NodeId = *labels.key_at(i);
        let label: Label = *labels.value_at(i);
        if !settled.contains_key(&node) {
            let closer: bool = match next {
                Some((_, best)) => label.cost < best.cost,
                None => true,
            };
            if closer {
                next = Some((node, label));
            }
        }
        i = i + 1;
    }
    proof {
        assert forall|v: NodeId| #[trigger] labels@.contains_key(v) implies labels.ranks().contains(
            v,
        ) by {
            assert(labels@.dom().contains(v));
        }
    }
    next
}

/// Which node is being expanded does not matter before its first edge.
proof fn at_any(
    g: Graph,
    me: NodeId,
    labels: Map<NodeId, Label>,
    settled: Set<NodeId>,
    at: NodeId,
)
    requires
        is_underway(g, me, labels, settled, me, 0),
    ensures
        is_underway(g, me, labels, settled, at, 0),
{
    assert forall|u: NodeId, i: int| #[trigger]
        is_offered(g, settled, at, 0, u, i) == is_offered(g, settled, me, 0, u, i) by {}
    assert forall|v: NodeId| #[trigger] labels.contains_key(v) && v != me implies exists|
        u: NodeId,
        i: int,
    |
        #![trigger is_offered(g, settled, at, 0, u, i)]
        is_offered(g, settled, at, 0, u, i) && is_chosen_so_far(
            g,
            me,
            labels,
            settled,
            at,
            0,
            u,
            i,
            v,
        ) by {
        let (u, i) = choose|u: NodeId, i: int|
            #![trigger is_offered(g, settled, me, 0, u, i)]
            is_offered(g, settled, me, 0, u, i) && is_chosen_so_far(
                g,
                me,
                labels,
                settled,
                me,
                0,
                u,
                i,
                v,
            );
        assert(is_offered(g, settled, at, 0, u, i));
    }
}

/// While a labelled node is left to settle, fewer nodes are settled than the
/// graph and the root hold together.
proof fn room_to_settle(
    g: Graph,
    me: NodeId,
    labels: Map<NodeId, Label>,
    settled: Set<NodeId>,
    at: NodeId,
)
    requires
        is_underway(g, me, labels, settled, me, 0),
        is_next(labels, settled, at),
        g.dom().finite(),
        settled.finite(),
    ensures
        settled.len() <= g.dom().len(),
{
    let all = g.dom().insert(me);
    assert(settled.insert(at).subset_of(all)) by {
        assert forall|v: NodeId| settled.insert(at).contains(v) implies all.contains(v) by {
            if settled.contains(v) {
                assert(labels.contains_key(v));
            }
        }
    }
    vstd::set_lib::lemma_len_subset(settled.insert(at), all);
}

/// Labels every node that can be reached from `me` with its best path.
pub fn label_nodes(graph: &OrderedMap<NodeId, Vec<Adjacency>>, me: NodeId) -> (labels: OrderedMap<
    NodeId,
    Label,
>)
    requires
        graph.wf(),
        is_closed(edges_of(graph@)),
        graph@.dom().len() <= MAX_GRAPH_NODES,
    ensures
        labels.wf(),
        is_solution(edges_of(graph@), me, labels@),
{
    let ghost g = edges_of(graph@);
    let mut labels: OrderedMap<NodeId, Label> = OrderedMap::new();
    let mut settled: OrderedMap<NodeId, ()> = OrderedMap::new();
    labels.insert(me, Label { cost: 0, hops: 0, first: me });
    proof {
        graph.ranks_list_domain();
        settled.ranks_list_domain();
        assert(is_underway(g, me, labels@, settled@.dom(), me, 0));
    }
    let mut next = next_node(&labels, &settled);
    while next.is_some()
        invariant
            g == edges_of(graph@),
            graph.wf(),
            graph@.dom().finite(),
            graph@.dom().len() <= MAX_GRAPH_NODES,
            is_closed(g),
            labels.wf(),
            settled.wf(),
            settled@.dom().finite(),
            is_underway(g, me, labels@, settled@.dom(), me, 0),
            is_within(labels@, settled@.dom().len() as int),
            match next {
                Some((at, label)) => {
                    &&& is_next(labels@, settled@.dom(), at)
                    &&& label == labels@[at]
                },
                None => forall|v: NodeId| #[trigger]
                    labels@.contains_key(v) ==> settled@.contains_key(v),
            },
        decreases graph@.dom().len() + 1 - settled@.dom().len(),
    {
        let (at, label) = next.unwrap();
        let ghost before = settled@.dom();
        proof {
            assert(g.dom() =~= graph@.dom());
            room_to_settle(g, me, labels@, before, at);
            at_any(g, me, labels@, before, at);
        }
        match graph.get(&at) {
            None => {
                proof {
                    settle(g, me, labels@, before, at, 0, me);
                }
            },
            Some(edges) => {
                let mut n: usize = 0;
                while n < edges.len()
                    invariant
                        g == edges_of(graph@),
                        graph@.contains_key(at),
                        *edges == graph@[at],
                        is_closed(g),
                        n <= edges@.len(),
                        labels.wf(),
                        settled@.dom() == before,
                        before.len() <= MAX_GRAPH_NODES,
                        is_underway(g, me, labels@, before, at, n as int),
                        is_next(labels@, before, at),
                        label == labels@[at],
                        label.cost <= 65_536 * before.len(),
                        is_within(labels@, (before.len() + 1) as int),
                    decreases edges@.len() - n,
                {
                    let edge: Adjacency = edges[n];
                    proof {
                        assert(has_edge(g, at, n as int));
                        assert(g[at][n as int] == edge);
                    }
                    let offered = Label {
                        cost: label.cost + edge.cost.get() as u32,
                        hops: if label.hops == 255 {
                            255
                        } else {
                            label.hops + 1
                        },
                        first: if at == me {
                            edge.peer
                        } else {
                            label.first
                        },
                    };
                    assert(offered == offer(g, me, labels@, at, n as int));
                    let better: bool = match labels.get(&edge.peer) {
                        None => true,
                        Some(current) => if offered.cost < current.cost {
                            true
                        } else if offered.cost == current.cost {
                            match offered.first.relate(&current.first) {
                                Rel::Before => true,
                                _ => false,
                            }
                        } else {
                            false
                        },
                    };
                    if better {
                        proof {
                            taken_offer(g, me, labels@, before, at, n as int);
                        }
                        labels.insert(edge.peer, offered);
                    } else {
                        proof {
                            refused_offer(g, me, labels@, before, at, n as int);
                        }
                    }
                    n = n + 1;
                }
                proof {
                    settle(g, me, labels@, before, at, n as int, me);
                }
            },
        }
        settled.insert(at, ());
        proof {
            assert(settled@.dom() =~= before.insert(at));
        }
        next = next_node(&labels, &settled);
    }
    proof {
        finished(g, me, labels@, settled@.dom(), me);
    }
    labels
}

/// Offers the edges of `at` from the `n`-th on.
proof fn offer_rest(
    g: Graph,
    me: NodeId,
    labels: Map<NodeId, Label>,
    settled: Set<NodeId>,
    at: NodeId,
    n: int,
) -> (after: Map<NodeId, Label>)
    requires
        is_closed(g),
        settled.len() <= MAX_GRAPH_NODES,
        is_underway(g, me, labels, settled, at, n),
        is_next(labels, settled, at),
        g.contains_key(at),
        0 <= n <= g[at].len(),
        labels[at].cost <= 65_536 * settled.len(),
        is_within(labels, (settled.len() + 1) as int),
    ensures
        is_underway(g, me, after, settled, at, g[at].len() as int),
        is_next(after, settled, at),
        is_within(after, (settled.len() + 1) as int),
    decreases g[at].len() - n,
{
    if n == g[at].len() {
        labels
    } else {
        LinkCost::value_is_bounded(g[at][n].cost);
        assert(has_edge(g, at, n));
        let peer = g[at][n].peer;
        let offered = offer(g, me, labels, at, n);
        if is_better(labels, peer, offered) && peer != me {
            taken_offer(g, me, labels, settled, at, n);
            offer_rest(g, me, labels.insert(peer, offered), settled, at, n + 1)
        } else {
            refused_offer(g, me, labels, settled, at, n);
            offer_rest(g, me, labels, settled, at, n + 1)
        }
    }
}

/// Some node that is not settled is nearest.
proof fn nearest(labels: Map<NodeId, Label>, settled: Set<NodeId>, left: Set<NodeId>) -> (at: NodeId)
    requires
        left.finite(),
        left.len() > 0,
        forall|v: NodeId| #[trigger]
            left.contains(v) ==> labels.contains_key(v) && !settled.contains(v),
    ensures
        left.contains(at),
        forall|w: NodeId| #[trigger] left.contains(w) && w != at ==> is_nearer(labels, at, w),
    decreases left.len(),
{
    let v = left.choose();
    let rest = left.remove(v);
    if rest.len() == 0 {
        assert forall|w: NodeId| #[trigger] left.contains(w) && w != v implies is_nearer(
            labels,
            v,
            w,
        ) by {
            assert(rest.contains(w));
        }
        v
    } else {
        let u = nearest(labels, settled, rest);
        NodeId::connected(u, v);
        if is_nearer(labels, u, v) {
            assert forall|w: NodeId| #[trigger] left.contains(w) && w != u implies is_nearer(
                labels,
                u,
                w,
            ) by {
                if w != v {
                    assert(rest.contains(w));
                }
            }
            u
        } else {
            assert forall|w: NodeId| #[trigger] left.contains(w) && w != v implies is_nearer(
                labels,
                v,
                w,
            ) by {
                assert(rest.contains(w));
                if w != u {
                    assert(is_nearer(labels, u, w));
                    if labels[v].cost == labels[u].cost && labels[u].cost == labels[w].cost {
                        NodeId::transitive(v, u, w);
                    }
                }
            }
            v
        }
    }
}

/// Settles what is left.
proof fn settle_rest(g: Graph, me: NodeId, labels: Map<NodeId, Label>, settled: Set<NodeId>) -> (after:
    Map<NodeId, Label>)
    requires
        is_closed(g),
        g.dom().finite(),
        g.dom().len() <= MAX_GRAPH_NODES,
        settled.finite(),
        is_underway(g, me, labels, settled, me, 0),
        is_within(labels, settled.len() as int),
    ensures
        is_solution(g, me, after),
    decreases g.dom().len() + 1 - settled.len(),
{
    let left = labels.dom().difference(settled);
    let all = g.dom().insert(me);
    assert(labels.dom().subset_of(all)) by {
        assert forall|v: NodeId| labels.dom().contains(v) implies all.contains(v) by {
            assert(labels.contains_key(v));
        }
    }
    vstd::set_lib::lemma_set_subset_finite(all, labels.dom());
    if left.len() == 0 {
        assert forall|v: NodeId| #[trigger] labels.contains_key(v) implies settled.contains(v) by {
            if !settled.contains(v) {
                assert(left.contains(v));
            }
        }
        finished(g, me, labels, settled, me);
        labels
    } else {
        let at = nearest(labels, settled, left);
        assert forall|w: NodeId| #[trigger]
            labels.contains_key(w) && !settled.contains(w) && w != at implies is_nearer(
            labels,
            at,
            w,
        ) by {
            assert(left.contains(w));
        }
        room_to_settle(g, me, labels, settled, at);
        at_any(g, me, labels, settled, at);
        let more = if g.contains_key(at) {
            let more = offer_rest(g, me, labels, settled, at, 0);
            settle(g, me, more, settled, at, g[at].len() as int, me);
            more
        } else {
            settle(g, me, labels, settled, at, 0, me);
            labels
        };
        settle_rest(g, me, more, settled.insert(at))
    }
}

/// Every graph within the bound has a solution.
pub proof fn solution_exists(g: Graph, me: NodeId) -> (labels: Map<NodeId, Label>)
    requires
        is_closed(g),
        g.dom().finite(),
        g.dom().len() <= MAX_GRAPH_NODES,
    ensures
        is_solution(g, me, labels),
{
    let labels = Map::empty().insert(me, root_label(me));
    assert(is_underway(g, me, labels, Set::empty(), me, 0));
    settle_rest(g, me, labels, Set::empty())
}

} // verus!
