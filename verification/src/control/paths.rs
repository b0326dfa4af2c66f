//! What the labels of a solution say about the paths of the graph.

use vstd::prelude::*;
use crate::control::cost::LinkCost;
use crate::control::spf;
use crate::control::spf::{Graph, Label};
use crate::order::Key;
use crate::types::NodeId;

verus! {

/// The edges, each given by its node and index, lead from `me` to `v`.
pub open spec fn is_path(g: Graph, me: NodeId, path: Seq<(NodeId, int)>, v: NodeId) -> bool
    decreases path.len(),
{
    if path.len() == 0 {
        v == me
    } else {
        let (u, i) = path.last();
        &&& spf::has_edge(g, u, i)
        &&& g[u][i].peer == v
        &&& is_path(g, me, path.drop_last(), u)
    }
}

/// The sum of the costs of the edges.
pub open spec fn path_cost(g: Graph, path: Seq<(NodeId, int)>) -> int
    decreases path.len(),
{
    if path.len() == 0 {
        0
    } else {
        let (u, i) = path.last();
        path_cost(g, path.drop_last()) + g[u][i].cost.value()
    }
}

/// The node that a path enters first.
pub open spec fn first_node(g: Graph, path: Seq<(NodeId, int)>) -> NodeId {
    g[path[0].0][path[0].1].peer
}

/// Whatever a path reaches is labelled, at no more than the cost of the path.
pub proof fn no_path_is_shorter(
    g: Graph,
    me: NodeId,
    labels: Map<NodeId, Label>,
    path: Seq<(NodeId, int)>,
    v: NodeId,
)
    requires
        spf::is_solution(g, me, labels),
        is_path(g, me, path, v),
    ensures
        labels.contains_key(v),
        labels[v].cost <= path_cost(g, path),
    decreases path.len(),
{
    if path.len() > 0 {
        let (u, i) = path.last();
        no_path_is_shorter(g, me, labels, path.drop_last(), u);
        assert(spf::has_edge(g, u, i) && labels.contains_key(u));
    }
}

/// Every label is the cost, the first node and the number of edges, as far as
/// that is counted, of some path.
pub proof fn label_is_realised(
    g: Graph,
    me: NodeId,
    labels: Map<NodeId, Label>,
    v: NodeId,
) -> (path: Seq<(NodeId, int)>)
    requires
        spf::is_solution(g, me, labels),
        labels.contains_key(v),
    ensures
        is_path(g, me, path, v),
        path_cost(g, path) == labels[v].cost,
        labels[v].hops == if path.len() < 255 {
            path.len() as u8
        } else {
            255u8
        },
        v == me ==> path.len() == 0,
        v != me ==> path.len() > 0 && first_node(g, path) == labels[v].first,
    decreases labels[v].cost,
{
    broadcast use LinkCost::value_is_positive;

    if v == me {
        Seq::empty()
    } else {
        let (u, i) = choose|u: NodeId, i: int| #[trigger] spf::is_chosen(g, me, labels, u, i, v);
        let rest = label_is_realised(g, me, labels, u);
        let path = rest.push((u, i));
        assert(path.drop_last() =~= rest);
        assert(path.last() == (u, i));
        if u != me {
            assert(path[0] == rest[0]);
        }
        path
    }
}

/// No least-cost path enters a smaller first node than the label says.
pub proof fn no_first_node_is_smaller(
    g: Graph,
    me: NodeId,
    labels: Map<NodeId, Label>,
    path: Seq<(NodeId, int)>,
    v: NodeId,
)
    requires
        spf::is_solution(g, me, labels),
        is_path(g, me, path, v),
        v != me,
        path_cost(g, path) == labels[v].cost,
    ensures
        path.len() > 0,
        !NodeId::before(first_node(g, path), labels[v].first),
    decreases path.len(),
{
    broadcast use LinkCost::value_is_positive;

    let (u, i) = path.last();
    let rest = path.drop_last();
    no_path_is_shorter(g, me, labels, rest, u);
    no_path_is_shorter(g, me, labels, path, v);
    assert(spf::has_edge(g, u, i) && labels.contains_key(u));
    assert(spf::is_tight(g, labels, u, i, v));
    let (a, j) = choose|a: NodeId, j: int| #[trigger] spf::is_chosen(g, me, labels, a, j, v);
    assert(!spf::is_preferred(me, labels, v, u, a));
    let first = labels[v].first;
    if u == me {
        path_cost_is_positive(g, rest);
        assert(rest.len() == 0);
        assert(path[0] == (u, i));
    } else {
        no_first_node_is_smaller(g, me, labels, rest, u);
        assert(path[0] == rest[0]);
        let f = first_node(g, path);
        let b = labels[u].first;
        if NodeId::before(f, first) {
            NodeId::connected(f, b);
            if NodeId::before(b, f) {
                NodeId::transitive(b, f, first);
            }
        }
    }
}

/// A path with an edge costs something.
pub proof fn path_cost_is_positive(g: Graph, path: Seq<(NodeId, int)>)
    ensures
        path_cost(g, path) >= path.len(),
    decreases path.len(),
{
    broadcast use LinkCost::value_is_positive;

    if path.len() > 0 {
        path_cost_is_positive(g, path.drop_last());
    }
}

/// Any two solutions agree on which nodes are labelled and at what cost.
proof fn same_costs(g: Graph, me: NodeId, a: Map<NodeId, Label>, b: Map<NodeId, Label>, v: NodeId)
    requires
        spf::is_solution(g, me, a),
        spf::is_solution(g, me, b),
        a.contains_key(v),
    ensures
        b.contains_key(v),
        a[v].cost == b[v].cost,
{
    let p = label_is_realised(g, me, a, v);
    no_path_is_shorter(g, me, b, p, v);
    let q = label_is_realised(g, me, b, v);
    no_path_is_shorter(g, me, a, q, v);
}

/// Any two solutions agree on each label.
proof fn same_label(g: Graph, me: NodeId, a: Map<NodeId, Label>, b: Map<NodeId, Label>, v: NodeId)
    requires
        spf::is_solution(g, me, a),
        spf::is_solution(g, me, b),
        a.contains_key(v),
    ensures
        b.contains_key(v),
        a[v] == b[v],
    decreases a[v].cost,
{
    broadcast use LinkCost::value_is_positive;

    same_costs(g, me, a, b, v);
    if v != me {
        let (u, i) = choose|u: NodeId, i: int| #[trigger] spf::is_chosen(g, me, a, u, i, v);
        let (w, j) = choose|w: NodeId, j: int| #[trigger] spf::is_chosen(g, me, b, w, j, v);
        same_costs(g, me, b, a, w);
        same_label(g, me, a, b, u);
        same_label(g, me, a, b, w);
        assert(spf::is_tight(g, a, w, j, v));
        assert(spf::is_tight(g, b, u, i, v));
        assert(!spf::is_preferred(me, a, v, w, u));
        assert(!spf::is_preferred(me, b, v, u, w));
        NodeId::connected(spf::via(me, a, u, v), spf::via(me, a, w, v));
        NodeId::connected(u, w);
    }
}

/// A graph has only one solution for a root: the labels depend on nothing
/// else.
pub proof fn solution_is_unique(g: Graph, me: NodeId, a: Map<NodeId, Label>, b: Map<NodeId, Label>)
    requires
        spf::is_solution(g, me, a),
        spf::is_solution(g, me, b),
    ensures
        a == b,
{
    assert forall|v: NodeId| #[trigger] a.contains_key(v) == b.contains_key(v) && (a.contains_key(
        v,
    ) ==> a[v] == b[v]) by {
        if a.contains_key(v) {
            same_label(g, me, a, b, v);
        }
        if b.contains_key(v) {
            same_label(g, me, b, a, v);
        }
    }
    assert(a =~= b);
}

/// Without its first edge, a path leads on from the node it entered first.
pub proof fn path_continues(g: Graph, me: NodeId, path: Seq<(NodeId, int)>, v: NodeId)
    requires
        is_path(g, me, path, v),
        path.len() > 0,
    ensures
        spf::has_edge(g, path[0].0, path[0].1),
        path[0].0 == me,
        is_path(g, first_node(g, path), path.drop_first(), v),
        path_cost(g, path) == path_cost(g, path.drop_first())
            + g[path[0].0][path[0].1].cost.value(),
    decreases path.len(),
{
    let (u, i) = path.last();
    let rest = path.drop_last();
    if path.len() == 1 {
        assert(is_path(g, me, rest, u) && rest.len() == 0);
        assert(path_cost(g, rest) == 0);
        assert(path.drop_first().len() == 0);
    } else {
        path_continues(g, me, rest, u);
        assert(rest[0] == path[0]);
        assert(path.drop_first().drop_last() =~= rest.drop_first());
        assert(path.drop_first().last() == path.last());
    }
}

/// Seen from the first node of the best path, the destination is strictly
/// nearer. Nodes that know the same graph and hand a packet to the first node
/// of their own best path therefore never let it return to where it was.
pub proof fn first_node_is_nearer(
    g: Graph,
    me: NodeId,
    mine: Map<NodeId, Label>,
    theirs: Map<NodeId, Label>,
    v: NodeId,
)
    requires
        spf::is_solution(g, me, mine),
        mine.contains_key(v),
        v != me,
        spf::is_solution(g, mine[v].first, theirs),
    ensures
        theirs.contains_key(v),
        theirs[v].cost < mine[v].cost,
{
    broadcast use LinkCost::value_is_positive;

    let path = label_is_realised(g, me, mine, v);
    path_continues(g, me, path, v);
    no_path_is_shorter(g, mine[v].first, theirs, path.drop_first(), v);
}

} // verus!
