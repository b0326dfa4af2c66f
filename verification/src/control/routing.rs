//! What routes are for: they are the shortest ways over the links that both
//! ends announce.

use vstd::prelude::*;
use crate::control::cost::{Adjacency, LinkCost};
use crate::control::laws;
use crate::control::message::{ActionView, ControlTimer, EventView, MessageView};
use crate::control::model;
use crate::control::model::{EntryView, PlaneView};
use crate::control::paths;
use crate::control::runs;
use crate::control::runs::Step;
use crate::control::spf;
use crate::control::table::Route;
use crate::order::Key;
use crate::ordered_map::OrderedMap;
use crate::types::{LinkId, MonoTime, NodeId};

verus! {

/// The announcement of `u` that is in force lists the edge.
pub open spec fn announces(lsdb: Map<NodeId, EntryView>, u: NodeId, edge: Adjacency) -> bool {
    lsdb.contains_key(u) && (lsdb[u].active matches Some(active)
        && active.message.lsa.adjacencies.contains(edge))
}

/// `u` announces the edge, and its far end announces one back, at whatever
/// cost.
pub open spec fn both_announce(lsdb: Map<NodeId, EntryView>, u: NodeId, edge: Adjacency) -> bool {
    announces(lsdb, u, edge) && exists|cost: LinkCost|
        announces(lsdb, edge.peer, #[trigger] edge_to(u, cost))
}

/// An edge to a node.
pub open spec fn edge_to(peer: NodeId, cost: LinkCost) -> Adjacency {
    Adjacency { peer, cost }
}

/// Where a walk has come to before its `k`-th step.
pub open spec fn stands_at(from: NodeId, walk: Seq<Adjacency>, k: int) -> NodeId {
    if k <= 0 {
        from
    } else {
        walk[k - 1].peer
    }
}

/// Each step of the walk is a link that both of its ends announce, and the
/// last one enters `to`.
pub open spec fn leads(
    lsdb: Map<NodeId, EntryView>,
    from: NodeId,
    walk: Seq<Adjacency>,
    to: NodeId,
) -> bool {
    &&& stands_at(from, walk, walk.len() as int) == to
    &&& forall|k: int|
        0 <= k < walk.len() ==> both_announce(lsdb, stands_at(from, walk, k), #[trigger] walk[k])
}

/// The sum of the costs of the steps.
pub open spec fn length(walk: Seq<Adjacency>) -> int
    decreases walk.len(),
{
    if walk.len() == 0 {
        0
    } else {
        length(walk.drop_last()) + walk.last().cost.value()
    }
}

/// The graph has an edge exactly where both ends announce one, at the cost that
/// the node announces that it leaves: however many edges there are, none is
/// left out, and none is added.
pub proof fn graph_has_what_both_announce(lsdb: Map<NodeId, EntryView>, u: NodeId, edge: Adjacency)
    ensures
        model::graph(lsdb).contains_key(u) <==> lsdb.contains_key(u) && lsdb[u].active is Some,
        (exists|i: int| #[trigger]
            spf::has_edge(model::graph(lsdb), u, i) && model::graph(lsdb)[u][i] == edge)
            <==> both_announce(lsdb, u, edge),
{
    broadcast use vstd::seq_lib::group_filter_ensures;

    let g = model::graph(lsdb);
    if g.contains_key(u) {
        let mutual = |edge: Adjacency| model::is_mutual(lsdb, u, edge);
        let announced = model::message_of(lsdb, u).lsa.adjacencies;
        assert(g[u] == announced.filter(mutual));
        if exists|i: int| #[trigger] spf::has_edge(g, u, i) && g[u][i] == edge {
            let i = choose|i: int| #[trigger] spf::has_edge(g, u, i) && g[u][i] == edge;
            assert(g[u].contains(edge));
            announced.lemma_filter_contains_rev(mutual, edge);
            assert(mutual(edge));
            let back = model::message_of(lsdb, edge.peer).lsa.adjacencies;
            let k = choose|k: int| 0 <= k < back.len() && (#[trigger] back[k]).peer == u;
            assert(back.contains(back[k]));
            assert(back[k] == edge_to(u, back[k].cost));
            assert(both_announce(lsdb, u, edge));
        }
        if both_announce(lsdb, u, edge) {
            let cost = choose|cost: LinkCost|
                announces(lsdb, edge.peer, #[trigger] edge_to(u, cost));
            let back = model::message_of(lsdb, edge.peer).lsa.adjacencies;
            let k = choose|k: int| 0 <= k < back.len() && back[k] == edge_to(u, cost);
            assert(back[k].peer == u);
            assert(mutual(edge));
            assert(g[u].contains(edge));
            let i = choose|i: int| 0 <= i < g[u].len() && g[u][i] == edge;
            assert(spf::has_edge(g, u, i));
        }
    }
}

/// A walk is a path of the graph.
proof fn walks_are_paths(
    lsdb: Map<NodeId, EntryView>,
    from: NodeId,
    walk: Seq<Adjacency>,
    to: NodeId,
) -> (path: Seq<(NodeId, int)>)
    requires
        leads(lsdb, from, walk, to),
    ensures
        paths::is_path(model::graph(lsdb), from, path, to),
        paths::path_cost(model::graph(lsdb), path) == length(walk),
        path.len() == walk.len(),
        walk.len() > 0 ==> paths::first_node(model::graph(lsdb), path) == walk[0].peer,
    decreases walk.len(),
{
    let g = model::graph(lsdb);
    if walk.len() == 0 {
        Seq::empty()
    } else {
        let less = walk.drop_last();
        let u = stands_at(from, walk, walk.len() - 1);
        assert forall|k: int| 0 <= k < less.len() implies both_announce(
            lsdb,
            stands_at(from, less, k),
            #[trigger] less[k],
        ) by {
            assert(less[k] == walk[k]);
        }
        let rest = walks_are_paths(lsdb, from, less, u);
        let edge = walk.last();
        assert(both_announce(lsdb, u, walk[walk.len() - 1]));
        graph_has_what_both_announce(lsdb, u, edge);
        let i = choose|i: int| #[trigger] spf::has_edge(g, u, i) && g[u][i] == edge;
        let path = rest.push((u, i));
        assert(path.drop_last() =~= rest);
        assert(path.last() == (u, i));
        if walk.len() > 1 {
            assert(path[0] == rest[0]);
            assert(walk[0] == less[0]);
        }
        path
    }
}

/// A path of the graph is a walk.
proof fn paths_are_walks(
    lsdb: Map<NodeId, EntryView>,
    from: NodeId,
    path: Seq<(NodeId, int)>,
    to: NodeId,
) -> (walk: Seq<Adjacency>)
    requires
        paths::is_path(model::graph(lsdb), from, path, to),
    ensures
        leads(lsdb, from, walk, to),
        paths::path_cost(model::graph(lsdb), path) == length(walk),
        path.len() == walk.len(),
        walk.len() > 0 ==> paths::first_node(model::graph(lsdb), path) == walk[0].peer,
    decreases path.len(),
{
    let g = model::graph(lsdb);
    if path.len() == 0 {
        Seq::empty()
    } else {
        let (u, i) = path.last();
        let less = paths_are_walks(lsdb, from, path.drop_last(), u);
        let edge = g[u][i];
        graph_has_what_both_announce(lsdb, u, edge);
        assert(spf::has_edge(g, u, i) && g[u][i] == edge);
        let walk = less.push(edge);
        assert(walk.drop_last() =~= less);
        assert forall|k: int| 0 <= k < walk.len() implies both_announce(
            lsdb,
            stands_at(from, walk, k),
            #[trigger] walk[k],
        ) by {
            if k < less.len() {
                assert(less[k] == walk[k]);
                assert(stands_at(from, less, k) == stands_at(from, walk, k));
            } else {
                assert(stands_at(from, less, k) == stands_at(from, walk, k));
            }
        }
        if path.len() > 1 {
            assert(path[0] == path.drop_last()[0]);
            assert(walk[0] == less[0]);
        }
        walk
    }
}

/// The own announcement in force lists no peer that no local link leads to.
pub open spec fn lists_local_peers(p: PlaneView) -> bool {
    forall|edge: Adjacency| #[trigger]
        announces(p.lsdb, p.me, edge) ==> exists|link: LinkId| #[trigger]
            p.adjacencies.contains_key(link) && p.adjacencies[link].peer == edge.peer
}

/// Whatever happens to a node whose announcements are signed as they are, its
/// own announcement lists no peer that no local link leads to.
pub proof fn nodes_list_local_peers(me: NodeId, epoch: u32, last_seq: u64, steps: Seq<Step>)
    requires
        runs::all_faithful(model::initial(me, epoch, last_seq), steps),
    ensures
        lists_local_peers(runs::after(model::initial(me, epoch, last_seq), steps)),
        runs::after(model::initial(me, epoch, last_seq), steps).adjacencies.dom().finite(),
{
    let p = runs::after(model::initial(me, epoch, last_seq), steps);
    runs::own_announcement_lists_what_is_up(me, epoch, last_seq, steps);
    runs::links_are_those_that_are_up(me, epoch, last_seq, steps);
    announced_peers_are_local(p);
}

/// A node that announces its links lists no peer that no local link leads to.
pub proof fn announced_peers_are_local(p: PlaneView)
    requires
        laws::announces_its_links(p),
        p.adjacencies.dom().finite(),
    ensures
        lists_local_peers(p),
{
    assert forall|edge: Adjacency| #[trigger] announces(p.lsdb, p.me, edge) implies exists|
        link: LinkId,
    | #[trigger] p.adjacencies.contains_key(link) && p.adjacencies[link].peer == edge.peer by {
        laws::announced_edges_are_the_cheapest(p.adjacencies);
        let edges = model::advertised(p.adjacencies);
        let k = choose|k: int| 0 <= k < edges.len() && edges[k] == edge;
        assert(model::is_cheapest(p.adjacencies, edges[k].peer, edges[k].cost));
        let link = choose|link: LinkId| #[trigger]
            model::leads_to(p.adjacencies, link, edge.peer) && p.adjacencies[link].cost
                == edge.cost;
        assert(p.adjacencies.contains_key(link));
    }
}

/// The computation of routes that the timer stands for is due.
pub open spec fn is_due(p: PlaneView, now: MonoTime, generation: u64) -> bool {
    p.pending_spf matches Some(pending) && pending.generation == generation
        && pending.at.millis() <= now.millis()
}

/// The routes once a hold timer has come.
pub open spec fn routes_then(
    p: PlaneView,
    now: MonoTime,
    generation: u64,
    signed: MessageView,
    accepted: bool,
) -> Map<NodeId, Route> {
    model::transition(
        p,
        now,
        EventView::Timer(ControlTimer::SpfHold { generation }),
        signed,
        accepted,
    ).0.routes.routes
}

/// When routes are computed, there is one to every other node that can be
/// reached over links that both of their ends announce, and to no other node.
pub proof fn reachable_nodes_have_routes(
    p: PlaneView,
    now: MonoTime,
    generation: u64,
    signed: MessageView,
    accepted: bool,
    v: NodeId,
)
    requires
        model::is_valid(p),
        p.adjacencies.dom().finite(),
        lists_local_peers(p),
        is_due(p, now, generation),
    ensures
        routes_then(p, now, generation, signed, accepted).contains_key(v) <==> v != p.me && exists|
            walk: Seq<Adjacency>,
        | #[trigger] leads(p.lsdb, p.me, walk, v),
{
    let g = model::graph(p.lsdb);
    let labels = model::best_paths(p);
    laws::best_paths_exist(p);
    if v != p.me {
        if labels.contains_key(v) {
            let path = paths::label_is_realised(g, p.me, labels, v);
            let walk = paths_are_walks(p.lsdb, p.me, path, v);
            assert(leads(p.lsdb, p.me, walk, v));
            labelled_nodes_have_routes(p, v);
        }
        if exists|walk: Seq<Adjacency>| #[trigger] leads(p.lsdb, p.me, walk, v) {
            let walk = choose|walk: Seq<Adjacency>| #[trigger] leads(p.lsdb, p.me, walk, v);
            let path = walks_are_paths(p.lsdb, p.me, walk, v);
            paths::no_path_is_shorter(g, p.me, labels, path, v);
        }
    }
}

/// A route costs what the shortest way costs, and leaves over a link to the
/// first node of a shortest way: no way is shorter, none as short enters a
/// smaller node first, and the hops are counted on one that is as short and
/// enters that node first.
pub proof fn routes_follow_shortest_ways(
    p: PlaneView,
    now: MonoTime,
    generation: u64,
    signed: MessageView,
    accepted: bool,
    v: NodeId,
) -> (way: Seq<Adjacency>)
    requires
        model::is_valid(p),
        p.adjacencies.dom().finite(),
        lists_local_peers(p),
        is_due(p, now, generation),
        routes_then(p, now, generation, signed, accepted).contains_key(v),
    ensures
        ({
            let route = routes_then(p, now, generation, signed, accepted)[v];
            &&& leads(p.lsdb, p.me, way, v)
            &&& way.len() > 0
            &&& route.cost == length(way)
            &&& route.hops == if way.len() < 255 {
                way.len() as int
            } else {
                255
            }
            &&& p.adjacencies.contains_key(route.next_hop)
            &&& p.adjacencies[route.next_hop].peer == way[0].peer
            &&& forall|walk: Seq<Adjacency>| #[trigger]
                leads(p.lsdb, p.me, walk, v) ==> {
                    &&& length(way) <= length(walk)
                    &&& length(way) == length(walk) ==> walk.len() > 0 && !NodeId::before(
                        walk[0].peer,
                        way[0].peer,
                    )
                }
        }),
{
    let g = model::graph(p.lsdb);
    let labels = model::best_paths(p);
    laws::best_paths_exist(p);
    laws::routes_leave_over_the_best_link(p, v);
    let path = paths::label_is_realised(g, p.me, labels, v);
    let way = paths_are_walks(p.lsdb, p.me, path, v);
    assert forall|walk: Seq<Adjacency>| #[trigger] leads(p.lsdb, p.me, walk, v) implies {
        &&& length(way) <= length(walk)
        &&& length(way) == length(walk) ==> walk.len() > 0 && !NodeId::before(
            walk[0].peer,
            way[0].peer,
        )
    } by {
        let other = walks_are_paths(p.lsdb, p.me, walk, v);
        paths::no_path_is_shorter(g, p.me, labels, other, v);
        if length(way) == length(walk) {
            paths::no_first_node_is_smaller(g, p.me, labels, other, v);
        }
    }
    way
}

/// Of several links to one neighbour, routes leave over the one that costs
/// least, and over the one with the least number where several cost that.
pub proof fn routes_leave_over_the_cheapest_link(
    p: PlaneView,
    now: MonoTime,
    generation: u64,
    signed: MessageView,
    accepted: bool,
    v: NodeId,
    other: LinkId,
)
    requires
        p.adjacencies.dom().finite(),
        is_due(p, now, generation),
        routes_then(p, now, generation, signed, accepted).contains_key(v),
        p.adjacencies.contains_key(other),
        p.adjacencies[other].peer == p.adjacencies[routes_then(
            p,
            now,
            generation,
            signed,
            accepted,
        )[v].next_hop].peer,
    ensures
        ({
            let link = routes_then(p, now, generation, signed, accepted)[v].next_hop;
            let least = p.adjacencies[link].cost.value();
            let cost = p.adjacencies[other].cost.value();
            least < cost || least == cost && link.value() <= other.value()
        }),
{
    laws::routes_leave_over_the_best_link(p, v);
    assert(model::leads_to(p.adjacencies, other, model::best_paths(p)[v].first));
}

/// What the way to a node costs: nothing to the node itself.
pub open spec fn cost_to(
    p: PlaneView,
    routes: Map<NodeId, Route>,
    u: NodeId,
) -> int {
    if u == p.me {
        0
    } else {
        routes[u].cost as int
    }
}

/// A shortest way to `v` leads over `u`, which it is announced from, and leaves
/// over a link to the given neighbour.
pub open spec fn leads_over(
    p: PlaneView,
    routes: Map<NodeId, Route>,
    u: NodeId,
    edge: Adjacency,
    v: NodeId,
    neighbour: NodeId,
) -> bool {
    &&& both_announce(p.lsdb, u, edge)
    &&& edge.peer == v
    &&& u == p.me || routes.contains_key(u)
    &&& routes[v].cost == cost_to(p, routes, u) + edge.cost.value()
    &&& neighbour == if u == p.me {
        v
    } else {
        p.adjacencies[routes[u].next_hop].peer
    }
}

/// A route goes on from that of the last node before its destination, over the
/// same link and with one hop more: of all nodes that shortest ways over the
/// same neighbour lead over last, the nearest, and among those the least.
pub proof fn routes_continue_one_another(
    p: PlaneView,
    now: MonoTime,
    generation: u64,
    signed: MessageView,
    accepted: bool,
    v: NodeId,
) -> (last: (NodeId, Adjacency))
    requires
        model::is_valid(p),
        p.adjacencies.dom().finite(),
        lists_local_peers(p),
        is_due(p, now, generation),
        routes_then(p, now, generation, signed, accepted).contains_key(v),
    ensures
        ({
            let routes = routes_then(p, now, generation, signed, accepted);
            let neighbour = p.adjacencies[routes[v].next_hop].peer;
            let (u, edge) = last;
            &&& leads_over(p, routes, u, edge, v, neighbour)
            &&& u == p.me ==> routes[v].hops == 1
            &&& u != p.me ==> routes[v].hops == if routes[u].hops < 255 {
                routes[u].hops + 1
            } else {
                255
            }
            &&& u != p.me ==> routes[v].next_hop == routes[u].next_hop
            &&& forall|w: NodeId, other: Adjacency| #[trigger]
                leads_over(p, routes, w, other, v, neighbour) ==> {
                    ||| cost_to(p, routes, u) < cost_to(p, routes, w)
                    ||| cost_to(p, routes, u) == cost_to(p, routes, w) && !NodeId::before(w, u)
                }
        }),
{
    let g = model::graph(p.lsdb);
    let me = p.me;
    let labels = model::best_paths(p);
    let routes = routes_then(p, now, generation, signed, accepted);
    laws::best_paths_exist(p);
    laws::routes_leave_over_the_best_link(p, v);
    let neighbour = p.adjacencies[routes[v].next_hop].peer;
    assert(neighbour == labels[v].first);
    let (u, i) = choose|u: NodeId, i: int| #[trigger] spf::is_chosen(g, me, labels, u, i, v);
    let edge = g[u][i];
    assert(spf::is_tight(g, labels, u, i, v));
    graph_has_what_both_announce(p.lsdb, u, edge);
    assert(spf::has_edge(g, u, i) && g[u][i] == edge);
    if u != me {
        labelled_nodes_have_routes(p, u);
        laws::routes_leave_over_the_best_link(p, u);
    }
    assert forall|w: NodeId, other: Adjacency| #[trigger]
        leads_over(p, routes, w, other, v, neighbour) implies {
        ||| cost_to(p, routes, u) < cost_to(p, routes, w)
        ||| cost_to(p, routes, u) == cost_to(p, routes, w) && !NodeId::before(w, u)
    } by {
        graph_has_what_both_announce(p.lsdb, w, other);
        let j = choose|j: int| #[trigger] spf::has_edge(g, w, j) && g[w][j] == other;
        if w != me {
            laws::routes_leave_over_the_best_link(p, w);
        }
        assert(labels.contains_key(w));
        assert(spf::is_tight(g, labels, w, j, v));
        assert(!spf::is_preferred(me, labels, v, w, u));
    }
    (u, edge)
}

/// A node with a best path has a route.
proof fn labelled_nodes_have_routes(p: PlaneView, v: NodeId)
    requires
        model::is_valid(p),
        p.adjacencies.dom().finite(),
        lists_local_peers(p),
        model::best_paths(p).contains_key(v),
        v != p.me,
    ensures
        model::best_routes(p).contains_key(v),
{
    let g = model::graph(p.lsdb);
    let labels = model::best_paths(p);
    laws::best_paths_exist(p);
    let path = paths::label_is_realised(g, p.me, labels, v);
    let walk = paths_are_walks(p.lsdb, p.me, path, v);
    assert(both_announce(p.lsdb, stands_at(p.me, walk, 0), walk[0]));
    assert(announces(p.lsdb, p.me, walk[0]));
    let link = choose|link: LinkId| #[trigger]
        p.adjacencies.contains_key(link) && p.adjacencies[link].peer == walk[0].peer;
    assert(model::leads_to(p.adjacencies, link, labels[v].first));
}

/// A computation of routes is over once it is made, and the next one is held
/// back twice as long, up to five seconds. The routes are published, under the
/// next number, exactly if they are not those that were published before.
pub proof fn computations_publish_what_changed(
    p: PlaneView,
    now: MonoTime,
    generation: u64,
    signed: MessageView,
    accepted: bool,
)
    requires
        is_due(p, now, generation),
        p.routes.version < u64::MAX,
    ensures
        ({
            let event = EventView::Timer(ControlTimer::SpfHold { generation });
            let (q, actions) = model::transition(p, now, event, signed, accepted);
            &&& q.pending_spf is None
            &&& q.spf_hold_ms == if 2 * p.spf_hold_ms < 5_000 {
                2 * p.spf_hold_ms
            } else {
                5_000
            }
            &&& q.lsdb == p.lsdb && q.adjacencies == p.adjacencies && q.my_seq == p.my_seq
            &&& q.last_lsdb_change_at == p.last_lsdb_change_at
            &&& if q.routes.routes == p.routes.routes {
                q.routes.version == p.routes.version && actions == Seq::<ActionView>::empty()
            } else {
                &&& q.routes.version == p.routes.version + 1
                &&& actions == seq![ActionView::PublishRoutes(q.routes)]
            }
        }),
{
}

/// Until its time has come, and for a computation that is not the one due, a
/// hold timer computes nothing. One that comes early is set again.
pub proof fn computations_wait_for_their_time(
    p: PlaneView,
    now: MonoTime,
    generation: u64,
    signed: MessageView,
    accepted: bool,
)
    requires
        !is_due(p, now, generation),
    ensures
        ({
            let timer = ControlTimer::SpfHold { generation };
            let (q, actions) = model::transition(
                p,
                now,
                EventView::Timer(timer),
                signed,
                accepted,
            );
            &&& q == p
            &&& if p.pending_spf is Some && p.pending_spf->0.generation == generation {
                actions == seq![ActionView::SetTimer { timer, at: p.pending_spf->0.at }]
            } else {
                actions == Seq::<ActionView>::empty()
            }
        }),
{
}

/// The labels of a graph whose edges lead to its nodes are those of its shortest
/// paths: a node is labelled exactly if there is a path to it, at the least cost
/// of one, and with the number of edges of one that costs that.
pub proof fn labels_are_those_of_shortest_paths(
    graph: &OrderedMap<NodeId, Vec<Adjacency>>,
    me: NodeId,
    labels: OrderedMap<NodeId, spf::Label>,
    v: NodeId,
)
    requires
        call_ensures(spf::label_nodes, (graph, me), labels),
        graph.wf(),
        spf::is_closed(spf::edges_of(graph@)),
    ensures
        ({
            let g = spf::edges_of(graph@);
            &&& labels@.contains_key(v) <==> exists|path: Seq<(NodeId, int)>| #[trigger]
                paths::is_path(g, me, path, v)
            &&& labels@.contains_key(v) ==> exists|path: Seq<(NodeId, int)>| #[trigger]
                paths::is_path(g, me, path, v) && paths::path_cost(g, path) == labels@[v].cost
                    && labels@[v].hops == if path.len() < 255 {
                    path.len() as int
                } else {
                    255
                }
            &&& forall|path: Seq<(NodeId, int)>| #[trigger]
                paths::is_path(g, me, path, v) ==> labels@[v].cost <= paths::path_cost(g, path)
        }),
{
    let g = spf::edges_of(graph@);
    if labels@.contains_key(v) {
        let path = paths::label_is_realised(g, me, labels@, v);
        assert(paths::is_path(g, me, path, v));
    }
    assert forall|path: Seq<(NodeId, int)>| #[trigger] paths::is_path(g, me, path, v) implies
        labels@.contains_key(v) && labels@[v].cost <= paths::path_cost(g, path) by {
        paths::no_path_is_shorter(g, me, labels@, path, v);
    }
}

} // verus!
