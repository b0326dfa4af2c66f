//! What the laboratory promises of the links and nodes that it keeps.

use vstd::prelude::*;
use crate::lab::graph::LabLink;
use crate::lab::links;
use crate::lab::links::{ConnectTask, LabError, LabLinks};
use crate::lab::nodes;
use crate::lab::nodes::{HealthStep, LabNodes, ManagedNode};
use crate::lab::numbers::Number;
use crate::lab::state::NodeInfo;
use crate::order;
use crate::order::Key;
use crate::text;

verus! {

/// The link has the two nodes as its ends, either way round.
pub open spec fn is_between(link: LabLink, a: u64, b: u64) -> bool {
    (link.a == a && link.b == b) || (link.a == b && link.b == a)
}

/// Some link is between the two nodes.
pub open spec fn is_linked(all: Map<u64, LabLink>, a: u64, b: u64) -> bool {
    exists|id: u64| #[trigger] all.contains_key(id) && is_between(all[id], a, b)
}

/// No two links are between the same nodes.
pub open spec fn are_single(all: Map<u64, LabLink>) -> bool {
    forall|p: u64, q: u64| #[trigger]
        all.contains_key(p) && #[trigger] all.contains_key(q) && is_between(
            all[p],
            all[q].a,
            all[q].b,
        ) ==> p == q
}

/// A link is made between two different nodes that have none yet, at a cost that
/// is not zero, and not otherwise. It gets the next number, is wanted, is not
/// yet up, and impairs nothing. No other link is touched.
pub proof fn links_are_made(
    kept: &mut LabLinks,
    a: u64,
    b: u64,
    cost: u16,
    made: Result<u64, LabError>,
)
    requires
        old(kept).wf(),
        call_ensures(LabLinks::begin_connect, (kept, a, b, cost), made),
    ensures
        made is Ok <==> a != b && cost > 0 && !is_linked(old(kept)@.links, a, b),
        made matches Ok(id) ==> {
            let link = final(kept)@.links[id];
            &&& id == old(kept)@.next_link
            &&& final(kept)@.links.contains_key(id)
            &&& link.id == id && link.a == a && link.b == b && link.cost == cost
            &&& link.desired_up && !link.up
            &&& link.latency_ms == 0 && link.loss_per_million == 0 && link.bandwidth_kbps == 0
            &&& final(kept)@.links.remove(id) == old(kept)@.links.remove(id)
            &&& final(kept)@.next_link == if id < u64::MAX {
                id + 1
            } else {
                0
            }
            &&& final(kept)@.pace_ms == old(kept)@.pace_ms
            &&& are_single(old(kept)@.links) && !old(kept)@.links.contains_key(id) ==> are_single(
                final(kept)@.links,
            )
        },
        made matches Err(error) ==> error.status == 400 && final(kept)@ == old(kept)@,
{
    let before = old(kept)@.links;
    let after = final(kept)@.links;
    if links::has_link(before, a, b) {
        let id = choose|id: u64| #[trigger]
            before.contains_key(id) && links::connects(before[id], a, b);
        assert(is_between(before[id], a, b));
    }
    if is_linked(before, a, b) {
        let id = choose|id: u64| #[trigger]
            before.contains_key(id) && is_between(before[id], a, b);
        assert(links::connects(before[id], a, b));
    }
    if let Ok(id) = made {
        assert(after.remove(id) =~= before.remove(id));
        if are_single(before) && !before.contains_key(id) {
            assert forall|p: u64, q: u64| #[trigger]
                after.contains_key(p) && #[trigger] after.contains_key(q) && is_between(
                    after[p],
                    after[q].a,
                    after[q].b,
                ) implies p == q by {
                if p == id && q != id {
                    assert(before.contains_key(q) && is_between(before[q], a, b));
                } else if q == id && p != id {
                    assert(before.contains_key(p) && is_between(before[p], a, b));
                } else if p != id && q != id {
                    assert(before.contains_key(p) && before.contains_key(q));
                }
            }
        }
    }
}

/// The link differs from another at most in whether it is up and wanted.
pub open spec fn is_same_but_for_state(link: LabLink, other: LabLink) -> bool {
    &&& link.id == other.id && link.a == other.a && link.b == other.b && link.cost == other.cost
    &&& link.latency_ms == other.latency_ms
    &&& link.loss_per_million == other.loss_per_million
    &&& link.bandwidth_kbps == other.bandwidth_kbps
}

/// Turning over a link that is wanted takes it down at once: it is neither
/// wanted nor up. Turning over one that is not wanted changes nothing yet, and
/// asks for it to be opened. There is nothing to turn over but links that are
/// kept.
pub proof fn links_are_turned_over(kept: &mut LabLinks, id: u64, to_open: Result<bool, LabError>)
    requires
        old(kept).wf(),
        call_ensures(LabLinks::toggle, (kept, id), to_open),
    ensures
        to_open is Ok <==> old(kept)@.links.contains_key(id),
        to_open matches Err(error) ==> error.status == 404 && final(kept)@ == old(kept)@,
        to_open matches Ok(open) ==> {
            let before = old(kept)@.links[id];
            let after = final(kept)@.links[id];
            &&& open == !before.desired_up
            &&& open ==> final(kept)@ == old(kept)@
            &&& !open ==> {
                &&& final(kept)@.links.contains_key(id)
                &&& !after.desired_up && !after.up
                &&& is_same_but_for_state(after, before)
                &&& final(kept)@.links.remove(id) == old(kept)@.links.remove(id)
                &&& final(kept)@.next_link == old(kept)@.next_link
                &&& final(kept)@.pace_ms == old(kept)@.pace_ms
            }
        },
{
    assert(to_open is Ok && !to_open->Ok_0 ==> final(kept)@.links.remove(id)
        =~= old(kept)@.links.remove(id));
}

/// A link that was not wanted and was opened is wanted and up from then on.
pub proof fn links_are_raised(kept: &mut LabLinks, id: u64, raised: Result<LabLink, LabError>)
    requires
        old(kept).wf(),
        call_ensures(LabLinks::raised, (kept, id), raised),
    ensures
        raised is Ok <==> old(kept)@.links.contains_key(id),
        raised matches Err(error) ==> error.status == 404 && final(kept)@ == old(kept)@,
        raised matches Ok(link) ==> {
            &&& final(kept)@.links.contains_key(id)
            &&& final(kept)@.links[id] == link
            &&& link.desired_up && link.up
            &&& is_same_but_for_state(link, old(kept)@.links[id])
            &&& final(kept)@.links.remove(id) == old(kept)@.links.remove(id)
            &&& final(kept)@.next_link == old(kept)@.next_link
            &&& final(kept)@.pace_ms == old(kept)@.pace_ms
        },
{
    assert(raised is Ok ==> final(kept)@.links.remove(id) =~= old(kept)@.links.remove(id));
}

/// A link that was opened is up, and as wanted as before.
pub proof fn opened_links_are_up(kept: &mut LabLinks, id: u64)
    requires
        old(kept).wf(),
        call_ensures(LabLinks::opened, (kept, id), ()),
    ensures
        old(kept)@.links.contains_key(id) ==> {
            let before = old(kept)@.links[id];
            let after = final(kept)@.links[id];
            &&& final(kept)@.links.contains_key(id)
            &&& after.up && after.desired_up == before.desired_up
            &&& is_same_but_for_state(after, before)
        },
        final(kept)@.links.remove(id) == old(kept)@.links.remove(id),
        !old(kept)@.links.contains_key(id) ==> final(kept)@ == old(kept)@,
        final(kept)@.next_link == old(kept)@.next_link,
        final(kept)@.pace_ms == old(kept)@.pace_ms,
{
    assert(final(kept)@.links.remove(id) =~= old(kept)@.links.remove(id));
}

/// Conditions are set of the link that they are for, and nothing else of it or
/// of another link changes.
pub proof fn conditions_are_set(
    kept: &mut LabLinks,
    id: u64,
    latency_ms: u64,
    loss_per_million: u64,
    bandwidth_kbps: u64,
    set: Result<LabLink, LabError>,
)
    requires
        old(kept).wf(),
        call_ensures(
            LabLinks::set_conditions,
            (kept, id, latency_ms, loss_per_million, bandwidth_kbps),
            set,
        ),
    ensures
        set is Ok <==> old(kept)@.links.contains_key(id),
        set matches Err(error) ==> error.status == 404 && final(kept)@ == old(kept)@,
        set matches Ok(link) ==> {
            let before = old(kept)@.links[id];
            &&& final(kept)@.links.contains_key(id) && final(kept)@.links[id] == link
            &&& link.latency_ms == latency_ms
            &&& link.loss_per_million == loss_per_million
            &&& link.bandwidth_kbps == bandwidth_kbps
            &&& link.id == before.id && link.a == before.a && link.b == before.b
            &&& link.cost == before.cost
            &&& link.up == before.up && link.desired_up == before.desired_up
            &&& final(kept)@.links.remove(id) == old(kept)@.links.remove(id)
            &&& final(kept)@.next_link == old(kept)@.next_link
            &&& final(kept)@.pace_ms == old(kept)@.pace_ms
        },
{
    assert(set is Ok ==> final(kept)@.links.remove(id) =~= old(kept)@.links.remove(id));
}

/// The pace is set if it is no more than two seconds, and the links that are
/// wanted are given, each once and by ascending number.
pub proof fn the_pace_is_set(
    kept: &mut LabLinks,
    pace_ms: u64,
    set: Result<Vec<LabLink>, LabError>,
)
    requires
        old(kept).wf(),
        call_ensures(LabLinks::set_pace, (kept, pace_ms), set),
    ensures
        set is Ok <==> pace_ms <= 2_000,
        set matches Err(error) ==> error.status == 400 && final(kept)@ == old(kept)@,
        set matches Ok(list) ==> {
            &&& final(kept)@.pace_ms == pace_ms
            &&& final(kept)@.links == old(kept)@.links
            &&& final(kept)@.next_link == old(kept)@.next_link
            &&& forall|link: LabLink| #[trigger]
                list@.contains(link) <==> old(kept)@.links.contains_key(link.id)
                    && old(kept)@.links[link.id] == link && link.desired_up
            &&& forall|i: int, j: int|
                0 <= i < j < list@.len() ==> (#[trigger] list@[i]).id < (#[trigger] list@[j]).id
        },
{
    if let Ok(list) = set {
        let all = old(kept)@.links;
        old(kept).links_have_numbers();
        let ids = links::wanted(all);
        assert(ids.subset_of(all.dom()));
        vstd::set_lib::lemma_set_subset_finite(all.dom(), ids);
        listed_links_are_all(all, ids);
        assert forall|link: LabLink| #[trigger] list@.contains(link) <==> all.contains_key(link.id)
            && all[link.id] == link && link.desired_up by {
            assert(list@.contains(link) <==> ids.contains(link.id) && all[link.id] == link);
        }
    }
}

/// What a list of links by number holds.
proof fn listed_links_are_all(all: Map<u64, LabLink>, ids: Set<u64>)
    requires
        ids.finite(),
        ids.subset_of(all.dom()),
        forall|id: u64| #[trigger] all.contains_key(id) ==> all[id].id == id,
    ensures
        forall|link: LabLink| #[trigger]
            links::listed(all, ids).contains(link) <==> ids.contains(link.id) && all[link.id]
                == link,
        forall|i: int, j: int|
            0 <= i < j < links::listed(all, ids).len() ==> (#[trigger] links::listed(
                all,
                ids,
            )[i]).id < (#[trigger] links::listed(all, ids)[j]).id,
{
    let numbers = order::finite_sets_are_listed::<Number>(ids);
    let list = links::listed(all, ids);
    assert forall|i: int| 0 <= i < numbers.len() implies (#[trigger] list[i]).id == numbers[i]
        && ids.contains(numbers[i]) by {
        assert(numbers.contains(numbers[i]));
        assert(all.contains_key(numbers[i]));
    }
    assert forall|link: LabLink| #[trigger] list.contains(link) <==> ids.contains(link.id)
        && all[link.id] == link by {
        if list.contains(link) {
            let k = choose|k: int| 0 <= k < list.len() && list[k] == link;
            assert(list[k].id == numbers[k]);
        }
        if ids.contains(link.id) && all[link.id] == link {
            assert(numbers.contains(link.id));
            let k = choose|k: int| 0 <= k < numbers.len() && numbers[k] == link.id;
            assert(list[k] == link);
        }
    }
    assert forall|i: int, j: int| 0 <= i < j < list.len() implies (#[trigger] list[i]).id < (
    #[trigger] list[j]).id by {
        assert(Number::before(numbers[i], numbers[j]));
    }
}

/// All links that are kept are given, each once and by ascending number.
pub proof fn all_links_are_given(kept: &LabLinks, list: Vec<LabLink>)
    requires
        kept.wf(),
        call_ensures(LabLinks::all, (kept,), list),
    ensures
        forall|link: LabLink| #[trigger]
            list@.contains(link) <==> kept@.links.contains_key(link.id) && kept@.links[link.id]
                == link,
        forall|i: int, j: int|
            0 <= i < j < list@.len() ==> (#[trigger] list@[i]).id < (#[trigger] list@[j]).id,
{
    kept.links_have_numbers();
    listed_links_are_all(kept@.links, kept@.links.dom());
}

/// The links that end at a node are given, each once and in ascending order;
/// where that is asked for, only those that are wanted.
pub proof fn links_of_a_node_are_given(
    kept: &LabLinks,
    node: u64,
    desired_only: bool,
    ids: Vec<u64>,
)
    requires
        kept.wf(),
        call_ensures(LabLinks::incident_link_ids, (kept, node, desired_only), ids),
    ensures
        forall|id: u64| #[trigger]
            ids@.contains(id) <==> kept@.links.contains_key(id) && (kept@.links[id].a == node
                || kept@.links[id].b == node) && (desired_only ==> kept@.links[id].desired_up),
        forall|i: int, j: int|
            0 <= i < j < ids@.len() ==> (#[trigger] ids@[i]) < (#[trigger] ids@[j]),
{
    let keep = links::incident(kept@.links, node, desired_only);
    kept.links_have_numbers();
    assert(keep.subset_of(kept@.links.dom()));
    vstd::set_lib::lemma_set_subset_finite(kept@.links.dom(), keep);
    let listed = order::finite_sets_are_listed::<Number>(keep);
    assert forall|i: int, j: int| 0 <= i < j < ids@.len() implies (#[trigger] ids@[i]) < (
    #[trigger] ids@[j]) by {
        assert(Number::before(listed[i], listed[j]));
    }
    assert forall|id: u64| #[trigger] ids@.contains(id) <==> kept@.links.contains_key(id) && (
    kept@.links[id].a == node || kept@.links[id].b == node) && (desired_only
        ==> kept@.links[id].desired_up) by {
        assert(ids@.contains(id) <==> keep.contains(id));
    }
}

/// When a node goes, exactly the links that end at it are forgotten.
pub proof fn links_go_with_their_node(kept: &mut LabLinks, node: u64, id: u64)
    requires
        old(kept).wf(),
        call_ensures(LabLinks::remove_incident, (kept, node), ()),
    ensures
        final(kept)@.links.contains_key(id) <==> old(kept)@.links.contains_key(id)
            && old(kept)@.links[id].a != node && old(kept)@.links[id].b != node,
        final(kept)@.links.contains_key(id) ==> final(kept)@.links[id] == old(kept)@.links[id],
        final(kept)@.next_link == old(kept)@.next_link,
        final(kept)@.pace_ms == old(kept)@.pace_ms,
{
}

/// A link that is forgotten is no longer kept, and no other is forgotten.
pub proof fn links_are_forgotten(kept: &mut LabLinks, id: u64)
    requires
        old(kept).wf(),
        call_ensures(LabLinks::remove, (kept, id), ()),
    ensures
        !final(kept)@.links.contains_key(id),
        final(kept)@.links == old(kept)@.links.remove(id),
        final(kept)@.next_link == old(kept)@.next_link,
        final(kept)@.pace_ms == old(kept)@.pace_ms,
{
}

/// A link is found by its number.
pub proof fn links_are_found(kept: &LabLinks, id: u64, found: Result<LabLink, LabError>)
    requires
        kept.wf(),
        call_ensures(LabLinks::get, (kept, id), found),
    ensures
        match found {
            Ok(link) => kept@.links.contains_key(id) && link == kept@.links[id] && link.id == id,
            Err(error) => !kept@.links.contains_key(id) && error.status == 404,
        },
{
    kept.links_have_numbers();
}

/// The task comes before the one at the index.
pub open spec fn comes_before(tasks: Seq<ConnectTask>, task: ConnectTask, n: int) -> bool {
    exists|i: int| 0 <= i < n && #[trigger] tasks[i] == task
}

/// To open a link, both of its ends must run before anything is done. Then a
/// proxy that is left over is stopped and a new one started in front of the far
/// end, both ends are told of each other and of the cost, and only then the near
/// end connects, once. The proxy is kept at the very end.
pub proof fn links_are_opened_step_by_step(link: &LabLink, tasks: Vec<ConnectTask>, i: int)
    requires
        call_ensures(links::connect_tasks, (link,), tasks),
        0 <= i < tasks@.len(),
    ensures
        tasks@.len() == 8,
        match tasks@[i] {
            ConnectTask::Require { node } => node == link.a || node == link.b,
            other => comes_before(tasks@, ConnectTask::Require { node: link.a }, i)
                && comes_before(tasks@, ConnectTask::Require { node: link.b }, i),
        },
        tasks@[i] matches ConnectTask::StartProxy { far } ==> far == link.b && comes_before(
            tasks@,
            ConnectTask::StopProxy,
            i,
        ),
        tasks@[i] matches ConnectTask::Allow { node, peer, cost } ==> cost == link.cost && (node
            == link.a && peer == link.b || node == link.b && peer == link.a) && comes_before(
            tasks@,
            ConnectTask::StartProxy { far: link.b },
            i,
        ),
        tasks@[i] matches ConnectTask::Connect { node, peer, cost } ==> {
            &&& node == link.a && peer == link.b && cost == link.cost
            &&& comes_before(
                tasks@,
                ConnectTask::Allow { node: link.a, peer: link.b, cost: link.cost },
                i,
            )
            &&& comes_before(
                tasks@,
                ConnectTask::Allow { node: link.b, peer: link.a, cost: link.cost },
                i,
            )
        },
        tasks@[i] is KeepProxy <==> i == 7,
        i == 7 ==> comes_before(
            tasks@,
            ConnectTask::Connect { node: link.a, peer: link.b, cost: link.cost },
            i,
        ),
{
    let all = tasks@;
    assert(all[0] == ConnectTask::Require { node: link.a });
    assert(all[1] == ConnectTask::Require { node: link.b });
    assert(all[2] == ConnectTask::StopProxy);
    assert(all[3] == ConnectTask::StartProxy { far: link.b });
    assert(all[4] == ConnectTask::Allow { node: link.a, peer: link.b, cost: link.cost });
    assert(all[5] == ConnectTask::Allow { node: link.b, peer: link.a, cost: link.cost });
    assert(all[6] == ConnectTask::Connect { node: link.a, peer: link.b, cost: link.cost });
    assert(all[7] == ConnectTask::KeepProxy);
}

/// When a task fails after the proxy was started and before it is kept, the
/// proxy is stopped; otherwise there is none to stop.
pub proof fn proxies_are_not_left_over(
    link: &LabLink,
    tasks: Vec<ConnectTask>,
    i: int,
    stops: bool,
)
    requires
        call_ensures(links::connect_tasks, (link,), tasks),
        0 <= i < 7,
        i < tasks@.len(),
        call_ensures(links::stops_proxy, (&tasks@[i],), stops),
    ensures
        stops <==> comes_before(tasks@, ConnectTask::StartProxy { far: link.b }, i),
{
    assert(tasks@[3] == ConnectTask::StartProxy { far: link.b });
    assert(!(tasks@[0] is StartProxy) && !(tasks@[1] is StartProxy) && !(tasks@[2] is StartProxy));
}

/// A link is restored with a node if it ends there; where only wanted links are
/// asked for, it must be wanted too.
pub proof fn links_are_restored(link: &LabLink, node: u64, desired_only: bool, restored: bool)
    requires
        call_ensures(links::should_restore_link, (link, node, desired_only), restored),
    ensures
        restored <==> (link.a == node || link.b == node) && (desired_only ==> link.desired_up),
{
}

/// A node can be used exactly if its process runs and it answers. A restart goes
/// on though a far end is stopped, and not after any other failure.
pub proof fn only_running_nodes_are_used(
    id: u64,
    name: &str,
    process_runs: bool,
    answers: bool,
    checked: Result<(), LabError>,
    status: u16,
    goes_on: bool,
)
    requires
        call_ensures(links::require_running, (id, name, process_runs, answers), checked),
        call_ensures(links::restart_goes_on, (status,), goes_on),
    ensures
        checked is Ok <==> process_runs && answers,
        checked matches Err(error) ==> error.status == 503,
        goes_on <==> status == 503,
        checked matches Err(error) ==> (error.status == status ==> goes_on),
{
}

/// The edges of the mesh that the laboratory starts with: a square of the first
/// four nodes, the fifth joined with the third and the fourth, and each further
/// node with the one before it. None leads to a node that there is not.
pub proof fn the_first_mesh_is_joined(count: usize, edges: Vec<(usize, usize)>, n: usize)
    requires
        call_ensures(links::initial_edges, (count,), edges),
    ensures
        forall|x: usize, y: usize| #[trigger]
            edges@.contains((x, y)) <==> x < count && y < count && {
                ||| x == 0 && (y == 1 || y == 3)
                ||| x == 1 && y == 2
                ||| x == 2 && y == 4
                ||| x == 3 && (y == 2 || y == 4)
                ||| x >= 4 && y == x + 1
            },
        1 <= n < count ==> exists|m: usize| m < n && #[trigger] edges@.contains((m, n)),
{
    broadcast use vstd::seq_lib::group_filter_ensures;

    let start = links::default_edges();
    let keep = |edge: (usize, usize)| edge.0 < count && edge.1 < count;
    let first = start.filter(keep);
    let more = links::chain(count);
    assert(first == links::existing(start, count));
    assert forall|x: usize, y: usize| #[trigger] edges@.contains((x, y)) <==> x < count && y < count
        && {
        ||| x == 0 && (y == 1 || y == 3)
        ||| x == 1 && y == 2
        ||| x == 2 && y == 4
        ||| x == 3 && (y == 2 || y == 4)
        ||| x >= 4 && y == x + 1
    } by {
        let e = (x, y);
        assert(start[0] == (0usize, 1usize) && start[1] == (1usize, 2usize));
        assert(start[2] == (0usize, 3usize) && start[3] == (3usize, 2usize));
        assert(start[4] == (2usize, 4usize) && start[5] == (3usize, 4usize));
        assert(start.contains(e) <==> e == start[0] || e == start[1] || e == start[2] || e
            == start[3] || e == start[4] || e == start[5]);
        if edges@.contains(e) {
            let k = choose|k: int| 0 <= k < edges@.len() && edges@[k] == e;
            if k < first.len() {
                assert(first[k] == e);
                assert(first.contains(e));
                start.lemma_filter_contains_rev(keep, e);
            } else {
                assert(more[k - first.len()] == e);
            }
        }
        if start.contains(e) && keep(e) {
            assert(first.contains(e));
            let k = choose|k: int| 0 <= k < first.len() && first[k] == e;
            assert(edges@[k] == e);
        }
        if x >= 4 && y == x + 1 && y < count {
            assert(more[x - 4] == e);
            assert(edges@[first.len() + (x - 4)] == e);
        }
    }
    if 1 <= n < count {
        let m: usize = if n == 1 {
            0
        } else if n == 2 {
            1
        } else if n == 3 {
            0
        } else if n == 4 {
            2
        } else {
            (n - 1) as usize
        };
        assert(edges@.contains((m, n)));
    }
}

/// A new node gets the next number, and the name that is given, if one is.
pub proof fn nodes_are_numbered(kept: &mut LabNodes, name: Option<String>, got: (u64, String))
    requires
        old(kept).wf(),
        call_ensures(LabNodes::reserve, (kept, name), got),
    ensures
        got.0 == old(kept)@.next_node,
        name matches Some(given) ==> got.1@ == given@,
        final(kept)@.next_node == if got.0 < u64::MAX {
            got.0 + 1
        } else {
            0
        },
        final(kept)@.nodes == old(kept)@.nodes,
        final(kept)@.next_flow == old(kept)@.next_flow,
{
}

/// Flows are numbered one after the other.
pub proof fn flows_are_numbered(kept: &mut LabNodes, flow: u64)
    requires
        old(kept).wf(),
        call_ensures(LabNodes::take_flow, (kept,), flow),
    ensures
        flow == old(kept)@.next_flow,
        final(kept)@.next_flow == if flow < u64::MAX {
            flow + 1
        } else {
            0
        },
        final(kept)@.nodes == old(kept)@.nodes,
        final(kept)@.next_node == old(kept)@.next_node,
{
}

/// A node that was started is kept with its process and the time of its start,
/// in place of the one with its number, and no other is touched.
pub proof fn started_nodes_are_kept(kept: &mut LabNodes, info: NodeInfo, started_offset_ms: u64)
    requires
        old(kept).wf(),
        call_ensures(LabNodes::insert, (kept, info, started_offset_ms), ()),
    ensures
        final(kept)@.nodes.contains_key(info.id),
        final(kept)@.nodes[info.id].info == info,
        final(kept)@.nodes[info.id].has_process,
        final(kept)@.nodes[info.id].started_offset_ms == started_offset_ms,
        final(kept)@.nodes.remove(info.id) == old(kept)@.nodes.remove(info.id),
        final(kept)@.next_node == old(kept)@.next_node,
        final(kept)@.next_flow == old(kept)@.next_flow,
{
    assert(final(kept)@.nodes.remove(info.id) =~= old(kept)@.nodes.remove(info.id));
}

/// A node whose process is stopped stays known by its name and addresses, but
/// has neither a process nor the number of one.
pub proof fn stopped_nodes_stay_known(kept: &mut LabNodes, id: u64, name: Result<String, LabError>)
    requires
        old(kept).wf(),
        call_ensures(LabNodes::stop, (kept, id), name),
    ensures
        name is Ok <==> old(kept)@.nodes.contains_key(id),
        name matches Err(error) ==> error.status == 404 && final(kept)@ == old(kept)@,
        name matches Ok(words) ==> {
            let before = old(kept)@.nodes[id];
            let after = final(kept)@.nodes[id];
            &&& words@ == before.info.name@
            &&& final(kept)@.nodes.contains_key(id)
            &&& !after.has_process && after.info.pid is None
            &&& after.info.id == before.info.id && after.info.name == before.info.name
            &&& after.info.mesh_addr == before.info.mesh_addr
            &&& after.info.admin_addr == before.info.admin_addr
            &&& after.started_offset_ms == before.started_offset_ms
            &&& final(kept)@.nodes.remove(id) == old(kept)@.nodes.remove(id)
            &&& final(kept)@.next_node == old(kept)@.next_node
            &&& final(kept)@.next_flow == old(kept)@.next_flow
        },
{
    assert(name is Ok ==> final(kept)@.nodes.remove(id) =~= old(kept)@.nodes.remove(id));
}

/// A node that is removed is no longer known, and no other is removed.
pub proof fn removed_nodes_are_forgotten(
    kept: &mut LabNodes,
    id: u64,
    removed: Result<(), LabError>,
)
    requires
        old(kept).wf(),
        call_ensures(LabNodes::remove, (kept, id), removed),
    ensures
        removed is Ok <==> old(kept)@.nodes.contains_key(id),
        removed matches Err(error) ==> error.status == 404,
        final(kept)@.nodes == old(kept)@.nodes.remove(id),
        final(kept)@.next_node == old(kept)@.next_node,
        final(kept)@.next_flow == old(kept)@.next_flow,
{
}

/// The laboratory holds the process of the node, which has a number.
pub open spec fn runs(node: ManagedNode) -> bool {
    node.has_process && node.info.pid is Some
}

/// A node is found by its number, with whether it runs; it can have links only
/// if it runs and answers.
pub proof fn nodes_are_found(
    kept: &LabNodes,
    id: u64,
    found: Result<(NodeInfo, bool), LabError>,
    answers: bool,
    usable: Result<NodeInfo, LabError>,
)
    requires
        kept.wf(),
        call_ensures(LabNodes::info, (kept, id), found),
        call_ensures(LabNodes::require, (kept, id, answers), usable),
    ensures
        match found {
            Ok((info, running)) => kept@.nodes.contains_key(id) && info == kept@.nodes[id].info
                && running == runs(kept@.nodes[id]),
            Err(error) => !kept@.nodes.contains_key(id) && error.status == 404,
        },
        match usable {
            Ok(info) => kept@.nodes.contains_key(id) && info == kept@.nodes[id].info && runs(
                kept@.nodes[id],
            ) && answers,
            Err(error) => if kept@.nodes.contains_key(id) {
                error.status == 503 && !(runs(kept@.nodes[id]) && answers)
            } else {
                error.status == 404
            },
        },
{
}

/// The first node that runs is the one with the least number.
pub proof fn the_first_running_node_is_found(kept: &LabNodes, first: Option<u64>, other: u64)
    requires
        kept.wf(),
        call_ensures(LabNodes::first_running, (kept,), first),
    ensures
        first matches Some(id) ==> kept@.nodes.contains_key(id) && runs(kept@.nodes[id]),
        kept@.nodes.contains_key(other) && runs(kept@.nodes[other]) ==> (first matches Some(id)
            && id <= other),
{
    let running = nodes::running_ids(kept@.nodes);
    assert(running.contains(other) <==> kept@.nodes.contains_key(other) && runs(
        kept@.nodes[other],
    ));
    if let Some(id) = first {
        assert(running.contains(id));
    }
}

/// All nodes are given with the times of their start, each once and by
/// ascending number.
pub proof fn all_nodes_are_given(kept: &LabNodes, list: Vec<(NodeInfo, u64)>, id: u64)
    requires
        kept.wf(),
        call_ensures(LabNodes::all, (kept,), list),
    ensures
        forall|i: int, j: int|
            0 <= i < j < list@.len() ==> (#[trigger] list@[i]).0.id < (#[trigger] list@[j]).0.id,
        kept@.nodes.contains_key(id) <==> exists|i: int|
            0 <= i < list@.len() && (#[trigger] list@[i]).0.id == id,
        forall|i: int|
            0 <= i < list@.len() && (#[trigger] list@[i]).0.id == id ==> list@[i] == (
                kept@.nodes[id].info,
                kept@.nodes[id].started_offset_ms,
            ),
{
    kept.nodes_have_numbers();
    let numbers = order::finite_sets_are_listed::<Number>(kept@.nodes.dom());
    assert forall|i: int| 0 <= i < list@.len() implies (#[trigger] list@[i]).0.id == numbers[i]
        && kept@.nodes.contains_key(numbers[i]) && list@[i] == (
        kept@.nodes[numbers[i]].info,
        kept@.nodes[numbers[i]].started_offset_ms,
    ) by {
        assert(numbers.contains(numbers[i]));
        assert(kept@.nodes.dom().contains(numbers[i]));
    }
    assert forall|i: int, j: int| 0 <= i < j < list@.len() implies (#[trigger] list@[i]).0.id < (
    #[trigger] list@[j]).0.id by {
        assert(Number::before(numbers[i], numbers[j]));
    }
    if kept@.nodes.contains_key(id) {
        assert(numbers.contains(id));
        let k = choose|k: int| 0 <= k < numbers.len() && numbers[k] == id;
        assert(list@[k].0.id == id);
    }
}

/// A new node is asked sixty times, with fifty milliseconds in between, until it
/// answers that it is ready, and then given up.
pub proof fn new_nodes_are_waited_for(asked: u64, answer: Option<bool>, step: HealthStep)
    requires
        call_ensures(nodes::health_step, (asked, answer), step),
    ensures
        answer == Some(true) <==> step == HealthStep::Ready,
        answer == Some(false) <==> step == HealthStep::Pause(50),
        answer is None && asked < 60 <==> step == HealthStep::Ask,
        answer is None && asked >= 60 <==> step == HealthStep::GiveUp,
{
}

/// The laboratory starts without links and nodes, at the pace that it is given,
/// and numbers links, nodes and flows from one on.
pub proof fn laboratories_start_empty(
    pace_ms: u64,
    kept: LabLinks,
    all: LabNodes,
    asked: &LabLinks,
    pace: u64,
)
    requires
        call_ensures(LabLinks::new, (pace_ms,), kept),
        call_ensures(LabNodes::new, (), all),
        call_ensures(LabLinks::pace_ms, (asked,), pace),
    ensures
        kept.wf() && all.wf(),
        kept@.links.dom() =~= Set::<u64>::empty(),
        kept@.next_link == 1,
        kept@.pace_ms == pace_ms,
        all@.nodes.dom() =~= Set::<u64>::empty(),
        all@.next_node == 1,
        all@.next_flow == 1,
        pace == asked@.pace_ms,
{
}

/// What is known of a node that was just started is what it was started with;
/// its ports are those of this machine.
pub proof fn started_nodes_are_known(
    id: u64,
    name: String,
    mesh_port: u16,
    admin_port: u16,
    pid: Option<u32>,
    info: NodeInfo,
    cost: u16,
)
    requires
        call_ensures(nodes::started_info, (id, name, mesh_port, admin_port, pid), info),
        call_ensures(links::default_link_cost, (), cost),
    ensures
        info.id == id,
        info.name == name,
        info.mesh_addr@ == "127.0.0.1:"@ + text::decimal(mesh_port as nat),
        info.admin_addr@ == "127.0.0.1:"@ + text::decimal(admin_port as nat),
        info.pid == pid,
        cost == 10,
{
}

/// The first five nodes have names of their own, and every other is named by its
/// number.
pub proof fn nodes_have_names(index: usize, name: String, id: u64, other: String)
    requires
        index < usize::MAX,
        call_ensures(links::initial_name, (index,), name),
        call_ensures(links::default_name, (id,), other),
    ensures
        other@ == "node-"@ + text::decimal(id as nat),
        index == 0 ==> name@ == "drone-17"@,
        index == 1 ==> name@ == "vehicle-3"@,
        index == 2 ==> name@ == "ground-2"@,
        index == 3 ==> name@ == "relay-west"@,
        index == 4 ==> name@ == "c2-main"@,
        index >= 5 ==> name@ == "node-"@ + text::decimal((index + 1) as nat),
{
}

/// A probe carries what it is given, if it is given anything. What is wrong with
/// a request is told with its status.
pub proof fn answers_are_told(
    payload: Option<String>,
    carried: String,
    kind: &str,
    missing: LabError,
    wrong: LabError,
    admin: &str,
    late: LabError,
)
    requires
        call_ensures(nodes::probe_payload, (payload,), carried),
        call_ensures(links::not_found, (kind,), missing),
        call_ensures(links::bad_request, (kind,), wrong),
        call_ensures(nodes::not_ready, (admin,), late),
    ensures
        payload matches Some(given) ==> carried@ == given@,
        payload is None ==> carried@ == "mesh-lab probe"@,
        missing.status == 404 && missing.message@ == kind@ + " was not found"@,
        wrong.status == 400 && wrong.message@ == kind@,
        late.status == 504,
{
}

} // verus!
