//! What the laboratory shows, and that it shows what its nodes report.

use vstd::prelude::*;
use crate::lab::graph;
use crate::lab::graph::LabLink;
use crate::lab::state;
use crate::lab::state::{EventRow, EventSnapshot, KnownRow, LabNodeState, LabStateResponse, LsaRow};
use crate::lab::state::{MeshRow, NodeReport, NodeRow};

verus! {

/// No two reports are of one node.
pub open spec fn are_apart(reports: Seq<NodeReport>) -> bool {
    forall|i: int, j: int|
        0 <= i < j < reports.len() ==> (#[trigger] reports[i]).info.id != (
        #[trigger] reports[j]).info.id
}

/// The report is of the node, which runs and lists the peer.
pub open spec fn lists(report: NodeReport, endpoint: u64, peer: u64) -> bool {
    &&& report.info.id == endpoint
    &&& report.snapshot matches Some(snapshot) && exists|k: int|
        0 <= k < snapshot.peers@.len() && (#[trigger] snapshot.peers@[k]).peer == peer
}

/// The node runs and lists the peer.
pub open spec fn is_listed(reports: Seq<NodeReport>, endpoint: u64, peer: u64) -> bool {
    exists|i: int| 0 <= i < reports.len() && lists(#[trigger] reports[i], endpoint, peer)
}

/// The link is shown as it is set, and shown as up only if both of its ends run
/// and each lists the other. Where no two reports are of one node, it is then
/// shown as up.
pub open spec fn is_shown_as_seen(reports: Seq<NodeReport>, link: LabLink, shown: LabLink) -> bool {
    &&& shown.id == link.id
    &&& shown.a == link.a
    &&& shown.b == link.b
    &&& shown.desired_up == link.desired_up
    &&& shown.cost == link.cost
    &&& shown.latency_ms == link.latency_ms
    &&& shown.loss_per_million == link.loss_per_million
    &&& shown.bandwidth_kbps == link.bandwidth_kbps
    &&& shown.up ==> is_listed(reports, link.a, link.b) && is_listed(reports, link.b, link.a)
    &&& are_apart(reports) && is_listed(reports, link.a, link.b) && is_listed(
        reports,
        link.b,
        link.a,
    ) ==> shown.up
}

/// The reports stand by ascending number of their node.
pub open spec fn stand_by_number(reports: Seq<NodeReport>) -> bool {
    forall|i: int, j: int|
        0 <= i < j < reports.len() ==> (#[trigger] reports[i]).info.id <= (
        #[trigger] reports[j]).info.id
}

/// One report more keeps the others, and keeps them in order and apart.
proof fn filing_keeps_all(reports: Seq<NodeReport>, report: NodeReport)
    requires
        stand_by_number(reports),
    ensures
        stand_by_number(state::filed(reports, report)),
        state::filed(reports, report).len() == reports.len() + 1,
        forall|r: NodeReport| #[trigger]
            state::filed(reports, report).contains(r) <==> reports.contains(r) || r == report,
        are_apart(reports) && (forall|i: int|
            0 <= i < reports.len() ==> (#[trigger] reports[i]).info.id != report.info.id)
            ==> are_apart(state::filed(reports, report)),
    decreases reports.len(),
{
    let all = state::filed(reports, report);
    if reports.len() > 0 && report.info.id < reports.last().info.id {
        let less = reports.drop_last();
        let last = reports.last();
        assert forall|i: int, j: int| 0 <= i < j < less.len() implies (
        #[trigger] less[i]).info.id <= (#[trigger] less[j]).info.id by {
            assert(less[i] == reports[i] && less[j] == reports[j]);
        }
        filing_keeps_all(less, report);
        let inner = state::filed(less, report);
        assert forall|r: NodeReport| #[trigger] reports.contains(r) <==> less.contains(r) || r
            == last by {
            if less.contains(r) {
                let k = choose|k: int| 0 <= k < less.len() && less[k] == r;
                assert(reports[k] == r);
            }
            if r == last {
                assert(reports[reports.len() - 1] == r);
            }
            if reports.contains(r) && r != last {
                let k = choose|k: int| 0 <= k < reports.len() && reports[k] == r;
                assert(less[k] == r);
            }
        }
        assert forall|r: NodeReport| #[trigger] all.contains(r) <==> inner.contains(r) || r
            == last by {
            if inner.contains(r) {
                let k = choose|k: int| 0 <= k < inner.len() && inner[k] == r;
                assert(all[k] == r);
            }
            if r == last {
                assert(all[all.len() - 1] == r);
            }
            if all.contains(r) && r != last {
                let k = choose|k: int| 0 <= k < all.len() && all[k] == r;
                assert(inner[k] == r);
            }
        }
        assert forall|i: int| 0 <= i < inner.len() implies (#[trigger] inner[i]).info.id
            <= last.info.id by {
            assert(inner.contains(inner[i]));
            if inner[i] != report {
                let k = choose|k: int| 0 <= k < less.len() && less[k] == inner[i];
                assert(reports[k] == inner[i]);
                assert(reports[reports.len() - 1] == last);
            }
        }
        assert forall|i: int, j: int| 0 <= i < j < all.len() implies (#[trigger] all[i]).info.id
            <= (#[trigger] all[j]).info.id by {
            assert(all[i] == inner[i]);
            if j < inner.len() {
                assert(all[j] == inner[j]);
            }
        }
        if are_apart(reports) && (forall|i: int|
            0 <= i < reports.len() ==> (#[trigger] reports[i]).info.id != report.info.id) {
            assert(are_apart(less)) by {
                assert forall|i: int, j: int| 0 <= i < j < less.len() implies (
                #[trigger] less[i]).info.id != (#[trigger] less[j]).info.id by {
                    assert(less[i] == reports[i] && less[j] == reports[j]);
                }
            }
            assert forall|i: int| 0 <= i < less.len() implies (#[trigger] less[i]).info.id
                != report.info.id by {
                assert(less[i] == reports[i]);
            }
            assert forall|i: int, j: int| 0 <= i < j < all.len() implies (
            #[trigger] all[i]).info.id != (#[trigger] all[j]).info.id by {
                assert(all[i] == inner[i]);
                if j < inner.len() {
                    assert(all[j] == inner[j]);
                } else {
                    assert(inner.contains(inner[i]));
                    assert(reports[reports.len() - 1] == last);
                    if inner[i] != report {
                        let k = choose|k: int| 0 <= k < less.len() && less[k] == inner[i];
                        assert(reports[k] == inner[i]);
                    }
                }
            }
        }
    } else {
        assert forall|r: NodeReport| #[trigger] all.contains(r) <==> reports.contains(r) || r
            == report by {
            if reports.contains(r) {
                let k = choose|k: int| 0 <= k < reports.len() && reports[k] == r;
                assert(all[k] == r);
            }
            if r == report {
                assert(all[all.len() - 1] == r);
            }
            if all.contains(r) && r != report {
                let k = choose|k: int| 0 <= k < all.len() && all[k] == r;
                assert(reports[k] == r);
            }
        }
        assert forall|i: int, j: int| 0 <= i < j < all.len() implies (#[trigger] all[i]).info.id
            <= (#[trigger] all[j]).info.id by {
            assert(all[i] == reports[i]);
            if j < reports.len() {
                assert(all[j] == reports[j]);
            } else {
                assert(reports[i].info.id <= reports[reports.len() - 1].info.id || i
                    == reports.len() - 1);
            }
        }
    }
}

/// The reports by number are the reports, each once, by ascending number.
pub proof fn all_reports_are_kept(reports: Seq<NodeReport>)
    ensures
        stand_by_number(state::by_number(reports)),
        state::by_number(reports).len() == reports.len(),
        forall|r: NodeReport| #[trigger]
            state::by_number(reports).contains(r) <==> reports.contains(r),
        are_apart(reports) ==> are_apart(state::by_number(reports)),
    decreases reports.len(),
{
    if reports.len() > 0 {
        let less = reports.drop_last();
        let last = reports.last();
        all_reports_are_kept(less);
        let before = state::by_number(less);
        filing_keeps_all(before, last);
        assert forall|r: NodeReport| #[trigger] reports.contains(r) <==> less.contains(r) || r
            == last by {
            if less.contains(r) {
                let k = choose|k: int| 0 <= k < less.len() && less[k] == r;
                assert(reports[k] == r);
            }
            if r == last {
                assert(reports[reports.len() - 1] == r);
            }
            if reports.contains(r) && r != last {
                let k = choose|k: int| 0 <= k < reports.len() && reports[k] == r;
                assert(less[k] == r);
            }
        }
        if are_apart(reports) {
            assert forall|i: int, j: int| 0 <= i < j < less.len() implies (
            #[trigger] less[i]).info.id != (#[trigger] less[j]).info.id by {
                assert(less[i] == reports[i] && less[j] == reports[j]);
            }
            assert forall|i: int| 0 <= i < before.len() implies (#[trigger] before[i]).info.id
                != last.info.id by {
                assert(before.contains(before[i]));
                let k = choose|k: int| 0 <= k < less.len() && less[k] == before[i];
                assert(reports[k] == before[i]);
                assert(reports[reports.len() - 1] == last);
            }
        }
    }
}

/// Every report is shown as a node, by ascending number: it runs if it shows
/// anything, and what it shows is passed on.
pub proof fn nodes_are_shown_as_reported(reports: Seq<NodeReport>)
    ensures
        ({
            let nodes = state::states_of(state::by_number(reports));
            &&& nodes.len() == reports.len()
            &&& forall|i: int, j: int|
                0 <= i < j < nodes.len() ==> (#[trigger] nodes[i]).info.id <= (
                #[trigger] nodes[j]).info.id
            &&& forall|i: int|
                0 <= i < nodes.len() ==> (#[trigger] nodes[i]).running == nodes[i].snapshot is Some
            &&& forall|node: LabNodeState| #[trigger]
                nodes.contains(node) ==> exists|k: int|
                    0 <= k < reports.len() && (#[trigger] reports[k]).info == node.info
                        && reports[k].snapshot == node.snapshot
            &&& forall|k: int|
                0 <= k < reports.len() ==> exists|node: LabNodeState| #[trigger]
                    nodes.contains(node) && node.info == (#[trigger] reports[k]).info
                        && node.snapshot == reports[k].snapshot
        }),
{
    let sorted = state::by_number(reports);
    let nodes = state::states_of(sorted);
    all_reports_are_kept(reports);
    assert forall|i: int, j: int| 0 <= i < j < nodes.len() implies (#[trigger] nodes[i]).info.id
        <= (#[trigger] nodes[j]).info.id by {
        assert(sorted[i].info.id <= sorted[j].info.id);
    }
    assert forall|node: LabNodeState| #[trigger] nodes.contains(node) implies exists|k: int|
        0 <= k < reports.len() && (#[trigger] reports[k]).info == node.info && reports[k].snapshot
            == node.snapshot by {
        let i = choose|i: int| 0 <= i < nodes.len() && nodes[i] == node;
        assert(sorted.contains(sorted[i]));
        let k = choose|k: int| 0 <= k < reports.len() && reports[k] == sorted[i];
        assert(reports[k].info == node.info);
    }
    assert forall|k: int| 0 <= k < reports.len() implies exists|node: LabNodeState| #[trigger]
        nodes.contains(node) && node.info == (#[trigger] reports[k]).info && node.snapshot
            == reports[k].snapshot by {
        assert(reports.contains(reports[k]));
        assert(sorted.contains(reports[k]));
        let i = choose|i: int| 0 <= i < sorted.len() && sorted[i] == reports[k];
        assert(nodes[i] == state::state_of(sorted[i]));
        assert(nodes.contains(nodes[i]));
    }
}

/// No two nodes have one number.
pub open spec fn have_own_numbers(nodes: Seq<NodeRow>) -> bool {
    forall|i: int, j: int|
        0 <= i < j < nodes.len() ==> (#[trigger] nodes[i]).id != (#[trigger] nodes[j]).id
}

/// What is shown by a number is shown by a node with that number; by the only
/// one, where no other has it.
proof fn what_a_number_shows(nodes: Seq<NodeRow>, id: u64)
    ensures
        state::shown_by(nodes, id) matches Some(mesh) ==> exists|i: int|
            0 <= i < nodes.len() && (#[trigger] nodes[i]).id == id && nodes[i].mesh == Some(mesh),
        have_own_numbers(nodes) ==> forall|i: int|
            0 <= i < nodes.len() && (#[trigger] nodes[i]).id == id ==> state::shown_by(nodes, id)
                == nodes[i].mesh,
    decreases nodes.len(),
{
    if nodes.len() > 0 {
        let rest = nodes.drop_first();
        what_a_number_shows(rest, id);
        if nodes[0].id != id {
            if let Some(mesh) = state::shown_by(nodes, id) {
                let i = choose|i: int|
                    0 <= i < rest.len() && (#[trigger] rest[i]).id == id && rest[i].mesh == Some(
                        mesh,
                    );
                assert(nodes[i + 1] == rest[i]);
            }
        }
        if have_own_numbers(nodes) {
            assert(have_own_numbers(rest)) by {
                assert forall|i: int, j: int| 0 <= i < j < rest.len() implies (
                #[trigger] rest[i]).id != (#[trigger] rest[j]).id by {
                    assert(rest[i] == nodes[i + 1] && rest[j] == nodes[j + 1]);
                }
            }
            assert forall|i: int|
                0 <= i < nodes.len() && (#[trigger] nodes[i]).id == id implies state::shown_by(
                nodes,
                id,
            ) == nodes[i].mesh by {
                if i > 0 {
                    assert(rest[i - 1] == nodes[i]);
                    assert(nodes[0].id != nodes[i].id);
                }
            }
        }
    }
}

/// What the laboratory shows of its nodes.
pub open spec fn rows_of(reports: Seq<NodeReport>) -> Seq<NodeRow> {
    state::node_rows(state::states_of(state::by_number(reports)))
}

/// An end sees another as the reports list it.
proof fn ends_see_what_is_listed(reports: Seq<NodeReport>, endpoint: u64, peer: u64)
    ensures
        state::sees(rows_of(reports), endpoint, peer) ==> is_listed(reports, endpoint, peer),
        are_apart(reports) && is_listed(reports, endpoint, peer) ==> state::sees(
            rows_of(reports),
            endpoint,
            peer,
        ),
{
    let sorted = state::by_number(reports);
    let rows = rows_of(reports);
    all_reports_are_kept(reports);
    what_a_number_shows(rows, endpoint);
    if state::sees(rows, endpoint, peer) {
        let mesh = state::shown_by(rows, endpoint)->0;
        let i = choose|i: int|
            0 <= i < rows.len() && (#[trigger] rows[i]).id == endpoint && rows[i].mesh == Some(
                mesh,
            );
        let report = sorted[i];
        assert(sorted.contains(report));
        let snapshot = report.snapshot->0;
        let k = choose|k: int| 0 <= k < mesh.peers.len() && mesh.peers[k] == peer;
        assert(snapshot.peers@[k].peer == peer);
        assert(lists(report, endpoint, peer));
        let n = choose|n: int| 0 <= n < reports.len() && reports[n] == report;
        assert(lists(reports[n], endpoint, peer));
    }
    if are_apart(reports) && is_listed(reports, endpoint, peer) {
        assert(have_own_numbers(rows)) by {
            assert forall|i: int, j: int| 0 <= i < j < rows.len() implies (#[trigger] rows[i]).id
                != (#[trigger] rows[j]).id by {
                assert(sorted[i].info.id != sorted[j].info.id);
            }
        }
        let n = choose|n: int|
            0 <= n < reports.len() && lists(#[trigger] reports[n], endpoint, peer);
        assert(reports.contains(reports[n]));
        assert(sorted.contains(reports[n]));
        let i = choose|i: int| 0 <= i < sorted.len() && sorted[i] == reports[n];
        assert(rows[i].id == endpoint);
        let snapshot = sorted[i].snapshot->0;
        let k = choose|k: int|
            0 <= k < snapshot.peers@.len() && (#[trigger] snapshot.peers@[k]).peer == peer;
        let mesh = state::mesh_row(snapshot);
        assert(mesh.peers[k] == peer);
        assert(rows[i].mesh == Some(mesh));
    }
}

/// A link that is shown as up has both of its ends running, and each end lists
/// the other among its peers. A link with an end that shows nothing, or that
/// does not list the other, is shown as down.
pub proof fn links_are_shown_as_seen(reports: Seq<NodeReport>, links: Seq<LabLink>)
    ensures
        state::observed_links(rows_of(reports), links).len() == links.len(),
        forall|i: int|
            0 <= i < links.len() ==> is_shown_as_seen(
                reports,
                links[i],
                #[trigger] state::observed_links(rows_of(reports), links)[i],
            ),
{
    let shown = state::observed_links(rows_of(reports), links);
    assert forall|i: int| 0 <= i < links.len() implies is_shown_as_seen(
        reports,
        links[i],
        #[trigger] shown[i],
    ) by {
        ends_see_what_is_listed(reports, links[i].a, links[i].b);
        ends_see_what_is_listed(reports, links[i].b, links[i].a);
    }
}

/// A node runs if its report shows anything.
pub proof fn nodes_run_if_they_show_anything(reports: Seq<NodeReport>, id: u64)
    ensures
        state::live_ids(rows_of(reports)).contains(id) <==> exists|i: int|
            0 <= i < reports.len() && (#[trigger] reports[i]).info.id == id
                && reports[i].snapshot is Some,
{
    let sorted = state::by_number(reports);
    let rows = rows_of(reports);
    all_reports_are_kept(reports);
    if state::live_ids(rows).contains(id) {
        let i = choose|i: int| 0 <= i < rows.len() && state::runs_as(#[trigger] rows[i], id);
        assert(sorted.contains(sorted[i]));
        let n = choose|n: int| 0 <= n < reports.len() && reports[n] == sorted[i];
        assert(reports[n].info.id == id);
    }
    if exists|i: int|
        0 <= i < reports.len() && (#[trigger] reports[i]).info.id == id
            && reports[i].snapshot is Some {
        let n = choose|n: int|
            0 <= n < reports.len() && (#[trigger] reports[n]).info.id == id
                && reports[n].snapshot is Some;
        assert(reports.contains(reports[n]));
        assert(sorted.contains(reports[n]));
        let i = choose|i: int| 0 <= i < sorted.len() && sorted[i] == reports[n];
        assert(state::runs_as(rows[i], id));
    }
}

/// The row tells of the event at the node, at the time of the laboratory: as
/// long after the start of the node as the node says.
pub open spec fn is_row_of(row: EventRow, report: NodeReport, event: EventSnapshot) -> bool {
    &&& row.node == report.info.id
    &&& row.name == report.info.name@
    &&& row.sequence == event.sequence
    &&& row.at_ms == if report.started_offset_ms + event.at_ms <= u64::MAX {
        report.started_offset_ms + event.at_ms
    } else {
        u64::MAX as int
    }
    &&& row.kind == event.kind@
    &&& row.detail == event.detail@
    &&& row.link_id == event.link_id
    &&& row.peer == event.peer
}

/// The report tells of the event that the row tells of.
pub open spec fn has_event(report: NodeReport, row: EventRow) -> bool {
    report.snapshot matches Some(snapshot) && exists|k: int|
        0 <= k < snapshot.events@.len() && is_row_of(row, report, #[trigger] snapshot.events@[k])
}

/// One event happened before another: by time, then by node, then by number.
pub open spec fn happened_before(a: EventRow, b: EventRow) -> bool {
    ||| a.at_ms < b.at_ms
    ||| a.at_ms == b.at_ms && a.node < b.node
    ||| a.at_ms == b.at_ms && a.node == b.node && a.sequence < b.sequence
}

/// The events of all reports are those that some report tells of.
proof fn events_are_reported(reports: Seq<NodeReport>, row: EventRow)
    ensures
        state::all_events(reports).contains(row) <==> exists|i: int|
            0 <= i < reports.len() && has_event(#[trigger] reports[i], row),
    decreases reports.len(),
{
    let all = state::all_events(reports);
    if reports.len() > 0 {
        let rest = reports.drop_last();
        let last = reports.last();
        let less = state::all_events(rest);
        let mine = state::report_events(last);
        events_are_reported(rest, row);
        if all.contains(row) {
            let k = choose|k: int| 0 <= k < all.len() && all[k] == row;
            if k < less.len() {
                assert(less[k] == row);
                assert(less.contains(row));
                let i = choose|i: int| 0 <= i < rest.len() && has_event(#[trigger] rest[i], row);
                assert(has_event(reports[i], row));
            } else {
                let m = k - less.len();
                assert(mine[m] == row);
                assert(is_row_of(row, last, last.snapshot->0.events@[m]));
                assert(has_event(reports[reports.len() - 1], row));
            }
        }
        if exists|i: int| 0 <= i < reports.len() && has_event(#[trigger] reports[i], row) {
            let i = choose|i: int| 0 <= i < reports.len() && has_event(#[trigger] reports[i], row);
            if i < rest.len() {
                assert(has_event(rest[i], row));
                let k = choose|k: int| 0 <= k < less.len() && less[k] == row;
                assert(all[k] == row);
            } else {
                let snapshot = last.snapshot->0;
                let m = choose|m: int|
                    0 <= m < snapshot.events@.len() && is_row_of(
                        row,
                        last,
                        #[trigger] snapshot.events@[m],
                    );
                assert(mine[m] =~= row);
                assert(all[less.len() + m] == row);
            }
        }
    }
}

/// At most a hundred events are shown, the newest first. Each is one that a node
/// reports, and one that is reported and not shown is no newer than any of the
/// hundred that are.
pub proof fn the_newest_events_are_shown(reports: Seq<NodeReport>, row: EventRow)
    ensures
        ({
            let shown = state::first_shown(
                state::newest_first(state::all_events(state::by_number(reports))),
            );
            &&& shown.len() <= 100
            &&& forall|i: int, j: int|
                0 <= i < j < shown.len() ==> !happened_before(
                    #[trigger] shown[i],
                    #[trigger] shown[j],
                )
            &&& shown.contains(row) ==> exists|i: int|
                0 <= i < reports.len() && has_event(#[trigger] reports[i], row)
            &&& (exists|i: int| 0 <= i < reports.len() && has_event(#[trigger] reports[i], row))
                ==> shown.contains(row) || (shown.len() == 100 && forall|k: int|
                0 <= k < shown.len() ==> !happened_before(#[trigger] shown[k], row))
        }),
{
    broadcast use vstd::seq_lib::group_to_multiset_ensures;

    let sorted = state::by_number(reports);
    let all = state::all_events(sorted);
    let full = state::newest_first(all);
    let shown = state::first_shown(full);
    all_reports_are_kept(reports);
    events_are_reported(sorted, row);
    state::newest_events_come_first(all);
    assert(full.contains(row) <==> all.contains(row)) by {
        assert(full.to_multiset().count(row) == all.to_multiset().count(row));
        assert(full.contains(row) <==> full.to_multiset().count(row) > 0);
        assert(all.contains(row) <==> all.to_multiset().count(row) > 0);
    }
    assert forall|i: int, j: int| 0 <= i < j < full.len() implies !happened_before(
        #[trigger] full[i],
        #[trigger] full[j],
    ) by {
        assert(!state::is_older(full[i], full[j]));
    }
    if shown.contains(row) {
        let k = choose|k: int| 0 <= k < shown.len() && shown[k] == row;
        assert(full[k] == row);
        let i = choose|i: int| 0 <= i < sorted.len() && has_event(#[trigger] sorted[i], row);
        assert(sorted.contains(sorted[i]));
        let n = choose|n: int| 0 <= n < reports.len() && reports[n] == sorted[i];
        assert(has_event(reports[n], row));
    }
    if exists|i: int| 0 <= i < reports.len() && has_event(#[trigger] reports[i], row) {
        let n = choose|n: int| 0 <= n < reports.len() && has_event(#[trigger] reports[n], row);
        assert(reports.contains(reports[n]));
        assert(sorted.contains(reports[n]));
        let i = choose|i: int| 0 <= i < sorted.len() && sorted[i] == reports[n];
        assert(has_event(sorted[i], row));
        assert(full.contains(row));
        let k = choose|k: int| 0 <= k < full.len() && full[k] == row;
        if k < shown.len() {
            assert(shown[k] == row);
        } else {
            assert forall|m: int| 0 <= m < shown.len() implies !happened_before(
                #[trigger] shown[m],
                row,
            ) by {
                assert(shown[m] == full[m]);
            }
        }
    }
}

/// A link that is up joins the two nodes, whichever of its ends each of them is.
pub open spec fn are_joined(links: Seq<LabLink>, x: u64, y: u64) -> bool {
    exists|i: int|
        0 <= i < links.len() && (#[trigger] links[i]).up && (links[i].a == x && links[i].b == y
            || links[i].a == y && links[i].b == x)
}

/// The neighbours of a node are the running nodes that a link which is up joins
/// it with.
pub proof fn neighbours_are_joined(live: Set<u64>, links: Seq<LabLink>, x: u64, y: u64)
    ensures
        graph::neighbours(live, links, x).contains(y) <==> live.contains(y) && are_joined(
            links,
            x,
            y,
        ),
{
    if graph::neighbours(live, links, x).contains(y) {
        let i = choose|i: int| 0 <= i < links.len() && graph::joins(#[trigger] links[i], x, y);
        assert(links[i].up);
    }
    if live.contains(y) && are_joined(links, x, y) {
        let i = choose|i: int|
            0 <= i < links.len() && (#[trigger] links[i]).up && (links[i].a == x && links[i].b
                == y || links[i].a == y && links[i].b == x);
        assert(graph::joins(links[i], x, y));
    }
}

/// The part of the mesh that a running node belongs to is the smallest set that
/// holds the node and every running node which is joined with one that it holds.
pub proof fn parts_are_what_is_joined(
    live: Set<u64>,
    links: Seq<LabLink>,
    x: u64,
    y: u64,
    z: u64,
    all: Set<u64>,
)
    requires
        live.contains(x),
    ensures
        ({
            let part = graph::component(live, links, x);
            &&& part.contains(x)
            &&& part.contains(y) && live.contains(z) && are_joined(links, y, z) ==> part.contains(z)
            &&& part.contains(y) ==> live.contains(y)
            &&& all.contains(x) && (forall|p: u64, q: u64|
                all.contains(p) && live.contains(q) && #[trigger] are_joined(links, p, q)
                    ==> all.contains(q)) ==> part.subset_of(all)
            &&& graph::components(live, links).contains(part)
        }),
{
    let part = graph::component(live, links, x);
    graph::nodes_reach_themselves(live, links, x);
    neighbours_are_joined(live, links, y, z);
    if part.contains(y) {
        graph::members_share_their_component(live, links, x, y);
        if live.contains(z) && are_joined(links, y, z) {
            graph::reach_extends(live, links, x, y, z);
        }
    }
    if all.contains(x) && (forall|p: u64, q: u64|
        all.contains(p) && live.contains(q) && #[trigger] are_joined(links, p, q) ==> all.contains(
            q,
        )) {
        assert forall|p: u64, q: u64| #[trigger]
            all.contains(p) && #[trigger] graph::neighbours(live, links, p).contains(
                q,
            ) implies all.contains(q) by {
            neighbours_are_joined(live, links, p, q);
        }
        assert forall|w: u64| part.contains(w) implies all.contains(w) by {
            let path = choose|path: Seq<u64>| graph::leads(live, links, path, x, w);
            graph::reach_is_least(live, links, x, w, path, all);
        }
    }
}

/// The node with the number shows this of the mesh.
pub open spec fn shows(nodes: Seq<NodeRow>, id: u64, mesh: MeshRow) -> bool {
    exists|i: int|
        0 <= i < nodes.len() && (#[trigger] nodes[i]) == (NodeRow { id, mesh: Some(mesh) })
}

/// The announcement is the last that the node has of its origin.
pub open spec fn knows(mesh: MeshRow, lsa: LsaRow) -> bool {
    exists|i: int| is_last(mesh.lsdb, i, lsa)
}

/// The announcement is the one at the index, and no later one is of its origin.
pub open spec fn is_last(lsdb: Seq<LsaRow>, i: int, lsa: LsaRow) -> bool {
    &&& 0 <= i < lsdb.len()
    &&& lsdb[i] == lsa
    &&& forall|k: int| i < k < lsdb.len() ==> (#[trigger] lsdb[k]).origin != lsa.origin
}

/// What is known of an origin of the part is what its last announcement says.
proof fn the_last_announcement_counts(
    lsdb: Seq<LsaRow>,
    part: Set<u64>,
    live: Set<u64>,
    lsa: LsaRow,
    i: int,
)
    requires
        part.contains(lsa.origin),
        is_last(lsdb, i, lsa),
    ensures
        state::known(lsdb, part, live).contains_key(lsa.origin),
        state::known(lsdb, part, live)[lsa.origin] == (KnownRow {
            epoch: lsa.epoch,
            sequence: lsa.sequence,
            adjacencies: lsa.adjacencies.to_set().intersect(live),
        }),
    decreases lsdb.len(),
{
    let last = lsdb[lsdb.len() - 1];
    if i < lsdb.len() - 1 {
        let less = lsdb.drop_last();
        assert(is_last(less, i, lsa)) by {
            assert forall|k: int| i < k < less.len() implies (#[trigger] less[k]).origin
                != lsa.origin by {
                assert(less[k] == lsdb[k]);
            }
        }
        the_last_announcement_counts(less, part, live, lsa, i);
        assert(last.origin != lsa.origin);
    }
}

/// What is known of an origin comes from an announcement, which is the last.
proof fn what_is_known_was_announced(
    lsdb: Seq<LsaRow>,
    part: Set<u64>,
    live: Set<u64>,
    origin: u64,
) -> (lsa: LsaRow)
    requires
        state::known(lsdb, part, live).contains_key(origin),
    ensures
        lsa.origin == origin,
        part.contains(origin),
        exists|i: int| is_last(lsdb, i, lsa),
    decreases lsdb.len(),
{
    let last = lsdb.last();
    let n = lsdb.len() - 1;
    if last.origin == origin && part.contains(origin) {
        assert(is_last(lsdb, n, last));
        last
    } else {
        let less = lsdb.drop_last();
        let lsa = what_is_known_was_announced(less, part, live, origin);
        let i = choose|i: int| is_last(less, i, lsa);
        assert(is_last(lsdb, i, lsa)) by {
            assert forall|k: int| i < k < lsdb.len() implies (#[trigger] lsdb[k]).origin
                != lsa.origin by {
                if k < n {
                    assert(less[k] == lsdb[k]);
                }
            }
        }
        lsa
    }
}

/// The running nodes of a part have a first one.
proof fn parts_have_a_first(nodes: Seq<NodeRow>, part: Set<u64>, id: u64, mesh: MeshRow) -> (first:
    (u64, MeshRow))
    requires
        part.contains(id),
        shows(nodes, id, mesh),
    ensures
        state::first_of(nodes, part) == Some(first.1),
        part.contains(first.0),
        shows(nodes, first.0, first.1),
    decreases nodes.len(),
{
    let i = choose|i: int|
        0 <= i < nodes.len() && (#[trigger] nodes[i]) == (NodeRow { id, mesh: Some(mesh) });
    if part.contains(nodes[0].id) && nodes[0].mesh is Some {
        let found = nodes[0].mesh->0;
        assert(nodes[0] == (NodeRow { id: nodes[0].id, mesh: Some(found) }));
        (nodes[0].id, found)
    } else {
        let rest = nodes.drop_first();
        assert(rest[i - 1] == (NodeRow { id, mesh: Some(mesh) }));
        let first = parts_have_a_first(rest, part, id, mesh);
        let k = choose|k: int|
            0 <= k < rest.len() && (#[trigger] rest[k]) == (NodeRow {
                id: first.0,
                mesh: Some(first.1),
            });
        assert(nodes[k + 1] == rest[k]);
        first
    }
}

/// The running nodes are those that show something.
proof fn running_nodes_show(nodes: Seq<NodeRow>, id: u64)
    requires
        have_own_numbers(nodes),
    ensures
        state::live_ids(nodes).contains(id) <==> state::shown_by(nodes, id) is Some,
        forall|mesh: MeshRow| #[trigger]
            shows(nodes, id, mesh) <==> state::shown_by(nodes, id) == Some(mesh),
{
    what_a_number_shows(nodes, id);
    assert forall|mesh: MeshRow| #[trigger] shows(nodes, id, mesh) <==> state::shown_by(nodes, id)
        == Some(mesh) by {
        if shows(nodes, id, mesh) {
            let i = choose|i: int|
                0 <= i < nodes.len() && (#[trigger] nodes[i]) == (NodeRow { id, mesh: Some(mesh) });
            assert(nodes[i].id == id);
        }
        if state::shown_by(nodes, id) == Some(mesh) {
            let i = choose|i: int|
                0 <= i < nodes.len() && (#[trigger] nodes[i]).id == id && nodes[i].mesh == Some(
                    mesh,
                );
            assert(nodes[i] =~= NodeRow { id, mesh: Some(mesh) });
        }
    }
    if state::live_ids(nodes).contains(id) {
        let i = choose|i: int| 0 <= i < nodes.len() && state::runs_as(#[trigger] nodes[i], id);
        assert(nodes[i].id == id);
    }
    if let Some(mesh) = state::shown_by(nodes, id) {
        let i = choose|i: int|
            0 <= i < nodes.len() && (#[trigger] nodes[i]).id == id && nodes[i].mesh == Some(mesh);
        assert(state::runs_as(nodes[i], id));
    }
}

/// The two nodes run and belong to one part of the mesh.
pub open spec fn are_connected(nodes: Seq<NodeRow>, links: Seq<LabLink>, a: u64, b: u64) -> bool {
    graph::component(state::live_ids(nodes), links, a).contains(b)
}

/// A node has routes to exactly the other nodes of its part.
pub open spec fn has_its_routes(
    nodes: Seq<NodeRow>,
    links: Seq<LabLink>,
    a: u64,
    mesh: MeshRow,
) -> bool {
    forall|b: u64|
        #![trigger mesh.routes.contains(b)]
        #![trigger are_connected(nodes, links, a, b)]
        mesh.routes.contains(b) <==> a != b && are_connected(nodes, links, a, b)
}

/// The announcement lists, among the running nodes, exactly those that its
/// origin is joined with.
pub open spec fn lists_what_is_joined(
    nodes: Seq<NodeRow>,
    links: Seq<LabLink>,
    lsa: LsaRow,
) -> bool {
    forall|y: u64| #[trigger]
        state::live_ids(nodes).contains(y) ==> (lsa.adjacencies.contains(y) <==> are_joined(
            links,
            lsa.origin,
            y,
        ))
}

/// A node knows of every node of its part an announcement that lists what that
/// node is joined with.
pub open spec fn knows_its_part(
    nodes: Seq<NodeRow>,
    links: Seq<LabLink>,
    a: u64,
    mesh: MeshRow,
) -> bool {
    forall|b: u64| #[trigger]
        are_connected(nodes, links, a, b) ==> exists|lsa: LsaRow| #[trigger]
            knows(mesh, lsa) && lsa.origin == b && lists_what_is_joined(nodes, links, lsa)
}

/// Two nodes know the same versions of all nodes of the part.
pub open spec fn know_the_same(
    nodes: Seq<NodeRow>,
    links: Seq<LabLink>,
    a: u64,
    mine: MeshRow,
    theirs: MeshRow,
) -> bool {
    forall|x: LsaRow, y: LsaRow| #[trigger]
        knows(mine, x) && #[trigger] knows(theirs, y) && x.origin == y.origin && are_connected(
            nodes,
            links,
            a,
            x.origin,
        ) ==> x.epoch == y.epoch && x.sequence == y.sequence
}

/// Edges that are what the laboratory sees are those of the neighbours.
proof fn seen_edges_are_neighbours(nodes: Seq<NodeRow>, links: Seq<LabLink>, lsa: LsaRow)
    ensures
        lists_what_is_joined(nodes, links, lsa) <==> lsa.adjacencies.to_set().intersect(
            state::live_ids(nodes),
        ) == graph::neighbours(state::live_ids(nodes), links, lsa.origin),
{
    let live = state::live_ids(nodes);
    let edges = lsa.adjacencies.to_set().intersect(live);
    let seen = graph::neighbours(live, links, lsa.origin);
    assert forall|y: u64| #[trigger] seen.contains(y) <==> live.contains(y) && are_joined(
        links,
        lsa.origin,
        y,
    ) by {
        neighbours_are_joined(live, links, lsa.origin, y);
    }
    if lists_what_is_joined(nodes, links, lsa) {
        assert forall|y: u64| edges.contains(y) <==> seen.contains(y) by {
            assert(live.contains(y) ==> (lsa.adjacencies.contains(y) <==> are_joined(
                links,
                lsa.origin,
                y,
            )));
        }
        assert(edges =~= seen);
    }
    if edges == seen {
        assert forall|y: u64| #[trigger] live.contains(y) implies (lsa.adjacencies.contains(y)
            <==> are_joined(links, lsa.origin, y)) by {
            assert(edges.contains(y) <==> seen.contains(y));
        }
    }
}

/// In a mesh that is shown as converged some node runs, and every running node
/// has routes to exactly the other nodes of its part of the mesh, knows of each
/// of them an announcement that lists the links it has, and knows the same
/// versions as they do.
pub proof fn converged_meshes_agree(
    nodes: Seq<NodeRow>,
    links: Seq<LabLink>,
    a: u64,
    mine: MeshRow,
    c: u64,
    theirs: MeshRow,
)
    requires
        have_own_numbers(nodes),
        state::is_converged(nodes, links),
    ensures
        exists|id: u64, mesh: MeshRow| shows(nodes, id, mesh),
        shows(nodes, a, mine) ==> has_its_routes(nodes, links, a, mine) && knows_its_part(
            nodes,
            links,
            a,
            mine,
        ),
        shows(nodes, a, mine) && shows(nodes, c, theirs) && are_connected(nodes, links, a, c)
            ==> know_the_same(nodes, links, a, mine, theirs),
{
    let live = state::live_ids(nodes);
    let some = choose|id: u64| live.contains(id);
    running_nodes_show(nodes, some);
    assert(shows(nodes, some, state::shown_by(nodes, some)->0));
    running_nodes_show(nodes, a);
    running_nodes_show(nodes, c);
    if shows(nodes, a, mine) {
        let part = graph::component(live, links, a);
        assert(graph::components(live, links).contains(part));
        graph::nodes_reach_themselves(live, links, a);
        let first = state::first_of(nodes, part)->0;
        assert(state::agrees(nodes, live, links, part, first, a));
        let known = state::known(mine.lsdb, part, live);
        assert forall|b: u64|
            #![trigger mine.routes.contains(b)]
            #![trigger are_connected(nodes, links, a, b)]
            mine.routes.contains(b) <==> a != b && are_connected(nodes, links, a, b) by {
            assert(mine.routes.to_set().contains(b) <==> part.remove(a).contains(b));
        }
        assert forall|b: u64| #[trigger] are_connected(nodes, links, a, b) implies exists|
            lsa: LsaRow,
        | #[trigger]
            knows(mine, lsa) && lsa.origin == b && lists_what_is_joined(nodes, links, lsa) by {
            assert(part.contains(b));
            assert(known.dom().contains(b));
            let lsa = what_is_known_was_announced(mine.lsdb, part, live, b);
            let i = choose|i: int| is_last(mine.lsdb, i, lsa);
            the_last_announcement_counts(mine.lsdb, part, live, lsa, i);
            seen_edges_are_neighbours(nodes, links, lsa);
            assert(knows(mine, lsa));
        }
        if shows(nodes, c, theirs) && are_connected(nodes, links, a, c) {
            assert(part.contains(c));
            assert(state::agrees(nodes, live, links, part, first, c));
            assert forall|x: LsaRow, y: LsaRow| #[trigger]
                knows(mine, x) && #[trigger] knows(theirs, y) && x.origin == y.origin
                    && are_connected(nodes, links, a, x.origin) implies x.epoch == y.epoch
                && x.sequence == y.sequence by {
                assert(part.contains(x.origin));
                let i = choose|i: int| is_last(mine.lsdb, i, x);
                the_last_announcement_counts(mine.lsdb, part, live, x, i);
                let j = choose|j: int| is_last(theirs.lsdb, j, y);
                the_last_announcement_counts(theirs.lsdb, part, live, y, j);
            }
        }
    }
}

/// A mesh in which some node runs and all running nodes agree is shown as
/// converged.
pub proof fn meshes_that_agree_are_converged(nodes: Seq<NodeRow>, links: Seq<LabLink>)
    requires
        have_own_numbers(nodes),
        exists|id: u64, mesh: MeshRow| shows(nodes, id, mesh),
        forall|a: u64, mine: MeshRow| #[trigger]
            shows(nodes, a, mine) ==> has_its_routes(nodes, links, a, mine) && knows_its_part(
                nodes,
                links,
                a,
                mine,
            ),
        forall|a: u64, mine: MeshRow, c: u64, theirs: MeshRow| #[trigger]
            shows(nodes, a, mine) && #[trigger] shows(nodes, c, theirs) && are_connected(
                nodes,
                links,
                a,
                c,
            ) ==> know_the_same(nodes, links, a, mine, theirs),
    ensures
        state::is_converged(nodes, links),
{
    let live = state::live_ids(nodes);
    let (some, at_some) = choose|id: u64, mesh: MeshRow| shows(nodes, id, mesh);
    running_nodes_show(nodes, some);
    assert(live.contains(some));
    assert forall|part: Set<u64>| #[trigger] graph::components(live, links).contains(
        part,
    ) implies state::is_settled(nodes, live, links, part) by {
        let x = choose|x: u64| #[trigger]
            live.contains(x) && part == graph::component(live, links, x);
        graph::nodes_reach_themselves(live, links, x);
        running_nodes_show(nodes, x);
        let (f, first) = parts_have_a_first(nodes, part, x, state::shown_by(nodes, x)->0);
        graph::members_share_their_component(live, links, x, f);
        assert forall|id: u64| #[trigger] part.contains(id) implies state::agrees(
            nodes,
            live,
            links,
            part,
            first,
            id,
        ) by {
            graph::members_share_their_component(live, links, x, id);
            running_nodes_show(nodes, id);
            let mesh = state::shown_by(nodes, id)->0;
            assert(shows(nodes, id, mesh));
            assert(are_connected(nodes, links, id, f));
            let mine = state::known(mesh.lsdb, part, live);
            let theirs = state::known(first.lsdb, part, live);
            state::known_is_of_the_part(mesh.lsdb, part, live);
            state::known_is_of_the_part(first.lsdb, part, live);
            assert forall|origin: u64| #[trigger] part.contains(origin) implies {
                &&& mine.contains_key(origin)
                &&& theirs.contains_key(origin)
                &&& mine[origin] == theirs[origin]
                &&& mine[origin].adjacencies == graph::neighbours(live, links, origin)
            } by {
                assert(are_connected(nodes, links, id, origin));
                assert(are_connected(nodes, links, f, origin));
                assert(knows_its_part(nodes, links, id, mesh));
                assert(knows_its_part(nodes, links, f, first));
                let l = choose|lsa: LsaRow| #[trigger]
                    knows(mesh, lsa) && lsa.origin == origin && lists_what_is_joined(
                        nodes,
                        links,
                        lsa,
                    );
                let k = choose|lsa: LsaRow| #[trigger]
                    knows(first, lsa) && lsa.origin == origin && lists_what_is_joined(
                        nodes,
                        links,
                        lsa,
                    );
                let i = choose|i: int| is_last(mesh.lsdb, i, l);
                the_last_announcement_counts(mesh.lsdb, part, live, l, i);
                let j = choose|j: int| is_last(first.lsdb, j, k);
                the_last_announcement_counts(first.lsdb, part, live, k, j);
                seen_edges_are_neighbours(nodes, links, l);
                seen_edges_are_neighbours(nodes, links, k);
                assert(know_the_same(nodes, links, id, mesh, first));
            }
            assert(mine.dom() =~= part);
            assert(mine =~= theirs);
            assert(mesh.routes.to_set() =~= part.remove(id)) by {
                assert forall|b: u64| mesh.routes.to_set().contains(b) <==> part.remove(
                    id,
                ).contains(b) by {
                    assert(has_its_routes(nodes, links, id, mesh));
                    assert(mesh.routes.contains(b) <==> id != b && are_connected(
                        nodes,
                        links,
                        id,
                        b,
                    ));
                }
            }
        }
    }
}

/// A mesh in which no node runs falls into no parts. A mesh in which one runs
/// falls into one part exactly if all that run are connected.
pub proof fn parts_are_counted(live: Set<u64>, links: Seq<LabLink>, x: u64)
    requires
        live.contains(x),
        graph::components(live, links).finite(),
    ensures
        graph::components(Set::<u64>::empty(), links) == Set::<Set<u64>>::empty(),
        graph::components(live, links).len() >= 1,
        graph::components(live, links).len() == 1 <==> forall|y: u64| #[trigger]
            live.contains(y) ==> graph::component(live, links, x).contains(y),
{
    let parts = graph::components(live, links);
    let part = graph::component(live, links, x);
    assert(graph::components(Set::<u64>::empty(), links) =~= Set::<Set<u64>>::empty());
    assert(parts.contains(part));
    if parts.len() == 1 {
        assert forall|y: u64| #[trigger] live.contains(y) implies part.contains(y) by {
            let other = graph::component(live, links, y);
            assert(parts.contains(other));
            graph::nodes_reach_themselves(live, links, y);
            assert(parts.remove(part).len() == 0);
            if other != part {
                assert(parts.remove(part).contains(other));
            }
        }
    }
    if forall|y: u64| #[trigger] live.contains(y) ==> part.contains(y) {
        assert forall|other: Set<u64>| #[trigger] parts.contains(other) implies other == part by {
            let y = choose|y: u64| #[trigger]
                live.contains(y) && other == graph::component(live, links, y);
            graph::members_share_their_component(live, links, x, y);
        }
        assert(parts =~= Set::<Set<u64>>::empty().insert(part));
    }
}

/// What the laboratory collects is shown: every report as a node, every link as
/// its ends see it, the newest events, the parts of the mesh, and whether it has
/// converged.
pub proof fn what_is_collected_is_shown(
    collected: Vec<NodeReport>,
    links: &Vec<LabLink>,
    now_ms: u64,
    pace_ms: u64,
    shown: LabStateResponse,
)
    requires
        call_ensures(state::collect_state, (collected, links, now_ms, pace_ms), shown),
    ensures
        shown.now_ms == now_ms,
        shown.pace_ms == pace_ms,
        shown.nodes@ == state::states_of(state::by_number(collected@)),
        shown.links@.len() == links@.len(),
        forall|i: int|
            0 <= i < links@.len() ==> is_shown_as_seen(
                collected@,
                links@[i],
                #[trigger] shown.links@[i],
            ),
        state::event_rows(shown.events@) == state::first_shown(
            state::newest_first(state::all_events(state::by_number(collected@))),
        ),
        shown.components == graph::components(
            state::live_ids(rows_of(collected@)),
            shown.links@,
        ).len(),
        shown.converged <==> state::is_converged(rows_of(collected@), shown.links@),
{
}

} // verus!
