use meshbus::lab::admin::{LsaResponse, PeerResponse, RouteResponse};
use meshbus::lab::graph::LabLink;
use meshbus::lab::state::{collect_state, EventSnapshot, NodeInfo, NodeReport, NodeSnapshot};

fn info(id: u64) -> NodeInfo {
    NodeInfo {
        id,
        name: format!("node-{id}"),
        mesh_addr: String::new(),
        admin_addr: String::new(),
        pid: Some(1),
    }
}

fn lsa(origin: u64, sequence: u64, adjacencies: &[u64]) -> LsaResponse {
    LsaResponse {
        origin,
        epoch: 1,
        sequence,
        adjacencies: adjacencies.to_vec(),
    }
}

fn snapshot(id: u64, peers: &[u64], lsdb: Vec<LsaResponse>, routes: &[u64]) -> NodeSnapshot {
    NodeSnapshot {
        id,
        name: format!("node-{id}"),
        mesh_addr: String::new(),
        now_ms: 0,
        peers: peers
            .iter()
            .map(|peer| PeerResponse {
                link_id: 1,
                peer: *peer,
            })
            .collect(),
        lsdb,
        routes: routes
            .iter()
            .map(|destination| RouteResponse {
                destination: *destination,
                next_hop: 1,
                cost: 1,
                hops: 1,
            })
            .collect(),
        queues: Vec::new(),
        events: Vec::new(),
        outcomes: Vec::new(),
    }
}

fn report(id: u64, snapshot: Option<NodeSnapshot>) -> NodeReport {
    NodeReport {
        info: info(id),
        started_offset_ms: 1_000,
        snapshot,
    }
}

fn link(id: u64, a: u64, b: u64, up: bool) -> LabLink {
    LabLink {
        id,
        a,
        b,
        up,
        desired_up: true,
        cost: 10,
        latency_ms: 0,
        loss_per_million: 0,
        bandwidth_kbps: 0,
    }
}

/// What the nodes of a chain of three know of each other.
fn chain() -> Vec<LsaResponse> {
    vec![lsa(1, 3, &[2]), lsa(2, 4, &[1, 3]), lsa(3, 5, &[2])]
}

fn converged_reports() -> Vec<NodeReport> {
    vec![
        report(3, Some(snapshot(3, &[2], chain(), &[1, 2]))),
        report(1, Some(snapshot(1, &[2], chain(), &[2, 3]))),
        report(2, Some(snapshot(2, &[1, 3], chain(), &[3, 1]))),
    ]
}

fn chain_links() -> Vec<LabLink> {
    vec![link(1, 1, 2, false), link(2, 2, 3, false), link(3, 1, 3, true)]
}

#[test]
fn a_converged_mesh_is_seen_as_such() {
    let state = collect_state(converged_reports(), &chain_links(), 77, 220);
    assert!(state.converged);
    assert_eq!(state.components, 1);
    assert_eq!((state.now_ms, state.pace_ms), (77, 220));
    let ids: Vec<(u64, bool)> = state
        .nodes
        .iter()
        .map(|node| (node.info.id, node.running))
        .collect();
    assert_eq!(ids, vec![(1, true), (2, true), (3, true)]);
    let up: Vec<bool> = state.links.iter().map(|link| link.up).collect();
    assert_eq!(up, vec![true, true, false]);
}

#[test]
fn any_disagreement_is_no_convergence() {
    let converged = |change: fn(&mut Vec<NodeReport>)| {
        let mut reports = converged_reports();
        change(&mut reports);
        collect_state(reports, &chain_links(), 0, 0).converged
    };
    assert!(converged(|_| {}));
    // A route is missing, or one too many is there.
    assert!(!converged(|reports| {
        reports[0].snapshot.as_mut().expect("shown").routes.pop();
    }));
    assert!(!converged(|reports| {
        reports[0].snapshot.as_mut().expect("shown").routes[0].destination = 9;
    }));
    // An announcement is older than elsewhere, says something else, or is missing.
    assert!(!converged(|reports| {
        reports[1].snapshot.as_mut().expect("shown").lsdb[0].sequence = 2;
    }));
    assert!(!converged(|reports| {
        reports[1].snapshot.as_mut().expect("shown").lsdb[0].adjacencies = vec![];
    }));
    assert!(!converged(|reports| {
        reports[2].snapshot.as_mut().expect("shown").lsdb.pop();
    }));
    // All agree, but not with the links that are up.
    assert!(!converged(|reports| {
        for report in reports {
            report.snapshot.as_mut().expect("shown").lsdb[0].adjacencies = vec![2, 3];
        }
    }));
    // Edges to nodes that are not running do not count.
    assert!(converged(|reports| {
        for report in reports {
            report.snapshot.as_mut().expect("shown").lsdb[0].adjacencies = vec![2, 9];
        }
    }));
    // Announcements of nodes that are not running do not count either.
    assert!(converged(|reports| {
        let known = &mut reports[0].snapshot.as_mut().expect("shown").lsdb;
        known.push(lsa(9, 1, &[]));
    }));
}

#[test]
fn without_running_nodes_nothing_is_converged() {
    let state = collect_state(Vec::new(), &chain_links(), 0, 0);
    assert!(!state.converged);
    assert_eq!(state.components, 0);
    let state = collect_state(vec![report(1, None)], &Vec::new(), 0, 0);
    assert!(!state.converged);
    assert_eq!(state.components, 0);
    assert!(!state.nodes[0].running);
}

#[test]
fn parts_of_the_mesh_are_judged_apart() {
    let alone = |id: u64| report(id, Some(snapshot(id, &[], vec![lsa(id, 1, &[])], &[])));
    let state = collect_state(
        vec![alone(2), report(3, None), alone(1)],
        &vec![link(1, 1, 2, true)],
        0,
        0,
    );
    assert_eq!(state.components, 2);
    assert!(state.converged);
    assert!(!state.links[0].up);
}

#[test]
fn the_newest_events_come_first() {
    let events = |n: u64, at_ms: u64| -> Vec<EventSnapshot> {
        (0..n)
            .map(|sequence| EventSnapshot {
                sequence,
                at_ms,
                kind: "KIND".to_owned(),
                detail: format!("{sequence}"),
                link_id: Some(4),
                peer: None,
            })
            .collect()
    };
    let mut first = snapshot(1, &[], Vec::new(), &[]);
    first.events = events(2, 10);
    let mut second = snapshot(2, &[], Vec::new(), &[]);
    second.events = events(120, 5);
    let mut reports = vec![report(2, Some(second)), report(1, Some(first))];
    reports[0].started_offset_ms = u64::MAX;
    let state = collect_state(reports, &Vec::new(), 0, 0);
    assert_eq!(state.events.len(), 100);
    let shown = &state.events[0];
    assert_eq!((shown.node, shown.sequence, shown.at_ms), (2, 119, u64::MAX));
    assert_eq!(shown.name, "node-2");
    assert_eq!(shown.kind, "KIND");
    assert_eq!(shown.detail, "119");
    assert_eq!((shown.link_id, shown.peer), (Some(4), None));
    assert_eq!(state.events[99].sequence, 20);

    let mut first = snapshot(1, &[], Vec::new(), &[]);
    first.events = events(2, 10);
    let mut second = snapshot(2, &[], Vec::new(), &[]);
    second.events = events(1, 10);
    let reports = vec![report(2, Some(second)), report(1, Some(first))];
    let state = collect_state(reports, &Vec::new(), 0, 0);
    let order: Vec<(u64, u64, u64)> = state
        .events
        .iter()
        .map(|event| (event.at_ms, event.node, event.sequence))
        .collect();
    assert_eq!(order, vec![(1_010, 2, 0), (1_010, 1, 1), (1_010, 1, 0)]);
}
