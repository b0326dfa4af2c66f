use meshbus::lab::graph::LabLink;
use meshbus::lab::links::should_restore_link;
use meshbus::lab::numbers::{node_id, numeric_id};

fn link(desired_up: bool) -> LabLink {
    LabLink {
        id: 7,
        a: 1,
        b: 2,
        up: desired_up,
        desired_up,
        cost: 10,
        latency_ms: 0,
        loss_per_million: 0,
        bandwidth_kbps: 0,
    }
}

#[test]
fn numeric_node_ids_round_trip() {
    for value in [0, 1, 42, u64::MAX] {
        assert_eq!(numeric_id(node_id(value)), value);
    }
}

#[test]
fn restart_restores_only_desired_incident_links() {
    assert!(should_restore_link(&link(true), 1, true));
    assert!(!should_restore_link(&link(false), 1, true));
    assert!(!should_restore_link(&link(true), 3, true));
}
