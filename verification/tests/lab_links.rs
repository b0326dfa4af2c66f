use bytes::{Bytes, BytesMut};
use meshbus::lab::graph::LabLink;
use meshbus::lab::links::{
    bad_request, connect_tasks, default_link_cost, default_name, initial_edges, initial_name,
    not_found, require_running, restart_goes_on, stops_proxy, ConnectTask, LabError, LabLinks,
};
use meshbus::lab::nodes::{not_ready, probe_payload, started_info, LabNodes};
use meshbus::lab::proxy::{effective_conditions, mix64, Conditions, FrameProxy, ProxyStep};
use meshbus::wire::{Channel, FrameEncoder, FrameType, WireFrame};

fn error(status: u16, message: &str) -> LabError {
    LabError {
        status,
        message: message.to_owned(),
    }
}

fn frame(frame_type: FrameType, payload: &'static [u8]) -> Bytes {
    FrameEncoder::encode(&WireFrame {
        frame_type,
        channel: Channel::Control,
        payload: Bytes::from_static(payload),
    })
    .expect("frame must encode")
}

fn conditions(latency_ms: u64, loss_per_million: u64, bandwidth_kbps: u64) -> Conditions {
    Conditions {
        latency_ms,
        loss_per_million,
        bandwidth_kbps,
    }
}

fn pass(step: ProxyStep) -> (u64, Option<Bytes>) {
    match step {
        ProxyStep::Pass { delay_ms, bytes } => (delay_ms, bytes),
        ProxyStep::Read => panic!("the frame is complete"),
        ProxyStep::Stop => panic!("the frame is valid"),
    }
}

#[test]
fn links_are_made_once() {
    let mut links = LabLinks::new(220);
    assert_eq!(links.pace_ms(), 220);
    assert_eq!(default_link_cost(), 10);
    assert_eq!(
        links.begin_connect(1, 1, 10),
        Err(error(400, "a link requires two different nodes"))
    );
    assert_eq!(
        links.begin_connect(1, 2, 0),
        Err(error(400, "link cost must be greater than zero"))
    );
    assert_eq!(links.begin_connect(1, 2, 10), Ok(1));
    assert_eq!(
        links.begin_connect(2, 1, 10),
        Err(error(400, "a link between these nodes already exists"))
    );
    assert_eq!(links.begin_connect(2, 3, 5), Ok(2));
    let new = LabLink {
        id: 2,
        a: 2,
        b: 3,
        up: false,
        desired_up: true,
        cost: 5,
        latency_ms: 0,
        loss_per_million: 0,
        bandwidth_kbps: 0,
    };
    assert_eq!(links.get(2), Ok(new));
    assert_eq!(links.get(3), Err(error(404, "link was not found")));
    links.opened(2);
    assert_eq!(links.get(2).map(|link| link.up), Ok(true));
    links.opened(3);
    assert_eq!(links.all().len(), 2);
    links.remove(1);
    assert_eq!(links.begin_connect(2, 1, 10), Ok(3));
}

#[test]
fn links_are_turned_over() {
    let mut links = LabLinks::new(0);
    assert_eq!(links.begin_connect(1, 2, 10), Ok(1));
    links.opened(1);
    assert_eq!(links.toggle(1), Ok(false));
    let down = links.get(1).expect("the link is known");
    assert!(!down.up && !down.desired_up);
    assert_eq!(links.toggle(1), Ok(true));
    assert_eq!(links.get(1), Ok(down));
    let raised = links.raised(1).expect("the link is known");
    assert!(raised.up && raised.desired_up);
    assert_eq!(links.toggle(9), Err(error(404, "link was not found")));
    assert_eq!(links.raised(9), Err(error(404, "link was not found")));
}

#[test]
fn conditions_and_pace_are_set() {
    let mut links = LabLinks::new(5);
    assert_eq!(links.begin_connect(1, 2, 10), Ok(1));
    assert_eq!(links.begin_connect(2, 3, 10), Ok(2));
    let changed = links
        .set_conditions(1, 30, 250_000, 64)
        .expect("the link is known");
    assert_eq!(
        (
            changed.latency_ms,
            changed.loss_per_million,
            changed.bandwidth_kbps
        ),
        (30, 250_000, 64)
    );
    assert_eq!(
        links.set_conditions(9, 0, 0, 0),
        Err(error(404, "link was not found"))
    );
    assert_eq!(
        effective_conditions(links.pace_ms(), &changed),
        conditions(35, 250_000, 64)
    );
    assert_eq!(
        effective_conditions(u64::MAX, &changed).latency_ms,
        u64::MAX
    );
    assert_eq!(links.toggle(2), Ok(false));
    assert_eq!(
        links
            .set_pace(2_000)
            .map(|links| links.iter().map(|link| link.id).collect::<Vec<_>>()),
        Ok(vec![1])
    );
    assert_eq!(links.pace_ms(), 2_000);
    assert_eq!(
        links.set_pace(2_001),
        Err(error(400, "pace_ms must be between 0 and 2000"))
    );
    assert_eq!(links.pace_ms(), 2_000);
}

#[test]
fn incident_links_go_with_their_node() {
    let mut links = LabLinks::new(0);
    for (a, b) in [(1, 2), (2, 3), (3, 1), (3, 4)] {
        links.begin_connect(a, b, 1).expect("a new link");
    }
    assert_eq!(links.toggle(3), Ok(false));
    assert_eq!(links.incident_link_ids(1, false), vec![1, 3]);
    assert_eq!(links.incident_link_ids(1, true), vec![1]);
    links.remove_incident(3);
    assert_eq!(
        links.all().iter().map(|link| link.id).collect::<Vec<_>>(),
        vec![1]
    );
}

#[test]
fn a_link_is_opened_in_order() {
    let mut links = LabLinks::new(0);
    links.begin_connect(1, 2, 7).expect("a new link");
    let tasks = connect_tasks(&links.get(1).expect("the link is known"));
    assert_eq!(
        tasks,
        vec![
            ConnectTask::Require { node: 1 },
            ConnectTask::Require { node: 2 },
            ConnectTask::StopProxy,
            ConnectTask::StartProxy { far: 2 },
            ConnectTask::Allow {
                node: 1,
                peer: 2,
                cost: 7
            },
            ConnectTask::Allow {
                node: 2,
                peer: 1,
                cost: 7
            },
            ConnectTask::Connect {
                node: 1,
                peer: 2,
                cost: 7
            },
            ConnectTask::KeepProxy,
        ]
    );
    let stops: Vec<bool> = tasks.iter().map(stops_proxy).collect();
    assert_eq!(
        stops,
        vec![false, false, false, false, true, true, true, false]
    );
}

#[test]
fn the_laboratory_starts_with_a_mesh() {
    let names: Vec<String> = (0..7).map(initial_name).collect();
    assert_eq!(
        names,
        [
            "drone-17",
            "vehicle-3",
            "ground-2",
            "relay-west",
            "c2-main",
            "node-6",
            "node-7"
        ]
    );
    assert_eq!(default_name(12), "node-12");
    assert_eq!(initial_edges(0), vec![]);
    assert_eq!(initial_edges(3), vec![(0, 1), (1, 2)]);
    assert_eq!(
        initial_edges(5),
        vec![(0, 1), (1, 2), (0, 3), (3, 2), (2, 4), (3, 4)]
    );
    assert_eq!(
        initial_edges(7),
        vec![
            (0, 1),
            (1, 2),
            (0, 3),
            (3, 2),
            (2, 4),
            (3, 4),
            (4, 5),
            (5, 6)
        ]
    );
}

#[test]
fn nodes_are_started_stopped_and_forgotten() {
    let mut nodes = LabNodes::new();
    let start = |nodes: &mut LabNodes, name: Option<&str>| {
        let (id, name) = nodes.reserve(name.map(str::to_owned));
        nodes.insert(started_info(id, name, 100, 200, Some(7)), 5);
        id
    };
    assert_eq!(nodes.first_running(), None);
    assert_eq!(start(&mut nodes, Some("alpha")), 1);
    assert_eq!(start(&mut nodes, None), 2);
    assert_eq!(nodes.first_running(), Some(1));
    let (info, running) = nodes.info(2).expect("the node is known");
    assert!(running);
    assert_eq!(info.name, "node-2");
    assert_eq!(info.mesh_addr, "127.0.0.1:100");
    assert_eq!(info.admin_addr, "127.0.0.1:200");

    assert_eq!(nodes.stop(1), Ok("alpha".to_owned()));
    assert_eq!(nodes.first_running(), Some(2));
    assert_eq!(
        nodes.require(1, true).map(|info| info.id),
        Err(error(
            503,
            "node 1 (alpha) process is stopped; restart it before creating a link"
        ))
    );
    assert!(nodes.require(2, false).is_err());
    assert_eq!(nodes.require(2, true).map(|info| info.id), Ok(2));
    assert_eq!(
        nodes.require(9, true).map(|info| info.id),
        Err(error(404, "node was not found"))
    );
    assert_eq!(nodes.stop(9), Err(error(404, "node was not found")));
    let all: Vec<(u64, Option<u32>, u64)> = nodes
        .all()
        .into_iter()
        .map(|(info, offset)| (info.id, info.pid, offset))
        .collect();
    assert_eq!(all, vec![(1, None, 5), (2, Some(7), 5)]);
    assert_eq!(nodes.remove(1), Ok(()));
    assert_eq!(nodes.remove(1), Err(error(404, "node was not found")));
    assert_eq!(start(&mut nodes, None), 3);
    assert_eq!((nodes.take_flow(), nodes.take_flow()), (1, 2));
}

#[test]
fn what_the_laboratory_says() {
    assert_eq!(bad_request("no"), error(400, "no"));
    assert_eq!(not_found("node"), error(404, "node was not found"));
    assert_eq!(require_running(1, "a", true, true), Ok(()));
    for (process_runs, answers) in [(false, true), (true, false), (false, false)] {
        assert_eq!(
            require_running(12, "a", process_runs, answers),
            Err(error(
                503,
                "node 12 (a) process is stopped; restart it before creating a link"
            ))
        );
    }
    assert!(restart_goes_on(503));
    assert!(!restart_goes_on(500));
    assert_eq!(
        not_ready("127.0.0.1:9"),
        error(504, "mblab-node at 127.0.0.1:9 did not become ready")
    );
    assert_eq!(probe_payload(None), "mesh-lab probe");
    assert_eq!(probe_payload(Some("x".to_owned())), "x");
}

#[test]
fn a_proxy_passes_introductions_but_drops_impaired_frames() {
    let hello = frame(FrameType::LinkHello, b"hello");
    let data = frame(FrameType::Lsa, b"dropped");
    let mut buffered = BytesMut::from(hello.as_ref());
    buffered.extend_from_slice(&data);
    buffered.extend_from_slice(&data[..5]);
    let (there, back) = FrameProxy::seeds(9);
    assert_eq!((there, back), (18, 19));
    let mut proxy = FrameProxy::new(there);
    let all_lost = conditions(0, 1_000_000, 0);
    assert_eq!(
        pass(proxy.next(&mut buffered, &all_lost)),
        (0, Some(hello))
    );
    assert_eq!(pass(proxy.next(&mut buffered, &all_lost)), (0, None));
    assert!(matches!(
        proxy.next(&mut buffered, &all_lost),
        ProxyStep::Read
    ));
    assert_eq!(buffered.as_ref(), &data[..5]);
    let mut broken = BytesMut::from(&[0_u8; 8][..]);
    assert!(matches!(
        proxy.next(&mut broken, &all_lost),
        ProxyStep::Stop
    ));
}

#[test]
fn a_proxy_holds_frames_back() {
    let data = frame(FrameType::Lsa, b"123456789012");
    assert_eq!(data.len(), 20);
    for (conditions, delay) in [
        (conditions(0, 0, 0), 0),
        (conditions(60_000, 0, 0), 60_000),
        (conditions(0, 0, 160), 1),
        (conditions(3, 0, 159), 5),
        (conditions(3, 0, 1), 163),
        (conditions(u64::MAX, 0, 1), u64::MAX),
        (conditions(0, 0, u64::MAX), 1),
    ] {
        let mut proxy = FrameProxy::new(1);
        let mut buffered = BytesMut::from(data.as_ref());
        assert_eq!(
            pass(proxy.next(&mut buffered, &conditions)),
            (delay, Some(data.clone()))
        );
    }
}

#[test]
fn losses_are_drawn_from_seed_and_number() {
    assert_eq!(mix64(0), 0);
    assert_eq!(mix64(1), 0x5692_161d_100b_05e5);
    let data = frame(FrameType::Ping, b"");
    let mut proxy = FrameProxy::new(6);
    for sequence in 1..50_u64 {
        let sample = mix64(6 ^ sequence) % 1_000_000;
        let mut buffered = BytesMut::from(data.as_ref());
        let (_, bytes) = pass(proxy.next(&mut buffered, &conditions(0, 400_000, 0)));
        assert_eq!(bytes.is_none(), sample < 400_000);
    }
}
