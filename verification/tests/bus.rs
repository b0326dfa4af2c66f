use bytes::{Bytes, BytesMut};
use meshbus::control::LinkCost;
use meshbus::ordered_map::OrderedMap;
use meshbus::pubsub::{
    DiscoveryIndex, PubSubEvent, PubSubRejectReason, SubId, TopicKey, TopicMode, TopicPolicies,
    TopicPolicy, TopicSelector,
};
use meshbus::runtime::driver::check_packet;
use meshbus::runtime::{
    after_effect, BusCore, BusEffect, BusInput, ForwardOutcome, Next, PubSubOutcome, RuntimeConfig,
    RuntimeCore, RuntimeEffect, RuntimeError, RuntimeInput, SeqStoreError,
};
use meshbus::forward::DropReason;
use meshbus::transport::{link_step, LinkEvent, WorkerInput, WorkerStep};
use meshbus::types::{LinkId, MonoTime, NodeId};
use meshbus::wire::{
    Channel, ForwardFlags, ForwardHeader, ForwardPacket, ForwardPacketError, FrameEncoder,
    FrameType, PacketType, Priority, WireFrame, MAX_FORWARD_PAYLOAD_LEN,
};
use std::collections::{BTreeMap, VecDeque};
use std::sync::Arc;

fn node(value: u8) -> NodeId {
    let mut bytes = [0; 32];
    bytes[31] = value;
    NodeId::from_bytes(bytes)
}

fn cost(value: u16) -> LinkCost {
    LinkCost::new(value).expect("test link cost must be non-zero")
}

fn config(node_id: NodeId, peers: &[(NodeId, LinkCost)]) -> RuntimeConfig {
    let mut peer_costs = OrderedMap::new();
    for (peer, cost) in peers {
        peer_costs.insert(*peer, *cost);
    }
    RuntimeConfig {
        node_id,
        epoch: 1,
        peer_costs,
    }
}

fn policies() -> Arc<TopicPolicies> {
    Arc::new(
        TopicPolicies::new(vec![(
            "lattice.tracks.v1".to_owned(),
            TopicPolicy {
                priority: Priority::P1,
                mode: TopicMode::Latest,
            },
        )])
        .expect("test topic policy must be valid"),
    )
}

fn bus(node_id: NodeId, peers: &[(NodeId, LinkCost)]) -> BusCore {
    let core =
        RuntimeCore::start(config(node_id, peers), node_id, Ok(0)).expect("runtime must start");
    BusCore::new(core, policies())
}

fn packet(source: NodeId, destination: NodeId, priority: Priority, body: &'static [u8]) -> ForwardPacket {
    ForwardPacket {
        header: ForwardHeader {
            packet_type: PacketType::Unicast,
            priority,
            ttl: 32,
            flags: ForwardFlags::empty(),
            destination,
            source,
            flow_id: 7,
            conflate_key: 0,
        },
        payload: Bytes::from_static(body),
    }
}

/// Nodes that exchange frames without sockets.
struct Mesh {
    nodes: Vec<BusCore>,
    links: BTreeMap<(usize, LinkId), (usize, LinkId)>,
    queue: VecDeque<(usize, BusInput)>,
    reports: Vec<(usize, ForwardOutcome)>,
    told: Vec<(usize, PubSubOutcome)>,
    stored: Vec<(usize, u64)>,
    packets: BTreeMap<(usize, LinkId), usize>,
    now: u64,
    next_link: u64,
}

impl Mesh {
    fn new(nodes: Vec<BusCore>) -> Self {
        Self {
            nodes,
            links: BTreeMap::new(),
            queue: VecDeque::new(),
            reports: Vec::new(),
            told: Vec::new(),
            stored: Vec::new(),
            packets: BTreeMap::new(),
            now: 0,
            next_link: 1,
        }
    }

    fn connect(&mut self, a: usize, b: usize) {
        let left = LinkId::new(self.next_link);
        let right = LinkId::new(self.next_link + 1);
        self.next_link += 2;
        self.links.insert((a, left), (b, right));
        self.links.insert((b, right), (a, left));
        for (from, link, to) in [(a, left, b), (b, right, a)] {
            let peer = self.nodes[to].runtime().node_id();
            self.queue.push_back((
                from,
                BusInput::Node(RuntimeInput::Link(LinkEvent::Up { link, peer })),
            ));
        }
    }

    fn give(&mut self, to: usize, input: BusInput) {
        self.queue.push_back((to, input));
        self.settle();
    }

    /// Runs until nothing is left to do within ten simulated seconds.
    fn settle(&mut self) {
        let end = self.now + 9_000;
        loop {
            while let Some((to, input)) = self.queue.pop_front() {
                self.step(to, input);
            }
            let next = (0..self.nodes.len())
                .filter_map(|i| self.nodes[i].runtime().next_timer_at().map(|at| (at, i)))
                .min();
            match next {
                Some((at, i)) if at <= end => {
                    self.now = self.now.max(at);
                    let timer = self.nodes[i]
                        .take_due_timer(MonoTime::from_millis(self.now))
                        .expect("the timer is due");
                    self.queue
                        .push_back((i, BusInput::Node(RuntimeInput::Timer(timer))));
                }
                _ => break,
            }
        }
    }

    fn step(&mut self, at: usize, input: BusInput) {
        assert!(self.nodes[at].runtime().has_numbers_left());
        let effects = self.nodes[at].step(MonoTime::from_millis(self.now), input);
        for effect in effects {
            match effect {
                BusEffect::Node(RuntimeEffect::Close(link)) => {
                    self.links.remove(&(at, link));
                }
                BusEffect::Node(RuntimeEffect::Send { link, frame }) => {
                    if frame.frame_type == FrameType::Forward {
                        *self.packets.entry((at, link)).or_default() += 1;
                    }
                    if let Some((to, far)) = self.links.get(&(at, link)).copied() {
                        self.queue.push_back((to, carry(far, frame)));
                    }
                }
                BusEffect::Node(RuntimeEffect::Persist(seq)) => self.stored.push((at, seq)),
                BusEffect::Node(RuntimeEffect::Report(outcome)) => {
                    self.reports.push((at, outcome));
                }
                BusEffect::Tell(outcome) => self.told.push((at, outcome)),
                BusEffect::Advertise(_) => {}
            }
        }
    }
}

/// What comes out at the far end of a link when a frame goes in.
fn carry(far: LinkId, frame: WireFrame) -> BusInput {
    let mut buffered =
        BytesMut::from(FrameEncoder::encode(&frame).expect("frame must encode").as_ref());
    let len = buffered.len();
    match link_step(far, &mut buffered, WorkerInput::Read(Some(len))) {
        WorkerStep::Deliver(event) => BusInput::Node(RuntimeInput::Link(event)),
        _ => panic!("the frame must be delivered"),
    }
}

fn chain() -> Mesh {
    let [a, b, c] = [node(1), node(2), node(3)];
    let mut mesh = Mesh::new(vec![
        bus(a, &[(b, cost(10))]),
        bus(b, &[(a, cost(10)), (c, cost(20))]),
        bus(c, &[(b, cost(20))]),
    ]);
    mesh.connect(0, 1);
    mesh.settle();
    // The third node joins after the other two have converged.
    mesh.connect(1, 2);
    mesh.settle();
    mesh
}

#[test]
fn three_nodes_converge_and_forward() {
    let mut mesh = chain();
    assert_eq!(mesh.nodes[0].runtime().plane().lsdb_len(), 3);
    let table = mesh.nodes[0].runtime().plane().route_table();
    let route = table.get(&node(3)).expect("A must have a route to C");
    assert_eq!((route.cost, route.hops), (30, 2));

    mesh.give(
        0,
        BusInput::Node(RuntimeInput::Outbound(packet(
            node(1),
            node(3),
            Priority::P2,
            b"two-hop unicast",
        ))),
    );
    let (at, outcome) = mesh.reports.pop().expect("the packet must be delivered");
    assert_eq!(at, 2);
    let ForwardOutcome::Delivered(delivered) = outcome else {
        panic!("the packet must be delivered");
    };
    assert_eq!(delivered.header.source, node(1));
    assert_eq!(delivered.header.destination, node(3));
    assert_eq!(delivered.header.ttl, 30);
    assert_eq!(delivered.payload, Bytes::from_static(b"two-hop unicast"));
    assert!(mesh.reports.is_empty());
}

#[test]
fn multicast_packets_reach_each_destination() {
    let mut mesh = chain();
    mesh.give(
        0,
        BusInput::Node(RuntimeInput::OutboundMulticast {
            destinations: vec![node(3), node(2)],
            packet: packet(
                node(1),
                NodeId::default(),
                Priority::P1,
                b"branched multicast",
            ),
        }),
    );
    assert_eq!(mesh.reports.len(), 2);
    for (at, outcome) in &mesh.reports {
        let ForwardOutcome::Delivered(delivered) = outcome else {
            panic!("each copy must be delivered");
        };
        let destination = mesh.nodes[*at].runtime().node_id();
        assert_eq!(delivered.header.destination, destination);
        assert_eq!(delivered.header.ttl, if *at == 1 { 31 } else { 30 });
        assert_eq!(delivered.payload, Bytes::from_static(b"branched multicast"));
    }
    assert_ne!(mesh.reports[0].0, mesh.reports[1].0);
}

#[test]
fn published_messages_reach_remote_and_local_subscriptions() {
    let mut mesh = chain();
    let tracks = TopicKey::new(
        "lattice.tracks.v1".to_owned(),
        Bytes::from_static(b"drone-17"),
    )
    .expect("test topic must be valid");
    for (at, sub_id) in [(2, 17), (0, 5)] {
        mesh.give(
            at,
            BusInput::Local(PubSubEvent::LocalSubscribe {
                sub_id: SubId::new(sub_id),
                selector: TopicSelector::exact(tracks.clone()),
            }),
        );
    }
    let mut discovery = DiscoveryIndex::default();
    discovery.set_subscribers(
        TopicSelector::exact(tracks.clone()),
        vec![node(1), node(3)],
    );
    mesh.give(
        0,
        BusInput::Local(PubSubEvent::DiscoveryUpdated(Arc::new(discovery))),
    );
    mesh.give(
        0,
        BusInput::Local(PubSubEvent::LocalPublish {
            topic: tracks.clone(),
            payload: Bytes::from_static(b"live position"),
        }),
    );
    assert_eq!(mesh.told.len(), 3);
    let expected = [(0, Some(5)), (0, None), (2, Some(17))];
    for ((at, outcome), (where_at, sub)) in mesh.told.iter().zip(expected) {
        assert_eq!(*at, where_at);
        match (outcome, sub) {
            (PubSubOutcome::Delivered { sub_id, message }, Some(sub)) => {
                assert_eq!(*sub_id, SubId::new(sub));
                assert_eq!(message.envelope.origin, node(1));
                assert_eq!(message.envelope.topic, tracks);
                assert_eq!(message.envelope.seq, 1);
                assert_eq!(
                    message.envelope.payload,
                    Bytes::from_static(b"live position")
                );
                assert!(!message.is_backfill);
            }
            (PubSubOutcome::Published { topic, seq }, None) => {
                assert_eq!(topic, &tracks);
                assert_eq!(*seq, 1);
            }
            (other, _) => panic!("unexpected outcome {other:?}"),
        }
    }
    assert!(mesh.reports.is_empty());
}

#[test]
fn a_message_that_is_refused_is_told_and_not_sent() {
    let mut mesh = chain();
    let unknown = TopicKey::new("unknown".to_owned(), Bytes::new()).expect("a valid topic");
    mesh.give(
        0,
        BusInput::Local(PubSubEvent::LocalPublish {
            topic: unknown,
            payload: Bytes::new(),
        }),
    );
    assert_eq!(
        mesh.told,
        vec![(
            0,
            PubSubOutcome::Rejected(PubSubRejectReason::UnknownTopic("unknown".to_owned()))
        )]
    );
}

#[test]
fn subscriptions_are_advertised() {
    let mut bus = bus(node(1), &[]);
    let selector =
        TopicSelector::all_partitions("lattice.tracks.v1".to_owned()).expect("a valid name");
    let effects = bus.step(
        MonoTime::zero(),
        BusInput::Local(PubSubEvent::LocalSubscribe {
            sub_id: SubId::new(1),
            selector: selector.clone(),
        }),
    );
    assert_eq!(effects, vec![BusEffect::Advertise(vec![selector])]);
    let effects = bus.step(
        MonoTime::zero(),
        BusInput::Local(PubSubEvent::LocalUnsubscribe(SubId::new(1))),
    );
    assert_eq!(effects, vec![BusEffect::Advertise(Vec::new())]);
}

#[test]
fn sequences_are_stored_before_they_are_sent() {
    let mut core = RuntimeCore::start(config(node(1), &[(node(2), cost(3))]), node(1), Ok(41))
        .expect("runtime must start");
    let effects = core.step(
        MonoTime::zero(),
        RuntimeInput::Link(LinkEvent::Up {
            link: LinkId::new(1),
            peer: node(2),
        }),
    );
    assert_eq!(effects[0], RuntimeEffect::Persist(42));
    assert!(matches!(effects[1], RuntimeEffect::Send { .. }));
}

#[test]
fn links_to_unknown_peers_are_closed() {
    let mut core =
        RuntimeCore::start(config(node(1), &[]), node(1), Ok(0)).expect("runtime must start");
    let up = || {
        RuntimeInput::Link(LinkEvent::Up {
            link: LinkId::new(8),
            peer: node(2),
        })
    };
    let effects = core.step(MonoTime::zero(), up());
    assert_eq!(effects, vec![RuntimeEffect::Close(LinkId::new(8))]);
    core.allow_peer(node(2), cost(1));
    let effects = core.step(MonoTime::zero(), up());
    assert_eq!(effects[0], RuntimeEffect::Persist(1));
}

#[test]
fn unreadable_frames_close_their_link() {
    let mut core =
        RuntimeCore::start(config(node(1), &[]), node(1), Ok(0)).expect("runtime must start");
    let link = LinkId::new(3);
    let frames = [
        WireFrame::control(FrameType::Ping, Bytes::new()),
        WireFrame::control(FrameType::Lsa, Bytes::from_static(&[0xff])),
        WireFrame::control(FrameType::Forward, Bytes::from_static(b"short")),
        WireFrame {
            frame_type: FrameType::Digest,
            channel: Channel::Rpc,
            payload: Bytes::new(),
        },
    ];
    for frame in frames {
        let effects = core.step(
            MonoTime::zero(),
            RuntimeInput::Link(LinkEvent::Frame { link, frame }),
        );
        assert_eq!(effects, vec![RuntimeEffect::Close(link)]);
    }
    let effects = core.step(
        MonoTime::zero(),
        RuntimeInput::Link(LinkEvent::Sent {
            link,
            frame_type: FrameType::Forward,
            channel: Channel::PubSubP0,
            payload_bytes: 3,
        }),
    );
    assert!(effects.is_empty());
}

#[test]
fn packets_without_a_route_are_reported() {
    let mut core =
        RuntimeCore::start(config(node(1), &[]), node(1), Ok(0)).expect("runtime must start");
    let lost = packet(node(1), node(9), Priority::P0, b"lost");
    let effects = core.step(MonoTime::zero(), RuntimeInput::Outbound(lost.clone()));
    assert_eq!(
        effects,
        vec![RuntimeEffect::Report(ForwardOutcome::Dropped {
            reason: DropReason::NoRoute,
            packet: lost,
        })]
    );
    let own = packet(node(1), node(1), Priority::P0, b"own");
    let effects = core.step(MonoTime::zero(), RuntimeInput::Outbound(own.clone()));
    assert_eq!(
        effects,
        vec![RuntimeEffect::Report(ForwardOutcome::Delivered(own))]
    );
}

#[test]
fn a_runtime_does_not_start_without_a_sequence_or_as_another_node() {
    let start = |endpoint, loaded| {
        RuntimeCore::start(config(node(1), &[]), endpoint, loaded).map(|core| core.node_id())
    };
    assert_eq!(start(node(1), Ok(5)), Ok(node(1)));
    assert_eq!(
        start(node(2), Ok(5)),
        Err(RuntimeError::EndpointNodeMismatch {
            endpoint: node(2),
            configured: node(1),
        })
    );
    assert_eq!(
        start(node(1), Ok(u64::MAX)),
        Err(RuntimeError::SequenceExhausted)
    );
    let broken = SeqStoreError::new("broken".to_owned());
    assert_eq!(
        start(node(1), Err(broken.clone())),
        Err(RuntimeError::SeqStore(broken))
    );
}

#[test]
fn packets_that_are_too_large_are_refused() {
    let mut large = packet(node(1), node(2), Priority::P3, b"");
    assert_eq!(check_packet(&large), Ok(()));
    large.payload = Bytes::from(vec![0; MAX_FORWARD_PAYLOAD_LEN + 1]);
    assert_eq!(
        check_packet(&large),
        Err(RuntimeError::ForwardPacket(
            ForwardPacketError::PayloadTooLarge(MAX_FORWARD_PAYLOAD_LEN + 1)
        ))
    );
}

#[test]
fn timers_fall_due_in_order() {
    let mut core = RuntimeCore::start(config(node(1), &[(node(2), cost(1))]), node(1), Ok(0))
        .expect("runtime must start");
    assert_eq!(core.next_timer_at(), None);
    assert_eq!(core.take_next_timer(), None);
    core.step(
        MonoTime::from_millis(5),
        RuntimeInput::Link(LinkEvent::Up {
            link: LinkId::new(1),
            peer: node(2),
        }),
    );
    let mut at = Vec::new();
    assert_eq!(core.take_due_timer(MonoTime::from_millis(104)), None);
    while let Some(next) = core.next_timer_at() {
        at.push(next);
        assert!(core.take_due_timer(MonoTime::from_millis(next)).is_some());
    }
    // The route computation, the digest, the refresh and the expiry.
    assert_eq!(at, vec![105, 10_005, 60_005, 300_005]);
}

#[test]
fn failed_effects_close_a_link_or_end_the_runtime() {
    let frame = WireFrame {
        frame_type: FrameType::Forward,
        channel: Channel::PubSubP1,
        payload: Bytes::new(),
    };
    let link = LinkId::new(4);
    let send = RuntimeEffect::Send { link, frame };
    assert_eq!(after_effect(&send, true), Next::GoOn);
    assert_eq!(after_effect(&send, false), Next::Close(link));
    assert_eq!(after_effect(&RuntimeEffect::Persist(3), true), Next::GoOn);
    assert_eq!(after_effect(&RuntimeEffect::Persist(3), false), Next::Stop);
    assert_eq!(after_effect(&RuntimeEffect::Close(link), false), Next::GoOn);
}

#[test]
fn a_number_is_stored_before_anything_is_sent() {
    let mut core = bus(node(1), &[(node(2), cost(1))]);
    let up = BusInput::Node(RuntimeInput::Link(LinkEvent::Up {
        link: LinkId::new(1),
        peer: node(2),
    }));
    let effects = core.step(MonoTime::from_millis(0), up);
    assert!(matches!(
        effects[0],
        BusEffect::Node(RuntimeEffect::Persist(1))
    ));
    assert!(effects[1..]
        .iter()
        .all(|effect| matches!(effect, BusEffect::Node(RuntimeEffect::Send { .. }))));
    assert!(effects.len() > 1);
}

/// A line of nodes in which each has a link to the next.
fn line(length: u8) -> Mesh {
    let neighbours = |id: u8| -> Vec<(NodeId, LinkCost)> {
        [id - 1, id + 1]
            .into_iter()
            .filter(|peer| (1..=length).contains(peer))
            .map(|peer| (node(peer), cost(1)))
            .collect()
    };
    let nodes = (1..=length).map(|id| bus(node(id), &neighbours(id))).collect();
    let mut mesh = Mesh::new(nodes);
    for at in 1..usize::from(length) {
        mesh.connect(at - 1, at);
    }
    for _ in 0..3 {
        mesh.settle();
        mesh.now += 10_000;
    }
    mesh
}

#[test]
fn no_link_carries_a_message_twice() {
    let mut mesh = line(6);
    mesh.give(
        0,
        BusInput::Node(RuntimeInput::OutboundMulticast {
            destinations: (2..=6).map(node).collect(),
            packet: packet(node(1), NodeId::default(), Priority::P1, b"to all"),
        }),
    );
    assert_eq!(mesh.packets.len(), 5);
    assert!(mesh.packets.values().all(|count| *count == 1));
    assert_eq!(mesh.reports.len(), 5);
    for (at, outcome) in &mesh.reports {
        let ForwardOutcome::Delivered(delivered) = outcome else {
            panic!("each copy must be delivered");
        };
        assert_eq!(delivered.header.ttl, 32 - *at as u8);
        assert_eq!(delivered.payload, Bytes::from_static(b"to all"));
    }
}

#[test]
fn packets_arrive_if_they_live_longer_than_their_hops() {
    for (ttl, arrives) in [(4, false), (5, false), (6, true)] {
        let mut mesh = line(6);
        let mut sent = packet(node(1), node(6), Priority::P2, b"far");
        sent.header.ttl = ttl;
        mesh.give(0, BusInput::Node(RuntimeInput::Outbound(sent)));
        let delivered = matches!(&mesh.reports[..], [(5, ForwardOutcome::Delivered(_))]);
        assert_eq!(delivered, arrives, "{ttl}");
    }
}

#[test]
fn connected_nodes_agree() {
    let mesh = line(5);
    let known = |at: usize| -> Vec<(NodeId, u64)> {
        let plane = mesh.nodes[at].runtime().plane();
        plane.lsas().iter().map(|lsa| (lsa.origin, lsa.seq)).collect()
    };
    assert_eq!(known(0).len(), 5);
    for at in 1..5 {
        assert_eq!(known(at), known(0));
    }
}
