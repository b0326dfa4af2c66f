use meshbus::control::{
    Adjacency, ControlAction, ControlEvent, ControlFrame, ControlPlane, ControlTimer, DigestEntry,
    InvalidLinkCost, LinkCost, Lsa, LsaMessage, LsaSigner, LsaVerifier, RouteTable,
    UnsecuredLsaAuth, DEFAULT_LSA_TTL_SEC, MAX_LSA_TTL_SEC,
};
use meshbus::types::{Component, LinkId, MonoTime, NodeId};
use std::sync::Arc;

fn node(value: u8) -> NodeId {
    let mut bytes = [0_u8; 32];
    bytes[31] = value;
    NodeId::from_bytes(bytes)
}

fn cost(value: u16) -> LinkCost {
    LinkCost::new(value).expect("test cost must be non-zero")
}

fn link(value: u64) -> LinkId {
    LinkId::new(value)
}

fn announcement(origin: u8, epoch: u32, seq: u64, edges: &[(u8, u16)]) -> LsaMessage {
    LsaMessage {
        lsa: Lsa {
            origin: node(origin),
            epoch,
            seq,
            ttl_sec: DEFAULT_LSA_TTL_SEC,
            adjacencies: edges
                .iter()
                .map(|(peer, value)| Adjacency {
                    peer: node(*peer),
                    cost: cost(*value),
                })
                .collect(),
        },
        canonical_bytes: Arc::from([]),
        signature: Arc::from([]),
    }
}

fn up(plane: &mut ControlPlane, at: u64, over: u64, peer: u8, value: u16) -> Vec<ControlAction> {
    plane.handle(
        MonoTime::from_millis(at),
        ControlEvent::LinkUp {
            link: link(over),
            peer: node(peer),
            cost: cost(value),
        },
    )
}

fn receive(plane: &mut ControlPlane, at: u64, over: u64, frame: ControlFrame) -> Vec<ControlAction> {
    plane.handle(
        MonoTime::from_millis(at),
        ControlEvent::Frame {
            link: link(over),
            frame,
        },
    )
}

/// Runs the route computation that is pending.
fn compute(plane: &mut ControlPlane, at: u64, generation: u64) -> Vec<ControlAction> {
    plane.handle(
        MonoTime::from_millis(at),
        ControlEvent::Timer(ControlTimer::SpfHold { generation }),
    )
}

#[test]
fn costs_are_never_zero() {
    assert_eq!(LinkCost::new(0), Err(InvalidLinkCost));
    assert_eq!(cost(1).get(), 1);
    assert_eq!(cost(u16::MAX).get(), u16::MAX);
    assert!(cost(1) < cost(2));
}

#[test]
fn a_new_plane_knows_nothing() {
    let plane = ControlPlane::new_unsecured(node(1), 3);
    assert_eq!(plane.node_id(), node(1));
    assert_eq!(plane.lsdb_len(), 0);
    assert_eq!(plane.lsas().len(), 0);
    assert_eq!(plane.lsa(&node(1)), None);
    assert_eq!(plane.lsa_received_at(&node(1)), None);
    assert_eq!(plane.lsa_is_expired(&node(1)), None);
    assert!(plane.route_table().is_empty());
    assert_eq!(plane.route_table().version, 0);
    assert!(plane.has_numbers_left());
}

#[test]
fn a_link_up_stores_announces_and_asks_for_what_is_missing() {
    let mut plane = ControlPlane::new_unsecured_with_seq(node(1), 3, 9);
    let actions = up(&mut plane, 5, 1, 2, 7);
    let own = announcement(1, 3, 10, &[(2, 7)]);
    assert_eq!(
        actions,
        vec![
            ControlAction::PersistSeq(10),
            ControlAction::Send {
                link: link(1),
                frame: ControlFrame::Lsa(own.clone()),
            },
            ControlAction::SetTimer {
                timer: ControlTimer::LsaExpire {
                    origin: node(1),
                    epoch: 3,
                    seq: 10,
                },
                at: MonoTime::from_millis(300_005),
            },
            ControlAction::SetTimer {
                timer: ControlTimer::LsaRefresh { epoch: 3, seq: 10 },
                at: MonoTime::from_millis(60_005),
            },
            ControlAction::SetTimer {
                timer: ControlTimer::SpfHold { generation: 1 },
                at: MonoTime::from_millis(105),
            },
            ControlAction::Send {
                link: link(1),
                frame: ControlFrame::Digest(vec![DigestEntry {
                    origin: node(1),
                    epoch: 3,
                    seq: 10,
                }]),
            },
            ControlAction::SetTimer {
                timer: ControlTimer::Digest(link(1)),
                at: MonoTime::from_millis(10_005),
            },
        ]
    );
    assert_eq!(plane.lsa(&node(1)), Some(&own.lsa));
    assert_eq!(
        plane.lsa_received_at(&node(1)),
        Some(MonoTime::from_millis(5))
    );
    assert_eq!(plane.lsa_is_expired(&node(1)), Some(false));
}

#[test]
fn the_cheapest_of_several_links_to_a_peer_counts() {
    let mut plane = ControlPlane::new_unsecured(node(1), 1);
    up(&mut plane, 0, 3, 2, 9);
    up(&mut plane, 0, 2, 2, 4);
    up(&mut plane, 0, 1, 2, 4);
    let own = plane.lsa(&node(1)).expect("own announcement");
    assert_eq!(own.adjacencies.len(), 1);
    assert_eq!(own.adjacencies[0].cost, cost(4));
    receive(
        &mut plane,
        1,
        3,
        ControlFrame::Lsa(announcement(2, 1, 1, &[(1, 50)])),
    );
    compute(&mut plane, 100, 1);
    let table = plane.route_table();
    let route = table.get(&node(2)).expect("a route to the peer");
    assert_eq!((route.next_hop, route.cost, route.hops), (link(1), 4, 1));
}

#[test]
fn routes_are_shortest_and_ties_go_to_the_lower_peer() {
    let mut plane = ControlPlane::new_unsecured(node(1), 1);
    up(&mut plane, 0, 3, 3, 5);
    up(&mut plane, 0, 2, 2, 5);
    for message in [
        announcement(2, 1, 1, &[(1, 5), (4, 10), (3, 1)]),
        announcement(3, 1, 1, &[(1, 5), (4, 10), (2, 1)]),
        announcement(4, 1, 1, &[(2, 1), (3, 1), (5, 65_535)]),
        announcement(5, 1, 1, &[(4, 1)]),
        announcement(6, 1, 1, &[(5, 1)]),
    ] {
        receive(&mut plane, 1, 2, ControlFrame::Lsa(message));
    }
    let actions = compute(&mut plane, 100, 1);
    assert!(matches!(actions[0], ControlAction::PublishRoutes(_)));
    let table = plane.route_table();
    assert_eq!(table.version, 1);
    assert_eq!(table.len(), 4);
    let routes: Vec<(u8, u64, u32, u8)> = table
        .iter()
        .into_iter()
        .map(|(destination, route)| {
            (
                destination.as_bytes()[31],
                route.next_hop.get(),
                route.cost,
                route.hops,
            )
        })
        .collect();
    assert_eq!(
        routes,
        vec![(2, 2, 5, 1), (3, 3, 5, 1), (4, 2, 15, 2), (5, 2, 65_550, 3)]
    );
    // Nothing changed since.
    assert!(compute(&mut plane, 200, 1).is_empty());
}

#[test]
fn news_is_flooded_but_not_echoed() {
    let mut plane = ControlPlane::new_unsecured(node(1), 1);
    for over in 1..=3 {
        up(&mut plane, 0, over, over as u8 + 1, 1);
    }
    let message = announcement(9, 1, 1, &[]);
    let actions = receive(&mut plane, 7, 2, ControlFrame::Lsa(message.clone()));
    assert_eq!(
        actions,
        vec![
            ControlAction::Send {
                link: link(1),
                frame: ControlFrame::Lsa(message.clone()),
            },
            ControlAction::Send {
                link: link(3),
                frame: ControlFrame::Lsa(message.clone()),
            },
            ControlAction::SetTimer {
                timer: ControlTimer::LsaExpire {
                    origin: node(9),
                    epoch: 1,
                    seq: 1,
                },
                at: MonoTime::from_millis(300_007),
            },
        ]
    );
    assert!(receive(&mut plane, 8, 3, ControlFrame::Lsa(message)).is_empty());
}

#[test]
fn versions_only_advance_and_old_news_is_answered() {
    let mut plane = ControlPlane::new_unsecured(node(1), 1);
    up(&mut plane, 0, 1, 2, 1);
    let newer = announcement(9, 2, 1, &[]);
    receive(&mut plane, 1, 1, ControlFrame::Lsa(newer.clone()));
    let answer = receive(
        &mut plane,
        2,
        1,
        ControlFrame::Lsa(announcement(9, 1, 100, &[])),
    );
    assert_eq!(
        answer,
        vec![ControlAction::Send {
            link: link(1),
            frame: ControlFrame::Lsa(newer.clone()),
        }]
    );
    assert_eq!(plane.lsa(&node(9)), Some(&newer.lsa));
}

#[test]
fn digests_are_answered_with_news_and_requests() {
    let mut plane = ControlPlane::new_unsecured(node(1), 1);
    up(&mut plane, 0, 1, 2, 1);
    let five = announcement(5, 1, 5, &[]);
    receive(&mut plane, 1, 1, ControlFrame::Lsa(five.clone()));
    let own = announcement(1, 1, 1, &[(2, 1)]);
    let entry = |origin: u8, epoch: u32, seq: u64| DigestEntry {
        origin: node(origin),
        epoch,
        seq,
    };
    let actions = receive(
        &mut plane,
        2,
        1,
        ControlFrame::Digest(vec![
            entry(7, 1, 1),
            entry(5, 1, 4),
            entry(5, 1, 3),
            entry(1, 9, 9),
            entry(6, 1, 1),
        ]),
    );
    assert_eq!(
        actions,
        vec![
            ControlAction::Send {
                link: link(1),
                frame: ControlFrame::Lsa(five),
            },
            ControlAction::Send {
                link: link(1),
                frame: ControlFrame::DigestReq(vec![node(6), node(7)]),
            },
        ]
    );
    let actions = receive(
        &mut plane,
        3,
        1,
        ControlFrame::DigestReq(vec![node(8), node(1), node(1)]),
    );
    assert_eq!(
        actions,
        vec![ControlAction::Send {
            link: link(1),
            frame: ControlFrame::Lsa(own),
        }]
    );
}

#[test]
fn unknown_links_have_no_effect() {
    let mut plane = ControlPlane::new_unsecured(node(1), 1);
    let message = ControlFrame::Lsa(announcement(9, 1, 1, &[]));
    assert!(receive(&mut plane, 0, 4, message).is_empty());
    assert!(receive(&mut plane, 0, 4, ControlFrame::Digest(Vec::new())).is_empty());
    assert!(receive(&mut plane, 0, 4, ControlFrame::DigestReq(vec![node(1)])).is_empty());
    let down = ControlEvent::LinkDown { link: link(4) };
    assert!(plane.handle(MonoTime::zero(), down).is_empty());
    let timer = ControlEvent::Timer(ControlTimer::Digest(link(4)));
    assert!(plane.handle(MonoTime::zero(), timer).is_empty());
    assert_eq!(plane.lsdb_len(), 0);
}

#[test]
fn announcements_with_a_bad_lifetime_are_refused() {
    let mut plane = ControlPlane::new_unsecured(node(1), 1);
    up(&mut plane, 0, 1, 2, 1);
    for (ttl_sec, taken) in [
        (0, false),
        (1, true),
        (MAX_LSA_TTL_SEC, true),
        (MAX_LSA_TTL_SEC + 1, false),
    ] {
        let mut message = announcement(9, 1, u64::from(ttl_sec) + 1, &[]);
        message.lsa.ttl_sec = ttl_sec;
        let actions = receive(&mut plane, 1, 1, ControlFrame::Lsa(message));
        assert_eq!(!actions.is_empty(), taken, "{ttl_sec}");
    }
}

#[test]
fn early_expiry_timers_are_set_again() {
    let mut plane = ControlPlane::new_unsecured(node(1), 1);
    up(&mut plane, 0, 1, 2, 1);
    receive(&mut plane, 0, 1, ControlFrame::Lsa(announcement(9, 1, 1, &[])));
    let timer = ControlTimer::LsaExpire {
        origin: node(9),
        epoch: 1,
        seq: 1,
    };
    let at = MonoTime::from_millis(300_000);
    assert_eq!(
        plane.handle(MonoTime::from_millis(299_999), ControlEvent::Timer(timer)),
        vec![ControlAction::SetTimer { timer, at }]
    );
    let actions = plane.handle(at, ControlEvent::Timer(timer));
    assert!(matches!(
        actions[..],
        [ControlAction::SetTimer {
            timer: ControlTimer::SpfHold { .. },
            ..
        }]
    ));
    assert_eq!(plane.lsa_is_expired(&node(9)), Some(true));
    assert_eq!(plane.lsdb_len(), 2);
    assert_eq!(plane.lsas().len(), 1);
    // A tombstone yields only to something newer.
    assert!(receive(
        &mut plane,
        300_001,
        1,
        ControlFrame::Lsa(announcement(9, 1, 1, &[]))
    )
    .is_empty());
    receive(
        &mut plane,
        300_002,
        1,
        ControlFrame::Lsa(announcement(9, 1, 2, &[])),
    );
    assert_eq!(plane.lsa_is_expired(&node(9)), Some(false));
}

/// Signs with a fixed byte, and takes only what carries it.
struct Seal(u8);

impl LsaSigner for Seal {
    fn sign(&self, lsa: Lsa) -> LsaMessage {
        LsaMessage {
            lsa,
            canonical_bytes: Arc::from([]),
            signature: Arc::from([self.0]),
        }
    }
}

impl LsaVerifier for Seal {
    fn verify(&self, message: &LsaMessage) -> bool {
        message.signature.as_ref() == [self.0]
    }
}

#[test]
fn announcements_are_signed_and_verified() {
    let mut plane = ControlPlane::with_auth(node(1), 1, Box::new(Seal(7)), Box::new(Seal(8)));
    let actions = up(&mut plane, 0, 1, 2, 1);
    assert!(matches!(
        &actions[1],
        ControlAction::Send { frame: ControlFrame::Lsa(message), .. }
            if message.signature.as_ref() == [7]
    ));
    let mut message = announcement(9, 1, 1, &[]);
    assert!(receive(&mut plane, 1, 1, ControlFrame::Lsa(message.clone())).is_empty());
    assert_eq!(plane.lsa(&node(9)), None);
    message.signature = Arc::from([8]);
    receive(&mut plane, 1, 1, ControlFrame::Lsa(message.clone()));
    assert_eq!(plane.lsa(&node(9)), Some(&message.lsa));
    assert!(UnsecuredLsaAuth::default().verify(&message));
}

#[test]
fn an_empty_route_table_is_the_default() {
    assert_eq!(RouteTable::default().version, 0);
    assert!(RouteTable::default().is_empty());
    assert_eq!(RouteTable::default().get(&node(1)), None);
}

#[test]
fn identities_links_and_times_are_ordered() {
    assert!(node(1) < node(2));
    assert!(NodeId::from_bytes([1; 32]) > node(255));
    assert!(node(3) <= node(3));
    assert!(link(2) < link(10));
    assert!(MonoTime::from_millis(9) < MonoTime::from_millis(10));
    assert!(cost(256) > cost(255));
    assert_eq!(LinkCost::new(cost(7).get()), Ok(cost(7)));
    assert_eq!(NodeId::from_bytes(*node(9).as_bytes()), node(9));
}

#[test]
fn the_own_announcement_lists_the_links_that_are_up() {
    let mut plane = ControlPlane::new_unsecured(node(1), 4);
    up(&mut plane, 0, 1, 9, 5);
    up(&mut plane, 1, 2, 3, 8);
    up(&mut plane, 2, 3, 9, 2);
    assert_eq!(
        plane.lsa(&node(1)),
        Some(&announcement(1, 4, 3, &[(3, 8), (9, 2)]).lsa)
    );
    let down = ControlEvent::LinkDown { link: link(3) };
    plane.handle(MonoTime::from_millis(3), down);
    assert_eq!(
        plane.lsa(&node(1)),
        Some(&announcement(1, 4, 4, &[(3, 8), (9, 5)]).lsa)
    );
}

#[test]
fn a_computed_generation_is_over() {
    let mut plane = ControlPlane::new_unsecured(node(1), 1);
    up(&mut plane, 0, 1, 2, 1);
    let early = compute(&mut plane, 99, 1);
    assert_eq!(
        early,
        vec![ControlAction::SetTimer {
            timer: ControlTimer::SpfHold { generation: 1 },
            at: MonoTime::from_millis(100),
        }]
    );
    receive(&mut plane, 50, 1, ControlFrame::Lsa(announcement(2, 1, 1, &[(1, 1)])));
    assert!(matches!(
        compute(&mut plane, 100, 1)[..],
        [ControlAction::PublishRoutes(_)]
    ));
    assert_eq!(compute(&mut plane, 101, 1), vec![]);
    receive(&mut plane, 102, 1, ControlFrame::Lsa(announcement(2, 1, 2, &[])));
    assert_eq!(compute(&mut plane, 9_000, 1), vec![]);
}

/// Hands the frames among the actions of one plane to another.
fn deliver(actions: Vec<ControlAction>, to: &mut ControlPlane) -> Vec<ControlAction> {
    let mut answers = Vec::new();
    for action in actions {
        if let ControlAction::Send { frame, .. } = action {
            answers.extend(receive(to, 1, 1, frame));
        }
    }
    answers
}

#[test]
fn neighbours_agree_after_they_answered_their_digests() {
    let mut a = ControlPlane::new_unsecured(node(1), 1);
    let mut b = ControlPlane::new_unsecured(node(2), 1);
    up(&mut a, 0, 1, 2, 1);
    up(&mut b, 0, 1, 1, 1);
    for (origin, seq) in [(5, 1), (6, 4)] {
        receive(&mut a, 0, 1, ControlFrame::Lsa(announcement(origin, 1, seq, &[])));
    }
    for (origin, seq) in [(6, 3), (7, 2)] {
        receive(&mut b, 0, 1, ControlFrame::Lsa(announcement(origin, 1, seq, &[])));
    }
    let due = ControlEvent::Timer(ControlTimer::Digest(link(1)));
    let from_a = a.handle(MonoTime::from_millis(1), due.clone());
    let from_b = b.handle(MonoTime::from_millis(1), due);
    let answer_of_b = deliver(from_a, &mut b);
    let answer_of_a = deliver(from_b, &mut a);
    deliver(answer_of_b, &mut a);
    deliver(answer_of_a, &mut b);
    for (origin, seq) in [(1, 1), (2, 1), (5, 1), (6, 4), (7, 2)] {
        for plane in [&a, &b] {
            let known = plane.lsa(&node(origin)).expect("the origin must be known");
            assert_eq!(known.seq, seq, "{origin}");
        }
    }
}
