//! The control plane itself.

use std::sync::Arc;
use vstd::prelude::*;
use crate::control::auth;
use crate::control::auth::{LsaSigner, LsaVerifier, UnsecuredLsaAuth};
use crate::control::cost::{Adjacency, LinkCost};
use crate::control::message;
use crate::control::message::{ActionView, ControlAction, ControlEvent, ControlFrame, ControlTimer};
use crate::control::message::{DigestEntry, EventView, Lsa, LsaMessage, LsaView, MessageView};
use crate::control::model;
use crate::control::model::{ActiveView, EntryView, LocalAdjacency, PendingSpf, PlaneView};
use crate::control::model::{DEFAULT_LSA_TTL_SEC, DIGEST_INTERVAL_MS, MAX_DIGEST_ENTRIES};
use crate::control::model::{MAX_DIGEST_REQ_ORIGINS, MAX_LSA_ADJACENCIES, MAX_LSA_TTL_SEC};
use crate::control::model::{MAX_LSDB_ENTRIES, SPF_INITIAL_HOLD_MS, SPF_MAX_HOLD_MS};
use crate::control::model::SPF_QUIET_RESET_MS;
use crate::control::paths;
use crate::control::spf;
use crate::control::spf::Label;
use crate::control::table::{Route, RouteTable};
use crate::order;
use crate::order::{Key, Rel};
use crate::ordered_map::OrderedMap;
use crate::types::{Component, LinkId, MonoTime, NodeId};

verus! {

/// How what a node knows of an origin stands to what a digest tells of it.
#[derive(Clone, Copy, Debug, Eq, PartialEq, Structural)]
pub enum EntryRelation {
    RemoteOnly,
    RemoteNewer,
    SameVersion,
    LocalNewer,
    LocalOnly,
}

/// Whether the version `a` is newer than the version `b`.
fn is_newer_version(a: (u32, u64), b: (u32, u64)) -> (newer: bool)
    ensures
        newer == model::is_after(a, b),
{
    a.0 > b.0 || a.0 == b.0 && a.1 > b.1
}

/// Relates the local and the remote version of an origin, of which at least
/// one is known.
pub fn compare_versions(local: Option<(u32, u64)>, remote: Option<(u32, u64)>) -> (relation:
    EntryRelation)
    requires
        local is Some || remote is Some,
    ensures
        relation == (match (local, remote) {
            (None, _) => EntryRelation::RemoteOnly,
            (Some(_), None) => EntryRelation::LocalOnly,
            (Some(l), Some(r)) => if model::is_after(r, l) {
                EntryRelation::RemoteNewer
            } else if model::is_after(l, r) {
                EntryRelation::LocalNewer
            } else {
                EntryRelation::SameVersion
            },
        }),
        relation is SameVersion ==> local == remote,
{
    match (local, remote) {
        (None, _) => EntryRelation::RemoteOnly,
        (Some(_), None) => EntryRelation::LocalOnly,
        (Some(l), Some(r)) => if is_newer_version(r, l) {
            EntryRelation::RemoteNewer
        } else if is_newer_version(l, r) {
            EntryRelation::LocalNewer
        } else {
            EntryRelation::SameVersion
        },
    }
}

/// What is known of one origin.
#[derive(Debug)]
struct LsdbEntry {
    version: (u32, u64),
    state: LsdbEntryState,
}

/// Whether the announcement of an origin is in force.
#[derive(Debug)]
enum LsdbEntryState {
    Active(ActiveLsa),
    Tombstone,
}

/// An announcement that is in force.
#[derive(Debug)]
struct ActiveLsa {
    message: LsaMessage,
    received_at: MonoTime,
    expires_at: MonoTime,
}

impl View for ActiveLsa {
    type V = ActiveView;

    closed spec fn view(&self) -> ActiveView {
        ActiveView {
            message: self.message@,
            received_at: self.received_at,
            expires_at: self.expires_at,
        }
    }
}

impl View for LsdbEntry {
    type V = EntryView;

    closed spec fn view(&self) -> EntryView {
        EntryView {
            version: self.version,
            active: match self.state {
                LsdbEntryState::Active(active) => Some(active@),
                LsdbEntryState::Tombstone => None,
            },
        }
    }
}

impl LsdbEntry {
    /// The announcement, if it is in force.
    fn active(&self) -> (active: Option<&ActiveLsa>)
        ensures
            match active {
                Some(a) => self@.active == Some(a@),
                None => self@.active is None,
            },
    {
        match &self.state {
            LsdbEntryState::Active(active) => Some(active),
            LsdbEntryState::Tombstone => None,
        }
    }
}

/// What the database says of each origin.
spec fn entries(lsdb: Map<NodeId, LsdbEntry>) -> Map<NodeId, EntryView> {
    Map::new(|origin: NodeId| lsdb.contains_key(origin), |origin: NodeId| lsdb[origin]@)
}

/// Link-state control plane of one node.
pub struct ControlPlane {
    me: NodeId,
    epoch: u32,
    my_seq: u64,
    adjacencies: OrderedMap<LinkId, LocalAdjacency>,
    lsdb: OrderedMap<NodeId, LsdbEntry>,
    routes: Arc<RouteTable>,
    pending_spf: Option<PendingSpf>,
    spf_generation: u64,
    spf_hold_ms: u64,
    last_lsdb_change_at: Option<MonoTime>,
    auth: (Box<dyn LsaSigner>, Box<dyn LsaVerifier>),
}

impl View for ControlPlane {
    type V = PlaneView;

    closed spec fn view(&self) -> PlaneView {
        PlaneView {
            me: self.me,
            epoch: self.epoch,
            my_seq: self.my_seq,
            adjacencies: self.adjacencies@,
            lsdb: entries(self.lsdb@),
            routes: self.routes@,
            pending_spf: self.pending_spf,
            spf_generation: self.spf_generation,
            spf_hold_ms: self.spf_hold_ms,
            last_lsdb_change_at: self.last_lsdb_change_at,
        }
    }
}

impl ControlPlane {
    /// The collections are in order and the state is one that can be reached.
    pub closed spec fn wf(&self) -> bool {
        &&& self.adjacencies.wf()
        &&& self.lsdb.wf()
        &&& self.routes.wf()
        &&& model::is_valid(self@)
    }

    /// The state of a well-formed plane is one that can be reached.
    pub proof fn state_is_valid(&self)
        requires
            self.wf(),
        ensures
            model::is_valid(self@),
            self@.adjacencies.dom().finite(),
    {
        self.adjacencies.ranks_list_domain();
    }

    /// The signer may answer `lsa` with `message`.
    pub closed spec fn may_sign(&self, lsa: LsaView, message: MessageView) -> bool {
        self.auth.0.may_sign(lsa, message)
    }

    /// The verifier may answer `message` with `accepted`.
    pub closed spec fn may_judge(&self, message: MessageView, accepted: bool) -> bool {
        self.auth.1.may_judge(message, accepted)
    }

    /// Announcements go without signatures, and all are accepted.
    pub open spec fn is_unsecured(&self) -> bool {
        &&& forall|lsa: LsaView, message: MessageView| #[trigger]
            self.may_sign(lsa, message) <==> message == auth::unsecured(lsa)
        &&& forall|message: MessageView, accepted: bool| #[trigger]
            self.may_judge(message, accepted) <==> accepted
    }

    /// The two planes have one signer and one verifier.
    pub closed spec fn has_auth_of(&self, other: &Self) -> bool {
        self.auth == other.auth
    }

    /// Planes with one signer and verifier sign and judge alike.
    pub proof fn same_auth(a: &Self, b: &Self)
        requires
            a.has_auth_of(b),
        ensures
            forall|lsa: LsaView, message: MessageView| #[trigger]
                a.may_sign(lsa, message) == b.may_sign(lsa, message),
            forall|message: MessageView, accepted: bool| #[trigger]
                a.may_judge(message, accepted) == b.may_judge(message, accepted),
            a.is_unsecured() == b.is_unsecured(),
    {
        assert forall|lsa: LsaView, message: MessageView| #[trigger]
            a.may_sign(lsa, message) == b.may_sign(lsa, message) by {}
        assert forall|lsa: LsaView, message: MessageView| #[trigger]
            b.may_sign(lsa, message) == a.may_sign(lsa, message) by {}
        assert forall|message: MessageView, accepted: bool| #[trigger]
            a.may_judge(message, accepted) == b.may_judge(message, accepted) by {}
        assert forall|message: MessageView, accepted: bool| #[trigger]
            b.may_judge(message, accepted) == a.may_judge(message, accepted) by {}
    }

    /// A control plane without signatures that has announced nothing yet.
    pub fn new_unsecured(me: NodeId, epoch: u32) -> (plane: Self)
        ensures
            plane.wf(),
            plane@ == model::initial(me, epoch, 0),
            plane.is_unsecured(),
    {
        Self::new_unsecured_with_seq(me, epoch, 0)
    }

    /// A control plane without signatures whose next announcement will have a
    /// sequence number greater than `last_seq`.
    pub fn new_unsecured_with_seq(me: NodeId, epoch: u32, last_seq: u64) -> (plane: Self)
        ensures
            plane.wf(),
            plane@ == model::initial(me, epoch, last_seq),
            plane.is_unsecured(),
    {
        let signer: Box<dyn LsaSigner> = Box::new(UnsecuredLsaAuth);
        let verifier: Box<dyn LsaVerifier> = Box::new(UnsecuredLsaAuth);
        let auth = (signer, verifier);
        Self::start(me, epoch, last_seq, auth)
    }

    /// A control plane with the given signer and verifier that has announced
    /// nothing yet.
    pub fn with_auth(
        me: NodeId,
        epoch: u32,
        signer: Box<dyn LsaSigner>,
        verifier: Box<dyn LsaVerifier>,
    ) -> (plane: Self)
        ensures
            plane.wf(),
            plane@ == model::initial(me, epoch, 0),
            forall|lsa: LsaView, message: MessageView| #[trigger]
                plane.may_sign(lsa, message) == signer.may_sign(lsa, message),
            forall|message: MessageView, accepted: bool| #[trigger]
                plane.may_judge(message, accepted) == verifier.may_judge(message, accepted),
    {
        let auth = (signer, verifier);
        Self::start(me, epoch, 0, auth)
    }

    /// A control plane with the given signer and verifier whose next
    /// announcement will have a sequence number greater than `last_seq`.
    pub fn with_auth_and_seq(
        me: NodeId,
        epoch: u32,
        last_seq: u64,
        signer: Box<dyn LsaSigner>,
        verifier: Box<dyn LsaVerifier>,
    ) -> (plane: Self)
        ensures
            plane.wf(),
            plane@ == model::initial(me, epoch, last_seq),
            forall|lsa: LsaView, message: MessageView| #[trigger]
                plane.may_sign(lsa, message) == signer.may_sign(lsa, message),
            forall|message: MessageView, accepted: bool| #[trigger]
                plane.may_judge(message, accepted) == verifier.may_judge(message, accepted),
    {
        let auth = (signer, verifier);
        Self::start(me, epoch, last_seq, auth)
    }

    /// A control plane that has announced nothing since `last_seq`.
    fn start(
        me: NodeId,
        epoch: u32,
        last_seq: u64,
        auth: (Box<dyn LsaSigner>, Box<dyn LsaVerifier>),
    ) -> (plane: Self)
        ensures
            plane.wf(),
            plane@ == model::initial(me, epoch, last_seq),
            plane.auth == auth,
    {
        let plane = ControlPlane {
            me,
            epoch,
            my_seq: last_seq,
            adjacencies: OrderedMap::new(),
            lsdb: OrderedMap::new(),
            routes: Arc::new(RouteTable::default()),
            pending_spf: None,
            spf_generation: 0,
            spf_hold_ms: SPF_INITIAL_HOLD_MS,
            last_lsdb_change_at: None,
            auth,
        };
        assert(plane@ =~= model::initial(me, epoch, last_seq));
        plane
    }

    /// The identity of the node.
    pub fn node_id(&self) -> (me: NodeId)
        ensures
            me == self@.me,
    {
        self.me
    }

    /// The routes that were published last.
    pub fn route_table(&self) -> (table: Arc<RouteTable>)
        requires
            self.wf(),
        ensures
            table@ == self@.routes,
            table.wf(),
    {
        Arc::clone(&self.routes)
    }

    /// Whether every counter can still be advanced, so that any event can be
    /// handled.
    pub fn has_numbers_left(&self) -> (left: bool)
        ensures
            left ==> forall|now: MonoTime, event: EventView, accepted: bool| #[trigger]
                model::has_numbers(self@, now, event, accepted),
            left == (self@.my_seq < u64::MAX && self@.spf_generation < u64::MAX
                && self@.routes.version < u64::MAX),
    {
        self.my_seq < u64::MAX && self.spf_generation < u64::MAX && self.routes.current_version()
            < u64::MAX
    }

    /// The number of origins in the database, tombstones included.
    pub fn lsdb_len(&self) -> (n: usize)
        requires
            self.wf(),
        ensures
            n == self@.lsdb.dom().len(),
    {
        assert(self@.lsdb.dom() =~= self.lsdb@.dom());
        self.lsdb.len()
    }

    /// The announcement of an origin, if it is in force.
    pub fn lsa(&self, origin: &NodeId) -> (lsa: Option<&Lsa>)
        requires
            self.wf(),
        ensures
            match lsa {
                Some(l) => model::is_active(self@.lsdb, *origin) && l@ == model::message_of(
                    self@.lsdb,
                    *origin,
                ).lsa,
                None => !model::is_active(self@.lsdb, *origin),
            },
    {
        match self.lsdb.get(origin) {
            Some(entry) => match entry.active() {
                Some(active) => Some(&active.message.lsa),
                None => None,
            },
            None => None,
        }
    }

    /// When the announcement of an origin was received, if it is in force.
    pub fn lsa_received_at(&self, origin: &NodeId) -> (time: Option<MonoTime>)
        requires
            self.wf(),
        ensures
            time == if model::is_active(self@.lsdb, *origin) {
                Some(self@.lsdb[*origin].active->0.received_at)
            } else {
                None
            },
    {
        match self.lsdb.get(origin) {
            Some(entry) => match entry.active() {
                Some(active) => Some(active.received_at),
                None => None,
            },
            None => None,
        }
    }

    /// Whether the announcement of a known origin has expired.
    pub fn lsa_is_expired(&self, origin: &NodeId) -> (expired: Option<bool>)
        requires
            self.wf(),
        ensures
            expired == model::is_expired(self@.lsdb, *origin),
    {
        match self.lsdb.get(origin) {
            Some(entry) => Some(entry.active().is_none()),
            None => None,
        }
    }

    /// The announcements in force, by ascending origin, for diagnostics and
    /// administration.
    pub fn lsas(&self) -> (lsas: Vec<&Lsa>)
        requires
            self.wf(),
        ensures
            ({
                let origins = order::ascending::<NodeId>(model::graph(self@.lsdb).dom());
                &&& lsas@.len() == origins.len()
                &&& forall|i: int|
                    0 <= i < lsas@.len() ==> (#[trigger] lsas@[i])@ == model::message_of(
                        self@.lsdb,
                        origins[i],
                    ).lsa
            }),
    {
        let mut lsas: Vec<&Lsa> = Vec::new();
        let ghost mut kept: Seq<NodeId> = Seq::empty();
        let ghost keep = model::graph(self@.lsdb).dom();
        let mut i: usize = 0;
        proof {
            self.lsdb.ranks_list_domain();
        }
        while i < self.lsdb.len()
            invariant
                self.lsdb.wf(),
                keep == model::graph(self@.lsdb).dom(),
                order::lists::<NodeId>(self.lsdb.ranks(), self.lsdb@.dom()),
                order::lists_kept::<NodeId>(kept, self.lsdb.ranks(), i as int, keep),
                lsas@.len() == kept.len(),
                forall|k: int|
                    0 <= k < lsas@.len() ==> (#[trigger] lsas@[k])@ == model::message_of(
                        self@.lsdb,
                        kept[k],
                    ).lsa,
            decreases self.lsdb.ranks().len() - i,
        {
            let entry: &LsdbEntry = self.lsdb.value_at(i);
            let ghost origin = self.lsdb.ranks()[i as int];
            proof {
                order::lists_one_more::<NodeId>(kept, self.lsdb.ranks(), i as int, keep);
            }
            match entry.active() {
                Some(active) => {
                    lsas.push(&active.message.lsa);
                    proof {
                        assert(keep.contains(origin));
                        kept = kept.push(origin);
                    }
                },
                None => {
                    assert(!keep.contains(origin));
                },
            }
            i = i + 1;
        }
        proof {
            order::lists_all_kept::<NodeId>(kept, self.lsdb.ranks(), self.lsdb@.dom(), keep);
            assert(self.lsdb@.dom().intersect(keep) =~= keep);
        }
        lsas
    }

    /// The cheapest edge to each peer, by ascending peer.
    fn advertised(&self) -> (edges: Vec<Adjacency>)
        requires
            self.wf(),
        ensures
            edges@ == model::advertised(self@.adjacencies),
    {
        let ghost all = self.adjacencies@;
        let mut best_by_peer: OrderedMap<NodeId, LinkCost> = OrderedMap::new();
        let mut i: usize = 0;
        proof {
            self.adjacencies.ranks_list_domain();
        }
        while i < self.adjacencies.len()
            invariant
                self.adjacencies.wf(),
                all == self.adjacencies@,
                i <= self.adjacencies.ranks().len(),
                self.adjacencies.ranks().no_duplicates(),
                best_by_peer.wf(),
                forall|peer: NodeId| #[trigger]
                    best_by_peer@.contains_key(peer) ==> exists|k: int|
                        0 <= k < i && all[#[trigger] self.adjacencies.ranks()[k]]
                            == (LocalAdjacency { peer, cost: best_by_peer@[peer] }),
                forall|k: int|
                    0 <= k < i ==> {
                        let adjacency = all[#[trigger] self.adjacencies.ranks()[k]];
                        &&& best_by_peer@.contains_key(adjacency.peer)
                        &&& best_by_peer@[adjacency.peer].value() <= adjacency.cost.value()
                    },
            decreases self.adjacencies.ranks().len() - i,
        {
            let adjacency: LocalAdjacency = *self.adjacencies.value_at(i);
            let better: bool = match best_by_peer.get(&adjacency.peer) {
                Some(cost) => adjacency.cost.get() < cost.get(),
                None => true,
            };
            let ghost before = best_by_peer@;
            if better {
                best_by_peer.insert(adjacency.peer, adjacency.cost);
            }
            proof {
                assert forall|peer: NodeId| #[trigger]
                    best_by_peer@.contains_key(peer) implies exists|k: int|
                    0 <= k < i + 1 && all[#[trigger] self.adjacencies.ranks()[k]]
                        == (LocalAdjacency { peer, cost: best_by_peer@[peer] }) by {
                    if better && peer == adjacency.peer {
                        assert(all[self.adjacencies.ranks()[i as int]] == adjacency);
                    } else {
                        assert(before.contains_key(peer));
                        let k = choose|k: int|
                            0 <= k < i && all[#[trigger] self.adjacencies.ranks()[k]]
                                == (LocalAdjacency { peer, cost: before[peer] });
                        assert(all[self.adjacencies.ranks()[k]].peer == peer);
                    }
                }
            }
            i = i + 1;
        }
        proof {
            best_by_peer.ranks_list_domain();
            assert forall|link: LinkId, peer: NodeId| #[trigger]
                model::leads_to(all, link, peer) implies best_by_peer@.contains_key(peer)
                && best_by_peer@[peer].value() <= all[link].cost.value() by {
                assert(all.dom().contains(link));
                assert(self.adjacencies.ranks().contains(link));
            }
            assert forall|peer: NodeId| #[trigger]
                best_by_peer@.contains_key(peer) implies model::is_cheapest(
                all,
                peer,
                best_by_peer@[peer],
            ) && model::peers(all).contains(peer) by {
                let k = choose|k: int|
                    0 <= k < i && all[#[trigger] self.adjacencies.ranks()[k]] == (LocalAdjacency {
                        peer,
                        cost: best_by_peer@[peer],
                    });
                assert(self.adjacencies.ranks().contains(self.adjacencies.ranks()[k]));
                assert(model::leads_to(all, self.adjacencies.ranks()[k], peer));
            }
            assert(best_by_peer@.dom() =~= model::peers(all));
            assert forall|peer: NodeId| #[trigger]
                best_by_peer@.contains_key(peer) implies best_by_peer@[peer] == model::cheapest(
                all,
                peer,
            ) by {
                Self::cheapest_is_unique(all, peer, best_by_peer@[peer], model::cheapest(all, peer));
            }
        }
        let mut edges: Vec<Adjacency> = Vec::new();
        let mut j: usize = 0;
        while j < best_by_peer.len()
            invariant
                best_by_peer.wf(),
                j <= best_by_peer.ranks().len(),
                best_by_peer.ranks() == order::ascending::<NodeId>(model::peers(all)),
                forall|peer: NodeId| #[trigger]
                    best_by_peer@.contains_key(peer) ==> best_by_peer@[peer] == model::cheapest(
                        all,
                        peer,
                    ),
                edges@ == model::advertised(all).take(j as int),
            decreases best_by_peer.ranks().len() - j,
        {
            let peer: NodeId = *best_by_peer.key_at(j);
            let cost: LinkCost = *best_by_peer.value_at(j);
            edges.push(Adjacency { peer, cost });
            assert(edges@ =~= model::advertised(all).take(j + 1));
            j = j + 1;
        }
        assert(edges@ =~= model::advertised(all));
        edges
    }

    /// A peer has only one least cost.
    proof fn cheapest_is_unique(
        all: Map<LinkId, LocalAdjacency>,
        peer: NodeId,
        a: LinkCost,
        b: LinkCost,
    )
        requires
            model::is_cheapest(all, peer, a),
            model::is_cheapest(all, peer, b),
        ensures
            a == b,
    {
        let k = choose|k: LinkId| #[trigger]
            model::leads_to(all, k, peer) && all[k].cost == a;
        let l = choose|l: LinkId| #[trigger]
            model::leads_to(all, l, peer) && all[l].cost == b;
        assert(a.value() <= all[l].cost.value());
        assert(b.value() <= all[k].cost.value());
        LinkCost::same_value(a, b);
    }

    /// Whether the lifetime and the number of edges are within their bounds.
    fn valid_lsa(lsa: &Lsa) -> (valid: bool)
        ensures
            valid == model::is_acceptable(lsa@),
    {
        1 <= lsa.ttl_sec && lsa.ttl_sec <= MAX_LSA_TTL_SEC && lsa.adjacencies.len()
            <= MAX_LSA_ADJACENCIES
    }

    /// The version of an announcement.
    fn lsa_version(lsa: &Lsa) -> (version: (u32, u64))
        ensures
            version == lsa@.version(),
    {
        (lsa.epoch, lsa.seq)
    }

    /// Whether the announcement tells more than the database.
    fn is_newer(&self, candidate: &Lsa) -> (newer: bool)
        requires
            self.wf(),
        ensures
            newer == model::is_news(self@.lsdb, candidate@),
    {
        match self.lsdb.get(&candidate.origin) {
            None => true,
            Some(current) => is_newer_version(Self::lsa_version(candidate), current.version),
        }
    }

    /// The lifetime in milliseconds.
    fn ttl_ms(lsa: &Lsa) -> (millis: u64)
        ensures
            millis == model::ttl_ms(lsa@),
    {
        lsa.ttl_sec as u64 * 1_000
    }

    /// The version known of each origin.
    fn digest(&self) -> (digest: Vec<DigestEntry>)
        requires
            self.wf(),
        ensures
            digest@ == model::digest(self@.lsdb),
    {
        let mut digest: Vec<DigestEntry> = Vec::new();
        let mut i: usize = 0;
        proof {
            self.lsdb.ranks_list_domain();
            assert(self@.lsdb.dom() =~= self.lsdb@.dom());
        }
        while i < self.lsdb.len()
            invariant
                self.lsdb.wf(),
                i <= self.lsdb.ranks().len(),
                self.lsdb.ranks() == order::ascending::<NodeId>(self@.lsdb.dom()),
                digest@ == model::digest(self@.lsdb).take(i as int),
            decreases self.lsdb.ranks().len() - i,
        {
            let origin: NodeId = *self.lsdb.key_at(i);
            let entry: &LsdbEntry = self.lsdb.value_at(i);
            digest.push(DigestEntry { origin, epoch: entry.version.0, seq: entry.version.1 });
            assert(digest@ =~= model::digest(self@.lsdb).take(i + 1));
            i = i + 1;
        }
        assert(digest@ =~= model::digest(self@.lsdb));
        digest
    }

    /// Sends the digest of the database.
    fn send_digest(&self, link: LinkId) -> (action: ControlAction)
        requires
            self.wf(),
        ensures
            action@ == model::send_digest(link, self@.lsdb),
    {
        ControlAction::Send { link, frame: ControlFrame::Digest(self.digest()) }
    }

    /// Sends an announcement.
    fn send_lsa(link: LinkId, message: &LsaMessage) -> (action: ControlAction)
        ensures
            action@ == model::send_lsa(link, message@),
    {
        ControlAction::Send { link, frame: ControlFrame::Lsa(message.clone()) }
    }

    /// Asks for the next digest on a link.
    fn next_digest_timer(now: MonoTime, link: LinkId) -> (action: ControlAction)
        ensures
            action@ == model::next_digest(now, link),
    {
        ControlAction::SetTimer {
            timer: ControlTimer::Digest(link),
            at: now.plus(DIGEST_INTERVAL_MS),
        }
    }

    /// Asks for the time at which an own announcement is made anew.
    fn next_refresh_timer(now: MonoTime, lsa: &Lsa) -> (action: ControlAction)
        ensures
            action@ == model::refresh(now, lsa@),
    {
        let refresh_ms: u64 = Self::ttl_ms(lsa) / 5;
        ControlAction::SetTimer {
            timer: ControlTimer::LsaRefresh { epoch: lsa.epoch, seq: lsa.seq },
            at: now.plus(refresh_ms),
        }
    }

    /// Puts an announcement into the database if there is room for it.
    fn install(&mut self, message: LsaMessage, now: MonoTime) -> (expiry: Option<ControlAction>)
        requires
            old(self).wf(),
        ensures
            final(self).wf(),
            final(self).has_auth_of(old(self)),
            match expiry {
                Some(action) => {
                    &&& model::fits(old(self)@.lsdb, message@.lsa.origin)
                    &&& final(self)@ == model::installed(old(self)@, now, message@)
                    &&& action@ == model::expiry(now, message@.lsa)
                },
                None => {
                    &&& !model::fits(old(self)@.lsdb, message@.lsa.origin)
                    &&& final(self)@ == old(self)@
                },
            },
    {
        assert(self@.lsdb.dom() =~= self.lsdb@.dom());
        if !self.lsdb.contains_key(&message.lsa.origin) && self.lsdb.len() >= MAX_LSDB_ENTRIES {
            return None;
        }
        let expires_at = now.plus(Self::ttl_ms(&message.lsa));
        let origin: NodeId = message.lsa.origin;
        let (epoch, seq) = Self::lsa_version(&message.lsa);
        let entry = LsdbEntry {
            version: (epoch, seq),
            state: LsdbEntryState::Active(ActiveLsa { message, received_at: now, expires_at }),
        };
        let ghost before = *self;
        self.lsdb.insert(origin, entry);
        proof {
            let after = model::installed(before@, now, message@);
            assert(self@.lsdb =~= after.lsdb);
            assert(self@ =~= after);
            assert(self@.lsdb.dom() =~= before@.lsdb.dom().insert(origin));
        }
        Some(
            ControlAction::SetTimer {
                timer: ControlTimer::LsaExpire { origin, epoch, seq },
                at: expires_at,
            },
        )
    }

    /// Sends an announcement on every local link but one.
    fn flood(&self, message: &LsaMessage, except: Option<LinkId>) -> (actions: Vec<ControlAction>)
        requires
            self.wf(),
        ensures
            message::views(actions@) == model::flood(self@.adjacencies, message@, except),
    {
        broadcast use message::views_push;

        let ghost keep = model::targets(self@.adjacencies, except);
        let ghost mut kept: Seq<LinkId> = Seq::empty();
        let mut actions: Vec<ControlAction> = Vec::new();
        let mut i: usize = 0;
        proof {
            self.adjacencies.ranks_list_domain();
        }
        assert(message::views(actions@) =~= Seq::new(0, |k: int| model::send_lsa(kept[k], message@)));
        while i < self.adjacencies.len()
            invariant
                self.adjacencies.wf(),
                keep == model::targets(self@.adjacencies, except),
                order::lists::<LinkId>(self.adjacencies.ranks(), self.adjacencies@.dom()),
                order::lists_kept::<LinkId>(kept, self.adjacencies.ranks(), i as int, keep),
                message::views(actions@) == Seq::new(
                    kept.len(),
                    |k: int| model::send_lsa(kept[k], message@),
                ),
            decreases self.adjacencies.ranks().len() - i,
        {
            let link: LinkId = *self.adjacencies.key_at(i);
            let skipped: bool = match except {
                Some(other) => link == other,
                None => false,
            };
            proof {
                order::lists_one_more::<LinkId>(kept, self.adjacencies.ranks(), i as int, keep);
            }
            if !skipped {
                let action = Self::send_lsa(link, message);
                proof {
                    message::views_push(actions@, action);
                }
                actions.push(action);
                proof {
                    let longer = kept.push(link);
                    assert(message::views(actions@) =~= Seq::new(
                        longer.len(),
                        |k: int| model::send_lsa(longer[k], message@),
                    ));
                    kept = longer;
                }
            }
            i = i + 1;
        }
        proof {
            order::lists_all_kept::<LinkId>(
                kept,
                self.adjacencies.ranks(),
                self.adjacencies@.dom(),
                keep,
            );
            assert(self.adjacencies@.dom().intersect(keep) =~= keep);
            assert(message::views(actions@) =~= model::flood(
                self@.adjacencies,
                message@,
                except,
            ));
        }
        actions
    }

    /// Notes a change of the database, and asks for a computation of routes
    /// unless one is due that takes the change in.
    fn mark_spf_dirty(&mut self, now: MonoTime) -> (action: Option<ControlAction>)
        requires
            old(self).wf(),
            model::can_mark(old(self)@, now),
        ensures
            final(self).wf(),
            final(self).has_auth_of(old(self)),
            final(self)@ == model::marked(old(self)@, now),
            match action {
                Some(a) => model::hold_timer(old(self)@, now) == seq![a@],
                None => model::hold_timer(old(self)@, now) == Seq::<ActionView>::empty(),
            },
    {
        let ghost before = self@;
        let was_quiet: bool = match self.last_lsdb_change_at {
            Some(last) => now.as_millis().saturating_sub(last.as_millis()) >= SPF_QUIET_RESET_MS,
            None => false,
        };
        assert(was_quiet == model::was_quiet(before, now));
        self.last_lsdb_change_at = Some(now);
        if was_quiet {
            self.spf_hold_ms = SPF_INITIAL_HOLD_MS;
        }
        if self.pending_spf.is_some() && !was_quiet {
            assert(self@ =~= model::marked(before, now));
            return None;
        }
        self.spf_generation = self.spf_generation + 1;
        let pending = PendingSpf {
            generation: self.spf_generation,
            at: now.plus(self.spf_hold_ms),
        };
        self.pending_spf = Some(pending);
        assert(self@ =~= model::marked(before, now));
        Some(
            ControlAction::SetTimer {
                timer: ControlTimer::SpfHold { generation: pending.generation },
                at: pending.at,
            },
        )
    }

    /// Announces the local links under the next sequence number.
    fn originate_lsa(&mut self, now: MonoTime) -> (actions: Vec<ControlAction>)
        requires
            old(self).wf(),
            old(self)@.my_seq < u64::MAX,
            model::can_mark(old(self)@, now),
            forall|signed: MessageView| #[trigger]
                old(self).may_sign(model::own_lsa(model::numbered(old(self)@)), signed)
                    ==> model::fits(old(self)@.lsdb, signed.lsa.origin),
        ensures
            final(self).wf(),
            final(self).has_auth_of(old(self)),
            exists|signed: MessageView| #[trigger]
                old(self).may_sign(model::own_lsa(model::numbered(old(self)@)), signed) && (
                final(self)@,
                message::views(actions@),
                ) == model::adopt(model::numbered(old(self)@), now, signed),
    {
        broadcast use {message::views_push, message::views_add};

        let ghost before = *self;
        self.my_seq = self.my_seq + 1;
        let ghost ready = self@;
        assert(ready =~= model::numbered(before@));
        let lsa = Lsa {
            origin: self.me,
            epoch: self.epoch,
            seq: self.my_seq,
            ttl_sec: DEFAULT_LSA_TTL_SEC,
            adjacencies: self.advertised(),
        };
        assert(lsa@ =~= model::own_lsa(ready));
        let signed = self.auth.0.sign(lsa);
        assert(before.may_sign(model::own_lsa(ready), signed@));
        let mut flooded = self.flood(&signed, None);
        let installed = self.install(signed.clone(), now);
        let expiry = installed.unwrap();
        let refresh = Self::next_refresh_timer(now, &signed.lsa);
        let mut actions: Vec<ControlAction> = Vec::new();
        actions.push(ControlAction::PersistSeq(self.my_seq));
        actions.append(&mut flooded);
        actions.push(expiry);
        actions.push(refresh);
        match self.mark_spf_dirty(now) {
            Some(action) => {
                actions.push(action);
            },
            None => {},
        }
        proof {
            let goal = model::adopt(ready, now, signed@);
            assert(self@ =~= goal.0);
            assert(message::views(actions@) =~= goal.1);
        }
        actions
    }

    /// Answers an announcement that is older than the one in force.
    fn correct(&self, link: LinkId, lsa: &Lsa) -> (actions: Vec<ControlAction>)
        requires
            self.wf(),
        ensures
            message::views(actions@) == model::correct(self@.lsdb, link, lsa@),
    {
        let mut actions: Vec<ControlAction> = Vec::new();
        match self.lsdb.get(&lsa.origin) {
            Some(entry) => if is_newer_version(entry.version, Self::lsa_version(lsa)) {
                match entry.active() {
                    Some(active) => {
                        actions.push(Self::send_lsa(link, &active.message));
                    },
                    None => {},
                }
            },
            None => {},
        }
        assert(message::views(actions@) =~= model::correct(self@.lsdb, link, lsa@));
        actions
    }

    /// Takes in an announcement that a peer sent.
    fn receive_lsa(&mut self, now: MonoTime, incoming: LinkId, message: LsaMessage) -> (actions: Vec<
        ControlAction,
    >)
        requires
            old(self).wf(),
            model::is_considered(old(self)@, incoming, message@) && old(self).may_judge(
                message@,
                true,
            ) && model::is_learned(old(self)@, message@) ==> model::can_mark(old(self)@, now),
        ensures
            final(self).wf(),
            final(self).has_auth_of(old(self)),
            exists|accepted: bool|
                {
                    &&& model::is_considered(old(self)@, incoming, message@)
                        ==> #[trigger] old(self).may_judge(message@, accepted)
                    &&& (final(self)@, message::views(actions@)) == model::receive_lsa(
                        old(self)@,
                        now,
                        incoming,
                        message@,
                        accepted,
                    )
                },
    {
        broadcast use {message::views_push, message::views_add};

        let ghost before = *self;
        if !self.adjacencies.contains_key(&incoming) || !Self::valid_lsa(&message.lsa) {
            let actions: Vec<ControlAction> = Vec::new();
            proof {
                let unasked = before.may_judge(message@, false);
                assert(message::views(actions@) =~= Seq::<ActionView>::empty());
            }
            return actions;
        }
        let accepted: bool = self.auth.1.verify(&message);
        assert(before.may_judge(message@, accepted));
        if !accepted {
            let actions: Vec<ControlAction> = Vec::new();
            assert(message::views(actions@) =~= Seq::<ActionView>::empty());
            return actions;
        }
        if message.lsa.origin == self.me || !self.is_newer(&message.lsa) {
            return self.correct(incoming, &message.lsa);
        }
        let mut actions = self.flood(&message, Some(incoming));
        let ghost view = message@;
        match self.install(message, now) {
            Some(expiry) => {
                actions.push(expiry);
                match self.mark_spf_dirty(now) {
                    Some(action) => {
                        actions.push(action);
                    },
                    None => {},
                }
                proof {
                    let goal = model::receive_lsa(before@, now, incoming, view, true);
                    assert(self@ =~= goal.0);
                    assert(message::views(actions@) =~= goal.1);
                }
                actions
            },
            None => {
                let none: Vec<ControlAction> = Vec::new();
                assert(message::views(none@) =~= Seq::<ActionView>::empty());
                none
            },
        }
    }

    /// The newest version that a digest gives of each origin.
    fn newest_versions(digest: &Vec<DigestEntry>) -> (remote: OrderedMap<NodeId, (u32, u64)>)
        ensures
            remote.wf(),
            remote@.dom() == model::origins_of(digest@),
            forall|origin: NodeId| #[trigger]
                remote@.contains_key(origin) ==> remote@[origin] == model::newest(digest@, origin),
    {
        let mut remote: OrderedMap<NodeId, (u32, u64)> = OrderedMap::new();
        let mut i: usize = 0;
        while i < digest.len()
            invariant
                i <= digest@.len(),
                remote.wf(),
                forall|origin: NodeId| #[trigger]
                    remote@.contains_key(origin) ==> model::is_newest(
                        digest@.take(i as int),
                        origin,
                        remote@[origin],
                    ),
                forall|k: int| 0 <= k < i ==> remote@.contains_key((#[trigger] digest@[k]).origin),
            decreases digest@.len() - i,
        {
            let entry: DigestEntry = digest[i];
            let ghost before = remote@;
            let ghost less = digest@.take(i as int);
            let ghost more = digest@.take(i + 1);
            let newer: bool = match remote.get(&entry.origin) {
                Some(version) => is_newer_version(entry.version(), *version),
                None => true,
            };
            if newer {
                remote.insert(entry.origin, entry.version());
            }
            proof {
                assert(more[i as int] == entry);
                assert forall|origin: NodeId| #[trigger]
                    remote@.contains_key(origin) implies model::is_newest(
                    more,
                    origin,
                    remote@[origin],
                ) by {
                    assert forall|k: int, o: NodeId| #[trigger] model::tells_of(less, k, o) implies model::tells_of(
                        more,
                        k,
                        o,
                    ) && more[k] == less[k] by {}
                    assert forall|k: int| #[trigger] model::tells_of(
                        more,
                        k,
                        origin,
                    ) implies !model::is_after(more[k].spec_version(), remote@[origin]) by {
                        if k < i {
                            assert(model::tells_of(less, k, origin));
                            assert(before.contains_key(digest@[k].origin));
                        }
                    }
                    if origin == entry.origin && newer {
                        assert(model::tells_of(more, i as int, origin));
                    } else {
                        assert(before.contains_key(origin));
                        let k = choose|k: int| #[trigger]
                            model::tells_of(less, k, origin) && less[k].spec_version()
                                == before[origin];
                        assert(model::tells_of(more, k, origin));
                    }
                }
            }
            i = i + 1;
        }
        proof {
            let all = digest@;
            assert(all.take(i as int) =~= all);
            assert forall|origin: NodeId| remote@.dom().contains(origin) <==> model::origins_of(
                all,
            ).contains(origin) by {
                if remote@.contains_key(origin) {
                    let k = choose|k: int| #[trigger]
                        model::tells_of(all, k, origin) && all[k].spec_version() == remote@[origin];
                    assert(model::tells_of(all, k, origin));
                }
                if model::origins_of(all).contains(origin) {
                    let k = choose|k: int| model::tells_of(all, k, origin);
                    assert(remote@.contains_key(all[k].origin));
                }
            }
            assert(remote@.dom() =~= model::origins_of(all));
            assert forall|origin: NodeId| #[trigger]
                remote@.contains_key(origin) implies remote@[origin] == model::newest(
                all,
                origin,
            ) by {
                Self::newest_is_unique(all, origin, remote@[origin], model::newest(all, origin));
            }
        }
        remote
    }

    /// A digest gives only one newest version of an origin.
    proof fn newest_is_unique(
        digest: Seq<DigestEntry>,
        origin: NodeId,
        a: (u32, u64),
        b: (u32, u64),
    )
        requires
            model::is_newest(digest, origin, a),
            model::is_newest(digest, origin, b),
        ensures
            a == b,
    {
        let i = choose|i: int| #[trigger]
            model::tells_of(digest, i, origin) && digest[i].spec_version() == a;
        let j = choose|j: int| #[trigger]
            model::tells_of(digest, j, origin) && digest[j].spec_version() == b;
        assert(!model::is_after(digest[i].spec_version(), b));
        assert(!model::is_after(digest[j].spec_version(), a));
    }

    /// Answers a digest: sends what the peer lacks and requests what it has.
    fn receive_digest(&self, incoming: LinkId, digest: Vec<DigestEntry>) -> (actions: Vec<
        ControlAction,
    >)
        requires
            self.wf(),
        ensures
            message::views(actions@) == model::receive_digest(self@, incoming, digest@),
    {
        let mut actions: Vec<ControlAction> = Vec::new();
        if !self.adjacencies.contains_key(&incoming) || digest.len() > MAX_DIGEST_ENTRIES {
            assert(message::views(actions@) =~= Seq::<ActionView>::empty());
            return actions;
        }
        let remote = Self::newest_versions(&digest);
        let mut origins: OrderedMap<NodeId, ()> = OrderedMap::new();
        let mut i: usize = 0;
        proof {
            self.lsdb.ranks_list_domain();
            remote.ranks_list_domain();
        }
        while i < self.lsdb.len()
            invariant
                self.lsdb.wf(),
                origins.wf(),
                i <= self.lsdb.ranks().len(),
                forall|k: int|
                    0 <= k < i ==> origins@.contains_key(#[trigger] self.lsdb.ranks()[k]),
                forall|origin: NodeId| #[trigger]
                    origins@.contains_key(origin) ==> self.lsdb@.contains_key(origin),
            decreases self.lsdb.ranks().len() - i,
        {
            origins.insert(*self.lsdb.key_at(i), ());
            i = i + 1;
        }
        let mut j: usize = 0;
        while j < remote.len()
            invariant
                self.lsdb.wf(),
                remote.wf(),
                origins.wf(),
                j <= remote.ranks().len(),
                forall|k: int|
                    0 <= k < self.lsdb.ranks().len() ==> origins@.contains_key(
                        #[trigger] self.lsdb.ranks()[k],
                    ),
                forall|k: int| 0 <= k < j ==> origins@.contains_key(#[trigger] remote.ranks()[k]),
                forall|origin: NodeId| #[trigger]
                    origins@.contains_key(origin) ==> self.lsdb@.contains_key(origin)
                        || remote@.contains_key(origin),
            decreases remote.ranks().len() - j,
        {
            origins.insert(*remote.key_at(j), ());
            j = j + 1;
        }
        let ghost owed = model::owed(self@, digest@);
        let ghost wanted = model::wanted(self@, digest@);
        let ghost mut sent: Seq<NodeId> = Seq::empty();
        let mut requested: Vec<NodeId> = Vec::new();
        let mut n: usize = 0;
        proof {
            origins.ranks_list_domain();
            assert forall|origin: NodeId| self.lsdb@.contains_key(origin) implies origins@.contains_key(
                origin,
            ) by {
                assert(self.lsdb@.dom().contains(origin));
                assert(self.lsdb.ranks().contains(origin));
            }
            assert forall|origin: NodeId| remote@.contains_key(origin) implies origins@.contains_key(
                origin,
            ) by {
                assert(remote@.dom().contains(origin));
                assert(remote.ranks().contains(origin));
            }
            assert(message::views(actions@) =~= model::send_each(incoming, self@.lsdb, sent));
        }
        while n < origins.len()
            invariant
                self.wf(),
                remote.wf(),
                origins.wf(),
                owed == model::owed(self@, digest@),
                wanted == model::wanted(self@, digest@),
                remote@.dom() == model::origins_of(digest@),
                forall|origin: NodeId| #[trigger]
                    remote@.contains_key(origin) ==> remote@[origin] == model::newest(
                        digest@,
                        origin,
                    ),
                forall|origin: NodeId| #[trigger]
                    origins@.contains_key(origin) ==> self.lsdb@.contains_key(origin)
                        || remote@.contains_key(origin),
                order::lists::<NodeId>(origins.ranks(), origins@.dom()),
                order::lists_kept::<NodeId>(sent, origins.ranks(), n as int, owed),
                order::lists_kept::<NodeId>(requested@, origins.ranks(), n as int, wanted),
                message::views(actions@) == model::send_each(incoming, self@.lsdb, sent),
            decreases origins.ranks().len() - n,
        {
            let origin: NodeId = *origins.key_at(n);
            let local = self.lsdb.get(&origin);
            let local_version: Option<(u32, u64)> = match local {
                Some(entry) => Some(entry.version),
                None => None,
            };
            let remote_version: Option<(u32, u64)> = match remote.get(&origin) {
                Some(version) => Some(*version),
                None => None,
            };
            proof {
                order::lists_one_more::<NodeId>(sent, origins.ranks(), n as int, owed);
                order::lists_one_more::<NodeId>(requested@, origins.ranks(), n as int, wanted);
                assert(model::origins_of(digest@).contains(origin) == remote@.contains_key(origin));
                assert(local_version is Some == self@.lsdb.contains_key(origin));
            }
            match compare_versions(local_version, remote_version) {
                EntryRelation::RemoteOnly | EntryRelation::RemoteNewer => {
                    assert(!owed.contains(origin));
                    if origin != self.me {
                        assert(wanted.contains(origin));
                        requested.push(origin);
                    } else {
                        assert(!wanted.contains(origin));
                    }
                },
                EntryRelation::LocalOnly | EntryRelation::LocalNewer => {
                    assert(!wanted.contains(origin));
                    match local {
                        Some(entry) => match entry.active() {
                            Some(active) => {
                                assert(owed.contains(origin));
                                let action = Self::send_lsa(incoming, &active.message);
                                proof {
                                    message::views_push(actions@, action);
                                    let longer = sent.push(origin);
                                    assert(message::views(actions@.push(action))
                                        =~= model::send_each(incoming, self@.lsdb, longer));
                                    sent = longer;
                                }
                                actions.push(action);
                            },
                            None => {
                                assert(!owed.contains(origin));
                            },
                        },
                        None => {},
                    }
                },
                EntryRelation::SameVersion => {
                    assert(!owed.contains(origin));
                    assert(!wanted.contains(origin));
                },
            }
            n = n + 1;
        }
        proof {
            order::lists_all_kept::<NodeId>(sent, origins.ranks(), origins@.dom(), owed);
            order::lists_all_kept::<NodeId>(requested@, origins.ranks(), origins@.dom(), wanted);
            assert(origins@.dom().intersect(owed) =~= owed);
            assert(origins@.dom().intersect(wanted) =~= wanted);
        }
        if requested.len() > 0 {
            proof {
                assert(requested@.contains(requested@[0]));
                assert(wanted.contains(requested@[0]));
                assert(wanted != Set::<NodeId>::empty());
            }
            let action = ControlAction::Send {
                link: incoming,
                frame: ControlFrame::DigestReq(requested),
            };
            proof {
                message::views_push(actions@, action);
            }
            actions.push(action);
        } else {
            proof {
                assert forall|origin: NodeId| !wanted.contains(origin) by {
                    assert(!requested@.contains(origin));
                }
                assert(wanted =~= Set::<NodeId>::empty());
            }
        }
        assert(message::views(actions@) =~= model::receive_digest(self@, incoming, digest@));
        actions
    }

    /// Answers a request for announcements, once for each origin.
    fn receive_digest_req(&self, incoming: LinkId, origins: Vec<NodeId>) -> (actions: Vec<
        ControlAction,
    >)
        requires
            self.wf(),
        ensures
            message::views(actions@) == model::receive_digest_req(self@, incoming, origins@),
    {
        let mut actions: Vec<ControlAction> = Vec::new();
        if !self.adjacencies.contains_key(&incoming) || origins.len() > MAX_DIGEST_REQ_ORIGINS {
            assert(message::views(actions@) =~= Seq::<ActionView>::empty());
            return actions;
        }
        let mut distinct: OrderedMap<NodeId, ()> = OrderedMap::new();
        let mut i: usize = 0;
        while i < origins.len()
            invariant
                i <= origins@.len(),
                distinct.wf(),
                forall|k: int| 0 <= k < i ==> distinct@.contains_key(#[trigger] origins@[k]),
                forall|origin: NodeId| #[trigger]
                    distinct@.contains_key(origin) ==> origins@.contains(origin),
            decreases origins@.len() - i,
        {
            assert(origins@.contains(origins@[i as int]));
            distinct.insert(origins[i], ());
            i = i + 1;
        }
        let ghost keep = model::available(self@.lsdb, origins@);
        let ghost mut sent: Seq<NodeId> = Seq::empty();
        let mut n: usize = 0;
        proof {
            distinct.ranks_list_domain();
            assert(message::views(actions@) =~= model::send_each(incoming, self@.lsdb, sent));
        }
        while n < distinct.len()
            invariant
                self.wf(),
                distinct.wf(),
                keep == model::available(self@.lsdb, origins@),
                forall|origin: NodeId| #[trigger]
                    distinct@.contains_key(origin) ==> origins@.contains(origin),
                order::lists::<NodeId>(distinct.ranks(), distinct@.dom()),
                order::lists_kept::<NodeId>(sent, distinct.ranks(), n as int, keep),
                message::views(actions@) == model::send_each(incoming, self@.lsdb, sent),
            decreases distinct.ranks().len() - n,
        {
            let origin: NodeId = *distinct.key_at(n);
            proof {
                order::lists_one_more::<NodeId>(sent, distinct.ranks(), n as int, keep);
            }
            match self.lsdb.get(&origin) {
                Some(entry) => match entry.active() {
                    Some(active) => {
                        assert(keep.contains(origin));
                        let action = Self::send_lsa(incoming, &active.message);
                        proof {
                            message::views_push(actions@, action);
                            let longer = sent.push(origin);
                            assert(message::views(actions@.push(action)) =~= model::send_each(
                                incoming,
                                self@.lsdb,
                                longer,
                            ));
                            sent = longer;
                        }
                        actions.push(action);
                    },
                    None => {
                        assert(!keep.contains(origin));
                    },
                },
                None => {
                    assert(!keep.contains(origin));
                },
            }
            n = n + 1;
        }
        proof {
            order::lists_all_kept::<NodeId>(sent, distinct.ranks(), distinct@.dom(), keep);
            assert forall|origin: NodeId| keep.contains(origin) implies distinct@.contains_key(
                origin,
            ) by {
                let k = choose|k: int| 0 <= k < origins@.len() && origins@[k] == origin;
                assert(distinct@.contains_key(origins@[k]));
            }
            assert(distinct@.dom().intersect(keep) =~= keep);
        }
        actions
    }

    /// Sends a digest and asks for the next one.
    fn handle_digest_timer(&self, now: MonoTime, link: LinkId) -> (actions: Vec<ControlAction>)
        requires
            self.wf(),
        ensures
            message::views(actions@) == model::digest_due(self@, now, link),
    {
        let mut actions: Vec<ControlAction> = Vec::new();
        if self.adjacencies.contains_key(&link) {
            actions.push(self.send_digest(link));
            actions.push(Self::next_digest_timer(now, link));
        }
        assert(message::views(actions@) =~= model::digest_due(self@, now, link));
        actions
    }

    /// Lets an announcement expire when its time has come.
    fn handle_expire_timer(&mut self, now: MonoTime, origin: NodeId, epoch: u32, seq: u64) -> (actions:
        Vec<ControlAction>)
        requires
            old(self).wf(),
            model::is_over(old(self)@, now, origin, epoch, seq) ==> model::can_mark(
                old(self)@,
                now,
            ),
        ensures
            final(self).wf(),
            final(self).has_auth_of(old(self)),
            (final(self)@, message::views(actions@)) == model::expire(
                old(self)@,
                now,
                origin,
                epoch,
                seq,
            ),
    {
        let ghost before = *self;
        let mut actions: Vec<ControlAction> = Vec::new();
        let expires_at: Option<MonoTime> = match self.lsdb.get(&origin) {
            Some(entry) => if entry.version.0 == epoch && entry.version.1 == seq {
                match entry.active() {
                    Some(active) => Some(active.expires_at),
                    None => None,
                }
            } else {
                None
            },
            None => None,
        };
        match expires_at {
            None => {},
            Some(deadline) => if now.as_millis() < deadline.as_millis() {
                // A runtime normally delivers this timer at or after its
                // deadline. Alternate drivers and simulators may be early.
                actions.push(
                    ControlAction::SetTimer {
                        timer: ControlTimer::LsaExpire { origin, epoch, seq },
                        at: deadline,
                    },
                );
            } else {
                self.lsdb.insert(
                    origin,
                    LsdbEntry { version: (epoch, seq), state: LsdbEntryState::Tombstone },
                );
                proof {
                    let after = model::buried(before@, origin);
                    assert(self@.lsdb =~= after.lsdb);
                    assert(self@ =~= after);
                    assert(self@.lsdb.dom() =~= before@.lsdb.dom());
                }
                match self.mark_spf_dirty(now) {
                    Some(action) => {
                        actions.push(action);
                    },
                    None => {},
                }
            },
        }
        assert(message::views(actions@) =~= model::expire(before@, now, origin, epoch, seq).1);
        actions
    }

    /// Announces the local links anew, if the announcement with this version
    /// is in force.
    fn handle_refresh_timer(&mut self, now: MonoTime, epoch: u32, seq: u64) -> (actions: Vec<
        ControlAction,
    >)
        requires
            old(self).accepts(
                now,
                ControlEvent::Timer(ControlTimer::LsaRefresh { epoch, seq }),
            ),
        ensures
            Self::may_step(
                *old(self),
                now,
                ControlEvent::Timer(ControlTimer::LsaRefresh { epoch, seq }),
                *final(self),
                actions@,
            ),
    {
        let ghost before = *self;
        let ghost seen = EventView::Timer(ControlTimer::LsaRefresh { epoch, seq });
        assert(before.may_say(seen, true));
        let is_current: bool = match self.lsdb.get(&self.me) {
            Some(entry) => entry.version.0 == epoch && entry.version.1 == seq
                && entry.active().is_some(),
            None => false,
        };
        if is_current {
            let actions = self.originate_lsa(now);
            proof {
                let signed = choose|signed: MessageView| #[trigger]
                    before.may_sign(model::own_lsa(model::numbered(before@)), signed) && (
                    self@,
                    message::views(actions@),
                    ) == model::adopt(model::numbered(before@), now, signed);
                assert(before.may_answer(seen, signed));
                assert(before.may_say(seen, true));
            }
            actions
        } else {
            let actions: Vec<ControlAction> = Vec::new();
            proof {
                assert(before.may_answer(seen, arbitrary()));
                assert(before.may_say(seen, true));
                assert(message::views(actions@) =~= Seq::<ActionView>::empty());
            }
            actions
        }
    }

    /// Whether the active announcement of the edge's target has an edge back.
    fn is_mutual(&self, origin: NodeId, edge: &Adjacency) -> (mutual: bool)
        requires
            self.wf(),
        ensures
            mutual == model::is_mutual(self@.lsdb, origin, *edge),
    {
        match self.lsdb.get(&edge.peer) {
            Some(entry) => match entry.active() {
                Some(active) => {
                    let back = &active.message.lsa.adjacencies;
                    let ghost known = model::message_of(self@.lsdb, edge.peer).lsa.adjacencies;
                    assert(known == back@);
                    let mut i: usize = 0;
                    while i < back.len()
                        invariant
                            i <= back@.len(),
                            forall|k: int| 0 <= k < i ==> (#[trigger] back@[k]).peer != origin,
                            known == back@,
                            known == model::message_of(self@.lsdb, edge.peer).lsa.adjacencies,
                            model::is_active(self@.lsdb, edge.peer),
                        decreases back@.len() - i,
                    {
                        if back[i].peer == origin {
                            assert(known[i as int].peer == origin);
                            return true;
                        }
                        i = i + 1;
                    }
                    false
                },
                None => false,
            },
            None => false,
        }
    }

    /// The edges that both ends announce.
    fn bidirectional_graph(&self) -> (graph: OrderedMap<NodeId, Vec<Adjacency>>)
        requires
            self.wf(),
        ensures
            graph.wf(),
            spf::edges_of(graph@) == model::graph(self@.lsdb),
            spf::is_closed(spf::edges_of(graph@)),
            graph@.dom().len() <= MAX_LSDB_ENTRIES,
    {
        let ghost goal = model::graph(self@.lsdb);
        let mut graph: OrderedMap<NodeId, Vec<Adjacency>> = OrderedMap::new();
        let mut i: usize = 0;
        proof {
            self.lsdb.ranks_list_domain();
            assert(self@.lsdb.dom() =~= self.lsdb@.dom());
        }
        while i < self.lsdb.len()
            invariant
                self.wf(),
                graph.wf(),
                goal == model::graph(self@.lsdb),
                i <= self.lsdb.ranks().len(),
                self.lsdb.ranks().no_duplicates(),
                forall|k: int|
                    0 <= k < i && goal.contains_key(#[trigger] self.lsdb.ranks()[k])
                        ==> graph@.contains_key(self.lsdb.ranks()[k]),
                forall|origin: NodeId| #[trigger]
                    graph@.contains_key(origin) ==> goal.contains_key(origin)
                        && graph@[origin]@ == goal[origin],
            decreases self.lsdb.ranks().len() - i,
        {
            let origin: NodeId = *self.lsdb.key_at(i);
            let entry: &LsdbEntry = self.lsdb.value_at(i);
            match entry.active() {
                Some(active) => {
                    let announced = &active.message.lsa.adjacencies;
                    let ghost keep = |edge: Adjacency| model::is_mutual(self@.lsdb, origin, edge);
                    let mut accepted: Vec<Adjacency> = Vec::new();
                    let mut n: usize = 0;
                    assert(announced@.take(0).filter(keep) =~= Seq::<Adjacency>::empty()) by {
                        reveal(Seq::filter);
                    }
                    while n < announced.len()
                        invariant
                            self.wf(),
                            n <= announced@.len(),
                            keep == (|edge: Adjacency|
                                model::is_mutual(self@.lsdb, origin, edge)),
                            accepted@ == announced@.take(n as int).filter(keep),
                        decreases announced@.len() - n,
                    {
                        let edge: Adjacency = announced[n];
                        let mutual: bool = self.is_mutual(origin, &edge);
                        proof {
                            let more = announced@.take(n + 1);
                            assert(more.drop_last() =~= announced@.take(n as int));
                            assert(more.last() == edge);
                            reveal(Seq::filter);
                        }
                        if mutual {
                            accepted.push(edge);
                        }
                        n = n + 1;
                    }
                    assert(announced@.take(n as int) =~= announced@);
                    assert(goal.contains_key(origin));
                    assert(goal[origin] == announced@.filter(keep));
                    graph.insert(origin, accepted);
                },
                None => {
                    assert(!goal.contains_key(origin));
                },
            }
            i = i + 1;
        }
        proof {
            let edges = spf::edges_of(graph@);
            assert forall|origin: NodeId| goal.contains_key(origin) implies graph@.contains_key(
                origin,
            ) by {
                assert(self.lsdb@.dom().contains(origin));
                assert(self.lsdb.ranks().contains(origin));
            }
            assert(edges =~= goal);
            assert forall|u: NodeId, k: int| #[trigger] spf::has_edge(edges, u, k) implies edges.contains_key(
                edges[u][k].peer,
            ) by {
                let keep = |edge: Adjacency| model::is_mutual(self@.lsdb, u, edge);
                let announced = model::message_of(self@.lsdb, u).lsa.adjacencies;
                broadcast use vstd::seq_lib::group_filter_ensures;

                assert(edges[u] == announced.filter(keep));
                assert(keep(announced.filter(keep)[k]));
            }
            graph.ranks_list_domain();
            self.lsdb.ranks_list_domain();
            vstd::set_lib::lemma_len_subset(graph@.dom(), self@.lsdb.dom());
        }
        graph
    }

    /// The best link to a peer.
    fn best_link_to(&self, peer: NodeId) -> (best: Option<LinkId>)
        requires
            self.wf(),
        ensures
            match best {
                Some(link) => {
                    &&& model::peers(self@.adjacencies).contains(peer)
                    &&& link == model::best_link(self@.adjacencies, peer)
                },
                None => !model::peers(self@.adjacencies).contains(peer),
            },
    {
        let ghost all = self.adjacencies@;
        let mut best: Option<(LinkId, LinkCost)> = None;
        let mut i: usize = 0;
        proof {
            self.adjacencies.ranks_list_domain();
        }
        while i < self.adjacencies.len()
            invariant
                self.adjacencies.wf(),
                all == self.adjacencies@,
                i <= self.adjacencies.ranks().len(),
                order::lists::<LinkId>(self.adjacencies.ranks(), all.dom()),
                match best {
                    Some((link, cost)) => {
                        &&& model::leads_to(all, link, peer)
                        &&& all[link].cost == cost
                        &&& exists|k: int| 0 <= k < i && #[trigger] self.adjacencies.ranks()[k] == link
                        &&& forall|k: int|
                            0 <= k < i && model::leads_to(
                                all,
                                #[trigger] self.adjacencies.ranks()[k],
                                peer,
                            ) ==> {
                                let other = self.adjacencies.ranks()[k];
                                let a = cost.value();
                                let b = all[other].cost.value();
                                a < b || a == b && link.value() <= other.value()
                            }
                    },
                    None => forall|k: int|
                        0 <= k < i ==> !model::leads_to(
                            all,
                            #[trigger] self.adjacencies.ranks()[k],
                            peer,
                        ),
                },
            decreases self.adjacencies.ranks().len() - i,
        {
            let link: LinkId = *self.adjacencies.key_at(i);
            let adjacency: LocalAdjacency = *self.adjacencies.value_at(i);
            if adjacency.peer == peer {
                assert(model::leads_to(all, link, peer));
                let better: bool = match best {
                    Some((_, cost)) => adjacency.cost.get() < cost.get(),
                    None => true,
                };
                if better {
                    best = Some((link, adjacency.cost));
                }
            }
            i = i + 1;
        }
        proof {
            assert forall|link: LinkId| #[trigger] model::leads_to(
                all,
                link,
                peer,
            ) implies self.adjacencies.ranks().contains(link) by {
                assert(all.dom().contains(link));
            }
            match best {
                Some((link, cost)) => {
                    assert(model::is_best_link(all, peer, link));
                    Self::best_link_is_unique(all, peer, link, model::best_link(all, peer));
                    assert(model::peers(all).contains(peer));
                },
                None => {
                    assert(!model::peers(all).contains(peer));
                },
            }
        }
        match best {
            Some((link, _)) => Some(link),
            None => None,
        }
    }

    /// A peer has only one best link.
    proof fn best_link_is_unique(
        all: Map<LinkId, LocalAdjacency>,
        peer: NodeId,
        a: LinkId,
        b: LinkId,
    )
        requires
            model::is_best_link(all, peer, a),
            model::is_best_link(all, peer, b),
        ensures
            a == b,
    {
        assert(model::leads_to(all, a, peer));
        assert(model::leads_to(all, b, peer));
        LinkId::same_value(a, b);
    }

    /// The best routes over the edges that both ends announce.
    fn shortest_paths(&self) -> (routes: OrderedMap<NodeId, Route>)
        requires
            self.wf(),
        ensures
            routes.wf(),
            routes@ == model::best_routes(self@),
    {
        let graph = self.bidirectional_graph();
        let labels = spf::label_nodes(&graph, self.me);
        proof {
            paths::solution_is_unique(
                model::graph(self@.lsdb),
                self.me,
                labels@,
                model::best_paths(self@),
            );
            labels.ranks_list_domain();
        }
        let ghost goal = model::best_routes(self@);
        let mut routes: OrderedMap<NodeId, Route> = OrderedMap::new();
        let mut i: usize = 0;
        while i < labels.len()
            invariant
                self.wf(),
                labels.wf(),
                routes.wf(),
                labels@ == model::best_paths(self@),
                goal == model::best_routes(self@),
                i <= labels.ranks().len(),
                forall|k: int|
                    0 <= k < i && goal.contains_key(#[trigger] labels.ranks()[k])
                        ==> routes@.contains_key(labels.ranks()[k]),
                forall|v: NodeId| #[trigger]
                    routes@.contains_key(v) ==> goal.contains_key(v) && routes@[v] == goal[v],
            decreases labels.ranks().len() - i,
        {
            let destination: NodeId = *labels.key_at(i);
            let label: Label = *labels.value_at(i);
            if destination != self.me {
                match self.best_link_to(label.first) {
                    Some(link) => {
                        assert(goal.contains_key(destination));
                        routes.insert(
                            destination,
                            Route { next_hop: link, cost: label.cost, hops: label.hops },
                        );
                    },
                    None => {
                        assert(!goal.contains_key(destination));
                    },
                }
            }
            i = i + 1;
        }
        proof {
            assert forall|v: NodeId| goal.contains_key(v) implies routes@.contains_key(v) by {
                assert(labels@.dom().contains(v));
                assert(labels.ranks().contains(v));
            }
            assert(routes@ =~= goal);
        }
        routes
    }

    /// Computes the routes, and publishes them if they changed.
    fn recompute_routes(&mut self) -> (action: Option<ControlAction>)
        requires
            old(self).wf(),
            model::best_routes(old(self)@) != old(self)@.routes.routes
                ==> old(self)@.routes.version < u64::MAX,
        ensures
            final(self).wf(),
            final(self).has_auth_of(old(self)),
            match action {
                None => {
                    &&& final(self)@ == old(self)@
                    &&& model::best_routes(old(self)@) == old(self)@.routes.routes
                },
                Some(a) => {
                    &&& model::best_routes(old(self)@) != old(self)@.routes.routes
                    &&& final(self)@.routes.routes == model::best_routes(old(self)@)
                    &&& final(self)@.routes.version == old(self)@.routes.version + 1
                    &&& final(self)@ == (PlaneView { routes: final(self)@.routes, ..old(self)@ })
                    &&& a@ == ActionView::PublishRoutes(final(self)@.routes)
                },
            },
    {
        let routes = self.shortest_paths();
        if self.routes.has_routes(&routes) {
            return None;
        }
        let ghost before = self@;
        let table = Arc::new(RouteTable::new(self.routes.current_version() + 1, routes));
        self.routes = Arc::clone(&table);
        assert(self@ =~= PlaneView { routes: self@.routes, ..before });
        Some(ControlAction::PublishRoutes(table))
    }

    /// Computes routes when their time has come.
    fn handle_spf_timer(&mut self, now: MonoTime, generation: u64) -> (actions: Vec<ControlAction>)
        requires
            old(self).wf(),
            model::spf_runs(old(self)@, now, generation) && model::best_routes(old(self)@)
                != old(self)@.routes.routes ==> old(self)@.routes.version < u64::MAX,
        ensures
            final(self).wf(),
            final(self).has_auth_of(old(self)),
            (final(self)@, message::views(actions@)) == model::spf_due(old(self)@, now, generation),
    {
        let ghost before = self@;
        let mut actions: Vec<ControlAction> = Vec::new();
        match self.pending_spf {
            None => {},
            Some(pending) => if pending.generation == generation {
                if now.as_millis() < pending.at.as_millis() {
                    actions.push(
                        ControlAction::SetTimer {
                            timer: ControlTimer::SpfHold { generation },
                            at: pending.at,
                        },
                    );
                } else {
                    self.pending_spf = None;
                    let twice: u64 = self.spf_hold_ms * 2;
                    self.spf_hold_ms = if twice > SPF_MAX_HOLD_MS {
                        SPF_MAX_HOLD_MS
                    } else {
                        twice
                    };
                    proof {
                        assert(self@ =~= PlaneView {
                            pending_spf: None,
                            spf_hold_ms: model::doubled(before.spf_hold_ms),
                            ..before
                        });
                        assert(model::best_routes(self@) == model::best_routes(before)) by {
                            assert(model::best_paths(self@) == model::best_paths(before));
                            assert(model::best_routes(self@) =~= model::best_routes(before));
                        }
                    }
                    match self.recompute_routes() {
                        Some(action) => {
                            actions.push(action);
                        },
                        None => {},
                    }
                }
            },
        }
        proof {
            let goal = model::spf_due(before, now, generation);
            assert(self@ =~= goal.0);
            assert(message::views(actions@) =~= goal.1);
        }
        actions
    }

    /// The signer may answer the announcement that the event asks for with
    /// `signed`.
    pub open spec fn may_answer(&self, event: EventView, signed: MessageView) -> bool {
        model::origination(self@, event) matches Some(ready) ==> self.may_sign(
            model::own_lsa(ready),
            signed,
        )
    }

    /// The verifier may say `accepted` of the announcement that the event
    /// brings.
    pub open spec fn may_say(&self, event: EventView, accepted: bool) -> bool {
        model::judgement(self@, event) matches Some(message) ==> self.may_judge(message, accepted)
    }

    /// Whatever the signer makes of the announcement that the event asks for
    /// finds its place in the database.
    pub open spec fn has_room_for_own(&self, event: EventView) -> bool {
        model::origination(self@, event) matches Some(ready) ==> forall|signed: MessageView|
         #[trigger]
            self.may_sign(model::own_lsa(ready), signed) ==> model::fits(
                self@.lsdb,
                signed.lsa.origin,
            )
    }
}

impl Component for ControlPlane {
    type Event = ControlEvent;

    type Action = ControlAction;

    open spec fn accepts(&self, now: MonoTime, event: ControlEvent) -> bool {
        &&& self.wf()
        &&& forall|accepted: bool| #[trigger]
            self.may_say(event@, accepted) ==> model::has_numbers(self@, now, event@, accepted)
        &&& self.has_room_for_own(event@)
    }

    open spec fn may_step(
        before: Self,
        now: MonoTime,
        event: ControlEvent,
        after: Self,
        actions: Seq<ControlAction>,
    ) -> bool {
        &&& after.wf()
        &&& after.has_auth_of(&before)
        &&& exists|signed: MessageView, accepted: bool|
            {
                &&& #[trigger] before.may_answer(event@, signed)
                &&& #[trigger] before.may_say(event@, accepted)
                &&& (after@, message::views(actions)) == model::transition(
                    before@,
                    now,
                    event@,
                    signed,
                    accepted,
                )
            }
    }

    fn handle(&mut self, now: MonoTime, event: ControlEvent) -> (actions: Vec<ControlAction>) {
        broadcast use {message::views_push, message::views_add};

        let ghost before = *self;
        let ghost seen = event@;
        assert(before.may_say(seen, true) ==> model::has_numbers(before@, now, seen, true));
        match event {
            ControlEvent::LinkUp { link, peer, cost } => {
                self.adjacencies.insert(link, LocalAdjacency { peer, cost });
                let ghost ready = *self;
                proof {
                    let goal = model::origination(before@, seen)->0;
                    assert(model::numbered(ready@) =~= goal);
                    Self::same_auth(&ready, &before);
                }
                let mut actions = self.originate_lsa(now);
                let ghost signed = choose|signed: MessageView| #[trigger]
                    ready.may_sign(model::own_lsa(model::numbered(ready@)), signed) && (
                    self@,
                    message::views(actions@),
                    ) == model::adopt(model::numbered(ready@), now, signed);
                actions.push(self.send_digest(link));
                actions.push(Self::next_digest_timer(now, link));
                proof {
                    assert(before.may_answer(seen, signed));
                    assert(before.may_say(seen, true));
                    let goal = model::transition(before@, now, seen, signed, true);
                    assert(message::views(actions@) =~= goal.1);
                }
                actions
            },
            ControlEvent::LinkDown { link } => {
                let removed = self.adjacencies.remove(&link);
                let ghost ready = *self;
                match removed {
                    None => {
                        let actions: Vec<ControlAction> = Vec::new();
                        proof {
                            assert(self@ =~= before@);
                            assert(before.may_answer(seen, arbitrary()));
                            assert(before.may_say(seen, true));
                            assert(message::views(actions@) =~= Seq::<ActionView>::empty());
                        }
                        actions
                    },
                    Some(_) => {
                        proof {
                            let goal = model::origination(before@, seen)->0;
                            assert(model::numbered(ready@) =~= goal);
                            Self::same_auth(&ready, &before);
                        }
                        let actions = self.originate_lsa(now);
                        proof {
                            let signed = choose|signed: MessageView| #[trigger]
                                ready.may_sign(model::own_lsa(model::numbered(ready@)), signed) && (
                                self@,
                                message::views(actions@),
                                ) == model::adopt(model::numbered(ready@), now, signed);
                            assert(before.may_answer(seen, signed));
                            assert(before.may_say(seen, true));
                        }
                        actions
                    },
                }
            },
            ControlEvent::Frame { link, frame } => match frame {
                ControlFrame::Lsa(message) => {
                    let ghost view = message@;
                    let actions = self.receive_lsa(now, link, message);
                    proof {
                        let accepted = choose|accepted: bool|
                            {
                                &&& model::is_considered(before@, link, view)
                                    ==> #[trigger] before.may_judge(view, accepted)
                                &&& (self@, message::views(actions@)) == model::receive_lsa(
                                    before@,
                                    now,
                                    link,
                                    view,
                                    accepted,
                                )
                            };
                        assert(before.may_answer(seen, arbitrary()));
                        assert(before.may_say(seen, accepted));
                    }
                    actions
                },
                ControlFrame::Digest(digest) => {
                    proof {
                        assert(before.may_answer(seen, arbitrary()));
                        assert(before.may_say(seen, true));
                    }
                    self.receive_digest(link, digest)
                },
                ControlFrame::DigestReq(origins) => {
                    proof {
                        assert(before.may_answer(seen, arbitrary()));
                        assert(before.may_say(seen, true));
                    }
                    self.receive_digest_req(link, origins)
                },
            },
            ControlEvent::Timer(timer) => match timer {
                ControlTimer::Digest(link) => {
                    proof {
                        assert(before.may_answer(seen, arbitrary()));
                        assert(before.may_say(seen, true));
                    }
                    self.handle_digest_timer(now, link)
                },
                ControlTimer::SpfHold { generation } => {
                    proof {
                        assert(before.may_answer(seen, arbitrary()));
                        assert(before.may_say(seen, true));
                    }
                    self.handle_spf_timer(now, generation)
                },
                ControlTimer::LsaRefresh { epoch, seq } => self.handle_refresh_timer(
                    now,
                    epoch,
                    seq,
                ),
                ControlTimer::LsaExpire { origin, epoch, seq } => {
                    proof {
                        assert(before.may_answer(seen, arbitrary()));
                        assert(before.may_say(seen, true));
                    }
                    self.handle_expire_timer(now, origin, epoch, seq)
                },
            },
        }
    }
}

} // verus!
