//! Link-state announcements, the frames that carry them, and the events and
//! actions of the control plane.

use std::sync::Arc;
use vstd::prelude::*;
use crate::control::cost::{Adjacency, LinkCost};
use crate::control::table::{RouteTable, TableView};
use crate::types::{LinkId, MonoTime, NodeId};

verus! {

/// Puts bytes behind a shared pointer.
///
/// Calls `Arc::<[u8]>::from(Vec<u8>)`, which moves the items into a newly
/// allocated shared slice: the slice holds the bytes of the vector.
#[verifier::external_body]
pub(crate) fn share_bytes(bytes: Vec<u8>) -> (shared: Arc<[u8]>)
    ensures
        shared@ == bytes@,
{
    Arc::from(bytes)
}

/// A link-state announcement: the edges that its origin claims to have.
///
/// Service, topic, and address fields can be added without changing the
/// event/action boundary around the control plane.
#[derive(Debug, Eq, PartialEq)]
pub struct Lsa {
    pub origin: NodeId,
    pub epoch: u32,
    pub seq: u64,
    pub ttl_sec: u32,
    pub adjacencies: Vec<Adjacency>,
}

/// What an announcement says.
#[verifier::ext_equal]
pub struct LsaView {
    pub origin: NodeId,
    pub epoch: u32,
    pub seq: u64,
    pub ttl_sec: u32,
    pub adjacencies: Seq<Adjacency>,
}

impl LsaView {
    /// What tells an announcement from older ones of its origin.
    pub open spec fn version(self) -> (u32, u64) {
        (self.epoch, self.seq)
    }
}

impl View for Lsa {
    type V = LsaView;

    open spec fn view(&self) -> LsaView {
        LsaView {
            origin: self.origin,
            epoch: self.epoch,
            seq: self.seq,
            ttl_sec: self.ttl_sec,
            adjacencies: self.adjacencies@,
        }
    }
}

impl Clone for Lsa {
    fn clone(&self) -> (copy: Self)
        ensures
            copy@ == self@,
    {
        let adjacencies = self.adjacencies.clone();
        assert(adjacencies@ =~= self.adjacencies@);
        Lsa {
            origin: self.origin,
            epoch: self.epoch,
            seq: self.seq,
            ttl_sec: self.ttl_sec,
            adjacencies,
        }
    }
}

/// Transport-neutral container of an announcement.
///
/// The unsecured signer leaves `canonical_bytes` and `signature` empty. A
/// security adapter can populate both while keeping forwarding
/// byte-preserving.
#[derive(Debug, Eq, PartialEq)]
pub struct LsaMessage {
    pub lsa: Lsa,
    pub canonical_bytes: Arc<[u8]>,
    pub signature: Arc<[u8]>,
}

/// What a container holds.
#[verifier::ext_equal]
pub struct MessageView {
    pub lsa: LsaView,
    pub canonical_bytes: Seq<u8>,
    pub signature: Seq<u8>,
}

impl View for LsaMessage {
    type V = MessageView;

    open spec fn view(&self) -> MessageView {
        MessageView {
            lsa: self.lsa@,
            canonical_bytes: self.canonical_bytes@,
            signature: self.signature@,
        }
    }
}

impl Clone for LsaMessage {
    fn clone(&self) -> (copy: Self)
        ensures
            copy@ == self@,
    {
        LsaMessage {
            lsa: self.lsa.clone(),
            canonical_bytes: self.canonical_bytes.clone(),
            signature: self.signature.clone(),
        }
    }
}

/// The version of one origin's announcement that a node knows.
#[derive(Clone, Copy, Debug, Eq, Ord, PartialEq, PartialOrd)]
pub struct DigestEntry {
    pub origin: NodeId,
    pub epoch: u32,
    pub seq: u64,
}

impl DigestEntry {
    /// The version that the entry tells of.
    pub open spec fn spec_version(self) -> (u32, u64) {
        (self.epoch, self.seq)
    }

    /// The version that the entry tells of.
    #[verifier::when_used_as_spec(spec_version)]
    pub(crate) fn version(self) -> (version: (u32, u64))
        ensures
            version == self.spec_version(),
    {
        (self.epoch, self.seq)
    }
}

/// What one node tells another over a link.
#[derive(Debug, Eq, PartialEq)]
pub enum ControlFrame {
    Lsa(LsaMessage),
    Digest(Vec<DigestEntry>),
    DigestReq(Vec<NodeId>),
}

/// What a frame says.
#[verifier::ext_equal]
pub enum FrameView {
    Lsa(MessageView),
    Digest(Seq<DigestEntry>),
    DigestReq(Seq<NodeId>),
}

impl View for ControlFrame {
    type V = FrameView;

    open spec fn view(&self) -> FrameView {
        match *self {
            ControlFrame::Lsa(message) => FrameView::Lsa(message@),
            ControlFrame::Digest(entries) => FrameView::Digest(entries@),
            ControlFrame::DigestReq(origins) => FrameView::DigestReq(origins@),
        }
    }
}

impl Clone for ControlFrame {
    fn clone(&self) -> (copy: Self)
        ensures
            copy@ == self@,
    {
        match self {
            ControlFrame::Lsa(message) => ControlFrame::Lsa(message.clone()),
            ControlFrame::Digest(entries) => {
                let copied = entries.clone();
                assert(copied@ =~= entries@);
                ControlFrame::Digest(copied)
            },
            ControlFrame::DigestReq(origins) => {
                let copied = origins.clone();
                assert(copied@ =~= origins@);
                ControlFrame::DigestReq(copied)
            },
        }
    }
}

/// A deadline that the control plane asked to be told of.
#[derive(Clone, Copy, Debug, Eq, Ord, PartialEq, PartialOrd)]
pub enum ControlTimer {
    Digest(LinkId),
    SpfHold { generation: u64 },
    LsaRefresh { epoch: u32, seq: u64 },
    LsaExpire { origin: NodeId, epoch: u32, seq: u64 },
}

/// What happens to the control plane.
#[derive(Debug, Eq, PartialEq)]
pub enum ControlEvent {
    LinkUp { link: LinkId, peer: NodeId, cost: LinkCost },
    LinkDown { link: LinkId },
    Frame { link: LinkId, frame: ControlFrame },
    Timer(ControlTimer),
}

/// What an event says.
#[verifier::ext_equal]
pub enum EventView {
    LinkUp { link: LinkId, peer: NodeId, cost: LinkCost },
    LinkDown { link: LinkId },
    Frame { link: LinkId, frame: FrameView },
    Timer(ControlTimer),
}

impl View for ControlEvent {
    type V = EventView;

    open spec fn view(&self) -> EventView {
        match *self {
            ControlEvent::LinkUp { link, peer, cost } => EventView::LinkUp { link, peer, cost },
            ControlEvent::LinkDown { link } => EventView::LinkDown { link },
            ControlEvent::Frame { link, frame } => EventView::Frame { link, frame: frame@ },
            ControlEvent::Timer(timer) => EventView::Timer(timer),
        }
    }
}

impl Clone for ControlEvent {
    fn clone(&self) -> (copy: Self)
        ensures
            copy@ == self@,
    {
        match self {
            ControlEvent::LinkUp { link, peer, cost } => ControlEvent::LinkUp {
                link: *link,
                peer: *peer,
                cost: *cost,
            },
            ControlEvent::LinkDown { link } => ControlEvent::LinkDown { link: *link },
            ControlEvent::Frame { link, frame } => ControlEvent::Frame {
                link: *link,
                frame: frame.clone(),
            },
            ControlEvent::Timer(timer) => ControlEvent::Timer(*timer),
        }
    }
}

/// What the control plane asks its runtime to do.
#[derive(Debug, Eq, PartialEq)]
pub enum ControlAction {
    Send { link: LinkId, frame: ControlFrame },
    SetTimer { timer: ControlTimer, at: MonoTime },
    PublishRoutes(Arc<RouteTable>),
    PersistSeq(u64),
}

/// What an action says.
#[verifier::ext_equal]
pub enum ActionView {
    Send { link: LinkId, frame: FrameView },
    SetTimer { timer: ControlTimer, at: MonoTime },
    PublishRoutes(TableView),
    PersistSeq(u64),
}

impl View for ControlAction {
    type V = ActionView;

    open spec fn view(&self) -> ActionView {
        match *self {
            ControlAction::Send { link, frame } => ActionView::Send { link, frame: frame@ },
            ControlAction::SetTimer { timer, at } => ActionView::SetTimer { timer, at },
            ControlAction::PublishRoutes(table) => ActionView::PublishRoutes(table@),
            ControlAction::PersistSeq(seq) => ActionView::PersistSeq(seq),
        }
    }
}

impl Clone for ControlAction {
    fn clone(&self) -> (copy: Self)
        ensures
            copy@ == self@,
    {
        match self {
            ControlAction::Send { link, frame } => ControlAction::Send {
                link: *link,
                frame: frame.clone(),
            },
            ControlAction::SetTimer { timer, at } => ControlAction::SetTimer {
                timer: *timer,
                at: *at,
            },
            ControlAction::PublishRoutes(table) => ControlAction::PublishRoutes(table.clone()),
            ControlAction::PersistSeq(seq) => ControlAction::PersistSeq(*seq),
        }
    }
}

/// What a sequence of actions says.
pub open spec fn views(actions: Seq<ControlAction>) -> Seq<ActionView> {
    actions.map_values(|action: ControlAction| action@)
}

/// The views of a longer sequence.
pub broadcast proof fn views_push(actions: Seq<ControlAction>, action: ControlAction)
    ensures
        #[trigger] views(actions.push(action)) == views(actions).push(action@),
{
    assert(views(actions.push(action)) =~= views(actions).push(action@));
}

/// The views of two sequences in a row.
pub broadcast proof fn views_add(a: Seq<ControlAction>, b: Seq<ControlAction>)
    ensures
        #[trigger] views(a + b) == views(a) + views(b),
{
    assert(views(a + b) =~= views(a) + views(b));
}

} // verus!
