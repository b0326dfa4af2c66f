//! Decisions of a minimal, deliberately insecure transport for static peers.
//!
//! It knows about one-hop links and wire frames, but not announcements or
//! routes. Peer identity is asserted by `LinkHello`. Sockets, queues and tasks
//! belong to the caller, who performs the steps that are decided here.

use bytes::{Bytes, BytesMut};
use vstd::prelude::*;
use crate::buffer;
use crate::ordered_map::OrderedMap;
use crate::order::Key;
use crate::protobuf;
use crate::text;
use crate::types::{LinkId, NodeId};
use crate::wire::frame;
use crate::wire::frame::{Channel, FrameDecoder, FrameEncoder, FrameError, FrameType, WireFrame};
use crate::wire::frame::{WireView, FRAME_VERSION};
use crate::wire::proto;
use crate::wire::proto::{HelloView, LinkHello};

verus! {

/// How many commands wait for a link.
pub const LINK_QUEUE_CAPACITY: usize = 8;

/// How many events wait for the user of an endpoint.
pub const EVENT_QUEUE_CAPACITY: usize = 256;

/// The room for bytes that are read at once.
pub const READ_CHUNK_CAPACITY: usize = 16 * 1024;

/// What happens to the links of an endpoint.
#[derive(Debug, Eq, PartialEq)]
pub enum LinkEvent {
    Up { link: LinkId, peer: NodeId },
    Down { link: LinkId },
    Frame { link: LinkId, frame: WireFrame },
    Sent { link: LinkId, frame_type: FrameType, channel: Channel, payload_bytes: usize },
}

/// What an event says.
#[verifier::ext_equal]
pub enum LinkEventView {
    Up { link: LinkId, peer: NodeId },
    Down { link: LinkId },
    Frame { link: LinkId, frame: WireView },
    Sent { link: LinkId, frame_type: FrameType, channel: Channel, payload_bytes: usize },
}

impl View for LinkEvent {
    type V = LinkEventView;

    open spec fn view(&self) -> LinkEventView {
        match *self {
            LinkEvent::Up { link, peer } => LinkEventView::Up { link, peer },
            LinkEvent::Down { link } => LinkEventView::Down { link },
            LinkEvent::Frame { link, frame } => LinkEventView::Frame { link, frame: frame@ },
            LinkEvent::Sent { link, frame_type, channel, payload_bytes } => LinkEventView::Sent {
                link,
                frame_type,
                channel,
                payload_bytes,
            },
        }
    }
}

impl Clone for LinkEvent {
    fn clone(&self) -> (copy: Self)
        ensures
            copy@ == self@,
    {
        match self {
            LinkEvent::Up { link, peer } => LinkEvent::Up { link: *link, peer: *peer },
            LinkEvent::Down { link } => LinkEvent::Down { link: *link },
            LinkEvent::Frame { link, frame } => LinkEvent::Frame {
                link: *link,
                frame: frame.clone(),
            },
            LinkEvent::Sent { link, frame_type, channel, payload_bytes } => LinkEvent::Sent {
                link: *link,
                frame_type: *frame_type,
                channel: *channel,
                payload_bytes: *payload_bytes,
            },
        }
    }
}

/// Why a link cannot be had or used.
#[derive(Debug, Eq, PartialEq)]
pub enum TransportError {
    Io(String),
    Wire(FrameError),
    Protobuf(String),
    UnexpectedEndOfStream,
    ExpectedLinkHello,
    UnsupportedProtocolVersion(u32),
    InvalidNodeIdLength(usize),
    PeerMismatch { expected: NodeId, actual: NodeId },
    PeerNotAllowed(NodeId),
    LinkIdExhausted,
    UnknownLink(LinkId),
    LinkClosed(LinkId),
}

/// What is wrong with a link. What the operating system and Protocol Buffers
/// have to say is left out.
pub enum TransportFault {
    Io,
    Wire(FrameError),
    Protobuf,
    UnexpectedEndOfStream,
    ExpectedLinkHello,
    UnsupportedProtocolVersion(u32),
    InvalidNodeIdLength(usize),
    PeerMismatch { expected: NodeId, actual: NodeId },
    PeerNotAllowed(NodeId),
    LinkIdExhausted,
    UnknownLink(LinkId),
    LinkClosed(LinkId),
}

impl View for TransportError {
    type V = TransportFault;

    open spec fn view(&self) -> TransportFault {
        match *self {
            TransportError::Io(_) => TransportFault::Io,
            TransportError::Wire(error) => TransportFault::Wire(error),
            TransportError::Protobuf(_) => TransportFault::Protobuf,
            TransportError::UnexpectedEndOfStream => TransportFault::UnexpectedEndOfStream,
            TransportError::ExpectedLinkHello => TransportFault::ExpectedLinkHello,
            TransportError::UnsupportedProtocolVersion(version) =>
                TransportFault::UnsupportedProtocolVersion(version),
            TransportError::InvalidNodeIdLength(length) => TransportFault::InvalidNodeIdLength(
                length,
            ),
            TransportError::PeerMismatch { expected, actual } => TransportFault::PeerMismatch {
                expected,
                actual,
            },
            TransportError::PeerNotAllowed(peer) => TransportFault::PeerNotAllowed(peer),
            TransportError::LinkIdExhausted => TransportFault::LinkIdExhausted,
            TransportError::UnknownLink(link) => TransportFault::UnknownLink(link),
            TransportError::LinkClosed(link) => TransportFault::LinkClosed(link),
        }
    }
}

impl TransportError {
    /// The error in words.
    pub open spec fn words(self) -> Seq<char> {
        match self {
            TransportError::Io(error) => "TCP I/O failed: "@ + error@,
            TransportError::Wire(error) => "wire frame is invalid: "@ + error.words(),
            TransportError::Protobuf(error) => "LinkHello protobuf is invalid: "@ + error@,
            TransportError::UnexpectedEndOfStream => "TCP stream ended before LinkHello arrived"@,
            TransportError::ExpectedLinkHello => "the first TCP frame must be LinkHello"@,
            TransportError::UnsupportedProtocolVersion(version) =>
                "peer uses unsupported protocol version "@ + text::decimal(version as nat),
            TransportError::InvalidNodeIdLength(length) => "peer NodeId must be 32 bytes, got "@
                + text::decimal(length as nat),
            TransportError::PeerMismatch { expected, actual } => "expected peer "@ + text::hex(
                expected.bytes(),
            ) + ", got "@ + text::hex(actual.bytes()),
            TransportError::PeerNotAllowed(peer) => "peer "@ + text::hex(peer.bytes())
                + " is not in the static allowlist"@,
            TransportError::LinkIdExhausted => "local LinkId space is exhausted"@,
            TransportError::UnknownLink(link) => "unknown link "@ + text::decimal(
                link.value() as nat,
            ),
            TransportError::LinkClosed(link) => "link "@ + text::decimal(link.value() as nat)
                + " is closed"@,
        }
    }

    /// The error in words.
    pub fn to_string(&self) -> (words: String)
        ensures
            words@ == self.words(),
    {
        match self {
            TransportError::Io(error) => {
                let mut words = "TCP I/O failed: ".to_owned();
                words.append(error.as_str());
                words
            },
            TransportError::Wire(error) => {
                let mut words = "wire frame is invalid: ".to_owned();
                words.append(error.to_string().as_str());
                words
            },
            TransportError::Protobuf(error) => {
                let mut words = "LinkHello protobuf is invalid: ".to_owned();
                words.append(error.as_str());
                words
            },
            TransportError::UnexpectedEndOfStream =>
                "TCP stream ended before LinkHello arrived".to_owned(),
            TransportError::ExpectedLinkHello => "the first TCP frame must be LinkHello".to_owned(),
            TransportError::UnsupportedProtocolVersion(version) => {
                let mut words = "peer uses unsupported protocol version ".to_owned();
                text::append_decimal(&mut words, *version as u64);
                words
            },
            TransportError::InvalidNodeIdLength(length) => {
                let mut words = "peer NodeId must be 32 bytes, got ".to_owned();
                text::append_decimal(&mut words, *length as u64);
                words
            },
            TransportError::PeerMismatch { expected, actual } => {
                let mut words = "expected peer ".to_owned();
                words.append(expected.to_string().as_str());
                words.append(", got ");
                words.append(actual.to_string().as_str());
                words
            },
            TransportError::PeerNotAllowed(peer) => {
                let mut words = "peer ".to_owned();
                words.append(peer.to_string().as_str());
                words.append(" is not in the static allowlist");
                words
            },
            TransportError::LinkIdExhausted => "local LinkId space is exhausted".to_owned(),
            TransportError::UnknownLink(link) => {
                let mut words = "unknown link ".to_owned();
                text::append_decimal(&mut words, link.get());
                words
            },
            TransportError::LinkClosed(link) => {
                let mut words = "link ".to_owned();
                text::append_decimal(&mut words, link.get());
                words.append(" is closed");
                words
            },
        }
    }
}

/// The identity that bytes are.
pub fn node_id_from_bytes(bytes: &[u8]) -> (id: Result<NodeId, TransportError>)
    ensures
        match id {
            Ok(node) => bytes@.len() == 32 && node == NodeId::of(bytes@),
            Err(error) => bytes@.len() != 32 && error@ == TransportFault::InvalidNodeIdLength(
                bytes@.len() as usize,
            ),
        },
{
    if bytes.len() != 32 {
        return Err(TransportError::InvalidNodeIdLength(bytes.len()));
    }
    assert(bytes@.subrange(0, 32) =~= bytes@);
    Ok(NodeId::read(bytes, 0))
}

/// The frame in which a node introduces itself.
pub open spec fn hello_frame(node: NodeId) -> WireView {
    WireView {
        frame_type: FrameType::LinkHello,
        channel: Channel::Control,
        payload: proto::hello_bytes(
            HelloView { node_id: node.bytes(), protocol_version: FRAME_VERSION as u32 },
        ),
    }
}

/// An introduction is short.
proof fn hellos_are_short(node: NodeId)
    ensures
        hello_frame(node).payload.len() <= 100,
{
    node.bytes_len();
    let hello = HelloView { node_id: node.bytes(), protocol_version: FRAME_VERSION as u32 };
    let a = protobuf::fields::bytes(1, hello.node_id);
    let b = protobuf::fields::number(2, hello.protocol_version as u64);
    protobuf::fields::fields_bytes_add(a, b);
    protobuf::fields::lens_are_bounded(1, 0, hello.node_id, Seq::empty(), 0);
    protobuf::fields::lens_are_bounded(2, 1, Seq::empty(), Seq::empty(), 0);
}

/// The bytes with which a node opens a link.
pub fn encode_hello(local_node: NodeId) -> (encoded: Bytes)
    ensures
        buffer::octets(encoded) == frame::frame_bytes(hello_frame(local_node)),
{
    proof {
        hellos_are_short(local_node);
    }
    let hello = LinkHello {
        node_id: buffer::to_bytes(vstd::slice::slice_to_vec(local_node.as_bytes().as_slice())),
        protocol_version: FRAME_VERSION as u32,
    };
    assert(hello@ =~= HelloView {
        node_id: local_node.bytes(),
        protocol_version: FRAME_VERSION as u32,
    });
    let frame = WireFrame::control(FrameType::LinkHello, hello.encode_to_bytes());
    FrameEncoder::encode(&frame).unwrap()
}

/// Who the first frame of a link says that its sender is.
pub open spec fn introduced(frame: WireView) -> Result<NodeId, TransportFault> {
    if frame.frame_type != FrameType::LinkHello || frame.channel != Channel::Control {
        Err(TransportFault::ExpectedLinkHello)
    } else {
        match proto::read_hello(frame.payload) {
            None => Err(TransportFault::Protobuf),
            Some(hello) => if hello.protocol_version != FRAME_VERSION {
                Err(TransportFault::UnsupportedProtocolVersion(hello.protocol_version))
            } else if hello.node_id.len() != 32 {
                Err(TransportFault::InvalidNodeIdLength(hello.node_id.len() as usize))
            } else {
                Ok(NodeId::of(hello.node_id))
            },
        }
    }
}

/// Reads the first frame of a link.
pub fn read_introduction(frame: WireFrame) -> (peer: Result<NodeId, TransportError>)
    ensures
        match peer {
            Ok(node) => introduced(frame@) == Ok::<NodeId, TransportFault>(node),
            Err(error) => introduced(frame@) == Err::<NodeId, TransportFault>(error@),
        },
{
    if frame.frame_type != FrameType::LinkHello || frame.channel != Channel::Control {
        return Err(TransportError::ExpectedLinkHello);
    }
    let hello = match LinkHello::decode(frame.payload) {
        Ok(hello) => hello,
        Err(error) => {
            return Err(TransportError::Protobuf(protobuf::description(&error)));
        },
    };
    if hello.protocol_version != FRAME_VERSION as u32 {
        return Err(TransportError::UnsupportedProtocolVersion(hello.protocol_version));
    }
    node_id_from_bytes(buffer::as_octets(&hello.node_id))
}

/// What the bytes that have come over a new link say of its far end: who it
/// is, `None` where more are needed, or why there is no link. `ended` says
/// that no more will come.
pub open spec fn awaited(bytes: Seq<u8>, ended: bool) -> Result<Option<NodeId>, TransportFault> {
    match frame::parse_frame(bytes) {
        Err(error) => Err(TransportFault::Wire(error)),
        Ok(None) => if ended {
            Err(TransportFault::UnexpectedEndOfStream)
        } else {
            Ok(None)
        },
        Ok(Some(frame)) => match introduced(frame) {
            Ok(peer) => Ok(Some(peer)),
            Err(fault) => Err(fault),
        },
    }
}

/// Looks for the introduction in the bytes that have come over a new link, and
/// takes it out.
pub fn await_hello(buffered: &mut BytesMut, ended: bool) -> (peer: Result<
    Option<NodeId>,
    TransportError,
>)
    ensures
        match peer {
            Ok(found) => awaited(buffer::buffered(*old(buffered)), ended) == Ok::<
                Option<NodeId>,
                TransportFault,
            >(found),
            Err(error) => awaited(buffer::buffered(*old(buffered)), ended) == Err::<
                Option<NodeId>,
                TransportFault,
            >(error@),
        },
        buffer::buffered(*final(buffered)) == frame::after_frame(buffer::buffered(*old(buffered))),
{
    let mut decoder = FrameDecoder;
    match decoder.decode(buffered) {
        Err(error) => Err(TransportError::Wire(error)),
        Ok(None) => if ended {
            Err(TransportError::UnexpectedEndOfStream)
        } else {
            Ok(None)
        },
        Ok(Some(frame)) => match read_introduction(frame) {
            Ok(peer) => Ok(Some(peer)),
            Err(error) => Err(error),
        },
    }
}

/// The links of an endpoint, and whom it accepts.
pub struct LinkRegistry {
    local_node: NodeId,
    allowed_peers: OrderedMap<NodeId, ()>,
    next_link: u64,
    links: OrderedMap<LinkId, NodeId>,
}

/// What a registry knows.
#[verifier::ext_equal]
pub struct RegistryView {
    pub local_node: NodeId,
    pub allowed_peers: Set<NodeId>,
    pub next_link: u64,
    pub links: Map<LinkId, NodeId>,
}

impl View for LinkRegistry {
    type V = RegistryView;

    closed spec fn view(&self) -> RegistryView {
        RegistryView {
            local_node: self.local_node,
            allowed_peers: self.allowed_peers@.dom(),
            next_link: self.next_link,
            links: self.links@,
        }
    }
}

/// Why a peer that has introduced itself is turned away, if it is.
pub open spec fn turned_away(
    registry: RegistryView,
    expected: Option<NodeId>,
    peer: NodeId,
) -> Option<TransportFault> {
    if expected matches Some(e) && e != peer {
        Some(TransportFault::PeerMismatch { expected: expected->0, actual: peer })
    } else if !registry.allowed_peers.contains(peer) {
        Some(TransportFault::PeerNotAllowed(peer))
    } else if registry.next_link == u64::MAX {
        Some(TransportFault::LinkIdExhausted)
    } else {
        None
    }
}

impl LinkRegistry {
    /// The collections are in order, and every link has a number that was
    /// given out.
    pub closed spec fn wf(&self) -> bool {
        &&& self.allowed_peers.wf()
        &&& self.links.wf()
        &&& forall|link: LinkId| #[trigger]
            self.links@.contains_key(link) ==> link.value() < self.next_link
    }

    /// Every link has a number that was given out.
    pub proof fn links_are_numbered(&self)
        requires
            self.wf(),
        ensures
            forall|link: LinkId| #[trigger]
                self@.links.contains_key(link) ==> link.value() < self@.next_link,
            self@.links.dom().finite(),
    {
        self.links.ranks_list_domain();
    }

    /// A registry without links.
    pub fn new(local_node: NodeId, allowed_peers: Vec<NodeId>) -> (registry: Self)
        ensures
            registry.wf(),
            registry@ == (RegistryView {
                local_node,
                allowed_peers: allowed_peers@.to_set(),
                next_link: 1,
                links: Map::empty(),
            }),
    {
        let mut allowed: OrderedMap<NodeId, ()> = OrderedMap::new();
        let mut i: usize = 0;
        assert(allowed@.dom() =~= allowed_peers@.take(0).to_set());
        while i < allowed_peers.len()
            invariant
                i <= allowed_peers@.len(),
                allowed.wf(),
                allowed@.dom() == allowed_peers@.take(i as int).to_set(),
            decreases allowed_peers@.len() - i,
        {
            let ghost before = allowed@.dom();
            allowed.insert(allowed_peers[i], ());
            proof {
                let less = allowed_peers@.take(i as int);
                let more = allowed_peers@.take(i + 1);
                let peer = allowed_peers@[i as int];
                assert(more =~= less.push(peer));
                assert forall|id: NodeId| #[trigger]
                    more.to_set().contains(id) <==> before.insert(peer).contains(id) by {
                    if less.contains(id) {
                        let k = choose|k: int| 0 <= k < less.len() && less[k] == id;
                        assert(more[k] == id);
                    }
                    if id == peer {
                        assert(more[i as int] == id);
                    }
                    if more.contains(id) {
                        let k = choose|k: int| 0 <= k < more.len() && more[k] == id;
                        if k < i {
                            assert(less[k] == id);
                        }
                    }
                }
                assert(allowed@.dom() =~= more.to_set());
            }
            i = i + 1;
        }
        assert(allowed_peers@.take(i as int) =~= allowed_peers@);
        LinkRegistry {
            local_node,
            allowed_peers: allowed,
            next_link: 1,
            links: OrderedMap::new(),
        }
    }

    /// The identity of the node.
    pub fn local_node(&self) -> (node: NodeId)
        ensures
            node == self@.local_node,
    {
        self.local_node
    }

    /// The number of links.
    pub fn link_count(&self) -> (n: usize)
        requires
            self.wf(),
        ensures
            n == self@.links.dom().len(),
    {
        self.links.len()
    }

    /// Whether a link to the peer may be opened.
    pub fn may_connect(&self, peer: NodeId) -> (allowed: Result<(), TransportError>)
        requires
            self.wf(),
        ensures
            match allowed {
                Ok(_) => self@.allowed_peers.contains(peer),
                Err(error) => !self@.allowed_peers.contains(peer) && error@
                    == TransportFault::PeerNotAllowed(peer),
            },
    {
        if self.allowed_peers.contains_key(&peer) {
            Ok(())
        } else {
            Err(TransportError::PeerNotAllowed(peer))
        }
    }

    /// Lets a peer have links from now on.
    pub fn allow(&mut self, peer: NodeId)
        requires
            old(self).wf(),
        ensures
            final(self).wf(),
            final(self)@ == (RegistryView {
                allowed_peers: old(self)@.allowed_peers.insert(peer),
                ..old(self)@
            }),
    {
        let ghost before = self.allowed_peers@.dom();
        self.allowed_peers.insert(peer, ());
        assert(self.allowed_peers@.dom() =~= before.insert(peer));
    }

    /// Takes a link to a peer in, unless the peer is turned away.
    pub fn accept(&mut self, expected_peer: Option<NodeId>, peer: NodeId) -> (link: Result<
        LinkId,
        TransportError,
    >)
        requires
            old(self).wf(),
        ensures
            final(self).wf(),
            match link {
                Ok(l) => {
                    &&& turned_away(old(self)@, expected_peer, peer) is None
                    &&& l.value() == old(self)@.next_link
                    &&& final(self)@ == (RegistryView {
                        next_link: (old(self)@.next_link + 1) as u64,
                        links: old(self)@.links.insert(l, peer),
                        ..old(self)@
                    })
                },
                Err(error) => {
                    &&& turned_away(old(self)@, expected_peer, peer) == Some(error@)
                    &&& final(self)@ == old(self)@
                },
            },
    {
        if let Some(expected) = expected_peer {
            if expected != peer {
                return Err(TransportError::PeerMismatch { expected, actual: peer });
            }
        }
        if !self.allowed_peers.contains_key(&peer) {
            return Err(TransportError::PeerNotAllowed(peer));
        }
        if self.next_link == u64::MAX {
            return Err(TransportError::LinkIdExhausted);
        }
        let link = LinkId::new(self.next_link);
        self.next_link = self.next_link + 1;
        self.links.insert(link, peer);
        Ok(link)
    }

    /// Whether commands can be given to the link.
    pub fn require(&self, link: LinkId) -> (known: Result<(), TransportError>)
        requires
            self.wf(),
        ensures
            match known {
                Ok(_) => self@.links.contains_key(link),
                Err(error) => !self@.links.contains_key(link) && error@
                    == TransportFault::UnknownLink(link),
            },
    {
        if self.links.contains_key(&link) {
            Ok(())
        } else {
            Err(TransportError::UnknownLink(link))
        }
    }

    /// Forgets a link.
    pub fn remove(&mut self, link: LinkId)
        requires
            old(self).wf(),
        ensures
            final(self).wf(),
            final(self)@ == (RegistryView { links: old(self)@.links.remove(link), ..old(self)@ }),
    {
        let _ = self.links.remove(&link);
    }

    /// Forgets all links.
    pub fn clear(&mut self)
        requires
            old(self).wf(),
        ensures
            final(self).wf(),
            final(self)@ == (RegistryView { links: Map::empty(), ..old(self)@ }),
    {
        self.links = OrderedMap::new();
    }
}

/// What the user of an endpoint asks of a link.
pub enum LinkCommand {
    Send(WireFrame),
    Close,
}

/// What happens to the worker of a link.
pub enum WorkerInput {
    /// The link is new, bytes came, or an event was taken.
    Ready,
    /// Nobody takes events any more.
    EventRefused,
    /// A command came, or none will come any more.
    Command(Option<LinkCommand>),
    /// The bytes of a frame were written.
    Written { sent: LinkEvent },
    /// Bytes could not be written.
    WriteFailed,
    /// Bytes were read into the buffer, or could not be read.
    Read(Option<usize>),
    /// The endpoint shuts down or not, or is gone.
    Shutdown(Option<bool>),
}

/// What a worker is to do next.
pub enum WorkerStep {
    /// Hand the event to the user.
    Deliver(LinkEvent),
    /// Write the bytes of a frame; the event tells of it.
    Write { bytes: Bytes, sent: LinkEvent },
    /// Wait for a command, for bytes, or for the end.
    Wait,
    /// Forget the link, and tell the user that it is down.
    Stop,
}

/// What a command says.
#[verifier::ext_equal]
pub enum CommandView {
    Send(WireView),
    Close,
}

/// What an input says.
#[verifier::ext_equal]
pub enum WorkerInputView {
    Ready,
    EventRefused,
    Command(Option<CommandView>),
    Written { sent: LinkEventView },
    WriteFailed,
    Read(Option<usize>),
    Shutdown(Option<bool>),
}

/// What a step says.
#[verifier::ext_equal]
pub enum WorkerStepView {
    Deliver(LinkEventView),
    Write { bytes: Seq<u8>, sent: LinkEventView },
    Wait,
    Stop,
}

impl View for LinkCommand {
    type V = CommandView;

    open spec fn view(&self) -> CommandView {
        match *self {
            LinkCommand::Send(frame) => CommandView::Send(frame@),
            LinkCommand::Close => CommandView::Close,
        }
    }
}

impl View for WorkerInput {
    type V = WorkerInputView;

    open spec fn view(&self) -> WorkerInputView {
        match *self {
            WorkerInput::Ready => WorkerInputView::Ready,
            WorkerInput::EventRefused => WorkerInputView::EventRefused,
            WorkerInput::Command(Some(command)) => WorkerInputView::Command(Some(command@)),
            WorkerInput::Command(None) => WorkerInputView::Command(None),
            WorkerInput::Written { sent } => WorkerInputView::Written { sent: sent@ },
            WorkerInput::WriteFailed => WorkerInputView::WriteFailed,
            WorkerInput::Read(count) => WorkerInputView::Read(count),
            WorkerInput::Shutdown(value) => WorkerInputView::Shutdown(value),
        }
    }
}

impl View for WorkerStep {
    type V = WorkerStepView;

    open spec fn view(&self) -> WorkerStepView {
        match *self {
            WorkerStep::Deliver(event) => WorkerStepView::Deliver(event@),
            WorkerStep::Write { bytes, sent } => WorkerStepView::Write {
                bytes: buffer::octets(bytes),
                sent: sent@,
            },
            WorkerStep::Wait => WorkerStepView::Wait,
            WorkerStep::Stop => WorkerStepView::Stop,
        }
    }
}

/// What a worker does with the bytes that have come: it delivers the frame
/// that they start with, waits for a complete one, or stops where there is
/// none.
pub open spec fn next_delivery(link: LinkId, bytes: Seq<u8>) -> WorkerStepView {
    match frame::parse_frame(bytes) {
        Ok(Some(frame)) => WorkerStepView::Deliver(LinkEventView::Frame { link, frame }),
        Ok(None) => WorkerStepView::Wait,
        Err(_) => WorkerStepView::Stop,
    }
}

/// Tells of a frame that was written.
pub open spec fn sent_event(link: LinkId, frame: WireView) -> LinkEventView {
    LinkEventView::Sent {
        link,
        frame_type: frame.frame_type,
        channel: frame.channel,
        payload_bytes: frame.payload.len() as usize,
    }
}

/// The worker goes on with the bytes that have come.
pub open spec fn goes_on(input: WorkerInputView) -> bool {
    match input {
        WorkerInputView::Ready => true,
        WorkerInputView::Read(Some(count)) => count > 0,
        WorkerInputView::Shutdown(Some(ends)) => !ends,
        _ => false,
    }
}

/// What a worker does next, with these bytes in its buffer.
pub open spec fn work(link: LinkId, bytes: Seq<u8>, input: WorkerInputView) -> WorkerStepView {
    if goes_on(input) {
        next_delivery(link, bytes)
    } else {
        match input {
            WorkerInputView::Command(Some(CommandView::Send(frame))) => if frame::is_writable(
                frame,
            ) {
                WorkerStepView::Write {
                    bytes: frame::frame_bytes(frame),
                    sent: sent_event(link, frame),
                }
            } else {
                WorkerStepView::Stop
            },
            WorkerInputView::Written { sent } => WorkerStepView::Deliver(sent),
            _ => WorkerStepView::Stop,
        }
    }
}

/// What is left in the buffer of a worker.
pub open spec fn work_left(bytes: Seq<u8>, input: WorkerInputView) -> Seq<u8> {
    if goes_on(input) {
        frame::after_frame(bytes)
    } else {
        bytes
    }
}

/// Delivers the frame that the buffer starts with.
fn deliver_next(link: LinkId, buffered: &mut BytesMut) -> (step: WorkerStep)
    ensures
        step@ == next_delivery(link, buffer::buffered(*old(buffered))),
        buffer::buffered(*final(buffered)) == frame::after_frame(buffer::buffered(*old(buffered))),
{
    let mut decoder = FrameDecoder;
    match decoder.decode(buffered) {
        Ok(Some(frame)) => WorkerStep::Deliver(LinkEvent::Frame { link, frame }),
        Ok(None) => WorkerStep::Wait,
        Err(_) => WorkerStep::Stop,
    }
}

/// What the worker of a link does next.
pub fn link_step(link: LinkId, buffered: &mut BytesMut, input: WorkerInput) -> (step: WorkerStep)
    ensures
        step@ == work(link, buffer::buffered(*old(buffered)), input@),
        buffer::buffered(*final(buffered)) == work_left(
            buffer::buffered(*old(buffered)),
            input@,
        ),
{
    match input {
        WorkerInput::Ready => deliver_next(link, buffered),
        WorkerInput::EventRefused => WorkerStep::Stop,
        WorkerInput::Command(Some(LinkCommand::Send(frame))) => {
            let payload_bytes: usize = buffer::as_octets(&frame.payload).len();
            let sent = LinkEvent::Sent {
                link,
                frame_type: frame.frame_type,
                channel: frame.channel,
                payload_bytes,
            };
            match FrameEncoder::encode(&frame) {
                Ok(bytes) => WorkerStep::Write { bytes, sent },
                Err(_) => WorkerStep::Stop,
            }
        },
        WorkerInput::Command(Some(LinkCommand::Close)) => WorkerStep::Stop,
        WorkerInput::Command(None) => WorkerStep::Stop,
        WorkerInput::Written { sent } => WorkerStep::Deliver(sent),
        WorkerInput::WriteFailed => WorkerStep::Stop,
        WorkerInput::Read(Some(count)) => if count > 0 {
            deliver_next(link, buffered)
        } else {
            WorkerStep::Stop
        },
        WorkerInput::Read(None) => WorkerStep::Stop,
        WorkerInput::Shutdown(Some(ends)) => if ends {
            WorkerStep::Stop
        } else {
            deliver_next(link, buffered)
        },
        WorkerInput::Shutdown(None) => WorkerStep::Stop,
    }
}

/// The far end of a link learns who opened it, and what follows the
/// introduction stays.
pub proof fn introductions_are_understood(node: NodeId, rest: Seq<u8>, ended: bool)
    ensures
        ({
            let bytes = frame::frame_bytes(hello_frame(node)) + rest;
            &&& awaited(bytes, ended) == Ok::<Option<NodeId>, TransportFault>(Some(node))
            &&& frame::after_frame(bytes) == rest
        }),
{
    hellos_are_short(node);
    node.bytes_len();
    node.of_own_bytes();
    proto::written_hellos_are_read_back(
        HelloView { node_id: node.bytes(), protocol_version: FRAME_VERSION as u32 },
    );
    frame::written_frames_are_read_back(hello_frame(node), rest);
}

/// Whatever the far end sends first, a link is up only once it has said who it
/// is, in the version of this node.
pub proof fn links_start_with_an_introduction(bytes: Seq<u8>, ended: bool)
    requires
        awaited(bytes, ended) matches Ok(Some(_)),
    ensures
        ({
            let first = frame::parse_frame(bytes)->Ok_0->Some_0;
            let hello = proto::read_hello(first.payload)->0;
            &&& frame::parse_frame(bytes) is Ok
            &&& first.frame_type == FrameType::LinkHello
            &&& first.channel == Channel::Control
            &&& hello.protocol_version == FRAME_VERSION
            &&& hello.node_id.len() == 32
            &&& awaited(bytes, ended)->Ok_0 == Some(NodeId::of(hello.node_id))
        }),
{
}

/// Only peers that are allowed get a link, and a link that was opened to one
/// peer never leads to another.
pub proof fn links_lead_to_allowed_peers(
    registry: RegistryView,
    expected: Option<NodeId>,
    peer: NodeId,
)
    requires
        turned_away(registry, expected, peer) is None,
    ensures
        registry.allowed_peers.contains(peer),
        expected is Some ==> expected == Some(peer),
{
}

/// A new link has a number that no link had before.
pub proof fn link_numbers_are_not_used_again(registry: LinkRegistry, link: LinkId, old_link: LinkId)
    requires
        registry.wf(),
        link.value() == registry@.next_link,
        registry@.links.contains_key(old_link),
    ensures
        link != old_link,
        old_link.value() < link.value(),
{
    registry.links_are_numbered();
}

/// What one end of a link writes for a frame, the other end delivers, as soon
/// as it is complete, and what follows it stays.
pub proof fn sent_frames_are_delivered(
    link: LinkId,
    far_link: LinkId,
    frame: WireView,
    before: Seq<u8>,
    rest: Seq<u8>,
)
    requires
        frame::is_writable(frame),
    ensures
        ({
            let command = WorkerInputView::Command(Some(CommandView::Send(frame)));
            let step = work(link, before, command);
            &&& step is Write
            &&& step->sent == sent_event(link, frame)
            &&& work(far_link, step->bytes + rest, WorkerInputView::Ready)
                == WorkerStepView::Deliver(LinkEventView::Frame { link: far_link, frame })
            &&& work_left(step->bytes + rest, WorkerInputView::Ready) == rest
        }),
{
    frame::written_frames_are_read_back(frame, rest);
}

/// A worker delivers nothing of a frame that is not complete, and keeps what
/// has come of it.
pub proof fn incomplete_frames_are_kept(link: LinkId, frame: WireView, n: int)
    requires
        frame::is_writable(frame),
        0 <= n < frame::frame_bytes(frame).len(),
    ensures
        ({
            let bytes = frame::frame_bytes(frame).take(n);
            &&& work(link, bytes, WorkerInputView::Ready) == WorkerStepView::Wait
            &&& work_left(bytes, WorkerInputView::Ready) == bytes
        }),
{
    frame::incomplete_frames_are_awaited(frame, n);
}

} // verus!
