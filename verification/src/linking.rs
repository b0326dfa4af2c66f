//! What a transport promises of its links.

use bytes::{Bytes, BytesMut};
use vstd::prelude::*;
use crate::buffer;
use crate::transport;
use crate::transport::{CommandView, LinkEventView, LinkRegistry, TransportError, TransportFault};
use crate::transport::{WorkerInput, WorkerInputView, WorkerStep, WorkerStepView};
use crate::types::{LinkId, NodeId};
use crate::wire::frame;
use crate::wire::frame::{Channel, FrameType, WireView};
use crate::wire::layout;
use crate::wire::proto;

verus! {

/// A peer gets a link if it is allowed and is the one that was expected, where
/// one was. The link has a number that is higher than that of any link before,
/// and leads to that peer. A peer that is turned away changes nothing, and the
/// reason is told: first that it is another than expected, then that it is not
/// allowed, then that there are no numbers left.
pub proof fn allowed_peers_get_links(
    registry: &mut LinkRegistry,
    expected: Option<NodeId>,
    peer: NodeId,
    link: Result<LinkId, TransportError>,
    other: LinkId,
)
    requires
        old(registry).wf(),
        call_ensures(LinkRegistry::accept, (registry, expected, peer), link),
    ensures
        link is Ok <==> {
            &&& expected is None || expected == Some(peer)
            &&& old(registry)@.allowed_peers.contains(peer)
            &&& old(registry)@.next_link < u64::MAX
        },
        link matches Ok(made) ==> {
            &&& !old(registry)@.links.contains_key(made)
            &&& old(registry)@.links.contains_key(other) ==> other.value() < made.value()
            &&& final(registry)@.links == old(registry)@.links.insert(made, peer)
            &&& final(registry)@.allowed_peers == old(registry)@.allowed_peers
            &&& final(registry)@.local_node == old(registry)@.local_node
            &&& final(registry)@.next_link == made.value() + 1
        },
        link matches Err(error) ==> {
            &&& final(registry)@ == old(registry)@
            &&& error@ == if expected is Some && expected != Some(peer) {
                TransportFault::PeerMismatch { expected: expected->0, actual: peer }
            } else if !old(registry)@.allowed_peers.contains(peer) {
                TransportFault::PeerNotAllowed(peer)
            } else {
                TransportFault::LinkIdExhausted
            }
        },
{
    old(registry).links_are_numbered();
}

/// A registry starts without links, for exactly the peers that it is given, and
/// numbers its links from one on.
pub proof fn registries_start_empty(
    local_node: NodeId,
    peers: Vec<NodeId>,
    registry: LinkRegistry,
    peer: NodeId,
)
    requires
        call_ensures(LinkRegistry::new, (local_node, peers), registry),
    ensures
        registry@.local_node == local_node,
        registry@.allowed_peers.contains(peer) <==> peers@.contains(peer),
        registry@.links.dom() =~= Set::<LinkId>::empty(),
        registry@.next_link == 1,
{
}

/// A peer that is let in may have links from then on, and no other peer is
/// affected.
pub proof fn peers_are_let_in(registry: &mut LinkRegistry, peer: NodeId)
    requires
        old(registry).wf(),
        call_ensures(LinkRegistry::allow, (registry, peer), ()),
    ensures
        final(registry)@.allowed_peers == old(registry)@.allowed_peers.insert(peer),
        final(registry)@.links == old(registry)@.links,
        final(registry)@.next_link == old(registry)@.next_link,
        final(registry)@.local_node == old(registry)@.local_node,
{
}

/// A link may be opened to a peer that is allowed, and to no other. A link can
/// be used while it is known, and not otherwise.
pub proof fn only_known_links_are_used(
    registry: &LinkRegistry,
    peer: NodeId,
    may_connect: Result<(), TransportError>,
    link: LinkId,
    known: Result<(), TransportError>,
)
    requires
        registry.wf(),
        call_ensures(LinkRegistry::may_connect, (registry, peer), may_connect),
        call_ensures(LinkRegistry::require, (registry, link), known),
    ensures
        may_connect is Ok <==> registry@.allowed_peers.contains(peer),
        may_connect matches Err(error) ==> error@ == TransportFault::PeerNotAllowed(peer),
        known is Ok <==> registry@.links.contains_key(link),
        known matches Err(error) ==> error@ == TransportFault::UnknownLink(link),
{
}

/// A link that is forgotten is no longer known, and its number is not given out
/// again.
pub proof fn links_are_forgotten(registry: &mut LinkRegistry, link: LinkId)
    requires
        old(registry).wf(),
        call_ensures(LinkRegistry::remove, (registry, link), ()),
    ensures
        final(registry)@.links == old(registry)@.links.remove(link),
        final(registry)@.next_link == old(registry)@.next_link,
        final(registry)@.allowed_peers == old(registry)@.allowed_peers,
        final(registry)@.local_node == old(registry)@.local_node,
{
}

/// Where all links are forgotten, none is known, and none of their numbers is
/// given out again.
pub proof fn all_links_are_forgotten(registry: &mut LinkRegistry)
    requires
        old(registry).wf(),
        call_ensures(LinkRegistry::clear, (registry,), ()),
    ensures
        final(registry)@.links.dom() =~= Set::<LinkId>::empty(),
        final(registry)@.next_link == old(registry)@.next_link,
        final(registry)@.allowed_peers == old(registry)@.allowed_peers,
        final(registry)@.local_node == old(registry)@.local_node,
{
}

/// What a node writes to introduce itself is read by its peer as its identity,
/// and what follows it is left.
pub proof fn introductions_are_understood(
    node: NodeId,
    hello: Bytes,
    buffered: &mut BytesMut,
    ended: bool,
    peer: Result<Option<NodeId>, TransportError>,
    rest: Seq<u8>,
)
    requires
        call_ensures(transport::encode_hello, (node,), hello),
        buffer::buffered(*old(buffered)) == buffer::octets(hello) + rest,
        call_ensures(transport::await_hello, (buffered, ended), peer),
    ensures
        peer matches Ok(found) && found == Some(node),
        buffer::buffered(*final(buffered)) == rest,
{
    transport::introductions_are_understood(node, rest, ended);
}

/// A peer is known once the first frame of a link is a whole introduction of
/// this version. Until a frame is whole it is waited for, unless no more comes.
/// Anything else as the first frame ends the link, with the reason.
pub proof fn links_begin_with_introductions(
    buffered: &mut BytesMut,
    ended: bool,
    peer: Result<Option<NodeId>, TransportError>,
)
    requires
        call_ensures(transport::await_hello, (buffered, ended), peer),
    ensures
        match frame::parse_frame(buffer::buffered(*old(buffered))) {
            Err(error) => peer matches Err(told) && told@ == TransportFault::Wire(error),
            Ok(None) => if ended {
                peer matches Err(told) && told@ == TransportFault::UnexpectedEndOfStream
            } else {
                peer matches Ok(None)
            },
            Ok(Some(first)) => if first.frame_type != FrameType::LinkHello || first.channel
                != Channel::Control {
                peer matches Err(told) && told@ == TransportFault::ExpectedLinkHello
            } else {
                match proto::read_hello(first.payload) {
                    None => peer matches Err(told) && told@ == TransportFault::Protobuf,
                    Some(hello) => if hello.protocol_version != 1 {
                        peer matches Err(told) && told@
                            == TransportFault::UnsupportedProtocolVersion(hello.protocol_version)
                    } else if hello.node_id.len() != 32 {
                        peer matches Err(told) && told@ == TransportFault::InvalidNodeIdLength(
                            hello.node_id.len() as usize,
                        )
                    } else {
                        peer matches Ok(Some(node)) && node.bytes() == hello.node_id
                    },
                }
            },
        },
{
    if let Ok(Some(first)) = frame::parse_frame(buffer::buffered(*old(buffered))) {
        if let Some(hello) = proto::read_hello(first.payload) {
            if hello.node_id.len() == 32 {
                NodeId::bytes_of(hello.node_id);
            }
        }
    }
}

/// A worker that is told to send a frame writes its bytes and then tells of it,
/// if the frame is no larger than a mebibyte, and stops if it is. What had come
/// from the far end stays.
pub proof fn frames_are_sent(
    link: LinkId,
    buffered: &mut BytesMut,
    input: WorkerInput,
    step: WorkerStep,
    frame: WireView,
)
    requires
        call_ensures(transport::link_step, (link, buffered, input), step),
        input@ == WorkerInputView::Command(Some(CommandView::Send(frame))),
    ensures
        buffer::buffered(*final(buffered)) == buffer::buffered(*old(buffered)),
        if frame.payload.len() <= 1_048_576 {
            &&& step@ matches WorkerStepView::Write { bytes, sent }
            &&& layout::are_frame(bytes, frame)
            &&& sent == LinkEventView::Sent {
                link,
                frame_type: frame.frame_type,
                channel: frame.channel,
                payload_bytes: frame.payload.len() as usize,
            }
        } else {
            step@ is Stop
        },
{
    if frame.payload.len() <= 1_048_576 {
        layout::frames_have_their_bytes(frame);
    }
}

/// Whenever a worker goes on, it delivers the frame that has come first, as soon
/// as it is whole, waits where none is whole, and stops at what is no frame.
pub proof fn frames_are_delivered(
    link: LinkId,
    buffered: &mut BytesMut,
    input: WorkerInput,
    step: WorkerStep,
)
    requires
        call_ensures(transport::link_step, (link, buffered, input), step),
        input@ is Ready || input@ == WorkerInputView::Shutdown(Some(false)) || (
        input@ matches WorkerInputView::Read(Some(count)) && count > 0),
    ensures
        match frame::parse_frame(buffer::buffered(*old(buffered))) {
            Ok(Some(frame)) => {
                &&& step@ == WorkerStepView::Deliver(LinkEventView::Frame { link, frame })
                &&& buffer::buffered(*old(buffered)) == frame::frame_bytes(frame)
                    + buffer::buffered(*final(buffered))
            },
            Ok(None) => step@ is Wait && buffer::buffered(*final(buffered)) == buffer::buffered(
                *old(buffered),
            ),
            Err(_) => step@ is Stop,
        },
{
    let bytes = buffer::buffered(*old(buffered));
    if let Ok(Some(frame)) = frame::parse_frame(bytes) {
        frame::read_frames_are_written_back(bytes);
    }
}

/// A worker ends when it is told to close or will not be told anything more,
/// when its far end sends no more or cannot be read or written, when nobody
/// takes its events, and when the endpoint shuts down or is gone. A frame that
/// was written is told.
pub proof fn workers_end(
    link: LinkId,
    buffered: &mut BytesMut,
    input: WorkerInput,
    step: WorkerStep,
)
    requires
        call_ensures(transport::link_step, (link, buffered, input), step),
    ensures
        match input@ {
            WorkerInputView::Command(None) => step@ is Stop,
            WorkerInputView::Command(Some(CommandView::Close)) => step@ is Stop,
            WorkerInputView::WriteFailed => step@ is Stop,
            WorkerInputView::EventRefused => step@ is Stop,
            WorkerInputView::Read(None) => step@ is Stop,
            WorkerInputView::Read(Some(count)) => count == 0 ==> step@ is Stop,
            WorkerInputView::Shutdown(None) => step@ is Stop,
            WorkerInputView::Shutdown(Some(ends)) => ends ==> step@ is Stop,
            WorkerInputView::Written { sent } => step@ == WorkerStepView::Deliver(sent),
            _ => true,
        },
{
}

/// A registry tells whose it is and how many links it has. An identity is read
/// from thirty-two bytes, and from no other number of them.
pub proof fn registries_tell_what_they_have(
    registry: &LinkRegistry,
    me: NodeId,
    count: usize,
    bytes: &[u8],
    id: Result<NodeId, TransportError>,
)
    requires
        registry.wf(),
        call_ensures(LinkRegistry::local_node, (registry,), me),
        call_ensures(LinkRegistry::link_count, (registry,), count),
        call_ensures(transport::node_id_from_bytes, (bytes,), id),
    ensures
        me == registry@.local_node,
        count == registry@.links.dom().len(),
        id is Ok <==> bytes@.len() == 32,
        id matches Ok(node) ==> node.bytes() == bytes@,
        id matches Err(error) ==> error@ == TransportFault::InvalidNodeIdLength(
            bytes@.len() as usize,
        ),
{
    if bytes@.len() == 32 {
        NodeId::bytes_of(bytes@);
    }
}

} // verus!
