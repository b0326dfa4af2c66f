//! Control messages and packets in wire frames.

use bytes::Bytes;
use vstd::prelude::*;
use crate::buffer;
use crate::buffer::MAX_BUFFERED;
use crate::control::cost::{Adjacency, LinkCost};
use crate::control::message;
use crate::control::message::{ControlFrame, DigestEntry, FrameView, Lsa, LsaMessage, LsaView};
use crate::control::message::MessageView;
use crate::control::model::{MAX_DIGEST_ENTRIES, MAX_DIGEST_REQ_ORIGINS, MAX_LSA_ADJACENCIES};
use crate::control::model::MAX_LSA_TTL_SEC;
use crate::protobuf;
use crate::protobuf::fields;
use crate::runtime::error::{RuntimeError, RuntimeFault};
use crate::types::NodeId;
use crate::wire::frame::{Channel, FrameType, WireFrame, WireView};
use crate::wire::packet;
use crate::wire::packet::{ForwardPacket, ForwardPacketCodec, PacketView, Priority};
use crate::wire::proto;

verus! {

/// There are more elements than allowed.
pub open spec fn too_many(field: Seq<char>, count: nat, limit: usize) -> RuntimeFault {
    RuntimeFault::TooManyElements { field, count: count as usize, limit }
}

/// Refuses more elements than allowed.
fn ensure_limit(field: &'static str, count: usize, limit: usize) -> (checked: Result<
    (),
    RuntimeError,
>)
    ensures
        match checked {
            Ok(_) => count <= limit,
            Err(error) => count > limit && error@ == too_many(field@, count as nat, limit),
        },
{
    if count > limit {
        Err(RuntimeError::TooManyElements { field, count, limit })
    } else {
        Ok(())
    }
}

/// The bytes of an identity.
fn id_bytes(id: &NodeId) -> (bytes: Bytes)
    ensures
        buffer::octets(bytes) == id.bytes(),
{
    buffer::to_bytes(vstd::slice::slice_to_vec(id.as_bytes().as_slice()))
}

/// The identity that bytes are.
pub open spec fn id_of(bytes: Seq<u8>) -> Result<NodeId, RuntimeFault> {
    if bytes.len() != 32 {
        Err(RuntimeFault::InvalidNodeIdLength(bytes.len() as usize))
    } else {
        Ok(NodeId::of(bytes))
    }
}

/// The identity that bytes are.
fn decode_node_id(bytes: &Bytes) -> (id: Result<NodeId, RuntimeError>)
    ensures
        match id {
            Ok(node) => id_of(buffer::octets(*bytes)) == Ok::<NodeId, RuntimeFault>(node),
            Err(error) => id_of(buffer::octets(*bytes)) == Err::<NodeId, RuntimeFault>(error@),
        },
{
    let octets = buffer::as_octets(bytes);
    if octets.len() != 32 {
        return Err(RuntimeError::InvalidNodeIdLength(octets.len()));
    }
    assert(octets@.subrange(0, 32) =~= octets@);
    Ok(NodeId::read(octets, 0))
}

/// An edge as a message.
pub open spec fn wire_adjacency(adjacency: Adjacency) -> proto::AdjacencyView {
    proto::AdjacencyView {
        peer: adjacency.peer.bytes(),
        cost: adjacency.cost.value() as u32,
    }
}

/// An announcement as a message.
pub open spec fn wire_lsa(lsa: LsaView) -> proto::LsaView {
    proto::LsaView {
        origin: lsa.origin.bytes(),
        seq: lsa.seq,
        ttl_sec: lsa.ttl_sec,
        adjacencies: lsa.adjacencies.map_values(
            |adjacency: Adjacency| wire_adjacency(adjacency),
        ),
        epoch: lsa.epoch,
    }
}

/// Writes an announcement.
pub fn encode_lsa(lsa: &Lsa) -> (encoded: Bytes)
    requires
        proto::lsa_bytes(wire_lsa(lsa@)).len() <= MAX_BUFFERED,
    ensures
        buffer::octets(encoded) == proto::lsa_bytes(wire_lsa(lsa@)),
{
    let mut adjacencies: Vec<proto::Adjacency> = Vec::new();
    let mut i: usize = 0;
    while i < lsa.adjacencies.len()
        invariant
            i <= lsa.adjacencies@.len(),
            adjacencies@.len() == i,
            forall|k: int|
                0 <= k < i ==> (#[trigger] adjacencies@[k])@ == wire_adjacency(lsa.adjacencies@[k]),
        decreases lsa.adjacencies@.len() - i,
    {
        let adjacency: Adjacency = lsa.adjacencies[i];
        let edge = proto::Adjacency {
            peer: id_bytes(&adjacency.peer),
            cost: adjacency.cost.get() as u32,
        };
        assert(edge@ =~= wire_adjacency(adjacency));
        adjacencies.push(edge);
        i = i + 1;
    }
    let wire = proto::Lsa {
        origin: id_bytes(&lsa.origin),
        seq: lsa.seq,
        ttl_sec: lsa.ttl_sec,
        adjacencies,
        epoch: lsa.epoch,
    };
    assert(wire@ =~= wire_lsa(lsa@)) by {
        assert(wire@.adjacencies =~= wire_lsa(lsa@).adjacencies);
    }
    wire.encode_to_bytes()
}

/// The edge that a message is.
pub open spec fn adjacency_of(wire: proto::AdjacencyView) -> Result<Adjacency, RuntimeFault> {
    match id_of(wire.peer) {
        Err(fault) => Err(fault),
        Ok(peer) => if wire.cost == 0 || wire.cost > u16::MAX {
            Err(RuntimeFault::InvalidLinkCost(wire.cost))
        } else {
            Ok(Adjacency { peer, cost: LinkCost::of(wire.cost as nat) })
        },
    }
}

/// The edges that messages are, or what is wrong with the first that is none.
pub open spec fn adjacencies_of(wires: Seq<proto::AdjacencyView>) -> Result<
    Seq<Adjacency>,
    RuntimeFault,
>
    decreases wires.len(),
{
    if wires.len() == 0 {
        Ok(Seq::empty())
    } else {
        match adjacencies_of(wires.drop_last()) {
            Err(fault) => Err(fault),
            Ok(before) => match adjacency_of(wires.last()) {
                Err(fault) => Err(fault),
                Ok(adjacency) => Ok(before.push(adjacency)),
            },
        }
    }
}

/// The announcement that a message is.
pub open spec fn lsa_of(wire: proto::LsaView) -> Result<LsaView, RuntimeFault> {
    match id_of(wire.origin) {
        Err(fault) => Err(fault),
        Ok(origin) => if !(1 <= wire.ttl_sec <= MAX_LSA_TTL_SEC) {
            Err(RuntimeFault::InvalidLsaTtl(wire.ttl_sec))
        } else if wire.adjacencies.len() > MAX_LSA_ADJACENCIES {
            Err(too_many("Lsa.adjacencies"@, wire.adjacencies.len(), MAX_LSA_ADJACENCIES))
        } else {
            match adjacencies_of(wire.adjacencies) {
                Err(fault) => Err(fault),
                Ok(adjacencies) => Ok(
                    LsaView {
                        origin,
                        epoch: wire.epoch,
                        seq: wire.seq,
                        ttl_sec: wire.ttl_sec,
                        adjacencies,
                    },
                ),
            }
        },
    }
}

/// An error in a part is one in the whole.
proof fn adjacency_faults_persist(wires: Seq<proto::AdjacencyView>, i: int)
    requires
        0 <= i <= wires.len(),
        adjacencies_of(wires.take(i)) is Err,
    ensures
        adjacencies_of(wires) == adjacencies_of(wires.take(i)),
    decreases wires.len() - i,
{
    if i == wires.len() {
        assert(wires.take(i) =~= wires);
    } else {
        assert(wires.take(i + 1).drop_last() =~= wires.take(i));
        adjacency_faults_persist(wires, i + 1);
    }
}

/// Reads an edge.
fn decode_adjacency(wire: &proto::Adjacency) -> (adjacency: Result<Adjacency, RuntimeError>)
    ensures
        match adjacency {
            Ok(a) => adjacency_of(wire@) == Ok::<Adjacency, RuntimeFault>(a),
            Err(error) => adjacency_of(wire@) == Err::<Adjacency, RuntimeFault>(error@),
        },
{
    let peer = match decode_node_id(&wire.peer) {
        Ok(peer) => peer,
        Err(error) => {
            return Err(error);
        },
    };
    if wire.cost > u16::MAX as u32 {
        return Err(RuntimeError::InvalidLinkCost(wire.cost));
    }
    match LinkCost::new(wire.cost as u16) {
        Ok(cost) => {
            proof {
                cost.of_own_value();
            }
            Ok(Adjacency { peer, cost })
        },
        Err(_) => Err(RuntimeError::InvalidLinkCost(wire.cost)),
    }
}

/// Reads an announcement.
fn decode_lsa(wire: &proto::Lsa) -> (lsa: Result<Lsa, RuntimeError>)
    ensures
        match lsa {
            Ok(l) => lsa_of(wire@) == Ok::<LsaView, RuntimeFault>(l@),
            Err(error) => lsa_of(wire@) == Err::<LsaView, RuntimeFault>(error@),
        },
{
    let origin = match decode_node_id(&wire.origin) {
        Ok(origin) => origin,
        Err(error) => {
            return Err(error);
        },
    };
    if !(1 <= wire.ttl_sec && wire.ttl_sec <= MAX_LSA_TTL_SEC) {
        return Err(RuntimeError::InvalidLsaTtl(wire.ttl_sec));
    }
    match ensure_limit("Lsa.adjacencies", wire.adjacencies.len(), MAX_LSA_ADJACENCIES) {
        Ok(_) => {},
        Err(error) => {
            return Err(error);
        },
    }
    let ghost wires = wire@.adjacencies;
    let mut adjacencies: Vec<Adjacency> = Vec::new();
    let mut i: usize = 0;
    assert(adjacencies@ =~= Seq::<Adjacency>::empty());
    while i < wire.adjacencies.len()
        invariant
            i <= wire.adjacencies@.len(),
            wires == wire@.adjacencies,
            wires.len() == wire.adjacencies@.len(),
            wires.len() <= MAX_LSA_ADJACENCIES,
            id_of(wire@.origin) == Ok::<NodeId, RuntimeFault>(origin),
            1 <= wire.ttl_sec <= MAX_LSA_TTL_SEC,
            adjacencies_of(wires.take(i as int)) == Ok::<Seq<Adjacency>, RuntimeFault>(
                adjacencies@,
            ),
        decreases wire.adjacencies@.len() - i,
    {
        proof {
            let next = wires.take(i + 1);
            assert(next.drop_last() =~= wires.take(i as int));
            assert(next.last() == wire.adjacencies@[i as int]@);
        }
        match decode_adjacency(&wire.adjacencies[i]) {
            Ok(adjacency) => {
                adjacencies.push(adjacency);
            },
            Err(error) => {
                proof {
                    adjacency_faults_persist(wires, i + 1);
                }
                return Err(error);
            },
        }
        i = i + 1;
    }
    assert(wires.take(i as int) =~= wires);
    Ok(Lsa { origin, epoch: wire.epoch, seq: wire.seq, ttl_sec: wire.ttl_sec, adjacencies })
}

/// A digest entry as a message.
pub open spec fn wire_entry(entry: DigestEntry) -> proto::EntryView {
    proto::EntryView { origin: entry.origin.bytes(), epoch: entry.epoch, seq: entry.seq }
}

/// Digest entries as messages.
pub open spec fn wire_entries(entries: Seq<DigestEntry>) -> Seq<proto::EntryView> {
    entries.map_values(|entry: DigestEntry| wire_entry(entry))
}

/// The digest entry that a message is.
pub open spec fn entry_of(wire: proto::EntryView) -> Result<DigestEntry, RuntimeFault> {
    match id_of(wire.origin) {
        Err(fault) => Err(fault),
        Ok(origin) => Ok(DigestEntry { origin, epoch: wire.epoch, seq: wire.seq }),
    }
}

/// The digest entries that messages are, or what is wrong with the first that
/// is none.
pub open spec fn entries_of(wires: Seq<proto::EntryView>) -> Result<Seq<DigestEntry>, RuntimeFault>
    decreases wires.len(),
{
    if wires.len() == 0 {
        Ok(Seq::empty())
    } else {
        match entries_of(wires.drop_last()) {
            Err(fault) => Err(fault),
            Ok(before) => match entry_of(wires.last()) {
                Err(fault) => Err(fault),
                Ok(entry) => Ok(before.push(entry)),
            },
        }
    }
}

/// The identities that bytes are, or what is wrong with the first that is
/// none.
pub open spec fn ids_of(parts: Seq<Seq<u8>>) -> Result<Seq<NodeId>, RuntimeFault>
    decreases parts.len(),
{
    if parts.len() == 0 {
        Ok(Seq::empty())
    } else {
        match ids_of(parts.drop_last()) {
            Err(fault) => Err(fault),
            Ok(before) => match id_of(parts.last()) {
                Err(fault) => Err(fault),
                Ok(id) => Ok(before.push(id)),
            },
        }
    }
}

/// The bytes of identities.
pub open spec fn wire_ids(ids: Seq<NodeId>) -> Seq<Seq<u8>> {
    ids.map_values(|id: NodeId| id.bytes())
}

/// An error in a part is one in the whole.
proof fn entry_faults_persist(wires: Seq<proto::EntryView>, i: int)
    requires
        0 <= i <= wires.len(),
        entries_of(wires.take(i)) is Err,
    ensures
        entries_of(wires) == entries_of(wires.take(i)),
    decreases wires.len() - i,
{
    if i == wires.len() {
        assert(wires.take(i) =~= wires);
    } else {
        assert(wires.take(i + 1).drop_last() =~= wires.take(i));
        entry_faults_persist(wires, i + 1);
    }
}

/// An error in a part is one in the whole.
proof fn id_faults_persist(parts: Seq<Seq<u8>>, i: int)
    requires
        0 <= i <= parts.len(),
        ids_of(parts.take(i)) is Err,
    ensures
        ids_of(parts) == ids_of(parts.take(i)),
    decreases parts.len() - i,
{
    if i == parts.len() {
        assert(parts.take(i) =~= parts);
    } else {
        assert(parts.take(i + 1).drop_last() =~= parts.take(i));
        id_faults_persist(parts, i + 1);
    }
}

/// Reads digest entries.
fn decode_entries(wires: &Vec<proto::DigestEntry>) -> (entries: Result<
    Vec<DigestEntry>,
    RuntimeError,
>)
    ensures
        match entries {
            Ok(list) => entries_of(proto::entry_views(wires@)) == Ok::<
                Seq<DigestEntry>,
                RuntimeFault,
            >(list@),
            Err(error) => entries_of(proto::entry_views(wires@)) == Err::<
                Seq<DigestEntry>,
                RuntimeFault,
            >(error@),
        },
{
    let ghost views = proto::entry_views(wires@);
    let mut entries: Vec<DigestEntry> = Vec::new();
    let mut i: usize = 0;
    assert(entries@ =~= Seq::<DigestEntry>::empty());
    while i < wires.len()
        invariant
            i <= wires@.len(),
            views == proto::entry_views(wires@),
            entries_of(views.take(i as int)) == Ok::<Seq<DigestEntry>, RuntimeFault>(entries@),
        decreases wires@.len() - i,
    {
        proof {
            let next = views.take(i + 1);
            assert(next.drop_last() =~= views.take(i as int));
            assert(next.last() == wires@[i as int]@);
        }
        match decode_node_id(&wires[i].origin) {
            Ok(origin) => {
                entries.push(DigestEntry { origin, epoch: wires[i].epoch, seq: wires[i].seq });
            },
            Err(error) => {
                proof {
                    entry_faults_persist(views, i + 1);
                }
                return Err(error);
            },
        }
        i = i + 1;
    }
    assert(views.take(i as int) =~= views);
    Ok(entries)
}

/// Reads identities.
fn decode_ids(parts: &Vec<Bytes>) -> (ids: Result<Vec<NodeId>, RuntimeError>)
    ensures
        match ids {
            Ok(list) => ids_of(fields::contents(parts@)) == Ok::<Seq<NodeId>, RuntimeFault>(list@),
            Err(error) => ids_of(fields::contents(parts@)) == Err::<Seq<NodeId>, RuntimeFault>(
                error@,
            ),
        },
{
    let ghost views = fields::contents(parts@);
    let mut ids: Vec<NodeId> = Vec::new();
    let mut i: usize = 0;
    assert(ids@ =~= Seq::<NodeId>::empty());
    while i < parts.len()
        invariant
            i <= parts@.len(),
            views == fields::contents(parts@),
            ids_of(views.take(i as int)) == Ok::<Seq<NodeId>, RuntimeFault>(ids@),
        decreases parts@.len() - i,
    {
        proof {
            let next = views.take(i + 1);
            assert(next.drop_last() =~= views.take(i as int));
            assert(next.last() == buffer::octets(parts@[i as int]));
        }
        match decode_node_id(&parts[i]) {
            Ok(id) => {
                ids.push(id);
            },
            Err(error) => {
                proof {
                    id_faults_persist(views, i + 1);
                }
                return Err(error);
            },
        }
        i = i + 1;
    }
    assert(views.take(i as int) =~= views);
    Ok(ids)
}

/// A frame on the control channel.
pub open spec fn on_control(frame_type: FrameType, payload: Seq<u8>) -> WireView {
    WireView { frame_type, channel: Channel::Control, payload }
}

/// The signed form of a message. An announcement that came from elsewhere
/// keeps the bytes that its origin wrote.
pub open spec fn wire_message(message: MessageView) -> proto::SignedView {
    proto::SignedView {
        lsa_bytes: if message.canonical_bytes.len() == 0 {
            proto::lsa_bytes(wire_lsa(message.lsa))
        } else {
            message.canonical_bytes
        },
        signature: message.signature,
    }
}

/// The wire frame of a control message, or why there is none.
pub open spec fn control_wire(frame: FrameView) -> Result<WireView, RuntimeFault> {
    match frame {
        FrameView::Lsa(message) => if !(1 <= message.lsa.ttl_sec <= MAX_LSA_TTL_SEC) {
            Err(RuntimeFault::InvalidLsaTtl(message.lsa.ttl_sec))
        } else if message.lsa.adjacencies.len() > MAX_LSA_ADJACENCIES {
            Err(
                too_many("Lsa.adjacencies"@, message.lsa.adjacencies.len(), MAX_LSA_ADJACENCIES),
            )
        } else {
            Ok(on_control(FrameType::Lsa, proto::signed_bytes(wire_message(message))))
        },
        FrameView::Digest(entries) => if entries.len() > MAX_DIGEST_ENTRIES {
            Err(too_many("Digest.entries"@, entries.len(), MAX_DIGEST_ENTRIES))
        } else {
            Ok(on_control(FrameType::Digest, proto::digest_bytes(wire_entries(entries))))
        },
        FrameView::DigestReq(origins) => if origins.len() > MAX_DIGEST_REQ_ORIGINS {
            Err(too_many("DigestReq.origins"@, origins.len(), MAX_DIGEST_REQ_ORIGINS))
        } else {
            Ok(on_control(FrameType::DigestReq, proto::request_bytes(wire_ids(origins))))
        },
    }
}

/// An announcement with few edges takes few bytes.
pub proof fn own_lsas_are_short(lsa: LsaView)
    requires
        lsa.adjacencies.len() <= MAX_LSA_ADJACENCIES,
    ensures
        proto::lsa_bytes(wire_lsa(lsa)).len() <= 30_000,
{
    let wire = wire_lsa(lsa);
    lsa.origin.bytes_len();
    assert forall|i: int| 0 <= i < wire.adjacencies.len() implies (
    #[trigger] wire.adjacencies[i]).peer.len() <= 32 by {
        lsa.adjacencies[i].peer.bytes_len();
    }
    proto::lsa_len_is_bounded(wire, 32);
    assert(wire.adjacencies.len() * 92 <= 256 * 92);
}

/// Digests and requests within their bounds take few bytes.
pub proof fn summaries_are_short(entries: Seq<DigestEntry>, origins: Seq<NodeId>)
    requires
        entries.len() <= MAX_DIGEST_ENTRIES,
        origins.len() <= MAX_DIGEST_REQ_ORIGINS,
    ensures
        proto::digest_bytes(wire_entries(entries)).len() <= 112_000,
        proto::request_bytes(wire_ids(origins)).len() <= 52_000,
{
    let wires = wire_entries(entries);
    assert forall|i: int| 0 <= i < wires.len() implies (#[trigger] wires[i]).origin.len() <= 32 by {
        entries[i].origin.bytes_len();
    }
    proto::digest_len_is_bounded(wires, 32);
    let parts = wire_ids(origins);
    assert forall|i: int| 0 <= i < parts.len() implies (#[trigger] parts[i]).len() <= 32 by {
        origins[i].bytes_len();
    }
    proto::request_len_is_bounded(parts, 32);
    assert(wires.len() * 112 <= 1000 * 112);
    assert(parts.len() * 52 <= 1000 * 52);
}

/// Puts a control message into a wire frame.
pub fn encode_control_frame(frame: &ControlFrame) -> (wire: Result<WireFrame, RuntimeError>)
    requires
        control_wire(frame@) matches Ok(w) ==> w.payload.len() <= MAX_BUFFERED,
    ensures
        match wire {
            Ok(w) => control_wire(frame@) == Ok::<WireView, RuntimeFault>(w@),
            Err(error) => control_wire(frame@) == Err::<WireView, RuntimeFault>(error@),
        },
{
    match frame {
        ControlFrame::Lsa(message) => {
            if !(1 <= message.lsa.ttl_sec && message.lsa.ttl_sec <= MAX_LSA_TTL_SEC) {
                return Err(RuntimeError::InvalidLsaTtl(message.lsa.ttl_sec));
            }
            match ensure_limit(
                "Lsa.adjacencies",
                message.lsa.adjacencies.len(),
                MAX_LSA_ADJACENCIES,
            ) {
                Ok(_) => {},
                Err(error) => {
                    return Err(error);
                },
            }
            let signed = signed_lsa(message);
            Ok(WireFrame::control(FrameType::Lsa, signed.encode_to_bytes()))
        },
        ControlFrame::Digest(entries) => {
            match ensure_limit("Digest.entries", entries.len(), MAX_DIGEST_ENTRIES) {
                Ok(_) => {},
                Err(error) => {
                    return Err(error);
                },
            }
            let mut wires: Vec<proto::DigestEntry> = Vec::new();
            let mut i: usize = 0;
            while i < entries.len()
                invariant
                    i <= entries@.len(),
                    wires@.len() == i,
                    forall|k: int|
                        0 <= k < i ==> (#[trigger] wires@[k])@ == wire_entry(entries@[k]),
                decreases entries@.len() - i,
            {
                let entry: DigestEntry = entries[i];
                let wire = proto::DigestEntry {
                    origin: id_bytes(&entry.origin),
                    epoch: entry.epoch,
                    seq: entry.seq,
                };
                assert(wire@ =~= wire_entry(entry));
                wires.push(wire);
                i = i + 1;
            }
            let digest = proto::Digest { entries: wires };
            assert(digest@ =~= wire_entries(entries@));
            Ok(WireFrame::control(FrameType::Digest, digest.encode_to_bytes()))
        },
        ControlFrame::DigestReq(origins) => {
            match ensure_limit("DigestReq.origins", origins.len(), MAX_DIGEST_REQ_ORIGINS) {
                Ok(_) => {},
                Err(error) => {
                    return Err(error);
                },
            }
            let mut parts: Vec<Bytes> = Vec::new();
            let mut i: usize = 0;
            while i < origins.len()
                invariant
                    i <= origins@.len(),
                    parts@.len() == i,
                    forall|k: int|
                        0 <= k < i ==> buffer::octets(#[trigger] parts@[k]) == origins@[k].bytes(),
                decreases origins@.len() - i,
            {
                parts.push(id_bytes(&origins[i]));
                i = i + 1;
            }
            let request = proto::DigestReq { origins: parts };
            assert(request@ =~= wire_ids(origins@));
            Ok(WireFrame::control(FrameType::DigestReq, request.encode_to_bytes()))
        },
    }
}

/// The signed form of an announcement within its bounds.
fn signed_lsa(message: &LsaMessage) -> (signed: proto::SignedLsa)
    requires
        message.lsa.adjacencies@.len() <= MAX_LSA_ADJACENCIES,
    ensures
        signed@ == wire_message(message@),
{
    let lsa_bytes = if message.canonical_bytes.len() == 0 {
        proof {
            own_lsas_are_short(message.lsa@);
        }
        encode_lsa(&message.lsa)
    } else {
        buffer::to_bytes(vstd::slice::slice_to_vec(&message.canonical_bytes))
    };
    let signed = proto::SignedLsa {
        lsa_bytes,
        signature: buffer::to_bytes(vstd::slice::slice_to_vec(&message.signature)),
    };
    assert(signed@ =~= wire_message(message@));
    signed
}

/// The wire frame of a control message, where there is one and it can be held
/// in memory.
pub open spec fn sendable(frame: FrameView) -> Option<WireView> {
    match control_wire(frame) {
        Ok(wire) => if wire.payload.len() <= MAX_BUFFERED {
            Some(wire)
        } else {
            None
        },
        Err(_) => None,
    }
}

/// Puts a control message into a wire frame, where it has one.
pub fn to_wire(frame: &ControlFrame) -> (wire: Option<WireFrame>)
    ensures
        match wire {
            Some(w) => sendable(frame@) == Some(w@),
            None => sendable(frame@) is None,
        },
{
    match frame {
        ControlFrame::Lsa(message) => {
            if message.lsa.adjacencies.len() <= MAX_LSA_ADJACENCIES {
                let signed = signed_lsa(message);
                let lsa_len: usize = buffer::as_octets(&signed.lsa_bytes).len();
                let signature_len: usize = buffer::as_octets(&signed.signature).len();
                let len: u128 = fields::bytes_field_len(lsa_len) + fields::bytes_field_len(
                    signature_len,
                );
                proof {
                    let a = fields::bytes(1, signed@.lsa_bytes);
                    let b = fields::bytes(2, signed@.signature);
                    fields::fields_bytes_add(a, b);
                    assert(proto::signed_bytes(signed@).len() == len);
                }
                if len > MAX_BUFFERED as u128 {
                    return None;
                }
            }
        },
        ControlFrame::Digest(entries) => {
            proof {
                if entries@.len() <= MAX_DIGEST_ENTRIES {
                    summaries_are_short(entries@, Seq::empty());
                }
            }
        },
        ControlFrame::DigestReq(origins) => {
            proof {
                if origins@.len() <= MAX_DIGEST_REQ_ORIGINS {
                    summaries_are_short(Seq::empty(), origins@);
                }
            }
        },
    }
    match encode_control_frame(frame) {
        Ok(wire) => Some(wire),
        Err(_) => None,
    }
}

/// The control message of a wire frame, or why there is none.
pub open spec fn control_read(frame: WireView) -> Result<FrameView, RuntimeFault> {
    if frame.channel != Channel::Control {
        Err(
            RuntimeFault::UnexpectedFrame {
                frame_type: frame.frame_type,
                channel: frame.channel,
            },
        )
    } else {
        match frame.frame_type {
            FrameType::Lsa => match proto::read_signed(frame.payload) {
                None => Err(RuntimeFault::Protobuf),
                Some(signed) => match proto::read_lsa(signed.lsa_bytes) {
                    None => Err(RuntimeFault::Protobuf),
                    Some(wire) => match lsa_of(wire) {
                        Err(fault) => Err(fault),
                        Ok(lsa) => Ok(
                            FrameView::Lsa(
                                MessageView {
                                    lsa,
                                    canonical_bytes: signed.lsa_bytes,
                                    signature: signed.signature,
                                },
                            ),
                        ),
                    },
                },
            },
            FrameType::Digest => match proto::read_digest(frame.payload) {
                None => Err(RuntimeFault::Protobuf),
                Some(wires) => if wires.len() > MAX_DIGEST_ENTRIES {
                    Err(too_many("Digest.entries"@, wires.len(), MAX_DIGEST_ENTRIES))
                } else {
                    match entries_of(wires) {
                        Err(fault) => Err(fault),
                        Ok(entries) => Ok(FrameView::Digest(entries)),
                    }
                },
            },
            FrameType::DigestReq => match proto::read_request(frame.payload) {
                None => Err(RuntimeFault::Protobuf),
                Some(parts) => if parts.len() > MAX_DIGEST_REQ_ORIGINS {
                    Err(too_many("DigestReq.origins"@, parts.len(), MAX_DIGEST_REQ_ORIGINS))
                } else {
                    match ids_of(parts) {
                        Err(fault) => Err(fault),
                        Ok(origins) => Ok(FrameView::DigestReq(origins)),
                    }
                },
            },
            _ => Err(
                RuntimeFault::UnexpectedFrame {
                    frame_type: frame.frame_type,
                    channel: frame.channel,
                },
            ),
        }
    }
}

/// Takes a control message out of a wire frame.
pub fn decode_control_frame(frame: WireFrame) -> (control: Result<ControlFrame, RuntimeError>)
    ensures
        match control {
            Ok(c) => control_read(frame@) == Ok::<FrameView, RuntimeFault>(c@),
            Err(error) => control_read(frame@) == Err::<FrameView, RuntimeFault>(error@),
        },
{
    if frame.channel != Channel::Control {
        return Err(
            RuntimeError::UnexpectedFrame {
                frame_type: frame.frame_type,
                channel: frame.channel,
            },
        );
    }
    match frame.frame_type {
        FrameType::Lsa => {
            let signed = match proto::SignedLsa::decode(frame.payload) {
                Ok(signed) => signed,
                Err(error) => {
                    return Err(RuntimeError::Protobuf(protobuf::description(&error)));
                },
            };
            let wire = match proto::Lsa::decode(buffer::share(&signed.lsa_bytes)) {
                Ok(wire) => wire,
                Err(error) => {
                    return Err(RuntimeError::Protobuf(protobuf::description(&error)));
                },
            };
            let lsa = match decode_lsa(&wire) {
                Ok(lsa) => lsa,
                Err(error) => {
                    return Err(error);
                },
            };
            let canonical_bytes = message::share_bytes(
                vstd::slice::slice_to_vec(buffer::as_octets(&signed.lsa_bytes)),
            );
            let signature = message::share_bytes(
                vstd::slice::slice_to_vec(buffer::as_octets(&signed.signature)),
            );
            Ok(ControlFrame::Lsa(LsaMessage { lsa, canonical_bytes, signature }))
        },
        FrameType::Digest => {
            let digest = match proto::Digest::decode(frame.payload) {
                Ok(digest) => digest,
                Err(error) => {
                    return Err(RuntimeError::Protobuf(protobuf::description(&error)));
                },
            };
            match ensure_limit("Digest.entries", digest.entries.len(), MAX_DIGEST_ENTRIES) {
                Ok(_) => {},
                Err(error) => {
                    return Err(error);
                },
            }
            match decode_entries(&digest.entries) {
                Ok(entries) => Ok(ControlFrame::Digest(entries)),
                Err(error) => Err(error),
            }
        },
        FrameType::DigestReq => {
            let request = match proto::DigestReq::decode(frame.payload) {
                Ok(request) => request,
                Err(error) => {
                    return Err(RuntimeError::Protobuf(protobuf::description(&error)));
                },
            };
            match ensure_limit(
                "DigestReq.origins",
                request.origins.len(),
                MAX_DIGEST_REQ_ORIGINS,
            ) {
                Ok(_) => {},
                Err(error) => {
                    return Err(error);
                },
            }
            match decode_ids(&request.origins) {
                Ok(origins) => Ok(ControlFrame::DigestReq(origins)),
                Err(error) => Err(error),
            }
        },
        _ => Err(
            RuntimeError::UnexpectedFrame {
                frame_type: frame.frame_type,
                channel: frame.channel,
            },
        ),
    }
}

/// The channel on which packets of a priority travel.
pub open spec fn spec_channel_for_priority(priority: Priority) -> Channel {
    match priority {
        Priority::P0 => Channel::PubSubP0,
        Priority::P1 => Channel::PubSubP1,
        Priority::P2 => Channel::PubSubP2,
        Priority::P3 => Channel::PubSubP3,
    }
}

/// The channel on which packets of a priority travel.
#[verifier::when_used_as_spec(spec_channel_for_priority)]
pub fn channel_for_priority(priority: Priority) -> (channel: Channel)
    ensures
        channel == spec_channel_for_priority(priority),
{
    match priority {
        Priority::P0 => Channel::PubSubP0,
        Priority::P1 => Channel::PubSubP1,
        Priority::P2 => Channel::PubSubP2,
        Priority::P3 => Channel::PubSubP3,
    }
}

/// The wire frame of a packet.
pub open spec fn forward_wire(packet: PacketView) -> WireView {
    WireView {
        frame_type: FrameType::Forward,
        channel: channel_for_priority(packet.header.priority),
        payload: packet::packet_bytes(packet),
    }
}

/// Puts a packet into a wire frame.
pub fn encode_forward_frame(packet: &ForwardPacket) -> (wire: Result<WireFrame, RuntimeError>)
    ensures
        match wire {
            Ok(w) => packet::is_writable(packet@) && w@ == forward_wire(packet@),
            Err(error) => {
                &&& !packet::is_writable(packet@)
                &&& error@ == RuntimeFault::ForwardPacket(
                    packet::ForwardPacketError::PayloadTooLarge(packet@.payload.len() as usize),
                )
            },
        },
{
    match ForwardPacketCodec::encode(packet) {
        Ok(payload) => Ok(
            WireFrame {
                frame_type: FrameType::Forward,
                channel: channel_for_priority(packet.header.priority),
                payload,
            },
        ),
        Err(error) => Err(RuntimeError::ForwardPacket(error)),
    }
}

/// The packet of a wire frame, or why there is none.
pub open spec fn forward_read(frame: WireView) -> Result<PacketView, RuntimeFault> {
    if frame.frame_type != FrameType::Forward {
        Err(
            RuntimeFault::UnexpectedFrame {
                frame_type: frame.frame_type,
                channel: frame.channel,
            },
        )
    } else {
        match packet::parse_packet(frame.payload) {
            Err(error) => Err(RuntimeFault::ForwardPacket(error)),
            Ok(packet) => if frame.channel != channel_for_priority(packet.header.priority) {
                Err(
                    RuntimeFault::UnexpectedFrame {
                        frame_type: FrameType::Forward,
                        channel: frame.channel,
                    },
                )
            } else {
                Ok(packet)
            },
        }
    }
}

/// Takes a packet out of a wire frame.
pub fn decode_forward_frame(frame: WireFrame) -> (packet: Result<ForwardPacket, RuntimeError>)
    ensures
        match packet {
            Ok(p) => forward_read(frame@) == Ok::<PacketView, RuntimeFault>(p@),
            Err(error) => forward_read(frame@) == Err::<PacketView, RuntimeFault>(error@),
        },
{
    if frame.frame_type != FrameType::Forward {
        return Err(
            RuntimeError::UnexpectedFrame {
                frame_type: frame.frame_type,
                channel: frame.channel,
            },
        );
    }
    let channel = frame.channel;
    let packet = match ForwardPacketCodec::decode(frame.payload) {
        Ok(packet) => packet,
        Err(error) => {
            return Err(RuntimeError::ForwardPacket(error));
        },
    };
    if channel != channel_for_priority(packet.header.priority) {
        return Err(RuntimeError::UnexpectedFrame { frame_type: FrameType::Forward, channel });
    }
    Ok(packet)
}

/// The costs of an announcement fit in sixteen bits.
pub open spec fn has_costs(lsa: LsaView) -> bool {
    forall|i: int|
        0 <= i < lsa.adjacencies.len() ==> (#[trigger] lsa.adjacencies[i]).cost.value() <= u16::MAX
}

/// Edges are read back.
proof fn adjacencies_are_read_back(list: Seq<Adjacency>)
    requires
        forall|i: int| 0 <= i < list.len() ==> (#[trigger] list[i]).cost.value() <= u16::MAX,
    ensures
        adjacencies_of(list.map_values(|adjacency: Adjacency| wire_adjacency(adjacency))) == Ok::<
            Seq<Adjacency>,
            RuntimeFault,
        >(list),
    decreases list.len(),
{
    let wires = list.map_values(|adjacency: Adjacency| wire_adjacency(adjacency));
    if list.len() == 0 {
        assert(list =~= Seq::<Adjacency>::empty());
    } else {
        let less = list.drop_last();
        let last = list.last();
        adjacencies_are_read_back(less);
        assert(wires.drop_last() =~= less.map_values(
            |adjacency: Adjacency| wire_adjacency(adjacency),
        ));
        last.peer.bytes_len();
        last.peer.of_own_bytes();
        last.cost.value_is_positive();
        last.cost.of_own_value();
        assert(list[list.len() - 1].cost.value() <= u16::MAX);
        assert(adjacency_of(wires.last()) == Ok::<Adjacency, RuntimeFault>(last));
        assert(less.push(last) =~= list);
    }
}

/// Entries and identities are read back.
proof fn summaries_are_read_back(entries: Seq<DigestEntry>, origins: Seq<NodeId>)
    ensures
        entries_of(wire_entries(entries)) == Ok::<Seq<DigestEntry>, RuntimeFault>(entries),
        ids_of(wire_ids(origins)) == Ok::<Seq<NodeId>, RuntimeFault>(origins),
    decreases entries.len() + origins.len(),
{
    if entries.len() > 0 {
        let less = entries.drop_last();
        let last = entries.last();
        summaries_are_read_back(less, origins);
        assert(wire_entries(entries).drop_last() =~= wire_entries(less));
        last.origin.bytes_len();
        last.origin.of_own_bytes();
        assert(less.push(last) =~= entries);
    } else {
        assert(entries =~= Seq::<DigestEntry>::empty());
        if origins.len() > 0 {
            let less = origins.drop_last();
            let last = origins.last();
            summaries_are_read_back(entries, less);
            assert(wire_ids(origins).drop_last() =~= wire_ids(less));
            last.bytes_len();
            last.of_own_bytes();
            assert(less.push(last) =~= origins);
        } else {
            assert(origins =~= Seq::<NodeId>::empty());
        }
    }
}

/// The bytes of an own announcement are read as that announcement.
pub proof fn written_lsas_are_read_back(lsa: LsaView)
    requires
        has_costs(lsa),
        1 <= lsa.ttl_sec <= MAX_LSA_TTL_SEC,
        lsa.adjacencies.len() <= MAX_LSA_ADJACENCIES,
    ensures
        proto::read_lsa(proto::lsa_bytes(wire_lsa(lsa))) == Some(wire_lsa(lsa)),
        lsa_of(wire_lsa(lsa)) == Ok::<LsaView, RuntimeFault>(lsa),
        proto::lsa_bytes(wire_lsa(lsa)).len() > 0,
{
    let wire = wire_lsa(lsa);
    lsa.origin.bytes_len();
    lsa.origin.of_own_bytes();
    assert forall|i: int| 0 <= i < wire.adjacencies.len() implies (
    #[trigger] wire.adjacencies[i]).peer.len() + 40 <= u64::MAX by {
        lsa.adjacencies[i].peer.bytes_len();
    }
    proto::written_lsas_are_read_back(wire);
    adjacencies_are_read_back(lsa.adjacencies);
    assert(lsa_of(wire)->Ok_0 =~= lsa);
    let all = proto::lsa_fields(wire);
    assert(all.len() > 0);
    assert(fields::fields_bytes(all).len() > 0) by {
        assert(all[0] == fields::bytes(1, wire.origin)[0]);
    }
}

/// A control message in whole: an announcement has the bytes that its origin
/// wrote.
pub open spec fn completed(frame: FrameView) -> FrameView {
    match frame {
        FrameView::Lsa(message) => FrameView::Lsa(
            MessageView { canonical_bytes: wire_message(message).lsa_bytes, ..message },
        ),
        _ => frame,
    }
}

/// Reading gives back what was written: a control message that can be written
/// is read as the same message. An own announcement gains the bytes that it
/// was written as; one that came from elsewhere keeps them.
pub proof fn written_control_frames_are_read_back(frame: FrameView)
    requires
        control_wire(frame) is Ok,
        frame matches FrameView::Lsa(message) ==> {
            &&& message.signature.len() <= u64::MAX
            &&& message.canonical_bytes.len() <= u64::MAX
            &&& if message.canonical_bytes.len() == 0 {
                has_costs(message.lsa)
            } else {
                proto::read_lsa(message.canonical_bytes) matches Some(wire) && lsa_of(wire) == Ok::<
                    LsaView,
                    RuntimeFault,
                >(message.lsa)
            }
        },
    ensures
        control_read(control_wire(frame)->Ok_0) == Ok::<FrameView, RuntimeFault>(completed(frame)),
{
    match frame {
        FrameView::Lsa(message) => {
            if message.canonical_bytes.len() == 0 {
                written_lsas_are_read_back(message.lsa);
                own_lsas_are_short(message.lsa);
            }
            proto::written_signed_lsas_are_read_back(wire_message(message));
        },
        FrameView::Digest(entries) => {
            let wires = wire_entries(entries);
            assert forall|i: int| 0 <= i < wires.len() implies (#[trigger] wires[i]).origin.len()
                + 60 <= u64::MAX by {
                entries[i].origin.bytes_len();
            }
            proto::written_digests_are_read_back(wires);
            summaries_are_read_back(entries, Seq::empty());
        },
        FrameView::DigestReq(origins) => {
            let parts = wire_ids(origins);
            assert forall|i: int| 0 <= i < parts.len() implies (#[trigger] parts[i]).len()
                <= u64::MAX by {
                origins[i].bytes_len();
            }
            proto::written_requests_are_read_back(parts);
            summaries_are_read_back(Seq::empty(), origins);
        },
    }
}

/// An announcement is handed on as its origin wrote it: whatever was read is
/// written with the same bytes and the same signature.
pub proof fn announcements_keep_their_bytes(frame: WireView)
    requires
        frame.frame_type == FrameType::Lsa,
        control_read(frame) is Ok,
        frame.payload.len() <= u64::MAX,
    ensures
        ({
            let message = control_read(frame)->Ok_0->Lsa_0;
            &&& control_read(frame)->Ok_0 is Lsa
            &&& message.canonical_bytes.len() > 0
            &&& control_wire(control_read(frame)->Ok_0) is Ok
            &&& wire_message(message) == proto::SignedView {
                lsa_bytes: message.canonical_bytes,
                signature: message.signature,
            }
            &&& proto::read_signed(frame.payload) == Some(wire_message(message))
        }),
{
    let signed = proto::read_signed(frame.payload)->0;
    let wire = proto::read_lsa(signed.lsa_bytes)->0;
    if signed.lsa_bytes.len() == 0 {
        reveal(fields::parse_fields);
        assert(fields::parse_fields::<proto::Lsa>(false, signed.lsa_bytes) == Some(
            Seq::<fields::FieldView>::empty(),
        ));
        assert(wire.origin.len() == 0);
    }
    adjacencies_len(wire.adjacencies);
}

/// As many edges are read as there are.
proof fn adjacencies_len(wires: Seq<proto::AdjacencyView>)
    ensures
        adjacencies_of(wires) matches Ok(list) ==> list.len() == wires.len(),
    decreases wires.len(),
{
    if wires.len() > 0 {
        adjacencies_len(wires.drop_last());
    }
}

/// Reading gives back what was written.
pub proof fn written_forward_frames_are_read_back(packet: PacketView)
    requires
        packet::is_writable(packet),
    ensures
        forward_read(forward_wire(packet)) == Ok::<PacketView, RuntimeFault>(packet),
{
    packet::written_packets_are_read_back(packet);
}

/// Whatever does not come on the control channel is no control message, and a
/// packet is accepted only on the channel of its priority.
pub proof fn channels_are_kept_apart(frame: WireView)
    ensures
        control_read(frame) is Ok ==> frame.channel == Channel::Control,
        forward_read(frame) matches Ok(packet) ==> frame.channel == channel_for_priority(
            packet.header.priority,
        ),
{
}

} // verus!
