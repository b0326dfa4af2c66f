//! How frames, packets and messages lie on the wire, byte by byte.

use bytes::{Bytes, BytesMut};
use vstd::prelude::*;
use crate::buffer;
use crate::control::cost::{Adjacency, LinkCost};
use crate::control::message::{ControlFrame, DigestEntry, FrameView, Lsa, LsaView};
use crate::protobuf;
use crate::protobuf::fields;
use crate::protobuf::fields::FieldView;
use crate::pubsub::envelope;
use crate::pubsub::envelope::EnvelopeView;
use crate::runtime::codec;
use crate::runtime::error::{RuntimeError, RuntimeFault};
use crate::transport;
use crate::types::NodeId;
use crate::wire::frame;
use crate::wire::frame::{Channel, FrameDecoder, FrameEncoder, FrameError, FrameType, WireFrame};
use crate::wire::frame::WireView;
use crate::wire::packet;
use crate::wire::packet::{ForwardFlags, ForwardPacket, ForwardPacketCodec, ForwardPacketError};
use crate::wire::packet::{PacketType, PacketView, Priority};
use crate::wire::proto;

verus! {

/// The number of a type of frame.
pub open spec fn type_number(frame_type: FrameType) -> int {
    match frame_type {
        FrameType::LinkHello => 1,
        FrameType::Lsa => 2,
        FrameType::Digest => 3,
        FrameType::DigestReq => 4,
        FrameType::Forward => 5,
        FrameType::Circuit => 6,
        FrameType::Credit => 7,
        FrameType::Ping => 8,
    }
}

/// The number of a channel.
pub open spec fn channel_number(channel: Channel) -> int {
    match channel {
        Channel::Control => 0,
        Channel::Rpc => 1,
        Channel::PubSubP0 => 2,
        Channel::PubSubP1 => 3,
        Channel::PubSubP2 => 4,
        Channel::PubSubP3 => 5,
        Channel::Tunnel => 6,
    }
}

/// The number that the four bytes from an index on spell, the most significant
/// first.
pub open spec fn four_at(bytes: Seq<u8>, i: int) -> int {
    0x100_0000 * bytes[i] + 0x1_0000 * bytes[i + 1] + 0x100 * bytes[i + 2] + bytes[i + 3]
}

/// The number that the eight bytes from an index on spell, the most significant
/// first.
pub open spec fn eight_at(bytes: Seq<u8>, i: int) -> int {
    0x1_0000_0000 * four_at(bytes, i) + four_at(bytes, i + 4)
}

/// What bytes spell.
proof fn bytes_spell(bytes: Seq<u8>, i: int)
    requires
        0 <= i,
        i + 4 <= bytes.len(),
    ensures
        buffer::big_endian_value(bytes.subrange(i, i + 4)) == four_at(bytes, i),
        i + 8 <= bytes.len() ==> buffer::big_endian_value(bytes.subrange(i, i + 8)) == eight_at(
            bytes,
            i,
        ),
{
    let four = bytes.subrange(i, i + 4);
    reveal_with_fuel(buffer::big_endian_value, 9);
    assert(four.drop_last().drop_last().drop_last().drop_last().len() == 0);
    if i + 8 <= bytes.len() {
        let eight = bytes.subrange(i, i + 8);
        let b7 = eight.drop_last();
        let b6 = b7.drop_last();
        let b5 = b6.drop_last();
        let b4 = b5.drop_last();
        assert(b4 =~= four);
    }
}

/// The bytes are those of the frame: one with the version and the type, one with
/// the channel, two zeros, four with the length, and the payload.
pub open spec fn are_frame(bytes: Seq<u8>, frame: WireView) -> bool {
    &&& bytes.len() == 8 + frame.payload.len()
    &&& bytes[0] == 16 + type_number(frame.frame_type)
    &&& bytes[1] == channel_number(frame.channel)
    &&& bytes[2] == 0
    &&& bytes[3] == 0
    &&& four_at(bytes, 4) == frame.payload.len()
    &&& bytes.skip(8) == frame.payload
}

/// The bytes of a frame.
pub(crate) proof fn frames_have_their_bytes(frame: WireView)
    requires
        frame.payload.len() <= 1_048_576,
    ensures
        are_frame(frame::frame_bytes(frame), frame),
{
    let bytes = frame::frame_bytes(frame);
    let length = buffer::big_endian(frame.payload.len(), 4);
    buffer::big_endian_len(frame.payload.len(), 4);
    buffer::ranges();
    buffer::big_endian_is_read_back(frame.payload.len(), 4);
    bytes_spell(bytes, 4);
    assert(bytes.subrange(4, 8) =~= length);
    assert(bytes.skip(8) =~= frame.payload);
}

/// A frame is written unless its payload is larger than a mebibyte.
pub proof fn frames_are_written(frame: &WireFrame, written: Result<Bytes, FrameError>)
    requires
        call_ensures(FrameEncoder::encode, (frame,), written),
    ensures
        written is Ok <==> frame@.payload.len() <= 1_048_576,
        written matches Ok(bytes) ==> are_frame(buffer::octets(bytes), frame@),
        written matches Err(error) ==> error == FrameError::PayloadTooLarge(
            frame@.payload.len() as usize,
        ),
{
    if frame@.payload.len() <= 1_048_576 {
        frames_have_their_bytes(frame@);
    }
}

/// Bytes that start with those of a frame are read as that frame, and only
/// those. What follows the frame is left; where no frame is read all is left.
pub proof fn frames_are_read(
    decoder: &mut FrameDecoder,
    source: &mut BytesMut,
    read: Result<Option<WireFrame>, FrameError>,
    frame: WireView,
    head: Seq<u8>,
)
    requires
        call_ensures(FrameDecoder::decode, (decoder, source), read),
    ensures
        ({
            let bytes = buffer::buffered(*old(source));
            let rest = buffer::buffered(*final(source));
            &&& are_frame(head, frame) && frame.payload.len() <= 1_048_576 && bytes == head
                + bytes.skip(head.len() as int) && head.len() <= bytes.len() ==> (read matches Ok(
                Some(found),
            ) && found@ == frame)
            &&& read matches Ok(Some(found)) ==> {
                let n = bytes.len() - rest.len();
                &&& 8 <= n <= bytes.len()
                &&& bytes == bytes.take(n) + rest
                &&& are_frame(bytes.take(n), found@)
                &&& found@.payload.len() <= 1_048_576
            }
            &&& !(read matches Ok(Some(_))) ==> rest == bytes
        }),
{
    let bytes = buffer::buffered(*old(source));
    let rest = buffer::buffered(*final(source));
    if are_frame(head, frame) && frame.payload.len() <= 1_048_576 && bytes == head + bytes.skip(
        head.len() as int,
    ) && head.len() <= bytes.len() {
        frames_have_their_bytes(frame);
        let written = frame::frame_bytes(frame);
        same_bytes(head, written, frame);
        frame::written_frames_are_read_back(frame, bytes.skip(head.len() as int));
    }
    if let Ok(Some(found)) = read {
        frame::read_frames_are_written_back(bytes);
        frames_have_their_bytes(found@);
        let n = bytes.len() - rest.len();
        assert(bytes.take(n) =~= frame::frame_bytes(found@));
    }
}

/// Only one row of bytes is that of a frame.
proof fn same_bytes(a: Seq<u8>, b: Seq<u8>, frame: WireView)
    requires
        are_frame(a, frame),
        are_frame(b, frame),
    ensures
        a == b,
{
    assert forall|i: int| 0 <= i < a.len() implies a[i] == b[i] by {
        if i >= 8 {
            assert(a.skip(8)[i - 8] == a[i]);
            assert(b.skip(8)[i - 8] == b[i]);
        } else if i >= 4 {
            bytes_spell(a, 4);
            bytes_spell(b, 4);
            let x = a.subrange(4, 8);
            let y = b.subrange(4, 8);
            buffer::big_endian_is_written_back(x);
            buffer::big_endian_is_written_back(y);
            assert(x[i - 4] == a[i] && y[i - 4] == b[i]);
        }
    }
    assert(a =~= b);
}

/// What is wrong with bytes that start no frame is told by the first of their
/// eight bytes that is wrong: the version, the type, the channel, a flag, the
/// byte that is kept free, or the length.
pub proof fn faults_of_frames_are_told(
    decoder: &mut FrameDecoder,
    source: &mut BytesMut,
    read: Result<Option<WireFrame>, FrameError>,
)
    requires
        call_ensures(FrameDecoder::decode, (decoder, source), read),
    ensures
        ({
            let bytes = buffer::buffered(*old(source));
            if bytes.len() < 8 {
                read matches Ok(None)
            } else if bytes[0] / 16 != 1 {
                read matches Err(error) && error == FrameError::UnsupportedVersion(
                    (bytes[0] / 16) as u8,
                )
            } else if bytes[0] % 16 == 0 || bytes[0] % 16 > 8 {
                read matches Err(error) && error == FrameError::UnknownFrameType(
                    (bytes[0] % 16) as u8,
                )
            } else if bytes[1] > 6 {
                read matches Err(error) && error == FrameError::UnknownChannel(bytes[1])
            } else if bytes[2] != 0 {
                read matches Err(error) && error == FrameError::UnsupportedFlags(bytes[2])
            } else if bytes[3] != 0 {
                read matches Err(error) && error == FrameError::NonZeroReserved(bytes[3])
            } else if four_at(bytes, 4) > 1_048_576 {
                read matches Err(error) && error == FrameError::PayloadTooLarge(
                    four_at(bytes, 4) as usize,
                )
            } else if bytes.len() < 8 + four_at(bytes, 4) {
                read matches Ok(None)
            } else {
                read matches Ok(Some(_))
            }
        }),
{
    let bytes = buffer::buffered(*old(source));
    if bytes.len() >= 8 {
        bytes_spell(bytes, 4);
    }
}

/// The number of a type of packet.
pub open spec fn packet_number(packet_type: PacketType) -> int {
    match packet_type {
        PacketType::Unicast => 1,
        PacketType::Multicast => 2,
        PacketType::CircuitData => 3,
        PacketType::CircuitControl => 4,
    }
}

/// The number of a priority.
pub open spec fn priority_number(priority: Priority) -> int {
    match priority {
        Priority::P0 => 0,
        Priority::P1 => 1,
        Priority::P2 => 2,
        Priority::P3 => 3,
    }
}

/// The bytes are those of the packet: version, type, priority and lifetime in
/// one byte each, the flags in four, destination and source in thirty-two each,
/// flow and conflation key in eight each, and then the payload.
pub open spec fn are_packet(bytes: Seq<u8>, packet: PacketView) -> bool {
    let header = packet.header;
    &&& bytes.len() == 88 + packet.payload.len()
    &&& bytes[0] == 1
    &&& bytes[1] == packet_number(header.packet_type)
    &&& bytes[2] == priority_number(header.priority)
    &&& bytes[3] == header.ttl
    &&& four_at(bytes, 4) == header.flags.bits()
    &&& bytes.subrange(8, 40) == header.destination.bytes()
    &&& bytes.subrange(40, 72) == header.source.bytes()
    &&& eight_at(bytes, 72) == header.flow_id
    &&& eight_at(bytes, 80) == header.conflate_key
    &&& bytes.skip(88) == packet.payload
}

/// The bytes of a packet.
proof fn packets_have_their_bytes(packet: PacketView)
    ensures
        are_packet(packet::packet_bytes(packet), packet),
{
    broadcast use buffer::big_endian_len;

    let header = packet.header;
    let bytes = packet::packet_bytes(packet);
    header.destination.bytes_len();
    header.source.bytes_len();
    buffer::ranges();
    buffer::big_endian_is_read_back(header.flags.bits() as nat, 4);
    buffer::big_endian_is_read_back(header.flow_id as nat, 8);
    buffer::big_endian_is_read_back(header.conflate_key as nat, 8);
    bytes_spell(bytes, 4);
    bytes_spell(bytes, 72);
    bytes_spell(bytes, 80);
    assert(bytes.subrange(4, 8) =~= buffer::big_endian(header.flags.bits() as nat, 4));
    assert(bytes.subrange(8, 40) =~= header.destination.bytes());
    assert(bytes.subrange(40, 72) =~= header.source.bytes());
    assert(bytes.subrange(72, 80) =~= buffer::big_endian(header.flow_id as nat, 8));
    assert(bytes.subrange(80, 88) =~= buffer::big_endian(header.conflate_key as nat, 8));
    assert(bytes.skip(88) =~= packet.payload);
}

/// A packet is written unless it does not fit into a frame.
pub proof fn packets_are_written(packet: &ForwardPacket, written: Result<Bytes, ForwardPacketError>)
    requires
        call_ensures(ForwardPacketCodec::encode, (packet,), written),
    ensures
        written is Ok <==> packet@.payload.len() <= 1_048_488,
        written matches Ok(bytes) ==> are_packet(buffer::octets(bytes), packet@)
            && buffer::octets(bytes).len() <= 1_048_576,
        written matches Err(error) ==> error == ForwardPacketError::PayloadTooLarge(
            packet@.payload.len() as usize,
        ),
{
    packets_have_their_bytes(packet@);
}

/// Bytes are read as the packet whose bytes they are. What is wrong with others
/// is told: too few, too many, another version, or a type, a priority or a flag
/// that is not known, in this order.
pub proof fn packets_are_read(encoded: Bytes, read: Result<ForwardPacket, ForwardPacketError>)
    requires
        call_ensures(ForwardPacketCodec::decode, (encoded,), read),
    ensures
        ({
            let bytes = buffer::octets(encoded);
            if bytes.len() < 88 {
                read matches Err(error) && error == ForwardPacketError::HeaderTooShort(
                    bytes.len() as usize,
                )
            } else if bytes.len() > 1_048_576 {
                read matches Err(error) && error == ForwardPacketError::PayloadTooLarge(
                    (bytes.len() - 88) as usize,
                )
            } else if bytes[0] != 1 {
                read matches Err(error) && error == ForwardPacketError::UnsupportedVersion(bytes[0])
            } else if bytes[1] == 0 || bytes[1] > 4 {
                read matches Err(error) && error == ForwardPacketError::UnknownPacketType(bytes[1])
            } else if bytes[2] > 3 {
                read matches Err(error) && error == ForwardPacketError::UnknownPriority(bytes[2])
            } else if four_at(bytes, 4) >= 8 {
                read matches Err(error) && error == ForwardPacketError::UnsupportedFlags(
                    four_at(bytes, 4) as u32,
                )
            } else {
                read matches Ok(packet) && are_packet(bytes, packet@)
            }
        }),
{
    let bytes = buffer::octets(encoded);
    if bytes.len() >= 88 {
        bytes_spell(bytes, 4);
    }
    if let Ok(packet) = read {
        packet::read_packets_are_written_back(bytes);
        packets_have_their_bytes(packet@);
    }
}

/// A packet can be written exactly if its payload fits behind its header into a
/// frame and it has no flag that is not known.
pub proof fn packets_fit_into_frames(packet: PacketView)
    ensures
        packet::is_writable(packet) <==> packet.payload.len() <= 1_048_488
            && packet.header.flags.bits() < 8,
{
    broadcast use ForwardFlags::bits_of;

    let bits = packet.header.flags.bits();
    assert(ForwardFlags::of(bits) == packet.header.flags);
}

/// The flags of a packet are known by three bits, and no other bit can be set:
/// one for a hint at reliability, two for conflation, four for compression.
pub proof fn flags_are_three_bits(bits: u32, flags: Result<ForwardFlags, ForwardPacketError>)
    requires
        call_ensures(ForwardFlags::from_bits, (bits,), flags),
    ensures
        flags is Ok <==> bits < 8,
        flags matches Ok(set) ==> set.bits() == bits,
        ForwardFlags::RELIABLE_HINT == 1,
        ForwardFlags::CONFLATABLE == 2,
        ForwardFlags::COMPRESSED == 4,
{
    broadcast use ForwardFlags::of_bits;

}

/// A number in groups of seven bits, the least significant first, each but the
/// last marked as followed by another.
pub open spec fn base128(value: nat) -> Seq<u8>
    decreases value,
{
    if value < 128 {
        seq![value as u8]
    } else {
        seq![(128 + value % 128) as u8] + base128(value / 128)
    }
}

/// Numbers are written in groups of seven bits.
pub proof fn numbers_are_written_in_sevens(value: nat)
    ensures
        protobuf::varint(value) == base128(value),
    decreases value,
{
    if value >= 128 {
        numbers_are_written_in_sevens(value / 128);
    }
}

/// A field with a number behind its mark, left out where the number is zero.
pub open spec fn marked_number(mark: Seq<u8>, value: nat) -> Seq<u8> {
    if value == 0 {
        Seq::empty()
    } else {
        mark + base128(value)
    }
}

/// A field with bytes behind its mark and their number, left out where there are
/// none.
pub open spec fn marked_bytes(mark: u8, value: Seq<u8>) -> Seq<u8> {
    if value.len() == 0 {
        Seq::empty()
    } else {
        seq![mark] + base128(value.len()) + value
    }
}

/// Parts in a row, each behind the mark and its length.
pub open spec fn marked_parts(mark: u8, parts: Seq<Seq<u8>>) -> Seq<u8>
    decreases parts.len(),
{
    if parts.len() == 0 {
        Seq::empty()
    } else {
        seq![mark] + base128(parts[0].len()) + parts[0] + marked_parts(mark, parts.drop_first())
    }
}

/// The marks of fields.
proof fn marks(tag: u32)
    requires
        1 <= tag <= 15,
    ensures
        protobuf::key(tag, protobuf::VARINT) == seq![(8 * tag) as u8],
        protobuf::key(tag, protobuf::LENGTH_DELIMITED) == seq![(8 * tag + 2) as u8],
{
    assert(protobuf::varint((8 * tag) as nat) == seq![(8 * tag) as u8]);
    assert(protobuf::varint((8 * tag + 2) as nat) == seq![(8 * tag + 2) as u8]);
}

/// A field with a number.
proof fn number_is_marked(tag: u32, value: u64)
    requires
        1 <= tag <= 15,
    ensures
        fields::fields_bytes(fields::number(tag, value)) == marked_number(
            seq![(8 * tag) as u8],
            value as nat,
        ),
        protobuf::optional_uint(tag, value as nat) == marked_number(
            seq![(8 * tag) as u8],
            value as nat,
        ),
{
    marks(tag);
    numbers_are_written_in_sevens(value as nat);
    if value != 0 {
        fields::fields_bytes_one(FieldView::Number { tag, value });
    }
}

/// A field with bytes.
proof fn bytes_are_marked(tag: u32, value: Seq<u8>)
    requires
        1 <= tag <= 15,
    ensures
        fields::fields_bytes(fields::bytes(tag, value)) == marked_bytes((8 * tag + 2) as u8, value),
        protobuf::optional_bytes(tag, value) == marked_bytes((8 * tag + 2) as u8, value),
{
    marks(tag);
    numbers_are_written_in_sevens(value.len());
    if value.len() != 0 {
        fields::fields_bytes_one(FieldView::Bytes { tag, content: value });
    }
}

/// Fields with parts.
proof fn parts_are_marked(tag: u32, parts: Seq<Seq<u8>>)
    requires
        1 <= tag <= 15,
    ensures
        fields::fields_bytes(fields::repeated(tag, parts)) == marked_parts(
            (8 * tag + 2) as u8,
            parts,
        ),
    decreases parts.len(),
{
    let list = fields::repeated(tag, parts);
    if parts.len() > 0 {
        marks(tag);
        numbers_are_written_in_sevens(parts[0].len());
        parts_are_marked(tag, parts.drop_first());
        assert(list.drop_first() =~= fields::repeated(tag, parts.drop_first()));
    }
}

/// The edge of an announcement on the wire: the far end behind 0x0a, and the
/// cost behind 0x10.
pub open spec fn edge_layout(edge: Adjacency) -> Seq<u8> {
    seq![0x0au8, 32u8] + edge.peer.bytes() + seq![0x10u8] + base128(edge.cost.value())
}

/// An edge of an announcement.
proof fn edges_have_their_bytes(edge: Adjacency)
    requires
        edge.cost.value() <= 65_535,
    ensures
        proto::adjacency_bytes(codec::wire_adjacency(edge)) == edge_layout(edge),
{
    broadcast use LinkCost::value_is_positive;

    let wire = codec::wire_adjacency(edge);
    edge.peer.bytes_len();
    let a = fields::bytes(1, wire.peer);
    let b = fields::number(2, wire.cost as u64);
    fields::fields_bytes_add(a, b);
    bytes_are_marked(1, wire.peer);
    number_is_marked(2, wire.cost as u64);
    assert(base128(32) == seq![32u8]);
    assert(proto::adjacency_bytes(wire) =~= edge_layout(edge));
}

/// An announcement lies on the wire as its origin behind 0x0a, its number behind
/// 0x10, its lifetime behind 0x20, each of its edges behind 0x52, and its epoch
/// behind 0xa0 0x01.
pub proof fn announcements_lie_on_the_wire(lsa: LsaView)
    requires
        forall|i: int|
            0 <= i < lsa.adjacencies.len() ==> (#[trigger] lsa.adjacencies[i]).cost.value()
                <= 65_535,
    ensures
        proto::lsa_bytes(codec::wire_lsa(lsa)) == seq![0x0au8, 32u8] + lsa.origin.bytes()
            + marked_number(seq![0x10u8], lsa.seq as nat) + marked_number(
            seq![0x20u8],
            lsa.ttl_sec as nat,
        ) + marked_parts(
            0x52,
            lsa.adjacencies.map_values(|edge: Adjacency| edge_layout(edge)),
        ) + marked_number(seq![0xa0u8, 0x01u8], lsa.epoch as nat),
{
    let wire = codec::wire_lsa(lsa);
    lsa.origin.bytes_len();
    let parts = proto::each_adjacency_bytes(wire.adjacencies);
    let mine = lsa.adjacencies.map_values(|edge: Adjacency| edge_layout(edge));
    assert forall|i: int| 0 <= i < parts.len() implies parts[i] == mine[i] by {
        edges_have_their_bytes(lsa.adjacencies[i]);
    }
    assert(parts =~= mine);
    let a = fields::bytes(1, wire.origin);
    let b = fields::number(2, wire.seq);
    let c = fields::number(4, wire.ttl_sec as u64);
    let d = fields::repeated(10, parts);
    let e = fields::number(20, wire.epoch as u64);
    fields::fields_bytes_add(a + b + c + d, e);
    fields::fields_bytes_add(a + b + c, d);
    fields::fields_bytes_add(a + b, c);
    fields::fields_bytes_add(a, b);
    bytes_are_marked(1, wire.origin);
    number_is_marked(2, wire.seq);
    number_is_marked(4, wire.ttl_sec as u64);
    parts_are_marked(10, parts);
    assert(base128(32) == seq![32u8]);
    assert(fields::fields_bytes(e) =~= marked_number(seq![0xa0u8, 0x01u8], lsa.epoch as nat)) by {
        let value = wire.epoch as u64;
        numbers_are_written_in_sevens(value as nat);
        assert(protobuf::varint(160) =~= seq![0xa0u8, 0x01u8]) by {
            assert(protobuf::varint(1) == seq![1u8]);
        }
        if value != 0 {
            fields::fields_bytes_one(FieldView::Number { tag: 20, value });
        }
    }
    assert(proto::lsa_bytes(wire) =~= seq![0x0au8, 32u8] + lsa.origin.bytes() + marked_number(
        seq![0x10u8],
        lsa.seq as nat,
    ) + marked_number(seq![0x20u8], lsa.ttl_sec as nat) + marked_parts(0x52, mine)
        + marked_number(seq![0xa0u8, 0x01u8], lsa.epoch as nat));
}

/// The entry of a digest on the wire: its origin behind 0x0a, its epoch behind
/// 0x10, its number behind 0x18.
pub open spec fn entry_layout(entry: DigestEntry) -> Seq<u8> {
    seq![0x0au8, 32u8] + entry.origin.bytes() + marked_number(seq![0x10u8], entry.epoch as nat)
        + marked_number(seq![0x18u8], entry.seq as nat)
}

/// An entry of a digest.
proof fn entries_have_their_bytes(entry: DigestEntry)
    ensures
        proto::entry_bytes(codec::wire_entry(entry)) == entry_layout(entry),
{
    let wire = codec::wire_entry(entry);
    entry.origin.bytes_len();
    let a = fields::bytes(1, wire.origin);
    let b = fields::number(2, wire.epoch as u64);
    let c = fields::number(3, wire.seq);
    fields::fields_bytes_add(a + b, c);
    fields::fields_bytes_add(a, b);
    bytes_are_marked(1, wire.origin);
    number_is_marked(2, wire.epoch as u64);
    number_is_marked(3, wire.seq);
    assert(base128(32) == seq![32u8]);
    assert(proto::entry_bytes(wire) =~= entry_layout(entry));
}

/// The payload of a control message: an announcement as it was written, or as it
/// is written now, behind 0x0a and its signature behind 0x12; the entries of a
/// digest, or the origins of a request, each behind 0x0a.
pub open spec fn control_layout(frame: FrameView) -> Seq<u8> {
    match frame {
        FrameView::Lsa(message) => marked_bytes(
            0x0a,
            if message.canonical_bytes.len() == 0 {
                proto::lsa_bytes(codec::wire_lsa(message.lsa))
            } else {
                message.canonical_bytes
            },
        ) + marked_bytes(0x12, message.signature),
        FrameView::Digest(entries) => marked_parts(
            0x0a,
            entries.map_values(|entry: DigestEntry| entry_layout(entry)),
        ),
        FrameView::DigestReq(origins) => marked_parts(
            0x0a,
            origins.map_values(|origin: NodeId| origin.bytes()),
        ),
    }
}

/// A control message is within its bounds: an announcement has a lifetime of one
/// second to an hour and at most 256 edges, and a digest and a request have at
/// most a thousand entries.
pub open spec fn is_bounded(frame: FrameView) -> bool {
    match frame {
        FrameView::Lsa(message) => 1 <= message.lsa.ttl_sec <= 3_600
            && message.lsa.adjacencies.len() <= 256,
        FrameView::Digest(entries) => entries.len() <= 1_000,
        FrameView::DigestReq(origins) => origins.len() <= 1_000,
    }
}

/// The frame of a control message: one of its type, on the control channel.
pub open spec fn control_frame(frame: FrameView) -> WireView {
    WireView {
        frame_type: match frame {
            FrameView::Lsa(_) => FrameType::Lsa,
            FrameView::Digest(_) => FrameType::Digest,
            FrameView::DigestReq(_) => FrameType::DigestReq,
        },
        channel: Channel::Control,
        payload: control_layout(frame),
    }
}

/// The wire frame of a control message.
proof fn control_messages_have_their_frames(frame: FrameView)
    ensures
        codec::control_wire(frame) is Ok <==> is_bounded(frame),
        codec::control_wire(frame) matches Ok(wire) ==> wire == control_frame(frame),
{
    match frame {
        FrameView::Lsa(message) => {
            let signed = codec::wire_message(message);
            let a = fields::bytes(1, signed.lsa_bytes);
            let b = fields::bytes(2, signed.signature);
            fields::fields_bytes_add(a, b);
            bytes_are_marked(1, signed.lsa_bytes);
            bytes_are_marked(2, signed.signature);
        },
        FrameView::Digest(entries) => {
            let wires = codec::wire_entries(entries);
            let parts = proto::each_entry_bytes(wires);
            let mine = entries.map_values(|entry: DigestEntry| entry_layout(entry));
            assert forall|i: int| 0 <= i < parts.len() implies parts[i] == mine[i] by {
                entries_have_their_bytes(entries[i]);
            }
            assert(parts =~= mine);
            parts_are_marked(1, parts);
        },
        FrameView::DigestReq(origins) => {
            let parts = codec::wire_ids(origins);
            assert(parts =~= origins.map_values(|origin: NodeId| origin.bytes()));
            parts_are_marked(1, parts);
        },
    }
}

/// Control messages within their bounds are written, each in a frame of its type
/// on the control channel, and no others.
pub proof fn control_messages_are_written(
    frame: &ControlFrame,
    written: Result<WireFrame, RuntimeError>,
)
    requires
        call_ensures(codec::encode_control_frame, (frame,), written),
        control_layout(frame@).len() <= usize::MAX / 4,
    ensures
        written is Ok <==> is_bounded(frame@),
        written matches Ok(wire) ==> wire@ == control_frame(frame@),
{
    control_messages_have_their_frames(frame@);
}

/// A control message can be sent exactly if it is within its bounds, and does
/// not take more than a quarter of what can be addressed.
pub proof fn bounded_control_messages_can_be_sent(frame: FrameView)
    ensures
        codec::sendable(frame) == if is_bounded(frame) && control_layout(frame).len()
            <= usize::MAX / 4 {
            Some(control_frame(frame))
        } else {
            None
        },
{
    control_messages_have_their_frames(frame);
}

/// Digests and requests within their bounds can always be sent, and so can
/// announcements within their bounds that carry no bytes and no signature.
pub proof fn ordinary_control_messages_can_be_sent(frame: FrameView)
    requires
        is_bounded(frame),
        frame matches FrameView::Lsa(message) ==> message.canonical_bytes.len() == 0
            && message.signature.len() == 0,
    ensures
        codec::sendable(frame) == Some(control_frame(frame)),
{
    control_messages_have_their_frames(frame);
    let none = Seq::<DigestEntry>::empty();
    let nobody = Seq::<NodeId>::empty();
    match frame {
        FrameView::Lsa(message) => {
            codec::own_lsas_are_short(message.lsa);
            let bytes = proto::lsa_bytes(codec::wire_lsa(message.lsa));
            protobuf::varint_is_read_back(bytes.len(), Seq::empty());
            numbers_are_written_in_sevens(bytes.len());
        },
        FrameView::Digest(entries) => {
            codec::summaries_are_short(entries, nobody);
        },
        FrameView::DigestReq(origins) => {
            codec::summaries_are_short(none, origins);
        },
    }
}

/// A control message that is read is within its bounds, and came on the control
/// channel in a frame of its type. No other frame is read as one.
pub proof fn control_messages_are_read(frame: WireFrame, read: Result<ControlFrame, RuntimeError>)
    requires
        call_ensures(codec::decode_control_frame, (frame,), read),
    ensures
        read matches Ok(control) ==> {
            &&& frame@.channel == Channel::Control
            &&& frame@.frame_type == match control@ {
                FrameView::Lsa(_) => FrameType::Lsa,
                FrameView::Digest(_) => FrameType::Digest,
                FrameView::DigestReq(_) => FrameType::DigestReq,
            }
            &&& is_bounded(control@)
        },
        frame@.channel != Channel::Control || !(frame@.frame_type == FrameType::Lsa
            || frame@.frame_type == FrameType::Digest || frame@.frame_type == FrameType::DigestReq)
            ==> (read matches Err(error) && error@ == RuntimeFault::UnexpectedFrame {
            frame_type: frame@.frame_type,
            channel: frame@.channel,
        }),
{
    if let Ok(control) = read {
        match control@ {
            FrameView::Lsa(message) => {
                let wire = proto::read_lsa(message.canonical_bytes)->0;
                whole_announcements_are_read(wire);
            },
            FrameView::Digest(entries) => {
                whole_entries_are_read(proto::read_digest(frame@.payload)->0);
            },
            FrameView::DigestReq(origins) => {
                whole_origins_are_read(proto::read_request(frame@.payload)->0);
            },
        }
    }
}

/// The edge is whole: its far end has thirty-two bytes, and its cost is one to
/// 65535.
pub open spec fn is_whole_edge(wire: proto::AdjacencyView) -> bool {
    wire.peer.len() == 32 && 1 <= wire.cost <= 65_535
}

/// Edges are read if all of them are whole, each as it is.
proof fn whole_edges_are_read(wires: Seq<proto::AdjacencyView>)
    ensures
        codec::adjacencies_of(wires) is Ok <==> forall|i: int|
            0 <= i < wires.len() ==> is_whole_edge(#[trigger] wires[i]),
        codec::adjacencies_of(wires) matches Ok(list) ==> list.len() == wires.len() && forall|
            i: int,
        |
            0 <= i < wires.len() ==> (#[trigger] list[i]).peer.bytes() == wires[i].peer
                && list[i].cost == LinkCost::of(wires[i].cost as nat),
    decreases wires.len(),
{
    if wires.len() > 0 {
        let less = wires.drop_last();
        let n = wires.len() - 1;
        whole_edges_are_read(less);
        assert(forall|i: int| 0 <= i < less.len() ==> less[i] == wires[i]);
        if forall|i: int| 0 <= i < wires.len() ==> is_whole_edge(#[trigger] wires[i]) {
            assert forall|i: int| 0 <= i < less.len() implies is_whole_edge(
                #[trigger] less[i],
            ) by {
                assert(is_whole_edge(wires[i]));
            }
            assert(is_whole_edge(wires[n]));
        }
        if let Ok(list) = codec::adjacencies_of(wires) {
            NodeId::bytes_of(wires[n].peer);
            let before = codec::adjacencies_of(less)->Ok_0;
            assert forall|i: int| 0 <= i < wires.len() implies is_whole_edge(#[trigger] wires[i])
                && list[i].peer.bytes() == wires[i].peer && list[i].cost == LinkCost::of(
                wires[i].cost as nat,
            ) by {
                if i < n {
                    assert(less[i] == wires[i]);
                    assert(is_whole_edge(less[i]));
                    assert(before[i] == list[i]);
                }
            }
        }
    }
}

/// An announcement is read if it is whole and within its bounds, and then as it
/// is: its origin has thirty-two bytes, its lifetime is one second to an hour,
/// and it has at most 256 edges, all of them whole.
pub proof fn whole_announcements_are_read(wire: proto::LsaView)
    ensures
        codec::lsa_of(wire) is Ok <==> wire.origin.len() == 32 && 1 <= wire.ttl_sec <= 3_600
            && wire.adjacencies.len() <= 256 && forall|i: int|
            0 <= i < wire.adjacencies.len() ==> is_whole_edge(#[trigger] wire.adjacencies[i]),
        codec::lsa_of(wire) matches Ok(lsa) ==> {
            &&& lsa.origin.bytes() == wire.origin
            &&& lsa.epoch == wire.epoch
            &&& lsa.seq == wire.seq
            &&& lsa.ttl_sec == wire.ttl_sec
            &&& lsa.adjacencies.len() == wire.adjacencies.len()
            &&& forall|i: int|
                0 <= i < wire.adjacencies.len() ==> (#[trigger] lsa.adjacencies[i]).peer.bytes()
                    == wire.adjacencies[i].peer && lsa.adjacencies[i].cost == LinkCost::of(
                    wire.adjacencies[i].cost as nat,
                )
        },
{
    whole_edges_are_read(wire.adjacencies);
    if wire.origin.len() == 32 {
        NodeId::bytes_of(wire.origin);
    }
}

/// The entries of a digest are read if the origin of each has thirty-two bytes,
/// and then as they are.
pub proof fn whole_entries_are_read(wires: Seq<proto::EntryView>)
    ensures
        codec::entries_of(wires) is Ok <==> forall|i: int|
            0 <= i < wires.len() ==> (#[trigger] wires[i]).origin.len() == 32,
        codec::entries_of(wires) matches Ok(list) ==> list.len() == wires.len() && forall|i: int|
            0 <= i < wires.len() ==> (#[trigger] list[i]).origin.bytes() == wires[i].origin
                && list[i].epoch == wires[i].epoch && list[i].seq == wires[i].seq,
    decreases wires.len(),
{
    if wires.len() > 0 {
        let less = wires.drop_last();
        let n = wires.len() - 1;
        whole_entries_are_read(less);
        if forall|i: int| 0 <= i < wires.len() ==> (#[trigger] wires[i]).origin.len() == 32 {
            assert forall|i: int| 0 <= i < less.len() implies (#[trigger] less[i]).origin.len()
                == 32 by {
                assert(wires[i].origin.len() == 32);
            }
            assert(wires[n].origin.len() == 32);
        }
        if let Ok(list) = codec::entries_of(wires) {
            NodeId::bytes_of(wires[n].origin);
            let before = codec::entries_of(less)->Ok_0;
            assert forall|i: int| 0 <= i < wires.len() implies (#[trigger] wires[i]).origin.len()
                == 32 && list[i].origin.bytes() == wires[i].origin && list[i].epoch
                == wires[i].epoch && list[i].seq == wires[i].seq by {
                if i < n {
                    assert(less[i] == wires[i]);
                    assert(less[i].origin.len() == 32);
                    assert(before[i] == list[i]);
                }
            }
        }
    }
}

/// The origins of a request are read if each has thirty-two bytes, and then as
/// they are.
pub proof fn whole_origins_are_read(parts: Seq<Seq<u8>>)
    ensures
        codec::ids_of(parts) is Ok <==> forall|i: int|
            0 <= i < parts.len() ==> (#[trigger] parts[i]).len() == 32,
        codec::ids_of(parts) matches Ok(list) ==> list.len() == parts.len() && forall|i: int|
            0 <= i < parts.len() ==> (#[trigger] list[i]).bytes() == parts[i],
    decreases parts.len(),
{
    if parts.len() > 0 {
        let less = parts.drop_last();
        let n = parts.len() - 1;
        whole_origins_are_read(less);
        if forall|i: int| 0 <= i < parts.len() ==> (#[trigger] parts[i]).len() == 32 {
            assert forall|i: int| 0 <= i < less.len() implies (#[trigger] less[i]).len() == 32 by {
                assert(parts[i].len() == 32);
            }
            assert(parts[n].len() == 32);
        }
        if let Ok(list) = codec::ids_of(parts) {
            NodeId::bytes_of(parts[n]);
            let before = codec::ids_of(less)->Ok_0;
            assert forall|i: int| 0 <= i < parts.len() implies (#[trigger] parts[i]).len() == 32
                && list[i].bytes() == parts[i] by {
                if i < n {
                    assert(less[i] == parts[i]);
                    assert(less[i].len() == 32);
                    assert(before[i] == list[i]);
                }
            }
        }
    }
}

/// A node introduces itself on the control channel, with its identity behind
/// 0x0a and the version, which is one, behind 0x10.
pub proof fn introductions_lie_on_the_wire(node: NodeId)
    ensures
        transport::hello_frame(node).frame_type == FrameType::LinkHello,
        transport::hello_frame(node).channel == Channel::Control,
        transport::hello_frame(node).payload == seq![0x0au8, 32u8] + node.bytes() + seq![
            0x10u8,
            1u8,
        ],
{
    node.bytes_len();
    let a = fields::bytes(1, node.bytes());
    let b = fields::number(2, 1);
    fields::fields_bytes_add(a, b);
    bytes_are_marked(1, node.bytes());
    number_is_marked(2, 1);
    assert(base128(32) == seq![32u8]);
    assert(base128(1) == seq![1u8]);
    assert(transport::hello_frame(node).payload =~= seq![0x0au8, 32u8] + node.bytes() + seq![
        0x10u8,
        1u8,
    ]);
}

/// A published message lies on the wire as four letters, and then its origin
/// behind 0x0a, the name of its topic behind 0x12, the partition behind 0x1a, its
/// number behind 0x20, its time behind 0x28, and its payload behind 0x32.
pub proof fn messages_lie_on_the_wire(message: EnvelopeView)
    ensures
        envelope::envelope_bytes(message) == seq![
            'M' as u8,
            'B' as u8,
            'P' as u8,
            'S' as u8,
            0x0au8,
            32u8,
        ] + message.origin.bytes() + marked_bytes(
            0x12,
            vstd::utf8::encode_utf8(message.topic.name),
        ) + marked_bytes(0x1a, message.topic.partition) + marked_number(
            seq![0x20u8],
            message.seq as nat,
        ) + marked_number(seq![0x28u8], message.ts_ms as nat) + marked_bytes(
            0x32,
            message.payload,
        ),
{
    let name = vstd::utf8::encode_utf8(message.topic.name);
    message.origin.bytes_len();
    bytes_are_marked(1, message.origin.bytes());
    bytes_are_marked(2, name);
    bytes_are_marked(3, message.topic.partition);
    number_is_marked(4, message.seq);
    number_is_marked(5, message.ts_ms);
    bytes_are_marked(6, message.payload);
    assert(base128(32) == seq![32u8]);
    let first = marked_bytes(0x0a, message.origin.bytes());
    in_a_row(
        envelope::magic(),
        first,
        marked_bytes(0x12, name),
        marked_bytes(0x1a, message.topic.partition),
        marked_number(seq![0x20u8], message.seq as nat),
        marked_number(seq![0x28u8], message.ts_ms as nat),
        marked_bytes(0x32, message.payload),
    );
    assert(envelope::magic() + first =~= seq![
        'M' as u8,
        'B' as u8,
        'P' as u8,
        'S' as u8,
        0x0au8,
        32u8,
    ] + message.origin.bytes());
}

/// Seven parts stand in a row however they are put together.
proof fn in_a_row(
    a: Seq<u8>,
    b: Seq<u8>,
    c: Seq<u8>,
    d: Seq<u8>,
    e: Seq<u8>,
    f: Seq<u8>,
    g: Seq<u8>,
)
    ensures
        a + (b + c + d + e + f + g) == a + b + c + d + e + f + g,
{
    assert(a + (b + c + d + e + f + g) =~= a + b + c + d + e + f + g);
}

/// An announcement is written as it lies on the wire, and a control message is
/// put into its frame if it can be sent.
pub proof fn announcements_are_written(
    lsa: &Lsa,
    written: Bytes,
    frame: &ControlFrame,
    wire: Option<WireFrame>,
    priority: Priority,
    channel: Channel,
)
    requires
        call_ensures(codec::encode_lsa, (lsa,), written),
        call_ensures(codec::to_wire, (frame,), wire),
        call_ensures(codec::channel_for_priority, (priority,), channel),
    ensures
        buffer::octets(written) == proto::lsa_bytes(codec::wire_lsa(lsa@)),
        wire is Some <==> is_bounded(frame@) && control_layout(frame@).len() <= usize::MAX / 4,
        wire matches Some(sent) ==> sent@ == control_frame(frame@),
        channel_number(channel) == 2 + priority_number(priority),
{
    bounded_control_messages_can_be_sent(frame@);
}

} // verus!
