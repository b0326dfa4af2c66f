use bytes::{Bytes, BytesMut};
use meshbus::types::NodeId;
use meshbus::wire::proto;
use meshbus::wire::{
    Channel, ForwardFlags, ForwardHeader, ForwardPacket, ForwardPacketCodec, ForwardPacketError,
    FrameDecoder, FrameEncoder, FrameError, FrameType, PacketType, Priority, WireFrame,
    FORWARD_HEADER_LEN, HEADER_LEN, MAX_FORWARD_PAYLOAD_LEN, MAX_PAYLOAD_LEN,
};

fn node(value: u8) -> NodeId {
    let mut bytes = [0_u8; 32];
    bytes[31] = value;
    NodeId::from_bytes(bytes)
}

fn packet(payload: Bytes) -> ForwardPacket {
    ForwardPacket {
        header: ForwardHeader {
            packet_type: PacketType::Unicast,
            priority: Priority::P2,
            ttl: 7,
            flags: ForwardFlags::from_bits(ForwardFlags::COMPRESSED).expect("a known flag"),
            destination: node(2),
            source: node(1),
            flow_id: 0x0102_0304_0506_0708,
            conflate_key: 9,
        },
        payload,
    }
}

fn decode(bytes: &[u8]) -> Result<Option<WireFrame>, FrameError> {
    let mut source = BytesMut::from(bytes);
    FrameDecoder.decode(&mut source)
}

#[test]
fn frames_have_the_documented_bytes() {
    let frame = WireFrame {
        frame_type: FrameType::Forward,
        channel: Channel::PubSubP1,
        payload: Bytes::from_static(b"abc"),
    };
    let encoded = FrameEncoder::encode(&frame).expect("frame must encode");
    assert_eq!(
        encoded.as_ref(),
        &[0x15, 0x03, 0, 0, 0, 0, 0, 3, b'a', b'b', b'c']
    );
}

#[test]
fn codes_of_types_and_channels_are_read_back() {
    let types = [
        (FrameType::LinkHello, 1),
        (FrameType::Lsa, 2),
        (FrameType::Digest, 3),
        (FrameType::DigestReq, 4),
        (FrameType::Forward, 5),
        (FrameType::Circuit, 6),
        (FrameType::Credit, 7),
        (FrameType::Ping, 8),
    ];
    for (frame_type, code) in types {
        assert_eq!(frame_type.code(), code);
        assert_eq!(FrameType::try_from(code), Ok(frame_type));
    }
    assert_eq!(FrameType::try_from(0), Err(FrameError::UnknownFrameType(0)));
    assert_eq!(FrameType::try_from(9), Err(FrameError::UnknownFrameType(9)));

    let channels = [
        Channel::Control,
        Channel::Rpc,
        Channel::PubSubP0,
        Channel::PubSubP1,
        Channel::PubSubP2,
        Channel::PubSubP3,
        Channel::Tunnel,
    ];
    for (code, channel) in channels.into_iter().enumerate() {
        assert_eq!(usize::from(channel.code()), code);
        assert_eq!(Channel::try_from(code as u8), Ok(channel));
    }
    assert_eq!(Channel::try_from(7), Err(FrameError::UnknownChannel(7)));

    let packets = [
        PacketType::Unicast,
        PacketType::Multicast,
        PacketType::CircuitData,
        PacketType::CircuitControl,
    ];
    for (i, packet_type) in packets.into_iter().enumerate() {
        assert_eq!(usize::from(packet_type.code()), i + 1);
        assert_eq!(PacketType::try_from(i as u8 + 1), Ok(packet_type));
    }
    assert_eq!(
        PacketType::try_from(5),
        Err(ForwardPacketError::UnknownPacketType(5))
    );

    let priorities = [Priority::P0, Priority::P1, Priority::P2, Priority::P3];
    for (i, priority) in priorities.into_iter().enumerate() {
        assert_eq!(usize::from(priority.code()), i);
        assert_eq!(Priority::try_from(i as u8), Ok(priority));
    }
    assert_eq!(
        Priority::try_from(4),
        Err(ForwardPacketError::UnknownPriority(4))
    );
}

#[test]
fn each_bad_frame_header_has_its_error() {
    assert_eq!(decode(&[0x12, 0, 0, 0, 0, 0, 0]), Ok(None));
    assert_eq!(
        decode(&[0x22, 0, 0, 0, 0, 0, 0, 0]),
        Err(FrameError::UnsupportedVersion(2))
    );
    assert_eq!(
        decode(&[0x1f, 0, 0, 0, 0, 0, 0, 0]),
        Err(FrameError::UnknownFrameType(15))
    );
    assert_eq!(
        decode(&[0x12, 7, 0, 0, 0, 0, 0, 0]),
        Err(FrameError::UnknownChannel(7))
    );
    assert_eq!(
        decode(&[0x12, 0, 3, 0, 0, 0, 0, 0]),
        Err(FrameError::UnsupportedFlags(3))
    );
    assert_eq!(
        decode(&[0x12, 0, 0, 4, 0, 0, 0, 0]),
        Err(FrameError::NonZeroReserved(4))
    );
    assert_eq!(
        decode(&[0x12, 0, 0, 0, 0, 0x10, 0, 1]),
        Err(FrameError::PayloadTooLarge(MAX_PAYLOAD_LEN + 1))
    );
    assert_eq!(decode(&[0x12, 0, 0, 0, 0, 0x10, 0, 0]), Ok(None));
}

#[test]
fn bytes_behind_a_frame_stay_in_the_buffer() {
    let mut source = BytesMut::from(&[0x18_u8, 0, 0, 0, 0, 0, 0, 1, 42, 0x18, 0][..]);
    let frame = FrameDecoder
        .decode(&mut source)
        .expect("frame must decode")
        .expect("the frame is complete");
    assert_eq!(frame.frame_type, FrameType::Ping);
    assert_eq!(frame.payload.as_ref(), &[42]);
    assert_eq!(source.as_ref(), &[0x18, 0]);
    assert_eq!(FrameDecoder.decode(&mut source), Ok(None));
    assert_eq!(source.as_ref(), &[0x18, 0]);
}

#[test]
fn the_largest_payload_is_framed_and_a_larger_one_is_not() {
    let largest = WireFrame::control(FrameType::Ping, Bytes::from(vec![1; MAX_PAYLOAD_LEN]));
    let encoded = FrameEncoder::encode(&largest).expect("the largest payload fits");
    assert_eq!(encoded.len(), HEADER_LEN + MAX_PAYLOAD_LEN);
    let larger = WireFrame::control(FrameType::Ping, Bytes::from(vec![1; MAX_PAYLOAD_LEN + 1]));
    assert_eq!(
        FrameEncoder::encode(&larger),
        Err(FrameError::PayloadTooLarge(MAX_PAYLOAD_LEN + 1))
    );
}

#[test]
fn packets_have_the_documented_bytes() {
    let encoded = ForwardPacketCodec::encode(&packet(Bytes::from_static(b"xy")))
        .expect("packet must encode");
    let mut expected = vec![1, 1, 2, 7, 0, 0, 0, 4];
    expected.extend_from_slice(node(2).as_bytes());
    expected.extend_from_slice(node(1).as_bytes());
    expected.extend_from_slice(&[1, 2, 3, 4, 5, 6, 7, 8]);
    expected.extend_from_slice(&[0, 0, 0, 0, 0, 0, 0, 9]);
    expected.extend_from_slice(b"xy");
    assert_eq!(encoded.as_ref(), expected.as_slice());
    assert_eq!(encoded.len(), FORWARD_HEADER_LEN + 2);
}

#[test]
fn each_bad_packet_has_its_error() {
    let good = ForwardPacketCodec::encode(&packet(Bytes::new())).expect("packet must encode");
    let changed = |at: usize, value: u8| {
        let mut bytes = good.to_vec();
        bytes[at] = value;
        ForwardPacketCodec::decode(Bytes::from(bytes))
    };
    assert_eq!(
        ForwardPacketCodec::decode(good.slice(..87)),
        Err(ForwardPacketError::HeaderTooShort(87))
    );
    assert_eq!(
        changed(0, 2),
        Err(ForwardPacketError::UnsupportedVersion(2))
    );
    assert_eq!(changed(1, 0), Err(ForwardPacketError::UnknownPacketType(0)));
    assert_eq!(changed(2, 4), Err(ForwardPacketError::UnknownPriority(4)));
    assert_eq!(
        changed(7, 8),
        Err(ForwardPacketError::UnsupportedFlags(8))
    );
    assert_eq!(
        changed(4, 1),
        Err(ForwardPacketError::UnsupportedFlags(0x0100_0004))
    );
    assert_eq!(
        ForwardPacketCodec::encode(&packet(Bytes::from(vec![0; MAX_FORWARD_PAYLOAD_LEN + 1]))),
        Err(ForwardPacketError::PayloadTooLarge(
            MAX_FORWARD_PAYLOAD_LEN + 1
        ))
    );
}

#[test]
fn flags_know_their_bits() {
    let flags = ForwardFlags::from_bits(5).expect("known bits");
    assert_eq!(flags.bits(), 5);
    assert!(flags.contains(ForwardFlags::RELIABLE_HINT));
    assert!(flags.contains(ForwardFlags::COMPRESSED));
    assert!(!flags.contains(ForwardFlags::CONFLATABLE));
    assert!(flags.contains(0));
    assert_eq!(ForwardFlags::empty(), ForwardFlags::default());
    assert_eq!(
        ForwardFlags::from_bits(8),
        Err(ForwardPacketError::UnsupportedFlags(8))
    );
}

#[test]
fn wire_errors_have_words() {
    assert_eq!(
        FrameError::UnsupportedVersion(3).to_string(),
        "unsupported frame version 3"
    );
    assert_eq!(
        FrameError::UnknownFrameType(12).to_string(),
        "unknown frame type 12"
    );
    assert_eq!(
        FrameError::UnknownChannel(200).to_string(),
        "unknown channel 200"
    );
    assert_eq!(
        FrameError::UnsupportedFlags(0x0a).to_string(),
        "unsupported frame flags 0x0a"
    );
    assert_eq!(
        FrameError::NonZeroReserved(255).to_string(),
        "reserved frame byte must be zero, got 0xff"
    );
    assert_eq!(
        FrameError::PayloadTooLarge(1_048_577).to_string(),
        "frame payload length 1048577 exceeds the 1048576 byte limit"
    );
    assert_eq!(
        ForwardPacketError::HeaderTooShort(3).to_string(),
        "forward packet is 3 bytes, shorter than the 88 byte header"
    );
    assert_eq!(
        ForwardPacketError::UnsupportedVersion(0).to_string(),
        "unsupported forward packet version 0"
    );
    assert_eq!(
        ForwardPacketError::UnknownPacketType(9).to_string(),
        "unknown forward packet type 9"
    );
    assert_eq!(
        ForwardPacketError::UnknownPriority(4).to_string(),
        "unknown forward packet priority 4"
    );
    assert_eq!(
        ForwardPacketError::UnsupportedFlags(0x10).to_string(),
        "unsupported forward packet flags 0x00000010"
    );
    assert_eq!(
        ForwardPacketError::PayloadTooLarge(1_048_489).to_string(),
        "forward packet payload length 1048489 exceeds the 1048488 byte limit"
    );
}

#[test]
fn introductions_have_their_protobuf_bytes() {
    let hello = proto::LinkHello {
        node_id: Bytes::copy_from_slice(node(3).as_bytes()),
        protocol_version: 1,
    };
    let mut expected = vec![0x0a, 32];
    expected.extend_from_slice(node(3).as_bytes());
    expected.extend_from_slice(&[0x10, 1]);
    let encoded = hello.encode_to_bytes();
    assert_eq!(encoded.as_ref(), expected.as_slice());
    assert_eq!(proto::LinkHello::decode(encoded), Ok(hello));
}

#[test]
fn announcements_have_their_protobuf_bytes() {
    let lsa = proto::Lsa {
        origin: Bytes::from_static(b"o"),
        seq: 300,
        ttl_sec: 5,
        adjacencies: vec![
            proto::Adjacency {
                peer: Bytes::from_static(b"p"),
                cost: 7,
            },
            proto::Adjacency {
                peer: Bytes::new(),
                cost: 0,
            },
        ],
        epoch: 1,
    };
    let encoded = lsa.encode_to_bytes();
    assert_eq!(
        encoded.as_ref(),
        &[
            0x0a, 1, b'o', 0x10, 0xac, 0x02, 0x20, 5, 0x52, 5, 0x0a, 1, b'p', 0x10, 7, 0x52, 0,
            0xa0, 0x01, 1
        ]
    );
    assert_eq!(proto::Lsa::decode(encoded), Ok(lsa));
}

#[test]
fn digests_and_requests_have_their_protobuf_bytes() {
    let digest = proto::Digest {
        entries: vec![proto::DigestEntry {
            origin: Bytes::from_static(b"ab"),
            epoch: 2,
            seq: u64::MAX,
        }],
    };
    let encoded = digest.encode_to_bytes();
    assert_eq!(
        encoded.as_ref(),
        &[
            0x0a, 17, 0x0a, 2, b'a', b'b', 0x10, 2, 0x18, 0xff, 0xff, 0xff, 0xff, 0xff, 0xff,
            0xff, 0xff, 0xff, 0x01
        ]
    );
    assert_eq!(proto::Digest::decode(encoded), Ok(digest));

    let request = proto::DigestReq {
        origins: vec![Bytes::from_static(b"a"), Bytes::new()],
    };
    let encoded = request.encode_to_bytes();
    assert_eq!(encoded.as_ref(), &[0x0a, 1, b'a', 0x0a, 0]);
    assert_eq!(proto::DigestReq::decode(encoded), Ok(request));

    let signed = proto::SignedLsa {
        lsa_bytes: Bytes::from_static(b"l"),
        signature: Bytes::from_static(b"s"),
    };
    let encoded = signed.encode_to_bytes();
    assert_eq!(encoded.as_ref(), &[0x0a, 1, b'l', 0x12, 1, b's']);
    assert_eq!(proto::SignedLsa::decode(encoded), Ok(signed));
}

#[test]
fn protobuf_messages_skip_what_they_do_not_know() {
    // Field 3 as a number, field 5 as four bytes, and field 1 twice.
    let bytes = Bytes::from_static(&[
        0x18, 9, 0x0a, 1, b'x', 0x2d, 1, 2, 3, 4, 0x0a, 1, b'y', 0x12, 1, b's',
    ]);
    assert_eq!(
        proto::SignedLsa::decode(bytes),
        Ok(proto::SignedLsa {
            lsa_bytes: Bytes::from_static(b"y"),
            signature: Bytes::from_static(b"s"),
        })
    );
}

#[test]
fn protobuf_numbers_of_32_bits_drop_higher_bits() {
    let bytes = Bytes::from_static(&[0x10, 0x81, 0x80, 0x80, 0x80, 0x10]);
    let hello = proto::LinkHello::decode(bytes).expect("a long number is read");
    assert_eq!(hello.protocol_version, 1);
}

#[test]
fn broken_protobuf_is_refused() {
    assert!(proto::SignedLsa::decode(Bytes::from_static(&[0x0a, 2, b'x'])).is_err());
    assert!(proto::SignedLsa::decode(Bytes::from_static(&[0x0a])).is_err());
    assert!(proto::SignedLsa::decode(Bytes::from_static(&[0x08, 1])).is_err());
    assert!(proto::LinkHello::decode(Bytes::from_static(&[0x12, 0])).is_err());
    assert!(proto::Digest::decode(Bytes::from_static(&[0x0a, 1, 0x0a])).is_err());
    assert!(proto::LinkHello::decode(Bytes::from_static(&[0x00, 0])).is_err());
    assert!(proto::LinkHello::decode(Bytes::new()).is_ok());
}

/// So many groups with the tag 5, each within the one before it.
fn groups(depth: usize) -> Vec<u8> {
    let mut bytes = vec![0x2b; depth];
    bytes.extend(vec![0x2c; depth]);
    bytes
}

/// A field with bytes that are not more than 16383.
fn field(key: u8, content: &[u8]) -> Bytes {
    let len = content.len();
    let mut bytes = vec![key, (len % 128 + 128) as u8, (len / 128) as u8];
    bytes.extend_from_slice(content);
    Bytes::from(bytes)
}

#[test]
fn unknown_groups_are_nested_only_so_deep() {
    assert!(proto::Lsa::decode(Bytes::from(groups(100))).is_ok());
    assert!(proto::Lsa::decode(Bytes::from(groups(101))).is_err());
    assert!(proto::Adjacency::decode(Bytes::from(groups(100))).is_ok());
    assert!(proto::DigestEntry::decode(Bytes::from(groups(100))).is_ok());
    assert!(proto::DigestEntry::decode(Bytes::from(groups(101))).is_err());
}

#[test]
fn unknown_groups_in_parts_of_messages_are_nested_less_deep() {
    let lsa = proto::Lsa::decode(field(0x52, &groups(99))).expect("groups must be skipped");
    assert_eq!(lsa.adjacencies.len(), 1);
    assert!(proto::Lsa::decode(field(0x52, &groups(100))).is_err());
    let digest = proto::Digest::decode(field(0x0a, &groups(99))).expect("groups must be skipped");
    assert_eq!(digest.entries.len(), 1);
    assert!(proto::Digest::decode(field(0x0a, &groups(100))).is_err());
}

#[test]
fn unknown_groups_in_parts_leave_what_follows() {
    let mut part = groups(2);
    part.extend([0x10, 7]);
    let mut bytes = vec![0x52, part.len() as u8];
    bytes.extend(part);
    let lsa = proto::Lsa::decode(Bytes::from(bytes)).expect("the group must be skipped");
    assert_eq!(lsa.adjacencies[0].cost, 7);
    let mut unclosed = vec![0x52, 3, 0x2b, 0x10, 7];
    unclosed.extend([0x2c]);
    assert!(proto::Lsa::decode(Bytes::from(unclosed)).is_err());
}

#[test]
fn unknown_groups_are_skipped_with_what_they_hold() {
    // A number, four bytes, eight bytes, bytes, and a group with another tag.
    let held = [
        0x08, 0x96, 0x01, 0x15, 1, 2, 3, 4, 0x19, 1, 2, 3, 4, 5, 6, 7, 8, 0x22, 2, 9, 9, 0x33, 0x34,
    ];
    let around = |depth: usize| {
        let mut bytes = vec![0x2b; depth];
        bytes.extend(held);
        bytes.extend(vec![0x2c; depth]);
        bytes.extend([0x10, 7]);
        bytes
    };
    let edge = proto::Adjacency::decode(Bytes::from(around(98))).expect("groups must be skipped");
    assert_eq!(edge.cost, 7);
    // The group within is one level deeper, and what a group holds counts too.
    assert!(proto::Adjacency::decode(Bytes::from(around(99))).is_ok());
    assert!(proto::Adjacency::decode(Bytes::from(around(100))).is_err());
    // A group is closed by its own tag.
    assert!(proto::Adjacency::decode(Bytes::from_static(&[0x2b, 0x34])).is_err());
    assert!(proto::Adjacency::decode(Bytes::from_static(&[0x2b, 0x33, 0x2c, 0x34])).is_err());
    assert!(proto::Adjacency::decode(Bytes::from_static(&[0x2c])).is_err());
}
