use bytes::{BufMut, Bytes, BytesMut};
use meshbus::types::NodeId;
use meshbus::wire::{
    Channel, ForwardFlags, ForwardHeader, ForwardPacket, ForwardPacketCodec, ForwardPacketError,
    FrameDecoder, FrameEncoder, FrameError, FrameType, PacketType, Priority, WireFrame,
    FORWARD_HEADER_LEN, FRAME_VERSION, HEADER_LEN, MAX_FORWARD_PAYLOAD_LEN, MAX_PAYLOAD_LEN,
};

fn node(value: u8) -> NodeId {
    let mut bytes = [0_u8; 32];
    bytes[31] = value;
    NodeId::from_bytes(bytes)
}

fn forward_packet() -> ForwardPacket {
    ForwardPacket {
        header: ForwardHeader {
            packet_type: PacketType::Unicast,
            priority: Priority::P1,
            ttl: 32,
            flags: ForwardFlags::from_bits(
                ForwardFlags::RELIABLE_HINT | ForwardFlags::CONFLATABLE,
            )
            .expect("test flags must be supported"),
            destination: node(2),
            source: node(1),
            flow_id: 0x0102_0304_0506_0708,
            conflate_key: 0x1112_1314_1516_1718,
        },
        payload: Bytes::from_static(b"opaque payload"),
    }
}

#[test]
fn frame_round_trips() {
    let original = WireFrame::control(FrameType::Lsa, Bytes::from_static(b"an lsa"));
    let encoded = FrameEncoder::encode(&original).expect("frame must encode");
    assert_eq!(encoded.len(), HEADER_LEN + original.payload.len());

    let mut source = BytesMut::from(encoded.as_ref());
    let decoded = FrameDecoder
        .decode(&mut source)
        .expect("frame must decode")
        .expect("the complete frame must be returned");

    assert_eq!(decoded, original);
    assert!(source.is_empty());
}

#[test]
fn frame_decodes_one_byte_at_a_time() {
    let original = WireFrame::control(FrameType::Lsa, Bytes::from_static(b"fragmented"));
    let encoded = FrameEncoder::encode(&original).expect("frame must encode");
    let mut source = BytesMut::new();
    let mut decoder = FrameDecoder;
    let mut decoded = None;

    for byte in encoded {
        source.extend_from_slice(&[byte]);
        let next = decoder.decode(&mut source).expect("prefix must be valid");
        if next.is_some() {
            assert!(decoded.is_none());
            decoded = next;
        }
    }

    assert_eq!(decoded, Some(original));
}

#[test]
fn decoder_returns_multiple_buffered_frames_individually() {
    let first = WireFrame::control(FrameType::Ping, Bytes::from_static(b"one"));
    let second = WireFrame::control(FrameType::Lsa, Bytes::from_static(b"two"));
    let mut source = BytesMut::new();
    source.extend_from_slice(&FrameEncoder::encode(&first).expect("first frame must encode"));
    source.extend_from_slice(&FrameEncoder::encode(&second).expect("second frame must encode"));
    let mut decoder = FrameDecoder;

    assert_eq!(decoder.decode(&mut source), Ok(Some(first)));
    assert_eq!(decoder.decode(&mut source), Ok(Some(second)));
    assert_eq!(decoder.decode(&mut source), Ok(None));
}

#[test]
fn oversized_length_is_rejected_from_the_header_alone() {
    let mut source = BytesMut::new();
    source.put_u8((FRAME_VERSION << 4) | FrameType::Lsa.code());
    source.put_u8(Channel::Control.code());
    source.put_u8(0);
    source.put_u8(0);
    source.put_u32((MAX_PAYLOAD_LEN + 1) as u32);

    assert_eq!(
        FrameDecoder.decode(&mut source),
        Err(FrameError::PayloadTooLarge(MAX_PAYLOAD_LEN + 1))
    );
}

#[test]
fn invalid_header_fields_are_rejected_without_panicking() {
    let cases = [
        (
            [0x22, 0, 0, 0, 0, 0, 0, 0],
            FrameError::UnsupportedVersion(2),
        ),
        (
            [0x1f, 0, 0, 0, 0, 0, 0, 0],
            FrameError::UnknownFrameType(15),
        ),
        ([0x12, 9, 0, 0, 0, 0, 0, 0], FrameError::UnknownChannel(9)),
        ([0x12, 0, 1, 0, 0, 0, 0, 0], FrameError::UnsupportedFlags(1)),
        ([0x12, 0, 0, 1, 0, 0, 0, 0], FrameError::NonZeroReserved(1)),
    ];

    for (bytes, expected) in cases {
        let mut source = BytesMut::from(bytes.as_slice());
        assert_eq!(FrameDecoder.decode(&mut source), Err(expected));
    }
}

#[test]
fn forward_packet_round_trips_with_a_fixed_width_header() {
    let original = forward_packet();

    let encoded = ForwardPacketCodec::encode(&original).expect("packet must encode");
    assert_eq!(encoded.len(), FORWARD_HEADER_LEN + original.payload.len());
    assert_eq!(&encoded[FORWARD_HEADER_LEN..], original.payload.as_ref());

    let decoded = ForwardPacketCodec::decode(encoded).expect("packet must decode");
    assert_eq!(decoded, original);
}

#[test]
fn invalid_forward_packet_headers_are_rejected() {
    assert_eq!(
        ForwardPacketCodec::decode(Bytes::from_static(&[0; FORWARD_HEADER_LEN - 1])),
        Err(ForwardPacketError::HeaderTooShort(FORWARD_HEADER_LEN - 1))
    );

    let encoded = ForwardPacketCodec::encode(&forward_packet()).expect("packet must encode");
    let cases = [
        (0, 2, ForwardPacketError::UnsupportedVersion(2)),
        (1, 9, ForwardPacketError::UnknownPacketType(9)),
        (2, 4, ForwardPacketError::UnknownPriority(4)),
    ];
    for (offset, value, expected) in cases {
        let mut malformed = BytesMut::from(encoded.as_ref());
        malformed[offset] = value;
        assert_eq!(
            ForwardPacketCodec::decode(malformed.freeze()),
            Err(expected)
        );
    }

    let mut unsupported_flags = BytesMut::from(encoded.as_ref());
    unsupported_flags[7] = 1 << 3;
    assert_eq!(
        ForwardPacketCodec::decode(unsupported_flags.freeze()),
        Err(ForwardPacketError::UnsupportedFlags(1 << 3))
    );
}

#[test]
fn oversized_forward_payload_is_rejected_on_encode_and_decode() {
    let oversized_len = MAX_FORWARD_PAYLOAD_LEN + 1;
    let mut packet = forward_packet();
    packet.payload = Bytes::from(vec![0_u8; oversized_len]);
    assert_eq!(
        ForwardPacketCodec::encode(&packet),
        Err(ForwardPacketError::PayloadTooLarge(oversized_len))
    );

    let encoded = Bytes::from(vec![0_u8; MAX_PAYLOAD_LEN + 1]);
    assert_eq!(
        ForwardPacketCodec::decode(encoded),
        Err(ForwardPacketError::PayloadTooLarge(oversized_len))
    );
}
