use bytes::{Bytes, BytesMut};
use meshbus::transport::{
    await_hello, encode_hello, link_step, node_id_from_bytes, read_introduction, LinkCommand,
    LinkEvent, LinkRegistry, TransportError, WorkerInput, WorkerStep,
};
use meshbus::types::{LinkId, NodeId};
use meshbus::wire::proto;
use meshbus::wire::{
    Channel, FrameEncoder, FrameError, FrameType, WireFrame, MAX_PAYLOAD_LEN,
};

fn node(value: u8) -> NodeId {
    let mut bytes = [0; 32];
    bytes[31] = value;
    NodeId::from_bytes(bytes)
}

fn hello(node_id: &[u8], protocol_version: u32) -> WireFrame {
    let hello = proto::LinkHello {
        node_id: Bytes::copy_from_slice(node_id),
        protocol_version,
    };
    WireFrame::control(FrameType::LinkHello, hello.encode_to_bytes())
}

#[test]
fn introductions_are_understood_however_they_arrive() {
    let encoded = encode_hello(node(7));
    assert_eq!(
        encoded,
        FrameEncoder::encode(&hello(node(7).as_bytes(), 1)).expect("hello must encode")
    );

    let mut buffered = BytesMut::new();
    for byte in encoded.iter() {
        assert_eq!(await_hello(&mut buffered, false), Ok(None));
        buffered.extend_from_slice(&[*byte]);
    }
    buffered.extend_from_slice(b"more");
    assert_eq!(await_hello(&mut buffered, false), Ok(Some(node(7))));
    assert_eq!(buffered.as_ref(), b"more");
}

#[test]
fn each_bad_introduction_has_its_error() {
    assert_eq!(
        await_hello(&mut BytesMut::new(), true),
        Err(TransportError::UnexpectedEndOfStream)
    );
    assert_eq!(
        await_hello(&mut BytesMut::from(&[0x21_u8, 0, 0, 0, 0, 0, 0, 0][..]), false),
        Err(TransportError::Wire(FrameError::UnsupportedVersion(2)))
    );
    assert_eq!(
        read_introduction(WireFrame::control(FrameType::Lsa, Bytes::new())),
        Err(TransportError::ExpectedLinkHello)
    );
    let mut elsewhere = hello(node(1).as_bytes(), 1);
    elsewhere.channel = Channel::Rpc;
    assert_eq!(
        read_introduction(elsewhere),
        Err(TransportError::ExpectedLinkHello)
    );
    assert!(matches!(
        read_introduction(WireFrame::control(
            FrameType::LinkHello,
            Bytes::from_static(&[0x0a, 5])
        )),
        Err(TransportError::Protobuf(_))
    ));
    assert_eq!(
        read_introduction(hello(node(1).as_bytes(), 2)),
        Err(TransportError::UnsupportedProtocolVersion(2))
    );
    assert_eq!(
        read_introduction(hello(&[1, 2, 3], 1)),
        Err(TransportError::InvalidNodeIdLength(3))
    );
    assert_eq!(
        read_introduction(hello(node(4).as_bytes(), 1)),
        Ok(node(4))
    );
    assert_eq!(node_id_from_bytes(node(5).as_bytes()), Ok(node(5)));
    assert_eq!(
        node_id_from_bytes(&[0; 33]),
        Err(TransportError::InvalidNodeIdLength(33))
    );
}

#[test]
fn only_allowed_and_expected_peers_get_links() {
    let mut registry = LinkRegistry::new(node(1), vec![node(2), node(3), node(2)]);
    assert_eq!(registry.local_node(), node(1));
    assert_eq!(registry.link_count(), 0);
    assert_eq!(registry.may_connect(node(2)), Ok(()));
    assert_eq!(
        registry.may_connect(node(4)),
        Err(TransportError::PeerNotAllowed(node(4)))
    );

    assert_eq!(
        registry.accept(Some(node(3)), node(2)),
        Err(TransportError::PeerMismatch {
            expected: node(3),
            actual: node(2),
        })
    );
    assert_eq!(
        registry.accept(None, node(4)),
        Err(TransportError::PeerNotAllowed(node(4)))
    );
    assert_eq!(registry.accept(Some(node(2)), node(2)), Ok(LinkId::new(1)));
    assert_eq!(registry.accept(None, node(2)), Ok(LinkId::new(2)));
    assert_eq!(registry.link_count(), 2);

    registry.allow(node(4));
    assert_eq!(registry.accept(None, node(4)), Ok(LinkId::new(3)));
    assert_eq!(registry.require(LinkId::new(3)), Ok(()));
    registry.remove(LinkId::new(3));
    assert_eq!(
        registry.require(LinkId::new(3)),
        Err(TransportError::UnknownLink(LinkId::new(3)))
    );
    assert_eq!(registry.accept(None, node(3)), Ok(LinkId::new(4)));
    registry.clear();
    assert_eq!(registry.link_count(), 0);
    assert_eq!(registry.accept(None, node(3)), Ok(LinkId::new(5)));
}

#[test]
fn a_worker_writes_what_it_is_told_and_tells_of_it() {
    let link = LinkId::new(9);
    let mut buffered = BytesMut::new();
    let frame = WireFrame::control(FrameType::Lsa, Bytes::from_static(b"protobuf"));
    let step = link_step(
        link,
        &mut buffered,
        WorkerInput::Command(Some(LinkCommand::Send(frame.clone()))),
    );
    let (bytes, sent) = match step {
        WorkerStep::Write { bytes, sent } => (bytes, sent),
        _ => panic!("the frame must be written"),
    };
    assert_eq!(bytes, FrameEncoder::encode(&frame).expect("frame must encode"));
    assert_eq!(
        sent,
        LinkEvent::Sent {
            link,
            frame_type: FrameType::Lsa,
            channel: Channel::Control,
            payload_bytes: 8,
        }
    );
    let step = link_step(link, &mut buffered, WorkerInput::Written { sent: sent.clone() });
    assert!(matches!(step, WorkerStep::Deliver(event) if event == sent));

    let mut far = BytesMut::from(bytes.as_ref());
    let far_link = LinkId::new(1);
    let step = link_step(far_link, &mut far, WorkerInput::Read(Some(bytes.len())));
    assert!(matches!(
        step,
        WorkerStep::Deliver(event) if event == LinkEvent::Frame { link: far_link, frame }
    ));
    assert!(matches!(
        link_step(far_link, &mut far, WorkerInput::Ready),
        WorkerStep::Wait
    ));
    assert!(far.is_empty());
}

#[test]
fn a_worker_stops_for_every_reason() {
    let link = LinkId::new(1);
    let oversized = WireFrame::control(FrameType::Ping, Bytes::from(vec![0; MAX_PAYLOAD_LEN + 1]));
    let inputs = [
        WorkerInput::EventRefused,
        WorkerInput::Command(None),
        WorkerInput::Command(Some(LinkCommand::Close)),
        WorkerInput::Command(Some(LinkCommand::Send(oversized))),
        WorkerInput::WriteFailed,
        WorkerInput::Read(None),
        WorkerInput::Read(Some(0)),
        WorkerInput::Shutdown(None),
        WorkerInput::Shutdown(Some(true)),
    ];
    for input in inputs {
        let mut buffered = BytesMut::from(&b"\x18"[..]);
        assert!(matches!(
            link_step(link, &mut buffered, input),
            WorkerStep::Stop
        ));
        assert_eq!(buffered.as_ref(), b"\x18");
    }
    let mut broken = BytesMut::from(&[0xff_u8; 8][..]);
    assert!(matches!(
        link_step(link, &mut broken, WorkerInput::Ready),
        WorkerStep::Stop
    ));
    let mut waiting = BytesMut::new();
    assert!(matches!(
        link_step(link, &mut waiting, WorkerInput::Shutdown(Some(false))),
        WorkerStep::Wait
    ));
}

#[test]
fn transport_errors_have_words() {
    let zeros = "0".repeat(62);
    assert_eq!(
        TransportError::Io("broken pipe".to_owned()).to_string(),
        "TCP I/O failed: broken pipe"
    );
    assert_eq!(
        TransportError::Wire(FrameError::UnknownChannel(9)).to_string(),
        "wire frame is invalid: unknown channel 9"
    );
    assert_eq!(
        TransportError::Protobuf("bad".to_owned()).to_string(),
        "LinkHello protobuf is invalid: bad"
    );
    assert_eq!(
        TransportError::UnexpectedEndOfStream.to_string(),
        "TCP stream ended before LinkHello arrived"
    );
    assert_eq!(
        TransportError::ExpectedLinkHello.to_string(),
        "the first TCP frame must be LinkHello"
    );
    assert_eq!(
        TransportError::UnsupportedProtocolVersion(7).to_string(),
        "peer uses unsupported protocol version 7"
    );
    assert_eq!(
        TransportError::InvalidNodeIdLength(31).to_string(),
        "peer NodeId must be 32 bytes, got 31"
    );
    assert_eq!(
        TransportError::PeerMismatch {
            expected: node(1),
            actual: node(2)
        }
        .to_string(),
        format!("expected peer {zeros}01, got {zeros}02")
    );
    assert_eq!(
        TransportError::PeerNotAllowed(node(3)).to_string(),
        format!("peer {zeros}03 is not in the static allowlist")
    );
    assert_eq!(
        TransportError::LinkIdExhausted.to_string(),
        "local LinkId space is exhausted"
    );
    assert_eq!(
        TransportError::UnknownLink(LinkId::new(4)).to_string(),
        "unknown link 4"
    );
    assert_eq!(
        TransportError::LinkClosed(LinkId::new(5)).to_string(),
        "link 5 is closed"
    );
}
