//! Frames: what one node hands to the next over a link.

use bytes::{Bytes, BytesMut};
use vstd::prelude::*;
use crate::buffer;
use crate::text;

verus! {

/// The version that every frame carries.
pub const FRAME_VERSION: u8 = 1;

/// The length of the header of a frame.
pub const HEADER_LEN: usize = 8;

/// The largest payload of a frame.
pub const MAX_PAYLOAD_LEN: usize = 1024 * 1024;

/// What a frame carries.
#[derive(Clone, Copy, Debug, Eq, PartialEq, Structural)]
pub enum FrameType {
    LinkHello,
    Lsa,
    Digest,
    DigestReq,
    Forward,
    Circuit,
    Credit,
    Ping,
}

impl FrameType {
    /// The number that stands for the type.
    pub open spec fn spec_code(self) -> u8 {
        match self {
            FrameType::LinkHello => 1,
            FrameType::Lsa => 2,
            FrameType::Digest => 3,
            FrameType::DigestReq => 4,
            FrameType::Forward => 5,
            FrameType::Circuit => 6,
            FrameType::Credit => 7,
            FrameType::Ping => 8,
        }
    }

    /// The number that stands for the type.
    #[verifier::when_used_as_spec(spec_code)]
    pub fn code(self) -> (code: u8)
        ensures
            code == self.spec_code(),
    {
        match self {
            FrameType::LinkHello => 1,
            FrameType::Lsa => 2,
            FrameType::Digest => 3,
            FrameType::DigestReq => 4,
            FrameType::Forward => 5,
            FrameType::Circuit => 6,
            FrameType::Credit => 7,
            FrameType::Ping => 8,
        }
    }

    /// The name of the type.
    pub open spec fn label(self) -> Seq<char> {
        match self {
            FrameType::LinkHello => "LinkHello"@,
            FrameType::Lsa => "Lsa"@,
            FrameType::Digest => "Digest"@,
            FrameType::DigestReq => "DigestReq"@,
            FrameType::Forward => "Forward"@,
            FrameType::Circuit => "Circuit"@,
            FrameType::Credit => "Credit"@,
            FrameType::Ping => "Ping"@,
        }
    }

    /// The name of the type.
    pub fn name(self) -> (name: &'static str)
        ensures
            name@ == self.label(),
    {
        match self {
            FrameType::LinkHello => "LinkHello",
            FrameType::Lsa => "Lsa",
            FrameType::Digest => "Digest",
            FrameType::DigestReq => "DigestReq",
            FrameType::Forward => "Forward",
            FrameType::Circuit => "Circuit",
            FrameType::Credit => "Credit",
            FrameType::Ping => "Ping",
        }
    }
}

impl TryFrom<u8> for FrameType {
    type Error = FrameError;

    fn try_from(value: u8) -> (frame_type: Result<Self, FrameError>) {
        match value {
            1 => Ok(FrameType::LinkHello),
            2 => Ok(FrameType::Lsa),
            3 => Ok(FrameType::Digest),
            4 => Ok(FrameType::DigestReq),
            5 => Ok(FrameType::Forward),
            6 => Ok(FrameType::Circuit),
            7 => Ok(FrameType::Credit),
            8 => Ok(FrameType::Ping),
            _ => Err(FrameError::UnknownFrameType(value)),
        }
    }
}

impl vstd::std_specs::convert::TryFromSpecImpl<u8> for FrameType {
    open spec fn obeys_try_from_spec() -> bool {
        true
    }

    open spec fn try_from_spec(value: u8) -> Result<Self, FrameError> {
        match value {
            1 => Ok(FrameType::LinkHello),
            2 => Ok(FrameType::Lsa),
            3 => Ok(FrameType::Digest),
            4 => Ok(FrameType::DigestReq),
            5 => Ok(FrameType::Forward),
            6 => Ok(FrameType::Circuit),
            7 => Ok(FrameType::Credit),
            8 => Ok(FrameType::Ping),
            _ => Err(FrameError::UnknownFrameType(value)),
        }
    }
}

/// The lane of a link that a frame travels on.
#[derive(Clone, Copy, Debug, Eq, PartialEq, Structural)]
pub enum Channel {
    Control,
    Rpc,
    PubSubP0,
    PubSubP1,
    PubSubP2,
    PubSubP3,
    Tunnel,
}

impl Channel {
    /// The number that stands for the channel.
    pub open spec fn spec_code(self) -> u8 {
        match self {
            Channel::Control => 0,
            Channel::Rpc => 1,
            Channel::PubSubP0 => 2,
            Channel::PubSubP1 => 3,
            Channel::PubSubP2 => 4,
            Channel::PubSubP3 => 5,
            Channel::Tunnel => 6,
        }
    }

    /// The number that stands for the channel.
    #[verifier::when_used_as_spec(spec_code)]
    pub fn code(self) -> (code: u8)
        ensures
            code == self.spec_code(),
    {
        match self {
            Channel::Control => 0,
            Channel::Rpc => 1,
            Channel::PubSubP0 => 2,
            Channel::PubSubP1 => 3,
            Channel::PubSubP2 => 4,
            Channel::PubSubP3 => 5,
            Channel::Tunnel => 6,
        }
    }

    /// The name of the channel.
    pub open spec fn label(self) -> Seq<char> {
        match self {
            Channel::Control => "Control"@,
            Channel::Rpc => "Rpc"@,
            Channel::PubSubP0 => "PubSubP0"@,
            Channel::PubSubP1 => "PubSubP1"@,
            Channel::PubSubP2 => "PubSubP2"@,
            Channel::PubSubP3 => "PubSubP3"@,
            Channel::Tunnel => "Tunnel"@,
        }
    }

    /// The name of the channel.
    pub fn name(self) -> (name: &'static str)
        ensures
            name@ == self.label(),
    {
        match self {
            Channel::Control => "Control",
            Channel::Rpc => "Rpc",
            Channel::PubSubP0 => "PubSubP0",
            Channel::PubSubP1 => "PubSubP1",
            Channel::PubSubP2 => "PubSubP2",
            Channel::PubSubP3 => "PubSubP3",
            Channel::Tunnel => "Tunnel",
        }
    }
}

impl TryFrom<u8> for Channel {
    type Error = FrameError;

    fn try_from(value: u8) -> (channel: Result<Self, FrameError>) {
        match value {
            0 => Ok(Channel::Control),
            1 => Ok(Channel::Rpc),
            2 => Ok(Channel::PubSubP0),
            3 => Ok(Channel::PubSubP1),
            4 => Ok(Channel::PubSubP2),
            5 => Ok(Channel::PubSubP3),
            6 => Ok(Channel::Tunnel),
            _ => Err(FrameError::UnknownChannel(value)),
        }
    }
}

impl vstd::std_specs::convert::TryFromSpecImpl<u8> for Channel {
    open spec fn obeys_try_from_spec() -> bool {
        true
    }

    open spec fn try_from_spec(value: u8) -> Result<Self, FrameError> {
        match value {
            0 => Ok(Channel::Control),
            1 => Ok(Channel::Rpc),
            2 => Ok(Channel::PubSubP0),
            3 => Ok(Channel::PubSubP1),
            4 => Ok(Channel::PubSubP2),
            5 => Ok(Channel::PubSubP3),
            6 => Ok(Channel::Tunnel),
            _ => Err(FrameError::UnknownChannel(value)),
        }
    }
}

/// A frame.
#[derive(Debug, Eq, PartialEq)]
pub struct WireFrame {
    pub frame_type: FrameType,
    pub channel: Channel,
    pub payload: Bytes,
}

/// What a frame says.
#[verifier::ext_equal]
pub struct WireView {
    pub frame_type: FrameType,
    pub channel: Channel,
    pub payload: Seq<u8>,
}

impl View for WireFrame {
    type V = WireView;

    open spec fn view(&self) -> WireView {
        WireView {
            frame_type: self.frame_type,
            channel: self.channel,
            payload: buffer::octets(self.payload),
        }
    }
}

impl WireFrame {
    /// A frame on the control channel.
    pub fn control(frame_type: FrameType, payload: Bytes) -> (frame: Self)
        ensures
            frame@ == (WireView {
                frame_type,
                channel: Channel::Control,
                payload: buffer::octets(payload),
            }),
    {
        WireFrame { frame_type, channel: Channel::Control, payload }
    }
}

impl Clone for WireFrame {
    fn clone(&self) -> (copy: Self)
        ensures
            copy@ == self@,
    {
        WireFrame {
            frame_type: self.frame_type,
            channel: self.channel,
            payload: buffer::share(&self.payload),
        }
    }
}

/// Why bytes are not a frame, or a frame cannot be written.
#[derive(Clone, Copy, Debug, Eq, PartialEq, Structural)]
pub enum FrameError {
    UnsupportedVersion(u8),
    UnknownFrameType(u8),
    UnknownChannel(u8),
    UnsupportedFlags(u8),
    NonZeroReserved(u8),
    PayloadTooLarge(usize),
}

impl FrameError {
    /// The error in words.
    pub open spec fn words(self) -> Seq<char> {
        match self {
            FrameError::UnsupportedVersion(version) => "unsupported frame version "@
                + text::decimal(version as nat),
            FrameError::UnknownFrameType(frame_type) => "unknown frame type "@ + text::decimal(
                frame_type as nat,
            ),
            FrameError::UnknownChannel(channel) => "unknown channel "@ + text::decimal(
                channel as nat,
            ),
            FrameError::UnsupportedFlags(flags) => "unsupported frame flags 0x"@ + text::hex(
                seq![flags],
            ),
            FrameError::NonZeroReserved(reserved) => "reserved frame byte must be zero, got 0x"@
                + text::hex(seq![reserved]),
            FrameError::PayloadTooLarge(length) => "frame payload length "@ + text::decimal(
                length as nat,
            ) + " exceeds the 1048576 byte limit"@,
        }
    }

    /// The error in words.
    pub fn to_string(&self) -> (words: String)
        ensures
            words@ == self.words(),
    {
        match *self {
            FrameError::UnsupportedVersion(version) => {
                let mut words = "unsupported frame version ".to_owned();
                text::append_decimal(&mut words, version as u64);
                words
            },
            FrameError::UnknownFrameType(frame_type) => {
                let mut words = "unknown frame type ".to_owned();
                text::append_decimal(&mut words, frame_type as u64);
                words
            },
            FrameError::UnknownChannel(channel) => {
                let mut words = "unknown channel ".to_owned();
                text::append_decimal(&mut words, channel as u64);
                words
            },
            FrameError::UnsupportedFlags(flags) => {
                let mut words = "unsupported frame flags 0x".to_owned();
                let byte = [flags];
                assert(byte@ =~= seq![flags]);
                words.append(text::hex_text(byte.as_slice()).as_str());
                words
            },
            FrameError::NonZeroReserved(reserved) => {
                let mut words = "reserved frame byte must be zero, got 0x".to_owned();
                let byte = [reserved];
                assert(byte@ =~= seq![reserved]);
                words.append(text::hex_text(byte.as_slice()).as_str());
                words
            },
            FrameError::PayloadTooLarge(length) => {
                let mut words = "frame payload length ".to_owned();
                text::append_decimal(&mut words, length as u64);
                words.append(" exceeds the 1048576 byte limit");
                words
            },
        }
    }
}

/// The bytes of a frame: version and type share the first one, the channel is
/// the second, two are zero, four give the length of the payload.
pub open spec fn frame_bytes(frame: WireView) -> Seq<u8> {
    seq![(16 * FRAME_VERSION + frame.frame_type.code()) as u8, frame.channel.code(), 0u8, 0u8]
        + buffer::big_endian(frame.payload.len(), 4) + frame.payload
}

/// The length that the header of a frame gives its payload.
pub open spec fn payload_len(bytes: Seq<u8>) -> nat {
    buffer::big_endian_value(bytes.subrange(4, 8))
}

/// The frame that bytes start with. `Ok(None)` says that more bytes are
/// needed.
pub open spec fn parse_frame(bytes: Seq<u8>) -> Result<Option<WireView>, FrameError> {
    if bytes.len() < HEADER_LEN {
        Ok(None)
    } else if bytes[0] / 16 != FRAME_VERSION {
        Err(FrameError::UnsupportedVersion((bytes[0] / 16) as u8))
    } else {
        match <FrameType as vstd::std_specs::convert::TryFromSpec<u8>>::try_from_spec(
            (bytes[0] % 16) as u8,
        ) {
            Err(error) => Err(error),
            Ok(frame_type) => match <Channel as vstd::std_specs::convert::TryFromSpec<
                u8,
            >>::try_from_spec(bytes[1]) {
                Err(error) => Err(error),
                Ok(channel) => if bytes[2] != 0 {
                    Err(FrameError::UnsupportedFlags(bytes[2]))
                } else if bytes[3] != 0 {
                    Err(FrameError::NonZeroReserved(bytes[3]))
                } else if payload_len(bytes) > MAX_PAYLOAD_LEN {
                    Err(FrameError::PayloadTooLarge(payload_len(bytes) as usize))
                } else if bytes.len() < HEADER_LEN + payload_len(bytes) {
                    Ok(None)
                } else {
                    Ok(
                        Some(
                            WireView {
                                frame_type,
                                channel,
                                payload: bytes.subrange(
                                    HEADER_LEN as int,
                                    HEADER_LEN + payload_len(bytes),
                                ),
                            },
                        ),
                    )
                },
            },
        }
    }
}

/// What is left of bytes once the frame that they start with is taken out.
pub open spec fn after_frame(bytes: Seq<u8>) -> Seq<u8> {
    match parse_frame(bytes) {
        Ok(Some(frame)) => bytes.skip(HEADER_LEN + frame.payload.len()),
        _ => bytes,
    }
}

/// Writes frames.
pub struct FrameEncoder;

impl FrameEncoder {
    /// The bytes of a frame, unless its payload is too large.
    pub fn encode(frame: &WireFrame) -> (encoded: Result<Bytes, FrameError>)
        ensures
            match encoded {
                Ok(bytes) => {
                    &&& frame@.payload.len() <= MAX_PAYLOAD_LEN
                    &&& buffer::octets(bytes) == frame_bytes(frame@)
                },
                Err(error) => {
                    &&& frame@.payload.len() > MAX_PAYLOAD_LEN
                    &&& error == FrameError::PayloadTooLarge(frame@.payload.len() as usize)
                },
            },
    {
        broadcast use buffer::big_endian_len;

        let payload = buffer::as_octets(&frame.payload);
        let payload_len: usize = payload.len();
        if payload_len > MAX_PAYLOAD_LEN {
            return Err(FrameError::PayloadTooLarge(payload_len));
        }
        let mut encoded = buffer::new_buffer(HEADER_LEN + payload_len);
        buffer::put_u8(&mut encoded, FRAME_VERSION * 16 + frame.frame_type.code());
        buffer::put_u8(&mut encoded, frame.channel.code());
        buffer::put_u8(&mut encoded, 0);
        buffer::put_u8(&mut encoded, 0);
        buffer::put_u32(&mut encoded, payload_len as u32);
        buffer::extend_from_slice(&mut encoded, payload);
        assert(buffer::buffered(encoded) =~= frame_bytes(frame@));
        Ok(buffer::freeze(encoded))
    }
}

/// Reads frames from a growing buffer.
pub struct FrameDecoder;

impl FrameDecoder {
    /// Takes the frame out that the buffer starts with, once it is complete.
    ///
    /// Where there is an error, or the frame is not complete, the buffer stays
    /// as it is.
    pub fn decode(&mut self, source: &mut BytesMut) -> (frame: Result<
        Option<WireFrame>,
        FrameError,
    >)
        ensures
            match frame {
                Ok(Some(f)) => parse_frame(buffer::buffered(*old(source))) == Ok::<
                    Option<WireView>,
                    FrameError,
                >(Some(f@)),
                Ok(None) => parse_frame(buffer::buffered(*old(source))) == Ok::<
                    Option<WireView>,
                    FrameError,
                >(None),
                Err(error) => parse_frame(buffer::buffered(*old(source))) == Err::<
                    Option<WireView>,
                    FrameError,
                >(error),
            },
            buffer::buffered(*final(source)) == after_frame(buffer::buffered(*old(source))),
    {
        let ghost all = buffer::buffered(*source);
        let bytes = buffer::as_buffered(source);
        if bytes.len() < HEADER_LEN {
            return Ok(None);
        }
        let version: u8 = bytes[0] / 16;
        if version != FRAME_VERSION {
            return Err(FrameError::UnsupportedVersion(version));
        }
        let frame_type = match FrameType::try_from(bytes[0] % 16) {
            Ok(frame_type) => frame_type,
            Err(error) => {
                return Err(error);
            },
        };
        let channel = match Channel::try_from(bytes[1]) {
            Ok(channel) => channel,
            Err(error) => {
                return Err(error);
            },
        };
        if bytes[2] != 0 {
            return Err(FrameError::UnsupportedFlags(bytes[2]));
        }
        if bytes[3] != 0 {
            return Err(FrameError::NonZeroReserved(bytes[3]));
        }
        proof {
            buffer::ranges();
        }
        let payload_len: usize = buffer::read_big_endian(bytes, 4, 4) as usize;
        if payload_len > MAX_PAYLOAD_LEN {
            return Err(FrameError::PayloadTooLarge(payload_len));
        }
        let frame_len: usize = HEADER_LEN + payload_len;
        if bytes.len() < frame_len {
            return Ok(None);
        }
        let mut encoded = buffer::split_to(source, frame_len);
        let payload = buffer::freeze(buffer::split_off(&mut encoded, HEADER_LEN));
        assert(all.take(frame_len as int).skip(HEADER_LEN as int) =~= all.subrange(
            HEADER_LEN as int,
            frame_len as int,
        ));
        Ok(Some(WireFrame { frame_type, channel, payload }))
    }
}

/// A frame can be written.
pub open spec fn is_writable(frame: WireView) -> bool {
    frame.payload.len() <= MAX_PAYLOAD_LEN
}

/// The number of a frame type or a channel stands for nothing else.
proof fn codes_are_read_back(frame_type: FrameType, channel: Channel)
    ensures
        <FrameType as vstd::std_specs::convert::TryFromSpec<u8>>::try_from_spec(frame_type.code())
            == Ok::<FrameType, FrameError>(frame_type),
        <Channel as vstd::std_specs::convert::TryFromSpec<u8>>::try_from_spec(channel.code())
            == Ok::<Channel, FrameError>(channel),
        1 <= frame_type.code() <= 8,
{
}

/// Reading gives back what was written: bytes that start with those of a frame
/// are read as that frame, and what follows it is left.
pub proof fn written_frames_are_read_back(frame: WireView, rest: Seq<u8>)
    requires
        is_writable(frame),
    ensures
        parse_frame(frame_bytes(frame) + rest) == Ok::<Option<WireView>, FrameError>(Some(frame)),
        after_frame(frame_bytes(frame) + rest) == rest,
{
    broadcast use buffer::big_endian_len;

    let bytes = frame_bytes(frame) + rest;
    codes_are_read_back(frame.frame_type, frame.channel);
    buffer::ranges();
    buffer::big_endian_is_read_back(frame.payload.len(), 4);
    assert(bytes.subrange(4, 8) =~= buffer::big_endian(frame.payload.len(), 4));
    let first = bytes[0];
    assert(first == 16 + frame.frame_type.code());
    assert(first / 16 == 1 && first % 16 == frame.frame_type.code());
    assert(bytes.subrange(8, (8 + frame.payload.len()) as int) =~= frame.payload);
    assert(bytes.skip((8 + frame.payload.len()) as int) =~= rest);
}

/// Until a frame is complete, reading asks for more and takes nothing.
pub proof fn incomplete_frames_are_awaited(frame: WireView, n: int)
    requires
        is_writable(frame),
        0 <= n < frame_bytes(frame).len(),
    ensures
        parse_frame(frame_bytes(frame).take(n)) == Ok::<Option<WireView>, FrameError>(None),
        after_frame(frame_bytes(frame).take(n)) == frame_bytes(frame).take(n),
{
    broadcast use buffer::big_endian_len;

    let all = frame_bytes(frame);
    let bytes = all.take(n);
    if n >= HEADER_LEN {
        codes_are_read_back(frame.frame_type, frame.channel);
        buffer::ranges();
        buffer::big_endian_is_read_back(frame.payload.len(), 4);
        assert(bytes.subrange(4, 8) =~= buffer::big_endian(frame.payload.len(), 4));
        let first = bytes[0];
        assert(first == 16 + frame.frame_type.code());
        assert(first / 16 == 1 && first % 16 == frame.frame_type.code());
    }
}

/// Bytes that are read as a frame start with the bytes of that frame, so no
/// two frames have the same bytes and no frame has two forms.
pub proof fn read_frames_are_written_back(bytes: Seq<u8>)
    requires
        parse_frame(bytes) matches Ok(Some(_)),
    ensures
        ({
            let frame = parse_frame(bytes)->Ok_0->Some_0;
            &&& is_writable(frame)
            &&& bytes == frame_bytes(frame) + after_frame(bytes)
        }),
{
    let frame = parse_frame(bytes)->Ok_0->Some_0;
    buffer::big_endian_is_written_back(bytes.subrange(4, 8));
    assert(buffer::big_endian(frame.payload.len(), 4) == bytes.subrange(4, 8));
    assert(bytes =~= frame_bytes(frame) + after_frame(bytes));
}

/// A length beyond the bound is refused as soon as the header is there,
/// whatever follows it.
pub proof fn oversized_frames_are_refused_at_once(bytes: Seq<u8>, rest: Seq<u8>)
    requires
        bytes.len() == HEADER_LEN,
        parse_frame(bytes) == Err::<Option<WireView>, FrameError>(
            FrameError::PayloadTooLarge(payload_len(bytes) as usize),
        ),
    ensures
        parse_frame(bytes + rest) == parse_frame(bytes),
{
    assert((bytes + rest).subrange(4, 8) =~= bytes.subrange(4, 8));
}

} // verus!
