//! Overlay packets: what the forwarder carries from hop to hop.

use bytes::Bytes;
use vstd::prelude::*;
use crate::buffer;
use crate::text;
use crate::types::NodeId;
use crate::wire::frame::MAX_PAYLOAD_LEN;

verus! {

/// The version that every packet carries.
pub const FORWARD_PACKET_VERSION: u8 = 1;

/// The length of the header of a packet.
pub const FORWARD_HEADER_LEN: usize = 88;

/// The largest payload of a packet.
pub const MAX_FORWARD_PAYLOAD_LEN: usize = MAX_PAYLOAD_LEN - FORWARD_HEADER_LEN;

/// The largest number of destinations of a multicast packet.
pub const MAX_MULTICAST_DESTINATIONS: usize = 64;

/// The length of the number of destinations of a multicast packet.
pub const MULTICAST_COUNT_LEN: usize = 2;

/// The length of an identity.
pub const NODE_ID_LEN: usize = 32;

/// Who a packet is for.
#[derive(Clone, Copy, Debug, Eq, PartialEq, Structural)]
pub enum PacketType {
    Unicast,
    Multicast,
    CircuitData,
    CircuitControl,
}

impl PacketType {
    /// The number that stands for the type.
    pub open spec fn spec_code(self) -> u8 {
        match self {
            PacketType::Unicast => 1,
            PacketType::Multicast => 2,
            PacketType::CircuitData => 3,
            PacketType::CircuitControl => 4,
        }
    }

    /// The number that stands for the type.
    #[verifier::when_used_as_spec(spec_code)]
    pub fn code(self) -> (code: u8)
        ensures
            code == self.spec_code(),
    {
        match self {
            PacketType::Unicast => 1,
            PacketType::Multicast => 2,
            PacketType::CircuitData => 3,
            PacketType::CircuitControl => 4,
        }
    }
}

impl TryFrom<u8> for PacketType {
    type Error = ForwardPacketError;

    fn try_from(value: u8) -> (packet_type: Result<Self, ForwardPacketError>) {
        match value {
            1 => Ok(PacketType::Unicast),
            2 => Ok(PacketType::Multicast),
            3 => Ok(PacketType::CircuitData),
            4 => Ok(PacketType::CircuitControl),
            _ => Err(ForwardPacketError::UnknownPacketType(value)),
        }
    }
}

impl vstd::std_specs::convert::TryFromSpecImpl<u8> for PacketType {
    open spec fn obeys_try_from_spec() -> bool {
        true
    }

    open spec fn try_from_spec(value: u8) -> Result<Self, ForwardPacketError> {
        match value {
            1 => Ok(PacketType::Unicast),
            2 => Ok(PacketType::Multicast),
            3 => Ok(PacketType::CircuitData),
            4 => Ok(PacketType::CircuitControl),
            _ => Err(ForwardPacketError::UnknownPacketType(value)),
        }
    }
}

/// How urgent a packet is; `P0` is the most urgent.
#[derive(Clone, Copy, Debug, Eq, PartialEq, Structural)]
pub enum Priority {
    P0,
    P1,
    P2,
    P3,
}

impl Priority {
    /// The number that stands for the priority.
    pub open spec fn spec_code(self) -> u8 {
        match self {
            Priority::P0 => 0,
            Priority::P1 => 1,
            Priority::P2 => 2,
            Priority::P3 => 3,
        }
    }

    /// The number that stands for the priority.
    #[verifier::when_used_as_spec(spec_code)]
    pub fn code(self) -> (code: u8)
        ensures
            code == self.spec_code(),
    {
        match self {
            Priority::P0 => 0,
            Priority::P1 => 1,
            Priority::P2 => 2,
            Priority::P3 => 3,
        }
    }
}

impl TryFrom<u8> for Priority {
    type Error = ForwardPacketError;

    fn try_from(value: u8) -> (priority: Result<Self, ForwardPacketError>) {
        match value {
            0 => Ok(Priority::P0),
            1 => Ok(Priority::P1),
            2 => Ok(Priority::P2),
            3 => Ok(Priority::P3),
            _ => Err(ForwardPacketError::UnknownPriority(value)),
        }
    }
}

impl vstd::std_specs::convert::TryFromSpecImpl<u8> for Priority {
    open spec fn obeys_try_from_spec() -> bool {
        true
    }

    open spec fn try_from_spec(value: u8) -> Result<Self, ForwardPacketError> {
        match value {
            0 => Ok(Priority::P0),
            1 => Ok(Priority::P1),
            2 => Ok(Priority::P2),
            3 => Ok(Priority::P3),
            _ => Err(ForwardPacketError::UnknownPriority(value)),
        }
    }
}

/// Properties of a packet, one bit each.
#[derive(Clone, Copy, Debug, Eq, PartialEq, Structural)]
pub struct ForwardFlags(u32);

impl ForwardFlags {
    /// The packet must not go by datagram.
    pub const RELIABLE_HINT: u32 = 1;

    /// A newer packet may take the place of this one in a queue.
    pub const CONFLATABLE: u32 = 2;

    /// The payload is compressed.
    pub const COMPRESSED: u32 = 4;

    /// Only known bits are set.
    #[verifier::type_invariant]
    pub closed spec fn is_supported(self) -> bool {
        self.0 < 8
    }

    /// The bits that are set.
    pub closed spec fn spec_bits(self) -> u32 {
        self.0
    }

    /// Flags with the given bits.
    pub closed spec fn of(bits: u32) -> ForwardFlags {
        ForwardFlags(bits)
    }

    /// Flags are known by their bits.
    pub broadcast proof fn of_bits(bits: u32)
        ensures
            (#[trigger] ForwardFlags::of(bits)).bits() == bits,
            ForwardFlags::of(bits).is_supported() == (bits < 8),
    {
    }

    /// Flags are the ones with their bits.
    pub broadcast proof fn bits_of(self)
        ensures
            ForwardFlags::of(#[trigger] self.bits()) == self,
            self.is_supported() == (self.bits() < 8),
    {
    }

    /// No flags.
    pub fn empty() -> (flags: Self)
        ensures
            flags.bits() == 0,
    {
        ForwardFlags(0)
    }

    /// The flags with the given bits, unless one of them is not known.
    pub fn from_bits(bits: u32) -> (flags: Result<Self, ForwardPacketError>)
        ensures
            flags == if bits < 8 {
                Ok::<ForwardFlags, ForwardPacketError>(ForwardFlags::of(bits))
            } else {
                Err(ForwardPacketError::UnsupportedFlags(bits))
            },
    {
        if bits < 8 {
            Ok(ForwardFlags(bits))
        } else {
            Err(ForwardPacketError::UnsupportedFlags(bits))
        }
    }

    /// The bits that are set.
    #[verifier::when_used_as_spec(spec_bits)]
    pub fn bits(self) -> (bits: u32)
        ensures
            bits == self.spec_bits(),
            bits < 8,
    {
        proof {
            use_type_invariant(&self);
        }
        self.0
    }

    /// Whether all the bits of `flag` are set.
    pub fn contains(self, flag: u32) -> (set: bool)
        ensures
            set == (self.bits() & flag == flag),
    {
        self.0 & flag == flag
    }
}

impl Default for ForwardFlags {
    /// No flags.
    fn default() -> (flags: Self)
        ensures
            flags.bits() == 0,
    {
        ForwardFlags(0)
    }
}

/// What a hop needs to know of a packet.
#[derive(Clone, Copy, Debug, Eq, PartialEq)]
pub struct ForwardHeader {
    pub packet_type: PacketType,
    pub priority: Priority,
    pub ttl: u8,
    pub flags: ForwardFlags,
    pub destination: NodeId,
    pub source: NodeId,
    pub flow_id: u64,
    pub conflate_key: u64,
}

/// A packet.
#[derive(Debug, Eq, PartialEq)]
pub struct ForwardPacket {
    pub header: ForwardHeader,
    pub payload: Bytes,
}

/// What a packet says.
#[verifier::ext_equal]
pub struct PacketView {
    pub header: ForwardHeader,
    pub payload: Seq<u8>,
}

impl View for ForwardPacket {
    type V = PacketView;

    open spec fn view(&self) -> PacketView {
        PacketView { header: self.header, payload: buffer::octets(self.payload) }
    }
}

impl Clone for ForwardPacket {
    fn clone(&self) -> (copy: Self)
        ensures
            copy@ == self@,
    {
        ForwardPacket { header: self.header, payload: buffer::share(&self.payload) }
    }
}

/// Why bytes are not a packet, or a packet cannot be written.
#[derive(Clone, Copy, Debug, Eq, PartialEq, Structural)]
pub enum ForwardPacketError {
    HeaderTooShort(usize),
    UnsupportedVersion(u8),
    UnknownPacketType(u8),
    UnknownPriority(u8),
    UnsupportedFlags(u32),
    PayloadTooLarge(usize),
}

impl ForwardPacketError {
    /// The error in words.
    pub open spec fn words(self) -> Seq<char> {
        match self {
            ForwardPacketError::HeaderTooShort(length) => "forward packet is "@ + text::decimal(
                length as nat,
            ) + " bytes, shorter than the 88 byte header"@,
            ForwardPacketError::UnsupportedVersion(version) =>
                "unsupported forward packet version "@ + text::decimal(version as nat),
            ForwardPacketError::UnknownPacketType(packet_type) => "unknown forward packet type "@
                + text::decimal(packet_type as nat),
            ForwardPacketError::UnknownPriority(priority) => "unknown forward packet priority "@
                + text::decimal(priority as nat),
            ForwardPacketError::UnsupportedFlags(flags) => "unsupported forward packet flags 0x"@
                + text::hex(buffer::big_endian(flags as nat, 4)),
            ForwardPacketError::PayloadTooLarge(length) => "forward packet payload length "@
                + text::decimal(length as nat) + " exceeds the 1048488 byte limit"@,
        }
    }

    /// The error in words.
    pub fn to_string(&self) -> (words: String)
        ensures
            words@ == self.words(),
    {
        match *self {
            ForwardPacketError::HeaderTooShort(length) => {
                let mut words = "forward packet is ".to_owned();
                text::append_decimal(&mut words, length as u64);
                words.append(" bytes, shorter than the 88 byte header");
                words
            },
            ForwardPacketError::UnsupportedVersion(version) => {
                let mut words = "unsupported forward packet version ".to_owned();
                text::append_decimal(&mut words, version as u64);
                words
            },
            ForwardPacketError::UnknownPacketType(packet_type) => {
                let mut words = "unknown forward packet type ".to_owned();
                text::append_decimal(&mut words, packet_type as u64);
                words
            },
            ForwardPacketError::UnknownPriority(priority) => {
                let mut words = "unknown forward packet priority ".to_owned();
                text::append_decimal(&mut words, priority as u64);
                words
            },
            ForwardPacketError::UnsupportedFlags(flags) => {
                let mut words = "unsupported forward packet flags 0x".to_owned();
                let bytes = buffer::to_big_endian(flags);
                words.append(text::hex_text(bytes.as_slice()).as_str());
                words
            },
            ForwardPacketError::PayloadTooLarge(length) => {
                let mut words = "forward packet payload length ".to_owned();
                text::append_decimal(&mut words, length as u64);
                words.append(" exceeds the 1048488 byte limit");
                words
            },
        }
    }
}

/// The bytes of a header.
pub open spec fn header_bytes(header: ForwardHeader) -> Seq<u8> {
    seq![
        FORWARD_PACKET_VERSION,
        header.packet_type.code(),
        header.priority.code(),
        header.ttl,
    ] + buffer::big_endian(header.flags.bits() as nat, 4) + header.destination.bytes()
        + header.source.bytes() + buffer::big_endian(header.flow_id as nat, 8)
        + buffer::big_endian(header.conflate_key as nat, 8)
}

/// The bytes of a packet.
pub open spec fn packet_bytes(packet: PacketView) -> Seq<u8> {
    header_bytes(packet.header) + packet.payload
}

/// The bits that bytes give the flags of a packet.
pub open spec fn flag_bits(bytes: Seq<u8>) -> u32 {
    buffer::big_endian_value(bytes.subrange(4, 8)) as u32
}

/// The packet that bytes are.
pub open spec fn parse_packet(bytes: Seq<u8>) -> Result<PacketView, ForwardPacketError> {
    if bytes.len() < FORWARD_HEADER_LEN {
        Err(ForwardPacketError::HeaderTooShort(bytes.len() as usize))
    } else if bytes.len() - FORWARD_HEADER_LEN > MAX_FORWARD_PAYLOAD_LEN {
        Err(ForwardPacketError::PayloadTooLarge((bytes.len() - FORWARD_HEADER_LEN) as usize))
    } else if bytes[0] != FORWARD_PACKET_VERSION {
        Err(ForwardPacketError::UnsupportedVersion(bytes[0]))
    } else {
        match <PacketType as vstd::std_specs::convert::TryFromSpec<u8>>::try_from_spec(bytes[1]) {
            Err(error) => Err(error),
            Ok(packet_type) => match <Priority as vstd::std_specs::convert::TryFromSpec<
                u8,
            >>::try_from_spec(bytes[2]) {
                Err(error) => Err(error),
                Ok(priority) => if flag_bits(bytes) >= 8 {
                    Err(ForwardPacketError::UnsupportedFlags(flag_bits(bytes)))
                } else {
                    Ok(
                        PacketView {
                            header: ForwardHeader {
                                packet_type,
                                priority,
                                ttl: bytes[3],
                                flags: ForwardFlags::of(flag_bits(bytes)),
                                destination: NodeId::of(bytes.subrange(8, 40)),
                                source: NodeId::of(bytes.subrange(40, 72)),
                                flow_id: buffer::big_endian_value(bytes.subrange(72, 80)) as u64,
                                conflate_key: buffer::big_endian_value(
                                    bytes.subrange(80, 88),
                                ) as u64,
                            },
                            payload: bytes.skip(FORWARD_HEADER_LEN as int),
                        },
                    )
                },
            },
        }
    }
}

/// Writes and reads packets.
pub struct ForwardPacketCodec;

impl ForwardPacketCodec {
    /// The bytes of a packet, unless its payload is too large.
    pub fn encode(packet: &ForwardPacket) -> (encoded: Result<Bytes, ForwardPacketError>)
        ensures
            packet@.header.flags.is_supported(),
            match encoded {
                Ok(bytes) => {
                    &&& packet@.payload.len() <= MAX_FORWARD_PAYLOAD_LEN
                    &&& buffer::octets(bytes) == packet_bytes(packet@)
                },
                Err(error) => {
                    &&& packet@.payload.len() > MAX_FORWARD_PAYLOAD_LEN
                    &&& error == ForwardPacketError::PayloadTooLarge(
                        packet@.payload.len() as usize,
                    )
                },
            },
    {
        broadcast use buffer::big_endian_len;

        proof {
            use_type_invariant(&packet.header.flags);
            packet.header.destination.bytes_len();
            packet.header.source.bytes_len();
        }
        let payload = buffer::as_octets(&packet.payload);
        if payload.len() > MAX_FORWARD_PAYLOAD_LEN {
            return Err(ForwardPacketError::PayloadTooLarge(payload.len()));
        }
        let mut encoded = buffer::new_buffer(FORWARD_HEADER_LEN + payload.len());
        buffer::put_u8(&mut encoded, FORWARD_PACKET_VERSION);
        buffer::put_u8(&mut encoded, packet.header.packet_type.code());
        buffer::put_u8(&mut encoded, packet.header.priority.code());
        buffer::put_u8(&mut encoded, packet.header.ttl);
        buffer::put_u32(&mut encoded, packet.header.flags.bits());
        buffer::extend_from_slice(&mut encoded, packet.header.destination.as_bytes().as_slice());
        buffer::extend_from_slice(&mut encoded, packet.header.source.as_bytes().as_slice());
        buffer::put_u64(&mut encoded, packet.header.flow_id);
        buffer::put_u64(&mut encoded, packet.header.conflate_key);
        buffer::extend_from_slice(&mut encoded, payload);
        assert(buffer::buffered(encoded) =~= packet_bytes(packet@));
        Ok(buffer::freeze(encoded))
    }

    /// The packet that the bytes are.
    pub fn decode(encoded: Bytes) -> (packet: Result<ForwardPacket, ForwardPacketError>)
        ensures
            match packet {
                Ok(p) => parse_packet(buffer::octets(encoded)) == Ok::<
                    PacketView,
                    ForwardPacketError,
                >(p@),
                Err(error) => parse_packet(buffer::octets(encoded)) == Err::<
                    PacketView,
                    ForwardPacketError,
                >(error),
            },
    {
        let bytes = buffer::as_octets(&encoded);
        if bytes.len() < FORWARD_HEADER_LEN {
            return Err(ForwardPacketError::HeaderTooShort(bytes.len()));
        }
        if bytes.len() - FORWARD_HEADER_LEN > MAX_FORWARD_PAYLOAD_LEN {
            return Err(ForwardPacketError::PayloadTooLarge(bytes.len() - FORWARD_HEADER_LEN));
        }
        if bytes[0] != FORWARD_PACKET_VERSION {
            return Err(ForwardPacketError::UnsupportedVersion(bytes[0]));
        }
        let packet_type = match PacketType::try_from(bytes[1]) {
            Ok(packet_type) => packet_type,
            Err(error) => {
                return Err(error);
            },
        };
        let priority = match Priority::try_from(bytes[2]) {
            Ok(priority) => priority,
            Err(error) => {
                return Err(error);
            },
        };
        proof {
            buffer::ranges();
        }
        let flags = match ForwardFlags::from_bits(buffer::read_big_endian(bytes, 4, 4) as u32) {
            Ok(flags) => flags,
            Err(error) => {
                return Err(error);
            },
        };
        let header = ForwardHeader {
            packet_type,
            priority,
            ttl: bytes[3],
            flags,
            destination: NodeId::read(bytes, 8),
            source: NodeId::read(bytes, 40),
            flow_id: buffer::read_big_endian(bytes, 72, 8),
            conflate_key: buffer::read_big_endian(bytes, 80, 8),
        };
        Ok(ForwardPacket { header, payload: buffer::slice_from(&encoded, FORWARD_HEADER_LEN) })
    }
}

/// A packet can be written.
pub open spec fn is_writable(packet: PacketView) -> bool {
    packet.payload.len() <= MAX_FORWARD_PAYLOAD_LEN && packet.header.flags.is_supported()
}

/// Reading gives back what was written.
pub proof fn written_packets_are_read_back(packet: PacketView)
    requires
        is_writable(packet),
    ensures
        parse_packet(packet_bytes(packet)) == Ok::<PacketView, ForwardPacketError>(packet),
{
    broadcast use {buffer::big_endian_len, ForwardFlags::of_bits, ForwardFlags::bits_of};

    let header = packet.header;
    let bytes = packet_bytes(packet);
    header.destination.bytes_len();
    header.source.bytes_len();
    header.destination.of_own_bytes();
    header.source.of_own_bytes();
    buffer::ranges();
    buffer::big_endian_is_read_back(header.flags.bits() as nat, 4);
    buffer::big_endian_is_read_back(header.flow_id as nat, 8);
    buffer::big_endian_is_read_back(header.conflate_key as nat, 8);
    assert(bytes.subrange(4, 8) =~= buffer::big_endian(header.flags.bits() as nat, 4));
    assert(bytes.subrange(8, 40) =~= header.destination.bytes());
    assert(bytes.subrange(40, 72) =~= header.source.bytes());
    assert(bytes.subrange(72, 80) =~= buffer::big_endian(header.flow_id as nat, 8));
    assert(bytes.subrange(80, 88) =~= buffer::big_endian(header.conflate_key as nat, 8));
    assert(bytes.skip(88) =~= packet.payload);
    assert(bytes[0] == FORWARD_PACKET_VERSION);
    assert(bytes[1] == header.packet_type.code());
    assert(bytes[2] == header.priority.code());
    assert(bytes[3] == header.ttl);
}

/// Bytes that are read as a packet are the bytes of that packet, so no two
/// packets have the same bytes and no packet has two forms.
pub proof fn read_packets_are_written_back(bytes: Seq<u8>)
    requires
        parse_packet(bytes) is Ok,
    ensures
        is_writable(parse_packet(bytes)->Ok_0),
        packet_bytes(parse_packet(bytes)->Ok_0) == bytes,
{
    broadcast use {buffer::big_endian_len, ForwardFlags::of_bits};

    let packet = parse_packet(bytes)->Ok_0;
    buffer::ranges();
    buffer::big_endian_is_written_back(bytes.subrange(4, 8));
    buffer::big_endian_is_written_back(bytes.subrange(72, 80));
    buffer::big_endian_is_written_back(bytes.subrange(80, 88));
    NodeId::bytes_of(bytes.subrange(8, 40));
    NodeId::bytes_of(bytes.subrange(40, 72));
    assert(packet_bytes(packet) =~= bytes);
}

} // verus!
