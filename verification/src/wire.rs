//! Transport-independent mesh frame encoding.
//!
//! The decoder is incremental: callers append bounded chunks to a
//! [`bytes::BytesMut`] and repeatedly call [`FrameDecoder::decode`]. Payload
//! lengths are rejected before the decoder waits for or slices the payload.

pub mod frame;
pub mod layout;
pub mod multicast;
pub mod packet;
pub mod proto;
pub mod reading;

pub use crate::wire::frame::{Channel, FrameDecoder, FrameEncoder, FrameError, FrameType, WireFrame};
pub use crate::wire::frame::{FRAME_VERSION, HEADER_LEN, MAX_PAYLOAD_LEN};
pub use crate::wire::packet::{ForwardFlags, ForwardHeader, ForwardPacket, ForwardPacketCodec};
pub use crate::wire::packet::{ForwardPacketError, PacketType, Priority};
pub use crate::wire::packet::{FORWARD_HEADER_LEN, FORWARD_PACKET_VERSION, MAX_FORWARD_PAYLOAD_LEN};
pub use crate::wire::packet::{MAX_MULTICAST_DESTINATIONS, MULTICAST_COUNT_LEN, NODE_ID_LEN};
