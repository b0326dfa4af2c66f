//! Why a runtime cannot do what it is asked.

use vstd::prelude::*;
use crate::text;
use crate::transport::{TransportError, TransportFault};
use crate::types::NodeId;
use crate::wire::frame::{Channel, FrameType};
use crate::wire::packet::ForwardPacketError;

verus! {

/// Why a sequence number could not be loaded or stored.
#[derive(Debug, Eq, PartialEq)]
pub struct SeqStoreError(String);

impl View for SeqStoreError {
    type V = Seq<char>;

    closed spec fn view(&self) -> Seq<char> {
        self.0@
    }
}

impl SeqStoreError {
    /// An error in the given words.
    pub fn new(message: String) -> (error: Self)
        ensures
            error@ == message@,
    {
        SeqStoreError(message)
    }

    /// The error in words.
    pub fn to_string(&self) -> (words: String)
        ensures
            words@ == self@,
    {
        self.0.clone()
    }
}

impl Clone for SeqStoreError {
    fn clone(&self) -> (copy: Self)
        ensures
            copy@ == self@,
    {
        SeqStoreError(self.0.clone())
    }
}

/// Why a runtime cannot do what it is asked.
#[derive(Debug, Eq, PartialEq)]
pub enum RuntimeError {
    EndpointNodeMismatch { endpoint: NodeId, configured: NodeId },
    UnexpectedFrame { frame_type: FrameType, channel: Channel },
    Protobuf(String),
    InvalidNodeIdLength(usize),
    InvalidLinkCost(u32),
    InvalidLsaTtl(u32),
    TooManyElements { field: &'static str, count: usize, limit: usize },
    SequenceExhausted,
    ForwardPacket(ForwardPacketError),
    RuntimeStopped,
    SeqStore(SeqStoreError),
    Transport(TransportError),
}

/// What a runtime cannot do. What Protocol Buffers and the operating system
/// have to say is left out.
#[verifier::ext_equal]
pub enum RuntimeFault {
    EndpointNodeMismatch { endpoint: NodeId, configured: NodeId },
    UnexpectedFrame { frame_type: FrameType, channel: Channel },
    Protobuf,
    InvalidNodeIdLength(usize),
    InvalidLinkCost(u32),
    InvalidLsaTtl(u32),
    TooManyElements { field: Seq<char>, count: usize, limit: usize },
    SequenceExhausted,
    ForwardPacket(ForwardPacketError),
    RuntimeStopped,
    SeqStore(Seq<char>),
    Transport(TransportFault),
}

impl View for RuntimeError {
    type V = RuntimeFault;

    open spec fn view(&self) -> RuntimeFault {
        match *self {
            RuntimeError::EndpointNodeMismatch { endpoint, configured } =>
                RuntimeFault::EndpointNodeMismatch { endpoint, configured },
            RuntimeError::UnexpectedFrame { frame_type, channel } =>
                RuntimeFault::UnexpectedFrame { frame_type, channel },
            RuntimeError::Protobuf(_) => RuntimeFault::Protobuf,
            RuntimeError::InvalidNodeIdLength(length) => RuntimeFault::InvalidNodeIdLength(length),
            RuntimeError::InvalidLinkCost(cost) => RuntimeFault::InvalidLinkCost(cost),
            RuntimeError::InvalidLsaTtl(ttl) => RuntimeFault::InvalidLsaTtl(ttl),
            RuntimeError::TooManyElements { field, count, limit } =>
                RuntimeFault::TooManyElements { field: field@, count, limit },
            RuntimeError::SequenceExhausted => RuntimeFault::SequenceExhausted,
            RuntimeError::ForwardPacket(error) => RuntimeFault::ForwardPacket(error),
            RuntimeError::RuntimeStopped => RuntimeFault::RuntimeStopped,
            RuntimeError::SeqStore(error) => RuntimeFault::SeqStore(error@),
            RuntimeError::Transport(error) => RuntimeFault::Transport(error@),
        }
    }
}

impl RuntimeError {
    /// The error in words.
    pub open spec fn words(self) -> Seq<char> {
        match self {
            RuntimeError::EndpointNodeMismatch { endpoint, configured } =>
                "endpoint belongs to node "@ + text::hex(endpoint.bytes())
                + ", but runtime is configured for "@ + text::hex(configured.bytes()),
            RuntimeError::UnexpectedFrame { frame_type, channel } =>
                "unexpected runtime frame type "@ + frame_type.label() + " on channel "@
                + channel.label(),
            RuntimeError::Protobuf(error) => "control protobuf is invalid: "@ + error@,
            RuntimeError::InvalidNodeIdLength(length) =>
                "control-plane NodeId must be 32 bytes, got "@ + text::decimal(length as nat),
            RuntimeError::InvalidLinkCost(cost) => "invalid link cost "@ + text::decimal(
                cost as nat,
            ),
            RuntimeError::InvalidLsaTtl(ttl) => "invalid LSA ttl_sec "@ + text::decimal(ttl as nat),
            RuntimeError::TooManyElements { field, count, limit } => field@ + " contains "@
                + text::decimal(count as nat) + " elements, limit is "@ + text::decimal(
                limit as nat,
            ),
            RuntimeError::SequenceExhausted => "LSA sequence is exhausted"@,
            RuntimeError::ForwardPacket(error) => "forward packet is invalid: "@ + error.words(),
            RuntimeError::RuntimeStopped => "runtime has stopped"@,
            RuntimeError::SeqStore(error) => "sequence persistence failed: "@ + error@,
            RuntimeError::Transport(error) => "transport operation failed: "@ + error.words(),
        }
    }

    /// The error in words.
    pub fn to_string(&self) -> (words: String)
        ensures
            words@ == self.words(),
    {
        match self {
            RuntimeError::EndpointNodeMismatch { endpoint, configured } => {
                let mut words = "endpoint belongs to node ".to_owned();
                words.append(endpoint.to_string().as_str());
                words.append(", but runtime is configured for ");
                words.append(configured.to_string().as_str());
                words
            },
            RuntimeError::UnexpectedFrame { frame_type, channel } => {
                let mut words = "unexpected runtime frame type ".to_owned();
                words.append(frame_type.name());
                words.append(" on channel ");
                words.append(channel.name());
                words
            },
            RuntimeError::Protobuf(error) => {
                let mut words = "control protobuf is invalid: ".to_owned();
                words.append(error.as_str());
                words
            },
            RuntimeError::InvalidNodeIdLength(length) => {
                let mut words = "control-plane NodeId must be 32 bytes, got ".to_owned();
                text::append_decimal(&mut words, *length as u64);
                words
            },
            RuntimeError::InvalidLinkCost(cost) => {
                let mut words = "invalid link cost ".to_owned();
                text::append_decimal(&mut words, *cost as u64);
                words
            },
            RuntimeError::InvalidLsaTtl(ttl) => {
                let mut words = "invalid LSA ttl_sec ".to_owned();
                text::append_decimal(&mut words, *ttl as u64);
                words
            },
            RuntimeError::TooManyElements { field, count, limit } => {
                let mut words = String::new();
                words.append(field);
                words.append(" contains ");
                text::append_decimal(&mut words, *count as u64);
                words.append(" elements, limit is ");
                text::append_decimal(&mut words, *limit as u64);
                words
            },
            RuntimeError::SequenceExhausted => "LSA sequence is exhausted".to_owned(),
            RuntimeError::ForwardPacket(error) => {
                let mut words = "forward packet is invalid: ".to_owned();
                words.append(error.to_string().as_str());
                words
            },
            RuntimeError::RuntimeStopped => "runtime has stopped".to_owned(),
            RuntimeError::SeqStore(error) => {
                let mut words = "sequence persistence failed: ".to_owned();
                words.append(error.to_string().as_str());
                words
            },
            RuntimeError::Transport(error) => {
                let mut words = "transport operation failed: ".to_owned();
                words.append(error.to_string().as_str());
                words
            },
        }
    }
}

} // verus!
