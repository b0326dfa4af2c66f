//! Envelopes: messages of a topic on the wire.

use bytes::{Bytes, BytesMut};
use prost::DecodeError;
use vstd::prelude::*;
use crate::buffer;
use crate::buffer::MAX_BUFFERED;
use crate::protobuf;
use crate::protobuf::{LENGTH_DELIMITED, MAX_LEVELS};
use crate::pubsub::topic;
use crate::pubsub::topic::{TopicError, TopicKey, TopicView};
use crate::text;
use crate::types::NodeId;

verus! {

/// A message of a topic.
#[derive(Debug, Eq, PartialEq)]
pub struct Envelope {
    pub origin: NodeId,
    pub topic: TopicKey,
    pub seq: u64,
    pub ts_ms: u64,
    pub payload: Bytes,
}

/// What an envelope says.
#[verifier::ext_equal]
pub struct EnvelopeView {
    pub origin: NodeId,
    pub topic: TopicView,
    pub seq: u64,
    pub ts_ms: u64,
    pub payload: Seq<u8>,
}

impl View for Envelope {
    type V = EnvelopeView;

    open spec fn view(&self) -> EnvelopeView {
        EnvelopeView {
            origin: self.origin,
            topic: self.topic@,
            seq: self.seq,
            ts_ms: self.ts_ms,
            payload: buffer::octets(self.payload),
        }
    }
}

impl Clone for Envelope {
    fn clone(&self) -> (copy: Self)
        ensures
            copy@ == self@,
    {
        Envelope {
            origin: self.origin,
            topic: self.topic.clone(),
            seq: self.seq,
            ts_ms: self.ts_ms,
            payload: buffer::share(&self.payload),
        }
    }
}

/// Why bytes are not an envelope, or an envelope cannot be written.
#[derive(Debug, Eq, PartialEq)]
pub enum EnvelopeError {
    NotPubSub,
    Protobuf(String),
    InvalidOriginLength(usize),
    InvalidSequence,
    InvalidTopic(TopicError),
}

/// What is wrong with an envelope. What Protocol Buffers have to say of bytes
/// that are no message is left out.
pub enum EnvelopeFault {
    NotPubSub,
    Protobuf,
    InvalidOriginLength(usize),
    InvalidSequence,
    InvalidTopic(TopicError),
}

impl View for EnvelopeError {
    type V = EnvelopeFault;

    open spec fn view(&self) -> EnvelopeFault {
        match *self {
            EnvelopeError::NotPubSub => EnvelopeFault::NotPubSub,
            EnvelopeError::Protobuf(_) => EnvelopeFault::Protobuf,
            EnvelopeError::InvalidOriginLength(length) => EnvelopeFault::InvalidOriginLength(
                length,
            ),
            EnvelopeError::InvalidSequence => EnvelopeFault::InvalidSequence,
            EnvelopeError::InvalidTopic(error) => EnvelopeFault::InvalidTopic(error),
        }
    }
}

impl Clone for EnvelopeError {
    fn clone(&self) -> (copy: Self)
        ensures
            copy == *self,
    {
        match self {
            EnvelopeError::NotPubSub => EnvelopeError::NotPubSub,
            EnvelopeError::Protobuf(text) => EnvelopeError::Protobuf(text.clone()),
            EnvelopeError::InvalidOriginLength(length) => EnvelopeError::InvalidOriginLength(
                *length,
            ),
            EnvelopeError::InvalidSequence => EnvelopeError::InvalidSequence,
            EnvelopeError::InvalidTopic(error) => EnvelopeError::InvalidTopic(*error),
        }
    }
}

impl EnvelopeError {
    /// The error in words.
    pub open spec fn words(self) -> Seq<char> {
        match self {
            EnvelopeError::NotPubSub => "payload is not a mesh-bus Pub/Sub envelope"@,
            EnvelopeError::Protobuf(text) => "Pub/Sub envelope protobuf is invalid: "@ + text@,
            EnvelopeError::InvalidOriginLength(length) => "Pub/Sub origin must be 32 bytes, got "@
                + text::decimal(length as nat),
            EnvelopeError::InvalidSequence => "Pub/Sub sequence must be non-zero"@,
            EnvelopeError::InvalidTopic(error) => "invalid Pub/Sub topic: "@ + error.words(),
        }
    }

    /// The error in words.
    pub fn to_string(&self) -> (words: String)
        ensures
            words@ == self.words(),
    {
        match self {
            EnvelopeError::NotPubSub => "payload is not a mesh-bus Pub/Sub envelope".to_owned(),
            EnvelopeError::Protobuf(error) => {
                let mut words = "Pub/Sub envelope protobuf is invalid: ".to_owned();
                words.append(error.as_str());
                words
            },
            EnvelopeError::InvalidOriginLength(length) => {
                let mut words = "Pub/Sub origin must be 32 bytes, got ".to_owned();
                text::append_decimal(&mut words, *length as u64);
                words
            },
            EnvelopeError::InvalidSequence => "Pub/Sub sequence must be non-zero".to_owned(),
            EnvelopeError::InvalidTopic(error) => {
                let mut words = "invalid Pub/Sub topic: ".to_owned();
                words.append(error.to_string().as_str());
                words
            },
        }
    }
}

/// The bytes that every envelope starts with: "MBPS".
pub open spec fn magic() -> Seq<u8> {
    seq![0x4du8, 0x42u8, 0x50u8, 0x53u8]
}

/// The number of bytes that every envelope starts with.
pub const MAGIC_LEN: usize = 4;

/// The fields of an envelope message as they stand on the wire.
#[verifier::ext_equal]
pub struct FieldsView {
    pub origin: Seq<u8>,
    pub topic: Seq<char>,
    pub partition: Seq<u8>,
    pub seq: u64,
    pub ts_ms: u64,
    pub payload: Seq<u8>,
}

/// A message without fields.
pub open spec fn no_fields() -> FieldsView {
    FieldsView {
        origin: Seq::empty(),
        topic: Seq::empty(),
        partition: Seq::empty(),
        seq: 0,
        ts_ms: 0,
        payload: Seq::empty(),
    }
}

/// The bytes of an envelope message.
pub open spec fn fields_bytes(fields: FieldsView) -> Seq<u8> {
    protobuf::optional_bytes(1, fields.origin) + protobuf::optional_bytes(
        2,
        topic::utf8(fields.topic),
    ) + protobuf::optional_bytes(3, fields.partition) + protobuf::optional_uint(
        4,
        fields.seq as nat,
    ) + protobuf::optional_uint(5, fields.ts_ms as nat) + protobuf::optional_bytes(
        6,
        fields.payload,
    )
}

/// The fields of an envelope.
pub open spec fn fields_of(envelope: EnvelopeView) -> FieldsView {
    FieldsView {
        origin: envelope.origin.bytes(),
        topic: envelope.topic.name,
        partition: envelope.topic.partition,
        seq: envelope.seq,
        ts_ms: envelope.ts_ms,
        payload: envelope.payload,
    }
}

/// The bytes of an envelope.
pub open spec fn envelope_bytes(envelope: EnvelopeView) -> Seq<u8> {
    magic() + fields_bytes(fields_of(envelope))
}

/// What is wrong with an envelope, if anything is.
pub open spec fn envelope_fault(envelope: EnvelopeView) -> Option<EnvelopeFault> {
    match topic::topic_fault(envelope.topic) {
        Some(error) => Some(EnvelopeFault::InvalidTopic(error)),
        None => if envelope.seq == 0 {
            Some(EnvelopeFault::InvalidSequence)
        } else {
            None
        },
    }
}

/// Takes one field in, and gives what follows it.
#[verifier::opaque]
pub open spec fn merge_field(fields: FieldsView, tag: u32, wire: u8, bytes: Seq<u8>) -> Option<
    (FieldsView, Seq<u8>),
> {
    if tag == 1 {
        match protobuf::take_bytes(wire, bytes) {
            Some((origin, rest)) => Some((FieldsView { origin, ..fields }, rest)),
            None => None,
        }
    } else if tag == 2 {
        match protobuf::take_bytes(wire, bytes) {
            Some((name, rest)) => if vstd::utf8::valid_utf8(name) {
                Some((FieldsView { topic: vstd::utf8::decode_utf8(name), ..fields }, rest))
            } else {
                None
            },
            None => None,
        }
    } else if tag == 3 {
        match protobuf::take_bytes(wire, bytes) {
            Some((partition, rest)) => Some((FieldsView { partition, ..fields }, rest)),
            None => None,
        }
    } else if tag == 4 {
        match protobuf::take_uint(wire, bytes) {
            Some((seq, rest)) => Some((FieldsView { seq: seq as u64, ..fields }, rest)),
            None => None,
        }
    } else if tag == 5 {
        match protobuf::take_uint(wire, bytes) {
            Some((ts_ms, rest)) => Some((FieldsView { ts_ms: ts_ms as u64, ..fields }, rest)),
            None => None,
        }
    } else if tag == 6 {
        match protobuf::take_bytes(wire, bytes) {
            Some((payload, rest)) => Some((FieldsView { payload, ..fields }, rest)),
            None => None,
        }
    } else {
        match protobuf::after_unknown(MAX_LEVELS as nat, wire, tag, bytes) {
            Some(rest) => Some((fields, rest)),
            None => None,
        }
    }
}

/// Takes all fields of a message in, one after the other. The last one with a
/// tag counts; fields that are not known are skipped.
#[verifier::opaque]
pub open spec fn merge_fields(fields: FieldsView, bytes: Seq<u8>) -> Option<FieldsView>
    decreases bytes.len(),
{
    if bytes.len() == 0 {
        Some(fields)
    } else {
        match protobuf::take_key(bytes) {
            None => None,
            Some((tag, wire, body)) => match merge_field(fields, tag, wire, body) {
                None => None,
                Some((next, rest)) => if rest.len() < bytes.len() {
                    merge_fields(next, rest)
                } else {
                    None
                },
            },
        }
    }
}

/// The envelope that fields are.
pub open spec fn envelope_of(fields: FieldsView) -> Result<EnvelopeView, EnvelopeFault> {
    let topic = TopicView { name: fields.topic, partition: fields.partition };
    if fields.origin.len() != 32 {
        Err(EnvelopeFault::InvalidOriginLength(fields.origin.len() as usize))
    } else if fields.seq == 0 {
        Err(EnvelopeFault::InvalidSequence)
    } else {
        match topic::topic_fault(topic) {
            Some(error) => Err(EnvelopeFault::InvalidTopic(error)),
            None => Ok(
                EnvelopeView {
                    origin: NodeId::of(fields.origin),
                    topic,
                    seq: fields.seq,
                    ts_ms: fields.ts_ms,
                    payload: fields.payload,
                },
            ),
        }
    }
}

/// Bytes start like an envelope.
pub open spec fn is_envelope_like(bytes: Seq<u8>) -> bool {
    bytes.len() >= MAGIC_LEN && bytes.take(MAGIC_LEN as int) == magic()
}

/// The envelope that bytes are.
pub open spec fn parse_envelope(bytes: Seq<u8>) -> Result<EnvelopeView, EnvelopeFault> {
    if !is_envelope_like(bytes) {
        Err(EnvelopeFault::NotPubSub)
    } else {
        match merge_fields(no_fields(), bytes.skip(MAGIC_LEN as int)) {
            None => Err(EnvelopeFault::Protobuf),
            Some(fields) => envelope_of(fields),
        }
    }
}

/// The fields of an envelope message.
struct WireEnvelope {
    origin: Bytes,
    topic: String,
    partition: Bytes,
    seq: u64,
    ts_ms: u64,
    payload: Bytes,
}

impl View for WireEnvelope {
    type V = FieldsView;

    closed spec fn view(&self) -> FieldsView {
        FieldsView {
            origin: buffer::octets(self.origin),
            topic: self.topic@,
            partition: buffer::octets(self.partition),
            seq: self.seq,
            ts_ms: self.ts_ms,
            payload: buffer::octets(self.payload),
        }
    }
}

impl WireEnvelope {
    /// A message without fields.
    fn new() -> (wire: Self)
        ensures
            wire@ == no_fields(),
    {
        let wire = WireEnvelope {
            origin: buffer::to_bytes(Vec::new()),
            topic: String::new(),
            partition: buffer::to_bytes(Vec::new()),
            seq: 0,
            ts_ms: 0,
            payload: buffer::to_bytes(Vec::new()),
        };
        assert(wire@ =~= no_fields());
        wire
    }

    /// Takes one field in.
    fn merge_field(&mut self, tag: u32, wire: u8, source: &mut Bytes) -> (merged: Result<
        (),
        DecodeError,
    >)
        ensures
            match merged {
                Ok(_) => merge_field(old(self)@, tag, wire, buffer::octets(*old(source))) == Some(
                    (final(self)@, buffer::octets(*final(source))),
                ),
                Err(_) => merge_field(old(self)@, tag, wire, buffer::octets(*old(source))) is None,
            },
            merged is Ok ==> buffer::octets(*final(source)).len() <= buffer::octets(
                *old(source),
            ).len(),
    {
        let ghost before = self@;
        proof {
            reveal(merge_field);
            protobuf::taking_shortens(wire, tag, buffer::octets(*source));
        }
        match tag {
            1 => match protobuf::get_bytes(wire, source) {
                Ok(value) => {
                    self.origin = value;
                    assert(self@ =~= FieldsView { origin: buffer::octets(value), ..before });
                    Ok(())
                },
                Err(error) => Err(protobuf::located(error, "WireEnvelope", "origin")),
            },
            2 => match protobuf::get_string(wire, source) {
                Ok(value) => {
                    self.topic = value;
                    assert(self@ =~= FieldsView { topic: value@, ..before });
                    Ok(())
                },
                Err(error) => Err(protobuf::located(error, "WireEnvelope", "topic")),
            },
            3 => match protobuf::get_bytes(wire, source) {
                Ok(value) => {
                    self.partition = value;
                    assert(self@ =~= FieldsView { partition: buffer::octets(value), ..before });
                    Ok(())
                },
                Err(error) => Err(protobuf::located(error, "WireEnvelope", "partition")),
            },
            4 => match protobuf::get_uint64(wire, source) {
                Ok(value) => {
                    self.seq = value;
                    assert(self@ =~= FieldsView { seq: value, ..before });
                    Ok(())
                },
                Err(error) => Err(protobuf::located(error, "WireEnvelope", "seq")),
            },
            5 => match protobuf::get_uint64(wire, source) {
                Ok(value) => {
                    self.ts_ms = value;
                    assert(self@ =~= FieldsView { ts_ms: value, ..before });
                    Ok(())
                },
                Err(error) => Err(protobuf::located(error, "WireEnvelope", "ts_ms")),
            },
            6 => match protobuf::get_bytes(wire, source) {
                Ok(value) => {
                    self.payload = value;
                    assert(self@ =~= FieldsView { payload: buffer::octets(value), ..before });
                    Ok(())
                },
                Err(error) => Err(protobuf::located(error, "WireEnvelope", "payload")),
            },
            _ => protobuf::skip_unknown(wire, tag, source),
        }
    }

    /// The message that bytes are.
    fn decode(source: Bytes) -> (wire: Result<Self, DecodeError>)
        ensures
            match wire {
                Ok(w) => merge_fields(no_fields(), buffer::octets(source)) == Some(w@),
                Err(_) => merge_fields(no_fields(), buffer::octets(source)) is None,
            },
    {
        let ghost all = buffer::octets(source);
        let mut rest = source;
        let mut message = WireEnvelope::new();
        while buffer::as_octets(&rest).len() > 0
            invariant
                all == buffer::octets(source),
                merge_fields(no_fields(), all) == merge_fields(message@, buffer::octets(rest)),
            decreases buffer::octets(rest).len(),
        {
            let ghost before = buffer::octets(rest);
            proof {
                reveal(merge_fields);
            }
            let (tag, wire) = match protobuf::get_key(&mut rest) {
                Ok(key) => key,
                Err(error) => {
                    return Err(error);
                },
            };
            proof {
                protobuf::taking_shortens(wire, tag, before);
            }
            match message.merge_field(tag, wire, &mut rest) {
                Ok(_) => {},
                Err(error) => {
                    return Err(error);
                },
            }
        }
        proof {
            reveal(merge_fields);
        }
        Ok(message)
    }
}

/// Writes and reads envelopes.
pub struct EnvelopeCodec;

impl EnvelopeCodec {
    /// Whether bytes start like an envelope.
    pub fn is_envelope(encoded: &Bytes) -> (like: bool)
        ensures
            like == is_envelope_like(buffer::octets(*encoded)),
    {
        let bytes = buffer::as_octets(encoded);
        if bytes.len() < MAGIC_LEN {
            return false;
        }
        let like: bool = bytes[0] == 0x4d && bytes[1] == 0x42 && bytes[2] == 0x50 && bytes[3]
            == 0x53;
        proof {
            let start = bytes@.take(4);
            if like {
                assert(start =~= magic());
            } else {
                assert(start[0] == bytes@[0] && start[1] == bytes@[1] && start[2] == bytes@[2]
                    && start[3] == bytes@[3]);
            }
        }
        like
    }

    /// The number of bytes of a field that holds bytes.
    fn optional_len(len: usize) -> (n: u128)
        ensures
            n <= len + 12,
            forall|tag: u32, value: Seq<u8>|
                1 <= tag <= 15 && value.len() == len ==> n == #[trigger] protobuf::optional_bytes(
                    tag,
                    value,
                ).len(),
    {
        if len == 0 {
            0
        } else {
            let prefix: usize = protobuf::varint_len(len as u64);
            1 + prefix as u128 + len as u128
        }
    }

    /// The number of bytes of a field that holds a number.
    fn optional_number_len(value: u64) -> (n: u128)
        ensures
            n <= 12,
            forall|tag: u32|
                1 <= tag <= 15 ==> n == #[trigger] protobuf::optional_uint(
                    tag,
                    value as nat,
                ).len(),
    {
        if value == 0 {
            0
        } else {
            1 + protobuf::varint_len(value) as u128
        }
    }

    /// The number of bytes that an envelope takes.
    pub(crate) fn encoded_len(envelope: &Envelope) -> (n: u128)
        ensures
            n == envelope_bytes(envelope@).len(),
            envelope@.payload.len() <= isize::MAX,
    {
        proof {
            envelope.origin.bytes_len();
        }
        let name: usize = envelope.topic.name().as_bytes().len();
        let partition: usize = buffer::as_octets(envelope.topic.partition()).len();
        let payload: usize = buffer::as_octets(&envelope.payload).len();
        let origin_len: u128 = Self::optional_len(32);
        let name_len: u128 = Self::optional_len(name);
        let partition_len: u128 = Self::optional_len(partition);
        let seq_len: u128 = Self::optional_number_len(envelope.seq);
        let ts_len: u128 = Self::optional_number_len(envelope.ts_ms);
        let payload_len: u128 = Self::optional_len(payload);
        proof {
            let fields = fields_of(envelope@);
            assert(protobuf::optional_bytes(1, fields.origin).len() == origin_len);
            assert(protobuf::optional_bytes(2, topic::utf8(fields.topic)).len() == name_len);
            assert(protobuf::optional_bytes(3, fields.partition).len() == partition_len);
            assert(protobuf::optional_uint(4, fields.seq as nat).len() == seq_len);
            assert(protobuf::optional_uint(5, fields.ts_ms as nat).len() == ts_len);
            assert(protobuf::optional_bytes(6, fields.payload).len() == payload_len);
        }
        4 + origin_len + name_len + partition_len + seq_len + ts_len + payload_len
    }

    /// The bytes of an envelope, unless something is wrong with it.
    pub fn encode(envelope: &Envelope) -> (encoded: Result<Bytes, EnvelopeError>)
        requires
            envelope_bytes(envelope@).len() <= MAX_BUFFERED,
        ensures
            match encoded {
                Ok(bytes) => {
                    &&& envelope_fault(envelope@) is None
                    &&& buffer::octets(bytes) == envelope_bytes(envelope@)
                },
                Err(error) => envelope_fault(envelope@) == Some(error@),
            },
    {
        match topic::validate_topic(
            envelope.topic.name(),
            buffer::as_octets(envelope.topic.partition()),
        ) {
            Ok(_) => {},
            Err(error) => {
                assert(envelope@.topic =~= TopicView {
                    name: envelope.topic@.name,
                    partition: envelope.topic@.partition,
                });
                return Err(EnvelopeError::InvalidTopic(error));
            },
        }
        assert(envelope@.topic =~= TopicView {
            name: envelope.topic@.name,
            partition: envelope.topic@.partition,
        });
        if envelope.seq == 0 {
            return Err(EnvelopeError::InvalidSequence);
        }
        let ghost fields = fields_of(envelope@);
        let ghost f1 = protobuf::optional_bytes(1, fields.origin);
        let ghost f2 = protobuf::optional_bytes(2, topic::utf8(fields.topic));
        let ghost f3 = protobuf::optional_bytes(3, fields.partition);
        let ghost f4 = protobuf::optional_uint(4, fields.seq as nat);
        let ghost f5 = protobuf::optional_uint(5, fields.ts_ms as nat);
        let ghost f6 = protobuf::optional_bytes(6, fields.payload);
        let capacity: usize = Self::encoded_len(envelope) as usize;
        let mut encoded = buffer::new_buffer(capacity);
        let start: [u8; 4] = [0x4d, 0x42, 0x50, 0x53];
        assert(start@ =~= magic());
        buffer::extend_from_slice(&mut encoded, start.as_slice());
        let origin = buffer::to_bytes(vstd::slice::slice_to_vec(envelope.origin.as_bytes().as_slice()));
        proof {
            envelope.origin.bytes_len();
        }
        protobuf::put_bytes(&mut encoded, 1, &origin);
        if envelope.topic.name().as_bytes().len() > 0 {
            protobuf::put_string(&mut encoded, 2, envelope.topic.name_text());
        }
        if buffer::as_octets(envelope.topic.partition()).len() > 0 {
            protobuf::put_bytes(&mut encoded, 3, envelope.topic.partition());
        }
        protobuf::put_uint64(&mut encoded, 4, envelope.seq);
        if envelope.ts_ms != 0 {
            protobuf::put_uint64(&mut encoded, 5, envelope.ts_ms);
        }
        if buffer::as_octets(&envelope.payload).len() > 0 {
            protobuf::put_bytes(&mut encoded, 6, &envelope.payload);
        }
        assert(buffer::buffered(encoded) =~= magic() + (f1 + f2 + f3 + f4 + f5 + f6));
        Ok(buffer::freeze(encoded))
    }

    /// The envelope that bytes are.
    pub fn decode(encoded: Bytes) -> (envelope: Result<Envelope, EnvelopeError>)
        ensures
            match envelope {
                Ok(e) => parse_envelope(buffer::octets(encoded)) == Ok::<
                    EnvelopeView,
                    EnvelopeFault,
                >(e@),
                Err(error) => parse_envelope(buffer::octets(encoded)) == Err::<
                    EnvelopeView,
                    EnvelopeFault,
                >(error@),
            },
    {
        if !Self::is_envelope(&encoded) {
            return Err(EnvelopeError::NotPubSub);
        }
        let wire = match WireEnvelope::decode(buffer::slice_from(&encoded, MAGIC_LEN)) {
            Ok(wire) => wire,
            Err(error) => {
                return Err(EnvelopeError::Protobuf(protobuf::description(&error)));
            },
        };
        let ghost fields = wire@;
        let origin_bytes = buffer::as_octets(&wire.origin);
        if origin_bytes.len() != 32 {
            return Err(EnvelopeError::InvalidOriginLength(origin_bytes.len()));
        }
        let origin = NodeId::read(origin_bytes, 0);
        assert(origin_bytes@.subrange(0, 32) =~= origin_bytes@);
        if wire.seq == 0 {
            return Err(EnvelopeError::InvalidSequence);
        }
        match TopicKey::new(wire.topic, wire.partition) {
            Ok(topic) => {
                let envelope = Envelope {
                    origin,
                    topic,
                    seq: wire.seq,
                    ts_ms: wire.ts_ms,
                    payload: wire.payload,
                };
                Ok(envelope)
            },
            Err(error) => Err(EnvelopeError::InvalidTopic(error)),
        }
    }
}

/// The fields with other bytes in one of them.
spec fn with_bytes(fields: FieldsView, tag: u32, value: Seq<u8>) -> FieldsView {
    if tag == 1 {
        FieldsView { origin: value, ..fields }
    } else if tag == 2 {
        FieldsView { topic: vstd::utf8::decode_utf8(value), ..fields }
    } else if tag == 3 {
        FieldsView { partition: value, ..fields }
    } else {
        FieldsView { payload: value, ..fields }
    }
}

/// The fields with another number in one of them.
spec fn with_number(fields: FieldsView, tag: u32, value: u64) -> FieldsView {
    if tag == 4 {
        FieldsView { seq: value, ..fields }
    } else {
        FieldsView { ts_ms: value, ..fields }
    }
}

/// An optional field of bytes is taken in, whatever follows it.
proof fn bytes_are_merged(fields: FieldsView, tag: u32, value: Seq<u8>, rest: Seq<u8>)
    requires
        tag == 1 || tag == 2 || tag == 3 || tag == 6,
        value.len() <= u64::MAX,
        tag == 2 ==> vstd::utf8::valid_utf8(value),
        value.len() == 0 ==> with_bytes(fields, tag, value) == fields,
    ensures
        merge_fields(fields, protobuf::optional_bytes(tag, value) + rest) == merge_fields(
            with_bytes(fields, tag, value),
            rest,
        ),
{
    reveal(merge_fields);
    let bytes = protobuf::optional_bytes(tag, value) + rest;
    if value.len() == 0 {
        assert(bytes =~= rest);
    } else {
        let body = protobuf::varint(value.len()) + value + rest;
        assert(bytes =~= protobuf::key(tag, LENGTH_DELIMITED) + body);
        protobuf::key_is_read_back(tag, LENGTH_DELIMITED, body);
        protobuf::bytes_are_read_back(value, rest);
        assert(merge_field(fields, tag, LENGTH_DELIMITED, body) == Some(
            (with_bytes(fields, tag, value), rest),
        )) by {
            reveal(merge_field);
        }
        assert(rest.len() < bytes.len());
    }
}

/// An optional number is taken in, whatever follows it.
proof fn number_is_merged(fields: FieldsView, tag: u32, value: u64, rest: Seq<u8>)
    requires
        tag == 4 || tag == 5,
        value == 0 ==> with_number(fields, tag, value) == fields,
    ensures
        merge_fields(fields, protobuf::optional_uint(tag, value as nat) + rest) == merge_fields(
            with_number(fields, tag, value),
            rest,
        ),
{
    reveal(merge_fields);
    let bytes = protobuf::optional_uint(tag, value as nat) + rest;
    if value == 0 {
        assert(bytes =~= rest);
    } else {
        let body = protobuf::varint(value as nat) + rest;
        assert(bytes =~= protobuf::key(tag, protobuf::VARINT) + body);
        protobuf::key_is_read_back(tag, protobuf::VARINT, body);
        protobuf::uint_is_read_back(value as nat, rest);
        protobuf::varint_is_read_back(value as nat, rest);
        assert(merge_field(fields, tag, protobuf::VARINT, body) == Some(
            (with_number(fields, tag, value), rest),
        )) by {
            reveal(merge_field);
        }
        assert(rest.len() < bytes.len());
    }
}

/// Six parts in a row are the first one with the others behind it.
proof fn parts_join(
    a: Seq<u8>,
    b: Seq<u8>,
    c: Seq<u8>,
    d: Seq<u8>,
    e: Seq<u8>,
    f: Seq<u8>,
)
    ensures
        a + b + c + d + e + f == a + (b + (c + (d + (e + (f + Seq::<u8>::empty()))))),
{
    let none = Seq::<u8>::empty();
    assert(a + b + c + d + e + f =~= a + (b + (c + (d + (e + (f + none))))));
}

/// The fields of a message are read back from its bytes.
proof fn fields_are_read_back(fields: FieldsView)
    requires
        fields.origin.len() <= u64::MAX,
        topic::utf8(fields.topic).len() <= u64::MAX,
        fields.partition.len() <= u64::MAX,
        fields.payload.len() <= u64::MAX,
    ensures
        merge_fields(no_fields(), fields_bytes(fields)) == Some(fields),
{
    let name = topic::utf8(fields.topic);
    let f1 = protobuf::optional_bytes(1, fields.origin);
    let f2 = protobuf::optional_bytes(2, name);
    let f3 = protobuf::optional_bytes(3, fields.partition);
    let f4 = protobuf::optional_uint(4, fields.seq as nat);
    let f5 = protobuf::optional_uint(5, fields.ts_ms as nat);
    let f6 = protobuf::optional_bytes(6, fields.payload);
    let r6 = Seq::<u8>::empty();
    let r5 = f6 + r6;
    let r4 = f5 + r5;
    let r3 = f4 + r4;
    let r2 = f3 + r3;
    let r1 = f2 + r2;
    parts_join(f1, f2, f3, f4, f5, f6);
    vstd::utf8::encode_utf8_valid_utf8(fields.topic);
    vstd::utf8::encode_utf8_decode_utf8(fields.topic);
    let s0 = no_fields();
    let s1 = with_bytes(s0, 1, fields.origin);
    let s2 = with_bytes(s1, 2, name);
    let s3 = with_bytes(s2, 3, fields.partition);
    let s4 = with_number(s3, 4, fields.seq);
    let s5 = with_number(s4, 5, fields.ts_ms);
    let s6 = with_bytes(s5, 6, fields.payload);
    assert(fields.origin.len() == 0 ==> s1 =~= s0);
    bytes_are_merged(s0, 1, fields.origin, r1);
    assert(name.len() == 0 ==> s2 =~= s1) by {
        if name.len() == 0 {
            assert(fields.topic =~= Seq::<char>::empty());
        }
    }
    bytes_are_merged(s1, 2, name, r2);
    assert(fields.partition.len() == 0 ==> s3 =~= s2);
    bytes_are_merged(s2, 3, fields.partition, r3);
    number_is_merged(s3, 4, fields.seq, r4);
    number_is_merged(s4, 5, fields.ts_ms, r5);
    assert(fields.payload.len() == 0 ==> s6 =~= s5);
    bytes_are_merged(s5, 6, fields.payload, r6);
    assert(merge_fields(s6, r6) == Some(s6)) by {
        reveal(merge_fields);
    }
    assert(s6 =~= fields);
}

/// An envelope holds its payload.
pub proof fn payload_fits(envelope: EnvelopeView)
    ensures
        envelope.payload.len() <= envelope_bytes(envelope).len(),
{
}

/// A faultless envelope takes little more than its payload.
pub proof fn length_is_bounded(envelope: EnvelopeView)
    requires
        envelope_fault(envelope) is None,
        envelope.payload.len() <= u64::MAX,
    ensures
        envelope_bytes(envelope).len() <= envelope.payload.len() + 70_000,
{
    envelope.origin.bytes_len();
    let fields = fields_of(envelope);
    field_len_is_bounded(1, fields.origin);
    field_len_is_bounded(2, topic::utf8(fields.topic));
    field_len_is_bounded(3, fields.partition);
    field_len_is_bounded(6, fields.payload);
    number_len_is_bounded(4, fields.seq);
    number_len_is_bounded(5, fields.ts_ms);
}

/// A field takes little more than its bytes.
proof fn field_len_is_bounded(tag: u32, value: Seq<u8>)
    requires
        1 <= tag <= 15,
        value.len() <= u64::MAX,
    ensures
        protobuf::optional_bytes(tag, value).len() <= value.len() + 20,
{
    protobuf::key_is_read_back(tag, LENGTH_DELIMITED, Seq::empty());
    protobuf::varint_is_read_back(value.len(), Seq::empty());
}

/// A field with a number takes few bytes.
proof fn number_len_is_bounded(tag: u32, value: u64)
    requires
        1 <= tag <= 15,
    ensures
        protobuf::optional_uint(tag, value as nat).len() <= 20,
{
    protobuf::key_is_read_back(tag, protobuf::VARINT, Seq::empty());
    protobuf::varint_is_read_back(value as nat, Seq::empty());
}

/// Reading gives back what was written: the bytes of a faultless envelope
/// start like an envelope and are read as that envelope.
pub proof fn written_envelopes_are_read_back(envelope: EnvelopeView)
    requires
        envelope_fault(envelope) is None,
        envelope.payload.len() <= u64::MAX,
    ensures
        is_envelope_like(envelope_bytes(envelope)),
        parse_envelope(envelope_bytes(envelope)) == Ok::<EnvelopeView, EnvelopeFault>(envelope),
{
    let bytes = envelope_bytes(envelope);
    let fields = fields_of(envelope);
    assert(bytes.take(4) =~= magic());
    assert(bytes.skip(4) =~= fields_bytes(fields));
    envelope.origin.bytes_len();
    envelope.origin.of_own_bytes();
    fields_are_read_back(fields);
    assert(envelope.topic =~= TopicView { name: fields.topic, partition: fields.partition });
}

/// Whatever is read as an envelope is faultless.
pub proof fn read_envelopes_are_faultless(bytes: Seq<u8>)
    requires
        parse_envelope(bytes) is Ok,
    ensures
        envelope_fault(parse_envelope(bytes)->Ok_0) is None,
{
}

} // verus!
