//! What a proxy between two nodes does to the frames that pass.

use bytes::{Bytes, BytesMut};
use vstd::prelude::*;
use crate::buffer;
use crate::lab::graph::LabLink;
use crate::wire::frame;
use crate::wire::frame::{FrameDecoder, FrameEncoder, FrameType, WireView};

verus! {

/// A million: losses are counted in frames of a million.
pub const ALL_FRAMES: u64 = 1_000_000;

/// How a link impairs the frames that pass.
#[derive(Clone, Copy, Debug, Eq, PartialEq, Structural)]
pub struct Conditions {
    pub latency_ms: u64,
    pub loss_per_million: u64,
    pub bandwidth_kbps: u64,
}

/// The sum, or the largest number there is.
pub open spec fn saturating_sum(a: nat, b: nat) -> nat {
    if a + b > u64::MAX {
        u64::MAX as nat
    } else {
        a + b
    }
}

/// How a link impairs frames, with the pace of the laboratory added.
pub fn effective_conditions(pace_ms: u64, link: &LabLink) -> (conditions: Conditions)
    ensures
        conditions.latency_ms == saturating_sum(link.latency_ms as nat, pace_ms as nat),
        conditions.loss_per_million == link.loss_per_million,
        conditions.bandwidth_kbps == link.bandwidth_kbps,
{
    Conditions {
        latency_ms: link.latency_ms.saturating_add(pace_ms),
        loss_per_million: link.loss_per_million,
        bandwidth_kbps: link.bandwidth_kbps,
    }
}

/// How long so many bytes take at a rate; without a rate they take no time.
pub open spec fn serialization_ms(len: nat, bandwidth_kbps: u64) -> nat {
    if bandwidth_kbps == 0 {
        0
    } else {
        saturating_sum(8 * len, (bandwidth_kbps - 1) as nat) / (bandwidth_kbps as nat)
    }
}

/// How long a frame of so many bytes is held back.
pub open spec fn delay_of(len: nat, conditions: Conditions) -> nat {
    saturating_sum(
        conditions.latency_ms as nat,
        serialization_ms(len, conditions.bandwidth_kbps),
    )
}

/// How long a frame of so many bytes is held back.
fn delay(len: usize, conditions: &Conditions) -> (ms: u64)
    requires
        len <= 0x1000_0000,
    ensures
        ms == delay_of(len as nat, *conditions),
{
    let bits: u64 = len as u64 * 8;
    let held: u64 = if conditions.bandwidth_kbps == 0 {
        0
    } else {
        let rounded: u64 = bits.saturating_add(conditions.bandwidth_kbps - 1);
        proof {
            assert(rounded as nat == saturating_sum(
                (8 * len) as nat,
                (conditions.bandwidth_kbps - 1) as nat,
            ));
        }
        rounded / conditions.bandwidth_kbps
    };
    conditions.latency_ms.saturating_add(held)
}

/// A number whose bits depend on all bits of another.
pub open spec fn spec_mix64(value: u64) -> u64 {
    let a = value ^ (value >> 30);
    let b = a.wrapping_mul(0xbf58_476d_1ce4_e5b9);
    let c = b ^ (b >> 27);
    let d = c.wrapping_mul(0x94d0_49bb_1331_11eb);
    d ^ (d >> 31)
}

/// A number whose bits depend on all bits of another.
#[verifier::when_used_as_spec(spec_mix64)]
pub fn mix64(value: u64) -> (mixed: u64)
    ensures
        mixed == spec_mix64(value),
{
    let a: u64 = value ^ (value >> 30);
    let b: u64 = a.wrapping_mul(0xbf58_476d_1ce4_e5b9);
    let c: u64 = b ^ (b >> 27);
    let d: u64 = c.wrapping_mul(0x94d0_49bb_1331_11eb);
    d ^ (d >> 31)
}

/// The frame with the number is lost.
pub open spec fn is_lost(seed: u64, sequence: u64, conditions: Conditions) -> bool {
    mix64(seed ^ sequence) % ALL_FRAMES < conditions.loss_per_million
}

/// What a proxy is to do next.
pub enum ProxyStep {
    /// Stop: what has come is no frame.
    Stop,
    /// Wait for more bytes.
    Read,
    /// Hold a frame back for a while, and then pass it on, unless it is lost.
    Pass { delay_ms: u64, bytes: Option<Bytes> },
}

/// What a step says.
#[verifier::ext_equal]
pub enum ProxyStepView {
    Stop,
    Read,
    Pass { delay_ms: u64, bytes: Option<Seq<u8>> },
}

impl View for ProxyStep {
    type V = ProxyStepView;

    open spec fn view(&self) -> ProxyStepView {
        match *self {
            ProxyStep::Stop => ProxyStepView::Stop,
            ProxyStep::Read => ProxyStepView::Read,
            ProxyStep::Pass { delay_ms, bytes } => ProxyStepView::Pass {
                delay_ms,
                bytes: match bytes {
                    Some(b) => Some(buffer::octets(b)),
                    None => None,
                },
            },
        }
    }
}

/// The number after a number, or zero after the last one.
pub open spec fn after_number(n: u64) -> u64 {
    if n == u64::MAX {
        0
    } else {
        (n + 1) as u64
    }
}

/// What becomes of the frame with the number: an introduction passes at once,
/// any other frame is held back and may be lost.
pub open spec fn treated(
    seed: u64,
    sequence: u64,
    conditions: Conditions,
    frame: WireView,
) -> ProxyStepView {
    let bytes = frame::frame_bytes(frame);
    if frame.frame_type == FrameType::LinkHello {
        ProxyStepView::Pass { delay_ms: 0, bytes: Some(bytes) }
    } else {
        ProxyStepView::Pass {
            delay_ms: delay_of(bytes.len(), conditions) as u64,
            bytes: if is_lost(seed, sequence, conditions) {
                None
            } else {
                Some(bytes)
            },
        }
    }
}

/// What a proxy does with the bytes that have come.
pub open spec fn passed(
    seed: u64,
    sequence: u64,
    conditions: Conditions,
    bytes: Seq<u8>,
) -> ProxyStepView {
    match frame::parse_frame(bytes) {
        Err(_) => ProxyStepView::Stop,
        Ok(None) => ProxyStepView::Read,
        Ok(Some(frame)) => treated(seed, after_number(sequence), conditions, frame),
    }
}

/// One direction of a proxy.
pub struct FrameProxy {
    seed: u64,
    sequence: u64,
}

impl FrameProxy {
    /// What losses are drawn from.
    pub closed spec fn seed(&self) -> u64 {
        self.seed
    }

    /// The number of the last frame.
    pub closed spec fn sequence(&self) -> u64 {
        self.sequence
    }

    /// No frame has come yet.
    pub fn new(seed: u64) -> (proxy: Self)
        ensures
            proxy.seed() == seed,
            proxy.sequence() == 0,
    {
        FrameProxy { seed, sequence: 0 }
    }

    /// What losses in the two directions of a link are drawn from.
    pub fn seeds(link: u64) -> (seeds: (u64, u64))
        ensures
            seeds.0 == link.wrapping_mul(2),
            seeds.1 == link.wrapping_mul(2).wrapping_add(1),
    {
        let there: u64 = link.wrapping_mul(2);
        (there, there.wrapping_add(1))
    }

    /// Takes the next frame out of the buffer, and says what becomes of it.
    pub fn next(&mut self, buffered: &mut BytesMut, conditions: &Conditions) -> (step: ProxyStep)
        ensures
            step@ == passed(
                old(self).seed(),
                old(self).sequence(),
                *conditions,
                buffer::buffered(*old(buffered)),
            ),
            final(self).seed() == old(self).seed(),
            final(self).sequence() == (if step is Pass {
                after_number(old(self).sequence())
            } else {
                old(self).sequence()
            }),
            buffer::buffered(*final(buffered)) == frame::after_frame(
                buffer::buffered(*old(buffered)),
            ),
    {
        let ghost all = buffer::buffered(*buffered);
        let mut decoder = FrameDecoder;
        let frame = match decoder.decode(buffered) {
            Ok(Some(frame)) => frame,
            Ok(None) => {
                return ProxyStep::Read;
            },
            Err(_) => {
                return ProxyStep::Stop;
            },
        };
        proof {
            frame::read_frames_are_written_back(all);
        }
        let encoded = match FrameEncoder::encode(&frame) {
            Ok(encoded) => encoded,
            Err(_) => {
                return ProxyStep::Stop;
            },
        };
        self.sequence = self.sequence.wrapping_add(1);
        if frame.frame_type == FrameType::LinkHello {
            return ProxyStep::Pass { delay_ms: 0, bytes: Some(encoded) };
        }
        let len: usize = buffer::as_octets(&encoded).len();
        proof {
            buffer::big_endian_len(frame@.payload.len(), 4);
        }
        let delay_ms: u64 = delay(len, conditions);
        let sample: u64 = mix64(self.seed ^ self.sequence) % ALL_FRAMES;
        let lost: bool = sample < conditions.loss_per_million;
        ProxyStep::Pass {
            delay_ms,
            bytes: if lost {
                None
            } else {
                Some(encoded)
            },
        }
    }
}

/// A frame that passes is not changed: what is written is what has come.
pub proof fn frames_pass_unchanged(
    seed: u64,
    sequence: u64,
    conditions: Conditions,
    bytes: Seq<u8>,
)
    ensures
        passed(seed, sequence, conditions, bytes) matches ProxyStepView::Pass {
            bytes: Some(written),
            ..
        } ==> bytes == written + frame::after_frame(bytes),
{
    if frame::parse_frame(bytes) matches Ok(Some(_)) {
        frame::read_frames_are_written_back(bytes);
    }
}

/// Introductions always pass, and pass at once.
pub proof fn introductions_always_pass(
    seed: u64,
    sequence: u64,
    conditions: Conditions,
    frame: WireView,
)
    requires
        frame.frame_type == FrameType::LinkHello,
    ensures
        treated(seed, sequence, conditions, frame) == (ProxyStepView::Pass {
            delay_ms: 0,
            bytes: Some(frame::frame_bytes(frame)),
        }),
{
}

/// Where all frames are to be lost, all but introductions are; where none is,
/// all pass.
pub proof fn losses_are_as_set(
    seed: u64,
    sequence: u64,
    conditions: Conditions,
    frame: WireView,
)
    requires
        frame.frame_type != FrameType::LinkHello,
    ensures
        conditions.loss_per_million >= ALL_FRAMES ==> treated(seed, sequence, conditions, frame)
            matches ProxyStepView::Pass { bytes: None, .. },
        conditions.loss_per_million == 0 ==> treated(seed, sequence, conditions, frame) == (
        ProxyStepView::Pass {
            delay_ms: delay_of(frame::frame_bytes(frame).len(), conditions) as u64,
            bytes: Some(frame::frame_bytes(frame)),
        }),
{
}

/// A frame is held back at least for the latency of its link.
pub proof fn latency_is_kept(seed: u64, sequence: u64, conditions: Conditions, frame: WireView)
    requires
        frame.frame_type != FrameType::LinkHello,
        frame::is_writable(frame),
    ensures
        treated(seed, sequence, conditions, frame)->delay_ms >= conditions.latency_ms,
{
}

} // verus!
