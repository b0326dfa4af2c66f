//! What the proxies of the laboratory promise of the frames that pass.

use bytes::BytesMut;
use vstd::prelude::*;
use crate::buffer;
use crate::lab::graph::LabLink;
use crate::lab::proxy;
use crate::lab::proxy::{Conditions, FrameProxy, ProxyStep};
use crate::wire::frame;
use crate::wire::frame::{FrameType, WireView};

verus! {

/// The frame that has come first, if it is whole.
pub open spec fn first_frame(buffered: BytesMut) -> Option<WireView> {
    match frame::parse_frame(buffer::buffered(buffered)) {
        Ok(Some(frame)) => Some(frame),
        _ => None,
    }
}

/// A proxy stops at what is no frame, waits for what is not yet whole, and takes
/// every whole frame. It numbers what it takes, and leaves what it does not take
/// for the next time.
pub proof fn whole_frames_are_taken(
    passing: &mut FrameProxy,
    buffered: &mut BytesMut,
    conditions: &Conditions,
    step: ProxyStep,
)
    requires
        call_ensures(FrameProxy::next, (passing, buffered, conditions), step),
    ensures
        ({
            let bytes = buffer::buffered(*old(buffered));
            let rest = buffer::buffered(*final(buffered));
            let first = old(passing).sequence();
            let last = final(passing).sequence();
            &&& step is Stop <==> frame::parse_frame(bytes) is Err
            &&& step is Read <==> (frame::parse_frame(bytes) matches Ok(None))
            &&& step is Pass <==> first_frame(*old(buffered)) is Some
            &&& !(step is Pass) ==> rest == bytes && last == first
            &&& step is Pass ==> rest.len() < bytes.len() && last == if first < u64::MAX {
                first + 1
            } else {
                0
            }
            &&& final(passing).seed() == old(passing).seed()
        }),
{
    let bytes = buffer::buffered(*old(buffered));
    if first_frame(*old(buffered)) is Some {
        frame::read_frames_are_written_back(bytes);
    }
}

/// A frame that passes is passed on as it came: what is written and what is left
/// are together what had come.
pub proof fn frames_are_not_changed(
    passing: &mut FrameProxy,
    buffered: &mut BytesMut,
    conditions: &Conditions,
    step: ProxyStep,
)
    requires
        call_ensures(FrameProxy::next, (passing, buffered, conditions), step),
    ensures
        step matches ProxyStep::Pass { bytes: Some(written), .. } ==> buffer::buffered(
            *old(buffered),
        ) == buffer::octets(written) + buffer::buffered(*final(buffered)),
{
    let bytes = buffer::buffered(*old(buffered));
    proxy::frames_pass_unchanged(
        old(passing).seed(),
        old(passing).sequence(),
        *conditions,
        bytes,
    );
}

/// Introductions pass at once, whatever the conditions are.
pub proof fn introductions_pass_at_once(
    passing: &mut FrameProxy,
    buffered: &mut BytesMut,
    conditions: &Conditions,
    step: ProxyStep,
)
    requires
        call_ensures(FrameProxy::next, (passing, buffered, conditions), step),
        first_frame(*old(buffered)) matches Some(frame) && frame.frame_type
            == FrameType::LinkHello,
    ensures
        step matches ProxyStep::Pass { delay_ms, bytes } && delay_ms == 0 && bytes is Some,
{
}

/// The bits take so many milliseconds at the bandwidth, rounded up; without a
/// bandwidth they take no time. A kilobit a second is a bit a millisecond.
pub open spec fn takes(bits: int, bandwidth_kbps: u64, millis: int) -> bool {
    if bandwidth_kbps == 0 {
        millis == 0
    } else {
        bits <= millis * bandwidth_kbps < bits + bandwidth_kbps
    }
}

/// Any other frame is held back for the latency and for as long as its bits take
/// at the bandwidth, or for the longest time there is.
pub proof fn frames_are_held_back(
    passing: &mut FrameProxy,
    buffered: &mut BytesMut,
    conditions: &Conditions,
    step: ProxyStep,
) -> (held: int)
    requires
        call_ensures(FrameProxy::next, (passing, buffered, conditions), step),
        first_frame(*old(buffered)) matches Some(frame) && frame.frame_type
            != FrameType::LinkHello,
    ensures
        step is Pass,
        takes(
            8 * (buffer::buffered(*old(buffered)).len() - buffer::buffered(*final(buffered)).len()),
            conditions.bandwidth_kbps,
            held,
        ),
        step->delay_ms == if conditions.latency_ms + held <= u64::MAX {
            conditions.latency_ms + held
        } else {
            u64::MAX as int
        },
{
    let bytes = buffer::buffered(*old(buffered));
    let rest = buffer::buffered(*final(buffered));
    frame::read_frames_are_written_back(bytes);
    let found = first_frame(*old(buffered))->0;
    let written = frame::frame_bytes(found);
    buffer::big_endian_len(found.payload.len(), 4);
    assert(bytes.len() == written.len() + rest.len());
    let bits = 8 * written.len() as int;
    let rate = conditions.bandwidth_kbps as int;
    if rate == 0 {
        0
    } else {
        let held = (bits + rate - 1) / rate;
        assert(bits <= held * rate < bits + rate) by (nonlinear_arith)
            requires
                rate > 0,
                bits >= 0,
                held == (bits + rate - 1) / rate,
        ;
        if bits + rate - 1 > u64::MAX {
            let most = u64::MAX as int;
            assert(held == 1 && most / rate == 1) by (nonlinear_arith)
                requires
                    0 < bits <= 0x1000_0000,
                    most == 0xffff_ffff_ffff_ffff,
                    rate <= most,
                    bits + rate - 1 > most,
                    held == (bits + rate - 1) / rate,
            ;
        }
        held
    }
}

/// Any other frame is lost if the number that is drawn for it, of a million, is
/// less than what is set. What is drawn depends on the seed of the direction and
/// on the number of the frame alone.
pub proof fn frames_are_lost_as_set(
    passing: &mut FrameProxy,
    buffered: &mut BytesMut,
    conditions: &Conditions,
    step: ProxyStep,
)
    requires
        call_ensures(FrameProxy::next, (passing, buffered, conditions), step),
        first_frame(*old(buffered)) matches Some(frame) && frame.frame_type
            != FrameType::LinkHello,
    ensures
        ({
            let drawn = proxy::mix64(old(passing).seed() ^ final(passing).sequence()) % 1_000_000;
            step matches ProxyStep::Pass { bytes, .. } && (bytes is None <==> drawn
                < conditions.loss_per_million)
        }),
        conditions.loss_per_million == 0 ==> (step matches ProxyStep::Pass { bytes: Some(_), .. }),
        conditions.loss_per_million >= 1_000_000 ==> (step matches ProxyStep::Pass {
            bytes: None,
            ..
        }),
{
}

/// The two directions of a link draw from different seeds, and so do the
/// directions of different links.
pub proof fn directions_draw_apart(a: u64, b: u64, of_a: (u64, u64), of_b: (u64, u64))
    requires
        call_ensures(FrameProxy::seeds, (a,), of_a),
        call_ensures(FrameProxy::seeds, (b,), of_b),
        a < 0x8000_0000_0000_0000,
        b < 0x8000_0000_0000_0000,
    ensures
        of_a.0 != of_a.1,
        of_a.0 == 2 * a,
        of_a.1 == 2 * a + 1,
        a != b ==> of_a.0 != of_b.0 && of_a.0 != of_b.1 && of_a.1 != of_b.0 && of_a.1 != of_b.1,
{
}

/// A new proxy draws from the seed that it was given, and has taken no frame.
pub proof fn proxies_start_at_nothing(seed: u64, passing: FrameProxy)
    requires
        call_ensures(FrameProxy::new, (seed,), passing),
    ensures
        passing.seed() == seed,
        passing.sequence() == 0,
{
}

/// The pace of the laboratory is added to the latency of every link, and changes
/// nothing else.
pub proof fn the_pace_adds_latency(pace_ms: u64, link: &LabLink, conditions: Conditions)
    requires
        call_ensures(proxy::effective_conditions, (pace_ms, link), conditions),
    ensures
        conditions.latency_ms == if link.latency_ms + pace_ms <= u64::MAX {
            link.latency_ms + pace_ms
        } else {
            u64::MAX as int
        },
        conditions.loss_per_million == link.loss_per_million,
        conditions.bandwidth_kbps == link.bandwidth_kbps,
{
}

} // verus!
