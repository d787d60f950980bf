//! Core value types: fixed-point samples, per-mille gains, and track events.

use vstd::prelude::*;

verus! {

/// Samples per second of every stream this library produces or consumes.
pub const SAMPLE_RATE: u32 = 44100;

/// Fixed-point unit for gains and amplitudes: a gain of `PM` (1000) is unity.
pub const PM: i64 = 1000;

/// Largest delta-tick value a single event may carry.
pub const MAX_VTIME: u64 = 0x1_0000_0000;

/// Division truncated toward zero (the rounding used by every gain
/// application in this library).
pub open spec fn tdiv(a: int, b: int) -> int {
    if a >= 0 {
        a / b
    } else {
        -((-a) / b)
    }
}

/// `x` clamped to the representable sample range.
pub open spec fn clamp_s(x: int) -> int {
    if x > i32::MAX {
        i32::MAX as int
    } else if x < i32::MIN {
        i32::MIN as int
    } else {
        x
    }
}

/// Saturating sum of two samples.
pub open spec fn sat_add_s(a: int, b: int) -> int {
    clamp_s(a + b)
}

/// Fixed-point product of a sample and a per-mille gain.
pub open spec fn scale_s(a: int, b: int) -> int {
    clamp_s(tdiv(a * b, PM as int))
}

/// Adds two samples, saturating at the sample range bounds.
pub fn sat_add(a: i32, b: i32) -> (r: i32)
    ensures
        r as int == sat_add_s(a as int, b as int),
{
    let s: i64 = a as i64 + b as i64;
    if s > i32::MAX as i64 {
        i32::MAX
    } else if s < i32::MIN as i64 {
        i32::MIN
    } else {
        s as i32
    }
}

/// Divides by the per-mille unit, truncating toward zero.
pub fn div1000(p: i64) -> (q: i64)
    requires
        -0x4000_0000_0000_0000 <= p <= 0x4000_0000_0000_0000,
    ensures
        q == tdiv(p as int, 1000),
{
    if p >= 0 {
        ((p as u64) / 1000u64) as i64
    } else {
        -((((-p) as u64) / 1000u64) as i64)
    }
}

/// Clamps a wide intermediate value to the sample range.
pub fn clamp_i32(q: i64) -> (r: i32)
    ensures
        r as int == clamp_s(q as int),
{
    if q > i32::MAX as i64 {
        i32::MAX
    } else if q < i32::MIN as i64 {
        i32::MIN
    } else {
        q as i32
    }
}

/// Multiplies two fixed-point values (a sample by a per-mille gain),
/// truncating toward zero and saturating at the sample range bounds.
pub fn scale(a: i32, b: i32) -> (r: i32)
    ensures
        r as int == scale_s(a as int, b as int),
{
    proof {
        assert(-0x4000_0000_0000_0000int <= (a as int) * (b as int)
            <= 0x4000_0000_0000_0000int) by (nonlinear_arith)
            requires
                i32::MIN <= a <= i32::MAX,
                i32::MIN <= b <= i32::MAX,
        ;
    }
    let p: i64 = a as i64 * b as i64;
    clamp_i32(div1000(p))
}

/// The tagged payload of one track event.  Pitch, velocity, controller and
/// value bytes are 0..=127; tempo is in microseconds per beat.
#[derive(Clone, Copy, Debug)]
pub enum Payload {
    NoteOn { key: u8, velocity: u8 },
    NoteOff { key: u8 },
    ProgramChange { preset: u8 },
    ControlChange { controller: u8, value: u8 },
    TempoSet { micros_per_beat: u32 },
    KeySignature { sharps: i8, minor: bool },
    EndOfTrack,
}

/// One timestamped event: a delta-tick count since the previous event plus a
/// payload.  Events are processed strictly in sequence.
#[derive(Clone, Copy, Debug)]
pub struct TrackEvent {
    pub vtime: u64,
    pub payload: Payload,
}

/// The data bytes an event may carry, as the MIDI wire format bounds them.
pub open spec fn payload_wf(p: Payload) -> bool {
    match p {
        Payload::NoteOn { key, velocity } => key <= 127 && velocity <= 127,
        Payload::NoteOff { key } => key <= 127,
        Payload::ProgramChange { preset } => preset <= 127,
        Payload::ControlChange { controller, value } => controller <= 127 && value <= 127,
        Payload::TempoSet { micros_per_beat } => true,
        Payload::KeySignature { sharps, minor } => true,
        Payload::EndOfTrack => true,
    }
}

pub open spec fn event_wf(e: TrackEvent) -> bool {
    e.vtime <= MAX_VTIME && payload_wf(e.payload)
}

pub open spec fn events_wf(es: Seq<TrackEvent>) -> bool {
    forall|i: int| 0 <= i < es.len() ==> event_wf(#[trigger] es[i])
}

} // verus!
