//! Timing and layering of the animations that show transitions.

use vstd::prelude::*;
use std::time::Instant;

verus! {

#[verifier::external_type_specification]
#[verifier::external_body]
pub struct ExInstant(Instant);

/// Relies on std's `Instant::now`: the current instant, of which nothing is known.
#[verifier::external_body]
fn now() -> (r: Instant) {
    Instant::now()
}

/// Depth layers of sprites, from background to foreground.
#[derive(Clone, Copy, PartialEq, Eq, Debug, Structural)]
pub enum DepthLayer {
    Floor,
    Obj,
    AnimatedObj,
    TemporaryText,
    Interface,
}

impl DepthLayer {
    /// Higher is closer to the foreground.
    pub fn to_z_value(&self) -> (r: i32)
        ensures
            r == match self {
                DepthLayer::Floor => 1i32,
                DepthLayer::Obj => 2i32,
                DepthLayer::AnimatedObj => 3i32,
                DepthLayer::TemporaryText => 4i32,
                DepthLayer::Interface => 5i32,
            },
    {
        match self {
            DepthLayer::Floor => 1,
            DepthLayer::Obj => 2,
            DepthLayer::AnimatedObj => 3,
            DepthLayer::TemporaryText => 4,
            DepthLayer::Interface => 5,
        }
    }
}

/// An animation plays during a time interval, starting when it is created.
pub struct TimeInterval {
    pub start_time: Instant,
    /// Length of the interval, in microseconds.
    pub duration_micros: u64,
}

impl TimeInterval {
    /// An interval of the given, non-zero length, starting now.
    pub fn with_duration(duration_micros: u64) -> (r: TimeInterval)
        requires
            duration_micros > 0,
        ensures
            r.duration_micros == duration_micros,
    {
        TimeInterval { start_time: now(), duration_micros }
    }
}

/// Length of the red flash of a non-lethal hit, in microseconds.
pub const HIT_FLASH_MICROS: u64 = 150_000;

/// The whole sprite appears plain red for a moment: a non-lethal hit.
pub struct HitAnimation {
    pub time_interval: TimeInterval,
}

impl HitAnimation {
    pub fn new() -> (r: HitAnimation)
        ensures
            r.time_interval.duration_micros == HIT_FLASH_MICROS,
    {
        HitAnimation { time_interval: TimeInterval::with_duration(HIT_FLASH_MICROS) }
    }
}

} // verus!
