//! Ginger's verified core: the OSC wire format for the handful of scsynth commands it
//! dispatches, and the readback correlator that decides what the engine's replies prove.
use vstd::prelude::*;

pub mod osc;
mod order;
pub mod readback;
pub mod reply_laws;
pub mod roundtrip;
pub mod wire;

verus! {

/// Ticks per beat, fixed for the first version of the declaration clock.
pub const TICKS_PER_BEAT: u32 = 960;

} // verus!
