//! The one rule of the orbit camera that is decided on an order of
//! numbers: how far it may pitch.

use vstd::prelude::*;
use crate::binary32::{at_most, is_nan, le, lt, rank_of};

verus! {

/// The steepest pitch upward: sixty degrees, a third of pi, in radians.
pub const MAX_PITCH: u32 = 0x3f86_0a92;

/// The steepest pitch downward.
pub const MIN_PITCH: u32 = 0xbf86_0a92;

/// The pitch that the camera takes for the pitch it was given: the nearest
/// one between the two limits. A pitch that is no number counts as the
/// upper limit.
pub open spec fn clamped_pitch(pitch: u32) -> u32 {
    if is_nan(pitch) || lt(MAX_PITCH, pitch) {
        MAX_PITCH
    } else if lt(pitch, MIN_PITCH) {
        MIN_PITCH
    } else {
        pitch
    }
}

/// Clamps the camera's pitch to sixty degrees either way.
pub fn clamp_pitch(pitch: u32) -> (r: u32)
    ensures
        r == clamped_pitch(pitch),
        le(MIN_PITCH, r) && le(r, MAX_PITCH),
{
    if rank_of(pitch).is_none() {
        MAX_PITCH
    } else if !at_most(pitch, MAX_PITCH) {
        MAX_PITCH
    } else if !at_most(MIN_PITCH, pitch) {
        MIN_PITCH
    } else {
        pitch
    }
}

} // verus!
