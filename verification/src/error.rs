//! Failure conditions of the animation pipeline.

use vstd::prelude::*;

verus! {

/// What can go wrong while generating or packing a frame.
#[derive(Clone, Copy, PartialEq, Eq, Structural, Debug)]
pub enum LightsError {
    /// The topology has no lit pixels at all, so no ramp can be generated.
    InvalidTopology,
    /// The zones ask for more lit pixels than the ramp buffer holds.
    TopologyMismatch,
}

} // verus!
