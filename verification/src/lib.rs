//! Verified core of an addressable-lighting animation pipeline.
//!
//! The library generates a cyclic six-phase hue ramp sized to the lit pixel
//! count of a zone topology, animates it by cyclic rotation, and packs the
//! per-pixel color stream into fixed-capacity protocol frames ("universes")
//! with zero-padded dead zones. Transport, timing and argument handling are
//! collaborators outside this crate; they exchange plain values with it.

pub mod animator;
pub mod color;
pub mod error;
pub mod packer;
pub mod pipeline;
pub mod ramp;
pub mod topology;
