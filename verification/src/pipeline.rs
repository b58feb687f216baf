//! One step of the transmission loop: pack the current frame, then advance
//! the animation. The loop around it — sending each universe, sleeping,
//! deciding when to stop — performs I/O and lives with the caller, which
//! hands each packed universe to its sender in ascending index order.

use vstd::prelude::*;

use crate::animator::{rotate, rotated};
use crate::color::Rgb;
use crate::error::LightsError;
use crate::packer::{chunked, pack, universes_view, zone_stream};
use crate::topology::{live_total, padded_total, Zone};

verus! {

/// Pack the current buffer into universes, then rotate it by one pixel for
/// the next frame. On failure the buffer is left untouched.
pub fn tick(buffer: &mut Vec<Rgb>, zones: &Vec<Zone>, universe_capacity: usize) -> (r: Result<
    Vec<Vec<u8>>,
    LightsError,
>)
    requires
        universe_capacity > 0,
        3 * padded_total(zones@) <= usize::MAX,
        old(buffer)@.len() > 0,
    ensures
        r is Err <==> live_total(zones@) > old(buffer)@.len(),
        r is Err ==> r->Err_0 == LightsError::TopologyMismatch && final(buffer)@ == old(buffer)@,
        r is Ok ==> universes_view(r->Ok_0@) == chunked(
            zone_stream(old(buffer)@, zones@),
            universe_capacity as nat,
        ) && final(buffer)@ == rotated(old(buffer)@, 1),
{
    match pack(buffer, zones, universe_capacity) {
        Ok(universes) => {
            rotate(buffer, 1);
            Ok(universes)
        },
        Err(e) => Err(e),
    }
}

} // verus!
