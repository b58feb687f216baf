//! Color values: one 8-bit intensity per channel.

use vstd::prelude::*;

verus! {

/// One pixel's color, as red, green and blue channel intensities.
/// Each channel is kept within a configured brightness ceiling, which may be
/// below 255 to leave dimming headroom for the hardware.
#[derive(Clone, Copy, PartialEq, Eq, Structural, Debug)]
pub struct Rgb {
    pub red: u8,
    pub green: u8,
    pub blue: u8,
}

impl Rgb {
    /// All three channels lie within `[0, max]`.
    pub open spec fn within(self, max: u8) -> bool {
        self.red <= max && self.green <= max && self.blue <= max
    }

    /// The wire encoding of one color: three bytes in red, green, blue order.
    pub open spec fn bytes(self) -> Seq<u8> {
        seq![self.red, self.green, self.blue]
    }
}

} // verus!
