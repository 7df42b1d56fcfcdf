//! Colors with exact, fixed-point channels.

use vstd::prelude::*;

verus! {

/// The channel value that stands for full intensity (1.0).
///
/// A channel is a whole number of parts of which `UNIT` make up full
/// intensity. The unit is the coarsest in which both kinds of value that
/// the codec deals in are whole numbers: the hundredths that reading
/// produces ([`HUNDREDTH`] parts each) and the 255 levels that writing
/// tells apart (100 parts each).
pub const UNIT: i64 = 25_500;

/// One hundredth of full intensity.
pub const HUNDREDTH: i64 = 255;

/// A red, green, blue triple. `Color::new(UNIT, UNIT / 4, UNIT / 2)` is the
/// color (1.0, 0.25, 0.5). Channels are not confined to `0..=UNIT`: reading
/// produces what the file's scale yields, and writing clamps.
#[derive(Clone, Copy, Debug, PartialEq, Eq, Structural)]
pub struct Color {
    pub r: i64,
    pub g: i64,
    pub b: i64,
}

impl Color {
    /// The color with the given channels, unchecked.
    pub fn new(r: i64, g: i64, b: i64) -> (color: Color)
        ensures
            color == (Color { r, g, b }),
    {
        Color { r, g, b }
    }

    /// Black, the color every cell of a fresh canvas holds.
    pub open spec fn black() -> Color {
        Color { r: 0, g: 0, b: 0 }
    }

    /// Whether every channel lies between no and full intensity.
    pub open spec fn in_unit_range(self) -> bool {
        &&& 0 <= self.r <= UNIT
        &&& 0 <= self.g <= UNIT
        &&& 0 <= self.b <= UNIT
    }

    /// Whether every channel is a whole number of hundredths.
    pub open spec fn in_hundredths(self) -> bool {
        &&& self.r % HUNDREDTH == 0
        &&& self.g % HUNDREDTH == 0
        &&& self.b % HUNDREDTH == 0
    }
}

} // verus!
