//! Color values, as four scalar components in library units.

use vstd::prelude::*;

verus! {

/// A color, RGBA, in library units.
#[derive(Debug, Clone, Copy, PartialEq, Eq, Hash, Structural)]
pub struct Color {
    pub red: i64,
    pub green: i64,
    pub blue: i64,
    pub alpha: i64,
}

impl Color {
    /// A fully transparent black.
    pub fn clear() -> (r: Color)
        ensures
            r == (Color { red: 0, green: 0, blue: 0, alpha: 0 }),
    {
        Color { red: 0, green: 0, blue: 0, alpha: 0 }
    }

    pub fn color_eq(&self, other: &Color) -> (r: bool)
        ensures
            r == (*self == *other),
    {
        self.red == other.red && self.green == other.green && self.blue == other.blue
            && self.alpha == other.alpha
    }
}

} // verus!
