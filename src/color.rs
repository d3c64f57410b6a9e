use vstd::prelude::*;

verus! {

/// One pixel: three 8-bit channels.
#[derive(Clone, Copy, Debug, PartialEq, Eq, Structural)]
pub struct Color {
    pub r: u8,
    pub g: u8,
    pub b: u8,
}

impl Color {
    pub fn new(r: u8, g: u8, b: u8) -> (c: Color)
        ensures
            c == (Color { r, g, b }),
    {
        Color { r, g, b }
    }

    /// Sum of the three channels.
    pub open spec fn level(self) -> int {
        self.r as int + self.g as int + self.b as int
    }
}

/// A red-only pixel of the given intensity.
pub open spec fn red(v: u8) -> Color {
    Color { r: v, g: 0, b: 0 }
}

/// The unlit pixel.
pub open spec fn black_color() -> Color {
    Color { r: 0, g: 0, b: 0 }
}

} // verus!
