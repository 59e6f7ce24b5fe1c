use vstd::prelude::*;

verus! {

/// One RGBA color value. Color equality is the join key of the whole
/// pipeline: a pixel belongs to a province exactly when its color equals the
/// province's registered color, channel for channel, alpha included.
#[derive(Clone, Copy, PartialEq, Eq, Structural, Debug, Hash)]
pub struct Rgba {
    pub r: u8,
    pub g: u8,
    pub b: u8,
    pub a: u8,
}

impl Rgba {
    /// The fully transparent sentinel `(0,0,0,0)`: the resolved color of a
    /// state whose owner has no table entry, and the value sea pixels are
    /// cleared to.
    pub open spec fn transparent_spec() -> Rgba {
        Rgba { r: 0, g: 0, b: 0, a: 0 }
    }

    pub fn transparent() -> (c: Rgba)
        ensures
            c == Rgba::transparent_spec(),
    {
        Rgba { r: 0, g: 0, b: 0, a: 0 }
    }

    /// An opaque color built from an RGB triple; alpha is fixed at 255.
    pub open spec fn opaque_spec(r: u8, g: u8, b: u8) -> Rgba {
        Rgba { r, g, b, a: 255 }
    }

    pub fn opaque(r: u8, g: u8, b: u8) -> (c: Rgba)
        ensures
            c == Rgba::opaque_spec(r, g, b),
    {
        Rgba { r, g, b, a: 255 }
    }

    /// Whether two colors agree on their RGB triple, alpha ignored.
    pub open spec fn same_rgb(self, other: Rgba) -> bool {
        self.r == other.r && self.g == other.g && self.b == other.b
    }
}

} // verus!
