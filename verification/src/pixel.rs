//! Pixels of a frame.
use vstd::prelude::*;

verus! {

/// A pixel with red, green, blue and alpha.
#[derive(Debug, Clone, Copy, PartialEq, Eq, Structural)]
pub struct RgbaPixel {
    pub r: u8,
    pub g: u8,
    pub b: u8,
    pub a: u8,
}

impl Default for RgbaPixel {
    /// Transparent black.
    fn default() -> (p: Self)
        ensures
            p == (RgbaPixel { r: 0, g: 0, b: 0, a: 0 }),
    {
        RgbaPixel { r: 0, g: 0, b: 0, a: 0 }
    }
}

} // verus!
