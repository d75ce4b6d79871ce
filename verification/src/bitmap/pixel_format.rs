//! Pixel element types and their conversion to display bytes.

use vstd::prelude::*;
use vstd::std_specs::convert::FromSpecImpl;

verus! {

/// Conversion of a framebuffer element to the three bytes shown for it.
pub trait TransferToRgb {
    /// The red, green and blue bytes that stand for this element.
    fn transfer(&self) -> (rgb: (u8, u8, u8));
}

/// A color of three 8-bit channels.
#[derive(Clone, Copy, PartialEq, Eq, Debug, Structural)]
pub struct Rgb24 {
    pub r: u8,
    pub g: u8,
    pub b: u8,
}

impl From<(u8, u8, u8)> for Rgb24 {
    fn from(color: (u8, u8, u8)) -> (c: Rgb24) {
        let (r, g, b) = color;
        Rgb24 { r: r, g: g, b: b }
    }
}

impl FromSpecImpl<(u8, u8, u8)> for Rgb24 {
    open spec fn obeys_from_spec() -> bool {
        true
    }

    open spec fn from_spec(color: (u8, u8, u8)) -> Rgb24 {
        Rgb24 { r: color.0, g: color.1, b: color.2 }
    }
}

impl Default for Rgb24 {
    /// Black.
    fn default() -> (c: Rgb24)
        ensures
            c == (Rgb24 { r: 0, g: 0, b: 0 }),
    {
        Rgb24 { r: 0, g: 0, b: 0 }
    }
}

impl TransferToRgb for Rgb24 {
    /// A color is shown as it is.
    fn transfer(&self) -> (rgb: (u8, u8, u8))
        ensures
            rgb == (self.r, self.g, self.b),
    {
        (self.r, self.g, self.b)
    }
}

} // verus!
