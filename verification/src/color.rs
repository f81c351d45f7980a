//! Colours as four 8-bit channels, compared byte for byte.

use vstd::prelude::*;
use vstd::std_specs::cmp::PartialEqSpecImpl;

verus! {

/// Red, green, blue and alpha. Two colours are the same colour exactly when
/// all four channels agree.
#[derive(Clone, Copy, Debug)]
pub struct Rgba {
    pub r: u8,
    pub g: u8,
    pub b: u8,
    pub a: u8,
}

impl PartialEq for Rgba {
    fn eq(&self, other: &Self) -> (same: bool) {
        let same = self.r == other.r && self.g == other.g && self.b == other.b && self.a
            == other.a;
        proof {
            assert(*self == (Rgba { r: self.r, g: self.g, b: self.b, a: self.a }));
            assert(*other == (Rgba { r: other.r, g: other.g, b: other.b, a: other.a }));
        }
        same
    }
}

impl Eq for Rgba {}

impl PartialEqSpecImpl for Rgba {
    open spec fn obeys_eq_spec() -> bool {
        true
    }

    open spec fn eq_spec(&self, other: &Rgba) -> bool {
        *self == *other
    }
}

impl Rgba {
    /// The colour with the given channels.
    pub fn new(r: u8, g: u8, b: u8, a: u8) -> (c: Self)
        ensures
            c == (Rgba { r, g, b, a }),
    {
        Rgba { r, g, b, a }
    }

    /// The channels in the order red, green, blue, alpha.
    pub fn channels(&self) -> (bytes: [u8; 4])
        ensures
            bytes@ == seq![self.r, self.g, self.b, self.a],
    {
        let bytes = [self.r, self.g, self.b, self.a];
        proof {
            assert(bytes@ =~= seq![self.r, self.g, self.b, self.a]);
        }
        bytes
    }
}

} // verus!
