//! Why a canvas could not be made.

use vstd::prelude::*;

verus! {

/// Why a canvas was refused.
#[derive(Clone, Copy, Debug, PartialEq, Eq, Structural)]
pub enum CanvasError {
    /// The width or the height is zero.
    InvalidDimensions,
}

impl CanvasError {
    /// The error in words.
    pub fn message(&self) -> (text: &'static str)
        ensures
            text@ == "invalid dimensions: width and height must not be zero"@,
    {
        match self {
            CanvasError::InvalidDimensions => "invalid dimensions: width and height must not be zero",
        }
    }
}

} // verus!
