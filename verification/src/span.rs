//! The work list of the flood fill.

use crate::scan::SpanView;
use vstd::prelude::*;

verus! {

/// The direction in which a span looks for more to fill: towards the row
/// above it (a smaller `y`) or towards the row below.
#[derive(Clone, Copy, Debug, PartialEq, Eq, Structural)]
pub enum From {
    Above,
    Below,
}

impl From {
    /// The change of `y` from a row to the next one in this direction.
    pub open spec fn step(self) -> int {
        match self {
            From::Above => -1,
            From::Below => 1,
        }
    }

    /// The other direction.
    pub fn opposite(&self) -> (other: Self)
        ensures
            other != *self,
            other.step() == -self.step(),
    {
        match self {
            From::Above => From::Below,
            From::Below => From::Above,
        }
    }
}

/// A stretch `[left, right)` of row `y` that waits to be scanned, found
/// while looking in the direction `from`.
pub struct FillSpan {
    pub left: usize,
    pub right: usize,
    pub y: usize,
    pub from: From,
}

impl View for FillSpan {
    type V = SpanView;

    open spec fn view(&self) -> SpanView {
        SpanView {
            left: self.left as int,
            right: self.right as int,
            y: self.y as int,
            step: self.from.step(),
        }
    }
}

/// The waiting spans, oldest first.
pub open spec fn stack_view(spans: Seq<FillSpan>) -> Seq<SpanView> {
    Seq::new(spans.len(), |i: int| spans[i]@)
}

} // verus!
