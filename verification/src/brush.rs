//! The brush: an opacity mask that is stamped along a stroke.

use crate::grid_model::{grid_col_count, grid_cols, grid_row_count, grid_rows};
use grid::Grid;
use vstd::prelude::*;

verus! {

/// A mask of 8-bit opacities. The mask's cell `(i, j)` falls on the pixel
/// `i` to the right of and `j` below the mask's origin.
pub struct Brush {
    pub texture: Grid<u8>,
}

impl Brush {
    /// The number of columns of the mask.
    pub fn width(&self) -> (w: usize)
        ensures
            w == grid_cols(self.texture),
    {
        grid_col_count(&self.texture)
    }

    /// The number of rows of the mask.
    pub fn height(&self) -> (h: usize)
        ensures
            h == grid_rows(self.texture),
    {
        grid_row_count(&self.texture)
    }

    /// Where the mask's origin lies when the brush is centred on `c`, along
    /// one axis: half the extent before it, rounded towards the centre.
    pub open spec fn origin_for(c: int, extent: nat) -> int {
        c - (extent as int) / 2
    }
}

} // verus!
