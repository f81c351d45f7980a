//! The `grid` crate's two-dimensional container, as Verus sees it.
//!
//! Nothing in this file is proved. The container is opaque; three names stand
//! for what it holds, and each function below states over those names what the
//! method it calls is documented to do.

use grid::Grid;
use vstd::prelude::*;

verus! {

/// `grid::Grid`, declared so that it can stand in signatures and fields.
/// Nothing inside a grid is visible to Verus.
#[verifier::external_type_specification]
#[verifier::external_body]
#[verifier::reject_recursive_types(T)]
pub struct ExGrid<T>(Grid<T>);

/// The number of rows of a grid, as `Grid::rows` reports it.
pub uninterp spec fn grid_rows(g: Grid<u8>) -> nat;

/// The number of columns of a grid, as `Grid::cols` reports it.
pub uninterp spec fn grid_cols(g: Grid<u8>) -> nat;

/// The cells of a grid, keyed by `(row, column)`. Only keys inside the grid's
/// bounds mean anything.
pub uninterp spec fn grid_cells(g: Grid<u8>) -> Map<(int, int), u8>;

/// `Grid::new`: a grid of `rows` by `cols` cells that all hold `u8::default()`,
/// which is zero. When either count is zero the grid has no rows and no
/// columns. The call panics when the cell count overflows or exceeds what a
/// `Vec` can hold, so those sizes are left out.
#[verifier::external_body]
pub(crate) fn grid_new(rows: usize, cols: usize) -> (g: Grid<u8>)
    requires
        rows * cols <= isize::MAX,
    ensures
        grid_rows(g) == (if rows == 0 || cols == 0 { 0 } else { rows as nat }),
        grid_cols(g) == (if rows == 0 || cols == 0 { 0 } else { cols as nat }),
        forall|r: int, c: int|
            0 <= r < rows && 0 <= c < cols ==> #[trigger] grid_cells(g)[(r, c)] == 0u8,
{
    Grid::new(rows, cols)
}

/// `Grid::rows`.
#[verifier::external_body]
pub(crate) fn grid_row_count(g: &Grid<u8>) -> (n: usize)
    ensures
        n == grid_rows(*g),
{
    g.rows()
}

/// `Grid::cols`.
#[verifier::external_body]
pub(crate) fn grid_col_count(g: &Grid<u8>) -> (n: usize)
    ensures
        n == grid_cols(*g),
{
    g.cols()
}

/// The `Index<(usize, usize)>` impl of `Grid`: the cell at `(row, col)`. It
/// panics outside the bounds, so those indices are left out.
#[verifier::external_body]
pub(crate) fn grid_at(g: &Grid<u8>, row: usize, col: usize) -> (v: u8)
    requires
        row < grid_rows(*g),
        col < grid_cols(*g),
    ensures
        v == grid_cells(*g)[(row as int, col as int)],
{
    g[(row, col)]
}

/// The `IndexMut<(usize, usize)>` impl of `Grid`, used to store `v` at
/// `(row, col)`. The size and every other cell stay as they were. It panics
/// outside the bounds, so those indices are left out.
#[verifier::external_body]
pub(crate) fn grid_put(g: &mut Grid<u8>, row: usize, col: usize, v: u8)
    requires
        row < grid_rows(*old(g)),
        col < grid_cols(*old(g)),
    ensures
        grid_rows(*final(g)) == grid_rows(*old(g)),
        grid_cols(*final(g)) == grid_cols(*old(g)),
        grid_cells(*final(g)) == grid_cells(*old(g)).insert((row as int, col as int), v),
{
    g[(row, col)] = v;
}

/// The `Clone` impl of `Grid`: a grid of the same size with the same cells.
#[verifier::external_body]
pub(crate) fn grid_clone(g: &Grid<u8>) -> (c: Grid<u8>)
    ensures
        grid_rows(c) == grid_rows(*g),
        grid_cols(c) == grid_cols(*g),
        grid_cells(c) == grid_cells(*g),
{
    g.clone()
}

} // verus!
