//! One layer of 8-bit intensities over a rectangle of pixels.

use crate::grid_model::{
    grid_at, grid_cells, grid_clone, grid_col_count, grid_cols, grid_new, grid_put,
    grid_row_count, grid_rows,
};
use crate::point::Point;
use grid::Grid;
use vstd::prelude::*;

verus! {

/// A grid of intensities. The first index of a cell is its `x`, the second
/// its `y`, so the grid has as many rows as the layer is wide.
pub struct Raster(pub Grid<u8>);

/// The larger of two intensities.
pub open spec fn max_u8(a: u8, b: u8) -> u8 {
    if a >= b {
        a
    } else {
        b
    }
}

/// The value that a mask holds at `(mx, my)`, or zero outside the mask.
pub open spec fn mask_at(mask: Grid<u8>, mx: int, my: int) -> u8 {
    if 0 <= mx < grid_rows(mask) && 0 <= my < grid_cols(mask) {
        grid_cells(mask)[(mx, my)]
    } else {
        0
    }
}

/// A layer after `mask` is laid over it with its origin at `(left, top)`:
/// every pixel holds the larger of what it held and what the mask holds there.
pub open spec fn stamped(layer: Seq<Seq<u8>>, mask: Grid<u8>, left: int, top: int) -> Seq<Seq<u8>> {
    Seq::new(
        layer.len(),
        |x: int|
            Seq::new(layer[x].len(), |y: int| max_u8(layer[x][y], mask_at(mask, x - left, y - top))),
    )
}

/// Laying the same mask at the same place a second time changes nothing.
pub proof fn lemma_stamp_twice(layer: Seq<Seq<u8>>, mask: Grid<u8>, left: int, top: int)
    ensures
        stamped(stamped(layer, mask, left, top), mask, left, top) == stamped(layer, mask, left, top),
{
    let once = stamped(layer, mask, left, top);
    let twice = stamped(once, mask, left, top);
    assert forall|x: int| 0 <= x < once.len() implies #[trigger] twice[x] == once[x] by {
        assert(twice[x] =~= once[x]);
    }
    assert(twice =~= once);
}

impl View for Raster {
    type V = Seq<Seq<u8>>;

    /// The intensities, indexed by `x` and then by `y`.
    open spec fn view(&self) -> Seq<Seq<u8>> {
        Seq::new(self.width(), |x: int| Seq::new(self.height(), |y: int| self.at(x, y)))
    }
}

impl Raster {
    /// The extent along `x`.
    pub open spec fn width(&self) -> nat {
        grid_rows(self.0)
    }

    /// The extent along `y`.
    pub open spec fn height(&self) -> nat {
        grid_cols(self.0)
    }

    /// The intensity at `(x, y)`.
    pub open spec fn at(&self, x: int, y: int) -> u8 {
        grid_cells(self.0)[(x, y)]
    }

    /// Whether `(x, y)` is a pixel of this layer.
    pub open spec fn contains(&self, x: int, y: int) -> bool {
        0 <= x < self.width() && 0 <= y < self.height()
    }

    /// Whether every pixel is zero.
    pub open spec fn is_blank(&self) -> bool {
        forall|x: int, y: int| self.contains(x, y) ==> #[trigger] self.at(x, y) == 0
    }

    /// How many of the first `n` pixels of column `x` are zero.
    pub open spec fn zeros_in_column(&self, x: int, n: int) -> nat
        decreases n,
    {
        if n <= 0 {
            0
        } else {
            self.zeros_in_column(x, n - 1) + (if self.at(x, n - 1) == 0 {
                1nat
            } else {
                0nat
            })
        }
    }

    /// How many pixels of the first `m` columns are zero.
    pub open spec fn zeros_upto(&self, m: int) -> nat
        decreases m,
    {
        if m <= 0 {
            0
        } else {
            self.zeros_upto(m - 1) + self.zeros_in_column(m - 1, self.height() as int)
        }
    }

    /// How many pixels are zero.
    pub open spec fn zeros(&self) -> nat {
        self.zeros_upto(self.width() as int)
    }

    /// Columns that agree hold as many zeros.
    proof fn lemma_column_same(&self, other: &Raster, x: int, n: int)
        requires
            forall|j: int| 0 <= j < n ==> #[trigger] self.at(x, j) == other.at(x, j),
        ensures
            self.zeros_in_column(x, n) == other.zeros_in_column(x, n),
        decreases n,
    {
        if n > 0 {
            self.lemma_column_same(other, x, n - 1);
        }
    }

    /// A column that lost one zero holds one zero less.
    proof fn lemma_column_less(&self, other: &Raster, x: int, y: int, n: int)
        requires
            0 <= y < n,
            self.at(x, y) == 0,
            other.at(x, y) != 0,
            forall|j: int| 0 <= j < n && j != y ==> #[trigger] self.at(x, j) == other.at(x, j),
        ensures
            self.zeros_in_column(x, n) == other.zeros_in_column(x, n) + 1,
        decreases n,
    {
        if n - 1 == y {
            self.lemma_column_same(other, x, n - 1);
        } else {
            self.lemma_column_less(other, x, y, n - 1);
        }
    }

    /// Layers that agree on their first columns hold as many zeros there.
    proof fn lemma_upto_same(&self, other: &Raster, m: int)
        requires
            self.height() == other.height(),
            forall|i: int, j: int|
                0 <= i < m && 0 <= j < self.height() ==> #[trigger] self.at(i, j) == other.at(i, j),
        ensures
            self.zeros_upto(m) == other.zeros_upto(m),
        decreases m,
    {
        if m > 0 {
            self.lemma_upto_same(other, m - 1);
            self.lemma_column_same(other, m - 1, self.height() as int);
        }
    }

    /// Layers that differ in one pixel only, zero here, differ by one zero.
    proof fn lemma_upto_less(&self, other: &Raster, x: int, y: int, m: int)
        requires
            self.height() == other.height(),
            0 <= x < m,
            0 <= y < self.height(),
            self.at(x, y) == 0,
            other.at(x, y) != 0,
            forall|i: int, j: int|
                0 <= i < m && 0 <= j < self.height() && (i != x || j != y) ==> #[trigger] self.at(i, j)
                    == other.at(i, j),
        ensures
            self.zeros_upto(m) == other.zeros_upto(m) + 1,
        decreases m,
    {
        if m - 1 == x {
            self.lemma_upto_same(other, m - 1);
            self.lemma_column_less(other, x, y, self.height() as int);
        } else {
            self.lemma_upto_less(other, x, y, m - 1);
            self.lemma_column_same(other, m - 1, self.height() as int);
        }
    }

    /// A layer that differs from this one in a single pixel, which is zero
    /// here and not there, has one zero less.
    pub proof fn lemma_one_zero_less(&self, other: &Raster, x: int, y: int)
        requires
            self.width() == other.width(),
            self.height() == other.height(),
            self.contains(x, y),
            self.at(x, y) == 0,
            other.at(x, y) != 0,
            forall|i: int, j: int| (i != x || j != y) ==> #[trigger] self.at(i, j) == other.at(i, j),
        ensures
            self.zeros() == other.zeros() + 1,
    {
        self.lemma_upto_less(other, x, y, self.width() as int);
    }

    /// Two layers of the same size that agree at every pixel have the same view.
    pub proof fn lemma_view_eq(&self, other: &Raster)
        requires
            self.width() == other.width(),
            self.height() == other.height(),
            forall|x: int, y: int| self.contains(x, y) ==> #[trigger] self.at(x, y) == other.at(x, y),
        ensures
            self@ == other@,
    {
        assert forall|x: int| 0 <= x < self.width() implies #[trigger] self@[x] == other@[x] by {
            assert forall|y: int| 0 <= y < self.height() implies #[trigger] self@[x][y]
                == other@[x][y] by {
                assert(self.contains(x, y));
            }
            assert(self@[x] =~= other@[x]);
        }
        assert(self@ =~= other@);
    }

    /// A blank layer of `dims[0]` by `dims[1]` pixels. When either extent is
    /// zero the layer has no pixels and both extents are zero.
    pub fn new(dims: &[usize; 2]) -> (r: Self)
        requires
            dims[0] * dims[1] <= isize::MAX,
        ensures
            r.width() == (if dims[0] == 0 || dims[1] == 0 { 0 } else { dims[0] as nat }),
            r.height() == (if dims[0] == 0 || dims[1] == 0 { 0 } else { dims[1] as nat }),
            r.is_blank(),
    {
        let r = Raster(grid_new(dims[0], dims[1]));
        proof {
            assert forall|x: int, y: int| r.contains(x, y) implies #[trigger] r.at(x, y) == 0 by {
                assert(grid_cells(r.0)[(x, y)] == 0u8);
            }
        }
        r
    }

    /// The extent along `x`.
    pub fn extent_x(&self) -> (w: usize)
        ensures
            w == self.width(),
    {
        grid_row_count(&self.0)
    }

    /// The extent along `y`.
    pub fn extent_y(&self) -> (h: usize)
        ensures
            h == self.height(),
    {
        grid_col_count(&self.0)
    }

    /// The intensity at `(x, y)`.
    pub fn get(&self, x: usize, y: usize) -> (v: u8)
        requires
            self.contains(x as int, y as int),
        ensures
            v == self.at(x as int, y as int),
    {
        grid_at(&self.0, x, y)
    }

    /// Stores `v` at `(x, y)` and leaves every other pixel alone.
    pub fn put(&mut self, x: usize, y: usize, v: u8)
        requires
            old(self).contains(x as int, y as int),
        ensures
            final(self).width() == old(self).width(),
            final(self).height() == old(self).height(),
            final(self).at(x as int, y as int) == v,
            forall|i: int, j: int|
                (i != x || j != y) ==> #[trigger] final(self).at(i, j) == old(self).at(i, j),
    {
        grid_put(&mut self.0, x, y, v);
    }

    /// Lays `other` over this layer with its origin at `pos` and keeps, at
    /// every pixel, the larger of the two intensities. Mask cells that fall
    /// outside the layer are skipped.
    pub fn set_max(&mut self, other: &Grid<u8>, pos: &Point)
        ensures
            final(self).width() == old(self).width(),
            final(self).height() == old(self).height(),
            forall|x: int, y: int|
                old(self).contains(x, y) ==> #[trigger] final(self).at(x, y) == max_u8(
                    old(self).at(x, y),
                    mask_at(*other, x - pos.x, y - pos.y),
                ),
            final(self)@ == stamped(old(self)@, *other, pos.x as int, pos.y as int),
    {
        self.set_max_from(other, pos.x as i128, pos.y as i128);
    }

    /// `set_max` with the mask's origin at `(left, top)`, which may lie
    /// further from the canvas than a `Point` can say.
    pub fn set_max_from(&mut self, other: &Grid<u8>, left: i128, top: i128)
        requires
            -0x1_0000_0000_0000_0000_0000 <= left <= 0x1_0000_0000_0000_0000_0000,
            -0x1_0000_0000_0000_0000_0000 <= top <= 0x1_0000_0000_0000_0000_0000,
        ensures
            final(self).width() == old(self).width(),
            final(self).height() == old(self).height(),
            forall|x: int, y: int|
                old(self).contains(x, y) ==> #[trigger] final(self).at(x, y) == max_u8(
                    old(self).at(x, y),
                    mask_at(*other, x - left, y - top),
                ),
            final(self)@ == stamped(old(self)@, *other, left as int, top as int),
    {
        let ghost before = *self;
        let mask_w = grid_row_count(other);
        let mask_h = grid_col_count(other);
        let width = self.extent_x();
        let height = self.extent_y();
        let mut i: usize = 0;
        while i < mask_w
            invariant
                i <= mask_w,
                mask_w == grid_rows(*other),
                mask_h == grid_cols(*other),
                width == before.width(),
                height == before.height(),
                self.width() == before.width(),
                self.height() == before.height(),
                -0x1_0000_0000_0000_0000_0000 <= left <= 0x1_0000_0000_0000_0000_0000,
                -0x1_0000_0000_0000_0000_0000 <= top <= 0x1_0000_0000_0000_0000_0000,
                forall|x: int, y: int|
                    before.contains(x, y) ==> #[trigger] self.at(x, y) == (if x - left < i {
                        max_u8(before.at(x, y), mask_at(*other, x - left, y - top))
                    } else {
                        before.at(x, y)
                    }),
            decreases mask_w - i,
        {
            let mut j: usize = 0;
            while j < mask_h
                invariant
                    i < mask_w,
                    j <= mask_h,
                    mask_w == grid_rows(*other),
                    mask_h == grid_cols(*other),
                    width == before.width(),
                    height == before.height(),
                    self.width() == before.width(),
                    self.height() == before.height(),
                    -0x1_0000_0000_0000_0000_0000 <= left <= 0x1_0000_0000_0000_0000_0000,
                    -0x1_0000_0000_0000_0000_0000 <= top <= 0x1_0000_0000_0000_0000_0000,
                    forall|x: int, y: int|
                        before.contains(x, y) ==> #[trigger] self.at(x, y) == (if x - left < i || (x
                            - left == i && y - top < j) {
                            max_u8(before.at(x, y), mask_at(*other, x - left, y - top))
                        } else {
                            before.at(x, y)
                        }),
                decreases mask_h - j,
            {
                let tx: i128 = left + i as i128;
                let ty: i128 = top + j as i128;
                if 0 <= tx && tx < width as i128 && 0 <= ty && ty < height as i128 {
                    let x = tx as usize;
                    let y = ty as usize;
                    let held = self.get(x, y);
                    let laid = grid_at(other, i, j);
                    if laid > held {
                        self.put(x, y, laid);
                    }
                }
                j += 1;
            }
            i += 1;
        }
        proof {
            let goal = stamped(before@, *other, left as int, top as int);
            assert forall|x: int| 0 <= x < self.width() implies #[trigger] self@[x] == goal[x] by {
                assert forall|y: int| 0 <= y < self.height() implies #[trigger] self@[x][y]
                    == goal[x][y] by {
                    assert(before.contains(x, y));
                    assert(self.at(x, y) == max_u8(
                        before.at(x, y),
                        mask_at(*other, x - left, y - top),
                    ));
                }
                assert(self@[x] =~= goal[x]);
            }
            assert(self@ =~= goal);
        }
    }

    /// `set_max_from`, keeping a list of the pixels that the mask touches:
    /// every pixel of the layer on which a non-zero mask cell falls is
    /// added to `touched`.
    pub fn set_max_tracked(
        &mut self,
        other: &Grid<u8>,
        left: i128,
        top: i128,
        touched: &mut Vec<(usize, usize)>,
    )
        requires
            -0x1_0000_0000_0000_0000_0000 <= left <= 0x1_0000_0000_0000_0000_0000,
            -0x1_0000_0000_0000_0000_0000 <= top <= 0x1_0000_0000_0000_0000_0000,
        ensures
            final(self).width() == old(self).width(),
            final(self).height() == old(self).height(),
            forall|x: int, y: int|
                old(self).contains(x, y) ==> #[trigger] final(self).at(x, y) == max_u8(
                    old(self).at(x, y),
                    mask_at(*other, x - left, y - top),
                ),
            final(self)@ == stamped(old(self)@, *other, left as int, top as int),
            forall|p: (usize, usize)| #[trigger]
                final(touched)@.contains(p) <==> old(touched)@.contains(p) || (old(self).contains(
                    p.0 as int,
                    p.1 as int,
                ) && mask_at(*other, p.0 - left, p.1 - top) != 0),
    {
        let ghost before = *self;
        let ghost listed = touched@;
        let mask_w = grid_row_count(other);
        let mask_h = grid_col_count(other);
        let width = self.extent_x();
        let height = self.extent_y();
        let mut i: usize = 0;
        while i < mask_w
            invariant
                i <= mask_w,
                mask_w == grid_rows(*other),
                mask_h == grid_cols(*other),
                width == before.width(),
                height == before.height(),
                self.width() == before.width(),
                self.height() == before.height(),
                -0x1_0000_0000_0000_0000_0000 <= left <= 0x1_0000_0000_0000_0000_0000,
                -0x1_0000_0000_0000_0000_0000 <= top <= 0x1_0000_0000_0000_0000_0000,
                forall|x: int, y: int|
                    before.contains(x, y) ==> #[trigger] self.at(x, y) == (if x - left < i {
                        max_u8(before.at(x, y), mask_at(*other, x - left, y - top))
                    } else {
                        before.at(x, y)
                    }),
                forall|p: (usize, usize)| #[trigger]
                    touched@.contains(p) <==> listed.contains(p) || (before.contains(
                        p.0 as int,
                        p.1 as int,
                    ) && p.0 - left < i && mask_at(*other, p.0 - left, p.1 - top) != 0),
            decreases mask_w - i,
        {
            let mut j: usize = 0;
            while j < mask_h
                invariant
                    i < mask_w,
                    j <= mask_h,
                    mask_w == grid_rows(*other),
                    mask_h == grid_cols(*other),
                    width == before.width(),
                    height == before.height(),
                    self.width() == before.width(),
                    self.height() == before.height(),
                    -0x1_0000_0000_0000_0000_0000 <= left <= 0x1_0000_0000_0000_0000_0000,
                    -0x1_0000_0000_0000_0000_0000 <= top <= 0x1_0000_0000_0000_0000_0000,
                    forall|x: int, y: int|
                        before.contains(x, y) ==> #[trigger] self.at(x, y) == (if x - left < i || (x
                            - left == i && y - top < j) {
                            max_u8(before.at(x, y), mask_at(*other, x - left, y - top))
                        } else {
                            before.at(x, y)
                        }),
                    forall|p: (usize, usize)| #[trigger]
                        touched@.contains(p) <==> listed.contains(p) || (before.contains(
                            p.0 as int,
                            p.1 as int,
                        ) && (p.0 - left < i || (p.0 - left == i && p.1 - top < j)) && mask_at(
                            *other,
                            p.0 - left,
                            p.1 - top,
                        ) != 0),
                decreases mask_h - j,
            {
                let tx: i128 = left + i as i128;
                let ty: i128 = top + j as i128;
                if 0 <= tx && tx < width as i128 && 0 <= ty && ty < height as i128 {
                    let x = tx as usize;
                    let y = ty as usize;
                    let laid = grid_at(other, i, j);
                    if laid != 0 {
                        let held = self.get(x, y);
                        if laid > held {
                            self.put(x, y, laid);
                        }
                        let ghost earlier = touched@;
                        touched.push((x, y));
                        proof {
                            assert forall|p: (usize, usize)| #[trigger]
                                touched@.contains(p) <==> earlier.contains(p) || p == (x, y) by {
                                if earlier.contains(p) {
                                    let k = choose|k: int| 0 <= k < earlier.len() && earlier[k] == p;
                                    assert(touched@[k] == p);
                                }
                                if p == (x, y) {
                                    assert(touched@[earlier.len() as int] == p);
                                }
                            }
                        }
                    }
                }
                j += 1;
            }
            i += 1;
        }
        proof {
            let goal = stamped(before@, *other, left as int, top as int);
            assert forall|x: int| 0 <= x < self.width() implies #[trigger] self@[x] == goal[x] by {
                assert forall|y: int| 0 <= y < self.height() implies #[trigger] self@[x][y]
                    == goal[x][y] by {
                    assert(before.contains(x, y));
                    assert(self.at(x, y) == max_u8(
                        before.at(x, y),
                        mask_at(*other, x - left, y - top),
                    ));
                }
                assert(self@[x] =~= goal[x]);
            }
            assert(self@ =~= goal);
        }
    }
}

impl Clone for Raster {
    /// A layer of the same size with the same intensities.
    fn clone(&self) -> (copy: Self)
        ensures
            copy.width() == self.width(),
            copy.height() == self.height(),
            forall|x: int, y: int| copy.at(x, y) == self.at(x, y),
            copy@ == self@,
    {
        let copy = Raster(grid_clone(&self.0));
        proof {
            copy.lemma_view_eq(self);
        }
        copy
    }
}

} // verus!
