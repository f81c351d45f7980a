//! The presence store: one layer per colour, blended on demand.

use crate::blend::{
    blend_cell, blues, capped, greens, lemma_blend_zero, lemma_tint_bounds, presence_sum, reds,
    rendered_pixel, scale, scaled, shrink, tint_sum,
};
use crate::color::Rgba;
use crate::error::CanvasError;
use crate::fill_rule::{lemma_filled_len, FillKind, FillRule, RuleView};
use crate::grid_model::{grid_at, grid_col_count, grid_cols, grid_row_count, grid_rows};
use crate::point::Point;
use crate::raster::{mask_at, Raster};
use crate::region::{
    adjacent, connected, lemma_closed_holds_component, lemma_connected_ends, lemma_connected_self,
    lemma_connected_step,
};
use crate::scan::{
    grown, handed_on, idle_inv, lemma_begin_scan, lemma_end_scan, lemma_first_run,
    lemma_idle_closed, lemma_scan_miss, lemma_scan_run, pending, scan_inv, Scan, SpanView,
};
use crate::span::{stack_view, FillSpan, From};
use crate::store_view::{least_alpha, lemma_present_upto, present_layers, present_upto, StoreView};
use crate::vec_map::VecMap;
use grid::Grid;
use vstd::prelude::*;

verus! {

/// Every colour painted so far with its layer of presences, in the order in
/// which the colours were first used. A layer is never removed.
pub struct ColorPresences {
    data: VecMap<Rgba, Raster>,
    dims: [usize; 2],
}

/// The pixels that a fill has marked as done.
pub open spec fn marked(marks: Raster) -> Set<(int, int)> {
    Set::new(|p: (int, int)| marks.contains(p.0, p.1) && marks.at(p.0, p.1) != 0)
}

impl View for ColorPresences {
    type V = StoreView;

    closed spec fn view(&self) -> StoreView {
        StoreView {
            width: self.dims[0] as nat,
            height: self.dims[1] as nat,
            colors: self.data.keys(),
            cells: Seq::new(
                self.dims[0] as nat,
                |x: int|
                    Seq::new(
                        self.dims[1] as nat,
                        |y: int| Seq::new(self.data.0@.len(), |i: int| self.data.0@[i].1.at(x, y)),
                    ),
            ),
        }
    }
}

impl ColorPresences {
    /// The canvas is not empty and small enough to render, every layer has
    /// the canvas's size, and no colour has two layers.
    pub closed spec fn wf(&self) -> bool {
        &&& 0 < self.dims[0] <= isize::MAX
        &&& 0 < self.dims[1] <= isize::MAX
        &&& 4 * self.dims[0] * self.dims[1] <= isize::MAX
        &&& self.data.keys().no_duplicates()
        &&& forall|i: int|
            0 <= i < self.data.0@.len() ==> (#[trigger] self.data.0@[i]).1.width() == self.dims[0]
                && self.data.0@[i].1.height() == self.dims[1]
    }

    /// A well-formed store has a well-formed view that fits in memory four times over.
    pub proof fn lemma_view_wf(&self)
        requires
            self.wf(),
        ensures
            self@.wf(),
            4 * self@.width * self@.height <= isize::MAX,
    {
    }

    /// The presence of the colour at `layer` at the pixel `(x, y)`.
    closed spec fn presence(&self, layer: int, x: int, y: int) -> u8 {
        self.data.0@[layer].1.at(x, y)
    }

    /// The canvas, the colours and the number of layers are those of `other`.
    closed spec fn same_frame(&self, other: &ColorPresences) -> bool {
        &&& self.dims[0] == other.dims[0]
        &&& self.dims[1] == other.dims[1]
        &&& self.data.0@.len() == other.data.0@.len()
        &&& self.data.keys() == other.data.keys()
    }

    /// What the view says of one pixel.
    proof fn lemma_cell(&self, x: int, y: int)
        requires
            self@.contains(x, y),
        ensures
            self@.cell(x, y).len() == self.data.0@.len(),
            self@.colors.len() == self.data.0@.len(),
            forall|i: int|
                0 <= i < self.data.0@.len() ==> #[trigger] self@.cell(x, y)[i] == self.presence(
                    i,
                    x,
                    y,
                ),
    {
    }

    /// An empty store over a canvas of `width` by `height` pixels.
    pub fn new(width: usize, height: usize) -> (made: Result<Self, CanvasError>)
        requires
            4 * width * height <= isize::MAX,
        ensures
            (width == 0 || height == 0) <==> made == Err::<Self, CanvasError>(
                CanvasError::InvalidDimensions,
            ),
            made matches Ok(store) ==> store.wf() && store@ == StoreView::blank(
                width as nat,
                height as nat,
            ),
    {
        if width == 0 || height == 0 {
            return Err(CanvasError::InvalidDimensions);
        }
        let store = Self { data: VecMap(Vec::new()), dims: [width, height] };
        proof {
            assert(width <= isize::MAX && height <= isize::MAX) by (nonlinear_arith)
                requires
                    4 * width * height <= isize::MAX,
                    width > 0,
                    height > 0,
            ;
            assert(store.data.keys() =~= Seq::<Rgba>::empty());
            let blank = StoreView::blank(width as nat, height as nat);
            assert forall|x: int, y: int| store@.contains(x, y) implies #[trigger] store@.cell(
                x,
                y,
            ) == blank.cell(x, y) by {
                assert(store@.cell(x, y) =~= Seq::<u8>::empty());
            }
            store@.lemma_ext(blank);
        }
        Ok(store)
    }

    /// The canvas's width and height.
    pub fn dims(&self) -> (d: [usize; 2])
        ensures
            d[0] == self@.width,
            d[1] == self@.height,
    {
        self.dims
    }

    /// The layer of `color`, registered now if it was not before.
    pub fn raster_idx(&mut self, color: Rgba) -> (layer: usize)
        requires
            old(self).wf(),
        ensures
            final(self).wf(),
            final(self)@ == old(self)@.registered(color),
            final(self)@.width == old(self)@.width,
            final(self)@.height == old(self)@.height,
            layer == final(self)@.layer_of(color),
            layer < final(self)@.colors.len(),
    {
        let ghost before = *self;
        match self.data.position(&color) {
            Some(idx) => {
                proof {
                    assert(self.data.matches_at(idx as int, color));
                    assert(self.data.keys()[idx as int] == color);
                    assert(self@.colors.contains(color));
                    self@.lemma_layer_of(color, idx as int);
                }
                idx
            },
            None => {
                proof {
                    assert(!self@.colors.contains(color)) by {
                        if self@.colors.contains(color) {
                            let i = choose|i: int| 0 <= i < self@.colors.len() && self@.colors[i] == color;
                            assert(self.data.matches_at(i, color));
                        }
                    }
                    assert(self.dims[0] * self.dims[1] <= isize::MAX) by (nonlinear_arith)
                        requires
                            4 * self.dims[0] * self.dims[1] <= isize::MAX,
                    ;
                }
                let blank = Raster::new(&self.dims);
                self.data.0.push((color, blank));
                let layer = self.data.0.len() - 1;
                proof {
                    let next = before@.registered(color);
                    assert(self.data.keys() =~= before.data.keys().push(color));
                    before@.lemma_registered(color);
                    assert forall|x: int, y: int| self@.contains(x, y) implies #[trigger] self@.cell(
                        x,
                        y,
                    ) == next.cell(x, y) by {
                        assert(blank.contains(x, y));
                        assert(blank.at(x, y) == 0);
                        assert(self@.cell(x, y) =~= before@.cell(x, y).push(0u8));
                    }
                    self@.lemma_ext(next);
                    self@.lemma_layer_of(color, layer as int);
                }
                layer
            },
        }
    }

    /// Stores `v` as the presence of the colour at `layer` at `(x, y)`.
    fn set_presence(&mut self, layer: usize, x: usize, y: usize, v: u8)
        requires
            old(self).wf(),
            layer < old(self).data.0@.len(),
            old(self)@.contains(x as int, y as int),
        ensures
            final(self).wf(),
            final(self).same_frame(old(self)),
            final(self).presence(layer as int, x as int, y as int) == v,
            forall|l: int, i: int, j: int|
                0 <= l < old(self).data.0@.len() && (l != layer || i != x || j != y)
                    ==> #[trigger] final(self).presence(l, i, j) == old(self).presence(l, i, j),
    {
        let ghost before = *self;
        self.data.0[layer].1.put(x, y, v);
        proof {
            assert(self.data.keys() =~= before.data.keys());
        }
    }

    /// The presence of the colour at `layer` at `(x, y)`.
    fn get_presence(&self, layer: usize, x: usize, y: usize) -> (v: u8)
        requires
            self.wf(),
            layer < self.data.0@.len(),
            self@.contains(x as int, y as int),
        ensures
            v == self.presence(layer as int, x as int, y as int),
            v == self@.cell(x as int, y as int)[layer as int],
    {
        self.data.0[layer].1.get(x, y)
    }

    /// The layer of `color`, or `None` when the colour is not registered.
    pub fn layer_of(&self, color: Rgba) -> (layer: Option<usize>)
        requires
            self.wf(),
        ensures
            layer.is_some() == self@.colors.contains(color),
            layer matches Some(i) ==> i == self@.layer_of(color) && i < self@.colors.len(),
    {
        let at = self.data.position(&color);
        proof {
            match at {
                Some(idx) => {
                    assert(self.data.keys()[idx as int] == color);
                    self@.lemma_layer_of(color, idx as int);
                },
                None => {
                    if self@.colors.contains(color) {
                        let i = choose|i: int| 0 <= i < self@.colors.len() && self@.colors[i] == color;
                        assert(self.data.matches_at(i, color));
                    }
                },
            }
        }
        at
    }

    /// The presence of the colour at `layer` at the pixel `(x, y)`.
    pub fn presence_at(&self, layer: usize, x: usize, y: usize) -> (v: u8)
        requires
            self.wf(),
            layer < self@.colors.len(),
            self@.contains(x as int, y as int),
        ensures
            v == self@.cell(x as int, y as int)[layer as int],
    {
        self.get_presence(layer, x, y)
    }

    /// The colours registered so far, in the order of their registration.
    pub fn colors(&self) -> (all: Vec<Rgba>)
        ensures
            all@ == self@.colors,
    {
        let mut all: Vec<Rgba> = Vec::new();
        let mut i: usize = 0;
        while i < self.data.0.len()
            invariant
                i <= self.data.0@.len(),
                all@.len() == i,
                forall|k: int| 0 <= k < i ==> #[trigger] all@[k] == self.data.0@[k].0,
            decreases self.data.0@.len() - i,
        {
            all.push(self.data.0[i].0);
            i += 1;
        }
        proof {
            assert(all@ =~= self@.colors);
        }
        all
    }

    /// The number of layers.
    fn layer_count(&self) -> (n: usize)
        ensures
            n == self.data.0@.len(),
            n == self@.colors.len(),
    {
        self.data.0.len()
    }

    /// Two stores with the same frame whose layers agree everywhere but at
    /// one pixel have views that agree everywhere but at that pixel.
    proof fn lemma_one_cell(&self, before: &ColorPresences, px: int, py: int, cell: Seq<u8>)
        requires
            self.same_frame(before),
            before@.contains(px, py),
            cell.len() == self.data.0@.len(),
            forall|l: int| 0 <= l < cell.len() ==> #[trigger] self.presence(l, px, py) == cell[l],
            forall|l: int, i: int, j: int|
                0 <= l < cell.len() && (i != px || j != py) ==> #[trigger] self.presence(l, i, j)
                    == before.presence(l, i, j),
        ensures
            self@.shaped(),
            self@.width == before@.width,
            self@.height == before@.height,
            self@.colors == before@.colors,
            self@.cell(px, py) == cell,
            forall|x: int, y: int|
                before@.contains(x, y) && (x != px || y != py) ==> #[trigger] self@.cell(x, y)
                    == before@.cell(x, y),
    {
        self.lemma_cell(px, py);
        assert(self@.cell(px, py) =~= cell);
        assert forall|x: int, y: int|
            before@.contains(x, y) && (x != px || y != py) implies #[trigger] self@.cell(x, y)
            == before@.cell(x, y) by {
            self.lemma_cell(x, y);
            before.lemma_cell(x, y);
            assert forall|l: int| 0 <= l < cell.len() implies self@.cell(x, y)[l] == before@.cell(
                x,
                y,
            )[l] by {
                assert(self.presence(l, x, y) == before.presence(l, x, y));
            }
            assert(self@.cell(x, y) =~= before@.cell(x, y));
        }
    }

    /// Blends `presence` of the colour at `raster_idx` into the pixel `pos`:
    /// every other colour keeps the share `255 - presence` of what it held
    /// there, then the colour itself gains `presence`, held at 255.
    pub fn apply_presence(&mut self, pos: (usize, usize), raster_idx: usize, presence: u8)
        requires
            old(self).wf(),
            old(self)@.contains(pos.0 as int, pos.1 as int),
            raster_idx < old(self)@.colors.len(),
        ensures
            final(self).wf(),
            final(self)@ == old(self)@.blended_at(
                pos.0 as int,
                pos.1 as int,
                raster_idx as int,
                presence,
            ),
            final(self)@.width == old(self)@.width,
            final(self)@.height == old(self)@.height,
    {
        let ghost before = *self;
        let ghost goal = blend_cell(before@.cell(pos.0 as int, pos.1 as int), raster_idx as int, presence);
        let spare = 255 - presence;
        let n = self.layer_count();
        let mut i: usize = 0;
        while i < n
            invariant
                i <= n,
                n == before.data.0@.len(),
                spare == 255 - presence,
                raster_idx < n,
                self.wf(),
                before.wf(),
                self.same_frame(&before),
                before@.contains(pos.0 as int, pos.1 as int),
                goal == blend_cell(before@.cell(pos.0 as int, pos.1 as int), raster_idx as int, presence),
                forall|l: int, x: int, y: int|
                    0 <= l < n && (x != pos.0 || y != pos.1 || l >= i) ==> #[trigger] self.presence(
                        l,
                        x,
                        y,
                    ) == before.presence(l, x, y),
                forall|l: int| 0 <= l < i ==> #[trigger] self.presence(l, pos.0 as int, pos.1 as int) == goal[l],
            decreases n - i,
        {
            let held = self.get_presence(i, pos.0, pos.1);
            let next = if i == raster_idx {
                held.saturating_add(presence)
            } else {
                shrink(held, spare)
            };
            proof {
                before.lemma_cell(pos.0 as int, pos.1 as int);
                assert(held == before.presence(i as int, pos.0 as int, pos.1 as int));
                assert(next == goal[i as int]);
            }
            self.set_presence(i, pos.0, pos.1, next);
            i += 1;
        }
        proof {
            before.lemma_cell(pos.0 as int, pos.1 as int);
            self.lemma_one_cell(&before, pos.0 as int, pos.1 as int, goal);
            let after = before@.blended_at(pos.0 as int, pos.1 as int, raster_idx as int, presence);
            assert forall|x: int, y: int| self@.contains(x, y) implies #[trigger] self@.cell(x, y)
                == after.cell(x, y) by {
                assert(before@.contains(x, y));
            }
            self@.lemma_ext(after);
        }
    }

    /// Blends `brush`, laid with its origin at `pos`, into the store with
    /// `color`. Each mask cell's opacity is weighted by the colour's alpha
    /// and blended into the pixel it falls on; cells that fall outside the
    /// canvas are skipped.
    pub fn apply(&mut self, brush: &Grid<u8>, pos: &Point, color: Rgba)
        requires
            old(self).wf(),
        ensures
            final(self).wf(),
            final(self)@ == old(self)@.applied(*brush, *pos, color),
            final(self)@.width == old(self)@.width,
            final(self)@.height == old(self)@.height,
    {
        let layer = self.raster_idx(color);
        let ghost base = *self;
        let mask_w = grid_row_count(brush);
        let mask_h = grid_col_count(brush);
        let width = self.dims[0];
        let height = self.dims[1];
        let mut i: usize = 0;
        while i < mask_w
            invariant
                i <= mask_w,
                mask_w == grid_rows(*brush),
                mask_h == grid_cols(*brush),
                width == base@.width,
                height == base@.height,
                layer < base@.colors.len(),
                self.wf(),
                base.wf(),
                self.same_frame(&base),
                forall|x: int, y: int|
                    base@.contains(x, y) ==> #[trigger] self@.cell(x, y) == (if 0 <= x - pos.x < i {
                        blend_cell(
                            base@.cell(x, y),
                            layer as int,
                            scaled(mask_at(*brush, x - pos.x, y - pos.y), color.a),
                        )
                    } else {
                        base@.cell(x, y)
                    }),
            decreases mask_w - i,
        {
            let mut j: usize = 0;
            while j < mask_h
                invariant
                    i < mask_w,
                    j <= mask_h,
                    mask_w == grid_rows(*brush),
                    mask_h == grid_cols(*brush),
                    width == base@.width,
                    height == base@.height,
                    layer < base@.colors.len(),
                    self.wf(),
                    base.wf(),
                    self.same_frame(&base),
                    forall|x: int, y: int|
                        base@.contains(x, y) ==> #[trigger] self@.cell(x, y) == (if 0 <= x - pos.x < i
                            || (x - pos.x == i && 0 <= y - pos.y < j) {
                            blend_cell(
                                base@.cell(x, y),
                                layer as int,
                                scaled(mask_at(*brush, x - pos.x, y - pos.y), color.a),
                            )
                        } else {
                            base@.cell(x, y)
                        }),
                decreases mask_h - j,
            {
                let tx: i128 = pos.x as i128 + i as i128;
                let ty: i128 = pos.y as i128 + j as i128;
                if 0 <= tx && tx < width as i128 && 0 <= ty && ty < height as i128 {
                    let x = tx as usize;
                    let y = ty as usize;
                    let amount = scale(grid_at(brush, i, j), color.a);
                    let ghost prior = *self;
                    self.apply_presence((x, y), layer, amount);
                    proof {
                        assert(self.same_frame(&base)) by {
                            assert(self@.colors == prior@.colors);
                            assert(self@.width == prior@.width);
                        }
                        assert forall|a: int, b: int| base@.contains(a, b) implies #[trigger] self@.cell(
                            a,
                            b,
                        ) == (if 0 <= a - pos.x < i || (a - pos.x == i && 0 <= b - pos.y < j + 1) {
                            blend_cell(
                                base@.cell(a, b),
                                layer as int,
                                scaled(mask_at(*brush, a - pos.x, b - pos.y), color.a),
                            )
                        } else {
                            base@.cell(a, b)
                        }) by {
                            assert(prior@.contains(a, b));
                        }
                    }
                }
                j += 1;
            }
            proof {
                assert forall|x: int, y: int| base@.contains(x, y) implies #[trigger] self@.cell(x, y)
                    == (if 0 <= x - pos.x < i + 1 {
                    blend_cell(
                        base@.cell(x, y),
                        layer as int,
                        scaled(mask_at(*brush, x - pos.x, y - pos.y), color.a),
                    )
                } else {
                    base@.cell(x, y)
                }) by {
                    if x - pos.x == i && !(0 <= y - pos.y < mask_h) {
                        lemma_blend_zero(base@.cell(x, y), layer as int);
                    }
                }
            }
            i += 1;
        }
        proof {
            let goal = old(self)@.applied(*brush, *pos, color);
            assert forall|x: int, y: int| self@.contains(x, y) implies #[trigger] self@.cell(x, y)
                == goal.cell(x, y) by {
                assert(base@.contains(x, y));
                if 0 <= x - pos.x < mask_w && 0 <= y - pos.y < mask_h {
                } else {
                    lemma_blend_zero(base@.cell(x, y), layer as int);
                }
            }
            self@.lemma_ext(goal);
        }
    }

    /// What the pixel `(x, y)` would render to once `amount` of the colour at
    /// `layer` were blended into it. The store is not changed.
    pub fn blended_pixel(&self, x: usize, y: usize, layer: usize, amount: u8) -> (c: Rgba)
        requires
            self.wf(),
            self@.contains(x as int, y as int),
        ensures
            c == rendered_pixel(
                self@.colors,
                blend_cell(self@.cell(x as int, y as int), layer as int, amount),
            ),
    {
        let ghost cell = blend_cell(self@.cell(x as int, y as int), layer as int, amount);
        let ghost colors = self@.colors;
        let spare = 255 - amount;
        let n = self.layer_count();
        let mut r: u8 = 0;
        let mut g: u8 = 0;
        let mut b: u8 = 0;
        let mut a: u8 = 0;
        let mut i: usize = 0;
        while i < n
            invariant
                i <= n,
                n == self.data.0@.len(),
                n == colors.len(),
                self.wf(),
                self@.contains(x as int, y as int),
                colors == self@.colors,
                spare == 255 - amount,
                cell == blend_cell(self@.cell(x as int, y as int), layer as int, amount),
                tint_sum(reds(colors), cell, i as int) >= 0,
                tint_sum(greens(colors), cell, i as int) >= 0,
                tint_sum(blues(colors), cell, i as int) >= 0,
                presence_sum(cell, i as int) >= 0,
                r == capped(tint_sum(reds(colors), cell, i as int)),
                g == capped(tint_sum(greens(colors), cell, i as int)),
                b == capped(tint_sum(blues(colors), cell, i as int)),
                a == capped(presence_sum(cell, i as int)),
            decreases n - i,
        {
            let held = self.get_presence(i, x, y);
            let p = if i == layer {
                held.saturating_add(amount)
            } else {
                shrink(held, spare)
            };
            let key = self.data.0[i].0;
            proof {
                self.lemma_cell(x as int, y as int);
                assert(p == cell[i as int]);
                assert(key == colors[i as int]);
                assert(reds(colors)[i as int] == key.r);
                assert(greens(colors)[i as int] == key.g);
                assert(blues(colors)[i as int] == key.b);
                lemma_tint_bounds(key.r, p);
                lemma_tint_bounds(key.g, p);
                lemma_tint_bounds(key.b, p);
            }
            if p != 0 {
                r = r.saturating_add(scale(key.r, p));
                g = g.saturating_add(scale(key.g, p));
                b = b.saturating_add(scale(key.b, p));
                a = a.saturating_add(p);
            }
            i += 1;
        }
        Rgba { r, g, b, a }
    }

    /// The image that the store shows: for every pixel, row by row, the four
    /// bytes red, green, blue and alpha of the colour it renders to.
    pub fn render(&self) -> (image: Vec<u8>)
        requires
            self.wf(),
        ensures
            image@ == self@.rendered(),
    {
        let width = self.dims[0];
        let height = self.dims[1];
        let mut image: Vec<u8> = Vec::new();
        let mut y: usize = 0;
        while y < height
            invariant
                y <= height,
                self.wf(),
                width == self@.width,
                height == self@.height,
                image@.len() == 4 * (y * width),
                forall|k: int| 0 <= k < image@.len() ==> #[trigger] image@[k] == self@.rendered_byte(k),
            decreases height - y,
        {
            let mut x: usize = 0;
            while x < width
                invariant
                    y < height,
                    x <= width,
                    self.wf(),
                    width == self@.width,
                    height == self@.height,
                    image@.len() == 4 * (y * width + x),
                    forall|k: int|
                        0 <= k < image@.len() ==> #[trigger] image@[k] == self@.rendered_byte(k),
                decreases width - x,
            {
                let c = self.blended_pixel(x, y, 0, 0);
                proof {
                    lemma_blend_zero(self@.cell(x as int, y as int), 0);
                    let pixel = y * width + x;
                    vstd::arithmetic::div_mod::lemma_fundamental_div_mod_converse(
                        pixel as int,
                        width as int,
                        y as int,
                        x as int,
                    );
                    assert((4 * pixel + 0) / 4 == pixel && (4 * pixel + 0) % 4 == 0);
                    assert((4 * pixel + 1) / 4 == pixel && (4 * pixel + 1) % 4 == 1);
                    assert((4 * pixel + 2) / 4 == pixel && (4 * pixel + 2) % 4 == 2);
                    assert((4 * pixel + 3) / 4 == pixel && (4 * pixel + 3) % 4 == 3);
                }
                image.push(c.r);
                image.push(c.g);
                image.push(c.b);
                image.push(c.a);
                x += 1;
            }
            proof {
                assert(4 * (y * width + width) == 4 * ((y + 1) * width)) by (nonlinear_arith);
            }
            y += 1;
        }
        proof {
            assert(4 * (height * width) == 4 * self@.width * self@.height) by (nonlinear_arith)
                requires
                    width == self@.width,
                    height == self@.height,
            ;
            assert(image@ =~= self@.rendered());
        }
        image
    }

    /// The presences at `(x, y)`, one per colour.
    fn read_cell(&self, x: usize, y: usize) -> (cell: Vec<u8>)
        requires
            self.wf(),
            self@.contains(x as int, y as int),
        ensures
            cell@ == self@.cell(x as int, y as int),
    {
        let n = self.layer_count();
        let mut cell: Vec<u8> = Vec::new();
        let mut i: usize = 0;
        while i < n
            invariant
                i <= n,
                n == self.data.0@.len(),
                self.wf(),
                self@.contains(x as int, y as int),
                cell@.len() == i,
                forall|l: int| 0 <= l < i ==> #[trigger] cell@[l] == self@.cell(x as int, y as int)[l],
            decreases n - i,
        {
            let v = self.get_presence(i, x, y);
            cell.push(v);
            i += 1;
        }
        proof {
            assert(cell@ =~= self@.cell(x as int, y as int));
        }
        cell
    }

    /// Stores `cell` as the presences at `(x, y)`.
    fn write_cell(&mut self, x: usize, y: usize, cell: &Vec<u8>)
        requires
            old(self).wf(),
            old(self)@.contains(x as int, y as int),
            cell@.len() == old(self)@.colors.len(),
        ensures
            final(self).wf(),
            final(self).same_frame(old(self)),
            final(self)@.shaped(),
            final(self)@.cell(x as int, y as int) == cell@,
            forall|i: int, j: int|
                old(self)@.contains(i, j) && (i != x || j != y) ==> #[trigger] final(self)@.cell(i, j)
                    == old(self)@.cell(i, j),
    {
        let ghost before = *self;
        let n = self.layer_count();
        let mut l: usize = 0;
        while l < n
            invariant
                l <= n,
                n == before.data.0@.len(),
                n == cell@.len(),
                self.wf(),
                self.same_frame(&before),
                before@.contains(x as int, y as int),
                forall|k: int, i: int, j: int|
                    0 <= k < n && (i != x || j != y || k >= l) ==> #[trigger] self.presence(k, i, j)
                        == before.presence(k, i, j),
                forall|k: int| 0 <= k < l ==> #[trigger] self.presence(k, x as int, y as int) == cell@[k],
            decreases n - l,
        {
            self.set_presence(l, x, y, cell[l]);
            l += 1;
        }
        proof {
            self.lemma_one_cell(&before, x as int, y as int, cell@);
        }
    }

    /// While a fill runs: every marked pixel could be filled and holds what
    /// the rule makes of it, every other pixel is as it was in `base`.
    closed spec fn fill_inv(&self, marks: &Raster, base: &ColorPresences, rule: RuleView) -> bool {
        &&& self.wf()
        &&& base.wf()
        &&& self.same_frame(base)
        &&& marks.width() == self.dims[0]
        &&& marks.height() == self.dims[1]
        &&& rule.wf(self.data.0@.len() as int)
        &&& forall|x: int, y: int|
            base@.contains(x, y) ==> #[trigger] self@.cell(x, y) == (if marks.at(x, y) != 0 {
                rule.filled(base@.cell(x, y))
            } else {
                base@.cell(x, y)
            })
        &&& forall|x: int, y: int|
            base@.contains(x, y) && #[trigger] marks.at(x, y) != 0 ==> rule.fillable(
                base@.cell(x, y),
            )
    }

    /// Tries to fill the pixel `pos`: it is filled, and marked, when the
    /// rule takes it and it was not marked before.
    fn pixel_fill(
        &mut self,
        marks: &mut Raster,
        pos: (usize, usize),
        rule: &FillRule,
        Ghost(base): Ghost<ColorPresences>,
    ) -> (hit: bool)
        requires
            old(self).fill_inv(old(marks), &base, rule@),
            base@.contains(pos.0 as int, pos.1 as int),
        ensures
            final(self).fill_inv(final(marks), &base, rule@),
            hit == pending(
                base@.fillable_set(rule@),
                marked(*old(marks)),
                pos.0 as int,
                pos.1 as int,
            ),
            grown(
                marked(*old(marks)),
                marked(*final(marks)),
                pos.0 as int,
                if hit {
                    pos.0 + 1
                } else {
                    pos.0 as int
                },
                pos.1 as int,
            ),
            final(marks).zeros() + (if hit {
                1nat
            } else {
                0nat
            }) == old(marks).zeros(),
    {
        let ghost marks0 = *marks;
        if marks.get(pos.0, pos.1) != 0 {
            return false;
        }
        let cell = self.read_cell(pos.0, pos.1);
        proof {
            self.lemma_cell(pos.0 as int, pos.1 as int);
        }
        match rule.fill_cell(&cell) {
            None => false,
            Some(next) => {
                proof {
                    lemma_filled_len(rule@, cell@);
                }
                let ghost prior = *self;
                self.write_cell(pos.0, pos.1, &next);
                marks.put(pos.0, pos.1, 1);
                proof {
                    marks0.lemma_one_zero_less(&*marks, pos.0 as int, pos.1 as int);
                    assert forall|x: int, y: int| base@.contains(x, y) implies #[trigger] self@.cell(
                        x,
                        y,
                    ) == (if marks.at(x, y) != 0 {
                        rule@.filled(base@.cell(x, y))
                    } else {
                        base@.cell(x, y)
                    }) by {
                        assert(prior@.contains(x, y));
                    }
                }
                true
            },
        }
    }

    /// Fills the longest run of fillable pixels around `seed` in its row,
    /// not going left of `min` nor up to `max`, and returns the run as
    /// `[left, right)`. When the seed itself cannot be filled, nothing is
    /// filled and the run is empty, with both ends at the seed's column.
    fn fill_span(
        &mut self,
        marks: &mut Raster,
        seed: (usize, usize),
        min: usize,
        max: usize,
        rule: &FillRule,
        Ghost(base): Ghost<ColorPresences>,
        Ghost(root): Ghost<(int, int)>,
    ) -> (run: (usize, usize))
        requires
            old(self).fill_inv(old(marks), &base, rule@),
            min <= seed.0 < max <= base@.width,
            seed.1 < base@.height,
            forall|p: (int, int)| #[trigger]
                marked(*old(marks)).contains(p) ==> connected(base@.fillable_set(rule@), root, p),
            pending(base@.fillable_set(rule@), marked(*old(marks)), seed.0 as int, seed.1 as int)
                ==> connected(base@.fillable_set(rule@), root, (seed.0 as int, seed.1 as int)),
        ensures
            final(self).fill_inv(final(marks), &base, rule@),
            grown(marked(*old(marks)), marked(*final(marks)), run.0 as int, run.1 as int, seed.1 as int),
            forall|x: int|
                run.0 <= x < run.1 ==> #[trigger] pending(
                    base@.fillable_set(rule@),
                    marked(*old(marks)),
                    x,
                    seed.1 as int,
                ),
            forall|p: (int, int)| #[trigger]
                marked(*final(marks)).contains(p) ==> connected(base@.fillable_set(rule@), root, p),
            final(marks).zeros() + (run.1 - run.0) == old(marks).zeros(),
            if pending(base@.fillable_set(rule@), marked(*old(marks)), seed.0 as int, seed.1 as int) {
                &&& min <= run.0 <= seed.0 < run.1 <= max
                &&& (run.0 == min || !pending(
                    base@.fillable_set(rule@),
                    marked(*old(marks)),
                    run.0 - 1,
                    seed.1 as int,
                ))
                &&& (run.1 == max || !pending(
                    base@.fillable_set(rule@),
                    marked(*old(marks)),
                    run.1 as int,
                    seed.1 as int,
                ))
            } else {
                run.0 == seed.0 && run.1 == seed.0
            },
    {
        let ghost open = base@.fillable_set(rule@);
        let ghost done0 = marked(*marks);
        let y = seed.1;
        if !self.pixel_fill(marks, seed, rule, Ghost(base)) {
            return (seed.0, seed.0);
        }
        let mut left = seed.0;
        loop
            invariant
                self.fill_inv(marks, &base, rule@),
                open == base@.fillable_set(rule@),
                done0 == marked(*old(marks)),
                y == seed.1,
                min <= left <= seed.0 < max <= base@.width,
                y < base@.height,
                grown(done0, marked(*marks), left as int, seed.0 + 1, y as int),
                forall|x: int| left <= x <= seed.0 ==> #[trigger] pending(open, done0, x, y as int),
                forall|p: (int, int)| #[trigger]
                    marked(*marks).contains(p) ==> connected(open, root, p),
                marks.zeros() + (seed.0 + 1 - left) == old(marks).zeros(),
            ensures
                left == min || !pending(open, done0, left - 1, y as int),
            decreases left,
        {
            if left > min {
                left -= 1;
            } else {
                break;
            }
            let ghost before = marked(*marks);
            if !self.pixel_fill(marks, (left, y), rule, Ghost(base)) {
                left += 1;
                break;
            }
            proof {
                assert(pending(open, before, left as int, y as int));
                assert(before.contains((left + 1, y as int)));
                lemma_connected_step(open, root, (left + 1, y as int), (left as int, y as int));
                assert forall|p: (int, int)| #[trigger] marked(*marks).contains(p) implies connected(
                    open,
                    root,
                    p,
                ) by {
                    if !before.contains(p) {
                        assert(p == (left as int, y as int));
                    }
                }
            }
        }
        let mut right = seed.0 + 1;
        loop
            invariant
                self.fill_inv(marks, &base, rule@),
                open == base@.fillable_set(rule@),
                done0 == marked(*old(marks)),
                y == seed.1,
                min <= left <= seed.0 < right <= max <= base@.width,
                y < base@.height,
                grown(done0, marked(*marks), left as int, right as int, y as int),
                forall|x: int| left <= x < right ==> #[trigger] pending(open, done0, x, y as int),
                forall|p: (int, int)| #[trigger]
                    marked(*marks).contains(p) ==> connected(open, root, p),
                marks.zeros() + (right - left) == old(marks).zeros(),
            ensures
                right == max || !pending(open, done0, right as int, y as int),
            decreases max - right,
        {
            if right >= max {
                break;
            }
            let ghost before = marked(*marks);
            if !self.pixel_fill(marks, (right, y), rule, Ghost(base)) {
                break;
            }
            proof {
                assert(pending(open, before, right as int, y as int));
                assert(before.contains((right - 1, y as int)));
                lemma_connected_step(open, root, (right - 1, y as int), (right as int, y as int));
                assert forall|p: (int, int)| #[trigger] marked(*marks).contains(p) implies connected(
                    open,
                    root,
                    p,
                ) by {
                    if !before.contains(p) {
                        assert(p == (right as int, y as int));
                    }
                }
            }
            right += 1;
        }
        (left, right)
    }

    /// Puts the stretch `span` of the row next to `y` in the direction
    /// `dir` on the work list, unless the stretch is empty, starts off the
    /// canvas, or that row does not exist.
    fn checked_span_add(&self, spans: &mut Vec<FillSpan>, span: (usize, usize), y: usize, dir: From)
        requires
            self.wf(),
            y < self@.height,
        ensures
            stack_view(final(spans)@) == handed_on(
                stack_view(old(spans)@),
                span.0 as int,
                span.1 as int,
                y as int,
                dir.step(),
                self@.width as int,
                self@.height as int,
            ),
            final(spans)@.len() == old(spans)@.len() || final(spans)@.len() == old(spans)@.len() + 1,
            final(spans)@.len() > old(spans)@.len() ==> span.0 < span.1,
    {
        if span.0 >= span.1 {
            proof {
                assert(stack_view(spans@) =~= stack_view(old(spans)@));
            }
            return;
        }
        if span.0 >= self.dims[0] {
            return;
        }
        match dir {
            From::Above => {
                if y == 0 {
                    return;
                }
                spans.push(FillSpan { left: span.0, right: span.1, y: y - 1, from: dir });
            },
            From::Below => {
                if y + 1 >= self.dims[1] {
                    return;
                }
                spans.push(FillSpan { left: span.0, right: span.1, y: y + 1, from: dir });
            },
        }
        proof {
            let t = SpanView {
                left: span.0 as int,
                right: span.1 as int,
                y: y + dir.step(),
                step: dir.step(),
            };
            assert(stack_view(spans@) =~= stack_view(old(spans)@).push(t));
        }
    }

    /// Scans the stretch `span` of its row: fills every run of fillable
    /// pixels that starts inside the stretch, hands each run on in the
    /// span's direction, and hands back, in the other direction, what the
    /// first run overhangs on the left and the last one on the right.
    fn scan_span(
        &mut self,
        marks: &mut Raster,
        spans: &mut Vec<FillSpan>,
        span: FillSpan,
        rule: &FillRule,
        Ghost(base): Ghost<ColorPresences>,
        Ghost(root): Ghost<(int, int)>,
    )
        requires
            old(self).fill_inv(old(marks), &base, rule@),
            scan_inv(
                base@.fillable_set(rule@),
                marked(*old(marks)),
                base@.width as int,
                base@.height as int,
                stack_view(old(spans)@),
                Scan { span: span@, left: span.left as int, right: span.left as int },
            ),
            forall|p: (int, int)| #[trigger]
                marked(*old(marks)).contains(p) ==> connected(base@.fillable_set(rule@), root, p),
        ensures
            final(self).fill_inv(final(marks), &base, rule@),
            idle_inv(
                base@.fillable_set(rule@),
                marked(*final(marks)),
                base@.width as int,
                base@.height as int,
                stack_view(final(spans)@),
            ),
            forall|p: (int, int)| #[trigger]
                marked(*final(marks)).contains(p) ==> connected(base@.fillable_set(rule@), root, p),
            forall|p: (int, int)| #[trigger]
                marked(*old(marks)).contains(p) ==> marked(*final(marks)).contains(p),
            final(marks).zeros() <= old(marks).zeros(),
            final(marks).zeros() == old(marks).zeros() ==> final(spans)@.len() == old(spans)@.len(),
    {
        let ghost open = base@.fillable_set(rule@);
        let ghost w = base@.width as int;
        let ghost h = base@.height as int;
        let ghost origin = (span.left as int, span@.origin());
        let width = self.dims[0];
        let mut left = span.left;
        let mut right = span.left;
        let mut first = true;
        while right < span.right
            invariant
                self.fill_inv(marks, &base, rule@),
                open == base@.fillable_set(rule@),
                w == base@.width,
                h == base@.height,
                width == base@.width,
                scan_inv(
                    open,
                    marked(*marks),
                    w,
                    h,
                    stack_view(spans@),
                    Scan { span: span@, left: left as int, right: right as int },
                ),
                first <==> right == span.left,
                forall|p: (int, int)| #[trigger] marked(*marks).contains(p) ==> connected(open, root, p),
                forall|p: (int, int)| #[trigger]
                    marked(*old(marks)).contains(p) ==> marked(*marks).contains(p),
                marks.zeros() <= old(marks).zeros(),
                marks.zeros() == old(marks).zeros() ==> spans@.len() == old(spans)@.len() && left
                    == span.left && right <= span.right,
            decreases w + 1 - right,
        {
            let ghost done = marked(*marks);
            let ghost stack = stack_view(spans@);
            let ghost c = Scan { span: span@, left: left as int, right: right as int };
            let min = if first {
                0
            } else {
                span.left
            };
            proof {
                let above = (right as int, span@.origin());
                assert(done.contains(above));
                if pending(open, done, right as int, span.y as int) {
                    lemma_connected_step(open, root, above, (right as int, span.y as int));
                }
            }
            let child = self.fill_span(
                marks,
                (right, span.y),
                min,
                width,
                rule,
                Ghost(base),
                Ghost(root),
            );
            proof {
                assert(child.1 >= right);
                if pending(open, done, right as int, span.y as int) {
                    lemma_scan_run(
                        open,
                        done,
                        marked(*marks),
                        w,
                        h,
                        stack,
                        c,
                        child.0 as int,
                        child.1 as int,
                    );
                } else {
                    assert(marked(*marks) =~= done);
                    lemma_scan_miss(open, done, w, h, stack, c);
                }
            }
            self.checked_span_add(spans, child, span.y, span.from);
            if first {
                left = child.0;
                first = false;
            }
            right = child.1 + 1;
        }
        proof {
            lemma_end_scan(
                open,
                marked(*marks),
                w,
                h,
                stack_view(spans@),
                Scan { span: span@, left: left as int, right: right as int },
            );
        }
        right -= 1;
        let edge = if span.left > 0 {
            span.left - 1
        } else {
            0
        };
        self.checked_span_add(spans, (left, edge), span.y, span.from.opposite());
        self.checked_span_add(spans, (span.right + 1, right), span.y, span.from.opposite());
    }

    /// Flood-fills by `rule` from `start`: the rule is applied once to every
    /// pixel that a path of edge-sharing fillable pixels links to `start`.
    /// Rows are filled run by run from an explicit work list of spans.
    pub fn fill_space(&mut self, start: (usize, usize), rule: &FillRule)
        requires
            old(self).wf(),
            old(self)@.contains(start.0 as int, start.1 as int),
            rule@.wf(old(self)@.colors.len() as int),
        ensures
            final(self).wf(),
            final(self)@ == old(self)@.flooded(rule@, start.0 as int, start.1 as int),
            final(self)@.width == old(self)@.width,
            final(self)@.height == old(self)@.height,
    {
        let ghost base = *self;
        let ghost open = base@.fillable_set(rule@);
        let ghost root = (start.0 as int, start.1 as int);
        let ghost w = base@.width as int;
        let ghost h = base@.height as int;
        proof {
            assert(self.dims[0] * self.dims[1] <= isize::MAX) by (nonlinear_arith)
                requires
                    4 * self.dims[0] * self.dims[1] <= isize::MAX,
            ;
        }
        let mut marks = Raster::new(&self.dims);
        let width = self.dims[0];
        proof {
            assert(marked(marks) =~= Set::<(int, int)>::empty());
            if open.contains(root) {
                lemma_connected_self(open, root);
            }
        }
        let first = self.fill_span(&mut marks, start, 0, width, rule, Ghost(base), Ghost(root));
        let mut spans: Vec<FillSpan> = Vec::new();
        proof {
            assert(stack_view(spans@) =~= Seq::<SpanView>::empty());
        }
        self.checked_span_add(&mut spans, first, start.1, From::Above);
        self.checked_span_add(&mut spans, first, start.1, From::Below);
        proof {
            if open.contains(root) {
                lemma_first_run(open, marked(marks), w, h, first.0 as int, first.1 as int, start.1 as int);
            } else {
                assert(marked(marks) =~= Set::<(int, int)>::empty());
                assert(stack_view(spans@) =~= Seq::<SpanView>::empty());
            }
        }
        while spans.len() > 0
            invariant
                self.fill_inv(&marks, &base, rule@),
                open == base@.fillable_set(rule@),
                w == base@.width,
                h == base@.height,
                idle_inv(open, marked(marks), w, h, stack_view(spans@)),
                forall|p: (int, int)| #[trigger] marked(marks).contains(p) ==> connected(open, root, p),
                open.contains(root) ==> marked(marks).contains(root),
            decreases marks.zeros(), spans@.len(),
        {
            let ghost waiting = stack_view(spans@);
            let span = spans.pop().unwrap();
            proof {
                assert(waiting =~= stack_view(spans@).push(span@));
                lemma_begin_scan(open, marked(marks), w, h, stack_view(spans@), span@);
            }
            self.scan_span(&mut marks, &mut spans, span, rule, Ghost(base), Ghost(root));
        }
        proof {
            let goal = base@.flooded(rule@, root.0, root.1);
            let done = marked(marks);
            assert(stack_view(spans@) =~= Seq::<SpanView>::empty());
            assert forall|x: int, y: int| self@.contains(x, y) implies #[trigger] self@.cell(x, y)
                == goal.cell(x, y) by {
                assert(base@.contains(x, y));
                if marks.at(x, y) != 0 {
                    assert(done.contains((x, y)));
                } else if connected(open, root, (x, y)) {
                    lemma_connected_ends(open, root, (x, y));
                    assert forall|p: (int, int), q: (int, int)|
                        done.contains(p) && #[trigger] adjacent(p, q) && open.contains(
                            q,
                        ) implies done.contains(q) by {
                        lemma_idle_closed(open, done, w, h, p, q);
                    }
                    lemma_closed_holds_component(open, done, root, (x, y));
                    assert(false);
                }
            }
            self@.lemma_ext(goal);
        }
    }

    /// The colours that are present at the pixel `xy`, in registry order.
    pub fn colors_at(&self, xy: (usize, usize)) -> (found: Vec<Rgba>)
        requires
            self.wf(),
            self@.contains(xy.0 as int, xy.1 as int),
        ensures
            found@.len() == present_layers(self@.cell(xy.0 as int, xy.1 as int)).len(),
            forall|k: int|
                0 <= k < found@.len() ==> #[trigger] found@[k] == self@.colors[present_layers(
                    self@.cell(xy.0 as int, xy.1 as int),
                )[k]],
    {
        let ghost cell = self@.cell(xy.0 as int, xy.1 as int);
        let n = self.layer_count();
        let mut found: Vec<Rgba> = Vec::new();
        let mut i: usize = 0;
        while i < n
            invariant
                i <= n,
                n == self.data.0@.len(),
                self.wf(),
                self@.contains(xy.0 as int, xy.1 as int),
                cell == self@.cell(xy.0 as int, xy.1 as int),
                found@.len() == present_upto(cell, i as int).len(),
                forall|k: int|
                    0 <= k < found@.len() ==> #[trigger] found@[k] == self@.colors[present_upto(
                        cell,
                        i as int,
                    )[k]],
            decreases n - i,
        {
            let val = self.get_presence(i, xy.0, xy.1);
            if val > 0 {
                found.push(self.data.0[i].0);
            }
            i += 1;
        }
        found
    }

    /// Flood-fills with `color` from the seed `pos`. The colour is
    /// registered first; a seed off the canvas fills nothing.
    ///
    /// Where the seed holds no colour, the fill spreads over the pixels
    /// that have room left and gives the colour all of that room. Where it
    /// holds colours, the fill spreads over the pixels that hold all of
    /// them: a translucent colour is blended in, an opaque one replaces the
    /// weakest of them.
    pub fn fill(&mut self, pos: &Point, color: Rgba)
        requires
            old(self).wf(),
        ensures
            final(self).wf(),
            final(self)@ == old(self)@.filled(*pos, color),
            final(self)@.width == old(self)@.width,
            final(self)@.height == old(self)@.height,
    {
        let target = self.raster_idx(color);
        if pos.x < 0 || pos.y < 0 {
            return;
        }
        let start = (pos.x as usize, pos.y as usize);
        if start.0 >= self.dims[0] || start.1 >= self.dims[1] {
            return;
        }
        let ghost base = self@;
        let ghost cell = base.cell(start.0 as int, start.1 as int);
        let start_colors = self.colors_at(start);
        let mut source_rasters: Vec<usize> = Vec::new();
        let mut min_alpha: u8 = 255;
        let mut k: usize = 0;
        proof {
            lemma_present_upto(cell, cell.len() as int);
        }
        while k < start_colors.len()
            invariant
                k <= start_colors@.len(),
                self.wf(),
                base == self@,
                base.contains(start.0 as int, start.1 as int),
                cell == base.cell(start.0 as int, start.1 as int),
                start_colors@.len() == present_layers(cell).len(),
                forall|j: int|
                    0 <= j < start_colors@.len() ==> #[trigger] start_colors@[j]
                        == base.colors[present_layers(cell)[j]],
                forall|j: int|
                    0 <= j < present_layers(cell).len() ==> 0 <= #[trigger] present_layers(cell)[j]
                        < cell.len(),
                source_rasters@.len() == k,
                forall|j: int| 0 <= j < k ==> #[trigger] source_rasters@[j] == present_layers(cell)[j],
                min_alpha == least_alpha(base.colors, present_layers(cell), k as int),
            decreases start_colors@.len() - k,
        {
            let c = start_colors[k];
            let ghost layer = present_layers(cell)[k as int];
            match self.data.position(&c) {
                Some(idx) => {
                    proof {
                        assert(self.data.keys()[idx as int] == c);
                        assert(self.data.keys()[layer] == c);
                        assert(idx == layer);
                    }
                    source_rasters.push(idx);
                },
                None => {
                    proof {
                        assert(self.data.matches_at(layer, c));
                        assert(false);
                    }
                },
            }
            if c.a < min_alpha {
                min_alpha = c.a;
            }
            k += 1;
        }
        let kind = if start_colors.len() == 0 {
            FillKind::Empty
        } else if color.a < 255 || color.a < min_alpha {
            FillKind::Blend
        } else {
            FillKind::Replace
        };
        let rule = FillRule { kind, target, sources: source_rasters, num: color.a, den: min_alpha };
        proof {
            assert(rule@.sources =~= present_layers(cell));
            assert(rule@ == base.rule_for(color, start.0 as int, start.1 as int));
        }
        self.fill_space(start, &rule);
    }

    /// Writes an image onto the canvas with its first pixel at `pos`.
    /// `pixel_data` holds four bytes per pixel, red, green, blue and alpha,
    /// in rows of `width` pixels. Every pixel that falls on the canvas is
    /// given over to its colour: the colour is registered and its presence
    /// there set to 255. Pixels off the canvas and a trailing pixel of fewer
    /// than four bytes are skipped.
    pub fn add_image(&mut self, pos: (usize, usize), pixel_data: &[u8], width: usize)
        requires
            old(self).wf(),
        ensures
            final(self).wf(),
            final(self)@ == old(self)@.with_image(
                pos.0 as int,
                pos.1 as int,
                pixel_data@,
                width as int,
                pixel_data@.len() as int / 4,
            ),
            final(self)@.width == old(self)@.width,
            final(self)@.height == old(self)@.height,
    {
        let ghost before = self@;
        let count = pixel_data.len() / 4;
        let row = if width <= 1 {
            1
        } else {
            width
        };
        let mut k: usize = 0;
        while k < count
            invariant
                k <= count,
                count == pixel_data@.len() / 4,
                pixel_data@.len() <= usize::MAX,
                row == (if width <= 1 { 1 } else { width as int }),
                self.wf(),
                self@.width == before.width,
                self@.height == before.height,
                self@ == before.with_image(
                    pos.0 as int,
                    pos.1 as int,
                    pixel_data@,
                    width as int,
                    k as int,
                ),
            decreases count - k,
        {
            let x = k % row;
            let y = k / row;
            if x < self.dims[0] && pos.0 < self.dims[0] - x && y < self.dims[1] && pos.1
                < self.dims[1] - y {
                assert(4 * k + 3 < pixel_data@.len()) by {
                    assert(k + 1 <= pixel_data@.len() as int / 4);
                }
                let color = Rgba {
                    r: pixel_data[4 * k],
                    g: pixel_data[4 * k + 1],
                    b: pixel_data[4 * k + 2],
                    a: pixel_data[4 * k + 3],
                };
                let ghost prior = *self;
                let layer = self.raster_idx(color);
                let ghost base = *self;
                self.set_presence(layer, pos.0 + x, pos.1 + y, 255);
                proof {
                    let px = pos.0 + x;
                    let py = pos.1 + y;
                    let cell = base@.cell(px, py).update(layer as int, 255u8);
                    base.lemma_cell(px, py);
                    assert forall|l: int| 0 <= l < cell.len() implies #[trigger] self.presence(l, px, py)
                        == cell[l] by {
                        if l != layer {
                            assert(self.presence(l, px, py) == base.presence(l, px, py));
                        }
                    }
                    self.lemma_one_cell(&base, px, py, cell);
                    let goal = prior@.pinned(px, py, color);
                    assert forall|i: int, j: int| self@.contains(i, j) implies #[trigger] self@.cell(i, j)
                        == goal.cell(i, j) by {
                        assert(base@.contains(i, j));
                    }
                    self@.lemma_ext(goal);
                }
            }
            k += 1;
        }
    }
}

impl Clone for ColorPresences {
    /// A store with the same canvas, colours and presences.
    fn clone(&self) -> (copy: Self)
        ensures
            copy@ == self@,
            self.wf() ==> copy.wf(),
    {
        let mut entries: Vec<(Rgba, Raster)> = Vec::new();
        let n = self.data.0.len();
        let mut i: usize = 0;
        while i < n
            invariant
                i <= n,
                n == self.data.0@.len(),
                entries@.len() == i,
                forall|l: int|
                    0 <= l < i ==> (#[trigger] entries@[l]).0 == self.data.0@[l].0
                        && entries@[l].1.width() == self.data.0@[l].1.width()
                        && entries@[l].1.height() == self.data.0@[l].1.height(),
                forall|l: int, x: int, y: int|
                    0 <= l < i ==> #[trigger] entries@[l].1.at(x, y) == self.data.0@[l].1.at(x, y),
            decreases n - i,
        {
            let key = self.data.0[i].0;
            let layer = self.data.0[i].1.clone();
            entries.push((key, layer));
            i += 1;
        }
        let copy = Self { data: VecMap(entries), dims: [self.dims[0], self.dims[1]] };
        proof {
            assert(copy.data.keys() =~= self.data.keys());
            assert forall|x: int, y: int| copy@.contains(x, y) implies #[trigger] copy@.cell(x, y)
                == self@.cell(x, y) by {
                assert(copy@.cell(x, y) =~= self@.cell(x, y));
            }
            copy@.lemma_ext(self@);
        }
        copy
    }
}

} // verus!
