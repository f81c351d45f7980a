//! A canvas that gathers a brush stroke beside the committed store.

use crate::brush::Brush;
use crate::color::Rgba;
use crate::color_presences::ColorPresences;
use crate::error::CanvasError;
use crate::grid_model::{grid_cols, grid_rows};
use crate::point::Point;
use crate::raster::{stamped, Raster};
use crate::store_view::StoreView;
use grid::Grid;
use vstd::prelude::*;

verus! {

/// The committed store and the stroke in progress. The stroke is a layer of
/// its own, all zero between strokes; it reaches the store when it is
/// committed, once.
pub struct CanvasImage {
    colors: ColorPresences,
    current_stroke: Raster,
    dims: [usize; 2],
}

impl CanvasImage {
    /// The store is well formed and the stroke layer has the canvas's size.
    pub closed spec fn wf(&self) -> bool {
        &&& self.colors.wf()
        &&& self.colors@.width == self.dims[0]
        &&& self.colors@.height == self.dims[1]
        &&& self.current_stroke.width() == self.dims[0]
        &&& self.current_stroke.height() == self.dims[1]
    }

    /// The committed store.
    pub closed spec fn store(&self) -> StoreView {
        self.colors@
    }

    /// The stroke in progress, as the mask that a commit blends in.
    pub closed spec fn stroke_mask(&self) -> Grid<u8> {
        self.current_stroke.0
    }

    /// The stroke in progress, indexed by `x` and then by `y`.
    pub open spec fn stroke(&self) -> Seq<Seq<u8>> {
        Raster(self.stroke_mask())@
    }

    /// What holds of a well-formed canvas.
    pub proof fn lemma_wf(&self)
        requires
            self.wf(),
        ensures
            self.store().wf(),
            grid_rows(self.stroke_mask()) == self.store().width,
            grid_cols(self.stroke_mask()) == self.store().height,
    {
        self.colors.lemma_view_wf();
    }

    /// A canvas of `width` by `height` pixels with nothing painted and no stroke begun.
    pub fn new(width: usize, height: usize) -> (made: Result<Self, CanvasError>)
        requires
            4 * width * height <= isize::MAX,
        ensures
            (width == 0 || height == 0) <==> made == Err::<Self, CanvasError>(
                CanvasError::InvalidDimensions,
            ),
            made matches Ok(canvas) ==> canvas.wf() && canvas.store() == StoreView::blank(
                width as nat,
                height as nat,
            ) && Raster(canvas.stroke_mask()).is_blank(),
    {
        match ColorPresences::new(width, height) {
            Err(e) => Err(e),
            Ok(colors) => {
                proof {
                    assert(width * height <= isize::MAX) by (nonlinear_arith)
                        requires
                            4 * width * height <= isize::MAX,
                    ;
                }
                let dims = [width, height];
                Ok(Self { colors, current_stroke: Raster::new(&dims), dims })
            },
        }
    }

    /// Stamps `brush`, centred on `pos`, onto the stroke in progress by
    /// keeping the larger intensity at every pixel, and renders what the
    /// canvas would show if the stroke were committed with `color` now.
    /// The store itself is not changed.
    pub fn preview(&mut self, brush: &Brush, pos: &Point, color: Rgba) -> (image: Vec<u8>)
        requires
            old(self).wf(),
        ensures
            final(self).wf(),
            final(self).store() == old(self).store(),
            final(self).stroke() == stamped(
                old(self).stroke(),
                brush.texture,
                Brush::origin_for(pos.x as int, grid_cols(brush.texture)),
                Brush::origin_for(pos.y as int, grid_rows(brush.texture)),
            ),
            image@ == final(self).store().applied(
                final(self).stroke_mask(),
                Point { x: 0, y: 0 },
                color,
            ).rendered(),
    {
        let left: i128 = pos.x as i128 - (brush.width() / 2) as i128;
        let top: i128 = pos.y as i128 - (brush.height() / 2) as i128;
        self.current_stroke.set_max_from(&brush.texture, left, top);
        let mut preview = self.colors.clone();
        preview.apply(&self.current_stroke.0, &Point { x: 0, y: 0 }, color);
        preview.render()
    }

    /// Commits the stroke in progress: it is blended into the store with
    /// `color`, as a mask laid at the canvas's origin, and the stroke layer
    /// is cleared.
    pub fn apply_preview(&mut self, color: Rgba)
        requires
            old(self).wf(),
        ensures
            final(self).wf(),
            final(self).store() == old(self).store().applied(
                old(self).stroke_mask(),
                Point { x: 0, y: 0 },
                color,
            ),
            final(self).store().width == old(self).store().width,
            final(self).store().height == old(self).store().height,
            Raster(final(self).stroke_mask()).is_blank(),
    {
        self.colors.apply(&self.current_stroke.0, &Point { x: 0, y: 0 }, color);
        proof {
            self.colors.lemma_view_wf();
            old(self).colors.lemma_view_wf();
            old(self).colors@.lemma_registered(color);
            assert(self.dims[0] * self.dims[1] <= isize::MAX) by (nonlinear_arith)
                requires
                    4 * self.dims[0] * self.dims[1] <= isize::MAX,
            ;
        }
        self.current_stroke = Raster::new(&self.dims);
    }

    /// The committed store.
    pub fn colors(&self) -> (store: &ColorPresences)
        ensures
            store@ == self.store(),
            self.wf() ==> store.wf(),
    {
        &self.colors
    }

    /// The stroke in progress.
    pub fn current_stroke(&self) -> (stroke: &Raster)
        ensures
            stroke.0 == self.stroke_mask(),
    {
        &self.current_stroke
    }

    /// The canvas's width and height.
    pub fn dims(&self) -> (d: [usize; 2])
        ensures
            self.wf() ==> d[0] == self.store().width && d[1] == self.store().height,
    {
        self.dims
    }

    /// The canvas's width.
    pub fn width(&self) -> (w: usize)
        ensures
            self.wf() ==> w == self.store().width,
    {
        self.dims[0]
    }

    /// The canvas's height.
    pub fn height(&self) -> (h: usize)
        ensures
            self.wf() ==> h == self.store().height,
    {
        self.dims[1]
    }
}

} // verus!
