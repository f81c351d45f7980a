//! A canvas that keeps its rendering at hand and repaints only what a
//! stroke touches.

use crate::blend::{blend_cell, rendered_pixel, scale, scaled};
use crate::brush::Brush;
use crate::color::Rgba;
use crate::color_presences::ColorPresences;
use crate::error::CanvasError;
use crate::grid_model::{grid_cols, grid_rows};
use crate::point::Point;
use crate::raster::{mask_at, stamped, Raster};
use crate::store_view::{lemma_pixel_layout, lemma_with_image_frame, pixel_of, StoreView};
use grid::Grid;
use vstd::prelude::*;

verus! {

/// A layer after `mask` is stamped on it for each of the first `n`
/// positions, centred on the position.
pub open spec fn stamped_all(
    layer: Seq<Seq<u8>>,
    mask: Grid<u8>,
    poses: Seq<Point>,
    n: int,
) -> Seq<Seq<u8>>
    decreases n,
{
    if n <= 0 {
        layer
    } else {
        stamped(
            stamped_all(layer, mask, poses, n - 1),
            mask,
            Brush::origin_for(poses[n - 1].x as int, grid_cols(mask)),
            Brush::origin_for(poses[n - 1].y as int, grid_rows(mask)),
        )
    }
}

/// What the mask holds at `(x, y)` when it is stamped for the position `pos`.
pub open spec fn stamp_at(mask: Grid<u8>, pos: Point, x: int, y: int) -> u8 {
    mask_at(
        mask,
        x - Brush::origin_for(pos.x as int, grid_cols(mask)),
        y - Brush::origin_for(pos.y as int, grid_rows(mask)),
    )
}

/// After a run of stamps every pixel holds the largest of what it held
/// before and what the stamps hold there: it is no less than any of them,
/// and it is one of them.
pub proof fn lemma_stamped_all_is_max(
    layer: Seq<Seq<u8>>,
    mask: Grid<u8>,
    poses: Seq<Point>,
    n: int,
    x: int,
    y: int,
)
    requires
        0 <= n <= poses.len(),
        0 <= x < layer.len(),
        0 <= y < layer[x].len(),
    ensures
        stamped_all(layer, mask, poses, n).len() == layer.len(),
        stamped_all(layer, mask, poses, n)[x].len() == layer[x].len(),
        stamped_all(layer, mask, poses, n)[x][y] >= layer[x][y],
        forall|k: int|
            0 <= k < n ==> stamped_all(layer, mask, poses, n)[x][y] >= #[trigger] stamp_at(
                mask,
                poses[k],
                x,
                y,
            ),
        stamped_all(layer, mask, poses, n)[x][y] == layer[x][y] || exists|k: int|
            0 <= k < n && stamped_all(layer, mask, poses, n)[x][y] == #[trigger] stamp_at(
                mask,
                poses[k],
                x,
                y,
            ),
    decreases n,
{
    if n > 0 {
        lemma_stamped_all_is_max(layer, mask, poses, n - 1, x, y);
        let before = stamped_all(layer, mask, poses, n - 1);
        let after = stamped_all(layer, mask, poses, n);
        let last = stamp_at(mask, poses[n - 1], x, y);
        assert(after[x][y] == crate::raster::max_u8(before[x][y], last));
        if after[x][y] != layer[x][y] {
            if after[x][y] == last {
                assert(after[x][y] == stamp_at(mask, poses[n - 1], x, y));
            } else {
                let k = choose|k: int|
                    0 <= k < n - 1 && before[x][y] == #[trigger] stamp_at(mask, poses[k], x, y);
                assert(after[x][y] == stamp_at(mask, poses[k], x, y));
            }
        }
    }
}

/// Whether a non-zero cell of `mask`, stamped for one of the first `n`
/// positions, falls on `(x, y)`.
pub open spec fn touched_by(mask: Grid<u8>, poses: Seq<Point>, n: int, x: int, y: int) -> bool {
    exists|k: int|
        0 <= k < n && #[trigger] mask_at(
            mask,
            x - Brush::origin_for(poses[k].x as int, grid_cols(mask)),
            y - Brush::origin_for(poses[k].y as int, grid_rows(mask)),
        ) != 0
}

/// The committed store, the stroke in progress, and the image last shown.
pub struct CanvasImage {
    colors: ColorPresences,
    cached_render: Vec<u8>,
    current_stroke: Raster,
    dims: [usize; 2],
}

impl CanvasImage {
    /// The store is well formed, the stroke layer has the canvas's size,
    /// and the image has four bytes for every pixel.
    pub closed spec fn wf(&self) -> bool {
        &&& self.colors.wf()
        &&& self.colors@.width == self.dims[0]
        &&& self.colors@.height == self.dims[1]
        &&& self.current_stroke.width() == self.dims[0]
        &&& self.current_stroke.height() == self.dims[1]
        &&& self.cached_render@.len() == 4 * (self.dims[0] * self.dims[1])
    }

    /// The committed store.
    pub closed spec fn store(&self) -> StoreView {
        self.colors@
    }

    /// The stroke in progress, as the mask that a commit blends in.
    pub closed spec fn stroke_mask(&self) -> Grid<u8> {
        self.current_stroke.0
    }

    /// The stroke in progress, indexed by `x` and then by `y`.
    pub open spec fn stroke(&self) -> Seq<Seq<u8>> {
        Raster(self.stroke_mask())@
    }

    /// The image last shown.
    pub closed spec fn shown(&self) -> Seq<u8> {
        self.cached_render@
    }

    /// What holds of a well-formed canvas.
    pub proof fn lemma_wf(&self)
        requires
            self.wf(),
        ensures
            self.store().wf(),
            grid_rows(self.stroke_mask()) == self.store().width,
            grid_cols(self.stroke_mask()) == self.store().height,
            self.shown().len() == 4 * (self.store().width * self.store().height),
    {
        self.colors.lemma_view_wf();
    }

    /// A canvas of `width` by `height` pixels with nothing painted, no
    /// stroke begun, and a transparent image.
    pub fn new(width: usize, height: usize) -> (made: Result<Self, CanvasError>)
        requires
            4 * width * height <= isize::MAX,
        ensures
            (width == 0 || height == 0) <==> made == Err::<Self, CanvasError>(
                CanvasError::InvalidDimensions,
            ),
            made matches Ok(canvas) ==> canvas.wf() && canvas.store() == StoreView::blank(
                width as nat,
                height as nat,
            ) && Raster(canvas.stroke_mask()).is_blank() && canvas.shown()
                == canvas.store().rendered(),
    {
        match ColorPresences::new(width, height) {
            Err(e) => Err(e),
            Ok(colors) => {
                proof {
                    assert(width * height <= isize::MAX && 4 * (width * height) == 4 * width
                        * height) by (nonlinear_arith)
                        requires
                            4 * width * height <= isize::MAX,
                    ;
                }
                let dims = [width, height];
                let cached_render = colors.render();
                proof {
                    assert(colors@.rendered().len() == 4 * (width * height)) by (nonlinear_arith)
                        requires
                            colors@.rendered().len() == 4 * colors@.width * colors@.height,
                            colors@.width == width,
                            colors@.height == height,
                    ;
                }
                Ok(Self { colors, cached_render, current_stroke: Raster::new(&dims), dims })
            },
        }
    }

    /// The image last shown.
    pub fn render(&self) -> (image: Vec<u8>)
        ensures
            image@ == self.shown(),
    {
        self.cached_render.clone()
    }

    /// The layer of `color`, registered now if it was not before.
    fn raster_idx(&mut self, color: Rgba) -> (layer: usize)
        requires
            old(self).wf(),
        ensures
            final(self).wf(),
            final(self).store() == old(self).store().registered(color),
            final(self).store().width == old(self).store().width,
            final(self).store().height == old(self).store().height,
            final(self).stroke_mask() == old(self).stroke_mask(),
            final(self).shown() == old(self).shown(),
            layer == final(self).store().layer_of(color),
            layer < final(self).store().colors.len(),
    {
        proof {
            self.colors.lemma_view_wf();
            self.colors@.lemma_registered(color);
        }
        self.colors.raster_idx(color)
    }

    /// Renders the store anew into the image.
    fn update_render(&mut self)
        requires
            old(self).colors.wf(),
            old(self).colors@.width == old(self).dims[0],
            old(self).colors@.height == old(self).dims[1],
            old(self).current_stroke.width() == old(self).dims[0],
            old(self).current_stroke.height() == old(self).dims[1],
        ensures
            final(self).wf(),
            final(self).store() == old(self).store(),
            final(self).stroke_mask() == old(self).stroke_mask(),
            final(self).shown() == final(self).store().rendered(),
    {
        self.cached_render = self.colors.render();
        proof {
            let w = self.dims[0];
            let h = self.dims[1];
            assert(self.colors@.rendered().len() == 4 * (w * h)) by (nonlinear_arith)
                requires
                    self.colors@.rendered().len() == 4 * self.colors@.width * self.colors@.height,
                    self.colors@.width == w,
                    self.colors@.height == h,
            ;
        }
    }

    /// Stamps `brush` onto the stroke in progress, centred on each of
    /// `poses` in turn, and returns the pixels that the stamps touched.
    fn update_stroke(&mut self, brush: &Brush, poses: &Vec<Point>) -> (touched: Vec<(usize, usize)>)
        requires
            old(self).wf(),
        ensures
            final(self).wf(),
            final(self).store() == old(self).store(),
            final(self).shown() == old(self).shown(),
            final(self).stroke() == stamped_all(
                old(self).stroke(),
                brush.texture,
                poses@,
                poses@.len() as int,
            ),
            forall|p: (usize, usize)| #[trigger]
                touched@.contains(p) <==> old(self).store().contains(p.0 as int, p.1 as int)
                    && touched_by(brush.texture, poses@, poses@.len() as int, p.0 as int, p.1 as int),
    {
        let half_w = brush.width() / 2;
        let half_h = brush.height() / 2;
        let mut updated_pixels: Vec<(usize, usize)> = Vec::new();
        let mut k: usize = 0;
        while k < poses.len()
            invariant
                k <= poses@.len(),
                self.wf(),
                half_w == grid_cols(brush.texture) / 2,
                half_h == grid_rows(brush.texture) / 2,
                self.colors == old(self).colors,
                self.cached_render == old(self).cached_render,
                self.dims == old(self).dims,
                self.current_stroke@ == stamped_all(
                    old(self).current_stroke@,
                    brush.texture,
                    poses@,
                    k as int,
                ),
                forall|p: (usize, usize)| #[trigger]
                    updated_pixels@.contains(p) <==> old(self).store().contains(
                        p.0 as int,
                        p.1 as int,
                    ) && touched_by(brush.texture, poses@, k as int, p.0 as int, p.1 as int),
            decreases poses@.len() - k,
        {
            let pos = poses[k];
            let left: i128 = pos.x as i128 - half_w as i128;
            let top: i128 = pos.y as i128 - half_h as i128;
            let ghost earlier = updated_pixels@;
            self.current_stroke.set_max_tracked(&brush.texture, left, top, &mut updated_pixels);
            proof {
                assert forall|p: (usize, usize)| #[trigger]
                    updated_pixels@.contains(p) <==> old(self).store().contains(
                        p.0 as int,
                        p.1 as int,
                    ) && touched_by(brush.texture, poses@, k + 1, p.0 as int, p.1 as int) by {
                    let x = p.0 as int;
                    let y = p.1 as int;
                    if touched_by(brush.texture, poses@, k + 1, x, y) {
                        let j = choose|j: int|
                            0 <= j < k + 1 && #[trigger] mask_at(
                                brush.texture,
                                x - Brush::origin_for(poses@[j].x as int, grid_cols(brush.texture)),
                                y - Brush::origin_for(poses@[j].y as int, grid_rows(brush.texture)),
                            ) != 0;
                        if j < k {
                            assert(touched_by(brush.texture, poses@, k as int, x, y));
                        }
                    }
                    if touched_by(brush.texture, poses@, k as int, x, y) {
                        let j = choose|j: int|
                            0 <= j < k && #[trigger] mask_at(
                                brush.texture,
                                x - Brush::origin_for(poses@[j].x as int, grid_cols(brush.texture)),
                                y - Brush::origin_for(poses@[j].y as int, grid_rows(brush.texture)),
                            ) != 0;
                        assert(touched_by(brush.texture, poses@, k + 1, x, y));
                    }
                    if mask_at(brush.texture, x - left, y - top) != 0 {
                        assert(mask_at(
                            brush.texture,
                            x - Brush::origin_for(poses@[k as int].x as int, grid_cols(brush.texture)),
                            y - Brush::origin_for(poses@[k as int].y as int, grid_rows(brush.texture)),
                        ) != 0);
                        assert(touched_by(brush.texture, poses@, k + 1, x, y));
                    }
                }
            }
            k += 1;
        }
        updated_pixels
    }

    /// Writes `c` as the pixel `(x, y)` of the image.
    fn put_pixel(&mut self, x: usize, y: usize, c: Rgba)
        requires
            old(self).wf(),
            old(self).store().contains(x as int, y as int),
        ensures
            final(self).wf(),
            final(self).colors == old(self).colors,
            final(self).current_stroke == old(self).current_stroke,
            final(self).dims == old(self).dims,
            pixel_of(final(self).shown(), final(self).store().width, x as int, y as int) == c,
            forall|a: int, b: int|
                old(self).store().contains(a, b) && (a != x || b != y) ==> #[trigger] pixel_of(
                    final(self).shown(),
                    final(self).store().width,
                    a,
                    b,
                ) == pixel_of(old(self).shown(), old(self).store().width, a, b),
    {
        let w = self.dims[0];
        let ghost h = self.dims[1] as int;
        proof {
            self.colors.lemma_view_wf();
            lemma_pixel_layout(w as int, h, x as int, y as int, x as int, y as int);
            assert(4 * (w * h) <= isize::MAX) by (nonlinear_arith)
                requires
                    4 * w * h <= isize::MAX,
            ;
        }
        let at = 4 * (x + y * w);
        self.cached_render[at] = c.r;
        self.cached_render[at + 1] = c.g;
        self.cached_render[at + 2] = c.b;
        self.cached_render[at + 3] = c.a;
        proof {
            assert forall|a: int, b: int|
                old(self).store().contains(a, b) && (a != x || b != y) implies #[trigger] pixel_of(
                self.shown(),
                self.store().width,
                a,
                b,
            ) == pixel_of(old(self).shown(), old(self).store().width, a, b) by {
                lemma_pixel_layout(w as int, h, x as int, y as int, a, b);
                lemma_pixel_layout(w as int, h, a, b, a, b);
            }
        }
    }

    /// Stamps `brush` onto the stroke in progress, centred on each of
    /// `poses`, and repaints in the image the pixels that the stamps
    /// touched: each shows what it would render to if the stroke were
    /// committed with `color` now. The colour is registered; no presence in
    /// the store changes. Returns the image.
    pub fn preview_with(&mut self, brush: &Brush, color: Rgba, poses: Vec<Point>) -> (image: Vec<u8>)
        requires
            old(self).wf(),
        ensures
            final(self).wf(),
            final(self).store() == old(self).store().registered(color),
            final(self).store().width == old(self).store().width,
            final(self).store().height == old(self).store().height,
            final(self).stroke() == stamped_all(
                old(self).stroke(),
                brush.texture,
                poses@,
                poses@.len() as int,
            ),
            forall|x: int, y: int|
                old(self).store().contains(x, y) ==> #[trigger] pixel_of(
                    final(self).shown(),
                    old(self).store().width,
                    x,
                    y,
                ) == (if touched_by(brush.texture, poses@, poses@.len() as int, x, y) {
                    rendered_pixel(
                        final(self).store().colors,
                        blend_cell(
                            final(self).store().cell(x, y),
                            final(self).store().layer_of(color),
                            scaled(final(self).stroke()[x][y], color.a),
                        ),
                    )
                } else {
                    pixel_of(old(self).shown(), old(self).store().width, x, y)
                }),
            image@ == final(self).shown(),
    {
        let raster_i = self.raster_idx(color);
        let touched = self.update_stroke(brush, &poses);
        let ghost base = *self;
        let ghost w = base.store().width;
        let mut k: usize = 0;
        while k < touched.len()
            invariant
                k <= touched@.len(),
                self.wf(),
                base.wf(),
                self.colors == base.colors,
                self.current_stroke == base.current_stroke,
                self.dims == base.dims,
                w == base.store().width,
                raster_i == base.store().layer_of(color),
                forall|p: (usize, usize)| #[trigger]
                    touched@.contains(p) ==> base.store().contains(p.0 as int, p.1 as int),
                forall|x: int, y: int|
                    base.store().contains(x, y) ==> #[trigger] pixel_of(self.shown(), w, x, y) == (
                    if exists|j: int| 0 <= j < k && #[trigger] touched@[j] == (x as usize, y as usize) {
                        rendered_pixel(
                            base.store().colors,
                            blend_cell(
                                base.store().cell(x, y),
                                raster_i as int,
                                scaled(base.stroke()[x][y], color.a),
                            ),
                        )
                    } else {
                        pixel_of(base.shown(), w, x, y)
                    }),
            decreases touched@.len() - k,
        {
            let x = touched[k].0;
            let y = touched[k].1;
            proof {
                assert(touched@.contains(touched@[k as int]));
            }
            let amount = scale(self.current_stroke.get(x, y), color.a);
            let c = self.colors.blended_pixel(x, y, raster_i, amount);
            let ghost prior = *self;
            self.put_pixel(x, y, c);
            proof {
                assert forall|a: int, b: int| base.store().contains(a, b) implies #[trigger] pixel_of(
                    self.shown(),
                    w,
                    a,
                    b,
                ) == (if exists|j: int|
                    0 <= j < k + 1 && #[trigger] touched@[j] == (a as usize, b as usize) {
                    rendered_pixel(
                        base.store().colors,
                        blend_cell(
                            base.store().cell(a, b),
                            raster_i as int,
                            scaled(base.stroke()[a][b], color.a),
                        ),
                    )
                } else {
                    pixel_of(base.shown(), w, a, b)
                }) by {
                    if a == x && b == y {
                        assert(touched@[k as int] == (a as usize, b as usize));
                    } else {
                        assert(pixel_of(self.shown(), w, a, b) == pixel_of(prior.shown(), w, a, b));
                        if exists|j: int|
                            0 <= j < k + 1 && #[trigger] touched@[j] == (a as usize, b as usize) {
                            let j = choose|j: int|
                                0 <= j < k + 1 && #[trigger] touched@[j] == (a as usize, b as usize);
                            assert(j < k);
                        }
                    }
                }
            }
            k += 1;
        }
        proof {
            assert forall|x: int, y: int| old(self).store().contains(x, y) implies #[trigger] pixel_of(
                self.shown(),
                old(self).store().width,
                x,
                y,
            ) == (if touched_by(brush.texture, poses@, poses@.len() as int, x, y) {
                rendered_pixel(
                    self.store().colors,
                    blend_cell(
                        self.store().cell(x, y),
                        self.store().layer_of(color),
                        scaled(self.stroke()[x][y], color.a),
                    ),
                )
            } else {
                pixel_of(old(self).shown(), old(self).store().width, x, y)
            }) by {
                let p = (x as usize, y as usize);
                if touched@.contains(p) {
                    let j = choose|j: int| 0 <= j < touched@.len() && touched@[j] == p;
                    assert(touched@[j] == (x as usize, y as usize));
                }
            }
        }
        self.cached_render.clone()
    }

    /// Blends `presence` of the colour at `raster_idx` into the pixel `pos`
    /// of the store. The image is left as it is.
    pub fn apply_presence(&mut self, pos: (usize, usize), raster_idx: usize, presence: u8)
        requires
            old(self).wf(),
            old(self).store().contains(pos.0 as int, pos.1 as int),
            raster_idx < old(self).store().colors.len(),
        ensures
            final(self).wf(),
            final(self).store() == old(self).store().blended_at(
                pos.0 as int,
                pos.1 as int,
                raster_idx as int,
                presence,
            ),
            final(self).store().width == old(self).store().width,
            final(self).store().height == old(self).store().height,
            final(self).stroke_mask() == old(self).stroke_mask(),
            final(self).shown() == old(self).shown(),
    {
        self.colors.apply_presence(pos, raster_idx, presence);
    }

    /// Commits the stroke in progress: it is blended into the store with
    /// `color`, as a mask laid at the canvas's origin, and the stroke layer
    /// is cleared. The image is left as it is.
    pub fn apply_preview(&mut self, color: Rgba)
        requires
            old(self).wf(),
        ensures
            final(self).wf(),
            final(self).store() == old(self).store().applied(
                old(self).stroke_mask(),
                Point { x: 0, y: 0 },
                color,
            ),
            final(self).store().width == old(self).store().width,
            final(self).store().height == old(self).store().height,
            Raster(final(self).stroke_mask()).is_blank(),
            final(self).shown() == old(self).shown(),
    {
        self.colors.apply(&self.current_stroke.0, &Point { x: 0, y: 0 }, color);
        proof {
            old(self).colors.lemma_view_wf();
            old(self).colors@.lemma_registered(color);
            assert(self.dims[0] * self.dims[1] <= isize::MAX) by (nonlinear_arith)
                requires
                    4 * self.dims[0] * self.dims[1] <= isize::MAX,
            ;
        }
        self.current_stroke = Raster::new(&self.dims);
    }

    /// Writes an image onto the canvas with its first pixel at `pos`, as
    /// the store's `add_image` does, and renders the store anew.
    pub fn add_image(&mut self, pos: (usize, usize), pixel_data: &[u8], width: usize)
        requires
            old(self).wf(),
        ensures
            final(self).wf(),
            final(self).store() == old(self).store().with_image(
                pos.0 as int,
                pos.1 as int,
                pixel_data@,
                width as int,
                pixel_data@.len() as int / 4,
            ),
            final(self).store().width == old(self).store().width,
            final(self).store().height == old(self).store().height,
            final(self).stroke_mask() == old(self).stroke_mask(),
            final(self).shown() == final(self).store().rendered(),
    {
        self.colors.add_image(pos, pixel_data, width);
        proof {
            old(self).colors.lemma_view_wf();
            lemma_with_image_frame(
                old(self).colors@,
                pos.0 as int,
                pos.1 as int,
                pixel_data@,
                width as int,
                pixel_data@.len() as int / 4,
            );
        }
        self.update_render();
    }

    /// The colours that are present at the pixel `xy`, in registry order.
    pub fn colors_at(&self, xy: (usize, usize)) -> (found: Vec<Rgba>)
        requires
            self.wf(),
            self.store().contains(xy.0 as int, xy.1 as int),
        ensures
            found@.len() == crate::store_view::present_layers(
                self.store().cell(xy.0 as int, xy.1 as int),
            ).len(),
            forall|k: int|
                0 <= k < found@.len() ==> #[trigger] found@[k]
                    == self.store().colors[crate::store_view::present_layers(
                    self.store().cell(xy.0 as int, xy.1 as int),
                )[k]],
    {
        self.colors.colors_at(xy)
    }

    /// Flood-fills the store with `color` from the seed `pos`, as the
    /// store's `fill` does, renders the store anew and returns the image.
    pub fn fill(&mut self, pos: Point, color: Rgba) -> (image: Vec<u8>)
        requires
            old(self).wf(),
        ensures
            final(self).wf(),
            final(self).store() == old(self).store().filled(pos, color),
            final(self).store().width == old(self).store().width,
            final(self).store().height == old(self).store().height,
            final(self).stroke_mask() == old(self).stroke_mask(),
            final(self).shown() == final(self).store().rendered(),
            image@ == final(self).shown(),
    {
        self.colors.fill(&pos, color);
        proof {
            old(self).colors.lemma_view_wf();
            old(self).colors@.lemma_registered(color);
        }
        self.update_render();
        self.cached_render.clone()
    }

    /// The committed store.
    pub fn colors(&self) -> (store: &ColorPresences)
        ensures
            store@ == self.store(),
            self.wf() ==> store.wf(),
    {
        &self.colors
    }

    /// The stroke in progress.
    pub fn current_stroke(&self) -> (stroke: &Raster)
        ensures
            stroke.0 == self.stroke_mask(),
    {
        &self.current_stroke
    }

    /// The canvas's width.
    pub fn width(&self) -> (w: usize)
        ensures
            self.wf() ==> w == self.store().width,
    {
        self.dims[0]
    }

    /// The canvas's height.
    pub fn height(&self) -> (h: usize)
        ensures
            self.wf() ==> h == self.store().height,
    {
        self.dims[1]
    }

    /// The canvas's width and height.
    pub fn dims(&self) -> (d: [usize; 2])
        ensures
            self.wf() ==> d[0] == self.store().width && d[1] == self.store().height,
    {
        self.dims
    }
}

} // verus!
