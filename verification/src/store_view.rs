//! The presence store as a mathematical value, and what each operation makes
//! of it.

use crate::blend::{blend_cell, rendered_pixel, scaled};
use crate::color::Rgba;
use crate::fill_rule::{min_u8, FillKind, RuleView};
use crate::point::Point;
use crate::raster::mask_at;
use crate::region::connected;
use grid::Grid;
use vstd::prelude::*;

verus! {

/// The layers that are present in a pixel, in registry order, looking at
/// the first `n` layers only.
pub open spec fn present_upto(cell: Seq<u8>, n: int) -> Seq<int>
    decreases n,
{
    if n <= 0 {
        Seq::empty()
    } else if cell[n - 1] != 0 {
        present_upto(cell, n - 1).push(n - 1)
    } else {
        present_upto(cell, n - 1)
    }
}

/// The layers that are present in a pixel, in registry order.
pub open spec fn present_layers(cell: Seq<u8>) -> Seq<int> {
    present_upto(cell, cell.len() as int)
}

/// The least alpha among the colours of the first `k` of `sources`; 255 when `k` is zero.
pub open spec fn least_alpha(colors: Seq<Rgba>, sources: Seq<int>, k: int) -> u8
    decreases k,
{
    if k <= 0 {
        255
    } else {
        min_u8(least_alpha(colors, sources, k - 1), colors[sources[k - 1]].a)
    }
}

/// Present layers are layers, in rising order.
pub proof fn lemma_present_upto(cell: Seq<u8>, n: int)
    requires
        0 <= n <= cell.len(),
    ensures
        present_upto(cell, n).len() <= n,
        forall|k: int|
            0 <= k < present_upto(cell, n).len() ==> 0 <= #[trigger] present_upto(cell, n)[k] < n
                && cell[present_upto(cell, n)[k]] != 0,
        forall|i: int| 0 <= i < n && cell[i] != 0 ==> present_upto(cell, n).contains(i),
    decreases n,
{
    if n > 0 {
        lemma_present_upto(cell, n - 1);
        let rest = present_upto(cell, n - 1);
        let all = present_upto(cell, n);
        assert forall|i: int| 0 <= i < n && cell[i] != 0 implies all.contains(i) by {
            if i < n - 1 {
                let k = choose|k: int| 0 <= k < rest.len() && rest[k] == i;
                assert(all[k] == i);
            } else {
                assert(all[rest.len() as int] == i);
            }
        }
    }
}

/// The colour of the `k`-th pixel of image data of four bytes per pixel.
pub open spec fn image_pixel(data: Seq<u8>, k: int) -> Rgba {
    Rgba { r: data[4 * k], g: data[4 * k + 1], b: data[4 * k + 2], a: data[4 * k + 3] }
}

/// The pixel `(x, y)` of an image of `width` pixels a row, four bytes a pixel.
pub open spec fn pixel_of(image: Seq<u8>, width: nat, x: int, y: int) -> Rgba {
    let at = 4 * (x + y * width);
    Rgba { r: image[at], g: image[at + 1], b: image[at + 2], a: image[at + 3] }
}

/// Pixels are laid out without overlap: each has its own four bytes
/// inside the image.
pub proof fn lemma_pixel_layout(w: int, h: int, x: int, y: int, a: int, b: int)
    requires
        0 <= x < w,
        0 <= y < h,
        0 <= a < w,
        0 <= b < h,
    ensures
        0 <= x + y * w < w * h,
        (x != a || y != b) ==> x + y * w != a + b * w,
{
    assert(y * w + w <= h * w) by (nonlinear_arith)
        requires
            y + 1 <= h,
            w > 0,
    ;
    assert(h * w == w * h) by (nonlinear_arith);
    assert(y * w >= 0) by (nonlinear_arith)
        requires
            y >= 0,
            w > 0,
    ;
    if y < b {
        assert(y * w + w <= b * w) by (nonlinear_arith)
            requires
                y + 1 <= b,
                w > 0,
        ;
    } else if b < y {
        assert(b * w + w <= y * w) by (nonlinear_arith)
            requires
                b + 1 <= y,
                w > 0,
        ;
    }
}

/// The rendered image shows, at every pixel, what the pixel renders to.
pub proof fn lemma_rendered_pixel(store: StoreView, x: int, y: int)
    requires
        store.wf(),
        store.contains(x, y),
    ensures
        pixel_of(store.rendered(), store.width, x, y) == rendered_pixel(
            store.colors,
            store.cell(x, y),
        ),
{
    let w = store.width as int;
    let h = store.height as int;
    let p = x + y * w;
    lemma_pixel_layout(w, h, x, y, x, y);
    assert(4 * store.width * store.height == 4 * (w * h)) by (nonlinear_arith)
        requires
            w == store.width,
            h == store.height,
    ;
    vstd::arithmetic::div_mod::lemma_fundamental_div_mod_converse(p, w, y, x);
    vstd::arithmetic::div_mod::lemma_fundamental_div_mod_converse(4 * p, 4, p, 0);
    vstd::arithmetic::div_mod::lemma_fundamental_div_mod_converse(4 * p + 1, 4, p, 1);
    vstd::arithmetic::div_mod::lemma_fundamental_div_mod_converse(4 * p + 2, 4, p, 2);
    vstd::arithmetic::div_mod::lemma_fundamental_div_mod_converse(4 * p + 3, 4, p, 3);
    assert(store.rendered()[4 * p] == store.rendered_byte(4 * p));
    assert(store.rendered()[4 * p + 1] == store.rendered_byte(4 * p + 1));
    assert(store.rendered()[4 * p + 2] == store.rendered_byte(4 * p + 2));
    assert(store.rendered()[4 * p + 3] == store.rendered_byte(4 * p + 3));
}

/// Where a single colour is registered and holds every pixel in full,
/// the rendered image shows that colour's red, green and blue with alpha
/// 255 at every pixel.
pub proof fn lemma_single_colour_image(store: StoreView, x: int, y: int)
    requires
        store.wf(),
        store.colors.len() == 1,
        store.contains(x, y),
        store.cell(x, y)[0] == 255,
    ensures
        pixel_of(store.rendered(), store.width, x, y) == (Rgba { a: 255, ..store.colors[0] }),
{
    lemma_rendered_pixel(store, x, y);
    store.lemma_single_colour_render(x, y);
}

/// Where the `k`-th pixel of an image lands when the image's first pixel
/// is at `(left, top)` and its rows are `width` pixels long.
pub open spec fn landing(left: int, top: int, width: int, k: int) -> (int, int) {
    let row = if width <= 1 {
        1
    } else {
        width
    };
    (left + k % row, top + k / row)
}

/// Whether one of the first `n` pixels of the image has the colour `c` and
/// lands on `(x, y)`.
pub open spec fn image_covers(
    left: int,
    top: int,
    data: Seq<u8>,
    width: int,
    n: int,
    c: Rgba,
    x: int,
    y: int,
) -> bool {
    exists|k: int|
        0 <= k < n && #[trigger] landing(left, top, width, k) == (x, y) && image_pixel(data, k) == c
}

/// A canvas of `width` by `height` pixels, the colours registered so far in
/// the order of their registration, and for every pixel one presence per
/// colour: `cells[x][y][i]` is how much of `colors[i]` occupies `(x, y)`.
pub struct StoreView {
    pub width: nat,
    pub height: nat,
    pub colors: Seq<Rgba>,
    pub cells: Seq<Seq<Seq<u8>>>,
}

impl StoreView {
    /// Whether `(x, y)` is a pixel of the canvas.
    pub open spec fn contains(self, x: int, y: int) -> bool {
        0 <= x < self.width && 0 <= y < self.height
    }

    /// The presences at `(x, y)`, one per colour.
    pub open spec fn cell(self, x: int, y: int) -> Seq<u8> {
        self.cells[x][y]
    }

    /// The canvas is not empty, no colour is registered twice, and every
    /// pixel has one presence per colour.
    pub open spec fn wf(self) -> bool {
        &&& self.width > 0
        &&& self.height > 0
        &&& self.colors.no_duplicates()
        &&& self.shaped()
        &&& forall|x: int, y: int|
            self.contains(x, y) ==> (#[trigger] self.cell(x, y)).len() == self.colors.len()
    }

    /// The cells form a rectangle of `width` by `height`.
    pub open spec fn shaped(self) -> bool {
        &&& self.cells.len() == self.width
        &&& forall|x: int| 0 <= x < self.width ==> (#[trigger] self.cells[x]).len() == self.height
    }

    /// A canvas of the given size on which nothing was painted yet.
    pub open spec fn blank(width: nat, height: nat) -> StoreView {
        StoreView {
            width,
            height,
            colors: Seq::empty(),
            cells: Seq::new(width, |x: int| Seq::new(height, |y: int| Seq::<u8>::empty())),
        }
    }

    /// The same canvas with the pixel at `(x, y)` replaced by `f(x, y)`, for every pixel.
    pub open spec fn with_cells(self, f: spec_fn(int, int) -> Seq<u8>) -> StoreView {
        StoreView {
            cells: Seq::new(self.width, |x: int| Seq::new(self.height, |y: int| f(x, y))),
            ..self
        }
    }

    /// The index of `color` in the registry. Meaningful when it is registered.
    pub open spec fn layer_of(self, color: Rgba) -> int {
        self.colors.index_of(color)
    }

    /// The store once `color` is registered: unchanged when it already was,
    /// else with `color` as the last colour and a zero presence for it at every pixel.
    pub open spec fn registered(self, color: Rgba) -> StoreView {
        if self.colors.contains(color) {
            self
        } else {
            StoreView {
                colors: self.colors.push(color),
                ..self.with_cells(|x: int, y: int| self.cell(x, y).push(0u8))
            }
        }
    }

    /// The store after `amount` of the colour at `layer` is blended into the
    /// single pixel `(px, py)`.
    pub open spec fn blended_at(self, px: int, py: int, layer: int, amount: u8) -> StoreView {
        self.with_cells(
            |x: int, y: int|
                if x == px && y == py {
                    blend_cell(self.cell(x, y), layer, amount)
                } else {
                    self.cell(x, y)
                },
        )
    }

    /// The store after `mask`, laid with its origin at `pos`, is blended in
    /// with `color`. The colour is registered first. At every pixel the mask's
    /// opacity there, weighted by the colour's alpha, is blended in; where the
    /// mask does not reach, that is nothing.
    pub open spec fn applied(self, mask: Grid<u8>, pos: Point, color: Rgba) -> StoreView {
        let base = self.registered(color);
        let layer = base.layer_of(color);
        base.with_cells(
            |x: int, y: int|
                blend_cell(
                    base.cell(x, y),
                    layer,
                    scaled(mask_at(mask, x - pos.x, y - pos.y), color.a),
                ),
        )
    }

    /// The pixels that a fill by `rule` would take.
    pub open spec fn fillable_set(self, rule: RuleView) -> Set<(int, int)> {
        Set::new(|p: (int, int)| self.contains(p.0, p.1) && rule.fillable(self.cell(p.0, p.1)))
    }

    /// The store after a flood fill by `rule` from the seed `(sx, sy)`: the
    /// rule is applied once to every pixel that a path of edge-sharing
    /// fillable pixels links to the seed, and to no other. A seed that is
    /// not fillable leaves the store as it is.
    pub open spec fn flooded(self, rule: RuleView, sx: int, sy: int) -> StoreView {
        self.with_cells(
            |x: int, y: int|
                if connected(self.fillable_set(rule), (sx, sy), (x, y)) {
                    rule.filled(self.cell(x, y))
                } else {
                    self.cell(x, y)
                },
        )
    }

    /// The store after the pixel `(px, py)` is given over to `color`: the
    /// colour is registered and its presence there set to 255. Other colours
    /// keep what they hold there.
    pub open spec fn pinned(self, px: int, py: int, color: Rgba) -> StoreView {
        let base = self.registered(color);
        base.with_cells(
            |x: int, y: int|
                if x == px && y == py {
                    base.cell(x, y).update(base.layer_of(color), 255u8)
                } else {
                    base.cell(x, y)
                },
        )
    }

    /// The store after the first `n` pixels of an image are written to it.
    /// The image is `data`, four bytes per pixel in the order red, green,
    /// blue, alpha, in rows of `width` pixels (of one pixel when `width` is
    /// zero), with its first pixel at `(left, top)`. Each pixel that falls on
    /// the canvas is pinned to its colour, in the order of the data.
    pub open spec fn with_image(
        self,
        left: int,
        top: int,
        data: Seq<u8>,
        width: int,
        n: int,
    ) -> StoreView
        decreases n,
    {
        if n <= 0 {
            self
        } else {
            let prev = self.with_image(left, top, data, width, n - 1);
            let spot = landing(left, top, width, n - 1);
            if prev.contains(spot.0, spot.1) {
                prev.pinned(spot.0, spot.1, image_pixel(data, n - 1))
            } else {
                prev
            }
        }
    }

    /// The rule by which a fill with `color` seeded at `(sx, sy)` proceeds.
    /// The colours present at the seed are its sources, and the ratio is
    /// `color`'s alpha over the least alpha among them. With no source, it
    /// fills empty space. Else it blends when `color` is translucent or the
    /// ratio is below one, and replaces otherwise.
    pub open spec fn rule_for(self, color: Rgba, sx: int, sy: int) -> RuleView {
        let sources = present_layers(self.cell(sx, sy));
        let least = least_alpha(self.colors, sources, sources.len() as int);
        RuleView {
            kind: if sources.len() == 0 {
                FillKind::Empty
            } else if color.a < 255 || color.a < least {
                FillKind::Blend
            } else {
                FillKind::Replace
            },
            target: self.layer_of(color),
            sources,
            num: color.a,
            den: least,
        }
    }

    /// The store after a fill with `color` seeded at `seed`: the colour is
    /// registered, and when the seed lies on the canvas, the store is
    /// flooded from it by the rule that the seed calls for.
    pub open spec fn filled(self, seed: Point, color: Rgba) -> StoreView {
        let base = self.registered(color);
        if base.contains(seed.x as int, seed.y as int) {
            base.flooded(
                base.rule_for(color, seed.x as int, seed.y as int),
                seed.x as int,
                seed.y as int,
            )
        } else {
            base
        }
    }

    /// The byte at index `k` of the rendered image: pixels row by row, four
    /// bytes each, in the order red, green, blue, alpha.
    pub open spec fn rendered_byte(self, k: int) -> u8 {
        let pixel = k / 4;
        let x = pixel % (self.width as int);
        let y = pixel / (self.width as int);
        let c = rendered_pixel(self.colors, self.cell(x, y));
        if k % 4 == 0 {
            c.r
        } else if k % 4 == 1 {
            c.g
        } else if k % 4 == 2 {
            c.b
        } else {
            c.a
        }
    }

    /// The rendered image: `4 * width * height` bytes.
    pub open spec fn rendered(self) -> Seq<u8> {
        Seq::new(4 * self.width * self.height, |k: int| self.rendered_byte(k))
    }

    /// Two rectangular stores of the same size with the same colours and the
    /// same presences at every pixel are the same store.
    pub proof fn lemma_ext(self, other: StoreView)
        requires
            self.shaped(),
            other.shaped(),
            self.width == other.width,
            self.height == other.height,
            self.colors == other.colors,
            forall|x: int, y: int|
                self.contains(x, y) ==> #[trigger] self.cell(x, y) == other.cell(x, y),
        ensures
            self == other,
    {
        assert forall|x: int| 0 <= x < self.width implies #[trigger] self.cells[x]
            == other.cells[x] by {
            assert forall|y: int| 0 <= y < self.height implies #[trigger] self.cells[x][y]
                == other.cells[x][y] by {
                assert(self.contains(x, y));
                assert(self.cell(x, y) == other.cell(x, y));
            }
            assert(self.cells[x] =~= other.cells[x]);
        }
        assert(self.cells =~= other.cells);
    }

    /// Registering a colour keeps a store well formed, and the colour then has a layer.
    pub proof fn lemma_registered(self, color: Rgba)
        requires
            self.wf(),
        ensures
            self.registered(color).wf(),
            self.registered(color).width == self.width,
            self.registered(color).height == self.height,
            0 <= self.registered(color).layer_of(color) < self.registered(color).colors.len(),
            self.registered(color).colors[self.registered(color).layer_of(color)] == color,
            self.registered(color).registered(color) == self.registered(color),
    {
        let next = self.registered(color);
        if self.colors.contains(color) {
        } else {
            assert(next.colors.last() == color);
            assert(next.colors.contains(color)) by {
                assert(next.colors[self.colors.len() as int] == color);
            }
            assert forall|x: int, y: int| next.contains(x, y) implies (#[trigger] next.cell(
                x,
                y,
            )).len() == next.colors.len() by {
                assert(self.contains(x, y));
                assert(self.cell(x, y).len() == self.colors.len());
            }
            assert(next.colors.no_duplicates()) by {
                assert forall|i: int, j: int|
                    0 <= i < next.colors.len() && 0 <= j < next.colors.len() && i != j implies next.colors[i]
                    != next.colors[j] by {
                    if i < self.colors.len() && j < self.colors.len() {
                    } else if i < self.colors.len() {
                        assert(self.colors[i] != color);
                    } else {
                        assert(self.colors[j] != color);
                    }
                }
            }
        }
    }

    /// In a store without duplicate colours, a colour's layer is the one index that holds it.
    pub proof fn lemma_layer_of(self, color: Rgba, i: int)
        requires
            self.colors.no_duplicates(),
            0 <= i < self.colors.len(),
            self.colors[i] == color,
        ensures
            self.layer_of(color) == i,
            self.colors.contains(color),
    {
    }

    /// None of the operations changes the size of the canvas.
    pub proof fn lemma_same_size(
        self,
        mask: Grid<u8>,
        pos: Point,
        color: Rgba,
        rule: RuleView,
        layer: int,
        amount: u8,
    )
        ensures
            self.registered(color).width == self.width,
            self.registered(color).height == self.height,
            self.applied(mask, pos, color).width == self.width,
            self.applied(mask, pos, color).height == self.height,
            self.blended_at(pos.x as int, pos.y as int, layer, amount).width == self.width,
            self.blended_at(pos.x as int, pos.y as int, layer, amount).height == self.height,
            self.flooded(rule, pos.x as int, pos.y as int).width == self.width,
            self.flooded(rule, pos.x as int, pos.y as int).height == self.height,
            self.filled(pos, color).width == self.width,
            self.filled(pos, color).height == self.height,
    {
    }

    /// Blending a fully opaque mask cell in with a fully opaque colour
    /// leaves the colour at 255 at that pixel and every other colour at 0.
    pub proof fn lemma_opaque_overwrite(
        self,
        mask: Grid<u8>,
        pos: Point,
        color: Rgba,
        x: int,
        y: int,
        i: int,
    )
        requires
            self.wf(),
            self.contains(x, y),
            color.a == 255,
            mask_at(mask, x - pos.x, y - pos.y) == 255,
            0 <= i < self.applied(mask, pos, color).colors.len(),
        ensures
            self.applied(mask, pos, color).cell(x, y)[i] == (if self.applied(
                mask,
                pos,
                color,
            ).colors[i] == color {
                255u8
            } else {
                0u8
            }),
    {
        let base = self.registered(color);
        let layer = base.layer_of(color);
        self.lemma_registered(color);
        assert(base.contains(x, y));
        assert(base.cell(x, y).len() == base.colors.len());
        assert(scaled(255, 255) == 255);
        crate::blend::lemma_blend_full(base.cell(x, y), layer);
        if base.colors[i] == color {
            base.lemma_layer_of(color, i);
        }
    }

    /// A fill into empty space, run a second time from the same seed with
    /// the same target, changes nothing.
    pub proof fn lemma_empty_fill_twice(self, rule: RuleView, sx: int, sy: int)
        requires
            self.wf(),
            self.contains(sx, sy),
            rule.kind == FillKind::Empty,
            rule.wf(self.colors.len() as int),
        ensures
            self.flooded(rule, sx, sy).flooded(rule, sx, sy) == self.flooded(rule, sx, sy),
    {
        let once = self.flooded(rule, sx, sy);
        let twice = once.flooded(rule, sx, sy);
        let seed = (sx, sy);
        assert(!once.fillable_set(rule).contains(seed)) by {
            if self.fillable_set(rule).contains(seed) {
                crate::region::lemma_connected_self(self.fillable_set(rule), seed);
                assert(self.cell(sx, sy).len() == self.colors.len());
                crate::fill_rule::lemma_empty_fill_once(rule, self.cell(sx, sy));
            } else {
                if connected(self.fillable_set(rule), seed, seed) {
                    crate::region::lemma_connected_ends(self.fillable_set(rule), seed, seed);
                }
            }
        }
        assert forall|x: int, y: int| once.contains(x, y) implies #[trigger] twice.cell(x, y)
            == once.cell(x, y) by {
            if connected(once.fillable_set(rule), seed, (x, y)) {
                crate::region::lemma_connected_ends(once.fillable_set(rule), seed, (x, y));
            }
        }
        twice.lemma_ext(once);
    }

    /// Where a single colour is registered and holds every pixel in full,
    /// every pixel renders to that colour's red, green and blue with alpha 255.
    pub proof fn lemma_single_colour_render(self, x: int, y: int)
        requires
            self.wf(),
            self.colors.len() == 1,
            self.contains(x, y),
            self.cell(x, y)[0] == 255,
        ensures
            rendered_pixel(self.colors, self.cell(x, y)) == (Rgba { a: 255, ..self.colors[0] }),
    {
        let cell = self.cell(x, y);
        let c = self.colors[0];
        assert(cell.len() == 1);
        assert(crate::blend::tint_sum(crate::blend::reds(self.colors), cell, 0) == 0);
        assert(crate::blend::tint_sum(crate::blend::greens(self.colors), cell, 0) == 0);
        assert(crate::blend::tint_sum(crate::blend::blues(self.colors), cell, 0) == 0);
        assert(crate::blend::presence_sum(cell, 0) == 0);
        assert(c.r as int * 255 / 255 == c.r);
        assert(c.g as int * 255 / 255 == c.g);
        assert(c.b as int * 255 / 255 == c.b);
    }

    /// What writing an image comes to, pixel by pixel. A colour that was
    /// registered keeps its layer. At a pixel of the canvas, a registered
    /// colour holds 255 where one of the image's pixels of that colour
    /// landed, and what it held before everywhere else.
    pub proof fn lemma_with_image_at(
        self,
        left: int,
        top: int,
        data: Seq<u8>,
        width: int,
        n: int,
        c: Rgba,
        x: int,
        y: int,
    )
        requires
            self.wf(),
            self.contains(x, y),
            self.colors.contains(c),
            0 <= n,
        ensures
            self.with_image(left, top, data, width, n).wf(),
            self.with_image(left, top, data, width, n).contains(x, y),
            self.with_image(left, top, data, width, n).colors.contains(c),
            self.with_image(left, top, data, width, n).layer_of(c) == self.layer_of(c),
            self.with_image(left, top, data, width, n).cell(x, y)[self.layer_of(c)] == (
            if image_covers(left, top, data, width, n, c, x, y) {
                255u8
            } else {
                self.cell(x, y)[self.layer_of(c)]
            }),
        decreases n,
    {
        let at = self.layer_of(c);
        if n > 0 {
            self.lemma_with_image_at(left, top, data, width, n - 1, c, x, y);
            let prev = self.with_image(left, top, data, width, n - 1);
            let after = self.with_image(left, top, data, width, n);
            let k = n - 1;
            let spot = landing(left, top, width, k);
            let ink = image_pixel(data, k);
            if image_covers(left, top, data, width, n - 1, c, x, y) {
                let j = choose|j: int|
                    0 <= j < n - 1 && #[trigger] landing(left, top, width, j) == (x, y)
                        && image_pixel(data, j) == c;
                assert(landing(left, top, width, j) == (x, y) && image_pixel(data, j) == c);
                assert(image_covers(left, top, data, width, n, c, x, y));
            }
            if image_covers(left, top, data, width, n, c, x, y) && !image_covers(
                left,
                top,
                data,
                width,
                n - 1,
                c,
                x,
                y,
            ) {
                let j = choose|j: int|
                    0 <= j < n && #[trigger] landing(left, top, width, j) == (x, y) && image_pixel(
                        data,
                        j,
                    ) == c;
                if j < n - 1 {
                    assert(landing(left, top, width, j) == (x, y));
                    assert(false);
                }
                assert(spot == (x, y) && ink == c);
            }
            if prev.contains(spot.0, spot.1) {
                prev.lemma_registered(ink);
                let base = prev.registered(ink);
                assert(base.contains(x, y));
                assert(base.cell(x, y).len() == base.colors.len());
                assert(base.colors[at] == c) by {
                    assert(prev.colors[at] == c);
                }
                base.lemma_layer_of(c, at);
                assert(after.colors == base.colors);
                assert forall|a: int, b: int| after.contains(a, b) implies (#[trigger] after.cell(
                    a,
                    b,
                )).len() == after.colors.len() by {
                    assert(base.contains(a, b));
                    assert(base.cell(a, b).len() == base.colors.len());
                }
                assert(base.cell(x, y)[at] == prev.cell(x, y)[at]);
                if spot == (x, y) {
                    if ink == c {
                        assert(landing(left, top, width, k) == (x, y));
                        assert(image_covers(left, top, data, width, n, c, x, y));
                    } else {
                        assert(base.layer_of(ink) != at) by {
                            if base.layer_of(ink) == at {
                                assert(base.colors[at] == ink);
                            }
                        }
                    }
                }
            }
        }
    }
}

/// Writing an image keeps the size of the canvas.
pub proof fn lemma_with_image_frame(
    store: StoreView,
    left: int,
    top: int,
    data: Seq<u8>,
    width: int,
    n: int,
)
    requires
        store.wf(),
    ensures
        store.with_image(left, top, data, width, n).wf(),
        store.with_image(left, top, data, width, n).width == store.width,
        store.with_image(left, top, data, width, n).height == store.height,
    decreases n,
{
    if n > 0 {
        lemma_with_image_frame(store, left, top, data, width, n - 1);
        let prev = store.with_image(left, top, data, width, n - 1);
        let k = n - 1;
        let row = if width <= 1 {
            1
        } else {
            width
        };
        let x = left + k % row;
        let y = top + k / row;
        if prev.contains(x, y) {
            let color = image_pixel(data, k);
            prev.lemma_registered(color);
            let base = prev.registered(color);
            let next = prev.pinned(x, y, color);
            assert forall|a: int, b: int| next.contains(a, b) implies (#[trigger] next.cell(
                a,
                b,
            )).len() == next.colors.len() by {
                assert(base.contains(a, b));
                assert(base.cell(a, b).len() == base.colors.len());
            }
        }
    }
}

} // verus!
