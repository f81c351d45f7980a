//! The arithmetic of one pixel: how a column of presences, one per colour,
//! changes when colour is blended in, and what it renders to.

use crate::color::Rgba;
use vstd::prelude::*;

verus! {

/// A mask opacity weighted by a colour's own alpha: `v * alpha / 255`, rounded down.
pub open spec fn scaled(v: u8, alpha: u8) -> u8 {
    (v as int * alpha as int / 255) as u8
}

/// What is left of a presence `p` when only `spare` of 255 parts stay free:
/// `p * spare / 255`, rounded down.
pub open spec fn shrunk(p: u8, spare: u8) -> u8 {
    (p as int * spare as int / 255) as u8
}

/// The sum of two presences, held at 255.
pub open spec fn sat_add(a: u8, b: u8) -> u8 {
    if a + b > 255 {
        255
    } else {
        (a + b) as u8
    }
}

/// An integer held at 255.
pub open spec fn capped(total: int) -> u8 {
    if total > 255 {
        255
    } else if total < 0 {
        0
    } else {
        total as u8
    }
}

/// The pixel after `amount` of the colour at `target` is blended in: every
/// other colour keeps the share `255 - amount` of what it had, and the target
/// gains `amount`.
pub open spec fn blend_cell(cell: Seq<u8>, target: int, amount: u8) -> Seq<u8> {
    Seq::new(
        cell.len(),
        |i: int|
            if i == target {
                sat_add(cell[i], amount)
            } else {
                shrunk(cell[i], (255 - amount) as u8)
            },
    )
}

/// The sum of the first `n` presences of a pixel, leaving out the one at `skip`.
pub open spec fn others_sum(cell: Seq<u8>, skip: int, n: int) -> int
    decreases n,
{
    if n <= 0 {
        0
    } else {
        others_sum(cell, skip, n - 1) + (if n - 1 == skip {
            0int
        } else {
            cell[n - 1] as int
        })
    }
}

/// What a pixel has free for the colour at `target`: 255 less what all other
/// colours hold there, and never below zero.
pub open spec fn spare_for(cell: Seq<u8>, target: int) -> u8 {
    (255 - capped(others_sum(cell, target, cell.len() as int))) as u8
}

/// The weighted sum `channel[i] * cell[i] / 255` over the first `n` colours,
/// each term rounded down.
pub open spec fn tint_sum(channel: Seq<u8>, cell: Seq<u8>, n: int) -> int
    decreases n,
{
    if n <= 0 {
        0
    } else {
        tint_sum(channel, cell, n - 1) + channel[n - 1] as int * cell[n - 1] as int / 255
    }
}

/// The sum of the first `n` presences of a pixel.
pub open spec fn presence_sum(cell: Seq<u8>, n: int) -> int
    decreases n,
{
    if n <= 0 {
        0
    } else {
        presence_sum(cell, n - 1) + cell[n - 1] as int
    }
}

/// The red channel of every colour, in registry order.
pub open spec fn reds(colors: Seq<Rgba>) -> Seq<u8> {
    Seq::new(colors.len(), |i: int| colors[i].r)
}

/// The green channel of every colour, in registry order.
pub open spec fn greens(colors: Seq<Rgba>) -> Seq<u8> {
    Seq::new(colors.len(), |i: int| colors[i].g)
}

/// The blue channel of every colour, in registry order.
pub open spec fn blues(colors: Seq<Rgba>) -> Seq<u8> {
    Seq::new(colors.len(), |i: int| colors[i].b)
}

/// The colour that a pixel renders to: each of red, green and blue is the
/// presence-weighted sum of that channel over all colours, alpha is the sum of
/// the presences, and all four are held at 255. The alpha is not multiplied
/// into the other channels.
pub open spec fn rendered_pixel(colors: Seq<Rgba>, cell: Seq<u8>) -> Rgba {
    let n = colors.len() as int;
    Rgba {
        r: capped(tint_sum(reds(colors), cell, n)),
        g: capped(tint_sum(greens(colors), cell, n)),
        b: capped(tint_sum(blues(colors), cell, n)),
        a: capped(presence_sum(cell, n)),
    }
}

/// `scaled` computed.
pub fn scale(v: u8, alpha: u8) -> (r: u8)
    ensures
        r == scaled(v, alpha),
{
    assert(v as int * alpha as int <= 255 * 255) by (nonlinear_arith)
        requires
            0 <= v as int <= 255,
            0 <= alpha as int <= 255,
    ;
    assert(v as int * alpha as int >= 0) by (nonlinear_arith)
        requires
            0 <= v as int,
            0 <= alpha as int,
    ;
    let wide: u32 = v as u32 * alpha as u32 / 255;
    wide as u8
}

/// `shrunk` computed.
pub fn shrink(p: u8, spare: u8) -> (r: u8)
    ensures
        r == shrunk(p, spare),
        r <= p,
{
    assert(p as int * spare as int <= p as int * 255) by (nonlinear_arith)
        requires
            0 <= p as int,
            0 <= spare as int <= 255,
    ;
    assert(p as int * spare as int >= 0) by (nonlinear_arith)
        requires
            0 <= p as int,
            0 <= spare as int,
    ;
    let wide: u32 = p as u32 * spare as u32 / 255;
    wide as u8
}

/// One term of a weighted sum is `scaled`, and lies between 0 and 255.
pub proof fn lemma_tint_bounds(channel: u8, p: u8)
    ensures
        channel as int * p as int / 255 == scaled(channel, p),
        0 <= channel as int * p as int / 255 <= 255,
        p == 0 ==> channel as int * p as int / 255 == 0,
{
    assert(p == 0 ==> channel as int * p as int == 0) by (nonlinear_arith);
    assert(0 <= channel as int * p as int <= 255 * 255) by (nonlinear_arith)
        requires
            0 <= channel as int <= 255,
            0 <= p as int <= 255,
    ;
}

/// Blending in nothing changes nothing.
pub proof fn lemma_blend_zero(cell: Seq<u8>, target: int)
    ensures
        blend_cell(cell, target, 0) == cell,
{
    assert forall|i: int| 0 <= i < cell.len() implies #[trigger] blend_cell(cell, target, 0)[i]
        == cell[i] by {
        let p = cell[i];
        assert(p as int * 255 / 255 == p as int);
    }
    assert(blend_cell(cell, target, 0) =~= cell);
}

/// Blending in everything leaves the target at 255 and every other colour at 0.
pub proof fn lemma_blend_full(cell: Seq<u8>, target: int)
    ensures
        forall|i: int|
            0 <= i < cell.len() ==> #[trigger] blend_cell(cell, target, 255)[i] == (if i == target {
                255u8
            } else {
                0u8
            }),
{
    assert forall|i: int| 0 <= i < cell.len() implies #[trigger] blend_cell(cell, target, 255)[i]
        == (if i == target {
        255u8
    } else {
        0u8
    }) by {
        let p = cell[i];
        assert(p as int * 0 == 0);
    }
}

} // verus!
