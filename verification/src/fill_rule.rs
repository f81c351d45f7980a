//! What a flood fill does to one pixel, and to which pixels it does it.

use crate::blend::{blend_cell, capped, others_sum, sat_add, shrink, spare_for};
use vstd::prelude::*;

verus! {

/// The three ways in which a fill treats a pixel.
#[derive(Clone, Copy, Debug, PartialEq, Eq, Structural)]
pub enum FillKind {
    /// The seed held no colour: the target takes what every other colour leaves free.
    Empty,
    /// The seed held colour and the target is translucent: the target is blended in.
    Blend,
    /// The seed held colour and the target is opaque: the target takes the
    /// place of the weakest colour that the seed held.
    Replace,
}

/// A fill, as far as a single pixel is concerned: the layer that is painted,
/// the layers of the colours found at the seed, and the ratio
/// `num / den` of the target's alpha to the least alpha among those colours.
pub struct FillRule {
    pub kind: FillKind,
    pub target: usize,
    pub sources: Vec<usize>,
    pub num: u8,
    pub den: u8,
}

/// A `FillRule` over plain integers.
pub struct RuleView {
    pub kind: FillKind,
    pub target: int,
    pub sources: Seq<int>,
    pub num: u8,
    pub den: u8,
}

impl View for FillRule {
    type V = RuleView;

    open spec fn view(&self) -> RuleView {
        RuleView {
            kind: self.kind,
            target: self.target as int,
            sources: Seq::new(self.sources@.len(), |i: int| self.sources@[i] as int),
            num: self.num,
            den: self.den,
        }
    }
}

/// Where, among the first `k` of `sources`, the least presence of the pixel
/// stands. Of equal presences the earliest source counts.
pub open spec fn least_at(cell: Seq<u8>, sources: Seq<int>, k: int) -> int
    decreases k,
{
    if k <= 1 {
        0
    } else {
        let j = least_at(cell, sources, k - 1);
        if cell[sources[k - 1]] < cell[sources[j]] {
            k - 1
        } else {
            j
        }
    }
}

/// The presence `m` scaled by `num / den`, rounded down and held at 255.
/// A zero `den` stands for an unbounded ratio, and for none at all when
/// `num` is zero too.
pub open spec fn ratio_of(m: u8, num: u8, den: u8) -> u8 {
    if den == 0 {
        if num == 0 {
            0
        } else {
            255
        }
    } else {
        capped(m as int * num as int / den as int)
    }
}

/// The smaller of two presences.
pub open spec fn min_u8(a: u8, b: u8) -> u8 {
    if a <= b {
        a
    } else {
        b
    }
}

impl RuleView {
    /// The rule names layers that exist, and has a source unless it fills empty space.
    pub open spec fn wf(self, layers: int) -> bool {
        &&& 0 <= self.target < layers
        &&& forall|i: int| 0 <= i < self.sources.len() ==> 0 <= #[trigger] self.sources[i] < layers
        &&& (self.kind != FillKind::Empty ==> self.sources.len() > 0)
    }

    /// The layer of the source that is weakest at this pixel.
    pub open spec fn weakest(self, cell: Seq<u8>) -> int {
        self.sources[least_at(cell, self.sources, self.sources.len() as int)]
    }

    /// How much of the target a pixel receives.
    pub open spec fn amount(self, cell: Seq<u8>) -> u8 {
        ratio_of(cell[self.weakest(cell)], self.num, self.den)
    }

    /// Whether the fill takes this pixel.
    ///
    /// Into empty space: while the other colours leave something free and
    /// the target does not hold exactly that already. Into occupied space:
    /// while every source colour is present.
    pub open spec fn fillable(self, cell: Seq<u8>) -> bool {
        match self.kind {
            FillKind::Empty => spare_for(cell, self.target) > 0 && cell[self.target] != spare_for(
                cell,
                self.target,
            ),
            _ => cell[self.weakest(cell)] != 0,
        }
    }

    /// The pixel after the fill took it.
    pub open spec fn filled(self, cell: Seq<u8>) -> Seq<u8> {
        match self.kind {
            FillKind::Empty => cell.update(self.target, spare_for(cell, self.target)),
            FillKind::Blend => blend_cell(cell, self.target, self.amount(cell)),
            FillKind::Replace => {
                let freed = cell.update(self.weakest(cell), 0u8);
                freed.update(
                    self.target,
                    sat_add(
                        freed[self.target],
                        min_u8(spare_for(freed, self.target), self.amount(cell)),
                    ),
                )
            },
        }
    }
}

/// The sum of other presences does not depend on the presence that is left out.
pub proof fn lemma_others_sum_update(cell: Seq<u8>, skip: int, v: u8, n: int)
    requires
        0 <= n <= cell.len(),
        0 <= skip < cell.len(),
    ensures
        others_sum(cell.update(skip, v), skip, n) == others_sum(cell, skip, n),
    decreases n,
{
    if n > 0 {
        lemma_others_sum_update(cell, skip, v, n - 1);
    }
}

/// The least presence stands at one of the sources looked at.
pub proof fn lemma_least_at(cell: Seq<u8>, sources: Seq<int>, k: int)
    requires
        1 <= k,
    ensures
        0 <= least_at(cell, sources, k) < k,
    decreases k,
{
    if k > 1 {
        lemma_least_at(cell, sources, k - 1);
    }
}

/// A fill keeps the number of presences of a pixel.
pub proof fn lemma_filled_len(rule: RuleView, cell: Seq<u8>)
    requires
        rule.wf(cell.len() as int),
    ensures
        rule.filled(cell).len() == cell.len(),
{
    if rule.kind != FillKind::Empty {
        lemma_least_at(cell, rule.sources, rule.sources.len() as int);
    }
}

/// A pixel that a fill into empty space has taken is not taken again.
pub proof fn lemma_empty_fill_once(rule: RuleView, cell: Seq<u8>)
    requires
        rule.kind == FillKind::Empty,
        0 <= rule.target < cell.len(),
    ensures
        !rule.fillable(rule.filled(cell)),
{
    let spare = spare_for(cell, rule.target);
    lemma_others_sum_update(cell, rule.target, spare, cell.len() as int);
}

/// `ratio_of` computed.
pub fn ratio(m: u8, num: u8, den: u8) -> (r: u8)
    ensures
        r == ratio_of(m, num, den),
{
    if den == 0 {
        if num == 0 {
            0
        } else {
            255
        }
    } else {
        assert(0 <= m as int * num as int <= 255 * 255) by (nonlinear_arith)
            requires
                0 <= m as int <= 255,
                0 <= num as int <= 255,
        ;
        let wide: u32 = m as u32 * num as u32 / den as u32;
        if wide > 255 {
            255
        } else {
            wide as u8
        }
    }
}

/// `spare_for` computed.
pub fn spare(cell: &Vec<u8>, target: usize) -> (free: u8)
    ensures
        free == spare_for(cell@, target as int),
{
    let mut taken: u8 = 0;
    let mut i: usize = 0;
    while i < cell.len()
        invariant
            i <= cell@.len(),
            others_sum(cell@, target as int, i as int) >= 0,
            taken == capped(others_sum(cell@, target as int, i as int)),
        decreases cell@.len() - i,
    {
        if i != target {
            taken = taken.saturating_add(cell[i]);
        }
        i += 1;
    }
    255 - taken
}

impl FillRule {
    /// The position in `sources` of the source that is weakest at this pixel.
    fn weakest_source(&self, cell: &Vec<u8>) -> (at: usize)
        requires
            self@.wf(cell@.len() as int),
            self.sources@.len() > 0,
        ensures
            at == least_at(cell@, self@.sources, self.sources@.len() as int),
            at < self.sources@.len(),
            self.sources@[at as int] == self@.weakest(cell@),
    {
        let mut at: usize = 0;
        let mut k: usize = 1;
        while k < self.sources.len()
            invariant
                1 <= k <= self.sources@.len(),
                at < k,
                self@.wf(cell@.len() as int),
                at == least_at(cell@, self@.sources, k as int),
            decreases self.sources@.len() - k,
        {
            proof {
                assert(self@.sources[k as int] == self.sources@[k as int]);
                assert(self@.sources[at as int] == self.sources@[at as int]);
            }
            if cell[self.sources[k]] < cell[self.sources[at]] {
                at = k;
            }
            k += 1;
        }
        proof {
            assert(self@.sources[at as int] == self.sources@[at as int]);
        }
        at
    }

    /// The pixel after the fill took it, or `None` when the fill leaves it alone.
    pub fn fill_cell(&self, cell: &Vec<u8>) -> (next: Option<Vec<u8>>)
        requires
            self@.wf(cell@.len() as int),
        ensures
            next.is_some() == self@.fillable(cell@),
            next matches Some(out) ==> out@ == self@.filled(cell@),
    {
        match self.kind {
            FillKind::Empty => {
                let free = spare(cell, self.target);
                if free == 0 || cell[self.target] == free {
                    return None;
                }
                let mut out = cell.clone();
                out[self.target] = free;
                Some(out)
            },
            FillKind::Blend => {
                let at = self.weakest_source(cell);
                let least = cell[self.sources[at]];
                if least == 0 {
                    return None;
                }
                let amount = ratio(least, self.num, self.den);
                let left = 255 - amount;
                let mut out: Vec<u8> = Vec::new();
                let mut i: usize = 0;
                while i < cell.len()
                    invariant
                        i <= cell@.len(),
                        left == 255 - amount,
                        out@.len() == i,
                        forall|j: int|
                            0 <= j < i ==> #[trigger] out@[j] == blend_cell(
                                cell@,
                                self.target as int,
                                amount,
                            )[j],
                    decreases cell@.len() - i,
                {
                    let held = cell[i];
                    if i == self.target {
                        out.push(held.saturating_add(amount));
                    } else {
                        out.push(shrink(held, left));
                    }
                    i += 1;
                }
                proof {
                    assert(out@ =~= blend_cell(cell@, self.target as int, amount));
                }
                Some(out)
            },
            FillKind::Replace => {
                let at = self.weakest_source(cell);
                let weakest = self.sources[at];
                let least = cell[weakest];
                if least == 0 {
                    return None;
                }
                let amount = ratio(least, self.num, self.den);
                let mut out = cell.clone();
                out[weakest] = 0;
                let free = spare(&out, self.target);
                let gain = if free <= amount {
                    free
                } else {
                    amount
                };
                let held = out[self.target];
                out[self.target] = held.saturating_add(gain);
                Some(out)
            },
        }
    }
}

} // verus!
