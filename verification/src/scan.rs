//! The invariant of the scanline traversal, stated over sets of pixels, and
//! the steps that keep it.
//!
//! `open` holds the pixels that could be filled when the fill began, `done`
//! those filled so far. A span waits on the stack for every stretch of a row
//! that lies next to filled pixels and was not looked at yet.

use vstd::prelude::*;

verus! {

/// A stretch `[left, right)` of row `y` that waits to be scanned. It was
/// found from the row `y - step`, where the same stretch is filled.
pub struct SpanView {
    pub left: int,
    pub right: int,
    pub y: int,
    pub step: int,
}

impl SpanView {
    /// The row that the span was found from.
    pub open spec fn origin(self) -> int {
        self.y - self.step
    }
}

/// A span that is being scanned: the columns from `span.left` up to `right`
/// are dealt with, and the first run found reaches left to `left`.
pub struct Scan {
    pub span: SpanView,
    pub left: int,
    pub right: int,
}

/// Every pixel of `open` lies on the canvas.
pub open spec fn within(open: Set<(int, int)>, w: int, h: int) -> bool {
    forall|x: int, y: int| #[trigger] open.contains((x, y)) ==> 0 <= x < w && 0 <= y < h
}

/// The pixel could be filled and was not filled yet.
pub open spec fn pending(open: Set<(int, int)>, done: Set<(int, int)>, x: int, y: int) -> bool {
    open.contains((x, y)) && !done.contains((x, y))
}

/// `after` is `before` with the stretch `[l, r)` of row `y` added.
pub open spec fn grown(
    before: Set<(int, int)>,
    after: Set<(int, int)>,
    l: int,
    r: int,
    y: int,
) -> bool {
    forall|p: (int, int)| #[trigger]
        after.contains(p) <==> before.contains(p) || (p.1 == y && l <= p.0 < r)
}

/// The span lies on the canvas, and so does its origin row, where its whole
/// stretch is filled.
pub open spec fn span_ok(done: Set<(int, int)>, w: int, h: int, s: SpanView) -> bool {
    &&& 0 <= s.left < s.right <= w
    &&& 0 <= s.y < h
    &&& (s.step == 1 || s.step == -1)
    &&& 0 <= s.origin() < h
    &&& forall|x: int| s.left <= x < s.right ==> #[trigger] done.contains((x, s.origin()))
}

/// Every waiting span is in order.
pub open spec fn stack_ok(done: Set<(int, int)>, w: int, h: int, stack: Seq<SpanView>) -> bool {
    forall|i: int| 0 <= i < stack.len() ==> span_ok(done, w, h, #[trigger] stack[i])
}

/// The span holds the pixel.
pub open spec fn covers(s: SpanView, x: int, y: int) -> bool {
    s.y == y && s.left <= x < s.right
}

/// Some waiting span holds the pixel.
pub open spec fn covered(stack: Seq<SpanView>, x: int, y: int) -> bool {
    exists|i: int| 0 <= i < stack.len() && covers(#[trigger] stack[i], x, y)
}

/// What the scan in progress still has to deal with: the span's own stretch,
/// and in the origin row what its first and last run overhang.
pub open spec fn owed(c: Scan, x: int, y: int) -> bool {
    ||| (y == c.span.y && c.span.left <= x < c.span.right)
    ||| (y == c.span.origin() && c.left <= x < c.span.left - 1)
    ||| (y == c.span.origin() && c.span.right < x < c.right - 1)
}

/// No pending pixel has a filled pixel to its left or right.
pub open spec fn h_closed(open: Set<(int, int)>, done: Set<(int, int)>) -> bool {
    forall|x: int, y: int| #[trigger]
        pending(open, done, x, y) ==> !done.contains((x - 1, y)) && !done.contains((x + 1, y))
}

/// Every pending pixel with a filled pixel above or below it waits in a span.
pub open spec fn v_closed(
    open: Set<(int, int)>,
    done: Set<(int, int)>,
    stack: Seq<SpanView>,
) -> bool {
    forall|x: int, y: int| #[trigger]
        pending(open, done, x, y) && (done.contains((x, y - 1)) || done.contains((x, y + 1)))
            ==> covered(stack, x, y)
}

/// The same, with the scan in progress answering for what it owes.
pub open spec fn v_closed_but(
    open: Set<(int, int)>,
    done: Set<(int, int)>,
    stack: Seq<SpanView>,
    c: Scan,
) -> bool {
    forall|x: int, y: int| #[trigger]
        pending(open, done, x, y) && (done.contains((x, y - 1)) || done.contains((x, y + 1)))
            ==> covered(stack, x, y) || owed(c, x, y)
}

/// What holds between two scans.
pub open spec fn idle_inv(
    open: Set<(int, int)>,
    done: Set<(int, int)>,
    w: int,
    h: int,
    stack: Seq<SpanView>,
) -> bool {
    &&& within(open, w, h)
    &&& stack_ok(done, w, h, stack)
    &&& h_closed(open, done)
    &&& v_closed(open, done, stack)
}

/// What holds while the span `c.span` is scanned.
pub open spec fn scan_inv(
    open: Set<(int, int)>,
    done: Set<(int, int)>,
    w: int,
    h: int,
    stack: Seq<SpanView>,
    c: Scan,
) -> bool {
    &&& within(open, w, h)
    &&& span_ok(done, w, h, c.span)
    &&& stack_ok(done, w, h, stack)
    &&& h_closed(open, done)
    &&& v_closed_but(open, done, stack, c)
    &&& 0 <= c.left <= c.span.left <= c.right <= w + 1
    &&& (c.right == c.span.left ==> c.left == c.span.left)
    &&& forall|x: int|
        c.span.left <= x < c.right && x < w ==> !#[trigger] pending(open, done, x, c.span.y)
    &&& forall|x: int| c.left <= x < c.span.left ==> #[trigger] done.contains((x, c.span.y))
    &&& forall|x: int| c.span.right <= x < c.right - 1 ==> #[trigger] done.contains((x, c.span.y))
}

/// The stack once the run `[l, r)` found in row `y` has been handed on in
/// the direction `step`: one span more, unless the next row is off the canvas.
pub open spec fn handed_on(
    stack: Seq<SpanView>,
    l: int,
    r: int,
    y: int,
    step: int,
    w: int,
    h: int,
) -> Seq<SpanView> {
    if l < r && l < w && 0 <= y + step < h {
        stack.push(SpanView { left: l, right: r, y: y + step, step })
    } else {
        stack
    }
}

/// Taking a span off the stack starts its scan.
pub proof fn lemma_begin_scan(
    open: Set<(int, int)>,
    done: Set<(int, int)>,
    w: int,
    h: int,
    stack: Seq<SpanView>,
    s: SpanView,
)
    requires
        idle_inv(open, done, w, h, stack.push(s)),
    ensures
        scan_inv(open, done, w, h, stack, Scan { span: s, left: s.left, right: s.left }),
{
    let full = stack.push(s);
    let c = Scan { span: s, left: s.left, right: s.left };
    assert(span_ok(done, w, h, full[stack.len() as int]));
    assert forall|i: int| 0 <= i < stack.len() implies span_ok(done, w, h, #[trigger] stack[i]) by {
        assert(full[i] == stack[i]);
    }
    assert forall|x: int, y: int| #[trigger]
        pending(open, done, x, y) && (done.contains((x, y - 1)) || done.contains(
            (x, y + 1),
        )) implies covered(stack, x, y) || owed(c, x, y) by {
        assert(covered(full, x, y));
        let i = choose|i: int| 0 <= i < full.len() && covers(#[trigger] full[i], x, y);
        if i < stack.len() {
            assert(covers(stack[i], x, y));
        }
    }
}

/// A seed that cannot be filled moves the scan one column on.
pub proof fn lemma_scan_miss(
    open: Set<(int, int)>,
    done: Set<(int, int)>,
    w: int,
    h: int,
    stack: Seq<SpanView>,
    c: Scan,
)
    requires
        scan_inv(open, done, w, h, stack, c),
        c.right < c.span.right,
        !pending(open, done, c.right, c.span.y),
    ensures
        scan_inv(open, done, w, h, stack, Scan { right: c.right + 1, ..c }),
{
    let next = Scan { right: c.right + 1, ..c };
    assert forall|x: int, y: int| #[trigger]
        pending(open, done, x, y) && (done.contains((x, y - 1)) || done.contains(
            (x, y + 1),
        )) implies covered(stack, x, y) || owed(next, x, y) by {
        if owed(c, x, y) {
            assert(owed(next, x, y));
        }
    }
}

/// A run that was filled from the scan's seed moves the scan past the run
/// and hands the run on to the next row.
pub proof fn lemma_scan_run(
    open: Set<(int, int)>,
    done: Set<(int, int)>,
    after: Set<(int, int)>,
    w: int,
    h: int,
    stack: Seq<SpanView>,
    c: Scan,
    l: int,
    r: int,
)
    requires
        scan_inv(open, done, w, h, stack, c),
        c.right < c.span.right,
        0 <= l <= c.right < r <= w,
        c.right == c.span.left || l >= c.span.left,
        forall|x: int| l <= x < r ==> #[trigger] pending(open, done, x, c.span.y),
        grown(done, after, l, r, c.span.y),
        l == (if c.right == c.span.left { 0 } else { c.span.left }) || !pending(
            open,
            done,
            l - 1,
            c.span.y,
        ),
        r == w || !pending(open, done, r, c.span.y),
    ensures
        scan_inv(
            open,
            after,
            w,
            h,
            handed_on(stack, l, r, c.span.y, c.span.step, w, h),
            Scan {
                span: c.span,
                left: if c.right == c.span.left { l } else { c.left },
                right: r + 1,
            },
        ),
{
    let s = c.span;
    let y = s.y;
    let seed = c.right;
    let next = Scan { span: s, left: if seed == s.left { l } else { c.left }, right: r + 1 };
    let stack2 = handed_on(stack, l, r, y, s.step, w, h);
    assert forall|p: (int, int)| done.contains(p) implies after.contains(p) by {}
    // an inner run starts at its seed
    if seed != s.left {
        if l < seed {
            assert(pending(open, done, seed - 1, y));
        }
        assert(l == seed);
    }
    assert(span_ok(after, w, h, s)) by {
        assert forall|x: int| s.left <= x < s.right implies #[trigger] after.contains(
            (x, s.origin()),
        ) by {
            assert(done.contains((x, s.origin())));
        }
    }
    assert(stack_ok(after, w, h, stack2)) by {
        assert forall|i: int| 0 <= i < stack2.len() implies span_ok(
            after,
            w,
            h,
            #[trigger] stack2[i],
        ) by {
            if i < stack.len() {
                let t = stack[i];
                assert(stack2[i] == t);
                assert(span_ok(done, w, h, t));
                assert forall|x: int| t.left <= x < t.right implies #[trigger] after.contains(
                    (x, t.origin()),
                ) by {
                    assert(done.contains((x, t.origin())));
                }
            } else {
                let t = stack2[i];
                assert(t == SpanView { left: l, right: r, y: y + s.step, step: s.step });
                assert forall|x: int| t.left <= x < t.right implies #[trigger] after.contains(
                    (x, t.origin()),
                ) by {
                    assert(pending(open, done, x, y));
                }
            }
        }
    }
    assert(h_closed(open, after)) by {
        assert forall|x: int, yy: int| #[trigger] pending(open, after, x, yy) implies !after.contains(
            (x - 1, yy),
        ) && !after.contains((x + 1, yy)) by {
            assert(pending(open, done, x, yy));
            assert(!after.contains((x, yy)));
            if after.contains((x + 1, yy)) {
                assert(yy == y && x == l - 1);
            }
            if after.contains((x - 1, yy)) {
                assert(yy == y && x == r);
            }
        }
    }
    assert forall|x: int| s.left <= x < next.right && x < w implies !#[trigger] pending(
        open,
        after,
        x,
        y,
    ) by {
        if pending(open, after, x, y) {
            assert(pending(open, done, x, y));
            assert(!after.contains((x, y)));
        }
    }
    assert forall|x: int| next.left <= x < s.left implies #[trigger] after.contains((x, y)) by {
        if seed == s.left {
            assert(pending(open, done, x, y));
        } else {
            assert(done.contains((x, y)));
        }
    }
    assert forall|x: int| s.right <= x < next.right - 1 implies #[trigger] after.contains((x, y)) by {
        assert(pending(open, done, x, y));
    }
    assert(v_closed_but(open, after, stack2, next)) by {
        assert forall|x: int, yy: int| #[trigger]
            pending(open, after, x, yy) && (after.contains((x, yy - 1)) || after.contains(
                (x, yy + 1),
            )) implies covered(stack2, x, yy) || owed(next, x, yy) by {
            assert(pending(open, done, x, yy));
            if done.contains((x, yy - 1)) || done.contains((x, yy + 1)) {
                if covered(stack, x, yy) {
                    let i = choose|i: int| 0 <= i < stack.len() && covers(#[trigger] stack[i], x, yy);
                    assert(covers(stack2[i], x, yy));
                } else {
                    assert(owed(c, x, yy));
                    assert(owed(next, x, yy));
                }
            } else {
                // the filled neighbour lies in the new run
                assert(l <= x < r);
                assert(yy == y + 1 || yy == y - 1);
                if yy == y + s.step {
                    let t = SpanView { left: l, right: r, y: y + s.step, step: s.step };
                    assert(stack2[stack.len() as int] == t);
                    assert(covers(stack2[stack.len() as int], x, yy));
                } else {
                    assert(yy == s.origin());
                    if s.left <= x < s.right {
                        assert(done.contains((x, s.origin())));
                    } else if x == s.left - 1 {
                        assert(done.contains((s.left, s.origin())));
                    } else if x == s.right {
                        assert(done.contains((s.right - 1, s.origin())));
                    } else {
                        assert(owed(next, x, yy));
                    }
                }
            }
        }
    }
}

/// When the scan has passed the span's right end, what the first and the
/// last run overhang is handed back to the origin row, and the scan is over.
pub proof fn lemma_end_scan(
    open: Set<(int, int)>,
    done: Set<(int, int)>,
    w: int,
    h: int,
    stack: Seq<SpanView>,
    c: Scan,
)
    requires
        scan_inv(open, done, w, h, stack, c),
        c.right >= c.span.right,
    ensures
        idle_inv(
            open,
            done,
            w,
            h,
            handed_on(
                handed_on(stack, c.left, c.span.left - 1, c.span.y, -c.span.step, w, h),
                c.span.right + 1,
                c.right - 1,
                c.span.y,
                -c.span.step,
                w,
                h,
            ),
        ),
{
    let s = c.span;
    let y = s.y;
    let stack1 = handed_on(stack, c.left, s.left - 1, y, -s.step, w, h);
    let stack2 = handed_on(stack1, s.right + 1, c.right - 1, y, -s.step, w, h);
    assert(stack_ok(done, w, h, stack1)) by {
        assert forall|i: int| 0 <= i < stack1.len() implies span_ok(
            done,
            w,
            h,
            #[trigger] stack1[i],
        ) by {
            if i < stack.len() {
                assert(stack1[i] == stack[i]);
            } else {
                let t = stack1[i];
                assert(t.origin() == y);
            }
        }
    }
    assert(stack_ok(done, w, h, stack2)) by {
        assert forall|i: int| 0 <= i < stack2.len() implies span_ok(
            done,
            w,
            h,
            #[trigger] stack2[i],
        ) by {
            if i < stack1.len() {
                assert(stack2[i] == stack1[i]);
            } else {
                let t = stack2[i];
                assert(t.origin() == y);
            }
        }
    }
    assert forall|x: int, yy: int| #[trigger]
        pending(open, done, x, yy) && (done.contains((x, yy - 1)) || done.contains(
            (x, yy + 1),
        )) implies covered(stack2, x, yy) by {
        if covered(stack, x, yy) {
            let i = choose|i: int| 0 <= i < stack.len() && covers(#[trigger] stack[i], x, yy);
            assert(stack1[i] == stack[i]);
            assert(covers(stack2[i], x, yy));
        } else {
            assert(owed(c, x, yy));
            if yy == y && s.left <= x < s.right {
                assert(false);
            } else if yy == s.origin() && c.left <= x < s.left - 1 {
                assert(covers(stack1[stack.len() as int], x, yy));
                assert(covers(stack2[stack.len() as int], x, yy));
            } else {
                assert(covers(stack2[stack1.len() as int], x, yy));
            }
        }
    }
}

/// The first run, filled from the seed on an untouched canvas, is handed on
/// upward and downward.
pub proof fn lemma_first_run(
    open: Set<(int, int)>,
    done: Set<(int, int)>,
    w: int,
    h: int,
    l: int,
    r: int,
    y: int,
)
    requires
        within(open, w, h),
        0 <= l <= r <= w,
        0 <= y < h,
        grown(Set::empty(), done, l, r, y),
        l == 0 || !open.contains((l - 1, y)),
        r == w || !open.contains((r, y)),
    ensures
        idle_inv(
            open,
            done,
            w,
            h,
            handed_on(handed_on(Seq::empty(), l, r, y, -1, w, h), l, r, y, 1, w, h),
        ),
{
    let stack1 = handed_on(Seq::<SpanView>::empty(), l, r, y, -1, w, h);
    let stack2 = handed_on(stack1, l, r, y, 1, w, h);
    assert forall|i: int| 0 <= i < stack2.len() implies span_ok(done, w, h, #[trigger] stack2[i]) by {
        let t = stack2[i];
        assert(t.origin() == y);
        assert(t.left == l && t.right == r);
    }
    assert forall|x: int, yy: int| #[trigger] pending(open, done, x, yy) implies !done.contains(
        (x - 1, yy),
    ) && !done.contains((x + 1, yy)) by {
        assert(!done.contains((x, yy)));
        if done.contains((x + 1, yy)) {
            assert(x == l - 1);
        }
        if done.contains((x - 1, yy)) {
            assert(x == r);
        }
    }
    assert forall|x: int, yy: int| #[trigger]
        pending(open, done, x, yy) && (done.contains((x, yy - 1)) || done.contains(
            (x, yy + 1),
        )) implies covered(stack2, x, yy) by {
        if yy == y - 1 {
            assert(covers(stack1[0], x, yy));
            assert(covers(stack2[0], x, yy));
        } else {
            assert(yy == y + 1);
            assert(covers(stack2[stack1.len() as int], x, yy));
        }
    }
}

/// When no span waits any more, every pixel of `open` next to a filled pixel is filled.
pub proof fn lemma_idle_closed(
    open: Set<(int, int)>,
    done: Set<(int, int)>,
    w: int,
    h: int,
    p: (int, int),
    q: (int, int),
)
    requires
        idle_inv(open, done, w, h, Seq::empty()),
        done.contains(p),
        crate::region::adjacent(p, q),
        open.contains(q),
    ensures
        done.contains(q),
{
    if !done.contains(q) {
        assert(pending(open, done, q.0, q.1));
        if p.0 == q.0 {
            assert(covered(Seq::<SpanView>::empty(), q.0, q.1));
        }
    }
}

} // verus!
