//! Four-connected regions of pixels, and the bookkeeping of a scanline flood
//! fill: which pixels are still to be visited, which spans are waiting, and
//! why nothing reachable is forgotten.

use vstd::prelude::*;

verus! {

/// Whether two pixels share an edge.
pub open spec fn adjacent(a: (int, int), b: (int, int)) -> bool {
    ||| (a.0 == b.0 && (a.1 == b.1 + 1 || a.1 + 1 == b.1))
    ||| (a.1 == b.1 && (a.0 == b.0 + 1 || a.0 + 1 == b.0))
}

/// Whether `path` walks from pixel to adjacent pixel without leaving `open`.
pub open spec fn is_path(open: Set<(int, int)>, path: Seq<(int, int)>) -> bool {
    &&& path.len() > 0
    &&& forall|i: int| 0 <= i < path.len() ==> open.contains(#[trigger] path[i])
    &&& forall|i: int| 0 < i < path.len() ==> adjacent(path[i - 1], #[trigger] path[i])
}

/// Whether some path inside `open` leads from `a` to `b`.
pub open spec fn connected(open: Set<(int, int)>, a: (int, int), b: (int, int)) -> bool {
    exists|path: Seq<(int, int)>| #[trigger]
        is_path(open, path) && path[0] == a && path.last() == b
}

/// A pixel of `open` is connected to itself.
pub proof fn lemma_connected_self(open: Set<(int, int)>, a: (int, int))
    requires
        open.contains(a),
    ensures
        connected(open, a, a),
{
    let path = seq![a];
    assert(is_path(open, path) && path[0] == a && path.last() == a);
}

/// A pixel outside `open` is connected to nothing, and nothing to it.
pub proof fn lemma_connected_ends(open: Set<(int, int)>, a: (int, int), b: (int, int))
    requires
        connected(open, a, b),
    ensures
        open.contains(a),
        open.contains(b),
{
    let path = choose|path: Seq<(int, int)>| #[trigger]
        is_path(open, path) && path[0] == a && path.last() == b;
    assert(open.contains(path[0]));
    assert(open.contains(path[path.len() - 1]));
}

/// A connection can be extended by one adjacent pixel of `open`.
pub proof fn lemma_connected_step(
    open: Set<(int, int)>,
    a: (int, int),
    b: (int, int),
    c: (int, int),
)
    requires
        connected(open, a, b),
        adjacent(b, c),
        open.contains(c),
    ensures
        connected(open, a, c),
{
    let path = choose|path: Seq<(int, int)>| #[trigger]
        is_path(open, path) && path[0] == a && path.last() == b;
    let longer = path.push(c);
    assert forall|i: int| 0 <= i < longer.len() implies open.contains(#[trigger] longer[i]) by {
        if i < path.len() {
            assert(longer[i] == path[i]);
        }
    }
    assert forall|i: int| 0 < i < longer.len() implies adjacent(
        longer[i - 1],
        #[trigger] longer[i],
    ) by {
        if i < path.len() {
            assert(longer[i] == path[i]);
            assert(longer[i - 1] == path[i - 1]);
        } else {
            assert(longer[i - 1] == path.last());
        }
    }
    assert(is_path(open, longer) && longer[0] == a && longer.last() == c);
}

/// A set that holds the seed and, with each pixel, every adjacent pixel of
/// `open`, holds everything that is connected to the seed.
pub proof fn lemma_closed_holds_component(
    open: Set<(int, int)>,
    done: Set<(int, int)>,
    seed: (int, int),
    target: (int, int),
)
    requires
        done.contains(seed),
        forall|p: (int, int), q: (int, int)|
            done.contains(p) && #[trigger] adjacent(p, q) && open.contains(q) ==> done.contains(q),
        connected(open, seed, target),
    ensures
        done.contains(target),
{
    let path = choose|path: Seq<(int, int)>| #[trigger]
        is_path(open, path) && path[0] == seed && path.last() == target;
    lemma_path_inside(open, done, path, path.len() - 1);
}

/// By induction along the path: each of its pixels is in `done`.
proof fn lemma_path_inside(
    open: Set<(int, int)>,
    done: Set<(int, int)>,
    path: Seq<(int, int)>,
    k: int,
)
    requires
        is_path(open, path),
        done.contains(path[0]),
        forall|p: (int, int), q: (int, int)|
            done.contains(p) && #[trigger] adjacent(p, q) && open.contains(q) ==> done.contains(q),
        0 <= k < path.len(),
    ensures
        done.contains(path[k]),
    decreases k,
{
    if k > 0 {
        lemma_path_inside(open, done, path, k - 1);
        assert(adjacent(path[k - 1], path[k]));
        assert(open.contains(path[k]));
    }
}

} // verus!
