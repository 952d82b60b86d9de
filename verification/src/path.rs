//! The even-odd test over open polylines, and what ties it to rings.
//!
//! An arc is folded edge by edge. The edge test is symmetric in its endpoints
//! and parity accumulation is order-independent, so the hits of a ring's arcs
//! combine to the hit of the ring, whichever way each arc is walked.

use vstd::prelude::*;

use crate::pip::{
    before, crosses, lemma_edge_symmetric, odd_crossings, on_ring, on_segment, ring_spec, Point,
    RingHit,
};

verus! {

/// Whether `p` lies on one of the edges between the first `n` vertices.
pub open spec fn path_on(path: Seq<Point>, p: Point, n: int) -> bool {
    exists|i: int| 1 <= i < n && #[trigger] on_segment(path[i - 1], path[i], p)
}

/// Whether the ray from `p` crosses an odd number of the edges between the
/// first `n` vertices.
pub open spec fn path_odd(path: Seq<Point>, p: Point, n: int) -> bool
    decreases n,
{
    if n <= 1 {
        false
    } else {
        path_odd(path, p, n - 1) != crosses(path[n - 2], path[n - 1], p)
    }
}

/// The result of folding one open polyline: `Boundary` when the point lies on
/// it, otherwise `Inside` for an odd number of ray crossings.
pub open spec fn path_spec(path: Seq<Point>, p: Point) -> RingHit {
    if path_on(path, p, path.len() as int) {
        RingHit::Boundary
    } else if path_odd(path, p, path.len() as int) {
        RingHit::Inside
    } else {
        RingHit::Outside
    }
}

/// The two results combined: a boundary hit wins, parities XOR.
pub open spec fn combine(a: RingHit, b: RingHit) -> RingHit {
    if a == RingHit::Boundary || b == RingHit::Boundary {
        RingHit::Boundary
    } else if (a == RingHit::Inside) != (b == RingHit::Inside) {
        RingHit::Inside
    } else {
        RingHit::Outside
    }
}

/// Two polylines joined at a shared junction vertex, which is kept once.
pub open spec fn join(a: Seq<Point>, b: Seq<Point>) -> Seq<Point> {
    a + b.skip(1)
}

proof fn lemma_odd_join(a: Seq<Point>, b: Seq<Point>, p: Point, k: int)
    requires
        a.len() >= 1,
        1 <= k <= b.len(),
        a.last() == b[0],
    ensures
        path_odd(join(a, b), p, a.len() + k - 1) == (path_odd(a, p, a.len() as int) != path_odd(
            b,
            p,
            k,
        )),
    decreases k,
{
    let c = join(a, b);
    if k == 1 {
        lemma_odd_prefix(a, c, p, a.len() as int);
    } else {
        lemma_odd_join(a, b, p, k - 1);
        assert(c[a.len() + k - 2] == b[k - 1]);
        assert(c[a.len() + k - 3] == b[k - 2]) by {
            if k == 2 {
                assert(c[a.len() - 1] == a.last());
            }
        }
    }
}

proof fn lemma_odd_prefix(a: Seq<Point>, c: Seq<Point>, p: Point, n: int)
    requires
        n <= a.len(),
        n <= c.len(),
        forall|i: int| 0 <= i < n ==> a[i] == c[i],
    ensures
        path_odd(a, p, n) == path_odd(c, p, n),
    decreases n,
{
    if n > 1 {
        lemma_odd_prefix(a, c, p, n - 1);
    }
}

/// Folding a joined polyline is folding its two parts.
pub proof fn lemma_path_join(a: Seq<Point>, b: Seq<Point>, p: Point)
    requires
        a.len() >= 1,
        b.len() >= 1,
        a.last() == b[0],
    ensures
        path_spec(join(a, b), p) == combine(path_spec(a, p), path_spec(b, p)),
{
    let c = join(a, b);
    let (m, n) = (a.len() as int, b.len() as int);
    assert(c.len() == m + n - 1);
    lemma_odd_join(a, b, p, n);
    assert forall|i: int| 0 <= i < m implies #[trigger] c[i] == a[i] by {}
    assert forall|k: int| 1 <= k < n implies c[m + k - 2] == b[k - 1] && #[trigger] c[m + k - 1]
        == b[k] by {
        if k == 1 {
            assert(c[m - 1] == a.last());
        }
    }
    if path_on(a, p, m) {
        let i = choose|i: int| 1 <= i < m && #[trigger] on_segment(a[i - 1], a[i], p);
        assert(on_segment(c[i - 1], c[i], p));
    }
    if path_on(b, p, n) {
        let k = choose|k: int| 1 <= k < n && #[trigger] on_segment(b[k - 1], b[k], p);
        assert(c[m + k - 1] == b[k] && c[m + k - 2] == b[k - 1]);
        assert(on_segment(c[(m + k - 1) - 1], c[m + k - 1], p));
    }
    if path_on(c, p, c.len() as int) {
        let i = choose|i: int| 1 <= i < c.len() && #[trigger] on_segment(c[i - 1], c[i], p);
        if i < m {
            assert(on_segment(a[i - 1], a[i], p));
        } else {
            let k = i - m + 1;
            assert(c[m + k - 1] == b[k] && c[m + k - 2] == b[k - 1]);
            assert(on_segment(b[k - 1], b[k], p));
        }
    }
}

/// A polyline folds the same in either direction, so the orientation of an
/// arc reference does not matter to the fold.
pub proof fn lemma_path_reverse(path: Seq<Point>, p: Point)
    ensures
        path_spec(path.reverse(), p) == path_spec(path, p),
    decreases path.len(),
{
    let n = path.len() as int;
    let rev = path.reverse();
    if n <= 1 {
        assert(rev =~= path);
    } else {
        let init = path.drop_last();
        lemma_path_reverse(init, p);
        let step = seq![path[n - 2], path[n - 1]];
        assert(join(init, step) =~= path);
        lemma_path_join(init, step, p);
        let back = seq![path[n - 1], path[n - 2]];
        assert(join(back, init.reverse()) =~= rev);
        lemma_path_join(back, init.reverse(), p);
        lemma_edge_symmetric(path[n - 2], path[n - 1], p);
        lemma_pair(path[n - 2], path[n - 1], p);
        lemma_pair(path[n - 1], path[n - 2], p);
    }
}

/// A polyline of two vertices is one edge.
proof fn lemma_pair(a: Point, b: Point, p: Point)
    ensures
        path_on(seq![a, b], p, 2) == on_segment(a, b, p),
        path_odd(seq![a, b], p, 2) == crosses(a, b, p),
{
    let s = seq![a, b];
    assert(s[0] == a && s[1] == b);
    reveal_with_fuel(path_odd, 3);
    if on_segment(a, b, p) {
        assert(on_segment(s[1 - 1], s[1], p));
    }
}

/// The ring a closed polyline bounds, stored without its closing vertex,
/// folds as the polyline does.
pub proof fn lemma_closed_path(path: Seq<Point>, p: Point)
    requires
        path.len() >= 4,
        path[0] == path.last(),
    ensures
        ring_spec(path.drop_last(), p) == path_spec(path, p),
{
    let ring = path.drop_last();
    let n = ring.len() as int;
    assert(path.last() == path[n]);
    lemma_closed_odd(path, p, n);
    // edge i of the ring runs into ring[i]; edge 0 is the closing edge
    // path[n-1] -> path[n]
    assert(before(ring, 0) == path[n - 1] && ring[0] == path[n]);
    assert forall|i: int| 1 <= i < n implies before(ring, i) == path[i - 1] && #[trigger] ring[i]
        == path[i] by {}
    if on_ring(ring, p, n) {
        let i = choose|i: int| 0 <= i < n && #[trigger] on_segment(before(ring, i), ring[i], p);
        if i == 0 {
            assert(on_segment(path[n - 1], path[n], p));
        } else {
            assert(on_segment(path[i - 1], path[i], p));
        }
    }
    if path_on(path, p, path.len() as int) {
        let i = choose|i: int| 1 <= i < path.len() && #[trigger] on_segment(path[i - 1], path[i], p);
        if i == n {
            assert(on_segment(before(ring, 0), ring[0], p));
        } else {
            assert(ring[i] == path[i] && before(ring, i) == path[i - 1]);
            assert(on_segment(before(ring, i), ring[i], p));
        }
    }
}

proof fn lemma_closed_odd(path: Seq<Point>, p: Point, k: int)
    requires
        path.len() >= 2,
        path[0] == path.last(),
        1 <= k < path.len(),
    ensures
        odd_crossings(path.drop_last(), p, k) == (path_odd(path, p, k) != crosses(
            path[path.len() - 2],
            path[path.len() - 1],
            p,
        )),
    decreases k,
{
    let ring = path.drop_last();
    if k == 1 {
        reveal_with_fuel(odd_crossings, 2);
        reveal_with_fuel(path_odd, 2);
        assert(before(ring, 0) == ring.last());
    } else {
        lemma_closed_odd(path, p, k - 1);
        assert(before(ring, k - 1) == path[k - 2]);
    }
}

/// The same ring stored from its second vertex on folds alike: the closing
/// vertex may be dropped at either end.
pub proof fn lemma_closed_path_rotated(path: Seq<Point>, p: Point)
    requires
        path.len() >= 4,
        path[0] == path.last(),
    ensures
        ring_spec(path.skip(1), p) == path_spec(path, p),
{
    // walk the same edges starting one vertex later
    let first = seq![path[0], path[1]];
    let rest = path.skip(1);
    assert(join(first, rest) =~= path);
    lemma_path_join(first, rest, p);
    let turned = join(rest, first);
    lemma_path_join(rest, first, p);
    assert(turned.drop_last() =~= rest);
    assert(turned.last() == path[1] && turned[0] == path[1]);
    lemma_closed_path(turned, p);
    assert(path_spec(turned, p) == path_spec(path, p));
}

} // verus!
