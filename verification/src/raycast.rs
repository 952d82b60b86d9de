//! What the polygon test means: a polygon claims a point that lies part of the
//! way along one of its edges, and otherwise a point from which a ray meets an odd
//! number of edges.

use vstd::prelude::*;

use crate::evenodd::{even_odd, lemma_contains_by_even_odd, odd_over, on_some_ring};
use crate::pip::{
    before, contains_spec, cross, crosses, edge_spec, odd_crossings, on_ring, on_segment,
    ring_spec, EdgeHit, Point, RingHit,
};

verus! {

/// Whether `p` is the point at `s / d` of the way from `a` to `b`.
pub open spec fn part_way(a: Point, b: Point, p: Point, s: int, d: int) -> bool {
    &&& 0 <= s <= d
    &&& d > 0
    &&& d * p.0 == d * a.0 + s * (b.0 - a.0)
    &&& d * p.1 == d * a.1 + s * (b.1 - a.1)
}

/// Whether `p` is some part of the way from `a` to `b`.
pub open spec fn lies_on(a: Point, b: Point, p: Point) -> bool {
    exists|s: int, d: int| #[trigger] part_way(a, b, p, s, d)
}

/// Whether the point at `s / d` of the way from `a` to `b` is as high as `p`, and
/// right of it.
pub open spec fn right_of(a: Point, b: Point, p: Point, s: int, d: int) -> bool {
    &&& 0 <= s <= d
    &&& d > 0
    &&& d * p.1 == d * a.1 + s * (b.1 - a.1)
    &&& d * p.0 < d * a.0 + s * (b.0 - a.0)
}

/// Whether the ray from `p` to the right meets the edge from `a` to `b`. The
/// edge's upper end is not part of it, so that a ray through a vertex meets one of
/// the two edges that pass it, and a level edge is never met.
pub open spec fn ray_meets(a: Point, b: Point, p: Point) -> bool {
    &&& a.1 != b.1
    &&& p.1 != if a.1 < b.1 {
        b.1
    } else {
        a.1
    }
    &&& exists|s: int, d: int| #[trigger] right_of(a, b, p, s, d)
}

/// Where edge `i` of a ring starts: the vertex before the one it runs into.
pub open spec fn edge_start(ring: Seq<Point>, i: int) -> Point {
    ring[(i + ring.len() - 1) % (ring.len() as int)]
}

/// What is part of a way lies between its ends.
proof fn lemma_part(d: int, s: int, v: int, w: int)
    requires
        d > 0,
        0 <= s <= d,
        s * v == d * w,
    ensures
        v >= 0 ==> 0 <= w <= v,
        v <= 0 ==> v <= w <= 0,
{
    if v >= 0 {
        assert(0 <= w <= v) by (nonlinear_arith)
            requires
                d > 0,
                0 <= s <= d,
                s * v == d * w,
                v >= 0,
        ;
    }
    if v <= 0 {
        assert(v <= w <= 0) by (nonlinear_arith)
            requires
                d > 0,
                0 <= s <= d,
                s * v == d * w,
                v <= 0,
        ;
    }
}

/// A part of the way in terms of steps from `a`.
proof fn lemma_steps(a: int, b: int, p: int, s: int, d: int)
    ensures
        d * p == d * a + s * (b - a) <==> d * (p - a) == s * (b - a),
        d * p < d * a + s * (b - a) <==> d * (p - a) < s * (b - a),
{
    assert(d * (p - a) == d * p - d * a) by (nonlinear_arith);
}

/// On a line, a point between its ends is part of the way.
proof fn lemma_on_segment_lies_on(a: Point, b: Point, p: Point)
    requires
        on_segment(a, b, p),
    ensures
        lies_on(a, b, p),
{
    let (vx, vy) = (b.0 - a.0, b.1 - a.1);
    let (wx, wy) = (p.0 - a.0, p.1 - a.1);
    assert(vx * wy == vy * wx);
    let (s, d) = if vx > 0 {
        (wx, vx)
    } else if vx < 0 {
        (-wx, -vx)
    } else if vy > 0 {
        (wy, vy)
    } else if vy < 0 {
        (-wy, -vy)
    } else {
        (0, 1)
    };
    assert(d * wx == s * vx && d * wy == s * vy) by (nonlinear_arith)
        requires
            vx * wy == vy * wx,
            (vx > 0 && s == wx && d == vx) || (vx < 0 && s == -wx && d == -vx) || (vx == 0 && wx == 0
                && vy > 0 && s == wy && d == vy) || (vx == 0 && wx == 0 && vy < 0 && s == -wy && d
                == -vy) || (vx == 0 && vy == 0 && wx == 0 && wy == 0 && s == 0 && d == 1),
    ;
    lemma_steps(a.0, b.0, p.0, s, d);
    lemma_steps(a.1, b.1, p.1, s, d);
    assert(part_way(a, b, p, s, d));
}

/// A cross product with a direction, scaled.
proof fn lemma_cross_scaled(vx: int, vy: int, wx: int, wy: int, s: int, d: int)
    requires
        d * wy == s * vy,
    ensures
        d * (vx * wy - vy * wx) == vy * (s * vx - d * wx),
{
    assert(d * (vx * wy - vy * wx) == vx * (d * wy) - vy * (d * wx)) by (nonlinear_arith);
    assert(vx * (s * vy) == vy * (s * vx)) by (nonlinear_arith);
    assert(vy * (s * vx - d * wx) == vy * (s * vx) - vy * (d * wx)) by (nonlinear_arith);
}

/// A point part of the way lies on the line between its ends.
proof fn lemma_lies_on_is_on_segment(a: Point, b: Point, p: Point, s: int, d: int)
    requires
        part_way(a, b, p, s, d),
    ensures
        on_segment(a, b, p),
{
    let (vx, vy) = (b.0 - a.0, b.1 - a.1);
    let (wx, wy) = (p.0 - a.0, p.1 - a.1);
    lemma_steps(a.0, b.0, p.0, s, d);
    lemma_steps(a.1, b.1, p.1, s, d);
    lemma_cross_scaled(vx, vy, wx, wy, s, d);
    let c = cross(a, b, p);
    assert(vy * 0 == 0);
    assert(d * c == 0);
    assert(c == 0) by (nonlinear_arith)
        requires
            d > 0,
            d * c == 0,
    ;
    lemma_part(d, s, vx, wx);
    lemma_part(d, s, vy, wy);
}

/// An edge that the parity rule counts is met by the ray.
proof fn lemma_crosses_is_met(a: Point, b: Point, p: Point)
    requires
        crosses(a, b, p),
    ensures
        ray_meets(a, b, p),
{
    let (vx, vy) = (b.0 - a.0, b.1 - a.1);
    let (wx, wy) = (p.0 - a.0, p.1 - a.1);
    let (s, d) = if vy > 0 {
        (wy, vy)
    } else {
        (-wy, -vy)
    };
    assert(d * wy == s * vy && d * wx < s * vx) by (nonlinear_arith)
        requires
            (vy > 0 && s == wy && d == vy && vx * wy - vy * wx > 0) || (vy < 0 && s == -wy && d == -vy
                && vx * wy - vy * wx < 0),
    ;
    lemma_steps(a.0, b.0, p.0, s, d);
    lemma_steps(a.1, b.1, p.1, s, d);
    assert(right_of(a, b, p, s, d));
}

/// An edge that the ray meets is one that the parity rule counts.
proof fn lemma_met_is_crosses(a: Point, b: Point, p: Point)
    requires
        ray_meets(a, b, p),
    ensures
        crosses(a, b, p),
{
    let (s, d) = choose|s: int, d: int| #[trigger] right_of(a, b, p, s, d);
    let (vx, vy) = (b.0 - a.0, b.1 - a.1);
    let (wx, wy) = (p.0 - a.0, p.1 - a.1);
    lemma_steps(a.0, b.0, p.0, s, d);
    lemma_steps(a.1, b.1, p.1, s, d);
    lemma_part(d, s, vy, wy);
    lemma_cross_scaled(vx, vy, wx, wy, s, d);
    let (c, m) = (cross(a, b, p), s * vx - d * wx);
    assert(vy > 0 ==> c > 0) by (nonlinear_arith)
        requires
            d > 0,
            m > 0,
            d * c == vy * m,
    ;
    assert(vy < 0 ==> c < 0) by (nonlinear_arith)
        requires
            d > 0,
            m > 0,
            d * c == vy * m,
    ;
}

/// The test of an edge: the point lies on it, or the ray from the point meets it,
/// or neither.
pub proof fn lemma_edges_by_the_ray(a: Point, b: Point, p: Point)
    ensures
        on_segment(a, b, p) == lies_on(a, b, p),
        crosses(a, b, p) == ray_meets(a, b, p),
        edge_spec(a, b, p) == EdgeHit::Boundary <==> lies_on(a, b, p),
        edge_spec(a, b, p) == EdgeHit::Cross <==> ray_meets(a, b, p) && !lies_on(a, b, p),
{
    if on_segment(a, b, p) {
        lemma_on_segment_lies_on(a, b, p);
    }
    if lies_on(a, b, p) {
        let (s, d) = choose|s: int, d: int| #[trigger] part_way(a, b, p, s, d);
        lemma_lies_on_is_on_segment(a, b, p, s, d);
    }
    if crosses(a, b, p) {
        lemma_crosses_is_met(a, b, p);
    }
    if ray_meets(a, b, p) {
        lemma_met_is_crosses(a, b, p);
    }
}

/// An edge's start, either way.
proof fn lemma_edge_start(ring: Seq<Point>, i: int)
    requires
        0 <= i < ring.len(),
    ensures
        edge_start(ring, i) == before(ring, i),
{
    let n = ring.len() as int;
    if i == 0 {
        vstd::arithmetic::div_mod::lemma_small_mod((n - 1) as nat, n as nat);
    } else {
        vstd::arithmetic::div_mod::lemma_fundamental_div_mod_converse(i + n - 1, n, 1, i - 1);
    }
}

/// Whether `p` lies on edge `i` of a ring.
pub open spec fn on_edge(ring: Seq<Point>, p: Point, i: int) -> bool {
    0 <= i < ring.len() && lies_on(edge_start(ring, i), ring[i], p)
}

/// The edges of a ring that the ray from `p` meets.
pub open spec fn met_edges(ring: Seq<Point>, p: Point) -> Set<int> {
    Set::new(|i: int| 0 <= i < ring.len() && ray_meets(edge_start(ring, i), ring[i], p))
}

/// The edges among the first `n` that the ray from `p` meets.
spec fn met_upto(ring: Seq<Point>, p: Point, n: int) -> Set<int> {
    Set::new(|i: int| 0 <= i < n && ray_meets(edge_start(ring, i), ring[i], p))
}

/// Parity counts the edges that the ray meets.
proof fn lemma_parity(ring: Seq<Point>, p: Point, n: int)
    requires
        0 <= n <= ring.len(),
    ensures
        met_upto(ring, p, n).finite(),
        odd_crossings(ring, p, n) == (met_upto(ring, p, n).len() % 2 == 1),
    decreases n,
{
    let all = met_upto(ring, p, n);
    if n == 0 {
        assert(all =~= Set::empty());
    } else {
        let less = met_upto(ring, p, n - 1);
        lemma_parity(ring, p, n - 1);
        lemma_edge_start(ring, n - 1);
        lemma_edges_by_the_ray(before(ring, n - 1), ring[n - 1], p);
        if crosses(before(ring, n - 1), ring[n - 1], p) {
            assert(all =~= less.insert(n - 1));
        } else {
            assert(all =~= less);
        }
    }
}

/// Lying on a ring, either way.
proof fn lemma_on_edges(ring: Seq<Point>, p: Point)
    ensures
        on_ring(ring, p, ring.len() as int) == exists|i: int| #[trigger] on_edge(ring, p, i),
{
    if on_ring(ring, p, ring.len() as int) {
        let i = choose|i: int|
            0 <= i < ring.len() && #[trigger] on_segment(before(ring, i), ring[i], p);
        lemma_edge_start(ring, i);
        lemma_edges_by_the_ray(before(ring, i), ring[i], p);
        assert(on_edge(ring, p, i));
    }
    if exists|i: int| #[trigger] on_edge(ring, p, i) {
        let i = choose|i: int| #[trigger] on_edge(ring, p, i);
        lemma_edge_start(ring, i);
        lemma_edges_by_the_ray(before(ring, i), ring[i], p);
        assert(on_segment(before(ring, i), ring[i], p));
    }
}

/// The test of a ring: a point on one of its edges is on its border, one from
/// which the ray meets an odd number of edges is inside, and any other is outside.
/// Fewer than three vertices have neither.
pub proof fn lemma_rings_by_the_ray(ring: Seq<Point>, p: Point)
    ensures
        met_edges(ring, p).finite(),
        ring_spec(ring, p) == RingHit::Boundary <==> ring.len() >= 3 && exists|i: int| #[trigger]
            on_edge(ring, p, i),
        ring_spec(ring, p) == RingHit::Inside <==> ring.len() >= 3 && (forall|i: int|
            !#[trigger] on_edge(ring, p, i)) && met_edges(ring, p).len() % 2 == 1,
{
    lemma_parity(ring, p, ring.len() as int);
    assert(met_edges(ring, p) =~= met_upto(ring, p, ring.len() as int));
    lemma_on_edges(ring, p);
}

/// Whether the ray from `p` meets an edge of a polygon, given by the number of its
/// ring and its own.
pub open spec fn meets_edge(rings: Seq<Seq<Point>>, p: Point, e: (int, int)) -> bool {
    &&& 0 <= e.0 < rings.len()
    &&& rings[e.0].len() >= 3
    &&& 0 <= e.1 < rings[e.0].len()
    &&& ray_meets(edge_start(rings[e.0], e.1), rings[e.0][e.1], p)
}

/// The edges of a polygon that the ray from `p` meets, by the numbers of their
/// rings and their own.
pub open spec fn met_by_ray(rings: Seq<Seq<Point>>, p: Point) -> Set<(int, int)> {
    Set::new(|e: (int, int)| meets_edge(rings, p, e))
}

/// Whether `p` lies on an edge of one of a polygon's rings.
pub open spec fn on_border(rings: Seq<Seq<Point>>, p: Point) -> bool {
    exists|k: int, i: int|
        0 <= k < rings.len() && rings[k].len() >= 3 && #[trigger] on_edge(rings[k], p, i)
}

/// The edges that the ray meets among those of the first `n` rings and the first
/// `m` of the next.
spec fn met_before(rings: Seq<Seq<Point>>, p: Point, n: int, m: int) -> Set<(int, int)> {
    Set::new(|e: (int, int)| meets_edge(rings, p, e) && (e.0 < n || (e.0 == n && e.1 < m)))
}

/// Parity over rings counts the edges that the ray meets.
proof fn lemma_parity_over(rings: Seq<Seq<Point>>, p: Point, n: int, m: int)
    requires
        0 <= n <= rings.len(),
        m == 0 || (n < rings.len() && 0 <= m <= rings[n].len()),
    ensures
        met_before(rings, p, n, m).finite(),
        (met_before(rings, p, n, m).len() % 2 == 1) == (odd_over(rings, p, n) != (m > 0
            && rings[n].len() >= 3 && odd_crossings(rings[n], p, m))),
    decreases n, m,
{
    let all = met_before(rings, p, n, m);
    if m > 0 {
        let ring = rings[n];
        let less = met_before(rings, p, n, m - 1);
        lemma_parity_over(rings, p, n, m - 1);
        assert(!odd_crossings(ring, p, 0));
        assert(odd_crossings(ring, p, m) == (odd_crossings(ring, p, m - 1) != crosses(
            before(ring, m - 1),
            ring[m - 1],
            p,
        )));
        lemma_edge_start(ring, m - 1);
        lemma_edges_by_the_ray(before(ring, m - 1), ring[m - 1], p);
        if ring.len() >= 3 && crosses(before(ring, m - 1), ring[m - 1], p) {
            assert(all =~= less.insert((n, m - 1)));
        } else {
            assert(all =~= less);
        }
    } else if n > 0 {
        let len = rings[n - 1].len() as int;
        lemma_parity_over(rings, p, n - 1, len);
        assert(all =~= met_before(rings, p, n - 1, len));
    } else {
        assert(all =~= Set::empty());
    }
}

/// A polygon claims a point that lies on an edge of one of its rings, and
/// otherwise one from which the ray meets an odd number of edges, those of all its
/// rings taken together.
pub proof fn lemma_polygons_by_the_ray(rings: Seq<Seq<Point>>, p: Point)
    ensures
        met_by_ray(rings, p).finite(),
        contains_spec(rings, p) <==> on_border(rings, p) || met_by_ray(rings, p).len() % 2 == 1,
        even_odd(rings, p) <==> on_border(rings, p) || met_by_ray(rings, p).len() % 2 == 1,
{
    lemma_contains_by_even_odd(rings, p);
    let n = rings.len() as int;
    lemma_parity_over(rings, p, n, 0);
    assert(met_by_ray(rings, p) =~= met_before(rings, p, n, 0));
    if on_some_ring(rings, p) {
        let k = choose|k: int|
            0 <= k < rings.len() && (#[trigger] rings[k]).len() >= 3 && on_ring(
                rings[k],
                p,
                rings[k].len() as int,
            );
        lemma_on_edges(rings[k], p);
        let i = choose|i: int| #[trigger] on_edge(rings[k], p, i);
        assert(on_edge(rings[k], p, i));
    }
    if on_border(rings, p) {
        let (k, i) = choose|k: int, i: int|
            0 <= k < rings.len() && rings[k].len() >= 3 && #[trigger] on_edge(rings[k], p, i);
        lemma_on_edges(rings[k], p);
        assert(rings[k].len() >= 3);
    }
}

} // verus!
