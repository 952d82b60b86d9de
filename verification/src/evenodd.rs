//! What a polygon claims, said of its rings alone: a point on an edge, or a
//! point from which a ray crosses the rings an odd number of times. The
//! bounding box, the encoding and the memory mode do not show.

use vstd::prelude::*;

use crate::agreement::{lemma_ring_agrees, ring_closed};
use crate::eager::{cache_claims, cache_ring, poly_begin, range_hits, stitch_ring, Cache};
use crate::format::PayloadLayout;
use crate::geometry::{
    arc_poly_claims, arc_poly_ok, in_box, poly_box, poly_refs, ring_hits, vertex_fits, BBox,
};
use crate::pip::{
    any_boundary, before, contains_spec, cross, crosses, fold_hits, odd_crossings, odd_inside,
    on_ring, on_segment, ring_spec, Point, RingHit,
};

verus! {

/// Whether `p` lies on an edge or a vertex of a ring of three vertices or more.
pub open spec fn on_some_ring(rings: Seq<Seq<Point>>, p: Point) -> bool {
    exists|k: int|
        0 <= k < rings.len() && (#[trigger] rings[k]).len() >= 3 && on_ring(
            rings[k],
            p,
            rings[k].len() as int,
        )
}

/// Whether the ray from `p` crosses the first `n` rings, those of three
/// vertices or more, an odd number of times.
pub open spec fn odd_over(rings: Seq<Seq<Point>>, p: Point, n: int) -> bool
    decreases n,
{
    if n <= 0 {
        false
    } else {
        let ring = rings[n - 1];
        odd_over(rings, p, n - 1) != (ring.len() >= 3 && odd_crossings(ring, p, ring.len() as int))
    }
}

/// The even-odd rule over a polygon's rings, with its border.
pub open spec fn even_odd(rings: Seq<Seq<Point>>, p: Point) -> bool {
    on_some_ring(rings, p) || odd_over(rings, p, rings.len() as int)
}

/// Whether a box holds every vertex of every ring.
pub open spec fn encloses(bbox: BBox, rings: Seq<Seq<Point>>) -> bool {
    forall|k: int, i: int|
        0 <= k < rings.len() && 0 <= i < rings[k].len() ==> in_box(bbox, #[trigger] rings[k][i])
}

proof fn lemma_odd_over(rings: Seq<Seq<Point>>, hits: Seq<RingHit>, p: Point, n: int)
    requires
        hits.len() == rings.len(),
        forall|k: int| 0 <= k < hits.len() ==> #[trigger] hits[k] == ring_spec(rings[k], p),
        !on_some_ring(rings, p),
        0 <= n <= rings.len(),
    ensures
        odd_inside(hits, n) == odd_over(rings, p, n),
    decreases n,
{
    if n > 0 {
        lemma_odd_over(rings, hits, p, n - 1);
        assert(hits[n - 1] == ring_spec(rings[n - 1], p));
    }
}

proof fn lemma_fold(rings: Seq<Seq<Point>>, hits: Seq<RingHit>, p: Point)
    requires
        hits.len() == rings.len(),
        forall|k: int| 0 <= k < hits.len() ==> #[trigger] hits[k] == ring_spec(rings[k], p),
    ensures
        fold_hits(hits) == even_odd(rings, p),
{
    if on_some_ring(rings, p) {
        let k = choose|k: int|
            0 <= k < rings.len() && (#[trigger] rings[k]).len() >= 3 && on_ring(
                rings[k],
                p,
                rings[k].len() as int,
            );
        assert(hits[k] == RingHit::Boundary);
        assert(any_boundary(hits, hits.len() as int));
    } else {
        if any_boundary(hits, hits.len() as int) {
            let k = choose|k: int|
                0 <= k < hits.len() && #[trigger] hits[k] == RingHit::Boundary;
            assert(rings[k].len() >= 3);
        }
        lemma_odd_over(rings, hits, p, rings.len() as int);
    }
}

/// The polygon test is the even-odd rule with the border.
pub proof fn lemma_contains_by_even_odd(rings: Seq<Seq<Point>>, p: Point)
    ensures
        contains_spec(rings, p) == even_odd(rings, p),
{
    lemma_fold(rings, rings.map_values(|ring: Seq<Point>| ring_spec(ring, p)), p);
}

/// Whether an edge passes the height of `p`.
spec fn straddles(a: Point, b: Point, p: Point) -> bool {
    (a.1 <= p.1) != (b.1 <= p.1)
}

/// A ray that starts left of an edge crosses it where the edge passes its
/// height, and one that starts right of it never does.
proof fn lemma_beside(a: Point, b: Point, p: Point)
    ensures
        p.0 < a.0 && p.0 < b.0 ==> crosses(a, b, p) == straddles(a, b, p),
        p.0 > a.0 && p.0 > b.0 ==> !crosses(a, b, p),
{
    let (u, v) = (b.1 - p.1, p.1 - a.1);
    let (s, t) = (a.0 - p.0, b.0 - p.0);
    assert(cross(a, b, p) == u * s + v * t) by (nonlinear_arith)
        requires
            u == b.1 - p.1,
            v == p.1 - a.1,
            s == a.0 - p.0,
            t == b.0 - p.0,
            cross(a, b, p) == (b.0 - a.0) * (p.1 - a.1) - (b.1 - a.1) * (p.0 - a.0),
    ;
    if a.1 <= p.1 < b.1 {
        if s > 0 && t > 0 {
            assert(u * s + v * t > 0) by (nonlinear_arith)
                requires
                    u > 0,
                    v >= 0,
                    s > 0,
                    t > 0,
            ;
        } else if s < 0 && t < 0 {
            assert(u * s + v * t < 0) by (nonlinear_arith)
                requires
                    u > 0,
                    v >= 0,
                    s < 0,
                    t < 0,
            ;
        }
    } else if b.1 <= p.1 < a.1 {
        if s > 0 && t > 0 {
            assert(u * s + v * t < 0) by (nonlinear_arith)
                requires
                    u <= 0,
                    v < 0,
                    s > 0,
                    t > 0,
            ;
        } else if s < 0 && t < 0 {
            assert(u * s + v * t > 0) by (nonlinear_arith)
                requires
                    u <= 0,
                    v < 0,
                    s < 0,
                    t < 0,
            ;
        }
    }
}

/// From outside its box, the first `n` edges of a ring are crossed an odd
/// number of times only where the ray starts to their left and they end on the
/// other side of its height.
proof fn lemma_parity_outside(bbox: BBox, ring: Seq<Point>, p: Point, n: int)
    requires
        !in_box(bbox, p),
        ring.len() > 0,
        forall|i: int| 0 <= i < ring.len() ==> in_box(bbox, #[trigger] ring[i]),
        0 <= n <= ring.len(),
    ensures
        odd_crossings(ring, p, n) == (n > 0 && p.0 < bbox.min_x && straddles(
            ring.last(),
            ring[n - 1],
            p,
        )),
    decreases n,
{
    if n > 0 {
        lemma_parity_outside(bbox, ring, p, n - 1);
        let (a, b) = (before(ring, n - 1), ring[n - 1]);
        assert(in_box(bbox, ring.last()));
        assert(in_box(bbox, a) && in_box(bbox, b));
        lemma_beside(a, b, p);
        if n > 1 {
            assert(in_box(bbox, ring[n - 2]));
        }
    }
}

/// Outside a box that holds them, rings claim nothing.
proof fn lemma_nothing_outside(bbox: BBox, rings: Seq<Seq<Point>>, p: Point, n: int)
    requires
        !in_box(bbox, p),
        encloses(bbox, rings),
        0 <= n <= rings.len(),
    ensures
        !on_some_ring(rings, p),
        !odd_over(rings, p, n),
    decreases n,
{
    assert forall|k: int| 0 <= k < rings.len() && (#[trigger] rings[k]).len() >= 3 implies !on_ring(
        rings[k],
        p,
        rings[k].len() as int,
    ) by {
        let ring = rings[k];
        assert forall|i: int| 0 <= i < ring.len() implies !#[trigger] on_segment(
            before(ring, i),
            ring[i],
            p,
        ) by {
            assert(in_box(bbox, rings[k][i]));
            assert(in_box(bbox, rings[k][ring.len() - 1]));
            if i > 0 {
                assert(in_box(bbox, rings[k][i - 1]));
            }
        }
    }
    if n > 0 {
        lemma_nothing_outside(bbox, rings, p, n - 1);
        let ring = rings[n - 1];
        if ring.len() >= 3 {
            assert forall|i: int| 0 <= i < ring.len() implies in_box(bbox, #[trigger] ring[i]) by {
                assert(in_box(bbox, rings[n - 1][i]));
            }
            lemma_parity_outside(bbox, ring, p, ring.len() as int);
        }
    }
}

/// The rings of poly `id` of an arc-store payload, stitched.
pub open spec fn stored_rings(b: Seq<u8>, layout: PayloadLayout, id: int) -> Seq<Seq<Point>> {
    let rings = poly_refs(b, layout, id)->0;
    Seq::new(rings.len(), |k: int| stitch_ring(b, layout, rings[k], Seq::empty()))
}

/// On any arc store, a poly whose rings are stored closed claims by the
/// even-odd rule over them, where its box encloses them: however its rings are
/// cut into arcs, and whichever way those are walked.
pub proof fn lemma_arcs_claim_by_even_odd(b: Seq<u8>, layout: PayloadLayout, id: int, p: Point)
    requires
        arc_poly_ok(b, layout, id),
        forall|i: int|
            0 <= i < (poly_refs(b, layout, id)->0).len() ==> ring_closed(
                b,
                layout,
                #[trigger] (poly_refs(b, layout, id)->0)[i],
            ),
        encloses(poly_box(b, layout, id), stored_rings(b, layout, id)),
    ensures
        arc_poly_claims(b, layout, id, p) == even_odd(stored_rings(b, layout, id), p),
{
    let refs = poly_refs(b, layout, id)->0;
    let rings = stored_rings(b, layout, id);
    let hits = ring_hits(b, layout, refs, p);
    assert forall|k: int| 0 <= k < hits.len() implies #[trigger] hits[k] == ring_spec(
        rings[k],
        p,
    ) by {
        assert(ring_closed(b, layout, refs[k]));
        lemma_ring_agrees(b, layout, refs[k], Seq::empty(), p);
        assert(rings[k].skip(0) =~= rings[k]);
    }
    lemma_fold(rings, hits, p);
    if !in_box(poly_box(b, layout, id), p) {
        lemma_nothing_outside(poly_box(b, layout, id), rings, p, rings.len() as int);
    }
}

/// The rings of poly `id` of a cache.
pub open spec fn cache_rings(cache: Cache, id: int) -> Seq<Seq<Point>> {
    let begin = poly_begin(cache, id);
    Seq::new(
        (cache.polys[id].1 - begin) as nat,
        |k: int| cache_ring(cache.coords, cache.ring_ends, begin + k),
    )
}

/// Whether every vertex of every ring fits 16 bits.
pub open spec fn fit_16_bits(rings: Seq<Seq<Point>>) -> bool {
    forall|k: int, i: int|
        0 <= k < rings.len() && 0 <= i < rings[k].len() ==> vertex_fits(#[trigger] rings[k][i], 2)
}

/// In any cache, decoded or stored, a poly claims by the even-odd rule over its
/// rings, where its box encloses them.
pub proof fn lemma_cache_claims_by_even_odd(cache: Cache, narrow: bool, id: int, p: Point)
    requires
        encloses(cache.polys[id].0, cache_rings(cache, id)),
        narrow ==> fit_16_bits(cache_rings(cache, id)),
    ensures
        cache_claims(cache, narrow, id, p) == even_odd(cache_rings(cache, id), p),
{
    let rings = cache_rings(cache, id);
    let begin = poly_begin(cache, id);
    let hits = range_hits(cache.coords, cache.ring_ends, begin, cache.polys[id].1, p);
    assert forall|k: int| 0 <= k < hits.len() implies #[trigger] hits[k] == ring_spec(
        rings[k],
        p,
    ) by {}
    lemma_fold(rings, hits, p);
    if !in_box(cache.polys[id].0, p) {
        lemma_nothing_outside(cache.polys[id].0, rings, p, rings.len() as int);
    } else if narrow && !vertex_fits(p, 2) {
        let reach = BBox { min_x: -0x8000, min_y: -0x8000, max_x: 0x7FFF, max_y: 0x7FFF };
        assert(encloses(reach, rings)) by {
            assert forall|k: int, i: int|
                0 <= k < rings.len() && 0 <= i < rings[k].len() implies in_box(
                reach,
                #[trigger] rings[k][i],
            ) by {
                assert(vertex_fits(rings[k][i], 2));
            }
        }
        lemma_nothing_outside(reach, rings, p, rings.len() as int);
    }
}

} // verus!
