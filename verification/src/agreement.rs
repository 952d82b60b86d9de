//! The polygon encodings and memory modes answer alike: a polygon claims a
//! point the same whether its arcs are folded straight off the payload or its
//! rings were stitched into the eager cache first.

use vstd::prelude::*;

use crate::common::QuantBits;
use crate::eager::{
    cache_claims, cache_ring, decode_rings_spec, decode_spec, lemma_decode_ok, lemma_polys_grow,
    lemma_ring_grows, lemma_rings_grow, poly_begin, polys_ok, range_hits, ref_arc, ring_begin,
    stitch_refs, stitch_ring,
};
use crate::format::PayloadLayout;
use crate::geometry::{
    arc_hits, arc_points, arc_poly_claims, arc_poly_ok, in_box, lemma_arc_fits, merge, poly_box,
    poly_refs, refs_ok, ring_hits, vertex_fits,
};
use crate::path::{
    combine, join, lemma_closed_path, lemma_closed_path_rotated, lemma_path_join,
    lemma_path_reverse, path_odd, path_on, path_spec,
};
use crate::pip::{any_boundary, crosses, odd_inside, on_segment, ring_spec, Point, RingHit};

verus! {

/// The polyline of a ring's first `n` arcs, joined at their junctions.
pub open spec fn ring_path(b: Seq<u8>, layout: PayloadLayout, refs: Seq<nat>, n: int) -> Seq<Point>
    decreases n,
{
    if n <= 1 {
        ref_arc(b, layout, refs[0])
    } else {
        join(ring_path(b, layout, refs, n - 1), ref_arc(b, layout, refs[n - 1]))
    }
}

/// Whether consecutive arcs of a ring share their junction vertex.
pub open spec fn chained(b: Seq<u8>, layout: PayloadLayout, refs: Seq<nat>) -> bool {
    forall|i: int|
        1 <= i < refs.len() ==> ref_arc(b, layout, refs[i - 1]).last() == #[trigger] ref_arc(
            b,
            layout,
            refs[i],
        )[0]
}

/// Whether a ring is stored as the format says: consecutive arcs share their
/// junction vertex, the last vertex repeats the first, and the ring does not
/// degenerate to a doubled segment.
pub open spec fn ring_closed(b: Seq<u8>, layout: PayloadLayout, refs: Seq<nat>) -> bool {
    refs.len() > 0 ==> {
        let path = ring_path(b, layout, refs, refs.len() as int);
        &&& chained(b, layout, refs)
        &&& path[0] == path.last()
        &&& path.len() == 1 || (path.len() >= 4 && (path[0] == path[1] ==> path.len() >= 5))
    }
}

/// The first `n` hits merged.
spec fn merge_first(hits: Seq<RingHit>, n: int) -> RingHit {
    if any_boundary(hits, n) {
        RingHit::Boundary
    } else if odd_inside(hits, n) {
        RingHit::Inside
    } else {
        RingHit::Outside
    }
}

proof fn lemma_merge_step(hits: Seq<RingHit>, n: int)
    requires
        1 <= n <= hits.len(),
    ensures
        merge_first(hits, n) == combine(merge_first(hits, n - 1), hits[n - 1]),
{
    if any_boundary(hits, n) {
        let i = choose|i: int| 0 <= i < n && #[trigger] hits[i] == RingHit::Boundary;
        if i < n - 1 {
            assert(any_boundary(hits, n - 1));
        }
    }
}

/// A referenced arc is never empty and folds alike in either direction.
proof fn lemma_ref_arc(b: Seq<u8>, layout: PayloadLayout, refs: Seq<nat>, i: int, p: Point)
    requires
        refs_ok(b, layout, refs),
        0 <= i < refs.len(),
    ensures
        ref_arc(b, layout, refs[i]).len() >= 1,
        path_spec(ref_arc(b, layout, refs[i]), p) == arc_hits(b, layout, refs, p)[i],
{
    let id = (refs[i] / 2) as int;
    assert(arc_points(b, layout, id) is Some);
    lemma_arc_fits(b, layout, id);
    lemma_path_reverse(arc_points(b, layout, id)->0, p);
}

/// The arcs of a chained ring fold to the hit of the joined polyline.
proof fn lemma_path_of_arcs(b: Seq<u8>, layout: PayloadLayout, refs: Seq<nat>, p: Point, n: int)
    requires
        refs_ok(b, layout, refs),
        chained(b, layout, refs),
        1 <= n <= refs.len(),
    ensures
        ring_path(b, layout, refs, n).len() >= 1,
        ring_path(b, layout, refs, n)[0] == ref_arc(b, layout, refs[0])[0],
        ring_path(b, layout, refs, n).last() == ref_arc(b, layout, refs[n - 1]).last(),
        path_spec(ring_path(b, layout, refs, n), p) == merge_first(
            arc_hits(b, layout, refs, p),
            n,
        ),
    decreases n,
{
    let hits = arc_hits(b, layout, refs, p);
    lemma_ref_arc(b, layout, refs, n - 1, p);
    lemma_merge_step(hits, n);
    if n > 1 {
        lemma_path_of_arcs(b, layout, refs, p, n - 1);
        let head = ring_path(b, layout, refs, n - 1);
        let next = ref_arc(b, layout, refs[n - 1]);
        assert(head.last() == next[0]);
        lemma_path_join(head, next, p);
        let path = join(head, next);
        assert(path.last() == next.last()) by {
            if next.len() == 1 {
                assert(path =~= head);
            }
        }
    } else {
        assert(merge_first(hits, 0) == RingHit::Outside) by {
            reveal_with_fuel(odd_inside, 2);
        }
    }
}

/// Stitching a chained ring stores its joined polyline, without the first
/// vertex where that is already the last vertex stored.
pub proof fn lemma_stitch_chained(
    b: Seq<u8>,
    layout: PayloadLayout,
    refs: Seq<nat>,
    coords: Seq<Point>,
    n: int,
    p: Point,
)
    requires
        refs_ok(b, layout, refs),
        chained(b, layout, refs),
        1 <= n <= refs.len(),
    ensures
        ({
            let path = ring_path(b, layout, refs, n);
            stitch_refs(b, layout, refs, coords, n) == if coords.len() > 0 && coords.last()
                == path[0] {
                coords + path.skip(1)
            } else {
                coords + path
            }
        }),
    decreases n,
{
    lemma_path_of_arcs(b, layout, refs, p, n);
    let path = ring_path(b, layout, refs, n);
    let after = stitch_refs(b, layout, refs, coords, n);
    if n == 1 {
        reveal_with_fuel(stitch_refs, 2);
    } else {
        lemma_stitch_chained(b, layout, refs, coords, n - 1, p);
        lemma_path_of_arcs(b, layout, refs, p, n - 1);
        let head = ring_path(b, layout, refs, n - 1);
        let next = ref_arc(b, layout, refs[n - 1]);
        lemma_ref_arc(b, layout, refs, n - 1, p);
        assert(head.last() == next[0]);
        let prior = stitch_refs(b, layout, refs, coords, n - 1);
        if coords.len() > 0 && coords.last() == path[0] {
            assert(prior == coords + head.skip(1));
            assert(prior.last() == head.last()) by {
                if head.len() == 1 {
                    assert(prior =~= coords);
                }
            }
            assert(after =~= coords + path.skip(1));
        } else {
            assert(prior == coords + head);
            assert(after =~= coords + path);
        }
    }
}

/// A leading duplicate vertex adds nothing to the fold of a closed polyline.
proof fn lemma_leading_duplicate(path: Seq<Point>, p: Point)
    requires
        path.len() >= 3,
        path[0] == path[1],
    ensures
        path_spec(path.skip(1), p) == path_spec(path, p),
{
    let a = path[0];
    let pair = seq![a, a];
    let rest = path.skip(1);
    assert(join(pair, rest) =~= path);
    lemma_path_join(pair, rest, p);
    reveal_with_fuel(path_odd, 3);
    assert(crate::pip::cross(a, a, p) == 0) by (nonlinear_arith)
        requires
            crate::pip::cross(a, a, p) == (a.0 - a.0) * (p.1 - a.1) - (a.1 - a.1) * (p.0 - a.0),
    ;
    assert(!crosses(a, a, p));
    if path_on(pair, p, 2) {
        let i = choose|i: int| 1 <= i < 2 && #[trigger] on_segment(pair[i - 1], pair[i], p);
        assert(p == a);
        assert(rest[0] == a);
        let c = rest[1];
        assert(crate::pip::cross(a, c, a) == 0) by (nonlinear_arith)
            requires
                crate::pip::cross(a, c, a) == (c.0 - a.0) * (a.1 - a.1) - (c.1 - a.1) * (a.0 - a.0),
        ;
        assert(on_segment(rest[1 - 1], rest[1], p));
    }
}

/// The stitched ring of a closed ring gives the hit of its arcs.
pub proof fn lemma_ring_agrees(
    b: Seq<u8>,
    layout: PayloadLayout,
    refs: Seq<nat>,
    coords: Seq<Point>,
    p: Point,
)
    requires
        refs_ok(b, layout, refs),
        ring_closed(b, layout, refs),
    ensures
        ring_spec(stitch_ring(b, layout, refs, coords).skip(coords.len() as int), p) == merge(
            arc_hits(b, layout, refs, p),
        ),
{
    let n = refs.len() as int;
    let start = coords.len() as int;
    let hits = arc_hits(b, layout, refs, p);
    let ring = stitch_ring(b, layout, refs, coords).skip(start);
    if n == 0 {
        assert(ring =~= Seq::<Point>::empty());
        assert(merge(hits) == RingHit::Outside);
    } else {
        let path = ring_path(b, layout, refs, n);
        lemma_path_of_arcs(b, layout, refs, p, n);
        lemma_stitch_chained(b, layout, refs, coords, n, p);
        let open = stitch_refs(b, layout, refs, coords, n);
        assert(merge(hits) == merge_first(hits, n));
        let m = path.len() as int;
        if coords.len() > 0 && coords.last() == path[0] {
            let tail = path.skip(1);
            assert(open == coords + tail);
            if m == 1 {
                assert(ring =~= Seq::<Point>::empty());
                assert(path_spec(path, p) == RingHit::Outside) by {
                    reveal_with_fuel(path_odd, 2);
                }
            } else {
                assert(open.last() == path.last());
                assert(open[start] == path[1]);
                if path[0] == path[1] {
                    assert(ring =~= tail.drop_last());
                    lemma_leading_duplicate(path, p);
                    lemma_closed_path(tail, p);
                } else {
                    assert(ring =~= tail);
                    lemma_closed_path_rotated(path, p);
                }
            }
        } else {
            assert(open == coords + path);
            if m == 1 {
                assert(ring =~= path);
                assert(path_spec(path, p) == RingHit::Outside) by {
                    reveal_with_fuel(path_odd, 2);
                }
            } else {
                assert(open.last() == path.last());
                assert(open[start] == path[0]);
                assert(ring =~= path.drop_last());
                lemma_closed_path(path, p);
            }
        }
    }
}

/// The poly table of the decoded cache.
proof fn lemma_poly_table(b: Seq<u8>, layout: PayloadLayout, id: int)
    requires
        polys_ok(b, layout),
        0 <= id < layout.eager_polys,
    ensures
        ({
            let cache = decode_spec(b, layout, layout.eager_polys as int);
            let rings = poly_refs(b, layout, id)->0;
            &&& poly_begin(cache, id) == decode_spec(b, layout, id).ring_ends.len()
            &&& cache.polys[id].0 == poly_box(b, layout, id)
            &&& cache.polys[id].1 == poly_begin(cache, id) + rings.len()
        }),
{
    let total = layout.eager_polys as int;
    let cache = decode_spec(b, layout, total);
    let rings = poly_refs(b, layout, id)->0;
    let base = decode_spec(b, layout, id);
    let done = decode_spec(b, layout, id + 1);
    lemma_decode_ok(b, layout, id);
    lemma_polys_grow(b, layout, id, total);
    lemma_polys_grow(b, layout, id + 1, total);
    lemma_rings_grow(b, layout, rings, base, 0, rings.len() as int);
    assert(cache.polys.take(id + 1)[id] == done.polys[id]);
    if id > 0 {
        assert(cache.polys.take(id)[id - 1] == base.polys[id - 1]);
    }
}

/// What the first `k` rings of a poly stored stays in the decoded cache.
proof fn lemma_ring_prefix(b: Seq<u8>, layout: PayloadLayout, id: int, k: int)
    requires
        0 <= id < layout.eager_polys,
        0 <= k <= (poly_refs(b, layout, id)->0).len(),
    ensures
        ({
            let cache = decode_spec(b, layout, layout.eager_polys as int);
            let rings = poly_refs(b, layout, id)->0;
            let base = decode_spec(b, layout, id);
            let after = decode_rings_spec(b, layout, rings, base, k);
            &&& after.coords.len() <= cache.coords.len()
            &&& after.ring_ends.len() == base.ring_ends.len() + k
            &&& after.ring_ends.len() <= cache.ring_ends.len()
            &&& forall|i: int|
                0 <= i < after.coords.len() ==> cache.coords[i] == #[trigger] after.coords[i]
            &&& forall|i: int|
                0 <= i < after.ring_ends.len() ==> cache.ring_ends[i]
                    == #[trigger] after.ring_ends[i]
        }),
{
    let total = layout.eager_polys as int;
    let cache = decode_spec(b, layout, total);
    let rings = poly_refs(b, layout, id)->0;
    let n = rings.len() as int;
    let base = decode_spec(b, layout, id);
    let after = decode_rings_spec(b, layout, rings, base, k);
    let poly = decode_rings_spec(b, layout, rings, base, n);
    let done = decode_spec(b, layout, id + 1);
    lemma_polys_grow(b, layout, id + 1, total);
    lemma_rings_grow(b, layout, rings, base, k, n);
    lemma_rings_grow(b, layout, rings, base, 0, k);
    assert(done.coords == poly.coords && done.ring_ends == poly.ring_ends);
    assert forall|i: int| 0 <= i < after.coords.len() implies cache.coords[i]
        == #[trigger] after.coords[i] by {
        assert(cache.coords.take(done.coords.len() as int)[i] == done.coords[i]);
        assert(poly.coords.take(after.coords.len() as int)[i] == after.coords[i]);
    }
    assert forall|i: int| 0 <= i < after.ring_ends.len() implies cache.ring_ends[i]
        == #[trigger] after.ring_ends[i] by {
        assert(cache.ring_ends.take(done.ring_ends.len() as int)[i] == done.ring_ends[i]);
        assert(poly.ring_ends.take(after.ring_ends.len() as int)[i] == after.ring_ends[i]);
    }
}

/// Ring `k` of a poly occupies its own run of the decoded cache.
proof fn lemma_ring_run(b: Seq<u8>, layout: PayloadLayout, id: int, k: int)
    requires
        polys_ok(b, layout),
        0 <= id < layout.eager_polys,
        0 <= k < (poly_refs(b, layout, id)->0).len(),
    ensures
        ({
            let cache = decode_spec(b, layout, layout.eager_polys as int);
            let rings = poly_refs(b, layout, id)->0;
            let prior = decode_rings_spec(b, layout, rings, decode_spec(b, layout, id), k);
            cache_ring(cache.coords, cache.ring_ends, poly_begin(cache, id) + k) == stitch_ring(
                b,
                layout,
                rings[k],
                prior.coords,
            ).skip(prior.coords.len() as int)
        }),
{
    let cache = decode_spec(b, layout, layout.eager_polys as int);
    let rings = poly_refs(b, layout, id)->0;
    let base = decode_spec(b, layout, id);
    let prior = decode_rings_spec(b, layout, rings, base, k);
    let after = decode_rings_spec(b, layout, rings, base, k + 1);
    lemma_decode_ok(b, layout, id);
    lemma_poly_table(b, layout, id);
    lemma_ring_prefix(b, layout, id, k);
    lemma_ring_prefix(b, layout, id, k + 1);
    lemma_ring_grows(b, layout, rings[k], prior.coords);
    let r = poly_begin(cache, id) + k;
    let stitched = stitch_ring(b, layout, rings[k], prior.coords);
    assert(after.coords == stitched);
    assert(after.ring_ends[r] == stitched.len());
    let (lo, hi) = (prior.coords.len() as int, stitched.len() as int);
    assert(ring_begin(cache.ring_ends, r) == lo) by {
        if r == 0 {
            assert(prior == base);
        } else {
            assert(cache.ring_ends[r - 1] == prior.ring_ends[r - 1]);
            if k == 0 {
                assert(prior == base);
                assert(base.ring_ends.last() == base.coords.len());
            } else {
                assert(prior.ring_ends.last() == prior.coords.len());
            }
        }
    }
    assert(cache.coords.subrange(lo, hi) =~= stitched.skip(lo));
}

/// Preloading does not change answers: where a polygon's rings are stored
/// closed, the decoded cache claims exactly the points that folding the
/// polygon's arcs off the payload bytes claims.
pub proof fn lemma_eager_agrees(b: Seq<u8>, layout: PayloadLayout, id: int, p: Point)
    requires
        polys_ok(b, layout),
        0 <= id < layout.eager_polys,
        forall|i: int|
            0 <= i < (poly_refs(b, layout, id)->0).len() ==> ring_closed(
                b,
                layout,
                #[trigger] (poly_refs(b, layout, id)->0)[i],
            ),
    ensures
        cache_claims(
            decode_spec(b, layout, layout.eager_polys as int),
            layout.quant_bits == QuantBits::Bits16,
            id,
            p,
        ) == arc_poly_claims(b, layout, id, p),
{
    let cache = decode_spec(b, layout, layout.eager_polys as int);
    let rings = poly_refs(b, layout, id)->0;
    let n = rings.len() as int;
    assert(arc_poly_ok(b, layout, id));
    let base = decode_spec(b, layout, id);
    lemma_poly_table(b, layout, id);
    let begin = poly_begin(cache, id);
    let eager_hits = range_hits(cache.coords, cache.ring_ends, begin, begin + n, p);
    let lazy_hits = ring_hits(b, layout, rings, p);
    assert(eager_hits =~= lazy_hits) by {
        assert forall|k: int| 0 <= k < n implies eager_hits[k] == lazy_hits[k] by {
            lemma_ring_run(b, layout, id, k);
            let prior = decode_rings_spec(b, layout, rings, base, k);
            assert(refs_ok(b, layout, rings[k]));
            lemma_ring_agrees(b, layout, rings[k], prior.coords, p);
        }
    }
    if layout.quant_bits == QuantBits::Bits16 && in_box(poly_box(b, layout, id), p) {
        assert(vertex_fits(p, 2));
    }
}

} // verus!
