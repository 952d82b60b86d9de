//! Every geometry encoding stores the same polygons: what a polygon of a
//! written payload claims is what its source rings claim, whether it is read
//! off the arc store, decoded to the cache, or scanned in the full-rings
//! image.

use vstd::prelude::*;

use crate::agreement::{chained, lemma_ring_agrees, lemma_stitch_chained, ring_closed, ring_path};
use crate::clean::Vertex;
use crate::eager::{
    cache_claims, cache_ring, decode_rings_spec, decode_spec, poly_begin, range_hits, ref_arc,
    ring_begin, stitch_refs, stitch_ring, Cache,
};
use crate::format::PayloadLayout;
use crate::geometry::{
    arc_hits, arc_points, arc_poly_claims, in_box, merge, poly_box, poly_refs, refs_ok, ring_hits,
    vertex_fits,
};
use crate::common::QuantBits;
use crate::full_rings::full_cache;
use crate::encode::Params;
use crate::finder::Finder;
use crate::payload::{
    coord_size, geometry_of, payload_bytes, polys_verts, refs_verts, refusal, rings_verts, Source,
};
use crate::pip::{fold_hits, ring_spec, Point, RingHit};
use crate::readback::{
    arcs_laid_out, box_fits, box_of, image_cache, image_laid_out, lemma_accepted,
    lemma_payload_arcs_read_back, lemma_payload_image_reads_back, lemma_payload_polys_read_back,
    path_fits, point_of, points_of, ref_numbers, ring_numbers,
};
use crate::sections::{
    box_over, box_refs, box_rings, empty_box, flat_coords, flat_rings, grown, image_box,
    lemma_flat_rings, ring_ends, GridBox,
};
use crate::stitch::{append_spec, oriented, ring_of, stitched};

verus! {

/// The arc a reference walks, in its direction.
pub open spec fn walked(refs: Seq<u32>, arcs: Seq<Seq<Vertex>>, i: int) -> Seq<Vertex> {
    oriented(arcs[(refs[i] / 2) as int], refs[i] % 2 == 1)
}

/// Whether a ring's references name arcs that join to a closed ring: each arc
/// starts where the one before it ends, the last vertex repeats the first, and
/// the ring does not degenerate to a doubled segment.
pub open spec fn joins(refs: Seq<u32>, arcs: Seq<Seq<Vertex>>) -> bool {
    let path = stitched(refs, arcs, refs.len() as int);
    &&& forall|i: int| 0 <= i < refs.len() ==> (#[trigger] refs[i] / 2) < arcs.len()
    &&& forall|i: int|
        1 <= i < refs.len() ==> walked(refs, arcs, i - 1).last() == #[trigger] walked(
            refs,
            arcs,
            i,
        )[0]
    &&& refs.len() > 0 ==> path[0] == path.last() && (path.len() == 1 || (path.len() >= 4 && (
    path[0] == path[1] ==> path.len() >= 5)))
}

/// Whether every arc is non-empty and on the quantization grid.
pub open spec fn arcs_on_grid(arcs: Seq<Seq<Vertex>>, size: int) -> bool {
    forall|i: int| 0 <= i < arcs.len() ==> (#[trigger] arcs[i]).len() >= 1 && path_fits(arcs[i], size)
}

/// The hits of a polygon's rings.
pub open spec fn source_hits(rings: Seq<Seq<u32>>, arcs: Seq<Seq<Vertex>>, p: Point) -> Seq<
    RingHit,
> {
    Seq::new(rings.len(), |k: int| ring_spec(points_of(ring_of(rings[k], arcs)), p))
}

/// Whether a polygon, given by its rings' arcs, claims a point: the bounding
/// box gates, then the even-odd fold over its rings decides.
pub open spec fn source_claims(rings: Seq<Seq<u32>>, arcs: Seq<Seq<Vertex>>, p: Point) -> bool {
    in_box(box_of(image_box(rings, arcs)), p) && fold_hits(source_hits(rings, arcs, p))
}

/// Whether a box is the smallest that holds another and a set of vertices.
spec fn tight(b: GridBox, base: GridBox, s: Set<Vertex>) -> bool {
    &&& b.min_x <= base.min_x && b.min_y <= base.min_y
    &&& b.max_x >= base.max_x && b.max_y >= base.max_y
    &&& forall|v: Vertex| #[trigger]
        s.contains(v) ==> b.min_x <= v.0 <= b.max_x && b.min_y <= v.1 <= b.max_y
    &&& b.min_x == base.min_x || exists|v: Vertex| #[trigger] s.contains(v) && v.0 == b.min_x
    &&& b.min_y == base.min_y || exists|v: Vertex| #[trigger] s.contains(v) && v.1 == b.min_y
    &&& b.max_x == base.max_x || exists|v: Vertex| #[trigger] s.contains(v) && v.0 == b.max_x
    &&& b.max_y == base.max_y || exists|v: Vertex| #[trigger] s.contains(v) && v.1 == b.max_y
}

proof fn lemma_tight_unique(a: GridBox, b: GridBox, base: GridBox, s: Set<Vertex>)
    requires
        tight(a, base, s),
        tight(b, base, s),
        base == empty_box(),
    ensures
        a == b,
{
}

proof fn lemma_tight_joins(
    c: GridBox,
    b: GridBox,
    base: GridBox,
    s: Set<Vertex>,
    t: Set<Vertex>,
)
    requires
        tight(b, base, s),
        tight(c, b, t),
    ensures
        tight(c, base, s.union(t)),
{
    let u = s.union(t);
    assert forall|v: Vertex| s.contains(v) || t.contains(v) implies #[trigger] u.contains(v) by {}
    if c.min_x != base.min_x {
        if c.min_x == b.min_x {
            let v = choose|v: Vertex| #[trigger] s.contains(v) && v.0 == b.min_x;
            assert(u.contains(v));
        } else {
            let v = choose|v: Vertex| #[trigger] t.contains(v) && v.0 == c.min_x;
            assert(u.contains(v));
        }
    }
    if c.min_y != base.min_y {
        if c.min_y == b.min_y {
            let v = choose|v: Vertex| #[trigger] s.contains(v) && v.1 == b.min_y;
            assert(u.contains(v));
        } else {
            let v = choose|v: Vertex| #[trigger] t.contains(v) && v.1 == c.min_y;
            assert(u.contains(v));
        }
    }
    if c.max_x != base.max_x {
        if c.max_x == b.max_x {
            let v = choose|v: Vertex| #[trigger] s.contains(v) && v.0 == b.max_x;
            assert(u.contains(v));
        } else {
            let v = choose|v: Vertex| #[trigger] t.contains(v) && v.0 == c.max_x;
            assert(u.contains(v));
        }
    }
    if c.max_y != base.max_y {
        if c.max_y == b.max_y {
            let v = choose|v: Vertex| #[trigger] s.contains(v) && v.1 == b.max_y;
            assert(u.contains(v));
        } else {
            let v = choose|v: Vertex| #[trigger] t.contains(v) && v.1 == c.max_y;
            assert(u.contains(v));
        }
    }
}

/// The vertices of a path.
spec fn vertices(path: Seq<Vertex>) -> Set<Vertex> {
    Set::new(|v: Vertex| path.contains(v))
}

proof fn lemma_box_over_tight(base: GridBox, path: Seq<Vertex>, n: int)
    requires
        0 <= n <= path.len(),
    ensures
        tight(box_over(base, path, n), base, vertices(path.take(n))),
    decreases n,
{
    if n > 0 {
        lemma_box_over_tight(base, path, n - 1);
        let b = box_over(base, path, n - 1);
        let v = path[n - 1];
        let one = Set::new(|w: Vertex| w == v);
        assert(tight(grown(b, v), b, one)) by {
            assert(one.contains(v));
        }
        lemma_tight_joins(grown(b, v), b, base, vertices(path.take(n - 1)), one);
        let (head, whole) = (path.take(n - 1), path.take(n));
        let a = vertices(head).union(one);
        let c = vertices(whole);
        assert forall|w: Vertex| a.contains(w) == c.contains(w) by {
            if whole.contains(w) {
                let i = choose|i: int| 0 <= i < whole.len() && whole[i] == w;
                if i < n - 1 {
                    assert(head[i] == w);
                }
            }
            if head.contains(w) {
                let i = choose|i: int| 0 <= i < head.len() && head[i] == w;
                assert(whole[i] == w);
            }
            if w == v {
                assert(whole[n - 1] == w);
            }
        }
        assert(a =~= c);
    }
}

/// The vertices of a ring's first `n` arcs.
spec fn ref_vertices(refs: Seq<u32>, arcs: Seq<Seq<Vertex>>, n: int) -> Set<Vertex>
    decreases n,
{
    if n <= 0 {
        Set::empty()
    } else {
        ref_vertices(refs, arcs, n - 1).union(vertices(arcs[(refs[n - 1] / 2) as int]))
    }
}

proof fn lemma_box_refs_tight(
    base: GridBox,
    refs: Seq<u32>,
    arcs: Seq<Seq<Vertex>>,
    n: int,
)
    requires
        0 <= n <= refs.len(),
    ensures
        tight(box_refs(base, refs, arcs, n), base, ref_vertices(refs, arcs, n)),
    decreases n,
{
    if n > 0 {
        lemma_box_refs_tight(base, refs, arcs, n - 1);
        let b = box_refs(base, refs, arcs, n - 1);
        let arc = arcs[(refs[n - 1] / 2) as int];
        lemma_box_over_tight(b, arc, arc.len() as int);
        assert(arc.take(arc.len() as int) =~= arc);
        lemma_tight_joins(
            box_over(b, arc, arc.len() as int),
            b,
            base,
            ref_vertices(refs, arcs, n - 1),
            vertices(arc),
        );
    }
}

/// The vertices of a polygon's first `n` rings.
spec fn ring_vertices(rings: Seq<Seq<u32>>, arcs: Seq<Seq<Vertex>>, n: int) -> Set<Vertex>
    decreases n,
{
    if n <= 0 {
        Set::empty()
    } else {
        ring_vertices(rings, arcs, n - 1).union(
            ref_vertices(rings[n - 1], arcs, rings[n - 1].len() as int),
        )
    }
}

proof fn lemma_box_rings_tight(rings: Seq<Seq<u32>>, arcs: Seq<Seq<Vertex>>, n: int)
    requires
        0 <= n <= rings.len(),
    ensures
        tight(box_rings(rings, arcs, n), empty_box(), ring_vertices(rings, arcs, n)),
    decreases n,
{
    if n > 0 {
        lemma_box_rings_tight(rings, arcs, n - 1);
        let b = box_rings(rings, arcs, n - 1);
        let refs = rings[n - 1];
        lemma_box_refs_tight(b, refs, arcs, refs.len() as int);
        lemma_tight_joins(
            box_refs(b, refs, arcs, refs.len() as int),
            b,
            empty_box(),
            ring_vertices(rings, arcs, n - 1),
            ref_vertices(refs, arcs, refs.len() as int),
        );
    }
}

/// Appending an arc appends its vertices, whichever way it is walked.
proof fn lemma_append_vertices(coords: Seq<Vertex>, arc: Seq<Vertex>, reversed: bool)
    ensures
        vertices(append_spec(coords, oriented(arc, reversed))) == vertices(coords).union(
            vertices(arc),
        ),
{
    let o = oriented(arc, reversed);
    let out = append_spec(coords, o);
    let a = vertices(out);
    let c = vertices(coords).union(vertices(arc));
    assert forall|v: Vertex| a.contains(v) == c.contains(v) by {
        if out.contains(v) {
            let i = choose|i: int| 0 <= i < out.len() && out[i] == v;
            if i < coords.len() {
                assert(coords[i] == v);
            } else {
                let j = if coords.len() > 0 && o.len() > 0 && coords.last() == o[0] {
                    i - coords.len() + 1
                } else {
                    i - coords.len()
                };
                assert(o[j] == v);
                if reversed {
                    assert(arc[arc.len() - 1 - j] == v);
                } else {
                    assert(arc[j] == v);
                }
            }
        }
        if coords.contains(v) {
            let i = choose|i: int| 0 <= i < coords.len() && coords[i] == v;
            assert(out[i] == v);
        }
        if arc.contains(v) {
            let k = choose|k: int| 0 <= k < arc.len() && arc[k] == v;
            let j = if reversed { arc.len() - 1 - k } else { k };
            assert(o[j] == v);
            if coords.len() > 0 && o.len() > 0 && coords.last() == o[0] {
                assert(out[coords.len() - 1 + j] == v);
            } else {
                assert(out[coords.len() + j] == v);
            }
        }
    }
    assert(a =~= c);
}

proof fn lemma_stitched_vertices(refs: Seq<u32>, arcs: Seq<Seq<Vertex>>, n: int)
    requires
        0 <= n <= refs.len(),
    ensures
        vertices(stitched(refs, arcs, n)) == ref_vertices(refs, arcs, n),
    decreases n,
{
    if n > 0 {
        lemma_stitched_vertices(refs, arcs, n - 1);
        lemma_append_vertices(
            stitched(refs, arcs, n - 1),
            arcs[(refs[n - 1] / 2) as int],
            refs[n - 1] % 2 == 1,
        );
    } else {
        assert(vertices(stitched(refs, arcs, n)) =~= Set::<Vertex>::empty());
    }
}

/// A ring has exactly the vertices of its arcs.
proof fn lemma_ring_of_vertices(refs: Seq<u32>, arcs: Seq<Seq<Vertex>>)
    ensures
        vertices(ring_of(refs, arcs)) == ref_vertices(refs, arcs, refs.len() as int),
{
    let n = refs.len() as int;
    lemma_stitched_vertices(refs, arcs, n);
    let open = stitched(refs, arcs, n);
    let ring = ring_of(refs, arcs);
    let a = vertices(open);
    let c = vertices(ring);
    assert forall|v: Vertex| a.contains(v) == c.contains(v) by {
        if open.contains(v) {
            let i = choose|i: int| 0 <= i < open.len() && open[i] == v;
            if i < ring.len() {
                assert(ring[i] == v);
            } else {
                assert(ring[0] == v);
            }
        }
        if ring.contains(v) {
            let i = choose|i: int| 0 <= i < ring.len() && ring[i] == v;
            assert(open[i] == v);
        }
    }
    assert(a =~= c);
}

proof fn lemma_flat_vertices(rings: Seq<Seq<u32>>, arcs: Seq<Seq<Vertex>>, n: int)
    requires
        0 <= n <= rings.len(),
    ensures
        vertices(flat_coords(rings, arcs, n)) == ring_vertices(rings, arcs, n),
    decreases n,
{
    if n > 0 {
        lemma_flat_vertices(rings, arcs, n - 1);
        let head = flat_coords(rings, arcs, n - 1);
        let ring = ring_of(rings[n - 1], arcs);
        lemma_ring_of_vertices(rings[n - 1], arcs);
        let a = vertices(head + ring);
        let c = vertices(head).union(vertices(ring));
        assert forall|v: Vertex| a.contains(v) == c.contains(v) by {
            if (head + ring).contains(v) {
                let i = choose|i: int| 0 <= i < (head + ring).len() && (head + ring)[i] == v;
                if i < head.len() {
                    assert(head[i] == v);
                } else {
                    assert(ring[i - head.len()] == v);
                }
            }
            if head.contains(v) {
                let i = choose|i: int| 0 <= i < head.len() && head[i] == v;
                assert((head + ring)[i] == v);
            }
            if ring.contains(v) {
                let i = choose|i: int| 0 <= i < ring.len() && ring[i] == v;
                assert((head + ring)[head.len() + i] == v);
            }
        }
        assert(a =~= c);
    } else {
        assert(vertices(flat_coords(rings, arcs, n)) =~= Set::<Vertex>::empty());
    }
}

/// The box over a polygon's arcs is the box over its stitched rings.
pub proof fn lemma_boxes_agree(rings: Seq<Seq<u32>>, arcs: Seq<Seq<Vertex>>)
    ensures
        box_rings(rings, arcs, rings.len() as int) == image_box(rings, arcs),
{
    let n = rings.len() as int;
    let coords = flat_coords(rings, arcs, n);
    lemma_box_rings_tight(rings, arcs, n);
    lemma_flat_vertices(rings, arcs, n);
    lemma_box_over_tight(empty_box(), coords, coords.len() as int);
    assert(coords.take(coords.len() as int) =~= coords);
    lemma_tight_unique(
        box_rings(rings, arcs, n),
        image_box(rings, arcs),
        empty_box(),
        vertices(coords),
    );
}

/// Orientation and points commute.
proof fn lemma_oriented_points(arc: Seq<Vertex>, reversed: bool)
    ensures
        points_of(oriented(arc, reversed)) == oriented(points_of(arc), reversed),
{
    assert(points_of(oriented(arc, reversed)) =~= oriented(points_of(arc), reversed));
}

/// Appending and points commute: distinct vertices are distinct points.
proof fn lemma_append_points(coords: Seq<Vertex>, arc: Seq<Vertex>)
    ensures
        points_of(append_spec(coords, arc)) == append_spec(points_of(coords), points_of(arc)),
{
    if coords.len() > 0 && arc.len() > 0 {
        let (v, w) = (coords.last(), arc[0]);
        assert(points_of(coords).last() == point_of(v));
        assert(points_of(arc)[0] == point_of(w));
        assert(point_of(v) == point_of(w) ==> v == w);
    }
    assert(points_of(append_spec(coords, arc)) =~= append_spec(points_of(coords), points_of(arc)));
}

/// Whether the arcs of a payload read back as the source's.
pub open spec fn reads_back(b: Seq<u8>, layout: PayloadLayout, arcs: Seq<Seq<Vertex>>) -> bool {
    forall|id: int|
        0 <= id < arcs.len() ==> #[trigger] arc_points(b, layout, id) == Some(points_of(arcs[id]))
}

proof fn lemma_ref_arc_reads(
    b: Seq<u8>,
    layout: PayloadLayout,
    refs: Seq<u32>,
    arcs: Seq<Seq<Vertex>>,
    i: int,
)
    requires
        reads_back(b, layout, arcs),
        0 <= i < refs.len(),
        refs[i] / 2 < arcs.len(),
    ensures
        ref_arc(b, layout, ref_numbers(refs)[i]) == points_of(walked(refs, arcs, i)),
{
    let id = (refs[i] / 2) as int;
    assert(ref_numbers(refs)[i] / 2 == id);
    assert(arc_points(b, layout, id) == Some(points_of(arcs[id])));
    lemma_oriented_points(arcs[id], refs[i] % 2 == 1);
}

proof fn lemma_stitch_reads(
    b: Seq<u8>,
    layout: PayloadLayout,
    refs: Seq<u32>,
    arcs: Seq<Seq<Vertex>>,
    n: int,
)
    requires
        reads_back(b, layout, arcs),
        0 <= n <= refs.len(),
        forall|i: int| 0 <= i < refs.len() ==> (#[trigger] refs[i] / 2) < arcs.len(),
    ensures
        stitch_refs(b, layout, ref_numbers(refs), Seq::empty(), n) == points_of(
            stitched(refs, arcs, n),
        ),
    decreases n,
{
    if n > 0 {
        lemma_stitch_reads(b, layout, refs, arcs, n - 1);
        lemma_ref_arc_reads(b, layout, refs, arcs, n - 1);
        lemma_append_points(stitched(refs, arcs, n - 1), walked(refs, arcs, n - 1));
    } else {
        assert(points_of(stitched(refs, arcs, n)) =~= Seq::<Point>::empty());
    }
}

/// A ring read back bounds what its source ring bounds.
proof fn lemma_ring_reads(
    b: Seq<u8>,
    layout: PayloadLayout,
    refs: Seq<u32>,
    arcs: Seq<Seq<Vertex>>,
    p: Point,
)
    requires
        reads_back(b, layout, arcs),
        joins(refs, arcs),
        forall|i: int| 0 <= i < arcs.len() ==> (#[trigger] arcs[i]).len() >= 1,
    ensures
        refs_ok(b, layout, ref_numbers(refs)),
        merge(arc_hits(b, layout, ref_numbers(refs), p)) == ring_spec(
            points_of(ring_of(refs, arcs)),
            p,
        ),
{
    let nums = ref_numbers(refs);
    let n = refs.len() as int;
    assert forall|i: int| 0 <= i < nums.len() implies arc_points(
        b,
        layout,
        (#[trigger] nums[i] / 2) as int,
    ) is Some by {
        assert(refs[i] / 2 < arcs.len());
    }
    lemma_stitch_reads(b, layout, refs, arcs, n);
    let path = stitched(refs, arcs, n);
    let none = Seq::<Point>::empty();
    assert(chained(b, layout, nums)) by {
        assert forall|i: int| 1 <= i < nums.len() implies ref_arc(b, layout, nums[i - 1]).last()
            == #[trigger] ref_arc(b, layout, nums[i])[0] by {
            assert(refs[i] / 2 < arcs.len() && refs[i - 1] / 2 < arcs.len());
            lemma_ref_arc_reads(b, layout, refs, arcs, i - 1);
            lemma_ref_arc_reads(b, layout, refs, arcs, i);
            assert(walked(refs, arcs, i - 1).last() == walked(refs, arcs, i)[0]);
            assert(walked(refs, arcs, i - 1).len() == arcs[(refs[i - 1] / 2) as int].len());
            assert(walked(refs, arcs, i).len() == arcs[(refs[i] / 2) as int].len());
        }
    }
    if n > 0 {
        lemma_stitch_chained(b, layout, nums, none, n, p);
        let whole = ring_path(b, layout, nums, n);
        assert(none + whole =~= whole);
        assert(whole == points_of(path));
    }
    assert(ring_closed(b, layout, nums));
    lemma_ring_agrees(b, layout, nums, none, p);
    let open = stitch_refs(b, layout, nums, none, n);
    assert(stitch_ring(b, layout, nums, none).skip(0) =~= points_of(ring_of(refs, arcs))) by {
        assert(open == points_of(path));
        if path.len() > 1 {
            assert(point_of(path.last()) == point_of(path[0]) ==> path.last() == path[0]);
        }
    }
}

/// A polygon whose arcs and references read back claims what its source rings
/// claim.
pub proof fn lemma_read_poly_claims(
    b: Seq<u8>,
    layout: PayloadLayout,
    rings: Seq<Seq<u32>>,
    arcs: Seq<Seq<Vertex>>,
    id: int,
    pt: Point,
)
    requires
        reads_back(b, layout, arcs),
        forall|i: int| 0 <= i < arcs.len() ==> (#[trigger] arcs[i]).len() >= 1,
        forall|k: int| 0 <= k < rings.len() ==> joins(#[trigger] rings[k], arcs),
        poly_refs(b, layout, id) == Some(ring_numbers(rings)),
        poly_box(b, layout, id) == box_of(box_rings(rings, arcs, rings.len() as int)),
    ensures
        arc_poly_claims(b, layout, id, pt) == source_claims(rings, arcs, pt),
{
    lemma_boxes_agree(rings, arcs);
    let read = ring_hits(b, layout, ring_numbers(rings), pt);
    let want = source_hits(rings, arcs, pt);
    assert forall|k: int| 0 <= k < rings.len() implies read[k] == want[k] by {
        assert(joins(rings[k], arcs));
        lemma_ring_reads(b, layout, rings[k], arcs, pt);
        assert(ring_numbers(rings)[k] == ref_numbers(rings[k]));
    }
    assert(read =~= want);
}

/// What a polygon of an arc-store payload claims is what its source rings
/// claim, delta-coded or at fixed width.
pub proof fn lemma_arcs_claim_the_source(
    p: Params,
    src: Source,
    layout: PayloadLayout,
    id: int,
    pt: Point,
)
    requires
        refusal(p, src) is None,
        arcs_laid_out(layout, p, src),
        src.parent.len() == src.polys.len(),
        0 <= id < src.polys.len(),
        arcs_on_grid(src.arcs, coord_size(p.quant_bits) as int),
        forall|k: int|
            0 <= k < src.polys[id].len() ==> joins(#[trigger] src.polys[id][k], src.arcs),
        box_fits(image_box(src.polys[id], src.arcs), coord_size(p.quant_bits) as int),
    ensures
        arc_poly_claims(payload_bytes(p, src), layout, id, pt) == source_claims(
            src.polys[id],
            src.arcs,
            pt,
        ),
{
    let b = payload_bytes(p, src);
    let rings = src.polys[id];
    lemma_boxes_agree(rings, src.arcs);
    lemma_payload_polys_read_back(p, src, layout, id);
    assert(reads_back(b, layout, src.arcs)) by {
        assert forall|i: int| 0 <= i < src.arcs.len() implies #[trigger] arc_points(b, layout, i)
            == Some(points_of(src.arcs[i])) by {
            assert(src.arcs[i].len() >= 1);
            lemma_payload_arcs_read_back(p, src, layout, i);
        }
    }
    lemma_read_poly_claims(b, layout, rings, src.arcs, id, pt);
}

proof fn lemma_flat_run(rings: Seq<Seq<u32>>, arcs: Seq<Seq<Vertex>>, r: int, n: int)
    requires
        0 <= r < n <= rings.len(),
    ensures
        flat_coords(rings, arcs, r + 1).len() <= flat_coords(rings, arcs, n).len(),
        flat_coords(rings, arcs, n).subrange(
            flat_coords(rings, arcs, r).len() as int,
            flat_coords(rings, arcs, r + 1).len() as int,
        ) == ring_of(rings[r], arcs),
    decreases n,
{
    let from = flat_coords(rings, arcs, r).len() as int;
    let to = flat_coords(rings, arcs, r + 1).len() as int;
    let whole = flat_coords(rings, arcs, n);
    if r == n - 1 {
        assert(whole.subrange(from, to) =~= ring_of(rings[r], arcs));
    } else {
        lemma_flat_run(rings, arcs, r, n - 1);
        let head = flat_coords(rings, arcs, n - 1);
        assert(whole.subrange(from, to) =~= head.subrange(from, to));
    }
}

/// What a polygon of the full-rings image claims is what its source rings
/// claim.
pub proof fn lemma_image_claims(
    polys: Seq<Seq<Seq<u32>>>,
    arcs: Seq<Seq<Vertex>>,
    narrow: bool,
    id: int,
    pt: Point,
)
    requires
        0 <= id < polys.len(),
        narrow ==> box_fits(image_box(polys[id], arcs), 2),
    ensures
        cache_claims(image_cache(polys, arcs), narrow, id, pt) == source_claims(
            polys[id],
            arcs,
            pt,
        ),
{
    let cache = image_cache(polys, arcs);
    let flat = flat_rings(polys, polys.len() as int);
    let coords = flat_coords(flat, arcs, flat.len() as int);
    let begin = flat_rings(polys, id).len() as int;
    let rings = polys[id];
    lemma_flat_rings(polys, id, polys.len() as int);
    lemma_flat_rings(polys, id + 1, polys.len() as int);
    assert(poly_begin(cache, id) == begin) by {
        if id == 0 {
            assert(flat_rings(polys, 0).len() == 0);
        } else {
            assert(cache.polys[id - 1].1 == flat_rings(polys, id).len());
        }
    }
    assert(cache.polys[id].1 == begin + rings.len());
    let read = range_hits(cache.coords, cache.ring_ends, begin, begin + rings.len(), pt);
    let want = source_hits(rings, arcs, pt);
    assert forall|k: int| 0 <= k < rings.len() implies read[k] == want[k] by {
        let r = begin + k;
        assert(flat[r] == flat_rings(polys, id + 1)[r]);
        assert(flat[r] == rings[k]);
        lemma_flat_run(flat, arcs, r, flat.len() as int);
        let from = flat_coords(flat, arcs, r).len() as int;
        let to = flat_coords(flat, arcs, r + 1).len() as int;
        assert(ring_begin(cache.ring_ends, r) == from) by {
            if r == 0 {
                assert(flat_coords(flat, arcs, 0).len() == 0);
            }
        }
        assert(cache.ring_ends[r] == to);
        assert(cache_ring(cache.coords, cache.ring_ends, r) =~= points_of(
            coords.subrange(from, to),
        ));
    }
    assert(read =~= want);
    if narrow && in_box(cache.polys[id].0, pt) {
        assert(vertex_fits(pt, 2));
    }
}

/// What a polygon of a full-rings payload claims is what its source rings
/// claim.
pub proof fn lemma_full_rings_claim_the_source(
    p: Params,
    src: Source,
    layout: PayloadLayout,
    id: int,
    pt: Point,
)
    requires
        refusal(p, src) is None,
        image_laid_out(layout, p, src),
        0 <= id < src.polys.len(),
        path_fits(
            flat_coords(
                flat_rings(src.polys, src.polys.len() as int),
                src.arcs,
                flat_rings(src.polys, src.polys.len() as int).len() as int,
            ),
            coord_size(p.quant_bits) as int,
        ),
        box_fits(image_box(src.polys[id], src.arcs), coord_size(p.quant_bits) as int),
    ensures
        cache_claims(
            full_cache(payload_bytes(p, src), layout),
            layout.quant_bits == QuantBits::Bits16,
            id,
            pt,
        ) == source_claims(src.polys[id], src.arcs, pt),
{
    lemma_accepted(p, src);
    lemma_payload_image_reads_back(p, src, layout);
    lemma_image_claims(src.polys, src.arcs, layout.quant_bits == QuantBits::Bits16, id, pt);
}

/// The geometry encodings answer alike: of one source at one quantization
/// width, a polygon claims the same points from the arc store as from the
/// full-rings image.
pub proof fn lemma_encodings_agree(
    arcs: Params,
    full: Params,
    src: Source,
    arcs_layout: PayloadLayout,
    full_layout: PayloadLayout,
    id: int,
    pt: Point,
)
    requires
        arcs.quant_bits == full.quant_bits,
        refusal(arcs, src) is None,
        refusal(full, src) is None,
        arcs_laid_out(arcs_layout, arcs, src),
        image_laid_out(full_layout, full, src),
        src.parent.len() == src.polys.len(),
        0 <= id < src.polys.len(),
        arcs_on_grid(src.arcs, coord_size(arcs.quant_bits) as int),
        forall|i: int, k: int|
            0 <= i < src.polys.len() && 0 <= k < src.polys[i].len() ==> joins(
                #[trigger] src.polys[i][k],
                src.arcs,
            ),
        box_fits(image_box(src.polys[id], src.arcs), coord_size(arcs.quant_bits) as int),
    ensures
        arc_poly_claims(payload_bytes(arcs, src), arcs_layout, id, pt) == cache_claims(
            full_cache(payload_bytes(full, src), full_layout),
            full_layout.quant_bits == QuantBits::Bits16,
            id,
            pt,
        ),
{
    lemma_arcs_claim_the_source(arcs, src, arcs_layout, id, pt);
    lemma_flat_fits(src.polys, src.arcs, coord_size(arcs.quant_bits) as int);
    lemma_full_rings_claim_the_source(full, src, full_layout, id, pt);
}

/// Rings of arcs on the grid stay on it.
pub proof fn lemma_flat_fits(polys: Seq<Seq<Seq<u32>>>, arcs: Seq<Seq<Vertex>>, size: int)
    requires
        arcs_on_grid(arcs, size),
        forall|i: int, k: int|
            0 <= i < polys.len() && 0 <= k < polys[i].len() ==> joins(#[trigger] polys[i][k], arcs),
    ensures
        ({
            let flat = flat_rings(polys, polys.len() as int);
            path_fits(flat_coords(flat, arcs, flat.len() as int), size)
        }),
{
    let flat = flat_rings(polys, polys.len() as int);
    let coords = flat_coords(flat, arcs, flat.len() as int);
    lemma_flat_vertices(flat, arcs, flat.len() as int);
    lemma_flat_joins(polys, arcs, polys.len() as int);
    assert forall|i: int| 0 <= i < coords.len() implies vertex_fits(
        point_of(#[trigger] coords[i]),
        size,
    ) by {
        assert(vertices(coords).contains(coords[i]));
        lemma_ring_vertices_fit(flat, arcs, size, flat.len() as int, coords[i]);
    }
}

proof fn lemma_flat_joins(polys: Seq<Seq<Seq<u32>>>, arcs: Seq<Seq<Vertex>>, n: int)
    requires
        0 <= n <= polys.len(),
        forall|i: int, k: int|
            0 <= i < polys.len() && 0 <= k < polys[i].len() ==> joins(#[trigger] polys[i][k], arcs),
    ensures
        forall|r: int|
            0 <= r < flat_rings(polys, n).len() ==> joins(#[trigger] flat_rings(polys, n)[r], arcs),
    decreases n,
{
    if n > 0 {
        lemma_flat_joins(polys, arcs, n - 1);
        let head = flat_rings(polys, n - 1);
        assert forall|r: int| 0 <= r < flat_rings(polys, n).len() implies joins(
            #[trigger] flat_rings(polys, n)[r],
            arcs,
        ) by {
            if r < head.len() {
                assert(flat_rings(polys, n)[r] == head[r]);
            } else {
                assert(flat_rings(polys, n)[r] == polys[n - 1][r - head.len()]);
            }
        }
    }
}

proof fn lemma_ring_vertices_fit(
    rings: Seq<Seq<u32>>,
    arcs: Seq<Seq<Vertex>>,
    size: int,
    n: int,
    v: Vertex,
)
    requires
        0 <= n <= rings.len(),
        arcs_on_grid(arcs, size),
        forall|r: int| 0 <= r < rings.len() ==> joins(#[trigger] rings[r], arcs),
        ring_vertices(rings, arcs, n).contains(v),
    ensures
        vertex_fits(point_of(v), size),
    decreases n,
{
    if n > 0 {
        if ring_vertices(rings, arcs, n - 1).contains(v) {
            lemma_ring_vertices_fit(rings, arcs, size, n - 1, v);
        } else {
            assert(joins(rings[n - 1], arcs));
            lemma_ref_vertices_fit(rings[n - 1], arcs, size, rings[n - 1].len() as int, v);
        }
    }
}

proof fn lemma_ref_vertices_fit(
    refs: Seq<u32>,
    arcs: Seq<Seq<Vertex>>,
    size: int,
    n: int,
    v: Vertex,
)
    requires
        0 <= n <= refs.len(),
        arcs_on_grid(arcs, size),
        joins(refs, arcs),
        ref_vertices(refs, arcs, n).contains(v),
    ensures
        vertex_fits(point_of(v), size),
    decreases n,
{
    if n > 0 {
        if ref_vertices(refs, arcs, n - 1).contains(v) {
            lemma_ref_vertices_fit(refs, arcs, size, n - 1, v);
        } else {
            assert(refs[n - 1] / 2 < arcs.len());
            let arc = arcs[(refs[n - 1] / 2) as int];
            let j = choose|j: int| 0 <= j < arc.len() && arc[j] == v;
            assert(path_fits(arc, size));
            assert(vertex_fits(point_of(arc[j]), size));
        }
    }
}

proof fn lemma_stitch_count(
    b: Seq<u8>,
    layout: PayloadLayout,
    refs: Seq<u32>,
    arcs: Seq<Seq<Vertex>>,
    coords: Seq<Point>,
    n: int,
)
    requires
        reads_back(b, layout, arcs),
        0 <= n <= refs.len(),
        forall|i: int| 0 <= i < refs.len() ==> (#[trigger] refs[i] / 2) < arcs.len(),
    ensures
        stitch_refs(b, layout, ref_numbers(refs), coords, n).len() <= coords.len() + refs_verts(
            refs,
            arcs,
            n,
        ),
    decreases n,
{
    if n > 0 {
        lemma_stitch_count(b, layout, refs, arcs, coords, n - 1);
        lemma_ref_arc_reads(b, layout, refs, arcs, n - 1);
    }
}

proof fn lemma_rings_count(
    b: Seq<u8>,
    layout: PayloadLayout,
    rings: Seq<Seq<u32>>,
    arcs: Seq<Seq<Vertex>>,
    cache: Cache,
    n: int,
)
    requires
        reads_back(b, layout, arcs),
        0 <= n <= rings.len(),
        forall|k: int, i: int|
            0 <= k < rings.len() && 0 <= i < rings[k].len() ==> (#[trigger] rings[k][i] / 2)
                < arcs.len(),
    ensures
        ({
            let after = decode_rings_spec(b, layout, ring_numbers(rings), cache, n);
            &&& after.ring_ends.len() == cache.ring_ends.len() + n
            &&& after.coords.len() <= cache.coords.len() + rings_verts(rings, arcs, n)
            &&& after.polys == cache.polys
        }),
    decreases n,
{
    if n > 0 {
        lemma_rings_count(b, layout, rings, arcs, cache, n - 1);
        let prior = decode_rings_spec(b, layout, ring_numbers(rings), cache, n - 1);
        let refs = rings[n - 1];
        assert(ring_numbers(rings)[n - 1] == ref_numbers(refs));
        assert forall|i: int| 0 <= i < refs.len() implies (#[trigger] refs[i] / 2) < arcs.len() by {
            assert(rings[n - 1][i] / 2 < arcs.len());
        }
        lemma_stitch_count(b, layout, refs, arcs, prior.coords, refs.len() as int);
    }
}

proof fn lemma_polys_count(
    b: Seq<u8>,
    layout: PayloadLayout,
    polys: Seq<Seq<Seq<u32>>>,
    arcs: Seq<Seq<Vertex>>,
    n: int,
)
    requires
        reads_back(b, layout, arcs),
        0 <= n <= polys.len(),
        refs_name_arcs(polys, arcs),
        forall|id: int|
            0 <= id < polys.len() ==> #[trigger] poly_refs(b, layout, id) == Some(
                ring_numbers(polys[id]),
            ),
    ensures
        ({
            let cache = decode_spec(b, layout, n);
            &&& cache.polys.len() == n
            &&& cache.ring_ends.len() == flat_rings(polys, n).len()
            &&& cache.coords.len() <= polys_verts(polys, arcs, n)
        }),
    decreases n,
{
    if n > 0 {
        lemma_polys_count(b, layout, polys, arcs, n - 1);
        let prior = decode_spec(b, layout, n - 1);
        let rings = polys[n - 1];
        assert(poly_refs(b, layout, n - 1) == Some(ring_numbers(rings)));
        assert forall|k: int, i: int| 0 <= k < rings.len() && 0 <= i < rings[k].len() implies (
        #[trigger] rings[k][i] / 2) < arcs.len() by {
            assert(polys[n - 1][k][i] / 2 < arcs.len());
        }
        lemma_rings_count(b, layout, rings, arcs, prior, rings.len() as int);
    }
}

/// Whether every reference of every polygon names an arc.
pub open spec fn refs_name_arcs(polys: Seq<Seq<Seq<u32>>>, arcs: Seq<Seq<Vertex>>) -> bool {
    forall|id: int, k: int, i: int|
        0 <= id < polys.len() && 0 <= k < polys[id].len() && 0 <= i < polys[id][k].len() ==> (
        #[trigger] polys[id][k][i] / 2) < arcs.len()
}

/// The counts that an arc-store payload carries are what its geometry decodes
/// to: so many polygons, so many rings, and no more vertices. So what a preload
/// reserves by them holds the whole cache.
pub proof fn lemma_preload_fits_its_counts(p: Params, src: Source, layout: PayloadLayout)
    requires
        refusal(p, src) is None,
        arcs_laid_out(layout, p, src),
        layout.eager_coords == geometry_of(p, src).eager_coords,
        layout.eager_rings == geometry_of(p, src).eager_rings,
        src.parent.len() == src.polys.len(),
        arcs_on_grid(src.arcs, coord_size(p.quant_bits) as int),
        refs_name_arcs(src.polys, src.arcs),
        forall|id: int|
            0 <= id < src.polys.len() ==> box_fits(
                image_box(#[trigger] src.polys[id], src.arcs),
                coord_size(p.quant_bits) as int,
            ),
    ensures
        ({
            let cache = decode_spec(payload_bytes(p, src), layout, layout.eager_polys as int);
            let width = if layout.quant_bits == QuantBits::Bits16 {
                4int
            } else {
                8
            };
            &&& cache.polys.len() == layout.eager_polys
            &&& cache.ring_ends.len() == layout.eager_rings
            &&& cache.coords.len() <= layout.eager_coords
            &&& cache.coords.len() * width + cache.ring_ends.len() * 4 + cache.polys.len() * 20
                <= Finder::preload_size(layout)
        }),
{
    let b = payload_bytes(p, src);
    assert(reads_back(b, layout, src.arcs)) by {
        assert forall|i: int| 0 <= i < src.arcs.len() implies #[trigger] arc_points(b, layout, i)
            == Some(points_of(src.arcs[i])) by {
            assert(src.arcs[i].len() >= 1);
            lemma_payload_arcs_read_back(p, src, layout, i);
        }
    }
    assert forall|id: int| 0 <= id < src.polys.len() implies #[trigger] poly_refs(b, layout, id)
        == Some(ring_numbers(src.polys[id])) by {
        assert(box_fits(image_box(src.polys[id], src.arcs), coord_size(p.quant_bits) as int));
        lemma_boxes_agree(src.polys[id], src.arcs);
        lemma_payload_polys_read_back(p, src, layout, id);
    }
    lemma_polys_count(b, layout, src.polys, src.arcs, src.polys.len() as int);
    let cache = decode_spec(b, layout, src.polys.len() as int);
    let width = if layout.quant_bits == QuantBits::Bits16 {
        4int
    } else {
        8
    };
    assert(cache.coords.len() * width <= layout.eager_coords * width) by (nonlinear_arith)
        requires
            cache.coords.len() <= layout.eager_coords,
            width >= 0,
    ;
}

} // verus!
