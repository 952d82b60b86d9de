//! The streaming path: candidate polygons tested by walking their arcs
//! directly off the payload bytes through the per-edge kernel, with constant
//! state and no decode buffer.

use vstd::prelude::*;

use crate::bytes::lemma_varint_bounds;
use crate::common::{GeomEncoding, QuantBits};
use crate::format::{read_fixed, read_u16, read_u32, read_varint, unzigzag, PayloadLayout};
use crate::geometry::{
    arc_claim_ok, arc_hits, arc_points, arc_poly_claims, arc_poly_ok, arc_pos, arc_step, arc_tail,
    arcs_within, fixed_arcs, in_box, lemma_refs_step, lemma_rings_step, merge, poly_box, poly_refs,
    refs_left, refs_ok, ring_hits, ring_refs_at, rings_left, vertex_at, vertex_fits,
};
use crate::path::{path_odd, path_on, path_spec};
use crate::pip::{
    any_boundary, crosses, edge, edge_spec, lemma_exact_i128, lemma_exact_i64,
    lemma_ring_exact_i128, lemma_ring_exact_i64, lemma_ring_exact_i64_narrow, odd_inside,
    on_segment, point_of, points_of, ring_hit, ring_spec, within_30_bits, CoordPair, EdgeHit, Point,
    RingHit,
};

verus! {

/// The streaming per-edge kernel for 16- and 24-bit geometry.
pub fn edge_narrow(a: (i32, i32), b: (i32, i32), px: i32, py: i32) -> (hit: EdgeHit)
    requires
        within_30_bits(a),
        within_30_bits(b),
    ensures
        hit == edge_spec(point_of(a), point_of(b), (px as int, py as int)),
{
    proof {
        lemma_exact_i64(a, b, px, py);
    }
    edge::<i64, i32>(a, b, px, py)
}

/// The 32-bit sibling of [`edge_narrow`].
pub fn edge_wide(a: (i32, i32), b: (i32, i32), px: i32, py: i32) -> (hit: EdgeHit)
    ensures
        hit == edge_spec(point_of(a), point_of(b), (px as int, py as int)),
{
    proof {
        lemma_exact_i128(a, b, px, py);
    }
    edge::<i128, i32>(a, b, px, py)
}

/// The ring-scan kernel for 24-bit geometry held as `i32` pairs.
pub fn ring_hit_narrow(ring: &[(i32, i32)], px: i32, py: i32) -> (hit: RingHit)
    requires
        forall|i: int| 0 <= i < ring@.len() ==> within_30_bits(#[trigger] ring@[i]),
    ensures
        hit == ring_spec(points_of(ring@), (px as int, py as int)),
{
    proof {
        assert forall|i: int| 0 <= i < ring@.len() implies within_30_bits(
            #[trigger] ring@[i].pair(),
        ) by {
            assert(within_30_bits(ring@[i]));
        }
        lemma_ring_exact_i64::<(i32, i32)>(ring@, px, py);
    }
    ring_hit::<i64, (i32, i32)>(ring, px, py)
}

/// The ring-scan kernel for 16-bit geometry held as `i16` pairs.
pub fn ring_hit_narrow16(ring: &[(i16, i16)], px: i16, py: i16) -> (hit: RingHit)
    ensures
        hit == ring_spec(points_of(ring@), (px as int, py as int)),
{
    proof {
        lemma_ring_exact_i64_narrow(ring@, px, py);
    }
    ring_hit::<i64, (i16, i16)>(ring, px, py)
}

/// The 32-bit sibling of [`ring_hit_narrow`].
pub fn ring_hit_wide(ring: &[(i32, i32)], px: i32, py: i32) -> (hit: RingHit)
    ensures
        hit == ring_spec(points_of(ring@), (px as int, py as int)),
{
    proof {
        lemma_ring_exact_i128(ring@, px, py);
    }
    ring_hit::<i128, (i32, i32)>(ring, px, py)
}

/// Whether an arc's remaining vertices decode, given where its walk stands.
#[verifier::opaque]
spec fn tail_ok(
    b: Seq<u8>,
    layout: PayloadLayout,
    pos: int,
    last: Point,
    n: nat,
    done: Seq<Point>,
    whole: Seq<Point>,
) -> bool {
    &&& done.len() >= 1
    &&& done.last() == last
    &&& arc_tail(b, fixed_arcs(layout), layout.quant_bits.size(), pos, last, n) matches Some(rest)
        && done + rest == whole
}

/// One step of an arc walk: reads the vertex at `position` that follows
/// `(x0, y0)`, returning it and the position behind it.
fn next_vertex(payload: &[u8], layout: &PayloadLayout, position: usize, x0: i32, y0: i32) -> (r: (
    i32,
    i32,
    usize,
))
    requires
        arc_step(
            payload@,
            fixed_arcs(*layout),
            layout.quant_bits.size(),
            position as int,
            (x0 as int, y0 as int),
        ) is Some,
    ensures
        arc_step(
            payload@,
            fixed_arcs(*layout),
            layout.quant_bits.size(),
            position as int,
            (x0 as int, y0 as int),
        ) == Some(((r.0 as int, r.1 as int), r.2 as int)),
        r.2 <= payload@.len(),
{
    let len: usize = payload.len();
    let coord_bytes: usize = layout.quant_bits.bytes();
    if layout.geom == GeomEncoding::FixedWidthArcs {
        let x1: i32 = read_fixed(payload, position, layout.quant_bits);
        let y1: i32 = read_fixed(payload, position + coord_bytes, layout.quant_bits);
        (x1, y1, position + 2 * coord_bytes)
    } else {
        let (dx, after_dx): (u64, usize) = read_varint(payload, position);
        let (dy, after_deltas): (u64, usize) = read_varint(payload, after_dx);
        proof {
            lemma_varint_bounds(payload@, after_dx as int);
        }
        let (mx, my): (i64, i64) = (unzigzag(dx), unzigzag(dy));
        let x1: i32 = (x0 as i64 + mx) as i32;
        let y1: i32 = (y0 as i64 + my) as i32;
        (x1, y1, after_deltas)
    }
}

/// A vertex that fits 16 or 24 bits is within the narrow kernel's range.
proof fn lemma_narrow_range(layout: PayloadLayout, v: (i32, i32))
    requires
        layout.quant_bits != QuantBits::Bits32,
        vertex_fits(point_of(v), layout.quant_bits.size()),
    ensures
        within_30_bits(v),
{
}

/// Every vertex a fixed-width read gives fits its width.
pub proof fn lemma_vertex_at_fits(b: Seq<u8>, pos: int, size: int)
    requires
        2 <= size <= 4,
    ensures
        vertex_fits(vertex_at(b, pos, size), size),
{
}

/// Folds one arc's internal segments through the edge kernel, straight off
/// the payload bytes. An `Inside` result means the arc contributed an odd
/// number of ray crossings.
pub fn scan_arc(payload: &[u8], layout: &PayloadLayout, id: usize, px: i32, py: i32) -> (hit:
    RingHit)
    requires
        arcs_within(*layout, payload@.len() as int),
        arc_points(payload@, *layout, id as int) is Some,
    ensures
        hit == path_spec(arc_points(payload@, *layout, id as int)->0, (px as int, py as int)),
{
    let ghost p: Point = (px as int, py as int);
    let ghost whole = arc_points(payload@, *layout, id as int)->0;
    let len: usize = payload.len();
    let offset: u32 = read_u32(payload, layout.arc_offsets + id * 4);
    proof {
        lemma_varint_bounds(payload@, arc_pos(payload@, *layout, id as int));
    }
    assert(layout.arc_data + offset < len);
    let (vertex_count, first): (u64, usize) = read_varint(payload, layout.arc_data + offset as usize);
    let coord_bytes: usize = layout.quant_bits.bytes();
    let mut x0: i32 = read_fixed(payload, first, layout.quant_bits);
    let mut y0: i32 = read_fixed(payload, first + coord_bytes, layout.quant_bits);
    let mut position: usize = first + 2 * coord_bytes;
    let mut inside: bool = false;
    let mut left: u64 = if vertex_count == 0 { 0 } else { vertex_count - 1 };
    let ghost mut done: Seq<Point> = seq![(x0 as int, y0 as int)];
    proof {
        lemma_vertex_at_fits(payload@, first as int, layout.quant_bits.size());
        reveal_with_fuel(path_odd, 2);
        reveal(tail_ok);
    }
    while left > 0
        invariant
            p == (px as int, py as int),
            whole == arc_points(payload@, *layout, id as int)->0,
            tail_ok(
                payload@,
                *layout,
                position as int,
                (x0 as int, y0 as int),
                left as nat,
                done,
                whole,
            ),
            vertex_fits((x0 as int, y0 as int), layout.quant_bits.size()),
            inside == path_odd(done, p, done.len() as int),
            !path_on(done, p, done.len() as int),
        decreases left,
    {
        proof {
            lemma_tail_step(
                payload@,
                *layout,
                position as int,
                (x0 as int, y0 as int),
                left as nat,
                done,
                whole,
            );
        }
        let (x1, y1, after): (i32, i32, usize) = next_vertex(payload, layout, position, x0, y0);
        let ghost v: Point = (x1 as int, y1 as int);
        proof {
            lemma_path_push(done, v, p);
            done = done.push(v);
        }
        match edge_at(layout, (x0, y0), (x1, y1), px, py) {
            EdgeHit::Boundary => {
                proof {
                    let n = done.len() as int;
                    assert(whole[n - 2] == done[n - 2] && whole[n - 1] == done[n - 1]);
                    assert(on_segment(whole[n - 1 - 1], whole[n - 1], p));
                }
                return RingHit::Boundary;
            },
            EdgeHit::Cross => inside = !inside,
            EdgeHit::Miss => {},
        }
        x0 = x1;
        y0 = y1;
        position = after;
        left = left - 1;
    }
    proof {
        lemma_tail_end(payload@, *layout, position as int, (x0 as int, y0 as int), done, whole);
    }
    if inside {
        RingHit::Inside
    } else {
        RingHit::Outside
    }
}

/// An arc walk with vertices left can take one step.
proof fn lemma_tail_step(
    b: Seq<u8>,
    layout: PayloadLayout,
    pos: int,
    last: Point,
    n: nat,
    done: Seq<Point>,
    whole: Seq<Point>,
)
    requires
        tail_ok(b, layout, pos, last, n, done, whole),
        n > 0,
    ensures
        done.len() >= 1,
        done.last() == last,
        arc_step(b, fixed_arcs(layout), layout.quant_bits.size(), pos, last) matches Some(
            (v, next),
        ) && tail_ok(b, layout, next, v, (n - 1) as nat, done.push(v), whole) && vertex_fits(
            v,
            layout.quant_bits.size(),
        ) && done.len() + 1 <= whole.len() && forall|i: int|
            0 <= i < done.len() + 1 ==> whole[i] == #[trigger] done.push(v)[i],
{
    reveal(tail_ok);
    let size = layout.quant_bits.size();
    let rest = arc_tail(b, fixed_arcs(layout), size, pos, last, n)->0;
    let (v, next) = arc_step(b, fixed_arcs(layout), size, pos, last)->0;
    let rest2 = arc_tail(b, fixed_arcs(layout), size, next, v, (n - 1) as nat)->0;
    assert(rest == seq![v] + rest2);
    assert(done.push(v) + rest2 =~= done + rest);
    lemma_vertex_at_fits(b, pos, size);
}

/// An arc walk with no vertices left has seen the whole arc.
proof fn lemma_tail_end(
    b: Seq<u8>,
    layout: PayloadLayout,
    pos: int,
    last: Point,
    done: Seq<Point>,
    whole: Seq<Point>,
)
    requires
        tail_ok(b, layout, pos, last, 0, done, whole),
    ensures
        done == whole,
{
    reveal(tail_ok);
    assert(done + Seq::<Point>::empty() =~= done);
}

/// Tests one edge at the width the header demands.
pub fn edge_at(layout: &PayloadLayout, a: (i32, i32), b: (i32, i32), px: i32, py: i32) -> (hit: EdgeHit)
    requires
        vertex_fits(point_of(a), layout.quant_bits.size()),
        vertex_fits(point_of(b), layout.quant_bits.size()),
    ensures
        hit == edge_spec(point_of(a), point_of(b), (px as int, py as int)),
{
    if layout.quant_bits == QuantBits::Bits32 {
        edge_wide(a, b, px, py)
    } else {
        proof {
            lemma_narrow_range(*layout, a);
            lemma_narrow_range(*layout, b);
        }
        edge_narrow(a, b, px, py)
    }
}

/// Extending a polyline by one vertex adds one edge to its fold.
proof fn lemma_path_push(path: Seq<Point>, v: Point, p: Point)
    requires
        path.len() >= 1,
    ensures
        path_odd(path.push(v), p, path.len() as int + 1) == (path_odd(path, p, path.len() as int)
            != crosses(path.last(), v, p)),
        path_on(path.push(v), p, path.len() as int + 1) == (path_on(path, p, path.len() as int)
            || on_segment(path.last(), v, p)),
{
    let n = path.len() as int;
    let ext = path.push(v);
    lemma_odd_same(path, ext, p, n);
    assert(ext[n - 1] == path.last() && ext[n] == v);
    if path_on(path, p, n) {
        let i = choose|i: int| 1 <= i < n && #[trigger] on_segment(path[i - 1], path[i], p);
        assert(on_segment(ext[i - 1], ext[i], p));
    }
    if on_segment(path.last(), v, p) {
        assert(on_segment(ext[n - 1], ext[n], p));
    }
    if path_on(ext, p, n + 1) {
        let i = choose|i: int| 1 <= i < n + 1 && #[trigger] on_segment(ext[i - 1], ext[i], p);
        if i < n {
            assert(on_segment(path[i - 1], path[i], p));
        }
    }
}

proof fn lemma_odd_same(a: Seq<Point>, c: Seq<Point>, p: Point, n: int)
    requires
        n <= a.len(),
        n <= c.len(),
        forall|i: int| 0 <= i < n ==> a[i] == c[i],
    ensures
        path_odd(a, p, n) == path_odd(c, p, n),
    decreases n,
{
    if n > 1 {
        lemma_odd_same(a, c, p, n - 1);
    }
}

/// Folds the arcs of one ring: `refs` of them starting at `position`. Returns
/// the ring's hit and the position behind its references (meaningless on
/// `Boundary`, which ends the whole test).
fn scan_ring(
    payload: &[u8],
    layout: &PayloadLayout,
    position: usize,
    px: i32,
    py: i32,
) -> (r: (RingHit, usize))
    requires
        arcs_within(*layout, payload@.len() as int),
        ring_refs_at(payload@, position as int) matches Some((refs, _)) && refs_ok(
            payload@,
            *layout,
            refs,
        ),
    ensures
        ring_refs_at(payload@, position as int) matches Some((refs, end)) && r.0 == merge(
            arc_hits(payload@, *layout, refs, (px as int, py as int)),
        ) && (r.0 != RingHit::Boundary ==> r.1 == end),
{
    let ghost p: Point = (px as int, py as int);
    let ghost (refs, end) = ring_refs_at(payload@, position as int)->0;
    let ghost hits = arc_hits(payload@, *layout, refs, p);
    let (arc_ref_count, after_count): (u64, usize) = read_varint(payload, position);
    let mut ref_position: usize = after_count;
    let mut left: u64 = arc_ref_count;
    let mut inside: bool = false;
    let ghost mut done: Seq<nat> = Seq::empty();
    proof {
        reveal(refs_left);
        assert(done + refs =~= refs);
    }
    while left > 0
        invariant
            arcs_within(*layout, payload@.len() as int),
            refs_ok(payload@, *layout, refs),
            p == (px as int, py as int),
            ring_refs_at(payload@, position as int) == Some((refs, end)),
            hits == arc_hits(payload@, *layout, refs, p),
            refs_left(payload@, ref_position as int, left as nat, done, refs, end),
            done.len() <= refs.len(),
            inside == odd_inside(hits, done.len() as int),
            !any_boundary(hits, done.len() as int),
        decreases left,
    {
        proof {
            lemma_refs_step(payload@, ref_position as int, left as nat, done, refs, end);
            lemma_varint_bounds(payload@, ref_position as int);
        }
        let (arc_ref, after_ref): (u64, usize) = read_varint(payload, ref_position);
        let ghost k = done.len() as int;
        assert(refs[k] == arc_ref as nat);
        assert(arc_points(payload@, *layout, (refs[k] / 2) as int) is Some);
        proof {
            done = done.push(arc_ref as nat);
        }
        let hit = scan_arc(payload, layout, (arc_ref / 2) as usize, px, py);
        assert(hit == hits[k]);
        match hit {
            RingHit::Boundary => {
                assert(any_boundary(hits, hits.len() as int));
                return (RingHit::Boundary, after_ref);
            },
            RingHit::Inside => inside = !inside,
            RingHit::Outside => {},
        }
        ref_position = after_ref;
        left = left - 1;
    }
    proof {
        reveal(refs_left);
        assert(done + Seq::<nat>::empty() =~= done);
        assert(done.len() == hits.len());
    }
    if inside {
        (RingHit::Inside, ref_position)
    } else {
        (RingHit::Outside, ref_position)
    }
}

/// Tests one polygon of an arc-store payload: the record's bounding box
/// gates, then the even-odd fold runs over its rings' arcs. Junction vertices
/// are shared by consecutive arcs and the ring closure is a shared junction
/// too, so every arc is walked forward whatever its orientation bit says.
pub fn arc_poly_contains(
    payload: &[u8],
    layout: &PayloadLayout,
    poly_id: u16,
    px: i32,
    py: i32,
) -> (claimed: bool)
    requires
        arcs_within(*layout, payload@.len() as int),
        arc_claim_ok(payload@, *layout, poly_id as int, (px as int, py as int)),
    ensures
        claimed == arc_poly_claims(payload@, *layout, poly_id as int, (px as int, py as int)),
{
    let ghost p: Point = (px as int, py as int);
    let ghost rings = poly_refs(payload@, *layout, poly_id as int)->0;
    let ghost hits = ring_hits(payload@, *layout, rings, p);
    let len: usize = payload.len();
    let coord_bytes: usize = layout.quant_bits.bytes();
    let offset: u32 = read_u32(payload, layout.poly_offsets + poly_id as usize * 4);
    assert(layout.ring_data + offset + 4 * coord_bytes <= len);
    let start: usize = layout.ring_data + offset as usize;
    let min_x: i32 = read_fixed(payload, start, layout.quant_bits);
    let min_y: i32 = read_fixed(payload, start + coord_bytes, layout.quant_bits);
    let max_x: i32 = read_fixed(payload, start + 2 * coord_bytes, layout.quant_bits);
    let max_y: i32 = read_fixed(payload, start + 3 * coord_bytes, layout.quant_bits);
    if !(px >= min_x && py >= min_y && px <= max_x && py <= max_y) {
        return false;
    }
    let ring_count: u16 = read_u16(payload, start + 4 * coord_bytes);
    let mut position: usize = start + 4 * coord_bytes + 2;
    let mut poly_inside: bool = false;
    let mut left: u16 = ring_count;
    let ghost mut done: Seq<Seq<nat>> = Seq::empty();
    proof {
        reveal(rings_left);
        assert(done + rings =~= rings);
    }
    while left > 0
        invariant
            arcs_within(*layout, payload@.len() as int),
            arc_poly_ok(payload@, *layout, poly_id as int),
            rings == poly_refs(payload@, *layout, poly_id as int)->0,
            in_box(poly_box(payload@, *layout, poly_id as int), p),
            p == (px as int, py as int),
            hits == ring_hits(payload@, *layout, rings, p),
            rings_left(payload@, position as int, left as nat, done, rings),
            done.len() <= rings.len(),
            poly_inside == odd_inside(hits, done.len() as int),
            !any_boundary(hits, done.len() as int),
        decreases left,
    {
        proof {
            lemma_rings_step(payload@, position as int, left as nat, done, rings);
        }
        let ghost k = done.len() as int;
        let ghost (refs, _next) = ring_refs_at(payload@, position as int)->0;
        assert(rings[k] == refs);
        assert(refs_ok(payload@, *layout, rings[k]));
        proof {
            done = done.push(refs);
        }
        let (hit, after): (RingHit, usize) = scan_ring(payload, layout, position, px, py);
        assert(hit == hits[k]);
        match hit {
            RingHit::Boundary => {
                assert(any_boundary(hits, hits.len() as int));
                return true;
            },
            RingHit::Inside => poly_inside = !poly_inside,
            RingHit::Outside => {},
        }
        position = after;
        left = left - 1;
    }
    proof {
        reveal(rings_left);
        assert(done + Seq::<Seq<nat>>::empty() =~= done);
        assert(done.len() == hits.len());
    }
    poly_inside
}

/// Decodes one whole arc, in stored order.
pub fn read_arc(payload: &[u8], layout: &PayloadLayout, id: usize) -> (arc: Vec<(i32, i32)>)
    requires
        arcs_within(*layout, payload@.len() as int),
        arc_points(payload@, *layout, id as int) is Some,
    ensures
        arc_points(payload@, *layout, id as int) == Some(points_of(arc@)),
        arc@.len() >= 1,
        forall|i: int|
            0 <= i < arc@.len() ==> vertex_fits(
                point_of(#[trigger] arc@[i]),
                layout.quant_bits.size(),
            ),
{
    let ghost whole = arc_points(payload@, *layout, id as int)->0;
    let ghost size = layout.quant_bits.size();
    let len: usize = payload.len();
    let offset: u32 = read_u32(payload, layout.arc_offsets + id * 4);
    proof {
        lemma_varint_bounds(payload@, arc_pos(payload@, *layout, id as int));
    }
    assert(layout.arc_data + offset < len);
    let (vertex_count, first): (u64, usize) = read_varint(payload, layout.arc_data + offset as usize);
    let coord_bytes: usize = layout.quant_bits.bytes();
    let mut x0: i32 = read_fixed(payload, first, layout.quant_bits);
    let mut y0: i32 = read_fixed(payload, first + coord_bytes, layout.quant_bits);
    let mut position: usize = first + 2 * coord_bytes;
    let mut left: u64 = if vertex_count == 0 { 0 } else { vertex_count - 1 };
    let mut arc: Vec<(i32, i32)> = Vec::new();
    arc.push((x0, y0));
    proof {
        lemma_vertex_at_fits(payload@, first as int, size);
        assert(points_of(arc@) =~= seq![(x0 as int, y0 as int)]);
        reveal(tail_ok);
    }
    while left > 0
        invariant
            size == layout.quant_bits.size(),
            tail_ok(
                payload@,
                *layout,
                position as int,
                (x0 as int, y0 as int),
                left as nat,
                points_of(arc@),
                whole,
            ),
            arc@.len() >= 1,
            forall|i: int|
                0 <= i < arc@.len() ==> vertex_fits(point_of(#[trigger] arc@[i]), size),
        decreases left,
    {
        let ghost before = points_of(arc@);
        proof {
            lemma_tail_step(
                payload@,
                *layout,
                position as int,
                (x0 as int, y0 as int),
                left as nat,
                before,
                whole,
            );
        }
        let (x1, y1, after): (i32, i32, usize) = next_vertex(payload, layout, position, x0, y0);
        arc.push((x1, y1));
        assert(points_of(arc@) =~= before.push((x1 as int, y1 as int)));
        x0 = x1;
        y0 = y1;
        position = after;
        left = left - 1;
    }
    proof {
        lemma_tail_end(
            payload@,
            *layout,
            position as int,
            (x0 as int, y0 as int),
            points_of(arc@),
            whole,
        );
    }
    arc
}

} // verus!
