//! The `FullRings` path: the payload geometry is the eager cache itself, read
//! in place. Coordinates, ring ends and per-poly records lie back to back.

use vstd::prelude::*;

use crate::arcs::{edge_at, lemma_vertex_at_fits};
use crate::bytes::{signed, u32_at};
use crate::common::{GeomEncoding, QuantBits};
use crate::eager::{cache_claims, cache_ring, poly_begin, range_hits, ring_begin, Cache};
use crate::error::Error;
use crate::format::{read_fixed, read_u32, PayloadLayout};
use crate::geometry::{in_box, vertex_at, vertex_fits, BBox};
use crate::pip::{
    any_boundary, before, odd_crossings, odd_inside, on_ring, on_segment, point_of, ring_spec,
    EdgeHit, Point, RingHit,
};

verus! {

/// Whether the `FullRings` sections of this layout lie within a payload of
/// `len` bytes.
pub open spec fn full_within(layout: PayloadLayout, len: int) -> bool {
    &&& layout.geom == GeomEncoding::FullRings
    &&& layout.full_ring_ends == layout.full_coords + layout.eager_coords * (2
        * layout.quant_bits.size())
    &&& layout.full_polys == layout.full_ring_ends + layout.eager_rings * 4
    &&& layout.full_polys + layout.eager_polys * 20 <= len
}

/// Vertex `i` of the coordinate section.
pub open spec fn full_vertex(b: Seq<u8>, layout: PayloadLayout, i: int) -> Point {
    vertex_at(b, layout.full_coords + i * (2 * layout.quant_bits.size()), layout.quant_bits.size())
}

/// The exclusive vertex end of ring `r`.
pub open spec fn full_end(b: Seq<u8>, layout: PayloadLayout, r: int) -> int {
    u32_at(b, layout.full_ring_ends + 4 * r)
}

/// The full-width signed integer at `pos`.
pub open spec fn i32_at(b: Seq<u8>, pos: int) -> int {
    signed(u32_at(b, pos), 4294967296)
}

/// The record of poly `id`: its bounding box and exclusive ring end.
pub open spec fn full_record(b: Seq<u8>, layout: PayloadLayout, id: int) -> (BBox, int) {
    let pos = layout.full_polys + 20 * id;
    (
        BBox {
            min_x: i32_at(b, pos),
            min_y: i32_at(b, pos + 4),
            max_x: i32_at(b, pos + 8),
            max_y: i32_at(b, pos + 12),
        },
        u32_at(b, pos + 16),
    )
}

/// The cache a `FullRings` payload is.
pub open spec fn full_cache(b: Seq<u8>, layout: PayloadLayout) -> Cache {
    Cache {
        coords: Seq::new(layout.eager_coords as nat, |i: int| full_vertex(b, layout, i)),
        ring_ends: Seq::new(layout.eager_rings as nat, |r: int| full_end(b, layout, r)),
        polys: Seq::new(layout.eager_polys as nat, |id: int| full_record(b, layout, id)),
    }
}

/// Whether the index entries that poly `id` follows are in range.
pub open spec fn full_poly_ok(b: Seq<u8>, layout: PayloadLayout, id: int) -> bool {
    let cache = full_cache(b, layout);
    &&& 0 <= id < layout.eager_polys
    &&& 0 <= poly_begin(cache, id) <= cache.polys[id].1 <= layout.eager_rings
    &&& forall|r: int|
        poly_begin(cache, id) <= r < cache.polys[id].1 ==> ring_begin(cache.ring_ends, r)
            <= #[trigger] cache.ring_ends[r] <= layout.eager_coords
}

/// Whether poly `id` can be tested against `p`: where its bounding box holds
/// the point, and the point fits the vertex width, the index entries must be in
/// range.
pub open spec fn full_claim_ok(b: Seq<u8>, layout: PayloadLayout, id: int, p: Point) -> bool {
    &&& 0 <= id < layout.eager_polys
    &&& in_box(full_cache(b, layout).polys[id].0, p) && (layout.quant_bits == QuantBits::Bits16
        ==> vertex_fits(p, 2)) ==> full_poly_ok(b, layout, id)
}

/// Reads a full-width signed integer.
fn read_i32(payload: &[u8], position: usize) -> (v: i32)
    requires
        position + 4 <= payload@.len(),
    ensures
        v == i32_at(payload@, position as int),
{
    read_fixed(payload, position, QuantBits::Bits32)
}

/// Reads vertex `i` of the coordinate section.
fn read_vertex(payload: &[u8], layout: &PayloadLayout, i: usize) -> (v: (i32, i32))
    requires
        full_within(*layout, payload@.len() as int),
        i < layout.eager_coords,
    ensures
        point_of(v) == full_vertex(payload@, *layout, i as int),
        vertex_fits(point_of(v), layout.quant_bits.size()),
{
    let len: usize = payload.len();
    let coord_bytes: usize = layout.quant_bits.bytes();
    proof {
        let w: int = 2 * layout.quant_bits.size();
        assert(0 <= i * w && i * w + w <= layout.eager_coords * w) by (nonlinear_arith)
            requires
                0 <= i,
                i + 1 <= layout.eager_coords,
                w >= 0,
        ;
        lemma_vertex_at_fits(
            payload@,
            layout.full_coords + i * w,
            layout.quant_bits.size(),
        );
    }
    let position: usize = layout.full_coords + i * (2 * coord_bytes);
    (
        read_fixed(payload, position, layout.quant_bits),
        read_fixed(payload, position + coord_bytes, layout.quant_bits),
    )
}

/// Scans the ring that occupies the vertices `from..to`.
fn full_ring_hit(payload: &[u8], layout: &PayloadLayout, from: usize, to: usize, px: i32, py: i32) -> (hit:
    RingHit)
    requires
        full_within(*layout, payload@.len() as int),
        from <= to <= layout.eager_coords,
    ensures
        hit == ring_spec(
            full_cache(payload@, *layout).coords.subrange(from as int, to as int),
            (px as int, py as int),
        ),
{
    let ghost p: Point = (px as int, py as int);
    let ghost ring = full_cache(payload@, *layout).coords.subrange(from as int, to as int);
    if to - from < 3 {
        return RingHit::Outside;
    }
    let mut inside: bool = false;
    let mut prior: (i32, i32) = read_vertex(payload, layout, to - 1);
    let mut i: usize = from;
    while i < to
        invariant
            full_within(*layout, payload@.len() as int),
            from <= i <= to <= layout.eager_coords,
            to - from >= 3,
            p == (px as int, py as int),
            ring == full_cache(payload@, *layout).coords.subrange(from as int, to as int),
            i < to ==> point_of(prior) == before(ring, i - from),
            vertex_fits(point_of(prior), layout.quant_bits.size()),
            inside == odd_crossings(ring, p, i - from),
            !on_ring(ring, p, i - from),
        decreases to - i,
    {
        let next: (i32, i32) = read_vertex(payload, layout, i);
        let ghost k = i - from;
        assert(ring[k] == point_of(next));
        match edge_at(layout, prior, next, px, py) {
            EdgeHit::Boundary => {
                assert(on_segment(before(ring, k), ring[k], p));
                assert(on_ring(ring, p, ring.len() as int));
                return RingHit::Boundary;
            },
            EdgeHit::Cross => inside = !inside,
            EdgeHit::Miss => {},
        }
        prior = next;
        i = i + 1;
    }
    assert(i - from == ring.len());
    if inside {
        RingHit::Inside
    } else {
        RingHit::Outside
    }
}

/// Runs the even-odd fold over one poly's rings `[ring_start, ring_end)`.
fn full_rings_fold(
    payload: &[u8],
    layout: &PayloadLayout,
    ring_start: usize,
    ring_end: usize,
    px: i32,
    py: i32,
) -> (claimed: bool)
    requires
        full_within(*layout, payload@.len() as int),
        ring_start <= ring_end <= layout.eager_rings,
        forall|r: int|
            ring_start <= r < ring_end ==> ring_begin(
                full_cache(payload@, *layout).ring_ends,
                r,
            ) <= #[trigger] full_cache(payload@, *layout).ring_ends[r] <= layout.eager_coords,
    ensures
        claimed == crate::pip::fold_hits(
            range_hits(
                full_cache(payload@, *layout).coords,
                full_cache(payload@, *layout).ring_ends,
                ring_start as int,
                ring_end as int,
                (px as int, py as int),
            ),
        ),
{
    let ghost p: Point = (px as int, py as int);
    let ghost cache = full_cache(payload@, *layout);
    let ghost hits = range_hits(
        cache.coords,
        cache.ring_ends,
        ring_start as int,
        ring_end as int,
        p,
    );
    let len: usize = payload.len();
    let mut inside: bool = false;
    let mut coord_start: usize = if ring_start == 0 {
        0
    } else {
        assert(cache.ring_ends[ring_start - 1] == full_end(payload@, *layout, ring_start - 1));
        read_u32(payload, layout.full_ring_ends + (ring_start - 1) * 4) as usize
    };
    let mut r: usize = ring_start;
    while r < ring_end
        invariant
            full_within(*layout, payload@.len() as int),
            len == payload@.len(),
            ring_start <= r <= ring_end <= layout.eager_rings,
            cache == full_cache(payload@, *layout),
            forall|q: int|
                ring_start <= q < ring_end ==> ring_begin(cache.ring_ends, q)
                    <= #[trigger] cache.ring_ends[q] <= layout.eager_coords,
            p == (px as int, py as int),
            hits == range_hits(
                cache.coords,
                cache.ring_ends,
                ring_start as int,
                ring_end as int,
                p,
            ),
            coord_start == ring_begin(cache.ring_ends, r as int),
            inside == odd_inside(hits, r - ring_start),
            !any_boundary(hits, r - ring_start),
        decreases ring_end - r,
    {
        assert(cache.ring_ends[r as int] == full_end(payload@, *layout, r as int));
        let coord_end: usize = read_u32(payload, layout.full_ring_ends + r * 4) as usize;
        let ghost k = r - ring_start;
        let hit = full_ring_hit(payload, layout, coord_start, coord_end, px, py);
        assert(cache_ring(cache.coords, cache.ring_ends, r as int) == cache.coords.subrange(
            coord_start as int,
            coord_end as int,
        ));
        assert(hits[k] == hit);
        match hit {
            RingHit::Boundary => {
                assert(any_boundary(hits, hits.len() as int));
                return true;
            },
            RingHit::Inside => inside = !inside,
            RingHit::Outside => {},
        }
        coord_start = coord_end;
        r = r + 1;
    }
    inside
}

/// Tests one polygon on the `FullRings` path: the record's bounding box
/// gates, then the even-odd fold runs straight off the payload bytes.
pub fn full_rings_poly_contains(
    payload: &[u8],
    layout: &PayloadLayout,
    poly_id: u16,
    px: i32,
    py: i32,
) -> (claimed: bool)
    requires
        full_within(*layout, payload@.len() as int),
        full_claim_ok(payload@, *layout, poly_id as int, (px as int, py as int)),
    ensures
        claimed == cache_claims(
            full_cache(payload@, *layout),
            layout.quant_bits == QuantBits::Bits16,
            poly_id as int,
            (px as int, py as int),
        ),
{
    let ghost cache = full_cache(payload@, *layout);
    let len: usize = payload.len();
    let record: usize = layout.full_polys + poly_id as usize * 20;
    let min_x: i32 = read_i32(payload, record);
    let min_y: i32 = read_i32(payload, record + 4);
    let max_x: i32 = read_i32(payload, record + 8);
    let max_y: i32 = read_i32(payload, record + 12);
    assert(cache.polys[poly_id as int] == full_record(payload@, *layout, poly_id as int));
    if !(px >= min_x && py >= min_y && px <= max_x && py <= max_y) {
        return false;
    }
    let ring_end: usize = read_u32(payload, record + 16) as usize;
    let ring_start: usize = if poly_id == 0 {
        0
    } else {
        assert(cache.polys[poly_id - 1] == full_record(payload@, *layout, poly_id - 1));
        read_u32(payload, record - 4) as usize
    };
    // an in-box point of a valid 16-bit asset always fits 16 bits; the early
    // return covers adversarial boxes
    if layout.quant_bits == QuantBits::Bits16 && (px < -0x8000 || px > 0x7FFF || py < -0x8000 || py
        > 0x7FFF) {
        return false;
    }
    full_rings_fold(payload, layout, ring_start, ring_end, px, py)
}

/// Performs the `FullRings` load-time check: the ring-end table must end at
/// the declared coordinate count. Other encodings pass. Reads are byte-wise,
/// so the payload may lie at any address.
pub fn check_full_rings(payload: &[u8], layout: &PayloadLayout) -> (checked: Result<(), Error>)
    requires
        layout.geom == GeomEncoding::FullRings ==> full_within(*layout, payload@.len() as int),
    ensures
        checked == if full_counts_agree(payload@, *layout) {
            Ok::<(), Error>(())
        } else {
            Err::<(), Error>(Error::FullRingsCountsDisagree)
        },
{
    let len: usize = payload.len();
    if layout.geom == GeomEncoding::FullRings && layout.eager_rings > 0 {
        let last: usize = layout.eager_rings as usize - 1;
        if read_u32(payload, layout.full_ring_ends + last * 4) != layout.eager_coords {
            return Err(Error::FullRingsCountsDisagree);
        }
    }
    Ok(())
}

/// Whether the last ring of a `FullRings` payload ends at its coordinate
/// count.
pub open spec fn full_counts_agree(b: Seq<u8>, layout: PayloadLayout) -> bool {
    layout.geom == GeomEncoding::FullRings && layout.eager_rings > 0 ==> full_end(
        b,
        layout,
        layout.eager_rings - 1,
    ) == layout.eager_coords
}

} // verus!
