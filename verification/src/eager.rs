//! The eager path: every ring decoded once into flat arrays. Ranges are
//! stored as exclusive ends; a range's start is the previous entry's end.

use vstd::prelude::*;

use crate::arcs::{read_arc, ring_hit_narrow, ring_hit_narrow16, ring_hit_wide};
use crate::common::QuantBits;
use crate::format::{read_fixed, read_u16, read_u32, read_varint, PayloadLayout};
use crate::geometry::{
    all_fit, arc_points, arc_poly_ok, arcs_within, in_box, lemma_arc_fits, lemma_refs_step, lemma_rings_step, poly_box,
    poly_refs, refs_left, refs_ok, ring_refs_at, rings_left, vertex_fits, BBox,
};
use crate::stitch::{append_spec, close_ring, oriented};
use crate::pip::{
    any_boundary, fold_hits, odd_inside, point_of, points_of, ring_spec, within_30_bits, CoordPair,
    Point, RingHit,
};

verus! {

/// The eager cache as mathematical data: flat vertices, the exclusive vertex
/// end of each ring, and per poly its bounding box and exclusive ring end.
#[verifier::ext_equal]
pub struct Cache {
    pub coords: Seq<Point>,
    pub ring_ends: Seq<int>,
    pub polys: Seq<(BBox, int)>,
}

/// The arc a reference names, in the direction it walks it.
pub open spec fn ref_arc(b: Seq<u8>, layout: PayloadLayout, r: nat) -> Seq<Point> {
    oriented(arc_points(b, layout, (r / 2) as int)->0, r % 2 == 1)
}

/// The vertices after the first `n` references of a ring.
pub open spec fn stitch_refs(
    b: Seq<u8>,
    layout: PayloadLayout,
    refs: Seq<nat>,
    coords: Seq<Point>,
    n: int,
) -> Seq<Point>
    decreases n,
{
    if n <= 0 {
        coords
    } else {
        append_spec(stitch_refs(b, layout, refs, coords, n - 1), ref_arc(b, layout, refs[n - 1]))
    }
}

/// The vertices after one whole ring.
pub open spec fn stitch_ring(
    b: Seq<u8>,
    layout: PayloadLayout,
    refs: Seq<nat>,
    coords: Seq<Point>,
) -> Seq<Point> {
    close_ring(
        stitch_refs(b, layout, refs, coords, refs.len() as int),
        coords.len() as int,
    )
}

/// The cache after the first `n` rings of one poly.
pub open spec fn decode_rings_spec(
    b: Seq<u8>,
    layout: PayloadLayout,
    rings: Seq<Seq<nat>>,
    cache: Cache,
    n: int,
) -> Cache
    decreases n,
{
    if n <= 0 {
        cache
    } else {
        let prior = decode_rings_spec(b, layout, rings, cache, n - 1);
        let coords = stitch_ring(b, layout, rings[n - 1], prior.coords);
        Cache { coords, ring_ends: prior.ring_ends.push(coords.len() as int), polys: prior.polys }
    }
}

/// The cache after the first `n` polys of an arc-store payload.
pub open spec fn decode_spec(b: Seq<u8>, layout: PayloadLayout, n: int) -> Cache
    decreases n,
{
    if n <= 0 {
        Cache { coords: Seq::empty(), ring_ends: Seq::empty(), polys: Seq::empty() }
    } else {
        let prior = decode_spec(b, layout, n - 1);
        let rings = poly_refs(b, layout, n - 1)->0;
        let cache = decode_rings_spec(b, layout, rings, prior, rings.len() as int);
        Cache {
            coords: cache.coords,
            ring_ends: cache.ring_ends,
            polys: cache.polys.push((poly_box(b, layout, n - 1), cache.ring_ends.len() as int)),
        }
    }
}

/// Whether every poly of an arc-store payload decodes.
pub open spec fn polys_ok(b: Seq<u8>, layout: PayloadLayout) -> bool {
    forall|id: int| 0 <= id < layout.eager_polys ==> #[trigger] arc_poly_ok(b, layout, id)
}

/// Stitching a ring never loses vertices stored before it.
pub proof fn lemma_stitch_grows(
    b: Seq<u8>,
    layout: PayloadLayout,
    refs: Seq<nat>,
    coords: Seq<Point>,
    n: int,
)
    requires
        0 <= n <= refs.len(),
    ensures
        stitch_refs(b, layout, refs, coords, n).len() >= coords.len(),
        stitch_refs(b, layout, refs, coords, n).take(coords.len() as int) == coords,
    decreases n,
{
    let after = stitch_refs(b, layout, refs, coords, n);
    if n > 0 {
        lemma_stitch_grows(b, layout, refs, coords, n - 1);
        let prior = stitch_refs(b, layout, refs, coords, n - 1);
        assert(after.take(coords.len() as int) =~= prior.take(coords.len() as int));
    } else {
        assert(after.take(coords.len() as int) =~= coords);
    }
}

/// A stitched ring keeps the vertices stored before it.
pub proof fn lemma_ring_grows(
    b: Seq<u8>,
    layout: PayloadLayout,
    refs: Seq<nat>,
    coords: Seq<Point>,
)
    ensures
        stitch_ring(b, layout, refs, coords).len() >= coords.len(),
        stitch_ring(b, layout, refs, coords).take(coords.len() as int) == coords,
{
    lemma_stitch_grows(b, layout, refs, coords, refs.len() as int);
    let open = stitch_refs(b, layout, refs, coords, refs.len() as int);
    assert(close_ring(open, coords.len() as int).take(coords.len() as int) =~= open.take(
        coords.len() as int,
    ));
}

/// The cache only grows ring by ring.
pub proof fn lemma_rings_grow(
    b: Seq<u8>,
    layout: PayloadLayout,
    rings: Seq<Seq<nat>>,
    cache: Cache,
    m: int,
    n: int,
)
    requires
        0 <= m <= n <= rings.len(),
    ensures
        ({
            let early = decode_rings_spec(b, layout, rings, cache, m);
            let late = decode_rings_spec(b, layout, rings, cache, n);
            &&& early.coords.len() <= late.coords.len()
            &&& early.ring_ends.len() + (n - m) == late.ring_ends.len()
            &&& late.coords.take(early.coords.len() as int) == early.coords
            &&& late.ring_ends.take(early.ring_ends.len() as int) == early.ring_ends
            &&& early.polys == late.polys
            &&& early.polys == cache.polys
        }),
    decreases n,
{
    let early = decode_rings_spec(b, layout, rings, cache, m);
    let late = decode_rings_spec(b, layout, rings, cache, n);
    if n > m {
        lemma_rings_grow(b, layout, rings, cache, m, n - 1);
        let prior = decode_rings_spec(b, layout, rings, cache, n - 1);
        lemma_ring_grows(b, layout, rings[n - 1], prior.coords);
        assert(late.coords.take(early.coords.len() as int) =~= early.coords) by {
            assert forall|i: int| 0 <= i < early.coords.len() implies late.coords[i]
                == early.coords[i] by {
                assert(late.coords.take(prior.coords.len() as int)[i] == prior.coords[i]);
                assert(prior.coords.take(early.coords.len() as int)[i] == early.coords[i]);
            }
        }
        assert(late.ring_ends.take(early.ring_ends.len() as int) =~= prior.ring_ends.take(
            early.ring_ends.len() as int,
        ));
    } else {
        assert(late.coords.take(early.coords.len() as int) =~= early.coords);
        assert(late.ring_ends.take(early.ring_ends.len() as int) =~= early.ring_ends);
        if n > 0 {
            lemma_rings_grow(b, layout, rings, cache, 0, n - 1);
        }
    }
}

/// The cache only grows poly by poly.
pub proof fn lemma_polys_grow(b: Seq<u8>, layout: PayloadLayout, m: int, n: int)
    requires
        0 <= m <= n,
    ensures
        ({
            let early = decode_spec(b, layout, m);
            let late = decode_spec(b, layout, n);
            &&& early.coords.len() <= late.coords.len()
            &&& early.ring_ends.len() <= late.ring_ends.len()
            &&& late.coords.take(early.coords.len() as int) == early.coords
            &&& late.ring_ends.take(early.ring_ends.len() as int) == early.ring_ends
            &&& late.polys.len() == n
            &&& early.polys.len() == m
            &&& late.polys.take(m) == early.polys
        }),
    decreases n,
{
    let early = decode_spec(b, layout, m);
    let late = decode_spec(b, layout, n);
    if n > m {
        lemma_polys_grow(b, layout, m, n - 1);
        let prior = decode_spec(b, layout, n - 1);
        let rings = poly_refs(b, layout, n - 1)->0;
        lemma_rings_grow(b, layout, rings, prior, 0, rings.len() as int);
        assert(late.coords.take(early.coords.len() as int) =~= early.coords) by {
            assert forall|i: int| 0 <= i < early.coords.len() implies late.coords[i]
                == early.coords[i] by {
                assert(late.coords.take(prior.coords.len() as int)[i] == prior.coords[i]);
                assert(prior.coords.take(early.coords.len() as int)[i] == early.coords[i]);
            }
        }
        assert(late.ring_ends.take(early.ring_ends.len() as int) =~= early.ring_ends) by {
            assert forall|i: int| 0 <= i < early.ring_ends.len() implies late.ring_ends[i]
                == early.ring_ends[i] by {
                assert(late.ring_ends.take(prior.ring_ends.len() as int)[i] == prior.ring_ends[i]);
                assert(prior.ring_ends.take(early.ring_ends.len() as int)[i]
                    == early.ring_ends[i]);
            }
        }
        assert(late.polys.take(m) =~= prior.polys.take(m));
    } else {
        assert(late.coords.take(early.coords.len() as int) =~= early.coords);
        assert(late.ring_ends.take(early.ring_ends.len() as int) =~= early.ring_ends);
        if n > 0 {
            lemma_polys_grow(b, layout, 0, n - 1);
            let prior = decode_spec(b, layout, n - 1);
            let rings = poly_refs(b, layout, n - 1)->0;
            lemma_rings_grow(b, layout, rings, prior, 0, rings.len() as int);
        }
        assert(late.polys.take(m) =~= early.polys);
    }
}

/// Constructs an eager-cache element by narrowing a decoded coordinate pair
/// to the storage width.
pub trait EagerCoord: CoordPair {
    /// Whether the storage width holds this point.
    spec fn holds(v: Point) -> bool;

    fn from_q(x: i32, y: i32) -> (pair: Self)
        requires
            Self::holds((x as int, y as int)),
        ensures
            point_of(pair.pair()) == (x as int, y as int),
    ;

    /// Whether two elements hold the same point.
    fn same(&self, other: &Self) -> (equal: bool)
        ensures
            equal == (point_of(self.pair()) == point_of(other.pair())),
    ;
}

impl EagerCoord for (i32, i32) {
    open spec fn holds(v: Point) -> bool {
        true
    }

    fn from_q(x: i32, y: i32) -> (pair: Self) {
        (x, y)
    }

    fn same(&self, other: &Self) -> (equal: bool) {
        self.0 == other.0 && self.1 == other.1
    }
}

impl EagerCoord for (i16, i16) {
    open spec fn holds(v: Point) -> bool {
        -0x8000 <= v.0 < 0x8000 && -0x8000 <= v.1 < 0x8000
    }

    fn from_q(x: i32, y: i32) -> (pair: Self) {
        (x as i16, y as i16)
    }

    fn same(&self, other: &Self) -> (equal: bool) {
        self.0 == other.0 && self.1 == other.1
    }
}

/// Decodes one signed arc reference onto the end of `coords`, storing a
/// shared junction vertex once.
fn append_arc<C: EagerCoord>(
    payload: &[u8],
    layout: &PayloadLayout,
    arc_ref: u64,
    coords: &mut Vec<C>,
)
    requires
        arcs_within(*layout, payload@.len() as int),
        arc_points(payload@, *layout, (arc_ref / 2) as int) is Some,
        forall|v: Point|
            vertex_fits(v, layout.quant_bits.size()) ==> #[trigger] C::holds(v),
    ensures
        points_of(final(coords)@) == append_spec(
            points_of(old(coords)@),
            ref_arc(payload@, *layout, arc_ref as nat),
        ),
{
    let arc = read_arc(payload, layout, (arc_ref / 2) as usize);
    let reversed: bool = arc_ref % 2 == 1;
    let n: usize = arc.len();
    let ghost before = points_of(coords@);
    let ghost walked = ref_arc(payload@, *layout, arc_ref as nat);
    assert(walked.len() == n);
    let head: (i32, i32) = if reversed { arc[n - 1] } else { arc[0] };
    assert(walked[0] == point_of(head));
    // a junction vertex shared with the previous arc is stored once
    let start: usize = if coords.len() > 0 && {
        assert(vertex_fits(point_of(head), layout.quant_bits.size()));
        C::from_q(head.0, head.1).same(&coords[coords.len() - 1])
    } {
        1
    } else {
        0
    };
    assert(start == 1 <==> before.len() > 0 && before.last() == walked[0]);
    let mut i: usize = start;
    while i < n
        invariant
            start <= i <= n,
            n == arc@.len(),
            walked.len() == n,
            walked == ref_arc(payload@, *layout, arc_ref as nat),
            arc_points(payload@, *layout, (arc_ref / 2) as int) == Some(points_of(arc@)),
            reversed == (arc_ref % 2 == 1),
            forall|k: int|
                0 <= k < arc@.len() ==> vertex_fits(
                    point_of(#[trigger] arc@[k]),
                    layout.quant_bits.size(),
                ),
            forall|v: Point|
                vertex_fits(v, layout.quant_bits.size())
                    ==> #[trigger] C::holds(v),
            points_of(coords@) =~= before + walked.subrange(start as int, i as int),
        decreases n - i,
    {
        let (x, y): (i32, i32) = if reversed { arc[n - 1 - i] } else { arc[i] };
        assert(walked[i as int] == (x as int, y as int));
        assert(C::holds((x as int, y as int)));
        let ghost prior = coords@;
        coords.push(C::from_q(x, y));
        assert(points_of(coords@) =~= points_of(prior).push(walked[i as int]));
        i = i + 1;
    }
    assert(walked.subrange(start as int, n as int) =~= if start == 1 {
        walked.skip(1)
    } else {
        walked
    });
}

/// Whether the storage width of `C` holds every vertex of this layout.
pub open spec fn width_holds<C: EagerCoord>(layout: PayloadLayout) -> bool {
    forall|v: Point| vertex_fits(v, layout.quant_bits.size()) ==> #[trigger] C::holds(v)
}

/// Decodes one ring at `position` onto the end of `coords`, returning the
/// position behind its references.
fn decode_ring<C: EagerCoord>(
    payload: &[u8],
    layout: &PayloadLayout,
    position: usize,
    coords: &mut Vec<C>,
) -> (after: usize)
    requires
        arcs_within(*layout, payload@.len() as int),
        ring_refs_at(payload@, position as int) matches Some((refs, _)) && refs_ok(
            payload@,
            *layout,
            refs,
        ),
        width_holds::<C>(*layout),
    ensures
        ring_refs_at(payload@, position as int) matches Some((refs, end)) && after == end
            && points_of(final(coords)@) == stitch_ring(
            payload@,
            *layout,
            refs,
            points_of(old(coords)@),
        ),
{
    let ghost (refs, end) = ring_refs_at(payload@, position as int)->0;
    let ghost base = points_of(coords@);
    let start: usize = coords.len();
    let (arc_ref_count, after_count): (u64, usize) = read_varint(payload, position);
    let mut ref_position: usize = after_count;
    let mut left: u64 = arc_ref_count;
    let ghost mut done: Seq<nat> = Seq::empty();
    proof {
        reveal(refs_left);
        assert(done + refs =~= refs);
    }
    while left > 0
        invariant
            arcs_within(*layout, payload@.len() as int),
            refs_ok(payload@, *layout, refs),
            width_holds::<C>(*layout),
            refs_left(payload@, ref_position as int, left as nat, done, refs, end),
            done.len() <= refs.len(),
            points_of(coords@) == stitch_refs(payload@, *layout, refs, base, done.len() as int),
        decreases left,
    {
        proof {
            lemma_refs_step(payload@, ref_position as int, left as nat, done, refs, end);
        }
        let (arc_ref, after_ref): (u64, usize) = read_varint(payload, ref_position);
        let ghost k = done.len() as int;
        assert(refs[k] == arc_ref as nat);
        assert(arc_points(payload@, *layout, (refs[k] / 2) as int) is Some);
        append_arc::<C>(payload, layout, arc_ref, coords);
        proof {
            done = done.push(arc_ref as nat);
        }
        ref_position = after_ref;
        left = left - 1;
    }
    proof {
        reveal(refs_left);
        assert(done + Seq::<nat>::empty() =~= done);
        lemma_stitch_grows(payload@, *layout, refs, base, refs.len() as int);
    }
    // drop the duplicated ring-closure vertex (the ring scan wraps)
    let n: usize = coords.len();
    let ghost open = points_of(coords@);
    if n > start && n - start > 1 && coords[n - 1].same(&coords[start]) {
        coords.pop();
        assert(points_of(coords@) =~= open.drop_last());
    }
    ref_position
}

/// The bounding box of an eager record.
pub open spec fn box_of(b: [i32; 4]) -> BBox {
    BBox { min_x: b[0] as int, min_y: b[1] as int, max_x: b[2] as int, max_y: b[3] as int }
}

/// Ring ends as integers.
pub open spec fn ends_of(ends: Seq<u32>) -> Seq<int> {
    Seq::new(ends.len(), |i: int| ends[i] as int)
}

/// Eager poly records as integers.
pub open spec fn records_of(polys: Seq<([i32; 4], u32)>) -> Seq<(BBox, int)> {
    Seq::new(polys.len(), |i: int| (box_of(polys[i].0), polys[i].1 as int))
}

/// The cache that three flat arrays hold.
pub open spec fn cache_of<C: CoordPair>(
    coords: Seq<C>,
    ring_ends: Seq<u32>,
    polys: Seq<([i32; 4], u32)>,
) -> Cache {
    Cache { coords: points_of(coords), ring_ends: ends_of(ring_ends), polys: records_of(polys) }
}

/// Whether the decoded cache's counts fit their stored width.
pub open spec fn cache_fits(b: Seq<u8>, layout: PayloadLayout) -> bool {
    let cache = decode_spec(b, layout, layout.eager_polys as int);
    cache.coords.len() <= u32::MAX && cache.ring_ends.len() <= u32::MAX
}

/// Runs the preload decode pass over every poly, generic over the cache's
/// coordinate width. `None` means the counts outgrow their stored width.
#[verifier::spinoff_prover]
#[verifier::rlimit(40)]
pub fn decode_rings<C: EagerCoord>(payload: &[u8], layout: &PayloadLayout) -> (r: Option<
    (Vec<C>, Vec<u32>, Vec<([i32; 4], u32)>),
>)
    requires
        arcs_within(*layout, payload@.len() as int),
        polys_ok(payload@, *layout),
        width_holds::<C>(*layout),
    ensures
        match r {
            Some((coords, ring_ends, polys)) => cache_of(coords@, ring_ends@, polys@)
                == decode_spec(payload@, *layout, layout.eager_polys as int) && cache_fits(
                payload@,
                *layout,
            ),
            None => !cache_fits(payload@, *layout),
        },
{
    let len: usize = payload.len();
    let coord_bytes: usize = layout.quant_bits.bytes();
    let mut coords: Vec<C> = Vec::new();
    let mut ring_ends: Vec<u32> = Vec::new();
    let mut polys: Vec<([i32; 4], u32)> = Vec::new();
    let mut poly_id: u32 = 0;
    assert(cache_of(coords@, ring_ends@, polys@) =~= decode_spec(payload@, *layout, 0));
    while poly_id < layout.eager_polys
        invariant
            poly_id <= layout.eager_polys,
            len == payload@.len(),
            coord_bytes == layout.quant_bits.size(),
            2 <= coord_bytes <= 4,
            arcs_within(*layout, payload@.len() as int),
            polys_ok(payload@, *layout),
            width_holds::<C>(*layout),
            cache_of(coords@, ring_ends@, polys@) == decode_spec(
                payload@,
                *layout,
                poly_id as int,
            ),
        decreases layout.eager_polys - poly_id,
    {
        assert(arc_poly_ok(payload@, *layout, poly_id as int));
        let ghost prior = decode_spec(payload@, *layout, poly_id as int);
        let ghost rings = poly_refs(payload@, *layout, poly_id as int)->0;
        proof {
            lemma_polys_grow(
                payload@,
                *layout,
                poly_id + 1,
                layout.eager_polys as int,
            );
        }
        let offset: u32 = read_u32(payload, layout.poly_offsets + poly_id as usize * 4);
        assert(layout.ring_data + offset + 4 * coord_bytes + 2 <= len);
        let start: usize = layout.ring_data + offset as usize;
        let bbox: [i32; 4] = [
            read_fixed(payload, start, layout.quant_bits),
            read_fixed(payload, start + coord_bytes, layout.quant_bits),
            read_fixed(payload, start + 2 * coord_bytes, layout.quant_bits),
            read_fixed(payload, start + 3 * coord_bytes, layout.quant_bits),
        ];
        let ring_count: u16 = read_u16(payload, start + 4 * coord_bytes);
        let mut position: usize = start + 4 * coord_bytes + 2;
        let mut left: u16 = ring_count;
        let ghost mut done: Seq<Seq<nat>> = Seq::empty();
        proof {
            reveal(rings_left);
            assert(done + rings =~= rings);
        }
        while left > 0
            invariant
                arcs_within(*layout, payload@.len() as int),
                arc_poly_ok(payload@, *layout, poly_id as int),
                width_holds::<C>(*layout),
                rings == poly_refs(payload@, *layout, poly_id as int)->0,
                rings_left(payload@, position as int, left as nat, done, rings),
                done.len() <= rings.len(),
                decode_rings_spec(
                    payload@,
                    *layout,
                    rings,
                    prior,
                    rings.len() as int,
                ).coords.len() <= decode_spec(
                    payload@,
                    *layout,
                    layout.eager_polys as int,
                ).coords.len(),
                cache_of(coords@, ring_ends@, polys@) == decode_rings_spec(
                    payload@,
                    *layout,
                    rings,
                    prior,
                    done.len() as int,
                ),
            decreases left,
        {
            proof {
                lemma_rings_step(payload@, position as int, left as nat, done, rings);
                lemma_rings_grow(
                    payload@,
                    *layout,
                    rings,
                    prior,
                    done.len() as int + 1,
                    rings.len() as int,
                );
            }
            let ghost k = done.len() as int;
            let ghost (refs, _next) = ring_refs_at(payload@, position as int)->0;
            assert(refs_ok(payload@, *layout, rings[k]));
            let ghost before = cache_of(coords@, ring_ends@, polys@);
            position = decode_ring::<C>(payload, layout, position, &mut coords);
            assert(coords@.len() == points_of(coords@).len());
            if coords.len() > 0xFFFF_FFFF {
                return None;
            }
            ring_ends.push(coords.len() as u32);
            proof {
                done = done.push(refs);
                assert(ends_of(ring_ends@) =~= before.ring_ends.push(coords@.len() as int));
                assert(cache_of(coords@, ring_ends@, polys@) =~= decode_rings_spec(
                    payload@,
                    *layout,
                    rings,
                    prior,
                    k + 1,
                ));
            }
            left = left - 1;
        }
        proof {
            reveal(rings_left);
            assert(done + Seq::<Seq<nat>>::empty() =~= done);
        }
        let ghost before = cache_of(coords@, ring_ends@, polys@);
        assert(ring_ends@.len() == before.ring_ends.len());
        if ring_ends.len() > 0xFFFF_FFFF {
            return None;
        }
        polys.push((bbox, ring_ends.len() as u32));
        proof {
            assert(box_of(bbox) == poly_box(payload@, *layout, poly_id as int));
            assert(records_of(polys@) =~= before.polys.push(
                (box_of(bbox), ring_ends@.len() as int),
            ));
            assert(cache_of(coords@, ring_ends@, polys@) =~= decode_spec(
                payload@,
                *layout,
                poly_id + 1,
            ));
        }
        poly_id = poly_id + 1;
    }
    proof {
        let cache = decode_spec(payload@, *layout, layout.eager_polys as int);
        lemma_decode_ok(payload@, *layout, layout.eager_polys as int);
        assert(cache.ring_ends.len() > 0 ==> cache.ring_ends.last() == ring_ends@.last());
        assert(layout.eager_polys > 0 ==> cache.polys.last().1 == polys@.last().1);
    }
    Some((coords, ring_ends, polys))
}

/// The first vertex of ring `r` in the flat array.
pub open spec fn ring_begin(ring_ends: Seq<int>, r: int) -> int {
    if r == 0 { 0 } else { ring_ends[r - 1] }
}

/// The first ring of poly `id`.
pub open spec fn poly_begin(cache: Cache, id: int) -> int {
    if id == 0 { 0 } else { cache.polys[id - 1].1 }
}

/// The vertices of ring `r`.
pub open spec fn cache_ring(coords: Seq<Point>, ring_ends: Seq<int>, r: int) -> Seq<Point> {
    coords.subrange(ring_begin(ring_ends, r), ring_ends[r])
}

/// The hits of the rings `first..last`.
pub open spec fn range_hits(
    coords: Seq<Point>,
    ring_ends: Seq<int>,
    first: int,
    last: int,
    p: Point,
) -> Seq<RingHit> {
    Seq::new(
        (last - first) as nat,
        |k: int| ring_spec(cache_ring(coords, ring_ends, first + k), p),
    )
}

/// Whether poly `id` of the cache claims `p`. A 16-bit cache holds no point
/// outside 16 bits.
pub open spec fn cache_claims(cache: Cache, narrow: bool, id: int, p: Point) -> bool {
    &&& in_box(cache.polys[id].0, p)
    &&& narrow ==> vertex_fits(p, 2)
    &&& fold_hits(
        range_hits(cache.coords, cache.ring_ends, poly_begin(cache, id), cache.polys[id].1, p),
    )
}

/// Whether ring ends are monotone and within the vertex array.
pub open spec fn ends_ok(ring_ends: Seq<int>, n_coords: int) -> bool {
    forall|r: int|
        0 <= r < ring_ends.len() ==> 0 <= ring_begin(ring_ends, r) <= #[trigger] ring_ends[r]
            <= n_coords
}

/// Whether the index tables of a cache are consistent.
pub open spec fn cache_ok(cache: Cache) -> bool {
    &&& ends_ok(cache.ring_ends, cache.coords.len() as int)
    &&& forall|id: int|
        0 <= id < cache.polys.len() ==> 0 <= poly_begin(cache, id) <= (#[trigger] cache.polys[id]).1
            <= cache.ring_ends.len()
}

/// Whether one slice is a run of another.
pub open spec fn run_of<P>(ring: Seq<P>, coords: Seq<P>) -> bool {
    exists|from: int, to: int|
        0 <= from <= to <= coords.len() && ring == #[trigger] coords.subrange(from, to)
}

/// Runs the even-odd fold over consecutive rings `[ring_start, ring_end)` of
/// a flat cache; `scan` is the width-matched ring kernel.
#[verifier::spinoff_prover]
#[verifier::rlimit(40)]
pub fn rings_hit<P: CoordPair, F: Fn(&[P], P::Narrow, P::Narrow) -> RingHit>(
    coords: &[P],
    ring_ends: &[u32],
    ring_start: usize,
    ring_end: usize,
    px: P::Narrow,
    py: P::Narrow,
    scan: F,
) -> (claimed: bool)
    requires
        ends_ok(ends_of(ring_ends@), coords@.len() as int),
        ring_start <= ring_end <= ring_ends@.len(),
        forall|ring: &[P]|
            run_of(ring@, coords@) ==> #[trigger] call_requires(scan, (ring, px, py)),
        forall|ring: &[P], hit: RingHit|
            #[trigger] call_ensures(scan, (ring, px, py), hit) ==> hit == ring_spec(
                points_of(ring@),
                point_of((px, py)),
            ),
    ensures
        claimed == fold_hits(
            range_hits(
                points_of(coords@),
                ends_of(ring_ends@),
                ring_start as int,
                ring_end as int,
                point_of((px, py)),
            ),
        ),
{
    let ghost p = point_of((px, py));
    let ghost ends = ends_of(ring_ends@);
    let ghost hits = range_hits(points_of(coords@), ends, ring_start as int, ring_end as int, p);
    let mut inside: bool = false;
    let mut coord_start: usize = if ring_start == 0 {
        0
    } else {
        assert(ends[ring_start - 1] == ring_ends@[ring_start - 1]);
        ring_ends[ring_start - 1] as usize
    };
    let mut r: usize = ring_start;
    while r < ring_end
        invariant
            ring_start <= r <= ring_end <= ring_ends@.len(),
            ends == ends_of(ring_ends@),
            ends_ok(ends, coords@.len() as int),
            coord_start == ring_begin(ends, r as int),
            p == point_of((px, py)),
            hits == range_hits(points_of(coords@), ends, ring_start as int, ring_end as int, p),
            forall|ring: &[P]|
                run_of(ring@, coords@) ==> #[trigger] call_requires(scan, (ring, px, py)),
            forall|ring: &[P], hit: RingHit|
                #[trigger] call_ensures(scan, (ring, px, py), hit) ==> hit == ring_spec(
                    points_of(ring@),
                    p,
                ),
            inside == odd_inside(hits, r - ring_start),
            !any_boundary(hits, r - ring_start),
        decreases ring_end - r,
    {
        assert(ends[r as int] == ring_ends@[r as int]);
        let coord_end: usize = ring_ends[r] as usize;
        let ring = vstd::slice::slice_subrange(coords, coord_start, coord_end);
        let ghost k = r - ring_start;
        proof {
            assert(ring@ == coords@.subrange(coord_start as int, coord_end as int));
            assert(run_of(ring@, coords@));
            assert(points_of(ring@) =~= cache_ring(points_of(coords@), ends, r as int));
            assert(hits[k] == ring_spec(points_of(ring@), p));
        }
        match scan(ring, px, py) {
            RingHit::Boundary => {
                assert(hits[k] == RingHit::Boundary);
                return true;
            },
            RingHit::Inside => inside = !inside,
            RingHit::Outside => {},
        }
        coord_start = coord_end;
        r = r + 1;
    }
    inside
}

/// The eager cache's coordinate store, kept at quant-nearest width.
pub enum EagerCoords {
    Narrow(Vec<(i16, i16)>),
    Wide(Vec<(i32, i32)>),
}

/// Eager-mode storage, which holds every ring decoded into flat arrays.
pub struct Eager {
    pub coords: EagerCoords,
    /// The exclusive end into `coords` for each ring.
    pub ring_ends: Vec<u32>,
    /// One entry per polygon: the bounding box plus the exclusive end into
    /// `ring_ends`.
    pub polys: Vec<([i32; 4], u32)>,
}

impl Eager {
    /// The cache this storage holds.
    pub open spec fn cache(&self) -> Cache {
        match self.coords {
            EagerCoords::Narrow(coords) => cache_of(coords@, self.ring_ends@, self.polys@),
            EagerCoords::Wide(coords) => cache_of(coords@, self.ring_ends@, self.polys@),
        }
    }

    /// Whether vertices are stored at 16 bits.
    pub open spec fn narrow(&self) -> bool {
        self.coords is Narrow
    }

    /// Whether the storage is consistent and, below 32-bit quantization,
    /// within the narrow kernels' range.
    pub open spec fn wf(&self, quant_bits: QuantBits) -> bool {
        &&& cache_ok(self.cache())
        &&& quant_bits != QuantBits::Bits32 ==> match self.coords {
            EagerCoords::Narrow(_) => true,
            EagerCoords::Wide(coords) => forall|i: int|
                0 <= i < coords@.len() ==> within_30_bits(#[trigger] coords@[i]),
        }
    }

    /// Runs the even-odd fold over the pre-decoded poly. The bounding box
    /// still skips whole folds for candidates that touch the cell but not the
    /// point.
    pub fn poly_contains(&self, quant_bits: QuantBits, poly_id: u16, px: i32, py: i32) -> (claimed:
        bool)
        requires
            self.wf(quant_bits),
            poly_id < self.polys@.len(),
        ensures
            claimed == cache_claims(
                self.cache(),
                self.narrow(),
                poly_id as int,
                (px as int, py as int),
            ),
    {
        let ghost cache = self.cache();
        let poly_index: usize = poly_id as usize;
        assert(cache.polys[poly_index as int] == (
            box_of(self.polys@[poly_index as int].0),
            self.polys@[poly_index as int].1 as int,
        ));
        let record = &self.polys[poly_index];
        let bbox: [i32; 4] = record.0;
        let ring_end: usize = record.1 as usize;
        if !(px >= bbox[0] && py >= bbox[1] && px <= bbox[2] && py <= bbox[3]) {
            return false;
        }
        let ring_start: usize = if poly_index == 0 {
            0
        } else {
            assert(cache.polys[poly_index - 1].1 == self.polys@[poly_index - 1].1);
            self.polys[poly_index - 1].1 as usize
        };
        match &self.coords {
            EagerCoords::Narrow(coords) => {
                // an in-box point of a valid 16-bit asset always fits 16
                // bits; the early return covers adversarial boxes
                if px < -0x8000 || px > 0x7FFF || py < -0x8000 || py > 0x7FFF {
                    return false;
                }
                rings_hit::<(i16, i16), _>(
                    coords.as_slice(),
                    self.ring_ends.as_slice(),
                    ring_start,
                    ring_end,
                    px as i16,
                    py as i16,
                    ring_hit_narrow16,
                )
            },
            EagerCoords::Wide(coords) => {
                if quant_bits == QuantBits::Bits32 {
                    rings_hit::<(i32, i32), _>(
                        coords.as_slice(),
                        self.ring_ends.as_slice(),
                        ring_start,
                        ring_end,
                        px,
                        py,
                        ring_hit_wide,
                    )
                } else {
                    rings_hit::<(i32, i32), _>(
                        coords.as_slice(),
                        self.ring_ends.as_slice(),
                        ring_start,
                        ring_end,
                        px,
                        py,
                        ring_hit_narrow,
                    )
                }
            },
        }
    }
}

/// Stitched vertices fit the quantization width.
proof fn lemma_stitch_fits(
    b: Seq<u8>,
    layout: PayloadLayout,
    refs: Seq<nat>,
    coords: Seq<Point>,
    n: int,
)
    requires
        0 <= n <= refs.len(),
        refs_ok(b, layout, refs),
        all_fit(coords, layout.quant_bits.size()),
    ensures
        all_fit(stitch_refs(b, layout, refs, coords, n), layout.quant_bits.size()),
    decreases n,
{
    if n > 0 {
        lemma_stitch_fits(b, layout, refs, coords, n - 1);
        let size = layout.quant_bits.size();
        let prior = stitch_refs(b, layout, refs, coords, n - 1);
        let id = (refs[n - 1] / 2) as int;
        assert(arc_points(b, layout, id) is Some);
        lemma_arc_fits(b, layout, id);
        let arc = arc_points(b, layout, id)->0;
        let walked = ref_arc(b, layout, refs[n - 1]);
        assert forall|i: int| 0 <= i < walked.len() implies vertex_fits(
            #[trigger] walked[i],
            size,
        ) by {
            if refs[n - 1] % 2 == 1 {
                assert(walked[i] == arc[arc.len() - 1 - i]);
            }
        }
        let after = append_spec(prior, walked);
        assert forall|i: int| 0 <= i < after.len() implies vertex_fits(#[trigger] after[i], size) by {
            if i < prior.len() {
                assert(after[i] == prior[i]);
            } else if after.len() == prior.len() + walked.len() {
                assert(after[i] == walked[i - prior.len()]);
            } else {
                assert(after[i] == walked[i - prior.len() + 1]);
            }
        }
    }
}

/// The rings of one poly keep the cache consistent and its vertices in width.
proof fn lemma_rings_ok(
    b: Seq<u8>,
    layout: PayloadLayout,
    rings: Seq<Seq<nat>>,
    cache: Cache,
    n: int,
)
    requires
        0 <= n <= rings.len(),
        forall|i: int| 0 <= i < rings.len() ==> refs_ok(b, layout, #[trigger] rings[i]),
        ends_ok(cache.ring_ends, cache.coords.len() as int),
        cache.ring_ends.len() == 0 ==> cache.coords.len() == 0,
        cache.ring_ends.len() > 0 ==> cache.ring_ends.last() == cache.coords.len(),
        all_fit(cache.coords, layout.quant_bits.size()),
    ensures
        ({
            let after = decode_rings_spec(b, layout, rings, cache, n);
            &&& ends_ok(after.ring_ends, after.coords.len() as int)
            &&& after.ring_ends.len() == 0 ==> after.coords.len() == 0
            &&& after.ring_ends.len() > 0 ==> after.ring_ends.last() == after.coords.len()
            &&& all_fit(after.coords, layout.quant_bits.size())
        }),
    decreases n,
{
    if n > 0 {
        lemma_rings_ok(b, layout, rings, cache, n - 1);
        let prior = decode_rings_spec(b, layout, rings, cache, n - 1);
        let refs = rings[n - 1];
        lemma_stitch_fits(b, layout, refs, prior.coords, refs.len() as int);
        lemma_ring_grows(b, layout, refs, prior.coords);
        let after = decode_rings_spec(b, layout, rings, cache, n);
        let m = prior.ring_ends.len() as int;
        assert forall|r: int| 0 <= r < after.ring_ends.len() implies 0 <= ring_begin(
            after.ring_ends,
            r,
        ) <= #[trigger] after.ring_ends[r] <= after.coords.len() by {
            if r < m {
                assert(after.ring_ends[r] == prior.ring_ends[r]);
                assert(ring_begin(after.ring_ends, r) == ring_begin(prior.ring_ends, r));
            } else {
                assert(ring_begin(after.ring_ends, r) == prior.coords.len());
            }
        }
        let open = stitch_refs(b, layout, refs, prior.coords, refs.len() as int);
        assert forall|i: int| 0 <= i < after.coords.len() implies vertex_fits(
            #[trigger] after.coords[i],
            layout.quant_bits.size(),
        ) by {
            assert(after.coords[i] == open[i]);
        }
    }
}

/// A decoded cache is consistent, and its vertices fit the width.
pub proof fn lemma_decode_ok(b: Seq<u8>, layout: PayloadLayout, n: int)
    requires
        polys_ok(b, layout),
        0 <= n <= layout.eager_polys,
    ensures
        ({
            let cache = decode_spec(b, layout, n);
            &&& cache_ok(cache)
            &&& all_fit(cache.coords, layout.quant_bits.size())
            &&& cache.polys.len() == n
            &&& cache.ring_ends.len() == 0 ==> cache.coords.len() == 0
            &&& cache.ring_ends.len() > 0 ==> cache.ring_ends.last() == cache.coords.len()
            &&& cache.ring_ends.len() == if n == 0 { 0 } else { cache.polys[n - 1].1 }
        }),
    decreases n,
{
    if n > 0 {
        lemma_decode_ok(b, layout, n - 1);
        assert(arc_poly_ok(b, layout, n - 1));
        let prior = decode_spec(b, layout, n - 1);
        let rings = poly_refs(b, layout, n - 1)->0;
        lemma_rings_ok(b, layout, rings, prior, rings.len() as int);
        lemma_rings_grow(b, layout, rings, prior, 0, rings.len() as int);
        let cache = decode_spec(b, layout, n);
        assert forall|id: int| 0 <= id < cache.polys.len() implies 0 <= poly_begin(cache, id) <= (
        #[trigger] cache.polys[id]).1 <= cache.ring_ends.len() by {
            if id < n - 1 {
                assert(cache.polys[id] == prior.polys[id]);
                assert(poly_begin(cache, id) == poly_begin(prior, id));
            } else {
                assert(poly_begin(cache, id) == prior.ring_ends.len());
            }
        }
    }
}

/// Decodes all polygons of an arc-store payload into the eager cache, at
/// quant-nearest width. `None` means the counts outgrow their stored width.
pub fn decode(payload: &[u8], layout: &PayloadLayout) -> (r: Option<Eager>)
    requires
        arcs_within(*layout, payload@.len() as int),
        polys_ok(payload@, *layout),
    ensures
        match r {
            Some(eager) => {
                &&& cache_fits(payload@, *layout)
                &&& eager.cache() == decode_spec(payload@, *layout, layout.eager_polys as int)
                &&& eager.narrow() == (layout.quant_bits == QuantBits::Bits16)
                &&& eager.wf(layout.quant_bits)
                &&& eager.polys@.len() == layout.eager_polys
            },
            None => !cache_fits(payload@, *layout),
        },
{
    proof {
        lemma_decode_ok(payload@, *layout, layout.eager_polys as int);
    }
    if layout.quant_bits == QuantBits::Bits16 {
        match decode_rings::<(i16, i16)>(payload, layout) {
            None => None,
            Some((coords, ring_ends, polys)) => {
                assert(records_of(polys@).len() == polys@.len());
                Some(Eager { coords: EagerCoords::Narrow(coords), ring_ends, polys })
            },
        }
    } else {
        match decode_rings::<(i32, i32)>(payload, layout) {
            None => None,
            Some((coords, ring_ends, polys)) => {
                assert(records_of(polys@).len() == polys@.len());
                assert forall|i: int|
                    0 <= i < coords@.len() && layout.quant_bits
                        != QuantBits::Bits32 implies within_30_bits(#[trigger] coords@[i]) by {
                    assert(vertex_fits(points_of(coords@)[i], layout.quant_bits.size()));
                }
                Some(Eager { coords: EagerCoords::Wide(coords), ring_ends, polys })
            },
        }
    }
}

} // verus!
