//! What the geometry sections of a payload mean: arcs, ring records, and the
//! stitched rings of the eager cache, each as a function of the bytes.
//!
//! A decoding function is `None` where the bytes do not hold what it reads:
//! a section that ends early, a varint of more than ten bytes, a vertex
//! outside the quantization width, or a reference to an arc that does not
//! exist.

use vstd::prelude::*;

use crate::bytes::{fits, fixed_at, u16_at, u32_at, unzigzag_spec, varint_at};
use crate::common::GeomEncoding;
use crate::format::PayloadLayout;
use crate::path::path_spec;
use crate::pip::{any_boundary, fold_hits, odd_inside, Point, RingHit};

verus! {

/// The varint at `i`, as a 64-bit count: its value modulo 2^64 and the
/// position behind it.
pub open spec fn count_at(b: Seq<u8>, i: int) -> Option<(nat, int)> {
    match varint_at(b, i) {
        Some((value, next)) => if next - i <= 10 {
            Some((value % 0x1_0000_0000_0000_0000, next))
        } else {
            None
        },
        None => None,
    }
}

/// The quant-width vertex at `pos`.
pub open spec fn vertex_at(b: Seq<u8>, pos: int, size: int) -> Point {
    (fixed_at(b, pos, size), fixed_at(b, pos + size, size))
}

/// Whether both coordinates fit the quantization width.
pub open spec fn vertex_fits(v: Point, size: int) -> bool {
    fits(v.0, size) && fits(v.1, size)
}

/// One vertex behind the first of an arc: its value and the position behind
/// it. Fixed-width arcs store it absolutely, varint arcs as two zigzag deltas
/// from `last`.
pub open spec fn arc_step(b: Seq<u8>, fixed: bool, size: int, pos: int, last: Point) -> Option<
    (Point, int),
> {
    if fixed {
        if 0 <= pos && pos + 2 * size <= b.len() {
            Some((vertex_at(b, pos, size), pos + 2 * size))
        } else {
            None
        }
    } else {
        match count_at(b, pos) {
            Some((dx, middle)) => match count_at(b, middle) {
                Some((dy, next)) => {
                    let v = (last.0 + unzigzag_spec(dx), last.1 + unzigzag_spec(dy));
                    if vertex_fits(v, size) { Some((v, next)) } else { None }
                },
                None => None,
            },
            None => None,
        }
    }
}

/// The `n` vertices that follow `last`.
pub open spec fn arc_tail(
    b: Seq<u8>,
    fixed: bool,
    size: int,
    pos: int,
    last: Point,
    n: nat,
) -> Option<Seq<Point>>
    decreases n,
{
    if n == 0 {
        Some(Seq::empty())
    } else {
        match arc_step(b, fixed, size, pos, last) {
            Some((v, next)) => match arc_tail(b, fixed, size, next, v, (n - 1) as nat) {
                Some(rest) => Some(seq![v] + rest),
                None => None,
            },
            None => None,
        }
    }
}

/// The arc record at `pos`: a vertex count, the first vertex, and the rest.
/// The first vertex is always present, even under a count of zero.
pub open spec fn arc_at(b: Seq<u8>, fixed: bool, size: int, pos: int) -> Option<Seq<Point>> {
    match count_at(b, pos) {
        Some((n, first)) => if first + 2 * size <= b.len() {
            let v = vertex_at(b, first, size);
            match arc_tail(
                b,
                fixed,
                size,
                first + 2 * size,
                v,
                if n == 0 { 0 } else { (n - 1) as nat },
            ) {
                Some(rest) => Some(seq![v] + rest),
                None => None,
            }
        } else {
            None
        },
        None => None,
    }
}

/// Whether this layout's arcs are fixed-width.
pub open spec fn fixed_arcs(layout: PayloadLayout) -> bool {
    layout.geom == GeomEncoding::FixedWidthArcs
}

/// The position of arc record `id`.
pub open spec fn arc_pos(b: Seq<u8>, layout: PayloadLayout, id: int) -> int {
    layout.arc_data + u32_at(b, layout.arc_offsets + 4 * id)
}

/// The vertices of arc `id`.
pub open spec fn arc_points(b: Seq<u8>, layout: PayloadLayout, id: int) -> Option<Seq<Point>> {
    if 0 <= id < layout.n_arcs {
        arc_at(b, fixed_arcs(layout), layout.quant_bits.size(), arc_pos(b, layout, id))
    } else {
        None
    }
}

/// Whether the arc tables of this layout lie within a payload of `len` bytes.
pub open spec fn arcs_within(layout: PayloadLayout, len: int) -> bool {
    &&& layout.geom == GeomEncoding::VarintArcs || layout.geom == GeomEncoding::FixedWidthArcs
    &&& layout.arc_data == layout.arc_offsets + 4 * (layout.n_arcs + 1)
    &&& layout.arc_data <= len
    &&& layout.poly_offsets == layout.parent + 2 * layout.eager_polys
    &&& layout.ring_data == layout.poly_offsets + 4 * (layout.eager_polys + 1)
    &&& layout.ring_data <= len
}

/// `n` varints in a row: their values and the position behind them.
pub open spec fn refs_at(b: Seq<u8>, pos: int, n: nat) -> Option<(Seq<nat>, int)>
    decreases n,
{
    if n == 0 {
        Some((Seq::empty(), pos))
    } else {
        match count_at(b, pos) {
            Some((r, next)) => match refs_at(b, next, (n - 1) as nat) {
                Some((rest, end)) => Some((seq![r] + rest, end)),
                None => None,
            },
            None => None,
        }
    }
}

/// One ring of a poly record: a reference count and that many arc references.
pub open spec fn ring_refs_at(b: Seq<u8>, pos: int) -> Option<(Seq<nat>, int)> {
    match count_at(b, pos) {
        Some((n, next)) => refs_at(b, next, n),
        None => None,
    }
}

/// `n` rings in a row: their references and the position behind them.
pub open spec fn rings_at(b: Seq<u8>, pos: int, n: nat) -> Option<(Seq<Seq<nat>>, int)>
    decreases n,
{
    if n == 0 {
        Some((Seq::empty(), pos))
    } else {
        match ring_refs_at(b, pos) {
            Some((refs, next)) => match rings_at(b, next, (n - 1) as nat) {
                Some((rest, end)) => Some((seq![refs] + rest, end)),
                None => None,
            },
            None => None,
        }
    }
}

/// A bounding box: min x, min y, max x, max y.
pub struct BBox {
    pub min_x: int,
    pub min_y: int,
    pub max_x: int,
    pub max_y: int,
}

/// Whether a point lies in a closed bounding box.
pub open spec fn in_box(bbox: BBox, p: Point) -> bool {
    bbox.min_x <= p.0 && bbox.min_y <= p.1 && p.0 <= bbox.max_x && p.1 <= bbox.max_y
}

/// The quant-width bounding box at `pos`.
pub open spec fn bbox_at(b: Seq<u8>, pos: int, size: int) -> BBox {
    BBox {
        min_x: fixed_at(b, pos, size),
        min_y: fixed_at(b, pos + size, size),
        max_x: fixed_at(b, pos + 2 * size, size),
        max_y: fixed_at(b, pos + 3 * size, size),
    }
}

/// The position of the ring record of poly `id`.
pub open spec fn record_pos(b: Seq<u8>, layout: PayloadLayout, id: int) -> int {
    layout.ring_data + u32_at(b, layout.poly_offsets + 4 * id)
}

/// The rings of poly `id`, each as its arc references.
pub open spec fn poly_refs(b: Seq<u8>, layout: PayloadLayout, id: int) -> Option<Seq<Seq<nat>>> {
    let size = layout.quant_bits.size();
    let pos = record_pos(b, layout, id);
    if pos + 4 * size + 2 <= b.len() {
        match rings_at(b, pos + 4 * size + 2, u16_at(b, pos + 4 * size) as nat) {
            Some((rings, _)) => Some(rings),
            None => None,
        }
    } else {
        None
    }
}

/// The bounding box of poly `id`.
pub open spec fn poly_box(b: Seq<u8>, layout: PayloadLayout, id: int) -> BBox {
    bbox_at(b, record_pos(b, layout, id), layout.quant_bits.size())
}

/// Whether every reference of a ring names an arc that decodes.
pub open spec fn refs_ok(b: Seq<u8>, layout: PayloadLayout, refs: Seq<nat>) -> bool {
    forall|i: int|
        0 <= i < refs.len() ==> arc_points(b, layout, (#[trigger] refs[i] / 2) as int) is Some
}

/// Whether poly `id` of an arc-store payload decodes.
pub open spec fn arc_poly_ok(b: Seq<u8>, layout: PayloadLayout, id: int) -> bool {
    &&& 0 <= id < layout.eager_polys
    &&& poly_refs(b, layout, id) matches Some(rings) && forall|i: int|
        0 <= i < rings.len() ==> refs_ok(b, layout, #[trigger] rings[i])
}

/// Whether poly `id` of an arc-store payload can be tested against `p`: its
/// bounding box is there, and where that holds the point the poly decodes.
pub open spec fn arc_claim_ok(b: Seq<u8>, layout: PayloadLayout, id: int, p: Point) -> bool {
    &&& 0 <= id < layout.eager_polys
    &&& record_pos(b, layout, id) + 4 * layout.quant_bits.size() <= b.len()
    &&& in_box(poly_box(b, layout, id), p) ==> arc_poly_ok(b, layout, id)
}

/// The hits of one ring's arcs, each walked forward.
pub open spec fn arc_hits(b: Seq<u8>, layout: PayloadLayout, refs: Seq<nat>, p: Point) -> Seq<
    RingHit,
> {
    Seq::new(
        refs.len(),
        |i: int| path_spec(arc_points(b, layout, (refs[i] / 2) as int)->0, p),
    )
}

/// The hits of several polylines as one: a boundary hit wins, otherwise the
/// parities XOR.
pub open spec fn merge(hits: Seq<RingHit>) -> RingHit {
    if any_boundary(hits, hits.len() as int) {
        RingHit::Boundary
    } else if odd_inside(hits, hits.len() as int) {
        RingHit::Inside
    } else {
        RingHit::Outside
    }
}

/// The hits of a poly's rings, folded arc by arc.
pub open spec fn ring_hits(
    b: Seq<u8>,
    layout: PayloadLayout,
    rings: Seq<Seq<nat>>,
    p: Point,
) -> Seq<RingHit> {
    Seq::new(rings.len(), |i: int| merge(arc_hits(b, layout, rings[i], p)))
}

/// Whether poly `id` of an arc-store payload claims `p`: the bounding box
/// gates, then the even-odd fold over its rings' arcs decides.
pub open spec fn arc_poly_claims(b: Seq<u8>, layout: PayloadLayout, id: int, p: Point) -> bool {
    &&& in_box(poly_box(b, layout, id), p)
    &&& fold_hits(ring_hits(b, layout, poly_refs(b, layout, id)->0, p))
}

/// What a walk over varint references has left to read.
#[verifier::opaque]
pub open spec fn refs_left(b: Seq<u8>, pos: int, n: nat, done: Seq<nat>, whole: Seq<nat>, end: int) -> bool {
    refs_at(b, pos, n) matches Some((rest, next)) && done + rest == whole && next == end
}

/// A reference walk with references left can read one.
pub proof fn lemma_refs_step(
    b: Seq<u8>,
    pos: int,
    n: nat,
    done: Seq<nat>,
    whole: Seq<nat>,
    end: int,
)
    requires
        refs_left(b, pos, n, done, whole, end),
        n > 0,
    ensures
        count_at(b, pos) matches Some((r, next)) && refs_left(
            b,
            next,
            (n - 1) as nat,
            done.push(r),
            whole,
            end,
        ) && done.len() < whole.len() && whole[done.len() as int] == r,
{
    reveal(refs_left);
    let (r, next) = count_at(b, pos)->0;
    let (rest, _) = refs_at(b, next, (n - 1) as nat)->0;
    assert(done.push(r) + rest =~= done + (seq![r] + rest));
    assert(whole[done.len() as int] == (done + (seq![r] + rest))[done.len() as int]);
}

/// What a walk over ring records has left to read.
#[verifier::opaque]
pub open spec fn rings_left(b: Seq<u8>, pos: int, n: nat, done: Seq<Seq<nat>>, whole: Seq<Seq<nat>>) -> bool {
    rings_at(b, pos, n) matches Some((rest, _)) && done + rest == whole
}

/// A ring walk with rings left can read one.
pub proof fn lemma_rings_step(b: Seq<u8>, pos: int, n: nat, done: Seq<Seq<nat>>, whole: Seq<Seq<nat>>)
    requires
        rings_left(b, pos, n, done, whole),
        n > 0,
    ensures
        ring_refs_at(b, pos) matches Some((refs, next)) && rings_left(
            b,
            next,
            (n - 1) as nat,
            done.push(refs),
            whole,
        ) && done.len() < whole.len() && whole[done.len() as int] == refs,
{
    reveal(rings_left);
    let (refs, next) = ring_refs_at(b, pos)->0;
    let (rest, _) = rings_at(b, next, (n - 1) as nat)->0;
    assert(done.push(refs) + rest =~= done + (seq![refs] + rest));
    assert(whole[done.len() as int] == (done + (seq![refs] + rest))[done.len() as int]);
}

/// Whether every vertex of a polyline fits the quantization width.
pub open spec fn all_fit(path: Seq<Point>, size: int) -> bool {
    forall|i: int| 0 <= i < path.len() ==> vertex_fits(#[trigger] path[i], size)
}

proof fn lemma_tail_fits(b: Seq<u8>, fixed: bool, size: int, pos: int, last: Point, n: nat)
    requires
        2 <= size <= 4,
    ensures
        arc_tail(b, fixed, size, pos, last, n) matches Some(rest) ==> all_fit(rest, size)
            && rest.len() == n,
    decreases n,
{
    if n > 0 && arc_step(b, fixed, size, pos, last) is Some {
        let (v, next) = arc_step(b, fixed, size, pos, last)->0;
        lemma_tail_fits(b, fixed, size, next, v, (n - 1) as nat);
        if arc_tail(b, fixed, size, next, v, (n - 1) as nat) is Some {
            let rest = arc_tail(b, fixed, size, next, v, (n - 1) as nat)->0;
            let all = seq![v] + rest;
            assert forall|i: int| 0 <= i < all.len() implies vertex_fits(#[trigger] all[i], size) by {
                if i > 0 {
                    assert(all[i] == rest[i - 1]);
                }
            }
        }
    }
}

/// A decoded arc has at least one vertex, and every vertex fits the
/// quantization width.
pub proof fn lemma_arc_fits(b: Seq<u8>, layout: PayloadLayout, id: int)
    ensures
        arc_points(b, layout, id) matches Some(arc) ==> arc.len() >= 1 && all_fit(
            arc,
            layout.quant_bits.size(),
        ),
{
    let size = layout.quant_bits.size();
    if arc_points(b, layout, id) is Some {
        let pos = arc_pos(b, layout, id);
        let (n, first) = count_at(b, pos)->0;
        let v = vertex_at(b, first, size);
        let k: nat = if n == 0 { 0 } else { (n - 1) as nat };
        lemma_tail_fits(b, fixed_arcs(layout), size, first + 2 * size, v, k);
        let rest = arc_tail(b, fixed_arcs(layout), size, first + 2 * size, v, k)->0;
        let all = seq![v] + rest;
        assert forall|i: int| 0 <= i < all.len() implies vertex_fits(#[trigger] all[i], size) by {
            if i > 0 {
                assert(all[i] == rest[i - 1]);
            }
        }
    }
}

} // verus!
