//! What the reader decodes from the sections the encoder writes.

use vstd::prelude::*;
use vstd::utf8::encode_utf8;

use crate::bytes::{
    fits, le_bytes, lemma_fixed_round_trip, lemma_unsigned_round_trip, lemma_varint_len_bound,
    lemma_varint_round_trip, lemma_zigzag_inverse, pow128, u16_at, u32_at, varint_bytes,
    zigzag_spec,
};
use crate::clean::Vertex;
use crate::common::{GeomEncoding, QuantBits};
use crate::eager::Cache;
use crate::encode::Params;
use crate::full_rings::{full_cache, i32_at};
use crate::csr::{ids_of, lemma_ids_grow};
use crate::format::{cell_at, list_id, list_offset, parent_at, string_offset, PayloadLayout};
use crate::geometry::{
    arc_at, arc_points, arc_pos, arc_step, arc_tail, bbox_at, count_at, poly_box, poly_refs,
    record_pos, refs_at, ring_refs_at, rings_at, vertex_at, vertex_fits, BBox,
};
use crate::payload::{
    arcs_off_of, cell_value, coord_size, geometry_of, header_bytes, header_len, name_offsets, padding_of,
    payload_bytes, refusal, zone_bytes, Source,
};
use crate::pip::Point;
use crate::sections::{
    arc_record, arc_records, box_bytes, box_rings, concat, coords_bytes, flat_coords, flat_rings,
    image_box, image_polys, lemma_coords_len, lemma_flat_rings, offsets_bytes, poly_record,
    poly_records, refs_bytes, ring_ends, ring_record, rings_bytes, step_bytes, u16_table,
    u32_table, vertex_bytes, vertices_bytes, GridBox,
};

verus! {

/// Whether `w` stands at `pos` in `b`.
pub open spec fn holds(b: Seq<u8>, pos: int, w: Seq<u8>) -> bool {
    &&& 0 <= pos
    &&& pos + w.len() <= b.len()
    &&& b.subrange(pos, pos + w.len()) == w
}

pub proof fn lemma_holds_split(b: Seq<u8>, pos: int, u: Seq<u8>, v: Seq<u8>)
    requires
        holds(b, pos, u + v),
    ensures
        holds(b, pos, u),
        holds(b, pos + u.len(), v),
{
    let w = b.subrange(pos, pos + (u + v).len());
    assert(w == u + v);
    assert(b.subrange(pos, pos + u.len()) =~= w.subrange(0, u.len() as int));
    assert(w.subrange(0, u.len() as int) =~= u);
    assert(b.subrange(pos + u.len(), pos + u.len() + v.len()) =~= w.subrange(
        u.len() as int,
        w.len() as int,
    ));
    assert(w.subrange(u.len() as int, w.len() as int) =~= v);
}

/// A vertex as a point.
pub open spec fn point_of(v: Vertex) -> Point {
    (v.0 as int, v.1 as int)
}

/// A path's points.
pub open spec fn points_of(a: Seq<Vertex>) -> Seq<Point> {
    Seq::new(a.len(), |i: int| point_of(a[i]))
}

/// Whether every vertex fits the quantization width.
pub open spec fn path_fits(a: Seq<Vertex>, size: int) -> bool {
    forall|i: int| 0 <= i < a.len() ==> vertex_fits(point_of(#[trigger] a[i]), size)
}

proof fn lemma_pow128()
    ensures
        pow128(5) == 0x8_0000_0000,
{
    reveal_with_fuel(pow128, 7);
}

proof fn lemma_count_reads(b: Seq<u8>, pos: int, v: nat)
    requires
        holds(b, pos, varint_bytes(v)),
        v < 0x8_0000_0000,
    ensures
        count_at(b, pos) == Some((v, pos + varint_bytes(v).len() as int)),
{
    lemma_pow128();
    lemma_varint_round_trip(b, pos, v);
    lemma_varint_len_bound(v, 5);
}

proof fn lemma_vertex_reads(b: Seq<u8>, pos: int, v: Vertex, size: nat)
    requires
        2 <= size <= 4,
        holds(b, pos, vertex_bytes(v, size)),
        vertex_fits(point_of(v), size as int),
    ensures
        vertex_at(b, pos, size as int) == point_of(v),
{
    lemma_holds_split(b, pos, le_bytes(v.0 as int, size), le_bytes(v.1 as int, size));
    lemma_fixed_round_trip(b, pos, v.0 as int, size);
    lemma_fixed_round_trip(b, pos + size, v.1 as int, size);
}

/// The bytes of an arc's vertices from `i` on.
spec fn steps_from(a: Seq<Vertex>, fixed: bool, size: nat, i: int) -> Seq<u8>
    decreases a.len() - i,
{
    if i >= a.len() {
        Seq::empty()
    } else {
        step_bytes(a, fixed, size, i) + steps_from(a, fixed, size, i + 1)
    }
}

proof fn lemma_steps(a: Seq<Vertex>, fixed: bool, size: nat, i: int)
    requires
        0 <= i <= a.len(),
    ensures
        vertices_bytes(a, fixed, size, a.len() as int) == vertices_bytes(a, fixed, size, i)
            + steps_from(a, fixed, size, i),
    decreases a.len() - i,
{
    if i < a.len() {
        lemma_steps(a, fixed, size, i + 1);
        assert(vertices_bytes(a, fixed, size, i + 1) + steps_from(a, fixed, size, i + 1)
            =~= vertices_bytes(a, fixed, size, i) + (step_bytes(a, fixed, size, i) + steps_from(
            a,
            fixed,
            size,
            i + 1,
        )));
    } else {
        assert(vertices_bytes(a, fixed, size, i) + steps_from(a, fixed, size, i)
            =~= vertices_bytes(a, fixed, size, i));
    }
}

proof fn lemma_tail_reads(b: Seq<u8>, pos: int, a: Seq<Vertex>, fixed: bool, size: nat, i: int)
    requires
        2 <= size <= 4,
        1 <= i <= a.len(),
        holds(b, pos, steps_from(a, fixed, size, i)),
        path_fits(a, size as int),
    ensures
        arc_tail(b, fixed, size as int, pos, point_of(a[i - 1]), (a.len() - i) as nat) == Some(
            points_of(a).skip(i),
        ),
    decreases a.len() - i,
{
    if i < a.len() {
        let step = step_bytes(a, fixed, size, i);
        lemma_holds_split(b, pos, step, steps_from(a, fixed, size, i + 1));
        assert(vertex_fits(point_of(a[i]), size as int));
        assert(vertex_fits(point_of(a[i - 1]), size as int));
        let next = pos + step.len();
        if fixed {
            lemma_vertex_reads(b, pos, a[i], size);
        } else {
            let dx = zigzag_spec(a[i].0 - a[i - 1].0);
            let dy = zigzag_spec(a[i].1 - a[i - 1].1);
            lemma_holds_split(b, pos, varint_bytes(dx), varint_bytes(dy));
            lemma_count_reads(b, pos, dx);
            lemma_count_reads(b, pos + varint_bytes(dx).len(), dy);
            lemma_zigzag_inverse(a[i].0 - a[i - 1].0, dx);
            lemma_zigzag_inverse(a[i].1 - a[i - 1].1, dy);
        }
        assert(arc_step(b, fixed, size as int, pos, point_of(a[i - 1])) == Some(
            (point_of(a[i]), next),
        ));
        lemma_tail_reads(b, next, a, fixed, size, i + 1);
        assert(seq![point_of(a[i])] + points_of(a).skip(i + 1) =~= points_of(a).skip(i));
    } else {
        assert(points_of(a).skip(i) =~= Seq::<Point>::empty());
    }
}

/// An arc record reads back as the arc it was written from, in both arc
/// encodings.
pub proof fn lemma_arc_reads_back(b: Seq<u8>, pos: int, a: Seq<Vertex>, fixed: bool, size: nat)
    requires
        2 <= size <= 4,
        1 <= a.len() <= u32::MAX,
        holds(b, pos, arc_record(a, fixed, size)),
        path_fits(a, size as int),
    ensures
        arc_at(b, fixed, size as int, pos) == Some(points_of(a)),
{
    let n = varint_bytes(a.len());
    lemma_holds_split(b, pos, n, vertices_bytes(a, fixed, size, a.len() as int));
    lemma_count_reads(b, pos, a.len());
    let first = pos + n.len();
    lemma_steps(a, fixed, size, 1);
    assert(vertices_bytes(a, fixed, size, 1) =~= vertex_bytes(a[0], size)) by {
        assert(vertices_bytes(a, fixed, size, 0) =~= Seq::<u8>::empty());
    }
    lemma_holds_split(b, first, vertex_bytes(a[0], size), steps_from(a, fixed, size, 1));
    assert(vertex_fits(point_of(a[0]), size as int));
    lemma_vertex_reads(b, first, a[0], size);
    lemma_tail_reads(b, first + 2 * size, a, fixed, size, 1);
    assert(seq![point_of(a[0])] + points_of(a).skip(1) =~= points_of(a));
}

/// A ring's references as numbers.
pub open spec fn ref_numbers(refs: Seq<u32>) -> Seq<nat> {
    Seq::new(refs.len(), |i: int| refs[i] as nat)
}

/// A poly's rings as numbers.
pub open spec fn ring_numbers(rings: Seq<Seq<u32>>) -> Seq<Seq<nat>> {
    Seq::new(rings.len(), |i: int| ref_numbers(rings[i]))
}

/// The bytes of a ring's references from `i` on.
spec fn refs_from(refs: Seq<u32>, i: int) -> Seq<u8>
    decreases refs.len() - i,
{
    if i >= refs.len() {
        Seq::empty()
    } else {
        varint_bytes(refs[i] as nat) + refs_from(refs, i + 1)
    }
}

proof fn lemma_refs_from(refs: Seq<u32>, i: int)
    requires
        0 <= i <= refs.len(),
    ensures
        refs_bytes(refs, refs.len() as int) == refs_bytes(refs, i) + refs_from(refs, i),
    decreases refs.len() - i,
{
    if i < refs.len() {
        lemma_refs_from(refs, i + 1);
        assert(refs_bytes(refs, i + 1) + refs_from(refs, i + 1) =~= refs_bytes(refs, i) + (
        varint_bytes(refs[i] as nat) + refs_from(refs, i + 1)));
    } else {
        assert(refs_bytes(refs, i) + refs_from(refs, i) =~= refs_bytes(refs, i));
    }
}

proof fn lemma_refs_read(b: Seq<u8>, pos: int, refs: Seq<u32>, i: int)
    requires
        0 <= i <= refs.len(),
        holds(b, pos, refs_from(refs, i)),
    ensures
        refs_at(b, pos, (refs.len() - i) as nat) == Some(
            (ref_numbers(refs).skip(i), pos + refs_from(refs, i).len() as int),
        ),
    decreases refs.len() - i,
{
    if i < refs.len() {
        let w = varint_bytes(refs[i] as nat);
        lemma_holds_split(b, pos, w, refs_from(refs, i + 1));
        lemma_count_reads(b, pos, refs[i] as nat);
        lemma_refs_read(b, pos + w.len(), refs, i + 1);
        assert(seq![refs[i] as nat] + ref_numbers(refs).skip(i + 1) =~= ref_numbers(refs).skip(i));
    } else {
        assert(ref_numbers(refs).skip(i) =~= Seq::<nat>::empty());
    }
}

proof fn lemma_ring_reads(b: Seq<u8>, pos: int, refs: Seq<u32>)
    requires
        refs.len() <= u32::MAX,
        holds(b, pos, ring_record(refs)),
    ensures
        ring_refs_at(b, pos) == Some((ref_numbers(refs), pos + ring_record(refs).len() as int)),
{
    let n = varint_bytes(refs.len());
    lemma_holds_split(b, pos, n, refs_bytes(refs, refs.len() as int));
    lemma_count_reads(b, pos, refs.len());
    lemma_refs_from(refs, 0);
    assert(refs_bytes(refs, 0) + refs_from(refs, 0) =~= refs_from(refs, 0));
    lemma_refs_read(b, pos + n.len(), refs, 0);
    assert(ref_numbers(refs).skip(0) =~= ref_numbers(refs));
}

/// The records of a poly's rings from `i` on.
spec fn rings_from(rings: Seq<Seq<u32>>, i: int) -> Seq<u8>
    decreases rings.len() - i,
{
    if i >= rings.len() {
        Seq::empty()
    } else {
        ring_record(rings[i]) + rings_from(rings, i + 1)
    }
}

proof fn lemma_rings_from(rings: Seq<Seq<u32>>, i: int)
    requires
        0 <= i <= rings.len(),
    ensures
        rings_bytes(rings, rings.len() as int) == rings_bytes(rings, i) + rings_from(rings, i),
    decreases rings.len() - i,
{
    if i < rings.len() {
        lemma_rings_from(rings, i + 1);
        assert(rings_bytes(rings, i + 1) + rings_from(rings, i + 1) =~= rings_bytes(rings, i) + (
        ring_record(rings[i]) + rings_from(rings, i + 1)));
    } else {
        assert(rings_bytes(rings, i) + rings_from(rings, i) =~= rings_bytes(rings, i));
    }
}

proof fn lemma_rings_read(b: Seq<u8>, pos: int, rings: Seq<Seq<u32>>, i: int)
    requires
        0 <= i <= rings.len(),
        forall|k: int| 0 <= k < rings.len() ==> (#[trigger] rings[k]).len() <= u32::MAX,
        holds(b, pos, rings_from(rings, i)),
    ensures
        rings_at(b, pos, (rings.len() - i) as nat) == Some(
            (ring_numbers(rings).skip(i), pos + rings_from(rings, i).len() as int),
        ),
    decreases rings.len() - i,
{
    if i < rings.len() {
        let w = ring_record(rings[i]);
        lemma_holds_split(b, pos, w, rings_from(rings, i + 1));
        assert(rings[i].len() <= u32::MAX);
        lemma_ring_reads(b, pos, rings[i]);
        lemma_rings_read(b, pos + w.len(), rings, i + 1);
        assert(seq![ref_numbers(rings[i])] + ring_numbers(rings).skip(i + 1) =~= ring_numbers(
            rings,
        ).skip(i));
    } else {
        assert(ring_numbers(rings).skip(i) =~= Seq::<Seq<nat>>::empty());
    }
}

/// A grid box as the reader sees it.
pub open spec fn box_of(b: GridBox) -> BBox {
    BBox {
        min_x: b.min_x as int,
        min_y: b.min_y as int,
        max_x: b.max_x as int,
        max_y: b.max_y as int,
    }
}

/// Whether a box fits the quantization width.
pub open spec fn box_fits(b: GridBox, size: int) -> bool {
    fits(b.min_x as int, size) && fits(b.min_y as int, size) && fits(b.max_x as int, size) && fits(
        b.max_y as int,
        size,
    )
}

proof fn lemma_box_reads(b: Seq<u8>, pos: int, bb: GridBox, size: nat)
    requires
        2 <= size <= 4,
        holds(b, pos, box_bytes(bb, size)),
        box_fits(bb, size as int),
    ensures
        bbox_at(b, pos, size as int) == box_of(bb),
{
    let w = [
        le_bytes(bb.min_x as int, size),
        le_bytes(bb.min_y as int, size),
        le_bytes(bb.max_x as int, size),
        le_bytes(bb.max_y as int, size),
    ];
    lemma_holds_split(b, pos, w[0] + w[1] + w[2], w[3]);
    lemma_holds_split(b, pos, w[0] + w[1], w[2]);
    lemma_holds_split(b, pos, w[0], w[1]);
    lemma_fixed_round_trip(b, pos, bb.min_x as int, size);
    lemma_fixed_round_trip(b, pos + size, bb.min_y as int, size);
    lemma_fixed_round_trip(b, pos + 2 * size, bb.max_x as int, size);
    lemma_fixed_round_trip(b, pos + 3 * size, bb.max_y as int, size);
}

proof fn lemma_u16_reads(b: Seq<u8>, pos: int, v: int)
    requires
        holds(b, pos, le_bytes(v, 2)),
        0 <= v <= 0xFFFF,
    ensures
        u16_at(b, pos) == v,
{
    lemma_unsigned_round_trip(b, pos, v, 2);
}

pub proof fn lemma_u32_reads(b: Seq<u8>, pos: int, v: int)
    requires
        holds(b, pos, le_bytes(v, 4)),
        0 <= v <= 0xFFFF_FFFF,
    ensures
        u32_at(b, pos) == v,
{
    lemma_unsigned_round_trip(b, pos, v, 4);
}

pub proof fn lemma_record_holds(b: Seq<u8>, pos: int, records: Seq<Seq<u8>>, n: int, i: int)
    requires
        0 <= i < n <= records.len(),
        holds(b, pos, concat(records, n)),
    ensures
        holds(b, pos + concat(records, i).len(), records[i]),
    decreases n,
{
    lemma_holds_split(b, pos, concat(records, n - 1), records[n - 1]);
    if i < n - 1 {
        lemma_record_holds(b, pos, records, n - 1, i);
    }
}

proof fn lemma_offset_holds(b: Seq<u8>, pos: int, records: Seq<Seq<u8>>, n: int, i: int)
    requires
        0 <= i < n,
        holds(b, pos, offsets_bytes(records, n)),
    ensures
        offsets_bytes(records, n).len() == 4 * n,
        holds(b, pos + 4 * i, le_bytes(concat(records, i).len() as int, 4)),
    decreases n,
{
    lemma_offsets_len(records, n);
    lemma_offsets_len(records, n - 1);
    lemma_holds_split(
        b,
        pos,
        offsets_bytes(records, n - 1),
        le_bytes(concat(records, n - 1).len() as int, 4),
    );
    if i < n - 1 {
        lemma_offset_holds(b, pos, records, n - 1, i);
    }
}

proof fn lemma_offsets_len(records: Seq<Seq<u8>>, n: int)
    requires
        n >= 0,
    ensures
        offsets_bytes(records, n).len() == 4 * n,
    decreases n,
{
    if n > 0 {
        lemma_offsets_len(records, n - 1);
    }
}

proof fn lemma_concat_grows(records: Seq<Seq<u8>>, m: int, n: int)
    requires
        0 <= m <= n <= records.len(),
    ensures
        concat(records, m).len() <= concat(records, n).len(),
    decreases n - m,
{
    if m < n {
        lemma_concat_grows(records, m, n - 1);
    }
}

pub proof fn lemma_u16_table(b: Seq<u8>, pos: int, v: Seq<u16>, n: int, i: int)
    requires
        0 <= i < n <= v.len(),
        holds(b, pos, u16_table(v, n)),
    ensures
        u16_table(v, n).len() == 2 * n,
        u16_at(b, pos + 2 * i) == v[i],
    decreases n,
{
    lemma_u16_table_len(v, n);
    lemma_u16_table_len(v, n - 1);
    lemma_holds_split(b, pos, u16_table(v, n - 1), le_bytes(v[n - 1] as int, 2));
    if i < n - 1 {
        lemma_u16_table(b, pos, v, n - 1, i);
    } else {
        lemma_u16_reads(b, pos + 2 * i, v[i] as int);
    }
}

proof fn lemma_u16_table_len(v: Seq<u16>, n: int)
    requires
        n >= 0,
    ensures
        u16_table(v, n).len() == 2 * n,
    decreases n,
{
    if n > 0 {
        lemma_u16_table_len(v, n - 1);
    }
}

/// The width a payload is quantized to.
pub open spec fn quant_of(bits: u32) -> QuantBits {
    if bits == 16 {
        QuantBits::Bits16
    } else if bits == 24 {
        QuantBits::Bits24
    } else {
        QuantBits::Bits32
    }
}

/// Whether a layout points into the arc store and ring index a payload was
/// written with.
pub open spec fn arcs_laid_out(layout: PayloadLayout, p: Params, src: Source) -> bool {
    let arcs_off = arcs_off_of(p, src);
    let rings_off = arcs_off + geometry_of(p, src).arcs.len();
    let n = src.polys.len();
    &&& layout.geom == p.geom
    &&& p.geom == GeomEncoding::VarintArcs || p.geom == GeomEncoding::FixedWidthArcs
    &&& layout.quant_bits == quant_of(p.quant_bits)
    &&& layout.n_arcs == src.arcs.len()
    &&& layout.arc_offsets == arcs_off + 4
    &&& layout.arc_data == arcs_off + 4 + 4 * (src.arcs.len() + 1)
    &&& layout.parent == rings_off
    &&& layout.poly_offsets == rings_off + 2 * n
    &&& layout.ring_data == rings_off + 2 * n + 4 * (n + 1)
    &&& layout.eager_polys == n
}

/// Where the sections stand in a payload.
pub proof fn lemma_sections_stand(p: Params, src: Source)
    ensures
        ({
            let b = payload_bytes(p, src);
            let s = geometry_of(p, src);
            let header = header_len(encode_utf8(p.tzbb_release@).len() as int);
            let arcs_off = arcs_off_of(p, src);
            let rings_off = arcs_off + s.arcs.len();
            let grid_off = rings_off + s.rings.len();
            &&& holds(b, header, zone_bytes(src.names))
            &&& holds(b, arcs_off, s.arcs)
            &&& holds(b, rings_off, s.rings)
            &&& holds(
                b,
                grid_off,
                crate::payload::grid_bytes(
                    src.ncols,
                    src.nrows,
                    src.entries,
                    src.lists,
                    src.parent,
                ),
            )
        }),
{
    reveal(payload_bytes);
    let b = payload_bytes(p, src);
    let s = geometry_of(p, src);
    let arcs_off = arcs_off_of(p, src);
    let rings_off = arcs_off + s.arcs.len();
    let grid_off = rings_off + s.rings.len();
    let head = header_bytes(
        p,
        src.names.len() as int,
        arcs_off,
        rings_off,
        grid_off,
        s,
        src.polys.len() as int,
    );
    let zones = zone_bytes(src.names);
    let pad = padding_of(p, src);
    let grid = crate::payload::grid_bytes(
        src.ncols,
        src.nrows,
        src.entries,
        src.lists,
        src.parent,
    );
    assert(head.len() == header_len(encode_utf8(p.tzbb_release@).len() as int));
    assert(b.subrange(0, b.len() as int) =~= b);
    assert(holds(b, 0, head + zones + pad + s.arcs + s.rings + grid));
    lemma_holds_split(b, 0, head + zones + pad + s.arcs + s.rings, grid);
    lemma_holds_split(b, 0, head + zones + pad + s.arcs, s.rings);
    lemma_holds_split(b, 0, head + zones + pad, s.arcs);
    lemma_holds_split(b, 0, head + zones, pad);
    lemma_holds_split(b, 0, head, zones);
}

/// What acceptance of a payload means for its sizes.
pub proof fn lemma_accepted(p: Params, src: Source)
    requires
        refusal(p, src) is None,
    ensures
        p.quant_bits == 16 || p.quant_bits == 24 || p.quant_bits == 32,
        2 <= coord_size(p.quant_bits) <= 4,
        quant_of(p.quant_bits).size() == coord_size(p.quant_bits),
        payload_bytes(p, src).len() <= u32::MAX,
        src.arcs.len() <= u32::MAX,
        crate::snapped::total_verts(src.arcs, src.arcs.len() as int) <= u32::MAX,
        !crate::payload::too_many_rings(p.geom, src.polys),
        src.lists.len() < 0x7FFF,
        src.names.len() < 0x7FFF,
        ids_of(src.lists, src.lists.len() as int).len() <= 0xFFFF,
        concat(src.names, src.names.len() as int).len() <= 0xFFFF,
{
}

/// An arc store's offset table finds the arc's record behind it.
pub proof fn lemma_arc_found(
    b: Seq<u8>,
    at: int,
    arcs: Seq<Seq<Vertex>>,
    fixed: bool,
    size: nat,
    id: int,
)
    requires
        b.len() <= u32::MAX,
        0 <= id < arcs.len(),
        ({
            let records = arc_records(arcs, fixed, size);
            let n = records.len() as int;
            holds(b, at, offsets_bytes(records, n + 1) + concat(records, n))
        }),
    ensures
        holds(
            b,
            at + 4 * (arcs.len() + 1) + u32_at(b, at + 4 * id),
            arc_record(arcs[id], fixed, size),
        ),
{
    let records = arc_records(arcs, fixed, size);
    let n = records.len() as int;
    lemma_holds_split(b, at, offsets_bytes(records, n + 1), concat(records, n));
    lemma_offset_holds(b, at, records, n + 1, id);
    lemma_concat_grows(records, id, n);
    lemma_u32_reads(b, at + 4 * id, concat(records, id).len() as int);
    lemma_record_holds(b, at + 4 * (n + 1), records, n, id);
    assert(records[id] == arc_record(arcs[id], fixed, size));
}

proof fn lemma_arc_stands(
    b: Seq<u8>,
    at: int,
    arcs: Seq<Seq<Vertex>>,
    fixed: bool,
    size: nat,
    id: int,
)
    requires
        b.len() <= u32::MAX,
        0 <= id < arcs.len(),
        ({
            let records = arc_records(arcs, fixed, size);
            let n = records.len() as int;
            holds(
                b,
                at,
                le_bytes(arcs.len() as int, 4) + offsets_bytes(records, n + 1) + concat(
                    records,
                    n,
                ),
            )
        }),
    ensures
        holds(
            b,
            at + 4 + 4 * (arcs.len() + 1) + u32_at(b, at + 4 + 4 * id),
            arc_record(arcs[id], fixed, size),
        ),
{
    let records = arc_records(arcs, fixed, size);
    let n = records.len() as int;
    let count = le_bytes(arcs.len() as int, 4);
    let store = offsets_bytes(records, n + 1) + concat(records, n);
    assert(count + store =~= count + offsets_bytes(records, n + 1) + concat(records, n));
    lemma_holds_split(b, at, count, store);
    lemma_arc_found(b, at + 4, arcs, fixed, size, id);
}

/// Every arc of a payload reads back: what the reader decodes for arc `id` is
/// the arc's exact vertices.
pub proof fn lemma_payload_arcs_read_back(p: Params, src: Source, layout: PayloadLayout, id: int)
    requires
        refusal(p, src) is None,
        arcs_laid_out(layout, p, src),
        0 <= id < src.arcs.len(),
        src.arcs[id].len() >= 1,
        path_fits(src.arcs[id], coord_size(p.quant_bits) as int),
    ensures
        arc_points(payload_bytes(p, src), layout, id) == Some(points_of(src.arcs[id])),
{
    let b = payload_bytes(p, src);
    let fixed = p.geom == GeomEncoding::FixedWidthArcs;
    lemma_accepted(p, src);
    lemma_sections_stand(p, src);
    lemma_arc_stands(
        b,
        arcs_off_of(p, src),
        src.arcs,
        fixed,
        coord_size(p.quant_bits),
        id,
    );
    crate::snapped::lemma_verts_grow(src.arcs, id + 1, src.arcs.len() as int);
    lemma_arc_reads_back(
        b,
        arc_pos(b, layout, id),
        src.arcs[id],
        fixed,
        coord_size(p.quant_bits),
    );
}

pub proof fn lemma_poly_stands(
    b: Seq<u8>,
    at: int,
    parent: Seq<u16>,
    polys: Seq<Seq<Seq<u32>>>,
    arcs: Seq<Seq<Vertex>>,
    size: nat,
    id: int,
)
    requires
        b.len() <= u32::MAX,
        parent.len() == polys.len(),
        0 <= id < polys.len(),
        ({
            let records = poly_records(polys, arcs, size);
            let n = records.len() as int;
            holds(
                b,
                at,
                u16_table(parent, parent.len() as int) + offsets_bytes(records, n + 1) + concat(
                    records,
                    n,
                ),
            )
        }),
    ensures
        u16_at(b, at + 2 * id) == parent[id],
        holds(
            b,
            at + 2 * polys.len() + 4 * (polys.len() + 1) + u32_at(
                b,
                at + 2 * polys.len() + 4 * id,
            ),
            poly_record(polys[id], arcs, size),
        ),
{
    let records = poly_records(polys, arcs, size);
    let n = records.len() as int;
    let table = u16_table(parent, n);
    lemma_u16_table_len(parent, n);
    lemma_offsets_len(records, n + 1);
    lemma_holds_split(b, at, table + offsets_bytes(records, n + 1), concat(records, n));
    lemma_holds_split(b, at, table, offsets_bytes(records, n + 1));
    lemma_u16_table(b, at, parent, n, id);
    lemma_offset_holds(b, at + 2 * n, records, n + 1, id);
    lemma_concat_grows(records, id, n);
    lemma_u32_reads(b, at + 2 * n + 4 * id, concat(records, id).len() as int);
    lemma_record_holds(b, at + 2 * n + 4 * (n + 1), records, n, id);
    assert(records[id] == poly_record(polys[id], arcs, size));
}

pub proof fn lemma_poly_record_reads(
    b: Seq<u8>,
    pos: int,
    rings: Seq<Seq<u32>>,
    arcs: Seq<Seq<Vertex>>,
    size: nat,
)
    requires
        b.len() <= u32::MAX,
        2 <= size <= 4,
        rings.len() <= 0xFFFF,
        holds(b, pos, poly_record(rings, arcs, size)),
        box_fits(box_rings(rings, arcs, rings.len() as int), size as int),
    ensures
        bbox_at(b, pos, size as int) == box_of(box_rings(rings, arcs, rings.len() as int)),
        pos + 4 * size + 2 <= b.len(),
        rings_at(b, pos + 4 * size + 2, u16_at(b, pos + 4 * size) as nat) matches Some((read, _))
            && read == ring_numbers(rings),
{
    let bb = box_rings(rings, arcs, rings.len() as int);
    let count = le_bytes(rings.len() as int, 2);
    lemma_holds_split(
        b,
        pos,
        box_bytes(bb, size) + count,
        rings_bytes(rings, rings.len() as int),
    );
    lemma_holds_split(b, pos, box_bytes(bb, size), count);
    lemma_box_reads(b, pos, bb, size);
    lemma_u16_reads(b, pos + 4 * size, rings.len() as int);
    lemma_rings_from(rings, 0);
    assert(rings_bytes(rings, 0) + rings_from(rings, 0) =~= rings_from(rings, 0));
    assert forall|k: int| 0 <= k < rings.len() implies (#[trigger] rings[k]).len()
        <= u32::MAX by {
        lemma_ring_len(rings, k, rings.len() as int);
    }
    lemma_rings_read(b, pos + 4 * size + 2, rings, 0);
    assert(ring_numbers(rings).skip(0) =~= ring_numbers(rings));
}

/// Every polygon of a payload reads back: the reader finds its exact ring
/// references, its bounding box, and its feature.
pub proof fn lemma_payload_polys_read_back(p: Params, src: Source, layout: PayloadLayout, id: int)
    requires
        refusal(p, src) is None,
        arcs_laid_out(layout, p, src),
        src.parent.len() == src.polys.len(),
        0 <= id < src.polys.len(),
        box_fits(
            box_rings(src.polys[id], src.arcs, src.polys[id].len() as int),
            coord_size(p.quant_bits) as int,
        ),
    ensures
        poly_refs(payload_bytes(p, src), layout, id) == Some(ring_numbers(src.polys[id])),
        poly_box(payload_bytes(p, src), layout, id) == box_of(
            box_rings(src.polys[id], src.arcs, src.polys[id].len() as int),
        ),
        parent_at(payload_bytes(p, src), layout, id) == src.parent[id],
{
    let b = payload_bytes(p, src);
    let size = coord_size(p.quant_bits);
    let rings_off = arcs_off_of(p, src) + geometry_of(p, src).arcs.len();
    let rings = src.polys[id];
    lemma_accepted(p, src);
    lemma_sections_stand(p, src);
    lemma_poly_stands(b, rings_off, src.parent, src.polys, src.arcs, size, id);
    assert(rings.len() <= 0xFFFF) by {
        if rings.len() > 0xFFFF {
            assert(src.polys[id].len() > 0xFFFF);
            assert(crate::payload::too_many_rings(p.geom, src.polys));
        }
    }
    lemma_poly_record_reads(b, record_pos(b, layout, id), rings, src.arcs, size);
}

proof fn lemma_ring_len(rings: Seq<Seq<u32>>, k: int, n: int)
    requires
        0 <= k < n <= rings.len(),
    ensures
        rings[k].len() <= rings_bytes(rings, n).len(),
    decreases n,
{
    if k < n - 1 {
        lemma_ring_len(rings, k, n - 1);
    } else {
        lemma_refs_len(rings[k], rings[k].len() as int);
    }
}

proof fn lemma_refs_len(refs: Seq<u32>, n: int)
    requires
        0 <= n <= refs.len(),
    ensures
        refs_bytes(refs, n).len() >= n,
    decreases n,
{
    if n > 0 {
        lemma_refs_len(refs, n - 1);
        crate::bytes::lemma_varint_len(refs[n - 1] as nat);
    }
}

pub proof fn lemma_name_offsets(b: Seq<u8>, pos: int, names: Seq<Seq<u8>>, n: int, i: int)
    requires
        0 <= i < n <= names.len() + 1,
        holds(b, pos, name_offsets(names, n)),
        concat(names, names.len() as int).len() <= 0xFFFF,
    ensures
        name_offsets(names, n).len() == 2 * n,
        u16_at(b, pos + 2 * i) == concat(names, i).len(),
    decreases n,
{
    lemma_name_offsets_len(names, n);
    lemma_name_offsets_len(names, n - 1);
    lemma_holds_split(
        b,
        pos,
        name_offsets(names, n - 1),
        le_bytes(concat(names, n - 1).len() as int, 2),
    );
    if i < n - 1 {
        lemma_name_offsets(b, pos, names, n - 1, i);
    } else {
        lemma_concat_grows(names, i, names.len() as int);
        lemma_u16_reads(b, pos + 2 * i, concat(names, i).len() as int);
    }
}

proof fn lemma_name_offsets_len(names: Seq<Seq<u8>>, n: int)
    requires
        n >= 0,
    ensures
        name_offsets(names, n).len() == 2 * n,
    decreases n,
{
    if n > 0 {
        lemma_name_offsets_len(names, n - 1);
    }
}

/// Every zone name reads back: the string table written for a feature's name
/// selects exactly its bytes from the pool.
pub proof fn lemma_names_read_back(names: Seq<Seq<u8>>, i: int)
    requires
        0 <= i < names.len(),
        concat(names, names.len() as int).len() <= 0xFFFF,
    ensures
        ({
            let z = zone_bytes(names);
            let pool = 2 * (names.len() + 1);
            z.subrange(
                pool + string_offset(z, i),
                pool + string_offset(z, i + 1),
            ) == names[i]
        }),
{
    let z = zone_bytes(names);
    let n = names.len() as int;
    assert(z.subrange(0, z.len() as int) =~= z);
    lemma_holds_split(z, 0, name_offsets(names, n + 1), concat(names, n));
    lemma_name_offsets(z, 0, names, n + 1, i);
    lemma_name_offsets(z, 0, names, n + 1, i + 1);
    lemma_record_holds(z, 2 * (n + 1), names, n, i);
}

/// Whether a layout points into the grid a payload was written with.
pub open spec fn grid_laid_out(layout: PayloadLayout, p: Params, src: Source) -> bool {
    let s = geometry_of(p, src);
    let grid_off = arcs_off_of(p, src) + s.arcs.len() + s.rings.len();
    &&& layout.primary == grid_off + 4
    &&& layout.list_offsets == layout.primary + 2 * src.entries.len() + 2
    &&& layout.list_ids == layout.list_offsets + 2 * (src.lists.len() + 1)
}

/// Every grid cell and candidate list of a payload reads back: a cell's value,
/// and where it names a list, the list's ids.
pub proof fn lemma_payload_grid_reads_back(p: Params, src: Source, layout: PayloadLayout)
    requires
        refusal(p, src) is None,
        grid_laid_out(layout, p, src),
    ensures
        forall|c: int|
            0 <= c < src.entries.len() ==> #[trigger] cell_at(payload_bytes(p, src), layout, c)
                == cell_value(src.entries[c], src.parent),
        forall|i: int|
            0 <= i <= src.lists.len() ==> #[trigger] list_offset(
                payload_bytes(p, src),
                layout,
                i,
            ) == ids_of(src.lists, i).len(),
        forall|k: int|
            0 <= k < ids_of(src.lists, src.lists.len() as int).len() ==> #[trigger] list_id(
                payload_bytes(p, src),
                layout,
                k,
            ) == ids_of(src.lists, src.lists.len() as int)[k],
{
    let b = payload_bytes(p, src);
    let s = geometry_of(p, src);
    let grid_off = arcs_off_of(p, src) + s.arcs.len() + s.rings.len();
    lemma_accepted(p, src);
    lemma_sections_stand(p, src);
    let primary = Seq::new(src.entries.len(), |c: int| cell_value(src.entries[c], src.parent));
    let offsets = Seq::new(src.lists.len() + 1, |i: int| ids_of(src.lists, i).len() as u16);
    let ids = ids_of(src.lists, src.lists.len() as int);
    let w0 = le_bytes(src.ncols, 2);
    let w1 = le_bytes(src.nrows, 2);
    let w2 = u16_table(primary, primary.len() as int);
    let w3 = le_bytes(src.lists.len() as int, 2);
    let w4 = u16_table(offsets, offsets.len() as int);
    let w5 = u16_table(ids, ids.len() as int);
    lemma_u16_table_len(primary, primary.len() as int);
    lemma_u16_table_len(offsets, offsets.len() as int);
    lemma_holds_split(b, grid_off, w0 + w1 + w2 + w3 + w4, w5);
    lemma_holds_split(b, grid_off, w0 + w1 + w2 + w3, w4);
    lemma_holds_split(b, grid_off, w0 + w1 + w2, w3);
    lemma_holds_split(b, grid_off, w0 + w1, w2);
    assert forall|c: int| 0 <= c < src.entries.len() implies #[trigger] cell_at(b, layout, c)
        == cell_value(src.entries[c], src.parent) by {
        lemma_u16_table(b, grid_off + 4, primary, primary.len() as int, c);
    }
    assert forall|i: int| 0 <= i <= src.lists.len() implies #[trigger] list_offset(b, layout, i)
        == ids_of(src.lists, i).len() by {
        lemma_u16_table(b, layout.list_offsets as int, offsets, offsets.len() as int, i);
        lemma_ids_grow(src.lists, i, src.lists.len() as int);
    }
    assert forall|k: int| 0 <= k < ids.len() implies #[trigger] list_id(b, layout, k)
        == ids[k] by {
        lemma_u16_table(b, layout.list_ids as int, ids, ids.len() as int, k);
    }
}

proof fn lemma_coord_holds(b: Seq<u8>, pos: int, coords: Seq<Vertex>, size: nat, n: int, i: int)
    requires
        0 <= i < n <= coords.len(),
        holds(b, pos, coords_bytes(coords, size, n)),
    ensures
        holds(b, pos + i * (2 * size), vertex_bytes(coords[i], size)),
    decreases n,
{
    lemma_coords_len(coords, size, n - 1);
    lemma_holds_split(
        b,
        pos,
        coords_bytes(coords, size, n - 1),
        vertex_bytes(coords[n - 1], size),
    );
    if i < n - 1 {
        lemma_coord_holds(b, pos, coords, size, n - 1, i);
    }
}

pub proof fn lemma_u32_table(b: Seq<u8>, pos: int, v: Seq<int>, n: int, i: int)
    requires
        0 <= i < n <= v.len(),
        holds(b, pos, u32_table(v, n)),
        0 <= v[i] <= u32::MAX,
    ensures
        u32_at(b, pos + 4 * i) == v[i],
    decreases n,
{
    lemma_u32_table_len(v, n - 1);
    lemma_holds_split(b, pos, u32_table(v, n - 1), le_bytes(v[n - 1], 4));
    if i < n - 1 {
        lemma_u32_table(b, pos, v, n - 1, i);
    } else {
        lemma_u32_reads(b, pos + 4 * i, v[i]);
    }
}

pub proof fn lemma_u32_table_len(v: Seq<int>, n: int)
    requires
        n >= 0,
    ensures
        u32_table(v, n).len() == 4 * n,
    decreases n,
{
    if n > 0 {
        lemma_u32_table_len(v, n - 1);
    }
}

proof fn lemma_image_polys_len(polys: Seq<Seq<Seq<u32>>>, arcs: Seq<Seq<Vertex>>, n: int)
    requires
        n >= 0,
    ensures
        image_polys(polys, arcs, n).len() == 20 * n,
    decreases n,
{
    if n > 0 {
        lemma_image_polys_len(polys, arcs, n - 1);
    }
}

proof fn lemma_image_poly_holds(
    b: Seq<u8>,
    pos: int,
    polys: Seq<Seq<Seq<u32>>>,
    arcs: Seq<Seq<Vertex>>,
    n: int,
    i: int,
)
    requires
        0 <= i < n <= polys.len(),
        holds(b, pos, image_polys(polys, arcs, n)),
    ensures
        holds(b, pos + 20 * i, box_bytes(image_box(polys[i], arcs), 4)),
        holds(b, pos + 20 * i + 16, le_bytes(flat_rings(polys, i + 1).len() as int, 4)),
    decreases n,
{
    lemma_image_polys_len(polys, arcs, n - 1);
    let bb = box_bytes(image_box(polys[n - 1], arcs), 4);
    let end = le_bytes(flat_rings(polys, n).len() as int, 4);
    lemma_holds_split(b, pos, image_polys(polys, arcs, n - 1) + bb, end);
    lemma_holds_split(b, pos, image_polys(polys, arcs, n - 1), bb);
    if i < n - 1 {
        lemma_image_poly_holds(b, pos, polys, arcs, n - 1, i);
    }
}

/// The cache the full-rings image of these polys is.
pub open spec fn image_cache(polys: Seq<Seq<Seq<u32>>>, arcs: Seq<Seq<Vertex>>) -> Cache {
    let rings = flat_rings(polys, polys.len() as int);
    Cache {
        coords: points_of(flat_coords(rings, arcs, rings.len() as int)),
        ring_ends: ring_ends(rings, arcs),
        polys: Seq::new(
            polys.len(),
            |i: int|
                (box_of(image_box(polys[i], arcs)), flat_rings(polys, i + 1).len() as int),
        ),
    }
}

/// Whether a layout points into the full-rings image a payload was written
/// with.
pub open spec fn image_laid_out(layout: PayloadLayout, p: Params, src: Source) -> bool {
    let s = geometry_of(p, src);
    &&& p.geom == GeomEncoding::FullRings
    &&& layout.quant_bits == quant_of(p.quant_bits)
    &&& layout.eager_coords == s.eager_coords
    &&& layout.eager_rings == s.eager_rings
    &&& layout.eager_polys == src.polys.len()
    &&& layout.full_coords == arcs_off_of(p, src)
    &&& layout.full_ring_ends == layout.full_coords + layout.eager_coords * (2
        * layout.quant_bits.size())
    &&& layout.full_polys == layout.full_ring_ends + layout.eager_rings * 4
}

proof fn lemma_flat_grows(rings: Seq<Seq<u32>>, arcs: Seq<Seq<Vertex>>, m: int, n: int)
    requires
        0 <= m <= n <= rings.len(),
    ensures
        flat_coords(rings, arcs, m).len() <= flat_coords(rings, arcs, n).len(),
    decreases n - m,
{
    if m < n {
        lemma_flat_grows(rings, arcs, m, n - 1);
    }
}

pub proof fn lemma_image_stands(
    b: Seq<u8>,
    at: int,
    polys: Seq<Seq<Seq<u32>>>,
    arcs: Seq<Seq<Vertex>>,
    size: nat,
    layout: PayloadLayout,
)
    requires
        2 <= size <= 4,
        layout.quant_bits.size() == size,
        ({
            let rings = flat_rings(polys, polys.len() as int);
            let coords = flat_coords(rings, arcs, rings.len() as int);
            let ends = ring_ends(rings, arcs);
            &&& coords.len() <= u32::MAX
            &&& rings.len() <= u32::MAX
            &&& path_fits(coords, size as int)
            &&& holds(
                b,
                at,
                coords_bytes(coords, size, coords.len() as int) + u32_table(
                    ends,
                    ends.len() as int,
                ) + image_polys(polys, arcs, polys.len() as int),
            )
            &&& layout.eager_coords == coords.len()
            &&& layout.eager_rings == rings.len()
            &&& layout.eager_polys == polys.len()
            &&& layout.full_coords == at
            &&& layout.full_ring_ends == at + coords.len() * (2 * size)
            &&& layout.full_polys == layout.full_ring_ends + rings.len() * 4
        }),
    ensures
        full_cache(b, layout) == image_cache(polys, arcs),
{
    let rings = flat_rings(polys, polys.len() as int);
    let coords = flat_coords(rings, arcs, rings.len() as int);
    let ends = ring_ends(rings, arcs);
    let n = polys.len() as int;
    let w0 = coords_bytes(coords, size, coords.len() as int);
    let w1 = u32_table(ends, ends.len() as int);
    let w2 = image_polys(polys, arcs, n);
    lemma_coords_len(coords, size, coords.len() as int);
    lemma_u32_table_len(ends, ends.len() as int);
    lemma_holds_split(b, at, w0 + w1, w2);
    lemma_holds_split(b, at, w0, w1);
    let cache = full_cache(b, layout);
    let target = image_cache(polys, arcs);
    assert(cache.coords =~= target.coords) by {
        assert forall|i: int| 0 <= i < coords.len() implies cache.coords[i]
            == target.coords[i] by {
            assert(vertex_fits(point_of(coords[i]), size as int));
            lemma_coord_holds(b, at, coords, size, coords.len() as int, i);
            lemma_vertex_reads(b, at + i * (2 * size), coords[i], size);
        }
    }
    assert(cache.ring_ends =~= target.ring_ends) by {
        assert forall|r: int| 0 <= r < ends.len() implies cache.ring_ends[r]
            == target.ring_ends[r] by {
            lemma_flat_grows(rings, arcs, r + 1, rings.len() as int);
            lemma_u32_table(b, at + w0.len(), ends, ends.len() as int, r);
        }
    }
    assert(cache.polys =~= target.polys) by {
        assert forall|id: int| 0 <= id < n implies cache.polys[id] == target.polys[id] by {
            let pos = layout.full_polys + 20 * id;
            lemma_image_poly_holds(b, at + w0.len() + w1.len(), polys, arcs, n, id);
            lemma_full_record_reads(
                b,
                pos,
                image_box(polys[id], arcs),
            );
            lemma_flat_rings(polys, id + 1, n);
            lemma_u32_reads(b, pos + 16, flat_rings(polys, id + 1).len() as int);
        }
    }
}

proof fn lemma_full_record_reads(b: Seq<u8>, pos: int, bb: GridBox)
    requires
        holds(b, pos, box_bytes(bb, 4)),
    ensures
        i32_at(b, pos) == bb.min_x,
        i32_at(b, pos + 4) == bb.min_y,
        i32_at(b, pos + 8) == bb.max_x,
        i32_at(b, pos + 12) == bb.max_y,
{
    lemma_box_reads(b, pos, bb, 4);
    let read = bbox_at(b, pos, 4);
    assert(read.min_x == i32_at(b, pos));
}

/// The full-rings image of a payload reads back: what the reader scans is
/// exactly the stitched rings, their ends and their boxes.
pub proof fn lemma_payload_image_reads_back(p: Params, src: Source, layout: PayloadLayout)
    requires
        refusal(p, src) is None,
        image_laid_out(layout, p, src),
        path_fits(
            flat_coords(
                flat_rings(src.polys, src.polys.len() as int),
                src.arcs,
                flat_rings(src.polys, src.polys.len() as int).len() as int,
            ),
            coord_size(p.quant_bits) as int,
        ),
    ensures
        full_cache(payload_bytes(p, src), layout) == image_cache(src.polys, src.arcs),
{
    lemma_accepted(p, src);
    lemma_sections_stand(p, src);
    lemma_image_stands(
        payload_bytes(p, src),
        arcs_off_of(p, src),
        src.polys,
        src.arcs,
        coord_size(p.quant_bits),
        layout,
    );
}

/// Rings in a row read back as the rings they were written from.
pub proof fn lemma_rings_read_back(b: Seq<u8>, pos: int, rings: Seq<Seq<u32>>)
    requires
        forall|k: int| 0 <= k < rings.len() ==> (#[trigger] rings[k]).len() <= u32::MAX,
        holds(b, pos, rings_bytes(rings, rings.len() as int)),
    ensures
        rings_at(b, pos, rings.len()) == Some(
            (
                ring_numbers(rings),
                pos + rings_bytes(rings, rings.len() as int).len() as int,
            ),
        ),
{
    lemma_rings_from(rings, 0);
    assert(rings_bytes(rings, 0) + rings_from(rings, 0) =~= rings_from(rings, 0));
    lemma_rings_read(b, pos, rings, 0);
    assert(ring_numbers(rings).skip(0) =~= ring_numbers(rings));
}

/// A box reads back as the box it was written from.
pub proof fn lemma_box_reads_back(b: Seq<u8>, pos: int, bb: GridBox, size: nat)
    requires
        2 <= size <= 4,
        holds(b, pos, box_bytes(bb, size)),
        box_fits(bb, size as int),
    ensures
        bbox_at(b, pos, size as int) == box_of(bb),
{
    lemma_box_reads(b, pos, bb, size);
}

} // verus!
