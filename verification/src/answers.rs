//! What the encoder writes, a lookup answers: over a blob that holds the
//! encoder's sections, the grid and the names resolve as the source says, and
//! the accurate answer is that of the source polygons, whichever geometry
//! encoding the blob holds.

use vstd::prelude::*;
use vstd::utf8::encode_utf8;

use crate::claims::{
    arcs_on_grid, joins, lemma_boxes_agree, lemma_flat_fits, lemma_image_claims,
    lemma_read_poly_claims, reads_back, source_claims,
};
use crate::common::{CellTag, GeomEncoding, QuantBits};
use crate::csr::{
    arranged, ids_of, lemma_entries_valid, lemma_ids_grow, lemma_lists_are_in_order,
    lemma_lists_keep_every_candidate, lists_view, Entry, Order,
};
use crate::eager::cache_claims;
use crate::finder::{
    answer, clamped, coarse_answer, entry_tzid, first_claim, probe_cell, tzid_text,
    Probe,
};
use crate::format::{cell_at, list_id, list_offset, parent_at, string_offset, PayloadLayout};
use crate::full_rings::full_cache;
use crate::geometry::{arc_points, arc_pos, arc_poly_claims, record_pos};
use crate::grid::{CellGrid, NO_ZONE};
use crate::payload::{
    cell_value, lemma_every_polygon_is_listed, lemma_flat_lens,
    lemma_polygons_stand_under_their_features, name_offsets, polys_before, source_of, zone_bytes,
    Source,
};
use crate::pip::Point;
use crate::readback::{
    box_fits, holds, lemma_arc_found, lemma_arc_reads_back, lemma_holds_split, lemma_image_stands,
    lemma_name_offsets, lemma_poly_record_reads, lemma_poly_stands, lemma_record_holds,
    lemma_u16_table, path_fits, points_of,
};
use crate::sections::{
    arc_records, concat, coords_bytes, flat_coords, flat_rings, image_box, image_polys,
    offsets_bytes, poly_records, ring_ends, u16_table, u32_table,
};
use crate::snapped::Snapped;
use crate::text::text_of;

verus! {

/// Whether a source's tables refer to each other within bounds: cells and
/// lists name polygons, no list is empty, and polygons name features.
pub open spec fn source_ok(src: Source) -> bool {
    &&& src.parent.len() == src.polys.len()
    &&& 0 < src.ncols <= 0xFFFF
    &&& 0 < src.nrows <= 0xFFFF
    &&& src.entries.len() == src.ncols * src.nrows
    &&& src.names.len() < 0x7FFF
    &&& concat(src.names, src.names.len() as int).len() <= 0xFFFF
    &&& src.lists.len() < 0x7FFF
    &&& ids_of(src.lists, src.lists.len() as int).len() <= 0xFFFF
    &&& forall|c: int|
        0 <= c < src.entries.len() ==> match #[trigger] src.entries[c] {
            Entry::Zone(z) => z == NO_ZONE || z < src.parent.len(),
            Entry::List(i) => i < src.lists.len(),
        }
    &&& forall|i: int| 0 <= i < src.lists.len() ==> (#[trigger] src.lists[i]).len() > 0
    &&& forall|i: int, k: int|
        0 <= i < src.lists.len() && 0 <= k < src.lists[i].len() ==> (#[trigger] src.lists[i][k])
            < src.parent.len()
    &&& forall|id: int|
        0 <= id < src.parent.len() ==> (#[trigger] src.parent[id]) < src.names.len()
}

/// A feature's name as text, `None` when it is empty or not UTF-8.
pub open spec fn name_text(names: Seq<Seq<u8>>, feature: int) -> Option<Seq<char>> {
    match text_of(names[feature]) {
        Some(text) => if text.len() > 0 { Some(text) } else { None },
        None => None,
    }
}

/// The first place in a list, from `k` on, whose polygon claims the point.
pub open spec fn first_of(list: Seq<u16>, claims: spec_fn(int) -> bool, k: int) -> Option<int>
    decreases list.len() - k,
{
    if k >= list.len() {
        None
    } else if claims(list[k] as int) {
        Some(k)
    } else {
        first_of(list, claims, k + 1)
    }
}

/// The source's entry for the cell a probe lands on.
pub open spec fn source_entry(src: Source, probe: Probe) -> Entry {
    src.entries[clamped(probe.row as int, src.nrows) * src.ncols + clamped(
        probe.col as int,
        src.ncols,
    )]
}

/// The source's answer by grid alone: a cell's owner, or the head of its list.
pub open spec fn source_coarse(src: Source, probe: Probe) -> Option<Seq<char>> {
    match source_entry(src, probe) {
        Entry::Zone(z) => if z == NO_ZONE {
            None
        } else {
            name_text(src.names, src.parent[z as int] as int)
        },
        Entry::List(i) => name_text(
            src.names,
            src.parent[src.lists[i as int][0] as int] as int,
        ),
    }
}

/// The source's accurate answer: on a cell with a list, the first candidate
/// that claims the point, or the head when none does.
pub open spec fn source_answer(src: Source, claims: spec_fn(int) -> bool, probe: Probe) -> Option<
    Seq<char>,
> {
    match source_entry(src, probe) {
        Entry::List(i) => match first_of(src.lists[i as int], claims, 0) {
            Some(k) => name_text(
                src.names,
                src.parent[src.lists[i as int][k] as int] as int,
            ),
            None => source_coarse(src, probe),
        },
        _ => source_coarse(src, probe),
    }
}

/// Whether a blob holds a source's zone strings, parent table and grid where a
/// layout says they are.
pub open spec fn tables_stand(b: Seq<u8>, layout: PayloadLayout, src: Source) -> bool {
    let primary = Seq::new(src.entries.len(), |c: int| cell_value(src.entries[c], src.parent));
    let offsets = Seq::new(src.lists.len() + 1, |i: int| ids_of(src.lists, i).len() as u16);
    let ids = ids_of(src.lists, src.lists.len() as int);
    &&& holds(b, 0, zone_bytes(src.names))
    &&& layout.pool == 2 * (src.names.len() + 1)
    &&& holds(b, layout.parent as int, u16_table(src.parent, src.parent.len() as int))
    &&& layout.ncols == src.ncols
    &&& layout.nrows == src.nrows
    &&& holds(b, layout.primary as int, u16_table(primary, primary.len() as int))
    &&& holds(b, layout.list_offsets as int, u16_table(offsets, offsets.len() as int))
    &&& holds(b, layout.list_ids as int, u16_table(ids, ids.len() as int))
}

/// A zone name stands between its fenceposts.
proof fn lemma_name_stands(b: Seq<u8>, layout: PayloadLayout, src: Source, f: int)
    requires
        source_ok(src),
        tables_stand(b, layout, src),
        0 <= f < src.names.len(),
    ensures
        tzid_text(b, layout, f) == name_text(src.names, f),
{
    let names = src.names;
    let n = names.len() as int;
    lemma_holds_split(b, 0, name_offsets(names, n + 1), concat(names, n));
    lemma_name_offsets(b, 0, names, n + 1, f);
    lemma_name_offsets(b, 0, names, n + 1, f + 1);
    lemma_record_holds(b, 2 * (n + 1), names, n, f);
    let from = layout.pool + string_offset(b, f);
    assert(concat(names, f + 1).len() == concat(names, f).len() + names[f].len());
    assert(b.subrange(from, layout.pool + string_offset(b, f + 1)) == names[f]);
}

/// A polygon's feature stands in the parent table.
proof fn lemma_parent_stands(b: Seq<u8>, layout: PayloadLayout, src: Source, id: int)
    requires
        tables_stand(b, layout, src),
        0 <= id < src.parent.len(),
    ensures
        parent_at(b, layout, id) == src.parent[id],
{
    lemma_u16_table(b, layout.parent as int, src.parent, src.parent.len() as int, id);
}

/// A cell's value stands in the primary table.
proof fn lemma_cell_stands(b: Seq<u8>, layout: PayloadLayout, src: Source, probe: Probe)
    requires
        source_ok(src),
        tables_stand(b, layout, src),
    ensures
        probe_cell(b, layout, probe) == cell_value(source_entry(src, probe), src.parent),
        match source_entry(src, probe) {
            Entry::Zone(z) => z == NO_ZONE || z < src.parent.len(),
            Entry::List(i) => i < src.lists.len(),
        },
{
    let primary = Seq::new(src.entries.len(), |c: int| cell_value(src.entries[c], src.parent));
    let row = clamped(probe.row as int, src.nrows);
    let col = clamped(probe.col as int, src.ncols);
    let c = row * src.ncols + col;
    assert(0 <= c < src.ncols * src.nrows) by (nonlinear_arith)
        requires
            c == row * src.ncols + col,
            0 <= row < src.nrows,
            0 <= col < src.ncols,
    ;
    lemma_u16_table(b, layout.primary as int, primary, primary.len() as int, c);
    assert(cell_at(b, layout, c) == primary[c]);
}

/// A candidate list stands in the tables.
proof fn lemma_list_stands(b: Seq<u8>, layout: PayloadLayout, src: Source, i: int)
    requires
        source_ok(src),
        tables_stand(b, layout, src),
        0 <= i < src.lists.len(),
    ensures
        list_offset(b, layout, i) == ids_of(src.lists, i).len(),
        list_offset(b, layout, i + 1) == list_offset(b, layout, i) + src.lists[i].len(),
        forall|k: int|
            #![trigger src.lists[i][k]]
            0 <= k < src.lists[i].len() ==> list_id(b, layout, list_offset(b, layout, i) + k)
                == src.lists[i][k],
{
    let lists = src.lists;
    let n = lists.len() as int;
    let offsets = Seq::new(lists.len() + 1, |i: int| ids_of(lists, i).len() as u16);
    let ids = ids_of(lists, n);
    lemma_ids_grow(lists, i, n);
    lemma_ids_grow(lists, i + 1, n);
    lemma_u16_table(b, layout.list_offsets as int, offsets, offsets.len() as int, i);
    lemma_u16_table(b, layout.list_offsets as int, offsets, offsets.len() as int, i + 1);
    let from = ids_of(lists, i).len() as int;
    assert forall|k: int|
        #![trigger src.lists[i][k]]
        0 <= k < src.lists[i].len() implies list_id(b, layout, list_offset(b, layout, i) + k)
        == src.lists[i][k] by {
        lemma_u16_table(b, layout.list_ids as int, ids, ids.len() as int, from + k);
        assert(ids_of(lists, i + 1)[from + k] == lists[i][k]);
        assert(ids.take(ids_of(lists, i + 1).len() as int)[from + k] == ids[from + k]);
    }
}

/// An entry of a candidate list names what its polygon's feature is named.
proof fn lemma_entry_stands(b: Seq<u8>, layout: PayloadLayout, src: Source, i: int, k: int)
    requires
        source_ok(src),
        tables_stand(b, layout, src),
        0 <= i < src.lists.len(),
        0 <= k < src.lists[i].len(),
    ensures
        entry_tzid(b, layout, list_offset(b, layout, i) + k) == name_text(
            src.names,
            src.parent[src.lists[i][k] as int] as int,
        ),
{
    lemma_list_stands(b, layout, src, i);
    let id = src.lists[i][k] as int;
    assert(src.lists[i][k] < src.parent.len());
    lemma_parent_stands(b, layout, src, id);
    assert(src.parent[id] < src.names.len());
    lemma_name_stands(b, layout, src, src.parent[id] as int);
}

/// The grid-only answer over a blob that holds a source's tables is the
/// source's.
pub proof fn lemma_tables_answer_coarsely(
    b: Seq<u8>,
    layout: PayloadLayout,
    src: Source,
    probe: Probe,
)
    requires
        source_ok(src),
        tables_stand(b, layout, src),
    ensures
        coarse_answer(b, layout, probe) == source_coarse(src, probe),
{
    lemma_cell_stands(b, layout, src, probe);
    match source_entry(src, probe) {
        Entry::Zone(z) => {
            if z != NO_ZONE {
                assert(src.parent[z as int] < src.names.len());
                lemma_name_stands(b, layout, src, src.parent[z as int] as int);
            }
        },
        Entry::List(i) => {
            assert(src.lists[i as int].len() > 0);
            lemma_entry_stands(b, layout, src, i as int, 0);
        },
    }
}

/// Walking a candidate list in the tables is walking the source's.
proof fn lemma_first_claim(
    b: Seq<u8>,
    layout: PayloadLayout,
    src: Source,
    i: int,
    stored: spec_fn(int) -> bool,
    claims: spec_fn(int) -> bool,
    k: int,
)
    requires
        source_ok(src),
        tables_stand(b, layout, src),
        0 <= i < src.lists.len(),
        0 <= k <= src.lists[i].len(),
        forall|id: int| 0 <= id < src.polys.len() ==> #[trigger] stored(id) == claims(id),
    ensures
        ({
            let from = list_offset(b, layout, i);
            let to = list_offset(b, layout, i + 1);
            match first_of(src.lists[i], claims, k) {
                Some(at) => k <= at < src.lists[i].len() && first_claim(
                    b,
                    layout,
                    stored,
                    from + k,
                    to,
                ) == Some(from + at),
                None => first_claim(b, layout, stored, from + k, to) is None,
            }
        }),
    decreases src.lists[i].len() - k,
{
    lemma_list_stands(b, layout, src, i);
    if k < src.lists[i].len() {
        let id = src.lists[i][k] as int;
        assert(src.lists[i][k] < src.parent.len());
        assert(stored(id) == claims(id));
        lemma_first_claim(b, layout, src, i, stored, claims, k + 1);
    }
}

/// The accurate answer over a blob that holds a source's tables is the
/// source's, where its polygons claim what the source's do.
pub proof fn lemma_tables_answer(
    b: Seq<u8>,
    layout: PayloadLayout,
    src: Source,
    stored: spec_fn(int) -> bool,
    claims: spec_fn(int) -> bool,
    probe: Probe,
)
    requires
        source_ok(src),
        tables_stand(b, layout, src),
        layout.geom != GeomEncoding::Coarse,
        forall|id: int| 0 <= id < src.polys.len() ==> #[trigger] stored(id) == claims(id),
    ensures
        answer(b, layout, stored, probe) == source_answer(src, claims, probe),
{
    lemma_tables_answer_coarsely(b, layout, src, probe);
    lemma_cell_stands(b, layout, src, probe);
    match source_entry(src, probe) {
        Entry::Zone(z) => {
            if z != NO_ZONE {
                assert(src.parent[z as int] < src.names.len());
            }
        },
        Entry::List(i) => {
            let list = i as int;
            assert(CellTag::of(probe_cell(b, layout, probe)) == CellTag::Border(i as u16));
            lemma_list_stands(b, layout, src, list);
            lemma_first_claim(b, layout, src, list, stored, claims, 0);
            assert(src.lists[list].len() > 0);
            match first_of(src.lists[list], claims, 0) {
                Some(k) => {
                    lemma_entry_stands(b, layout, src, list, k);
                },
                None => {
                    lemma_entry_stands(b, layout, src, list, 0);
                },
            }
        },
    }
}

/// Whether a source's geometry is on the quantization grid: its arcs, the
/// boxes of its polygons, and rings that join.
pub open spec fn geometry_ok(src: Source, size: int) -> bool {
    &&& arcs_on_grid(src.arcs, size)
    &&& forall|i: int| 0 <= i < src.arcs.len() ==> (#[trigger] src.arcs[i]).len() <= u32::MAX
    &&& forall|id: int|
        0 <= id < src.polys.len() ==> (#[trigger] src.polys[id]).len() <= 0xFFFF && box_fits(
            image_box(src.polys[id], src.arcs),
            size,
        )
    &&& forall|id: int, k: int|
        0 <= id < src.polys.len() && 0 <= k < src.polys[id].len() ==> joins(
            #[trigger] src.polys[id][k],
            src.arcs,
        )
}

/// Whether a blob holds a source's arc store and ring index where a layout
/// says they are.
pub open spec fn arcs_stand(b: Seq<u8>, layout: PayloadLayout, src: Source) -> bool {
    let size = layout.quant_bits.size() as nat;
    let records = arc_records(src.arcs, layout.geom == GeomEncoding::FixedWidthArcs, size);
    let polys = poly_records(src.polys, src.arcs, size);
    let (n, m) = (records.len() as int, polys.len() as int);
    &&& layout.geom == GeomEncoding::VarintArcs || layout.geom == GeomEncoding::FixedWidthArcs
    &&& layout.n_arcs == src.arcs.len()
    &&& layout.arc_data == layout.arc_offsets + 4 * (n + 1)
    &&& layout.eager_polys == src.polys.len()
    &&& layout.poly_offsets == layout.parent + 2 * m
    &&& layout.ring_data == layout.poly_offsets + 4 * (m + 1)
    &&& holds(b, layout.arc_offsets as int, offsets_bytes(records, n + 1) + concat(records, n))
    &&& holds(
        b,
        layout.parent as int,
        u16_table(src.parent, src.parent.len() as int) + offsets_bytes(polys, m + 1) + concat(
            polys,
            m,
        ),
    )
}

/// Whether a blob holds the full-rings image of a source where a layout says
/// it is.
pub open spec fn image_stands(b: Seq<u8>, layout: PayloadLayout, src: Source) -> bool {
    let size = layout.quant_bits.size() as nat;
    let rings = flat_rings(src.polys, src.polys.len() as int);
    let coords = flat_coords(rings, src.arcs, rings.len() as int);
    let ends = ring_ends(rings, src.arcs);
    &&& layout.geom == GeomEncoding::FullRings
    &&& layout.eager_coords == coords.len()
    &&& layout.eager_rings == rings.len()
    &&& layout.eager_polys == src.polys.len()
    &&& layout.full_ring_ends == layout.full_coords + coords.len() * (2 * size)
    &&& layout.full_polys == layout.full_ring_ends + rings.len() * 4
    &&& holds(
        b,
        layout.full_coords as int,
        coords_bytes(coords, size, coords.len() as int) + u32_table(ends, ends.len() as int)
            + image_polys(src.polys, src.arcs, src.polys.len() as int),
    )
}

/// Every polygon of an arc-store blob claims what the source's claims.
proof fn lemma_arc_blob_claims(
    b: Seq<u8>,
    layout: PayloadLayout,
    src: Source,
    id: int,
    pt: Point,
)
    requires
        b.len() <= u32::MAX,
        src.parent.len() == src.polys.len(),
        arcs_stand(b, layout, src),
        geometry_ok(src, layout.quant_bits.size()),
        0 <= id < src.polys.len(),
    ensures
        arc_poly_claims(b, layout, id, pt) == source_claims(src.polys[id], src.arcs, pt),
{
    let size = layout.quant_bits.size() as nat;
    let fixed = layout.geom == GeomEncoding::FixedWidthArcs;
    let rings = src.polys[id];
    assert(2 <= size <= 4);
    assert(reads_back(b, layout, src.arcs)) by {
        assert forall|i: int| 0 <= i < src.arcs.len() implies #[trigger] arc_points(b, layout, i)
            == Some(points_of(src.arcs[i])) by {
            assert(1 <= src.arcs[i].len() <= u32::MAX && path_fits(src.arcs[i], size as int));
            lemma_arc_found(b, layout.arc_offsets as int, src.arcs, fixed, size, i);
            lemma_arc_reads_back(b, arc_pos(b, layout, i), src.arcs[i], fixed, size);
        }
    }
    assert(rings.len() <= 0xFFFF && box_fits(image_box(rings, src.arcs), size as int));
    lemma_boxes_agree(rings, src.arcs);
    lemma_poly_stands(b, layout.parent as int, src.parent, src.polys, src.arcs, size, id);
    lemma_poly_record_reads(b, record_pos(b, layout, id), rings, src.arcs, size);
    assert forall|k: int| 0 <= k < rings.len() implies joins(#[trigger] rings[k], src.arcs) by {
        assert(joins(src.polys[id][k], src.arcs));
    }
    assert forall|i: int| 0 <= i < src.arcs.len() implies (#[trigger] src.arcs[i]).len() >= 1 by {}
    lemma_read_poly_claims(b, layout, rings, src.arcs, id, pt);
}

/// A lookup over an arc-store blob answers what the source says, delta-coded
/// or at fixed width.
pub proof fn lemma_arc_blob_answers(
    b: Seq<u8>,
    layout: PayloadLayout,
    src: Source,
    probe: Probe,
)
    requires
        b.len() <= u32::MAX,
        source_ok(src),
        tables_stand(b, layout, src),
        arcs_stand(b, layout, src),
        geometry_ok(src, layout.quant_bits.size()),
    ensures
        ({
            let pt = (probe.x as int, probe.y as int);
            answer(b, layout, |id: int| arc_poly_claims(b, layout, id, pt), probe)
                == source_answer(
                src,
                |id: int| source_claims(src.polys[id], src.arcs, pt),
                probe,
            )
        }),
{
    let pt = (probe.x as int, probe.y as int);
    let stored = |id: int| arc_poly_claims(b, layout, id, pt);
    let claims = |id: int| source_claims(src.polys[id], src.arcs, pt);
    assert forall|id: int| 0 <= id < src.polys.len() implies #[trigger] stored(id) == claims(
        id,
    ) by {
        lemma_arc_blob_claims(b, layout, src, id, pt);
    }
    lemma_tables_answer(b, layout, src, stored, claims, probe);
}

/// A lookup over a full-rings blob answers what the source says.
pub proof fn lemma_full_rings_blob_answers(
    b: Seq<u8>,
    layout: PayloadLayout,
    src: Source,
    probe: Probe,
)
    requires
        source_ok(src),
        tables_stand(b, layout, src),
        image_stands(b, layout, src),
        geometry_ok(src, layout.quant_bits.size()),
    ensures
        ({
            let pt = (probe.x as int, probe.y as int);
            let narrow = layout.quant_bits == QuantBits::Bits16;
            answer(
                b,
                layout,
                |id: int| cache_claims(full_cache(b, layout), narrow, id, pt),
                probe,
            ) == source_answer(
                src,
                |id: int| source_claims(src.polys[id], src.arcs, pt),
                probe,
            )
        }),
{
    let pt = (probe.x as int, probe.y as int);
    let narrow = layout.quant_bits == QuantBits::Bits16;
    let size = layout.quant_bits.size() as nat;
    let stored = |id: int| cache_claims(full_cache(b, layout), narrow, id, pt);
    let claims = |id: int| source_claims(src.polys[id], src.arcs, pt);
    assert(2 <= size <= 4);
    lemma_flat_fits(src.polys, src.arcs, size as int);
    lemma_image_stands(b, layout.full_coords as int, src.polys, src.arcs, size, layout);
    assert forall|id: int| 0 <= id < src.polys.len() implies #[trigger] stored(id) == claims(
        id,
    ) by {
        assert(src.polys[id].len() <= 0xFFFF);
        lemma_image_claims(src.polys, src.arcs, narrow, id, pt);
    }
    lemma_tables_answer(b, layout, src, stored, claims, probe);
}

/// What a lookup answers for a feature: its name, nothing for one without.
pub open spec fn feature_name(tzids: Seq<Option<String>>, f: int) -> Option<Seq<char>> {
    match tzids[f] {
        Some(name) => if name@.len() > 0 {
            Some(name@)
        } else {
            None
        },
        None => None,
    }
}

/// Whether polygon `z` is one that feature `f` lists, polygons numbered feature
/// by feature.
pub open spec fn lists_polygon(t: Snapped, f: int, z: int) -> bool {
    &&& 0 <= f < t.structure@.len()
    &&& polys_before(t.structure@, f) <= z < polys_before(t.structure@, f)
        + t.structure@[f]@.len()
}

/// Whether an answer is the name of the feature that lists a polygon.
pub open spec fn names_polygon(
    answer: Option<Seq<char>>,
    t: Snapped,
    tzids: Seq<Option<String>>,
    z: int,
) -> bool {
    exists|f: int|
        #[trigger] lists_polygon(t, f, z) && f < tzids.len() && answer == feature_name(tzids, f)
}

/// The cell a probe lands on: past an edge, the one at that edge.
pub open spec fn landed_cell(grid: CellGrid, probe: Probe) -> int {
    let row = if probe.row < 0 {
        0
    } else if probe.row >= grid.nrows {
        grid.nrows - 1
    } else {
        probe.row as int
    };
    let col = if probe.col < 0 {
        0
    } else if probe.col >= grid.ncols {
        grid.ncols - 1
    } else {
        probe.col as int
    };
    row * grid.ncols + col
}

/// The name behind a polygon's number is that of the feature that lists it.
proof fn lemma_parent_names(t: Snapped, tzids: Seq<Option<String>>, grid: CellGrid, z: int)
    requires
        tzids.len() <= t.structure@.len(),
        tzids.len() <= 0x1_0000,
        0 <= z < source_of(t, tzids, grid).parent.len(),
    ensures
        ({
            let src = source_of(t, tzids, grid);
            names_polygon(name_text(src.names, src.parent[z] as int), t, tzids, z)
        }),
{
    let src = source_of(t, tzids, grid);
    lemma_flat_lens(t.structure@, tzids.len() as int);
    let (f, k) = lemma_every_polygon_is_listed(t.structure@, tzids.len() as int, z);
    lemma_polygons_stand_under_their_features(t, tzids, grid, f, k);
    assert(src.parent[z] == f);
    match tzids[f] {
        Some(name) => {
            vstd::utf8::encode_utf8_valid_utf8(name@);
            vstd::utf8::encode_utf8_decode_utf8(name@);
        },
        None => {
            assert(src.names[f] =~= Seq::empty());
            let nothing = Seq::<char>::empty();
            vstd::utf8::encode_utf8_valid_utf8(nothing);
            vstd::utf8::encode_utf8_decode_utf8(nothing);
            assert(encode_utf8(nothing) =~= Seq::<u8>::empty());
        },
    }
    assert(lists_polygon(t, f, z));
}

/// The first candidate that claims is the first that claims.
proof fn lemma_first_of(list: Seq<u16>, claims: spec_fn(int) -> bool, k: int)
    requires
        0 <= k <= list.len(),
    ensures
        match first_of(list, claims, k) {
            Some(at) => k <= at < list.len() && claims(list[at] as int) && forall|j: int|
                k <= j < at ==> !claims(#[trigger] list[j] as int),
            None => forall|j: int| k <= j < list.len() ==> !claims(#[trigger] list[j] as int),
        },
    decreases list.len() - k,
{
    if k < list.len() && !claims(list[k] as int) {
        lemma_first_of(list, claims, k + 1);
    }
}

/// What a written asset answers, in terms of the topology, the names and the grid
/// it was written from. A point that candidates of its cell claim is answered with
/// the name of the feature that lists such a polygon: the cell's dominant one
/// where that claims it, else the claiming one with the lowest number. Where none
/// claims it the dominant candidate answers, and a cell with a single candidate or
/// none answers by itself.
pub proof fn lemma_answers_are_names_of_features(
    t: Snapped,
    tzids: Seq<Option<String>>,
    grid: CellGrid,
    claims: spec_fn(int) -> bool,
    probe: Probe,
)
    requires
        source_ok(source_of(t, tzids, grid)),
        tzids.len() <= t.structure@.len(),
        grid.dominant@.len() == grid.sets@.len(),
        forall|c: int, i: int, j: int|
            0 <= c < grid.sets@.len() && 0 <= i < j < grid.sets@[c]@.len() ==> (
            #[trigger] grid.sets@[c]@[i]) < (#[trigger] grid.sets@[c]@[j]),
    ensures
        ({
            let src = source_of(t, tzids, grid);
            let answer = source_answer(src, claims, probe);
            let c = landed_cell(grid, probe);
            let (set, dominant) = (grid.sets@[c]@, grid.dominant@[c]);
            &&& 0 <= c < grid.sets@.len()
            &&& set.len() > 1 && set.contains(dominant) && claims(dominant as int)
                ==> names_polygon(answer, t, tzids, dominant as int)
            &&& set.len() > 1 && !(set.contains(dominant) && claims(dominant as int)) ==> forall|
                z: u16,
            |
                #[trigger] set.contains(z) && claims(z as int) && (forall|y: u16| #[trigger]
                    set.contains(y) && claims(y as int) ==> z <= y) ==> names_polygon(
                    answer,
                    t,
                    tzids,
                    z as int,
                )
            &&& set.len() > 1 && set.contains(dominant) && (forall|z: u16| #[trigger]
                set.contains(z) ==> !claims(z as int)) ==> names_polygon(
                answer,
                t,
                tzids,
                dominant as int,
            )
            &&& set.len() == 1 && set[0] != 0xFFFF ==> names_polygon(
                answer,
                t,
                tzids,
                set[0] as int,
            )
            &&& set.len() == 0 && dominant != 0xFFFF ==> names_polygon(
                answer,
                t,
                tzids,
                dominant as int,
            )
            &&& set.len() == 0 && dominant == 0xFFFF ==> answer is None
        }),
{
    let src = source_of(t, tzids, grid);
    let c = landed_cell(grid, probe);
    let row = clamped(probe.row as int, src.nrows);
    let col = clamped(probe.col as int, src.ncols);
    assert(c == row * src.ncols + col);
    assert(0 <= c < src.ncols * src.nrows) by (nonlinear_arith)
        requires
            c == row * src.ncols + col,
            0 <= row < src.nrows,
            0 <= col < src.ncols,
    ;
    let (set, dominant) = (grid.sets@[c]@, grid.dominant@[c]);
    let entry = src.entries[c];
    assert(entry == source_entry(src, probe));
    assert(lists_view(grid.sets@)[c] == set);
    lemma_entries_valid(grid, Order::CellDominantFirst, Seq::empty());
    if set.len() > 1 {
        let i = entry->List_0 as int;
        let list = src.lists[i];
        assert(src.entries[c] matches Entry::List(_));
        assert(list == arranged(Order::CellDominantFirst, set, dominant, Seq::empty()));
        lemma_lists_keep_every_candidate(Order::CellDominantFirst, set, dominant, Seq::empty());
        assert forall|a: int, b: int| 0 <= a < b < set.len() implies (#[trigger] set[a]) < (
        #[trigger] set[b]) by {
            assert(grid.sets@[c]@[a] < grid.sets@[c]@[b]);
        }
        lemma_lists_are_in_order(Order::CellDominantFirst, set, dominant, Seq::empty());
        lemma_first_of(list, claims, 0);
        let at = match first_of(list, claims, 0) {
            Some(k) => k,
            None => 0,
        };
        assert(list[at] < src.parent.len());
        lemma_parent_names(t, tzids, grid, list[at] as int);
        assert(list.contains(list[at]));
        if set.contains(dominant) && claims(dominant as int) {
            assert(list[0] == dominant);
            assert(at == 0);
        } else {
            assert forall|z: u16|
                #[trigger] set.contains(z) && claims(z as int) && (forall|y: u16| #[trigger]
                    set.contains(y) && claims(y as int) ==> z <= y) implies list[at] == z by {
                assert(list.contains(z));
                let k = choose|k: int| 0 <= k < list.len() && list[k] == z;
                assert(claims(list[k] as int));
                assert(at <= k);
                assert(set.contains(list[at]));
                if at < k {
                    if at == 0 && set.contains(dominant) {
                        assert(list[0] == dominant);
                    } else {
                        assert(list[at] < list[k]);
                    }
                }
            }
            if forall|z: u16| #[trigger] set.contains(z) ==> !claims(z as int) {
                assert(first_of(list, claims, 0) is None) by {
                    assert(set.contains(list[at]));
                }
            }
        }
    } else if set.len() == 1 {
        if set[0] != NO_ZONE {
            lemma_parent_names(t, tzids, grid, set[0] as int);
        }
    } else if dominant != NO_ZONE {
        lemma_parent_names(t, tzids, grid, dominant as int);
    }
}

} // verus!
