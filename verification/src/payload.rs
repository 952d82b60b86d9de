//! The payload serializer: header, zone table, geometry, grid.
//!
//! ```text
//! header:     dataset u8 | quant_bits u8 | simplify u8 | geom u8 | flags u8 (zero)
//!             | grid_deg f32 | eps_m f32 | release (len u8 + bytes)
//!             | n_features u16 | arcs_off u32 | rings_off u32 | grid_off u32
//!             | eager_coords u32 | eager_rings u32 | eager_polys u32
//! zone table: str_offsets u16[n_features+1] | tzid pool bytes   (zone i = feature i)
//! arc store:  n_arcs u32 | arc_offsets u32[n_arcs+1] | arc records
//! ring index: parent u16[n_polys] | poly_offsets u32[n_polys+1] | poly records
//! grid:       ncols u16 | nrows u16 | primary u16[ncols*nrows]
//!             | uniq u16 | list_offsets u16[uniq+1] | list_ids u16[Σ]
//! ```
//! The full-rings encoding replaces the arc store by zero padding to a
//! multiple of four, vertices, ring ends and poly boxes, and the ring index
//! by the parent table; the coarse encoding has the parent table alone.

use vstd::prelude::*;
use vstd::utf8::encode_utf8;

use crate::bytes::{le_bytes, push_bytes, push_u32};
use crate::clean::{arcs_view, refs_valid, CleanStats, Vertex};
use crate::common::GeomEncoding;
use crate::csr::{
    csr_of, grid_entries, grid_lists, ids_of, intern_lists, lemma_entries_valid, lists_view, tag_of,
    Entry, Order,
};
use crate::encode::{EncodeError, Limit, Params, PayloadStats};
use crate::grid::{CellGrid, NO_ZONE};
use crate::ieee::{narrow, narrowed};
use crate::sections::{
    arc_records, arc_store, concat, coords_bytes, flat_coords, flat_rings, image_polys, image_store,
    offsets_bytes, poly_records, polys_valid, polys_view, push_low16, push_low32, push_u16_table,
    ring_ends, ring_store, u16_table, u32_table,
};
use crate::sift::{feature_view, poly_view, refs_view, structure_view, topology_valid};
use crate::snapped::{total_verts, Snapped};

verus! {

/// The bit pattern of the smallest accepted cell size, 0.1 degrees.
pub const MIN_GRID_DEG: u64 = 0x3FB9_9999_9999_999A;

/// The bit pattern of the largest accepted cell size, 45 degrees.
pub const MAX_GRID_DEG: u64 = 0x4046_8000_0000_0000;

/// The polygons of the first `n` features in a row.
pub open spec fn flat_polys(structure: Seq<Seq<Seq<int>>>, n: int) -> Seq<Seq<int>>
    decreases n,
{
    if n <= 0 {
        Seq::empty()
    } else {
        flat_polys(structure, n - 1) + structure[n - 1]
    }
}

/// The feature of each polygon of the first `n` features.
pub open spec fn parents(structure: Seq<Seq<Seq<int>>>, n: int) -> Seq<u16>
    decreases n,
{
    if n <= 0 {
        Seq::empty()
    } else {
        parents(structure, n - 1) + Seq::new(structure[n - 1].len(), |k: int| (n - 1) as u16)
    }
}

/// The references of a polygon's rings.
pub open spec fn poly_refs_of(ring_refs: Seq<Seq<u32>>, poly: Seq<int>) -> Seq<Seq<u32>> {
    Seq::new(poly.len(), |k: int| ring_refs[poly[k]])
}

/// The references of each polygon's rings, for the first `n` features.
pub open spec fn polys_of(
    ring_refs: Seq<Seq<u32>>,
    structure: Seq<Seq<Seq<int>>>,
    n: int,
) -> Seq<Seq<Seq<u32>>> {
    let flat = flat_polys(structure, n);
    Seq::new(flat.len(), |i: int| poly_refs_of(ring_refs, flat[i]))
}

/// A zone name's bytes; a feature without one has the empty name.
pub open spec fn name_bytes(tzid: Option<String>) -> Seq<u8> {
    match tzid {
        Some(name) => encode_utf8(name@),
        None => Seq::empty(),
    }
}

/// The zone names' bytes.
pub open spec fn names_of(tzids: Seq<Option<String>>) -> Seq<Seq<u8>> {
    Seq::new(tzids.len(), |i: int| name_bytes(tzids[i]))
}

/// The first `n` entries of the zone table's offsets.
pub open spec fn name_offsets(names: Seq<Seq<u8>>, n: int) -> Seq<u8>
    decreases n,
{
    if n <= 0 {
        Seq::empty()
    } else {
        name_offsets(names, n - 1) + le_bytes(concat(names, n - 1).len() as int, 2)
    }
}

/// The zone table.
pub open spec fn zone_bytes(names: Seq<Seq<u8>>) -> Seq<u8> {
    name_offsets(names, names.len() as int + 1) + concat(names, names.len() as int)
}

/// What a primary cell stores: the feature that owns the cell, or a list.
/// List entries keep poly ids; a cell answered without geometry needs no
/// parent hop.
pub open spec fn cell_value(e: Entry, parent: Seq<u16>) -> u16 {
    match e {
        Entry::Zone(z) => if z == NO_ZONE {
            0x7FFF
        } else {
            parent[z as int]
        },
        Entry::List(_) => tag_of(e),
    }
}

/// The grid section.
pub open spec fn grid_bytes(
    ncols: int,
    nrows: int,
    entries: Seq<Entry>,
    lists: Seq<Seq<u16>>,
    parent: Seq<u16>,
) -> Seq<u8> {
    let primary = Seq::new(entries.len(), |c: int| cell_value(entries[c], parent));
    let offsets = Seq::new(lists.len() + 1, |i: int| ids_of(lists, i).len() as u16);
    let ids = ids_of(lists, lists.len() as int);
    le_bytes(ncols, 2) + le_bytes(nrows, 2) + u16_table(primary, primary.len() as int) + le_bytes(
        lists.len() as int,
        2,
    ) + u16_table(offsets, offsets.len() as int) + u16_table(ids, ids.len() as int)
}

/// Zero bytes up to the next multiple of four.
pub open spec fn padding(at: int) -> Seq<u8> {
    Seq::new(((4 - at % 4) % 4) as nat, |i: int| 0u8)
}

/// The geometry sections: what stands between the zone table and the ring
/// index (without padding), and the ring index.
pub struct Sections {
    pub arcs: Seq<u8>,
    pub rings: Seq<u8>,
    pub eager_coords: nat,
    pub eager_rings: nat,
}

/// The vertices of the arcs a ring's first `n` references name, counted.
pub open spec fn refs_verts(refs: Seq<u32>, arcs: Seq<Seq<Vertex>>, n: int) -> nat
    decreases n,
{
    if n <= 0 {
        0
    } else {
        refs_verts(refs, arcs, n - 1) + arcs[(refs[n - 1] / 2) as int].len()
    }
}

/// The vertices of the arcs the first `n` rings reference, counted.
pub open spec fn rings_verts(rings: Seq<Seq<u32>>, arcs: Seq<Seq<Vertex>>, n: int) -> nat
    decreases n,
{
    if n <= 0 {
        0
    } else {
        rings_verts(rings, arcs, n - 1) + refs_verts(
            rings[n - 1],
            arcs,
            rings[n - 1].len() as int,
        )
    }
}

/// The vertices of the arcs the first `n` polys reference, counted.
pub open spec fn polys_verts(polys: Seq<Seq<Seq<u32>>>, arcs: Seq<Seq<Vertex>>, n: int) -> nat
    decreases n,
{
    if n <= 0 {
        0
    } else {
        polys_verts(polys, arcs, n - 1) + rings_verts(
            polys[n - 1],
            arcs,
            polys[n - 1].len() as int,
        )
    }
}

/// The geometry of an encoding.
pub open spec fn sections_of(
    geom: GeomEncoding,
    size: nat,
    polys: Seq<Seq<Seq<u32>>>,
    arcs: Seq<Seq<Vertex>>,
    parent: Seq<u16>,
) -> Sections {
    let rings = flat_rings(polys, polys.len() as int);
    let parent_bytes = u16_table(parent, parent.len() as int);
    match geom {
        GeomEncoding::Coarse => Sections {
            arcs: Seq::empty(),
            rings: parent_bytes,
            eager_coords: 0,
            eager_rings: 0,
        },
        GeomEncoding::FullRings => {
            let coords = flat_coords(rings, arcs, rings.len() as int);
            let ends = ring_ends(rings, arcs);
            Sections {
                arcs: coords_bytes(coords, size, coords.len() as int) + u32_table(
                    ends,
                    ends.len() as int,
                ) + image_polys(polys, arcs, polys.len() as int),
                rings: parent_bytes,
                eager_coords: coords.len(),
                eager_rings: rings.len(),
            }
        },
        _ => {
            let fixed = geom == GeomEncoding::FixedWidthArcs;
            let arc_recs = arc_records(arcs, fixed, size);
            let poly_recs = poly_records(polys, arcs, size);
            Sections {
                arcs: le_bytes(arcs.len() as int, 4) + offsets_bytes(
                    arc_recs,
                    arc_recs.len() as int + 1,
                ) + concat(arc_recs, arc_recs.len() as int),
                rings: parent_bytes + offsets_bytes(poly_recs, poly_recs.len() as int + 1)
                    + concat(poly_recs, poly_recs.len() as int),
                eager_coords: polys_verts(polys, arcs, polys.len() as int),
                eager_rings: rings.len(),
            }
        },
    }
}

/// The header's length for a release tag of `release_len` bytes.
pub open spec fn header_len(release_len: int) -> int {
    40 + release_len
}

/// The header up to the release: the knobs, cell size and tolerance narrowed to
/// singles.
pub open spec fn knob_bytes(p: Params) -> Seq<u8> {
    seq![p.dataset, p.quant_bits as u8, p.simplify.code(), p.geom.code(), 0u8] + le_bytes(
        narrowed(p.grid_deg),
        4,
    ) + le_bytes(narrowed(p.eps_m), 4)
}

/// The header.
pub open spec fn header_bytes(
    p: Params,
    n_features: int,
    arcs_off: int,
    rings_off: int,
    grid_off: int,
    s: Sections,
    n_polys: int,
) -> Seq<u8> {
    let release = encode_utf8(p.tzbb_release@);
    knob_bytes(p) + le_bytes(release.len() as int, 1) + release + le_bytes(
        n_features,
        2,
    ) + le_bytes(arcs_off, 4) + le_bytes(rings_off, 4) + le_bytes(grid_off, 4) + le_bytes(
        s.eager_coords as int,
        4,
    ) + le_bytes(s.eager_rings as int, 4) + le_bytes(n_polys, 4)
}

/// What the serializer works on.
#[verifier::ext_equal]
pub struct Source {
    pub names: Seq<Seq<u8>>,
    pub polys: Seq<Seq<Seq<u32>>>,
    pub parent: Seq<u16>,
    pub arcs: Seq<Seq<Vertex>>,
    pub ncols: int,
    pub nrows: int,
    pub entries: Seq<Entry>,
    pub lists: Seq<Seq<u16>>,
}

/// The source of a topology, its zone names and its grid.
pub open spec fn source_of(t: Snapped, tzids: Seq<Option<String>>, grid: CellGrid) -> Source {
    let sv = structure_view(t.structure@);
    let n = tzids.len() as int;
    Source {
        names: names_of(tzids),
        polys: polys_of(refs_view(t.ring_refs@), sv, n),
        parent: parents(sv, n),
        arcs: arcs_view(t.arcs@),
        ncols: grid.ncols as int,
        nrows: grid.nrows as int,
        entries: grid_entries(grid, Order::CellDominantFirst, Seq::empty()),
        lists: grid_lists(grid, Order::CellDominantFirst, Seq::empty()),
    }
}

/// The bytes per coordinate.
pub open spec fn coord_size(quant_bits: u32) -> nat {
    (quant_bits / 8) as nat
}

/// The geometry sections of a source.
pub open spec fn geometry_of(p: Params, src: Source) -> Sections {
    sections_of(p.geom, coord_size(p.quant_bits), src.polys, src.arcs, src.parent)
}

/// Where the zone table ends, padding included.
pub open spec fn arcs_off_of(p: Params, src: Source) -> int {
    let end = header_len(encode_utf8(p.tzbb_release@).len() as int) + zone_bytes(src.names).len();
    if p.geom == GeomEncoding::FullRings {
        end + padding(end).len()
    } else {
        end
    }
}

/// The padding behind the zone table.
pub open spec fn padding_of(p: Params, src: Source) -> Seq<u8> {
    if p.geom == GeomEncoding::FullRings {
        padding(
            header_len(encode_utf8(p.tzbb_release@).len() as int) + zone_bytes(src.names).len(),
        )
    } else {
        Seq::empty()
    }
}

/// The payload.
#[verifier::opaque]
pub open spec fn payload_bytes(p: Params, src: Source) -> Seq<u8> {
    let s = geometry_of(p, src);
    let arcs_off = arcs_off_of(p, src);
    let rings_off = arcs_off + s.arcs.len();
    let grid_off = rings_off + s.rings.len();
    header_bytes(
        p,
        src.names.len() as int,
        arcs_off,
        rings_off,
        grid_off,
        s,
        src.polys.len() as int,
    ) + zone_bytes(src.names) + padding_of(p, src) + s.arcs + s.rings + grid_bytes(
        src.ncols,
        src.nrows,
        src.entries,
        src.lists,
        src.parent,
    )
}

/// The section sizes and counts of a payload.
pub open spec fn payload_stats(p: Params, src: Source, clean: CleanStats) -> PayloadStats {
    let s = geometry_of(p, src);
    let header = header_len(encode_utf8(p.tzbb_release@).len() as int);
    PayloadStats {
        header: header as u32,
        zones: (arcs_off_of(p, src) - header) as u32,
        arcs: s.arcs.len() as u32,
        rings: s.rings.len() as u32,
        grid: grid_bytes(src.ncols, src.nrows, src.entries, src.lists, src.parent).len() as u32,
        n_arcs: src.arcs.len() as u32,
        n_verts: total_verts(src.arcs, src.arcs.len() as int) as u32,
        clean,
    }
}

/// A count as far as a `usize` goes.
pub open spec fn clamped(n: int) -> usize {
    if n <= usize::MAX {
        n as usize
    } else {
        usize::MAX
    }
}

/// Why the knobs or the feature count are refused, if they are.
pub open spec fn params_refusal(p: Params, n_features: int) -> Option<EncodeError> {
    if p.quant_bits != 16 && p.quant_bits != 24 && p.quant_bits != 32 {
        Some(EncodeError::QuantBits { bits: p.quant_bits })
    } else if !(MIN_GRID_DEG <= p.grid_deg <= MAX_GRID_DEG) {
        Some(EncodeError::GridDeg { deg: p.grid_deg })
    } else if n_features >= 0x7FFF {
        Some(
            EncodeError::FormatLimit {
                what: Limit::Features,
                n: n_features as usize,
                max: 0x7FFE,
            },
        )
    } else {
        None
    }
}

/// Whether a polygon has more rings than its record counts.
pub open spec fn too_many_rings(geom: GeomEncoding, polys: Seq<Seq<Seq<u32>>>) -> bool {
    &&& geom == GeomEncoding::VarintArcs || geom == GeomEncoding::FixedWidthArcs
    &&& exists|i: int| 0 <= i < polys.len() && (#[trigger] polys[i]).len() > 0xFFFF
}

/// Why a payload is refused, if it is: the first limit it passes.
pub open spec fn refusal(p: Params, src: Source) -> Option<EncodeError> {
    let release_len = encode_utf8(p.tzbb_release@).len();
    let ids = ids_of(src.lists, src.lists.len() as int).len();
    let pool = concat(src.names, src.names.len() as int).len();
    let coords = geometry_of(p, src).eager_coords;
    if params_refusal(p, src.names.len() as int) is Some {
        params_refusal(p, src.names.len() as int)
    } else if src.polys.len() >= 0x7FFF {
        Some(
            EncodeError::FormatLimit {
                what: Limit::Polygons,
                n: src.polys.len() as usize,
                max: 0x7FFE,
            },
        )
    } else if src.lists.len() >= 0x7FFF {
        Some(EncodeError::GridLists { deg: p.grid_deg, n: src.lists.len() as usize })
    } else if ids > 0xFFFF {
        Some(EncodeError::GridListIds { deg: p.grid_deg, n: clamped(ids as int) })
    } else if release_len >= 256 {
        Some(
            EncodeError::FormatLimit {
                what: Limit::ReleaseBytes,
                n: release_len as usize,
                max: 255,
            },
        )
    } else if coords > u32::MAX {
        Some(
            EncodeError::FormatLimit {
                what: Limit::EagerCoords,
                n: clamped(coords as int),
                max: u32::MAX as usize,
            },
        )
    } else if pool > 0xFFFF {
        Some(
            EncodeError::FormatLimit {
                what: Limit::PoolBytes,
                n: clamped(pool as int),
                max: 0xFFFF,
            },
        )
    } else if too_many_rings(p.geom, src.polys) {
        Some(EncodeError::Oversized { what: Limit::PolyRings })
    } else if src.arcs.len() > u32::MAX {
        Some(EncodeError::Oversized { what: Limit::Arcs })
    } else if total_verts(src.arcs, src.arcs.len() as int) > u32::MAX {
        Some(EncodeError::Oversized { what: Limit::Vertices })
    } else if payload_bytes(p, src).len() > u32::MAX {
        Some(EncodeError::Oversized { what: Limit::PayloadBytes })
    } else {
        None
    }
}

/// Whether a grid's cell count matches its dimensions, which fit the format,
/// and its ids name polygons.
pub open spec fn grid_fits(grid: CellGrid, n_polys: int) -> bool {
    &&& grid.sets@.len() == grid.ncols * grid.nrows
    &&& grid.dominant@.len() == grid.sets@.len()
    &&& grid.ncols <= 0xFFFF
    &&& grid.nrows <= 0xFFFF
    &&& forall|c: int|
        0 <= c < grid.sets@.len() && (#[trigger] grid.sets@[c])@.len() == 1 ==> grid.sets@[c]@[0]
            < n_polys || grid.sets@[c]@[0] == NO_ZONE
    &&& forall|c: int|
        0 <= c < grid.dominant@.len() ==> (#[trigger] grid.dominant@[c]) < n_polys
            || grid.dominant@[c] == NO_ZONE
}

/// Whether a grid is one of a topology's polygons: its cell count matches its
/// dimensions, which fit the format, and its ids name polygons.
pub fn is_grid_of(grid: &CellGrid, t: &Snapped, n_features: usize) -> (valid: bool)
    requires
        n_features <= t.structure@.len(),
    ensures
        valid == grid_fits(
            *grid,
            polys_of(
                refs_view(t.ring_refs@),
                structure_view(t.structure@),
                n_features as int,
            ).len() as int,
        ),
{
    let ghost sv = structure_view(t.structure@);
    let ghost all = flat_polys(sv, n_features as int).len();
    let mut n: u128 = 0;
    let mut f: usize = 0;
    while f < n_features
        invariant
            f <= n_features <= t.structure@.len(),
            sv == structure_view(t.structure@),
            n == flat_polys(sv, f as int).len(),
            n <= f * 0x1_0000_0000_0000_0000,
        decreases n_features - f,
    {
        assert(sv[f as int].len() == t.structure@[f as int]@.len());
        let m = t.structure[f].len();
        n = n + m as u128;
        f = f + 1;
    }
    if grid.ncols > 0xFFFF || grid.nrows > 0xFFFF {
        return false;
    }
    assert(grid.ncols * grid.nrows <= 0xFFFF * 0xFFFF) by (nonlinear_arith)
        requires
            grid.ncols <= 0xFFFF,
            grid.nrows <= 0xFFFF,
    ;
    let cells = grid.ncols as u64 * grid.nrows as u64;
    assert(cells == grid.ncols * grid.nrows);
    if grid.sets.len() as u64 != cells || grid.dominant.len() != grid.sets.len() {
        return false;
    }
    let mut c: usize = 0;
    while c < grid.sets.len()
        invariant
            c <= grid.sets@.len(),
            grid.dominant@.len() == grid.sets@.len(),
            n == all,
            all == polys_of(
                refs_view(t.ring_refs@),
                structure_view(t.structure@),
                n_features as int,
            ).len(),
            forall|i: int|
                0 <= i < c && (#[trigger] grid.sets@[i])@.len() == 1 ==> grid.sets@[i]@[0] < all
                    || grid.sets@[i]@[0] == NO_ZONE,
            forall|i: int|
                0 <= i < c ==> (#[trigger] grid.dominant@[i]) < all || grid.dominant@[i]
                    == NO_ZONE,
        decreases grid.sets@.len() - c,
    {
        let set = &grid.sets[c];
        if set.len() == 1 && set[0] as u128 >= n && set[0] != NO_ZONE {
            assert(grid.sets@[c as int]@[0] >= all);
            return false;
        }
        let d = grid.dominant[c];
        if d as u128 >= n && d != NO_ZONE {
            assert(grid.dominant@[c as int] >= all);
            return false;
        }
        c = c + 1;
    }
    true
}

/// Refuses knobs out of range and too many features.
pub fn check_params(p: &Params, n_features: usize) -> (r: Result<(), EncodeError>)
    ensures
        r == match params_refusal(*p, n_features as int) {
            Some(e) => Err::<(), EncodeError>(e),
            None => Ok(()),
        },
{
    if p.quant_bits != 16 && p.quant_bits != 24 && p.quant_bits != 32 {
        return Err(EncodeError::QuantBits { bits: p.quant_bits });
    }
    if p.grid_deg < MIN_GRID_DEG || p.grid_deg > MAX_GRID_DEG {
        return Err(EncodeError::GridDeg { deg: p.grid_deg });
    }
    if n_features >= 0x7FFF {
        return Err(
            EncodeError::FormatLimit { what: Limit::Features, n: n_features, max: 0x7FFE },
        );
    }
    Ok(())
}

/// Checks that polygons can be numbered in 15 bits.
pub fn check_polygons(n: usize) -> (r: Result<(), EncodeError>)
    ensures
        r == if n >= 0x7FFF {
            Err::<(), EncodeError>(
                EncodeError::FormatLimit { what: Limit::Polygons, n, max: 0x7FFE },
            )
        } else {
            Ok(())
        },
{
    if n >= 0x7FFF {
        return Err(EncodeError::FormatLimit { what: Limit::Polygons, n, max: 0x7FFE });
    }
    Ok(())
}

/// Collects the first `n` features' polygons in a row, with each polygon's
/// feature.
fn collect_polys(
    ring_refs: &Vec<Vec<u32>>,
    structure: &Vec<Vec<Vec<usize>>>,
    n: usize,
    arcs: Ghost<Seq<Vec<Vertex>>>,
) -> (out: (Vec<Vec<Vec<u32>>>, Vec<u16>))
    requires
        topology_valid(ring_refs@, structure@, arcs@),
        n <= structure@.len(),
        n <= 0x1_0000,
    ensures
        polys_view(out.0@) == polys_of(
            refs_view(ring_refs@),
            structure_view(structure@),
            n as int,
        ),
        out.1@ == parents(structure_view(structure@), n as int),
        out.0@.len() == out.1@.len(),
        polys_valid(out.0@, arcs@),
{
    let ghost sv = structure_view(structure@);
    let ghost rv = refs_view(ring_refs@);
    let mut polys: Vec<Vec<Vec<u32>>> = Vec::new();
    let mut parent: Vec<u16> = Vec::new();
    let mut f: usize = 0;
    assert(polys_view(polys@) =~= polys_of(rv, sv, 0));
    while f < n
        invariant
            f <= n,
            n <= structure@.len(),
            n <= 0x1_0000,
            sv == structure_view(structure@),
            rv == refs_view(ring_refs@),
            topology_valid(ring_refs@, structure@, arcs@),
            polys_view(polys@) == polys_of(rv, sv, f as int),
            parent@ == parents(sv, f as int),
            polys@.len() == parent@.len(),
            polys_valid(polys@, arcs@),
        decreases n - f,
    {
        let feature = &structure[f];
        let ghost fv = feature_view(feature@);
        assert(sv[f as int] == fv);
        let ghost before = polys_view(polys@);
        let ghost parent0 = parent@;
        let mut q: usize = 0;
        assert(polys_view(polys@) =~= before + Seq::new(
            0,
            |i: int| poly_refs_of(rv, fv[i]),
        ));
        assert(parent@ =~= parent0 + Seq::new(0, |k: int| f as u16));
        while q < feature.len()
            invariant
                q <= feature@.len(),
                f < n,
                n <= structure@.len(),
                n <= 0x1_0000,
                feature == structure@[f as int],
                fv == feature_view(feature@),
                rv == refs_view(ring_refs@),
                topology_valid(ring_refs@, structure@, arcs@),
                polys_view(polys@) == before + Seq::new(
                    q as nat,
                    |i: int| poly_refs_of(rv, fv[i]),
                ),
                parent@ == parent0 + Seq::new(q as nat, |k: int| f as u16),
                polys@.len() == parent@.len(),
                polys_valid(polys@, arcs@),
            decreases feature@.len() - q,
        {
            assert forall|k: int| 0 <= k < feature@[q as int]@.len() implies (
            #[trigger] feature@[q as int]@[k]) < ring_refs@.len() by {
                assert(structure@[f as int]@[q as int]@[k] < ring_refs@.len());
            }
            let rings = collect_rings(ring_refs, &feature[q], arcs);
            assert(fv[q as int] == poly_view(feature@[q as int]@));
            let ghost polys0 = polys@;
            polys.push(rings);
            parent.push(f as u16);
            proof {
                assert(polys_view(polys@) =~= polys_view(polys0).push(refs_view(rings@)));
                assert(polys_view(polys@) =~= before + Seq::new(
                    q as nat + 1,
                    |i: int| poly_refs_of(rv, fv[i]),
                ));
                assert(parent@ =~= parent0 + Seq::new(q as nat + 1, |k: int| f as u16));
                assert forall|i: int, k: int|
                    0 <= i < polys@.len() && 0 <= k < polys@[i]@.len() implies refs_valid(
                    (#[trigger] polys@[i]@[k])@,
                    arcs@,
                ) by {
                    if i < polys0.len() {
                        assert(polys@[i]@[k] == polys0[i]@[k]);
                    }
                }
            }
            q = q + 1;
        }
        proof {
            assert(polys_view(polys@) =~= polys_of(rv, sv, f as int + 1));
            assert(parent@ =~= parents(sv, f as int + 1));
        }
        f = f + 1;
    }
    (polys, parent)
}

/// Collects a polygon's ring references.
fn collect_rings(
    ring_refs: &Vec<Vec<u32>>,
    poly: &Vec<usize>,
    arcs: Ghost<Seq<Vec<Vertex>>>,
) -> (rings: Vec<Vec<u32>>)
    requires
        forall|r: int|
            0 <= r < ring_refs@.len() ==> refs_valid((#[trigger] ring_refs@[r])@, arcs@),
        forall|k: int| 0 <= k < poly@.len() ==> (#[trigger] poly@[k]) < ring_refs@.len(),
    ensures
        refs_view(rings@) == poly_refs_of(refs_view(ring_refs@), poly_view(poly@)),
        forall|k: int| 0 <= k < rings@.len() ==> refs_valid((#[trigger] rings@[k])@, arcs@),
{
    let mut rings: Vec<Vec<u32>> = Vec::new();
    let mut k: usize = 0;
    while k < poly.len()
        invariant
            k <= poly@.len(),
            rings@.len() == k,
            forall|j: int| 0 <= j < poly@.len() ==> (#[trigger] poly@[j]) < ring_refs@.len(),
            forall|r: int|
                0 <= r < ring_refs@.len() ==> refs_valid((#[trigger] ring_refs@[r])@, arcs@),
            forall|j: int| 0 <= j < k ==> refs_valid((#[trigger] rings@[j])@, arcs@),
            forall|j: int|
                0 <= j < k ==> (#[trigger] rings@[j])@ == ring_refs@[poly@[j] as int]@,
        decreases poly@.len() - k,
    {
        assert(refs_valid(ring_refs@[poly@[k as int] as int]@, arcs@));
        rings.push(vstd::slice::slice_to_vec(ring_refs[poly[k]].as_slice()));
        k = k + 1;
    }
    proof {
        let rv = refs_view(ring_refs@);
        assert(refs_view(rings@) =~= poly_refs_of(rv, poly_view(poly@))) by {
            assert forall|j: int| 0 <= j < poly@.len() implies refs_view(rings@)[j]
                == #[trigger] poly_refs_of(rv, poly_view(poly@))[j] by {
                assert(rings@[j]@ == ring_refs@[poly@[j] as int]@);
                assert(rv[poly@[j] as int] == ring_refs@[poly@[j] as int]@);
            }
        }
    }
    rings
}

/// The zone table's offsets and its name pool.
fn zone_store(tzids: &[Option<String>]) -> (out: (Vec<u8>, Vec<u8>))
    ensures
        ({
            let names = names_of(tzids@);
            &&& out.0@ == name_offsets(names, names.len() as int + 1)
            &&& out.1@ == concat(names, names.len() as int)
        }),
{
    let ghost names = names_of(tzids@);
    let mut table: Vec<u8> = Vec::new();
    let mut pool: Vec<u8> = Vec::new();
    let mut i: usize = 0;
    while i < tzids.len()
        invariant
            i <= tzids@.len(),
            names == names_of(tzids@),
            table@ == name_offsets(names, i as int),
            pool@ == concat(names, i as int),
        decreases tzids@.len() - i,
    {
        push_low16(&mut table, pool.len());
        assert(names[i as int] == name_bytes(tzids@[i as int]));
        match &tzids[i] {
            Some(name) => {
                push_bytes(&mut pool, name.as_str().as_bytes());
            },
            None => {
                assert(pool@ =~= pool@ + Seq::<u8>::empty());
            },
        }
        i = i + 1;
    }
    push_low16(&mut table, pool.len());
    (table, pool)
}

/// A count as far as 64 bits go.
pub open spec fn clamped64(n: int) -> u64 {
    if n <= u64::MAX {
        n as u64
    } else {
        u64::MAX
    }
}

fn sum64(a: u64, b: u64, x: Ghost<int>, y: Ghost<int>) -> (sum: u64)
    requires
        x@ >= 0,
        y@ >= 0,
        a == clamped64(x@),
        b == clamped64(y@),
    ensures
        sum == clamped64(x@ + y@),
{
    if b > u64::MAX - a {
        u64::MAX
    } else {
        a + b
    }
}

/// The vertices of the arcs the polys reference, counted.
fn count_verts(polys: &Vec<Vec<Vec<u32>>>, arcs: &Vec<Vec<Vertex>>) -> (n: u64)
    requires
        polys_valid(polys@, arcs@),
    ensures
        n == clamped64(
            polys_verts(polys_view(polys@), arcs_view(arcs@), polys@.len() as int) as int,
        ),
{
    let ghost pv = polys_view(polys@);
    let ghost av = arcs_view(arcs@);
    let mut n: u64 = 0;
    let mut i: usize = 0;
    while i < polys.len()
        invariant
            i <= polys@.len(),
            pv == polys_view(polys@),
            av == arcs_view(arcs@),
            polys_valid(polys@, arcs@),
            n == clamped64(polys_verts(pv, av, i as int) as int),
        decreases polys@.len() - i,
    {
        let rings = &polys[i];
        let ghost rv = refs_view(rings@);
        assert(pv[i as int] == rv);
        let mut in_poly: u64 = 0;
        let mut k: usize = 0;
        while k < rings.len()
            invariant
                i < polys@.len(),
                rings == polys@[i as int],
                k <= rings@.len(),
                rv == refs_view(rings@),
                av == arcs_view(arcs@),
                polys_valid(polys@, arcs@),
                in_poly == clamped64(rings_verts(rv, av, k as int) as int),
            decreases rings@.len() - k,
        {
            let refs = &rings[k];
            assert(rv[k as int] == refs@);
            assert(refs_valid(polys@[i as int]@[k as int]@, arcs@));
            let mut in_ring: u64 = 0;
            let mut j: usize = 0;
            while j < refs.len()
                invariant
                    j <= refs@.len(),
                    refs_valid(refs@, arcs@),
                    av == arcs_view(arcs@),
                    in_ring == clamped64(refs_verts(refs@, av, j as int) as int),
                decreases refs@.len() - j,
            {
                assert((refs@[j as int] / 2) < arcs@.len());
                let id = (refs[j] / 2) as usize;
                assert(av[id as int] == arcs@[id as int]@);
                let m = arcs[id].len() as u64;
                in_ring = sum64(
                    in_ring,
                    m,
                    Ghost(refs_verts(refs@, av, j as int) as int),
                    Ghost(m as int),
                );
                j = j + 1;
            }
            in_poly = sum64(
                in_poly,
                in_ring,
                Ghost(rings_verts(rv, av, k as int) as int),
                Ghost(refs_verts(refs@, av, refs@.len() as int) as int),
            );
            k = k + 1;
        }
        n = sum64(
            n,
            in_poly,
            Ghost(polys_verts(pv, av, i as int) as int),
            Ghost(rings_verts(rv, av, rv.len() as int) as int),
        );
        i = i + 1;
    }
    n
}

/// The serialized geometry.
struct Geometry {
    arcs: Vec<u8>,
    rings: Vec<u8>,
    eager_coords: u64,
    eager_rings: usize,
}

impl Geometry {
    /// Whether this is the geometry of these sections.
    spec fn of(self, s: Sections) -> bool {
        &&& self.arcs@ == s.arcs
        &&& self.rings@ == s.rings
        &&& self.eager_coords == clamped64(s.eager_coords as int)
        &&& self.eager_rings == s.eager_rings
    }
}

/// Serializes the geometry of an encoding.
fn geometry(
    geom: GeomEncoding,
    size: usize,
    polys: &Vec<Vec<Vec<u32>>>,
    arcs: &Vec<Vec<Vertex>>,
    parent: &Vec<u16>,
) -> (g: Geometry)
    requires
        2 <= size <= 4,
        polys_valid(polys@, arcs@),
    ensures
        g.of(
            sections_of(geom, size as nat, polys_view(polys@), arcs_view(arcs@), parent@),
        ),
{
    let ghost s = sections_of(
        geom,
        size as nat,
        polys_view(polys@),
        arcs_view(arcs@),
        parent@,
    );
    let mut rings: Vec<u8> = Vec::new();
    push_u16_table(&mut rings, parent.as_slice());
    assert(rings@ =~= u16_table(parent@, parent@.len() as int));
    match geom {
        GeomEncoding::Coarse => {
            let arcs: Vec<u8> = Vec::new();
            Geometry { arcs, rings, eager_coords: 0, eager_rings: 0 }
        },
        GeomEncoding::FullRings => {
            let (coords, ends, boxes, n_coords, n_rings) = image_store(polys, arcs, size);
            let mut image = coords;
            push_bytes(&mut image, ends.as_slice());
            push_bytes(&mut image, boxes.as_slice());
            Geometry {
                arcs: image,
                rings,
                eager_coords: n_coords as u64,
                eager_rings: n_rings,
            }
        },
        GeomEncoding::VarintArcs | GeomEncoding::FixedWidthArcs => {
            let fixed = geom == GeomEncoding::FixedWidthArcs;
            let (arc_table, arc_data) = arc_store(arcs, fixed, size);
            let (poly_table, poly_data, n_rings) = ring_store(polys, arcs, size);
            let mut store: Vec<u8> = Vec::new();
            push_low32(&mut store, arcs.len());
            push_bytes(&mut store, arc_table.as_slice());
            push_bytes(&mut store, arc_data.as_slice());
            push_bytes(&mut rings, poly_table.as_slice());
            push_bytes(&mut rings, poly_data.as_slice());
            proof {
                assert(arcs_view(arcs@).len() == arcs@.len());
                assert(store@ =~= s.arcs);
                assert(rings@ =~= s.rings);
            }
            let eager_coords = count_verts(polys, arcs);
            Geometry { arcs: store, rings, eager_coords, eager_rings: n_rings }
        },
    }
}

/// The ids of all lists, counted.
fn count_ids(lists: &Vec<Vec<u16>>) -> (n: usize)
    ensures
        n == clamped(ids_of(lists_view(lists@), lists@.len() as int).len() as int),
{
    let ghost lv = lists_view(lists@);
    let mut n: usize = 0;
    let mut i: usize = 0;
    while i < lists.len()
        invariant
            i <= lists@.len(),
            lv == lists_view(lists@),
            n == clamped(ids_of(lv, i as int).len() as int),
        decreases lists@.len() - i,
    {
        assert(lv[i as int] == lists@[i as int]@);
        let m = lists[i].len();
        n = if m > usize::MAX - n {
            usize::MAX
        } else {
            n + m
        };
        i = i + 1;
    }
    n
}

/// Serializes the grid.
fn grid_store(
    ncols: usize,
    nrows: usize,
    entries: &Vec<Entry>,
    lists: &Vec<Vec<u16>>,
    parent: &Vec<u16>,
) -> (out: Vec<u8>)
    requires
        lists@.len() < 0x7FFF,
        ids_of(lists_view(lists@), lists@.len() as int).len() <= 0xFFFF,
        forall|c: int|
            0 <= c < entries@.len() ==> (match #[trigger] entries@[c] {
                Entry::List(i) => i < lists@.len(),
                Entry::Zone(z) => z < parent@.len() || z == NO_ZONE,
            }),
    ensures
        out@ == grid_bytes(
            ncols as int,
            nrows as int,
            entries@,
            lists_view(lists@),
            parent@,
        ),
{
    let ghost lv = lists_view(lists@);
    let csr = csr_of(entries, lists);
    let mut primary: Vec<u16> = Vec::new();
    let mut c: usize = 0;
    while c < entries.len()
        invariant
            c <= entries@.len(),
            csr.primary@ == Seq::new(entries@.len(), |i: int| tag_of(entries@[i])),
            forall|i: int|
                0 <= i < entries@.len() ==> (match #[trigger] entries@[i] {
                    Entry::List(k) => k < lists@.len(),
                    Entry::Zone(z) => z < parent@.len() || z == NO_ZONE,
                }),
            primary@ == Seq::new(c as nat, |i: int| cell_value(entries@[i], parent@)),
        decreases entries@.len() - c,
    {
        let value = match entries[c] {
            Entry::Zone(z) => if z == NO_ZONE {
                0x7FFF
            } else {
                parent[z as usize]
            },
            Entry::List(_) => csr.primary[c],
        };
        primary.push(value);
        assert(primary@ =~= Seq::new(c as nat + 1, |i: int| cell_value(entries@[i], parent@)));
        c = c + 1;
    }
    let mut out: Vec<u8> = Vec::new();
    push_low16(&mut out, ncols);
    push_low16(&mut out, nrows);
    push_u16_table(&mut out, primary.as_slice());
    push_low16(&mut out, lists.len());
    push_u16_table(&mut out, csr.list_offsets.as_slice());
    push_u16_table(&mut out, csr.list_ids.as_slice());
    assert(lv.len() == lists@.len());
    assert(out@ =~= grid_bytes(ncols as int, nrows as int, entries@, lv, parent@));
    out
}

/// Whether a polygon has more rings than its record counts.
fn some_poly_too_long(polys: &Vec<Vec<Vec<u32>>>) -> (found: bool)
    ensures
        found == exists|i: int|
            0 <= i < polys_view(polys@).len() && (#[trigger] polys_view(polys@)[i]).len() > 0xFFFF,
{
    let ghost pv = polys_view(polys@);
    let mut i: usize = 0;
    while i < polys.len()
        invariant
            i <= polys@.len(),
            pv == polys_view(polys@),
            forall|j: int| 0 <= j < i ==> (#[trigger] pv[j]).len() <= 0xFFFF,
        decreases polys@.len() - i,
    {
        assert(pv[i as int].len() == polys@[i as int]@.len());
        if polys[i].len() > 0xFFFF {
            return true;
        }
        i = i + 1;
    }
    false
}

/// The arcs' vertices, counted up to 32 bits.
fn count_arc_verts(arcs: &Vec<Vec<Vertex>>) -> (n: Option<u32>)
    ensures
        n == if total_verts(arcs_view(arcs@), arcs@.len() as int) <= u32::MAX {
            Some(total_verts(arcs_view(arcs@), arcs@.len() as int) as u32)
        } else {
            None
        },
{
    let ghost av = arcs_view(arcs@);
    let mut n: u32 = 0;
    let mut i: usize = 0;
    while i < arcs.len()
        invariant
            i <= arcs@.len(),
            av == arcs_view(arcs@),
            n == total_verts(av, i as int),
        decreases arcs@.len() - i,
    {
        assert(av[i as int] == arcs@[i as int]@);
        let m = arcs[i].len() as u64;
        if m > (u32::MAX - n) as u64 {
            proof {
                crate::snapped::lemma_verts_grow(av, i as int + 1, av.len() as int);
            }
            return None;
        }
        n = n + m as u32;
        i = i + 1;
    }
    Some(n)
}

/// Serializes the header up to the release.
fn knob_store(p: &Params) -> (out: Vec<u8>)
    requires
        p.quant_bits <= 32,
    ensures
        out@ == knob_bytes(*p),
{
    let (grid_deg, eps_m) = (narrow(p.grid_deg), narrow(p.eps_m));
    let mut out: Vec<u8> = Vec::new();
    out.push(p.dataset);
    out.push(p.quant_bits as u8);
    out.push(p.simplify.byte());
    out.push(p.geom.byte());
    out.push(0);
    push_u32(&mut out, grid_deg);
    push_u32(&mut out, eps_m);
    assert(out@ =~= knob_bytes(*p));
    out
}

/// Serializes the header.
fn header_store(
    p: &Params,
    n_features: usize,
    arcs_off: usize,
    rings_off: usize,
    grid_off: usize,
    eager_coords: u32,
    eager_rings: usize,
    n_polys: usize,
    s: Ghost<Sections>,
) -> (out: Vec<u8>)
    requires
        p.quant_bits <= 32,
        encode_utf8(p.tzbb_release@).len() < 256,
        s@.eager_coords == eager_coords,
        s@.eager_rings == eager_rings,
    ensures
        out@ == header_bytes(
            *p,
            n_features as int,
            arcs_off as int,
            rings_off as int,
            grid_off as int,
            s@,
            n_polys as int,
        ),
{
    let mut out = knob_store(p);
    let release = p.tzbb_release.as_str().as_bytes();
    let ghost before = out@;
    out.push(release.len() as u8);
    assert(out@ =~= before + le_bytes(release@.len() as int, 1));
    push_bytes(&mut out, release);
    push_low16(&mut out, n_features);
    push_low32(&mut out, arcs_off);
    push_low32(&mut out, rings_off);
    push_low32(&mut out, grid_off);
    push_u32(&mut out, eager_coords);
    push_low32(&mut out, eager_rings);
    push_low32(&mut out, n_polys);
    assert(out@ =~= header_bytes(
        *p,
        n_features as int,
        arcs_off as int,
        rings_off as int,
        grid_off as int,
        s@,
        n_polys as int,
    ));
    out
}

proof fn lemma_header_len(
    p: Params,
    n_features: int,
    arcs_off: int,
    rings_off: int,
    grid_off: int,
    s: Sections,
    n_polys: int,
)
    ensures
        header_bytes(p, n_features, arcs_off, rings_off, grid_off, s, n_polys).len() == header_len(
            encode_utf8(p.tzbb_release@).len() as int,
        ),
{
}

proof fn lemma_payload_len(p: Params, src: Source)
    ensures
        payload_bytes(p, src).len() == arcs_off_of(p, src) + geometry_of(p, src).arcs.len()
            + geometry_of(p, src).rings.len() + grid_bytes(
            src.ncols,
            src.nrows,
            src.entries,
            src.lists,
            src.parent,
        ).len(),
{
    reveal(payload_bytes);
    let s = geometry_of(p, src);
    let arcs_off = arcs_off_of(p, src);
    lemma_header_len(
        p,
        src.names.len() as int,
        arcs_off,
        arcs_off + s.arcs.len(),
        arcs_off + s.arcs.len() + s.rings.len(),
        s,
        src.polys.len() as int,
    );
}

/// Puts the sections together.
fn assemble(
    p: &Params,
    n_features: usize,
    n_polys: usize,
    release_len: usize,
    zones: Vec<u8>,
    g: Geometry,
    grid: Vec<u8>,
    n_arcs: u32,
    n_verts: u32,
    clean: CleanStats,
    src: Ghost<Source>,
) -> (r: Result<(Vec<u8>, PayloadStats), EncodeError>)
    requires
        p.quant_bits <= 32,
        n_features == src@.names.len(),
        n_polys == src@.polys.len(),
        release_len == encode_utf8(p.tzbb_release@).len(),
        release_len < 256,
        zones@ == zone_bytes(src@.names),
        g.of(geometry_of(*p, src@)),
        geometry_of(*p, src@).eager_coords <= u32::MAX,
        grid@ == grid_bytes(src@.ncols, src@.nrows, src@.entries, src@.lists, src@.parent),
        n_arcs == src@.arcs.len(),
        n_verts == total_verts(src@.arcs, src@.arcs.len() as int),
    ensures
        if payload_bytes(*p, src@).len() > u32::MAX {
            r == Err::<(Vec<u8>, PayloadStats), EncodeError>(
                EncodeError::Oversized { what: Limit::PayloadBytes },
            )
        } else {
            r matches Ok(out) && out.0@ == payload_bytes(*p, src@) && out.1 == payload_stats(
                *p,
                src@,
                clean,
            )
        },
{
    let ghost s = geometry_of(*p, src@);
    let zones_end: u128 = 40 + release_len as u128 + zones.len() as u128;
    let pad: u128 = if p.geom == GeomEncoding::FullRings {
        (4 - zones_end % 4) % 4
    } else {
        0
    };
    proof {
        lemma_payload_len(*p, src@);
        assert(padding(zones_end as int).len() == (4 - zones_end % 4) % 4);
    }
    let total: u128 = zones_end + pad + g.arcs.len() as u128 + g.rings.len() as u128 + grid.len()
        as u128;
    assert(total == payload_bytes(*p, src@).len());
    if total > 0xFFFF_FFFF {
        return Err(EncodeError::Oversized { what: Limit::PayloadBytes });
    }
    let header = (40 + release_len) as u32;
    let arcs_off = (zones_end + pad) as usize;
    let rings_off = arcs_off + g.arcs.len();
    let grid_off = rings_off + g.rings.len();
    let mut o = header_store(
        p,
        n_features,
        arcs_off,
        rings_off,
        grid_off,
        g.eager_coords as u32,
        g.eager_rings,
        n_polys,
        Ghost(s),
    );
    push_bytes(&mut o, zones.as_slice());
    let ghost zoned = o@;
    let mut k: u128 = 0;
    assert(o@ =~= zoned + Seq::new(0, |i: int| 0u8));
    while k < pad
        invariant
            k <= pad,
            pad < 4,
            o@ == zoned + Seq::new(k as nat, |i: int| 0u8),
        decreases pad - k,
    {
        o.push(0);
        assert(o@ =~= zoned + Seq::new(k as nat + 1, |i: int| 0u8));
        k = k + 1;
    }
    assert(Seq::new(pad as nat, |i: int| 0u8) =~= padding_of(*p, src@));
    push_bytes(&mut o, g.arcs.as_slice());
    push_bytes(&mut o, g.rings.as_slice());
    push_bytes(&mut o, grid.as_slice());
    proof {
        reveal(payload_bytes);
        assert(o@ =~= payload_bytes(*p, src@));
    }
    let stats = PayloadStats {
        header,
        zones: arcs_off as u32 - header,
        arcs: g.arcs.len() as u32,
        rings: g.rings.len() as u32,
        grid: grid.len() as u32,
        n_arcs,
        n_verts,
        clean,
    };
    Ok((o, stats))
}

/// Serializes a snapped topology with its zone names and its grid: header,
/// zone table, geometry, grid. `tzids` names the features in order; the grid
/// is that of the topology's polygons, one id each, in structure order.
pub fn payload_from_topology(
    t: &Snapped,
    tzids: &[Option<String>],
    grid: &CellGrid,
    p: &Params,
) -> (r: Result<(Vec<u8>, PayloadStats), EncodeError>)
    requires
        t.wf(),
        tzids@.len() <= t.structure@.len(),
        grid_fits(*grid, source_of(*t, tzids@, *grid).polys.len() as int),
    ensures
        match refusal(*p, source_of(*t, tzids@, *grid)) {
            Some(e) => r == Err::<(Vec<u8>, PayloadStats), EncodeError>(e),
            None => r matches Ok(out) && out.0@ == payload_bytes(
                *p,
                source_of(*t, tzids@, *grid),
            ) && out.1 == payload_stats(*p, source_of(*t, tzids@, *grid), t.clean),
        },
{
    let ghost src = source_of(*t, tzids@, *grid);
    if let Err(e) = check_params(p, tzids.len()) {
        return Err(e);
    }
    let (polys, parent) = collect_polys(
        &t.ring_refs,
        &t.structure,
        tzids.len(),
        Ghost(t.arcs@),
    );
    proof {
        assert(polys_view(polys@).len() == polys@.len());
        assert(src.polys == polys_view(polys@));
        assert(src.parent == parent@);
    }
    if let Err(e) = check_polygons(polys.len()) {
        return Err(e);
    }
    let no_areas: Vec<u64> = Vec::new();
    let (entries, lists) = intern_lists(grid, Order::CellDominantFirst, no_areas.as_slice());
    proof {
        assert(no_areas@ =~= Seq::<u64>::empty());
        assert(lists_view(lists@).len() == lists@.len());
    }
    if lists.len() >= 0x7FFF {
        return Err(EncodeError::GridLists { deg: p.grid_deg, n: lists.len() });
    }
    let ids = count_ids(&lists);
    if ids > 0xFFFF {
        return Err(EncodeError::GridListIds { deg: p.grid_deg, n: ids });
    }
    let release_len = p.tzbb_release.as_str().as_bytes().len();
    if release_len >= 256 {
        return Err(
            EncodeError::FormatLimit { what: Limit::ReleaseBytes, n: release_len, max: 255 },
        );
    }
    let size: usize = (p.quant_bits / 8) as usize;
    let g = geometry(p.geom, size, &polys, &t.arcs, &parent);
    let ghost s = geometry_of(*p, src);
    assert(g.of(s));
    if g.eager_coords > 0xFFFF_FFFF {
        let n = if g.eager_coords > usize::MAX as u64 {
            usize::MAX
        } else {
            g.eager_coords as usize
        };
        return Err(
            EncodeError::FormatLimit { what: Limit::EagerCoords, n, max: u32::MAX as usize },
        );
    }
    let (zone_table, pool) = zone_store(tzids);
    if pool.len() > 0xFFFF {
        return Err(
            EncodeError::FormatLimit { what: Limit::PoolBytes, n: pool.len(), max: 0xFFFF },
        );
    }
    let arcs_geom = match p.geom {
        GeomEncoding::VarintArcs | GeomEncoding::FixedWidthArcs => true,
        _ => false,
    };
    if arcs_geom && some_poly_too_long(&polys) {
        return Err(EncodeError::Oversized { what: Limit::PolyRings });
    }
    assert(src.arcs.len() == t.arcs@.len());
    if t.arcs.len() as u64 > 0xFFFF_FFFF {
        return Err(EncodeError::Oversized { what: Limit::Arcs });
    }
    let n_verts = match count_arc_verts(&t.arcs) {
        Some(n) => n,
        None => {
            return Err(EncodeError::Oversized { what: Limit::Vertices });
        },
    };
    proof {
        lemma_entries_valid(*grid, Order::CellDominantFirst, Seq::empty());
        assert forall|c: int| 0 <= c < entries@.len() implies (match #[trigger] entries@[c] {
            Entry::List(i) => i < lists@.len(),
            Entry::Zone(z) => z < parent@.len() || z == NO_ZONE,
        }) by {
            assert(lists_view(grid.sets@)[c] == grid.sets@[c]@);
            assert(grid_entries(*grid, Order::CellDominantFirst, Seq::empty())[c] == entries@[c]);
            assert(grid.sets@[c]@.len() == 1 ==> grid.sets@[c]@[0] < polys@.len()
                || grid.sets@[c]@[0] == NO_ZONE);
            assert(grid.dominant@[c] < polys@.len() || grid.dominant@[c] == NO_ZONE);
        }
        lemma_payload_len(*p, src);
    }
    let grid_section = grid_store(grid.ncols, grid.nrows, &entries, &lists, &parent);
    let mut zones = zone_table;
    push_bytes(&mut zones, pool.as_slice());
    assert(zones@ == zone_bytes(src.names));
    assemble(
        p,
        tzids.len(),
        polys.len(),
        release_len,
        zones,
        g,
        grid_section,
        t.arcs.len() as u32,
        n_verts,
        t.clean,
        Ghost(src),
    )
}

/// How many polygons the features before `f` have.
pub open spec fn polys_before(structure: Seq<Vec<Vec<usize>>>, f: int) -> nat
    decreases f,
{
    if f <= 0 {
        0
    } else {
        polys_before(structure, f - 1) + structure[f - 1]@.len()
    }
}

proof fn lemma_polys_before_grows(structure: Seq<Vec<Vec<usize>>>, f: int, g: int)
    requires
        0 <= f <= g,
    ensures
        polys_before(structure, f) <= polys_before(structure, g),
    decreases g,
{
    if f < g {
        lemma_polys_before_grows(structure, f, g - 1);
    }
}

proof fn lemma_flat_places(structure: Seq<Vec<Vec<usize>>>, n: int, f: int, k: int)
    requires
        0 <= f < n <= structure.len(),
        n <= 0x1_0000,
        0 <= k < structure[f]@.len(),
    ensures
        ({
            let sv = structure_view(structure);
            let at = polys_before(structure, f) + k;
            &&& flat_polys(sv, n).len() == polys_before(structure, n)
            &&& parents(sv, n).len() == polys_before(structure, n)
            &&& at < polys_before(structure, n)
            &&& parents(sv, n)[at] == f
            &&& flat_polys(sv, n)[at] == poly_view(structure[f]@[k]@)
        }),
    decreases n,
{
    let sv = structure_view(structure);
    assert(sv[n - 1] == feature_view(structure[n - 1]@));
    assert(sv[n - 1].len() == structure[n - 1]@.len());
    lemma_flat_lens(structure, n - 1);
    lemma_polys_before_grows(structure, f + 1, n);
    if f < n - 1 {
        lemma_polys_before_grows(structure, f + 1, n - 1);
        lemma_flat_places(structure, n - 1, f, k);
    } else {
        assert(sv[n - 1][k] == poly_view(structure[f]@[k]@));
    }
}

/// The polygon table and the parent table have an entry per polygon.
pub proof fn lemma_flat_lens(structure: Seq<Vec<Vec<usize>>>, n: int)
    requires
        0 <= n <= structure.len(),
    ensures
        flat_polys(structure_view(structure), n).len() == polys_before(structure, n),
        parents(structure_view(structure), n).len() == polys_before(structure, n),
    decreases n,
{
    if n > 0 {
        lemma_flat_lens(structure, n - 1);
        assert(structure_view(structure)[n - 1] == feature_view(structure[n - 1]@));
    }
}

/// Every polygon stands under the feature it is listed with. The polygons of a
/// topology are numbered feature by feature; polygon `k` of feature `f` carries
/// that feature's number, whichever of its polygons it is, and the references of
/// its own rings. Features carry their own names, and arcs their vertices.
pub proof fn lemma_polygons_stand_under_their_features(
    t: Snapped,
    tzids: Seq<Option<String>>,
    grid: CellGrid,
    f: int,
    k: int,
)
    requires
        0 <= f < tzids.len() <= t.structure@.len(),
        tzids.len() <= 0x1_0000,
        0 <= k < t.structure@[f]@.len(),
    ensures
        ({
            let src = source_of(t, tzids, grid);
            let at = polys_before(t.structure@, f) + k;
            let rings = t.structure@[f]@[k]@;
            &&& src.parent.len() == polys_before(t.structure@, tzids.len() as int)
            &&& src.polys.len() == src.parent.len()
            &&& at < src.parent.len()
            &&& src.parent[at] == f
            &&& src.polys[at].len() == rings.len()
            &&& forall|r: int|
                0 <= r < rings.len() ==> #[trigger] src.polys[at][r]
                    == t.ring_refs@[rings[r] as int]@ || rings[r] >= t.ring_refs@.len()
            &&& src.names.len() == tzids.len()
            &&& match tzids[f] {
                Some(name) => src.names[f] == encode_utf8(name@),
                None => src.names[f].len() == 0,
            }
            &&& src.arcs.len() == t.arcs@.len()
            &&& forall|a: int|
                0 <= a < t.arcs@.len() ==> #[trigger] src.arcs[a] == t.arcs@[a]@
        }),
{
    let n = tzids.len() as int;
    lemma_flat_places(t.structure@, n, f, k);
    let src = source_of(t, tzids, grid);
    let at = polys_before(t.structure@, f) + k;
    let rings = t.structure@[f]@[k]@;
    assert forall|r: int| 0 <= r < rings.len() implies #[trigger] src.polys[at][r]
        == t.ring_refs@[rings[r] as int]@ || rings[r] >= t.ring_refs@.len() by {
        assert(poly_view(rings)[r] == rings[r] as int);
        if rings[r] < t.ring_refs@.len() {
            assert(refs_view(t.ring_refs@)[rings[r] as int] == t.ring_refs@[rings[r] as int]@);
        }
    }
}

/// Every polygon is one that some feature lists.
pub proof fn lemma_every_polygon_is_listed(structure: Seq<Vec<Vec<usize>>>, n: int, z: int) -> (at: (
    int,
    int,
))
    requires
        0 <= n <= structure.len(),
        0 <= z < polys_before(structure, n),
    ensures
        0 <= at.0 < n,
        0 <= at.1 < structure[at.0]@.len(),
        polys_before(structure, at.0) + at.1 == z,
    decreases n,
{
    if z >= polys_before(structure, n - 1) {
        (n - 1, z - polys_before(structure, n - 1))
    } else {
        lemma_every_polygon_is_listed(structure, n - 1, z)
    }
}

} // verus!
