//! The asset container format and its parsing.
//!
//! A container is three parts: an 8-byte prologue, the 64-byte plaintext
//! payload header, and a section blob, the only part that is ever compressed.
//! The parser stores offsets into the section blob, so the same code serves
//! borrowed and owned buffers.
//!
//! The blob holds, at the offsets the header states: the zone string-offset
//! table (`u16` fenceposts at offset 0) and the tzid pool behind it; the
//! geometry sections; the grid tables (primary cells, candidate-list
//! fenceposts, candidate lists); and the TZBB release string.
//!
//! [`parse`] bounds-checks every section end that the header determines
//! against the declared blob size before any decompression; [`check_tables`]
//! then validates every cross-reference among the tables, so a corrupt asset
//! is refused with a typed error.

use vstd::prelude::*;

use crate::bytes::{fixed_at, pow128, u16_at, u32_at, unzigzag_spec, varint_at};
use crate::bytes::lemma_varint_bounds;
use crate::caps::{geom_built_in, geom_compiled_in};
use crate::common::{
    CellTag, Codec, Dataset, GeomEncoding, QuantBits, SimplifyAlgorithm, MAGIC, PROLOGUE_LEN,
    VERSION,
};
use crate::error::Error;
use crate::header::{header_of, HeaderFault, PayloadHeader};

verus! {

/// Little-endian u16 at `position`.
#[must_use]
pub fn read_u16(bytes: &[u8], position: usize) -> (v: u16)
    requires
        position + 2 <= bytes@.len(),
    ensures
        v == u16_at(bytes@, position as int),
{
    let len: usize = bytes.len();
    assert(position + 2 <= len);
    bytes[position] as u16 + 256 * (bytes[position + 1] as u16)
}

/// Little-endian u32 at `position`.
#[must_use]
pub fn read_u32(bytes: &[u8], position: usize) -> (v: u32)
    requires
        position + 4 <= bytes@.len(),
    ensures
        v == u32_at(bytes@, position as int),
{
    let len: usize = bytes.len();
    assert(position + 4 <= len);
    bytes[position] as u32 + 256 * (bytes[position + 1] as u32) + 65536 * (bytes[position
        + 2] as u32) + 16777216 * (bytes[position + 3] as u32)
}

/// Fixed-width signed coord: 2/3/4 bytes little-endian, sign-extended.
#[must_use]
pub fn read_fixed(bytes: &[u8], position: usize, quant_bits: QuantBits) -> (v: i32)
    requires
        position + quant_bits.size() <= bytes@.len(),
    ensures
        v == fixed_at(bytes@, position as int, quant_bits.size()),
{
    let len: usize = bytes.len();
    assert(position + quant_bits.size() <= len);
    match quant_bits {
        QuantBits::Bits16 => {
            let value: i32 = read_u16(bytes, position) as i32;
            if value >= 0x8000 {
                value - 0x1_0000
            } else {
                value
            }
        },
        QuantBits::Bits24 => {
            let value: i32 = bytes[position] as i32 + 256 * (bytes[position + 1] as i32) + 65536 * (
            bytes[position + 2] as i32);
            if value >= 0x80_0000 {
                value - 0x100_0000
            } else {
                value
            }
        },
        QuantBits::Bits32 => {
            let value: i64 = read_u32(bytes, position) as i64;
            if value >= 0x8000_0000 {
                (value - 0x1_0000_0000) as i32
            } else {
                value as i32
            }
        },
    }
}

/// Varint; returns (value, next position). The value is taken modulo 2^64:
/// the tenth byte's surplus bits fall away.
#[must_use]
pub fn read_varint(bytes: &[u8], position: usize) -> (r: (u64, usize))
    requires
        varint_at(bytes@, position as int) matches Some((_, next)) && next - position <= 10,
    ensures
        varint_at(bytes@, position as int) matches Some((value, next)) && r.0 == value
            % 0x1_0000_0000_0000_0000 && r.1 == next,
{
    let ghost start = position as int;
    let ghost (value, next) = varint_at(bytes@, start)->0;
    let ghost two64: int = 0x1_0000_0000_0000_0000;
    let len: usize = bytes.len();
    let mut acc: u64 = 0;
    let mut scale: u64 = 1;  // 128^k modulo 2^64
    let mut at: usize = position;
    proof {
        lemma_varint_bounds(bytes@, start);
    }
    loop
        invariant_except_break
            start <= at < len,
            len == bytes@.len(),
            next - start <= 10,
            two64 == 0x1_0000_0000_0000_0000,
            scale == pow128((at - start) as nat) % two64 as nat,
            varint_at(bytes@, at as int) matches Some((rest, end)) && end == next && (acc
                + pow128((at - start) as nat) * rest) % two64 == value % two64 as nat,
        ensures
            at == next,
            acc == value % two64 as nat,
        decreases len - at,
    {
        let byte: u8 = bytes[at];
        let low: u8 = if byte >= 128 { byte - 128 } else { byte };
        let term: u64 = scale.wrapping_mul(low as u64);
        let ghost old_acc = acc as int;
        let ghost p = pow128((at - start) as nat) as int;
        let ghost (rest, _end) = varint_at(bytes@, at as int)->0;
        acc = acc.wrapping_add(term);
        proof {
            lemma_varint_bounds(bytes@, at as int);
            lemma_accumulate(old_acc, p, low as int, scale as int, term as int, acc as int, two64);
        }
        at = at + 1;
        if byte < 128 {
            assert(rest == byte as nat);
            assert(acc == (old_acc + p * low) % two64);
            break;
        }
        let ghost next_rest = (varint_at(bytes@, at as int)->0).0;
        scale = scale.wrapping_mul(128);
        proof {
            lemma_varint_bounds(bytes@, at as int);
            assert(pow128((at - start) as nat) == 128 * pow128((at - start - 1) as nat));
            vstd::arithmetic::div_mod::lemma_mul_mod_noop(p, 128, two64);
            vstd::arithmetic::div_mod::lemma_mul_mod_noop(p % two64, 128, two64);
            vstd::arithmetic::div_mod::lemma_mod_twice(p, two64);
            assert(rest == low + 128 * next_rest);
            assert(old_acc + p * rest == (old_acc + p * low) + (128 * p) * next_rest)
                by (nonlinear_arith)
                requires
                    rest == low + 128 * next_rest,
            ;
            vstd::arithmetic::div_mod::lemma_add_mod_noop(
                old_acc + p * low,
                (128 * p) * next_rest,
                two64,
            );
            vstd::arithmetic::div_mod::lemma_add_mod_noop(
                acc as int,
                (128 * p) * next_rest,
                two64,
            );
            vstd::arithmetic::div_mod::lemma_mod_twice(old_acc + p * low, two64);
        }
    }
    (acc, at)
}

/// One step of accumulating a varint modulo 2^64.
proof fn lemma_accumulate(
    old_acc: int,
    p: int,
    low: int,
    scale: int,
    term: int,
    acc: int,
    m: int,
)
    requires
        m == 0x1_0000_0000_0000_0000,
        scale == p % m,
        term == (scale * low) % m,
        acc == (old_acc + term) % m,
    ensures
        acc == (old_acc + p * low) % m,
{
    vstd::arithmetic::div_mod::lemma_mul_mod_noop(p, low, m);
    vstd::arithmetic::div_mod::lemma_mul_mod_noop(p % m, low, m);
    vstd::arithmetic::div_mod::lemma_mod_twice(p, m);
    vstd::arithmetic::div_mod::lemma_add_mod_noop(old_acc, p * low, m);
    vstd::arithmetic::div_mod::lemma_add_mod_noop(old_acc, term, m);
    vstd::arithmetic::div_mod::lemma_mod_twice(p * low, m);
}

/// Undo zigzag encoding: map `0, 1, 2, 3, ...` back to `0, -1, 1, -2, ...`.
#[must_use]
pub fn unzigzag(value: u64) -> (v: i64)
    ensures
        v == unzigzag_spec(value as nat),
{
    let half: i64 = (value / 2) as i64;
    if value % 2 == 0 {
        half
    } else {
        -half - 1
    }
}

/// What the prologue says: the payload header's offset, or why the bytes are
/// no readable container.
pub open spec fn outer_spec(b: Seq<u8>) -> Result<usize, Error> {
    if b.len() < PROLOGUE_LEN {
        Err(Error::Truncated)
    } else if b.subrange(0, 4) != MAGIC@ {
        Err(Error::BadMagic)
    } else if b[4] != VERSION {
        Err(Error::UnsupportedVersion(b[4]))
    } else {
        Ok(PROLOGUE_LEN)
    }
}

/// Validate the prologue (format identity only: magic + version) and return
/// the payload header's offset.
pub fn outer(bytes: &[u8]) -> (start: Result<usize, Error>)
    ensures
        start == outer_spec(bytes@),
{
    if bytes.len() < PROLOGUE_LEN {
        return Err(Error::Truncated);
    }
    if !crate::bytes::bytes_eq_at(bytes, 0, &MAGIC) {
        return Err(Error::BadMagic);
    }
    if bytes[4] != VERSION {
        return Err(Error::UnsupportedVersion(bytes[4]));
    }
    Ok(PROLOGUE_LEN)
}

/// Parsed header: every section position needed for O(1) access.
#[derive(Debug, Clone, Copy, PartialEq, Eq, Structural)]
pub struct PayloadLayout {
    /// The section blob's compression codec.
    pub codec: Codec,
    /// The blob's decompressed size (every stored offset stays within it).
    pub sections_len: usize,
    pub dataset: Dataset,
    pub quant_bits: QuantBits,
    pub geom: GeomEncoding,
    /// Reserved, zero.
    pub flags: u16,
    /// Provenance, not decode logic.
    pub simplify_algorithm: SimplifyAlgorithm,
    /// Cell size in degrees, as the bit pattern of an IEEE-754 single.
    pub grid_deg: u32,
    /// Simplification tolerance, as the bit pattern of an IEEE-754 single.
    pub epsilon_m: u32,
    /// Population-density weight floor in fixed-point 1e-4 (0 = unweighted).
    pub density_weight_floor_e4: u16,
    pub n_features: u16,
    /// The tzid pool; the zone string-offset table starts the section blob at
    /// offset 0, this pool follows it.
    pub pool: usize,
    /// Arcs in the arc store.
    pub n_arcs: u32,
    /// Arc offset table, `u32[n_arcs+1]`.
    pub arc_offsets: usize,
    /// The arc coordinate data the offset table indexes.
    pub arc_data: usize,
    /// Poly id to feature id, `u16[eager_polys]`.
    pub parent: usize,
    /// Per-poly ring-record offsets, `u32[eager_polys+1]`.
    pub poly_offsets: usize,
    /// The ring records the poly offsets index.
    pub ring_data: usize,
    /// `FullRings` coordinates, `eager_coords` quant-width pairs.
    pub full_coords: usize,
    /// `FullRings` ring ends, `u32[eager_rings]`.
    pub full_ring_ends: usize,
    /// `FullRings` per-poly records, bbox `i32 x 4` + ring-end `u32`.
    pub full_polys: usize,
    /// Eager-cache coordinate reservation (may only over-estimate).
    pub eager_coords: u32,
    /// Eager-cache ring reservation.
    pub eager_rings: u32,
    /// Eager-cache poly reservation.
    pub eager_polys: u32,
    /// Grid columns.
    pub ncols: u16,
    /// Grid rows.
    pub nrows: u16,
    /// Primary grid table, `u16[ncols*nrows]`.
    pub primary: usize,
    /// Distinct border-cell candidate lists.
    pub uniq: u16,
    /// Candidate-list offsets, `u16[uniq+1]`.
    pub list_offsets: usize,
    /// The interned candidate lists the offsets index.
    pub list_ids: usize,
    /// TZBB release string offset.
    pub release_off: usize,
    /// TZBB release string length.
    pub release_len: usize,
}

/// Geometry-dependent section offsets for [`PayloadLayout`]; the fields a
/// given encoding doesn't use stay at `usize::MAX` (arcs: zero).
#[derive(Clone, Copy, PartialEq, Eq, Structural)]
pub struct GeometrySections {
    pub n_arcs: u32,
    pub arc_offsets: usize,
    pub arc_data: usize,
    pub poly_offsets: usize,
    pub ring_data: usize,
    pub full_coords: usize,
    pub full_ring_ends: usize,
    pub full_polys: usize,
}

impl GeometrySections {
    /// No sections present: zero arcs, every offset `usize::MAX`.
    pub open spec fn absent() -> GeometrySections {
        GeometrySections {
            n_arcs: 0,
            arc_offsets: usize::MAX,
            arc_data: usize::MAX,
            poly_offsets: usize::MAX,
            ring_data: usize::MAX,
            full_coords: usize::MAX,
            full_ring_ends: usize::MAX,
            full_polys: usize::MAX,
        }
    }

    /// No sections present.
    fn none() -> (sections: GeometrySections)
        ensures
            sections == GeometrySections::absent(),
    {
        GeometrySections {
            n_arcs: 0,
            arc_offsets: usize::MAX,
            arc_data: usize::MAX,
            poly_offsets: usize::MAX,
            ring_data: usize::MAX,
            full_coords: usize::MAX,
            full_ring_ends: usize::MAX,
            full_polys: usize::MAX,
        }
    }
}

/// The end of the `FullRings` sections a header declares.
pub open spec fn full_rings_end(h: PayloadHeader) -> int {
    h.arcs_off + h.eager_coords * (2 * h.quant_bits.size()) + h.eager_rings * 4 + h.eager_polys * 20
}

/// Whether every geometry section ends within the declared blob.
pub open spec fn geometry_fits(h: PayloadHeader) -> bool {
    match h.geom {
        GeomEncoding::Coarse => h.rings_off + 2 * h.eager_polys <= h.raw_len,
        GeomEncoding::FullRings => {
            &&& full_rings_end(h) <= h.raw_len
            &&& h.rings_off + 2 * h.eager_polys <= h.raw_len
        },
        GeomEncoding::VarintArcs | GeomEncoding::FixedWidthArcs => {
            &&& h.arcs_off + 4 * (h.n_arcs + 1) <= h.raw_len
            &&& h.rings_off + 2 * h.eager_polys + 4 * (h.eager_polys + 1) <= h.raw_len
        },
    }
}

/// The offset of the candidate-list fenceposts.
pub open spec fn lists_at(h: PayloadHeader) -> int {
    h.grid_off + 2 * (h.ncols * h.nrows)
}

/// Whether every section whose end the header determines ends within the
/// declared blob.
pub open spec fn sections_fit(h: PayloadHeader) -> bool {
    &&& 2 * (h.n_features + 1) <= h.raw_len
    &&& geometry_fits(h)
    &&& lists_at(h) + 2 * (h.uniq + 1) <= h.raw_len
    &&& h.release_off + h.release_len <= h.raw_len
}

/// Whether an IEEE-754 single, given by its bit pattern, is greater than zero
/// (NaN is not).
pub open spec fn positive_single(bits: u32) -> bool {
    0 < bits <= 0x7F80_0000
}

/// Whether the header's plain fields hold valid values.
pub open spec fn fields_valid(h: PayloadHeader) -> bool {
    &&& h.flags == 0
    &&& h.reserved == 0
    &&& h.density_weight_floor_e4 <= 10_000
    &&& positive_single(h.grid_deg)
    &&& h.ncols != 0
    &&& h.nrows != 0
}

/// The geometry sections a header places.
pub open spec fn sections_of(h: PayloadHeader) -> GeometrySections {
    match h.geom {
        GeomEncoding::Coarse => GeometrySections::absent(),
        GeomEncoding::FullRings => GeometrySections {
            full_coords: h.arcs_off as usize,
            full_ring_ends: (h.arcs_off + h.eager_coords * (2 * h.quant_bits.size())) as usize,
            full_polys: (h.arcs_off + h.eager_coords * (2 * h.quant_bits.size()) + h.eager_rings
                * 4) as usize,
            ..GeometrySections::absent()
        },
        GeomEncoding::VarintArcs | GeomEncoding::FixedWidthArcs => GeometrySections {
            n_arcs: h.n_arcs,
            arc_offsets: h.arcs_off as usize,
            arc_data: (h.arcs_off + 4 * (h.n_arcs + 1)) as usize,
            poly_offsets: (h.rings_off + 2 * h.eager_polys) as usize,
            ring_data: (h.rings_off + 2 * h.eager_polys + 4 * (h.eager_polys + 1)) as usize,
            ..GeometrySections::absent()
        },
    }
}

/// The layout a header describes.
pub open spec fn layout_of(h: PayloadHeader) -> PayloadLayout {
    let sections = sections_of(h);
    PayloadLayout {
        codec: h.codec,
        sections_len: h.raw_len as usize,
        dataset: h.dataset,
        quant_bits: h.quant_bits,
        geom: h.geom,
        flags: h.flags,
        simplify_algorithm: h.simplify_algorithm,
        grid_deg: h.grid_deg,
        epsilon_m: h.epsilon_m,
        density_weight_floor_e4: h.density_weight_floor_e4,
        n_features: h.n_features,
        pool: (2 * (h.n_features + 1)) as usize,
        n_arcs: sections.n_arcs,
        arc_offsets: sections.arc_offsets,
        arc_data: sections.arc_data,
        parent: h.rings_off as usize,
        poly_offsets: sections.poly_offsets,
        ring_data: sections.ring_data,
        full_coords: sections.full_coords,
        full_ring_ends: sections.full_ring_ends,
        full_polys: sections.full_polys,
        eager_coords: h.eager_coords,
        eager_rings: h.eager_rings,
        eager_polys: h.eager_polys,
        ncols: h.ncols,
        nrows: h.nrows,
        primary: h.grid_off as usize,
        uniq: h.uniq,
        list_offsets: lists_at(h) as usize,
        list_ids: (lists_at(h) + 2 * (h.uniq + 1)) as usize,
        release_off: h.release_off as usize,
        release_len: h.release_len as usize,
    }
}

/// What a payload header parses to.
pub open spec fn parse_header(h: PayloadHeader) -> Result<PayloadLayout, Error> {
    if !fields_valid(h) {
        Err(Error::InvalidHeaderField)
    } else if !geom_built_in(h.geom) {
        Err(Error::GeometryNotCompiledIn(h.geom))
    } else if h.geom == GeomEncoding::FullRings && h.arcs_off % 4 != 0 {
        Err(Error::FullRingsSectionMisaligned)
    } else if !sections_fit(h) {
        Err(Error::SectionOverrun)
    } else {
        Ok(layout_of(h))
    }
}

/// What the bytes after the prologue parse to.
pub open spec fn parse_spec(b: Seq<u8>) -> Result<PayloadLayout, Error> {
    match header_of(b) {
        Err(HeaderFault::BadByte) => Err(Error::InvalidHeaderField),
        Err(HeaderFault::Short) => Err(Error::Truncated),
        Ok(h) => parse_header(h),
    }
}

/// Reject a section end past the blob end.
pub fn need(sections_len: usize, end: u64) -> (checked: Result<(), Error>)
    ensures
        checked == if sections_len < end {
            Err::<(), Error>(Error::SectionOverrun)
        } else {
            Ok::<(), Error>(())
        },
{
    if (sections_len as u64) < end {
        Err(Error::SectionOverrun)
    } else {
        Ok(())
    }
}

/// Coarse containers have no geometry sections at all: just the parent table
/// and the grid.
pub fn coarse_sections(h: &PayloadHeader) -> (sections: Result<GeometrySections, Error>)
    requires
        h.geom == GeomEncoding::Coarse,
    ensures
        sections == if geometry_fits(*h) {
            Ok::<GeometrySections, Error>(sections_of(*h))
        } else {
            Err::<GeometrySections, Error>(Error::SectionOverrun)
        },
{
    need(h.raw_len as usize, h.rings_off as u64 + h.eager_polys as u64 * 2)?;
    Ok(GeometrySections::none())
}

/// `FullRings`: the preload-cache layout in place of arc store and ring
/// records. Coordinates must be 4-aligned within the payload.
pub fn full_rings_sections(h: &PayloadHeader) -> (sections: Result<GeometrySections, Error>)
    requires
        h.geom == GeomEncoding::FullRings,
    ensures
        sections == if h.arcs_off % 4 != 0 {
            Err::<GeometrySections, Error>(Error::FullRingsSectionMisaligned)
        } else if geometry_fits(*h) {
            Ok::<GeometrySections, Error>(sections_of(*h))
        } else {
            Err::<GeometrySections, Error>(Error::SectionOverrun)
        },
{
    if h.arcs_off % 4 != 0 {
        return Err(Error::FullRingsSectionMisaligned);
    }
    // coords at quant width: 4 / 6 / 8 bytes per vertex
    let vertex_bytes: u64 = 2 * h.quant_bits.bytes() as u64;
    assert(0 <= h.eager_coords * vertex_bytes <= 0xFFFF_FFFF * 8) by (nonlinear_arith)
        requires
            0 <= h.eager_coords <= 0xFFFF_FFFF,
            0 <= vertex_bytes <= 8,
    ;
    let full_ring_ends: u64 = h.arcs_off as u64 + h.eager_coords as u64 * vertex_bytes;
    let full_polys: u64 = full_ring_ends + h.eager_rings as u64 * 4;
    need(h.raw_len as usize, full_polys + h.eager_polys as u64 * 20)?;
    need(h.raw_len as usize, h.rings_off as u64 + h.eager_polys as u64 * 2)?;
    let mut sections = GeometrySections::none();
    sections.full_coords = h.arcs_off as usize;
    sections.full_ring_ends = full_ring_ends as usize;
    sections.full_polys = full_polys as usize;
    Ok(sections)
}

/// Arc-store encodings: arc offsets and data, per-poly ring records.
pub fn arc_sections(h: &PayloadHeader) -> (sections: Result<GeometrySections, Error>)
    requires
        h.geom == GeomEncoding::VarintArcs || h.geom == GeomEncoding::FixedWidthArcs,
    ensures
        sections == if geometry_fits(*h) {
            Ok::<GeometrySections, Error>(sections_of(*h))
        } else {
            Err::<GeometrySections, Error>(Error::SectionOverrun)
        },
{
    let arc_data: u64 = h.arcs_off as u64 + (h.n_arcs as u64 + 1) * 4;
    need(h.raw_len as usize, arc_data)?;
    let poly_offsets: u64 = h.rings_off as u64 + h.eager_polys as u64 * 2;
    let ring_data: u64 = poly_offsets + (h.eager_polys as u64 + 1) * 4;
    need(h.raw_len as usize, ring_data)?;
    let mut sections = GeometrySections::none();
    sections.n_arcs = h.n_arcs;
    sections.arc_offsets = h.arcs_off as usize;
    sections.arc_data = arc_data as usize;
    sections.poly_offsets = poly_offsets as usize;
    sections.ring_data = ring_data as usize;
    Ok(sections)
}

/// Parse the plaintext payload header. Every section bound the header
/// determines is validated against its own declared blob size, so a container
/// is checked before any decompression happens.
pub fn parse(header_bytes: &[u8]) -> (layout: Result<PayloadLayout, Error>)
    ensures
        layout == parse_spec(header_bytes@),
{
    let h = match PayloadHeader::read(header_bytes) {
        Ok(h) => h,
        Err(HeaderFault::BadByte) => return Err(Error::InvalidHeaderField),
        Err(HeaderFault::Short) => return Err(Error::Truncated),
    };
    if h.flags != 0 || h.reserved != 0 || h.density_weight_floor_e4 > 10_000 || h.grid_deg == 0
        || h.grid_deg > 0x7F80_0000 || h.ncols == 0 || h.nrows == 0 {
        return Err(Error::InvalidHeaderField);
    }
    if !geom_compiled_in(h.geom) {
        return Err(Error::GeometryNotCompiledIn(h.geom));
    }
    let sections_len: usize = h.raw_len as usize;
    let sections = match h.geom {
        GeomEncoding::Coarse => coarse_sections(&h)?,
        GeomEncoding::FullRings => full_rings_sections(&h)?,
        GeomEncoding::VarintArcs | GeomEncoding::FixedWidthArcs => arc_sections(&h)?,
    };
    // the tzid pool sits right behind the zone string-offset table at blob
    // offset 0: n_features+1 fenceposts of 2 bytes each
    let pool: u64 = (h.n_features as u64 + 1) * 2;
    need(sections_len, pool)?;
    assert(0 <= h.ncols * h.nrows <= 0xFFFF * 0xFFFF) by (nonlinear_arith)
        requires
            0 <= h.ncols <= 0xFFFF,
            0 <= h.nrows <= 0xFFFF,
    ;
    let list_offsets: u64 = h.grid_off as u64 + h.ncols as u64 * h.nrows as u64 * 2;
    let list_ids: u64 = list_offsets + (h.uniq as u64 + 1) * 2;
    need(sections_len, list_ids)?;
    need(sections_len, h.release_off as u64 + h.release_len as u64)?;
    Ok(
        PayloadLayout {
            codec: h.codec,
            sections_len,
            dataset: h.dataset,
            quant_bits: h.quant_bits,
            geom: h.geom,
            flags: h.flags,
            simplify_algorithm: h.simplify_algorithm,
            grid_deg: h.grid_deg,
            epsilon_m: h.epsilon_m,
            density_weight_floor_e4: h.density_weight_floor_e4,
            n_features: h.n_features,
            pool: pool as usize,
            n_arcs: sections.n_arcs,
            arc_offsets: sections.arc_offsets,
            arc_data: sections.arc_data,
            parent: h.rings_off as usize,
            poly_offsets: sections.poly_offsets,
            ring_data: sections.ring_data,
            full_coords: sections.full_coords,
            full_ring_ends: sections.full_ring_ends,
            full_polys: sections.full_polys,
            eager_coords: h.eager_coords,
            eager_rings: h.eager_rings,
            eager_polys: h.eager_polys,
            ncols: h.ncols,
            nrows: h.nrows,
            primary: h.grid_off as usize,
            uniq: h.uniq,
            list_offsets: list_offsets as usize,
            list_ids: list_ids as usize,
            release_off: h.release_off as usize,
            release_len: h.release_len as usize,
        },
    )
}

/// TZBB release string recorded in the header.
#[must_use]
pub fn release<'p>(layout: &PayloadLayout, payload: &'p [u8]) -> (bytes: &'p [u8])
    requires
        layout.release_off + layout.release_len <= payload@.len(),
    ensures
        bytes@ == payload@.subrange(
            layout.release_off as int,
            layout.release_off + layout.release_len,
        ),
{
    let len: usize = payload.len();
    assert(layout.release_off + layout.release_len <= len);
    vstd::slice::slice_subrange(
        payload,
        layout.release_off,
        layout.release_off + layout.release_len,
    )
}

/// Zone-string fencepost `i`.
pub open spec fn string_offset(payload: Seq<u8>, i: int) -> int {
    u16_at(payload, 2 * i)
}

/// The feature id that owns poly `i`.
pub open spec fn parent_at(payload: Seq<u8>, layout: PayloadLayout, i: int) -> int {
    u16_at(payload, layout.parent + 2 * i)
}

/// Candidate-list fencepost `i`, counted in entries.
pub open spec fn list_offset(payload: Seq<u8>, layout: PayloadLayout, i: int) -> int {
    u16_at(payload, layout.list_offsets + 2 * i)
}

/// Entry `i` of the candidate lists, a poly id.
pub open spec fn list_id(payload: Seq<u8>, layout: PayloadLayout, i: int) -> int {
    u16_at(payload, layout.list_ids + 2 * i)
}

/// Primary cell `i`, row-major.
pub open spec fn cell_at(payload: Seq<u8>, layout: PayloadLayout, i: int) -> int {
    u16_at(payload, layout.primary + 2 * i)
}

/// The number of candidate-list entries that fit in front of the release
/// string.
pub open spec fn list_room(layout: PayloadLayout) -> int {
    if layout.release_off < layout.list_ids {
        0
    } else {
        (layout.release_off - layout.list_ids) / 2
    }
}

impl PayloadLayout {
    /// Whether the tables of this layout lie within a payload of `len` bytes:
    /// the zone strings, the parent table, the grid and its candidate-list
    /// fenceposts, and the release string.
    pub open spec fn tables_within(self, len: int) -> bool {
        &&& self.pool == 2 * (self.n_features + 1)
        &&& self.pool <= len
        &&& self.parent + 2 * self.eager_polys <= len
        &&& self.list_offsets == self.primary + 2 * (self.ncols * self.nrows)
        &&& self.list_ids == self.list_offsets + 2 * (self.uniq + 1)
        &&& self.list_ids <= len
        &&& self.release_off + self.release_len <= len
        &&& self.ncols > 0
        &&& self.nrows > 0
    }
}

/// A parsed layout places its tables within its declared blob.
pub proof fn lemma_parsed_tables_within(b: Seq<u8>)
    ensures
        parse_spec(b) matches Ok(layout) ==> layout.tables_within(layout.sections_len as int),
{
}

/// Whether the zone-string fenceposts are monotone and stay within the blob
/// once rebased onto the pool.
pub open spec fn strings_ok(payload: Seq<u8>, layout: PayloadLayout, n: int) -> bool {
    &&& forall|i: int, j: int|
        0 <= i <= j < n ==> #[trigger] string_offset(payload, i) <= #[trigger] string_offset(
            payload,
            j,
        )
    &&& forall|i: int|
        0 <= i < n ==> layout.pool + #[trigger] string_offset(payload, i) <= layout.sections_len
}

/// Whether the first `n` parent entries name features.
pub open spec fn parents_ok(payload: Seq<u8>, layout: PayloadLayout, n: int) -> bool {
    forall|i: int|
        0 <= i < n ==> #[trigger] parent_at(payload, layout, i) < layout.n_features
}

/// Whether the first `n` list fenceposts are monotone and in range.
pub open spec fn list_offsets_ok(payload: Seq<u8>, layout: PayloadLayout, n: int) -> bool {
    &&& forall|i: int, j: int|
        0 <= i <= j < n ==> #[trigger] list_offset(payload, layout, i) <= #[trigger] list_offset(
            payload,
            layout,
            j,
        )
    &&& forall|i: int|
        0 <= i < n ==> #[trigger] list_offset(payload, layout, i) <= list_room(layout)
}

/// Whether the first `n` candidate-list entries name polys.
pub open spec fn list_ids_ok(payload: Seq<u8>, layout: PayloadLayout, n: int) -> bool {
    forall|i: int| 0 <= i < n ==> #[trigger] list_id(payload, layout, i) < layout.eager_polys
}

/// Whether a cell value names a feature or a candidate list that exists.
pub open spec fn cell_ok(layout: PayloadLayout, cell: u16) -> bool {
    match CellTag::of(cell) {
        CellTag::Empty => true,
        CellTag::Zone(feature) => feature < layout.n_features,
        CellTag::Border(list) => list < layout.uniq,
    }
}

/// Whether the first `n` grid cells hold in-range values.
pub open spec fn cells_ok(payload: Seq<u8>, layout: PayloadLayout, n: int) -> bool {
    forall|i: int|
        0 <= i < n ==> cell_ok(layout, #[trigger] cell_at(payload, layout, i) as u16)
}

/// Whether every cross-reference among the tables is in range.
pub open spec fn tables_ok(payload: Seq<u8>, layout: PayloadLayout) -> bool {
    &&& strings_ok(payload, layout, layout.n_features + 1)
    &&& parents_ok(payload, layout, layout.eager_polys as int)
    &&& list_offsets_ok(payload, layout, layout.uniq + 1)
    &&& list_ids_ok(payload, layout, list_offset(payload, layout, layout.uniq as int))
    &&& cells_ok(payload, layout, layout.ncols * layout.nrows)
}

/// Validate every cross-reference inside the (decompressed) section tables:
/// zone-string offsets, the parent table, grid cell values, and the candidate
/// lists. One linear pass at load time.
pub fn check_tables(payload: &[u8], layout: &PayloadLayout) -> (checked: Result<(), Error>)
    requires
        layout.tables_within(payload@.len() as int),
    ensures
        checked == if tables_ok(payload@, *layout) {
            Ok::<(), Error>(())
        } else {
            Err::<(), Error>(Error::TableOutOfRange)
        },
{
    let len: usize = payload.len();
    let feature_count: usize = layout.n_features as usize;
    let mut previous_offset: u16 = 0;
    let mut i: usize = 0;
    while i <= feature_count
        invariant
            len == payload@.len(),
            feature_count == layout.n_features,
            layout.tables_within(len as int),
            i <= feature_count + 1,
            i == 0 ==> previous_offset == 0,
            i > 0 ==> previous_offset == string_offset(payload@, i - 1),
            strings_ok(payload@, *layout, i as int),
        decreases feature_count + 1 - i,
    {
        let offset: u16 = read_u16(payload, i * 2);
        assert(offset == string_offset(payload@, i as int));
        if offset < previous_offset || (layout.pool as u64 + offset as u64)
            > layout.sections_len as u64 {
            assert(!strings_ok(payload@, *layout, layout.n_features + 1)) by {
                if strings_ok(payload@, *layout, layout.n_features + 1) && i > 0 {
                    assert(string_offset(payload@, i - 1) <= string_offset(payload@, i as int));
                }
            }
            return Err(Error::TableOutOfRange);
        }
        previous_offset = offset;
        i = i + 1;
    }
    // parent table: poly id to feature id
    let poly_count: usize = layout.eager_polys as usize;
    let mut i: usize = 0;
    while i < poly_count
        invariant
            len == payload@.len(),
            feature_count == layout.n_features,
            poly_count == layout.eager_polys,
            layout.tables_within(len as int),
            i <= poly_count,
            parents_ok(payload@, *layout, i as int),
        decreases poly_count - i,
    {
        let parent: u16 = read_u16(payload, layout.parent + i * 2);
        assert(parent == parent_at(payload@, *layout, i as int));
        if parent as usize >= feature_count {
            return Err(Error::TableOutOfRange);
        }
        i = i + 1;
    }
    // candidate lists: fenceposts monotone and in range, entries are poly ids
    let uniq: usize = layout.uniq as usize;
    let list_len: usize = if layout.release_off < layout.list_ids {
        0
    } else {
        (layout.release_off - layout.list_ids) / 2
    };
    let mut previous_offset: u16 = 0;
    let mut i: usize = 0;
    while i <= uniq
        invariant
            len == payload@.len(),
            uniq == layout.uniq,
            list_len == list_room(*layout),
            layout.tables_within(len as int),
            i <= uniq + 1,
            i == 0 ==> previous_offset == 0,
            i > 0 ==> previous_offset == list_offset(payload@, *layout, i - 1),
            list_offsets_ok(payload@, *layout, i as int),
        decreases uniq + 1 - i,
    {
        let offset: u16 = read_u16(payload, layout.list_offsets + i * 2);
        assert(offset == list_offset(payload@, *layout, i as int));
        if offset < previous_offset || offset as usize > list_len {
            assert(!list_offsets_ok(payload@, *layout, layout.uniq + 1)) by {
                if list_offsets_ok(payload@, *layout, layout.uniq + 1) && i > 0 {
                    assert(list_offset(payload@, *layout, i - 1) <= list_offset(
                        payload@,
                        *layout,
                        i as int,
                    ));
                }
            }
            return Err(Error::TableOutOfRange);
        }
        previous_offset = offset;
        i = i + 1;
    }
    let end: usize = previous_offset as usize;
    assert(list_offset(payload@, *layout, layout.uniq as int) <= list_room(*layout));
    let mut i: usize = 0;
    while i < end
        invariant
            len == payload@.len(),
            poly_count == layout.eager_polys,
            end == list_offset(payload@, *layout, layout.uniq as int),
            end <= list_room(*layout),
            layout.tables_within(len as int),
            i <= end,
            list_ids_ok(payload@, *layout, i as int),
        decreases end - i,
    {
        let id: u16 = read_u16(payload, layout.list_ids + i * 2);
        assert(id == list_id(payload@, *layout, i as int));
        if id as usize >= poly_count {
            return Err(Error::TableOutOfRange);
        }
        i = i + 1;
    }
    // grid: interior cells name a feature, border cells a candidate list
    let (ncols, nrows): (u64, u64) = (layout.ncols as u64, layout.nrows as u64);
    assert(0 <= ncols * nrows <= 0xFFFF * 0xFFFF) by (nonlinear_arith)
        requires
            0 <= ncols <= 0xFFFF,
            0 <= nrows <= 0xFFFF,
    ;
    let cells: usize = (ncols * nrows) as usize;
    let mut i: usize = 0;
    while i < cells
        invariant
            len == payload@.len(),
            feature_count == layout.n_features,
            uniq == layout.uniq,
            cells == layout.ncols * layout.nrows,
            layout.tables_within(len as int),
            i <= cells,
            cells_ok(payload@, *layout, i as int),
        decreases cells - i,
    {
        let cell: u16 = read_u16(payload, layout.primary + i * 2);
        assert(cell == cell_at(payload@, *layout, i as int));
        match CellTag::from_cell(cell) {
            CellTag::Empty => {},
            CellTag::Zone(feature) => {
                if feature as usize >= feature_count {
                    return Err(Error::TableOutOfRange);
                }
            },
            CellTag::Border(list) => {
                if list as usize >= uniq {
                    return Err(Error::TableOutOfRange);
                }
            },
        }
        i = i + 1;
    }
    Ok(())
}

/// A header is accepted exactly where its plain fields are in range, its
/// geometry can be read and stands on four bytes where it has to, and every
/// section it places ends within the size it declares.
pub proof fn lemma_accepted_headers(h: PayloadHeader)
    ensures
        parse_header(h) is Ok <==> {
            &&& h.flags == 0 && h.reserved == 0 && h.density_weight_floor_e4 <= 10_000
            &&& h.grid_deg >= 1 && h.grid_deg <= 0x7F80_0000
            &&& h.ncols >= 1 && h.nrows >= 1
            &&& geom_built_in(h.geom)
            &&& 2 + 2 * h.n_features <= h.raw_len
            &&& h.release_off + h.release_len <= h.raw_len
            &&& h.grid_off + 2 * (h.ncols * h.nrows) + 2 + 2 * h.uniq <= h.raw_len
            &&& h.rings_off + 2 * h.eager_polys <= h.raw_len
            &&& h.geom == GeomEncoding::FullRings ==> h.arcs_off % 4 == 0 && h.arcs_off
                + h.eager_coords * (2 * h.quant_bits.size()) + 4 * h.eager_rings + 20 * h.eager_polys
                <= h.raw_len
            &&& h.geom == GeomEncoding::VarintArcs || h.geom == GeomEncoding::FixedWidthArcs ==> {
                &&& h.arcs_off + 4 * h.n_arcs + 4 <= h.raw_len
                &&& h.rings_off + 6 * h.eager_polys + 4 <= h.raw_len
            }
        },
        parse_header(h) == Err::<PayloadLayout, Error>(Error::InvalidHeaderField) <==> !(h.flags
            == 0 && h.reserved == 0 && h.density_weight_floor_e4 <= 10_000 && h.grid_deg >= 1
            && h.grid_deg <= 0x7F80_0000 && h.ncols >= 1 && h.nrows >= 1),
{
}

/// The tables of an accepted payload stand one behind the other where the header
/// puts them: the fenceposts of the zone names first, then their text; behind the
/// grid's cells the fenceposts of its lists, then their entries; and the geometry
/// behind its own offsets.
pub proof fn lemma_sections_follow_each_other(h: PayloadHeader)
    ensures
        parse_header(h) matches Ok(l) ==> {
            &&& l.sections_len == h.raw_len
            &&& l.pool == 2 + 2 * h.n_features
            &&& l.primary == h.grid_off
            &&& l.list_offsets == l.primary + 2 * (h.ncols * h.nrows)
            &&& l.list_ids == l.list_offsets + 2 + 2 * h.uniq
            &&& l.parent == h.rings_off
            &&& l.release_off == h.release_off && l.release_len == h.release_len
            &&& l.ncols == h.ncols && l.nrows == h.nrows && l.uniq == h.uniq
            &&& l.n_features == h.n_features && l.eager_polys == h.eager_polys
            &&& l.eager_coords == h.eager_coords && l.eager_rings == h.eager_rings
            &&& l.geom == h.geom && l.codec == h.codec && l.quant_bits == h.quant_bits
            &&& l.dataset == h.dataset && l.simplify_algorithm == h.simplify_algorithm
            &&& l.grid_deg == h.grid_deg && l.epsilon_m == h.epsilon_m
            &&& l.density_weight_floor_e4 == h.density_weight_floor_e4
            &&& h.geom == GeomEncoding::FullRings ==> {
                &&& l.full_coords == h.arcs_off
                &&& l.full_ring_ends == l.full_coords + h.eager_coords * (2 * h.quant_bits.size())
                &&& l.full_polys == l.full_ring_ends + 4 * h.eager_rings
                &&& l.full_polys + 20 * h.eager_polys <= l.sections_len
            }
            &&& h.geom == GeomEncoding::VarintArcs || h.geom == GeomEncoding::FixedWidthArcs ==> {
                &&& l.n_arcs == h.n_arcs
                &&& l.arc_offsets == h.arcs_off
                &&& l.arc_data == l.arc_offsets + 4 + 4 * h.n_arcs
                &&& l.poly_offsets == l.parent + 2 * h.eager_polys
                &&& l.ring_data == l.poly_offsets + 4 + 4 * h.eager_polys
            }
        },
{
    assert(h.ncols * h.nrows >= 0) by (nonlinear_arith)
        requires
            h.ncols >= 0,
            h.nrows >= 0,
    ;
    assert(h.eager_coords * (2 * h.quant_bits.size()) >= 0) by (nonlinear_arith)
        requires
            h.eager_coords >= 0,
            h.quant_bits.size() >= 0,
    ;
}

/// The bytes of a container are read on where they start with `uTZ1` and the
/// version; each fault is told in the order they are looked for.
pub proof fn lemma_prologue(b: Seq<u8>)
    ensures
        outer_spec(b) is Ok <==> b.len() >= 8 && b[0] == 0x75 && b[1] == 0x54 && b[2] == 0x5A
            && b[3] == 0x31 && b[4] == 11,
        outer_spec(b) matches Ok(start) ==> start == 8,
        b.len() < 8 <==> outer_spec(b) == Err::<usize, Error>(Error::Truncated),
        b.len() >= 8 ==> (outer_spec(b) == Err::<usize, Error>(Error::BadMagic) <==> !(b[0] == 0x75
            && b[1] == 0x54 && b[2] == 0x5A && b[3] == 0x31)),
        outer_spec(b) matches Err(Error::UnsupportedVersion(v)) ==> v == b[4],
{
    if b.len() >= 8 {
        let magic = b.subrange(0, 4);
        assert(magic[0] == b[0] && magic[1] == b[1] && magic[2] == b[2] && magic[3] == b[3]);
        if b[0] == 0x75 && b[1] == 0x54 && b[2] == 0x5A && b[3] == 0x31 {
            assert(magic =~= MAGIC@);
        }
    }
}

} // verus!
