//! `Finder` answers lookups with a grid prefilter followed by per-polygon
//! integer point-in-polygon tests.
//!
//! There are three memory modes. In zero-copy mode the payload is borrowed
//! from static storage; in lazy mode it lives in owned memory; in eager mode
//! all rings are additionally decoded once. Zero-copy and lazy share the
//! lookup mechanism: candidates are tested by walking their arcs directly off
//! the payload bytes. Interior cells touch no geometry in any mode, and a
//! coarse lookup never does.

use vstd::prelude::*;

use crate::agreement::{lemma_eager_agrees, ring_closed};
use crate::arcs::{arc_poly_contains, lemma_vertex_at_fits};
use crate::bytes::push_bytes;
use crate::common::{
    CellTag, Codec, GeomEncoding, QuantBits, PAYLOAD_HEADER_LEN, PROLOGUE_LEN,
};
use crate::decompress::{decompress, decompress_spec};
use crate::eager::{
    cache_claims, cache_fits, decode, decode_spec, poly_begin, polys_ok, ring_begin, Cache, Eager,
};
use crate::error::{Error, ErrorView};
use crate::evenodd::{
    cache_rings, encloses, even_odd, fit_16_bits, lemma_arcs_claim_by_even_odd,
    lemma_cache_claims_by_even_odd, stored_rings,
};
use crate::format::{
    cell_at, cell_ok, check_tables, lemma_parsed_tables_within, list_id, list_offset,
    list_offsets_ok, list_room, outer, outer_spec, parent_at, parse, parse_spec, read_u16, release,
    string_offset, strings_ok, tables_ok, PayloadLayout,
};
use crate::full_rings::{
    check_full_rings, full_cache, full_claim_ok, full_counts_agree, full_end, full_poly_ok,
    full_rings_poly_contains, full_vertex, full_within,
};
use crate::geometry::{
    arc_claim_ok, arc_poly_claims, arc_poly_ok, arcs_within, poly_box, poly_refs, vertex_fits, BBox,
};
use crate::intact::{arc_claim_intact, full_claim_intact, polys_intact};
use crate::pip::Point;
use crate::text::{decode_text, text_of};

verus! {

/// A geographic position in degrees, each coordinate as the bit pattern of an
/// IEEE-754 double. Named fields leave no argument order to get wrong.
#[derive(Clone, Copy, PartialEq, Eq, Structural, Debug)]
pub struct Position {
    /// The longitude, -180..=180.
    pub lon: u64,
    /// The latitude, -90..=90.
    pub lat: u64,
}

/// The bit pattern of an IEEE-754 double without its sign.
pub open spec fn magnitude(bits: u64) -> int {
    if bits >= 0x8000_0000_0000_0000 {
        bits - 0x8000_0000_0000_0000
    } else {
        bits as int
    }
}

/// The bit pattern of 180.0.
pub const DEGREES_180: u64 = 0x4066_8000_0000_0000;

/// The bit pattern of 90.0.
pub const DEGREES_90: u64 = 0x4056_8000_0000_0000;

impl Position {
    /// Whether both coordinates are in range. Doubles of one sign order as
    /// their bit patterns do, and NaN lies above every number.
    pub open spec fn in_range(self) -> bool {
        magnitude(self.lon) <= DEGREES_180 && magnitude(self.lat) <= DEGREES_90
    }

    /// Reports whether both coordinates are in range (lon -180..=180, lat
    /// -90..=90); NaN reports `false`.
    #[must_use]
    pub fn is_valid(&self) -> (valid: bool)
        ensures
            valid == self.in_range(),
    {
        let sign: u64 = 0x8000_0000_0000_0000;
        let lon: u64 = if self.lon >= sign { self.lon - sign } else { self.lon };
        let lat: u64 = if self.lat >= sign { self.lat - sign } else { self.lat };
        lon <= DEGREES_180 && lat <= DEGREES_90
    }
}

/// What the quantizer makes of a position: the point on the asset's grid, and
/// the row and column of its grid cell before clamping.
#[derive(Clone, Copy, PartialEq, Eq, Structural, Debug)]
pub struct Probe {
    pub x: i32,
    pub y: i32,
    pub row: i64,
    pub col: i64,
}

/// An index clamped into `0..n`.
pub open spec fn clamped(v: int, n: int) -> int {
    if v < 0 {
        0
    } else if v >= n {
        n - 1
    } else {
        v
    }
}

/// Clamps an index into `0..n`.
fn clamp_index(v: i64, n: u16) -> (i: usize)
    requires
        n > 0,
    ensures
        i == clamped(v as int, n as int),
{
    if v < 0 {
        0
    } else if v >= n as i64 {
        n as usize - 1
    } else {
        v as usize
    }
}

/// The asset's payload section: borrowed in zero-copy mode, owned otherwise.
pub enum Payload {
    Borrowed(&'static [u8]),
    Owned(Vec<u8>),
}

/// A loaded timezone index. Build it once and query it many times.
pub struct Finder {
    payload: Payload,
    layout: PayloadLayout,
    /// The eager-mode geometry, populated by `preload()`.
    eager: Option<Eager>,
}

/// The tables of a payload are consistent and lie within it.
pub open spec fn tables_wf(b: Seq<u8>, layout: PayloadLayout) -> bool {
    &&& b.len() == layout.sections_len
    &&& layout.tables_within(b.len() as int)
    &&& tables_ok(b, layout)
}

/// The geometry sections lie within the payload.
pub open spec fn geometry_wf(layout: PayloadLayout, len: int) -> bool {
    match layout.geom {
        GeomEncoding::Coarse => true,
        GeomEncoding::FullRings => full_within(layout, len),
        GeomEncoding::VarintArcs | GeomEncoding::FixedWidthArcs => arcs_within(layout, len),
    }
}

/// The name of a feature: the pool text between its fenceposts, `None` when
/// it is empty or not UTF-8.
pub open spec fn tzid_text(b: Seq<u8>, layout: PayloadLayout, feature: int) -> Option<Seq<char>> {
    let bytes = b.subrange(
        layout.pool + string_offset(b, feature),
        layout.pool + string_offset(b, feature + 1),
    );
    match text_of(bytes) {
        Some(text) => if text.len() > 0 { Some(text) } else { None },
        None => None,
    }
}

/// The cell value a probe lands on.
pub open spec fn probe_cell(b: Seq<u8>, layout: PayloadLayout, probe: Probe) -> u16 {
    let row = clamped(probe.row as int, layout.nrows as int);
    let col = clamped(probe.col as int, layout.ncols as int);
    cell_at(b, layout, row * layout.ncols + col) as u16
}

/// The name a candidate-list entry resolves to.
pub open spec fn entry_tzid(b: Seq<u8>, layout: PayloadLayout, entry: int) -> Option<Seq<char>> {
    tzid_text(b, layout, parent_at(b, layout, list_id(b, layout, entry)))
}

/// Whether a border cell's candidate list is not empty.
pub open spec fn list_filled(b: Seq<u8>, layout: PayloadLayout, list: int) -> bool {
    list_offset(b, layout, list) < list_offset(b, layout, list + 1)
}

/// The grid-only answer: interior cells name their zone, border cells answer
/// with their dominant-first head.
pub open spec fn coarse_answer(b: Seq<u8>, layout: PayloadLayout, probe: Probe) -> Option<Seq<char>> {
    match CellTag::of(probe_cell(b, layout, probe)) {
        CellTag::Empty => None,
        CellTag::Zone(feature) => tzid_text(b, layout, feature as int),
        CellTag::Border(list) => entry_tzid(b, layout, list_offset(b, layout, list as int)),
    }
}

/// Whether the grid-only answer is defined: a border cell needs a head.
pub open spec fn coarse_defined(b: Seq<u8>, layout: PayloadLayout, probe: Probe) -> bool {
    CellTag::of(probe_cell(b, layout, probe)) matches CellTag::Border(list) ==> list_filled(
        b,
        layout,
        list as int,
    )
}

/// The first entry of `from..to` whose poly claims the point.
pub open spec fn first_claim(
    b: Seq<u8>,
    layout: PayloadLayout,
    claims: spec_fn(int) -> bool,
    from: int,
    to: int,
) -> Option<int>
    decreases to - from,
{
    if from >= to {
        None
    } else if claims(list_id(b, layout, from)) {
        Some(from)
    } else {
        first_claim(b, layout, claims, from + 1, to)
    }
}

/// Where a search through the entries `from..to` ends: behind the first whose
/// poly claims the point.
pub open spec fn search_end(
    b: Seq<u8>,
    layout: PayloadLayout,
    claims: spec_fn(int) -> bool,
    from: int,
    to: int,
) -> int {
    match first_claim(b, layout, claims, from, to) {
        Some(entry) => entry + 1,
        None => to,
    }
}

/// The answer of a border cell: the first candidate that claims the point, or
/// the dominant-first head when none does.
pub open spec fn border_answer(
    b: Seq<u8>,
    layout: PayloadLayout,
    claims: spec_fn(int) -> bool,
    list: int,
) -> Option<Seq<char>> {
    let from = list_offset(b, layout, list);
    let to = list_offset(b, layout, list + 1);
    match first_claim(b, layout, claims, from, to) {
        Some(entry) => entry_tzid(b, layout, entry),
        None => if from < to { entry_tzid(b, layout, from) } else { None },
    }
}

/// The accurate answer, given which polys claim the point. On a coarse asset
/// it is the grid-only answer.
pub open spec fn answer(
    b: Seq<u8>,
    layout: PayloadLayout,
    claims: spec_fn(int) -> bool,
    probe: Probe,
) -> Option<Seq<char>> {
    match CellTag::of(probe_cell(b, layout, probe)) {
        CellTag::Border(list) => if layout.geom == GeomEncoding::Coarse {
            coarse_answer(b, layout, probe)
        } else {
            border_answer(b, layout, claims, list as int)
        },
        _ => coarse_answer(b, layout, probe),
    }
}

/// An optional string by its view.
pub open spec fn text_view(s: Option<&str>) -> Option<Seq<char>> {
    match s {
        Some(text) => Some(text@),
        None => None,
    }
}

impl Finder {
    /// The payload bytes.
    pub closed spec fn bytes(&self) -> Seq<u8> {
        match self.payload {
            Payload::Borrowed(bytes) => bytes@,
            Payload::Owned(bytes) => bytes@,
        }
    }

    /// The parsed layout.
    pub closed spec fn layout_view(&self) -> PayloadLayout {
        self.layout
    }

    /// The decoded cache of eager mode, and whether it is stored at 16 bits.
    pub closed spec fn cache(&self) -> Option<(Cache, bool)> {
        match self.eager {
            Some(eager) => Some((eager.cache(), eager.narrow())),
            None => None,
        }
    }

    /// Whether the finder is consistent.
    pub closed spec fn wf(&self) -> bool {
        &&& tables_wf(self.bytes(), self.layout)
        &&& match self.eager {
            None => geometry_wf(self.layout, self.bytes().len() as int),
            Some(eager) => {
                &&& eager.wf(self.layout.quant_bits)
                &&& eager.polys@.len() == self.layout.eager_polys
                &&& self.layout.geom == GeomEncoding::VarintArcs || self.layout.geom
                    == GeomEncoding::FixedWidthArcs
            },
        }
    }

    /// Whether a poly claims a point, in this finder's memory mode.
    pub open spec fn poly_claims(&self, id: int, p: Point) -> bool {
        let (b, layout) = (self.bytes(), self.layout_view());
        match self.cache() {
            Some((cache, narrow)) => cache_claims(cache, narrow, id, p),
            None => if layout.geom == GeomEncoding::FullRings {
                cache_claims(
                    full_cache(b, layout),
                    layout.quant_bits == QuantBits::Bits16,
                    id,
                    p,
                )
            } else {
                arc_poly_claims(b, layout, id, p)
            },
        }
    }

    /// Whether a poly can be tested against a point, in this finder's memory
    /// mode.
    pub open spec fn claim_ok(&self, id: int, p: Point) -> bool {
        let (b, layout) = (self.bytes(), self.layout_view());
        match self.cache() {
            Some(_) => true,
            None => if layout.geom == GeomEncoding::FullRings {
                full_claim_ok(b, layout, id, p)
            } else {
                arc_claim_ok(b, layout, id, p)
            },
        }
    }

    /// The accurate answer for a probe.
    pub open spec fn lookup_answer(&self, probe: Probe) -> Option<Seq<char>> {
        answer(
            self.bytes(),
            self.layout_view(),
            |id: int| self.poly_claims(id, (probe.x as int, probe.y as int)),
            probe,
        )
    }

    /// Whether the accurate answer is defined for a probe: on a border cell
    /// each candidate up to the first that claims the point can be tested (a
    /// coarse asset needs only the list's head).
    pub open spec fn lookup_defined(&self, probe: Probe) -> bool {
        let (b, layout) = (self.bytes(), self.layout_view());
        CellTag::of(probe_cell(b, layout, probe)) matches CellTag::Border(list) ==> if layout.geom
            == GeomEncoding::Coarse {
            list_filled(b, layout, list as int)
        } else {
            let p = (probe.x as int, probe.y as int);
            let from = list_offset(b, layout, list as int);
            let to = list_offset(b, layout, list + 1);
            forall|entry: int|
                from <= entry < search_end(
                    b,
                    layout,
                    |id: int| self.poly_claims(id, p),
                    from,
                    to,
                ) ==> self.claim_ok(#[trigger] list_id(b, layout, entry), p)
        }
    }
}

/// List fenceposts are monotone and stay within the candidate lists.
proof fn lemma_list_bounds(b: Seq<u8>, layout: PayloadLayout, list: int)
    requires
        tables_wf(b, layout),
        0 <= list < layout.uniq,
    ensures
        0 <= list_offset(b, layout, list) <= list_offset(b, layout, list + 1) <= list_offset(
            b,
            layout,
            layout.uniq as int,
        ) <= list_room(layout),
    decreases layout.uniq - list,
{
    assert(list_offset(b, layout, list + 1) >= list_offset(b, layout, (list + 1) - 1));
    if list + 1 < layout.uniq {
        lemma_list_bounds(b, layout, list + 1);
    }
}

impl Finder {
    /// Returns the payload bytes.
    pub fn payload_bytes(&self) -> (bytes: &[u8])
        ensures
            bytes@ == self.bytes(),
    {
        match &self.payload {
            Payload::Borrowed(bytes) => bytes,
            Payload::Owned(bytes) => bytes.as_slice(),
        }
    }

    /// Reads the primary cell a probe lands on.
    fn cell_value(&self, probe: Probe) -> (cell: u16)
        requires
            self.wf(),
        ensures
            cell == probe_cell(self.bytes(), self.layout_view(), probe),
            cell_ok(self.layout_view(), cell),
    {
        let payload = self.payload_bytes();
        let len: usize = payload.len();
        let row: usize = clamp_index(probe.row, self.layout.nrows);
        let col: usize = clamp_index(probe.col, self.layout.ncols);
        let ghost (nrows, ncols) = (self.layout.nrows as int, self.layout.ncols as int);
        assert(0 <= row * ncols && row * ncols + col < ncols * nrows) by (nonlinear_arith)
            requires
                0 <= row,
                row + 1 <= nrows,
                0 <= col < ncols,
        ;
        let index: usize = row * self.layout.ncols as usize + col;
        let cell: u16 = read_u16(payload, self.layout.primary + index * 2);
        assert(cell == cell_at(payload@, self.layout, index as int));
        assert(cell_ok(self.layout, cell_at(payload@, self.layout, index as int) as u16));
        cell
    }

    /// The entries of a candidate list, as entry indices.
    fn list_bounds(&self, list: u16) -> (r: (usize, usize))
        requires
            self.wf(),
            list < self.layout_view().uniq,
        ensures
            r.0 == list_offset(self.bytes(), self.layout_view(), list as int),
            r.1 == list_offset(self.bytes(), self.layout_view(), list + 1),
            r.0 <= r.1,
    {
        let payload = self.payload_bytes();
        let len: usize = payload.len();
        proof {
            lemma_list_bounds(payload@, self.layout, list as int);
        }
        let at: usize = self.layout.list_offsets + list as usize * 2;
        (read_u16(payload, at) as usize, read_u16(payload, at + 2) as usize)
    }

    /// The poly id of a candidate-list entry.
    fn list_entry(&self, list: u16, entry: usize) -> (id: u16)
        requires
            self.wf(),
            list < self.layout_view().uniq,
            list_offset(self.bytes(), self.layout_view(), list as int) <= entry < list_offset(
                self.bytes(),
                self.layout_view(),
                list + 1,
            ),
        ensures
            id == list_id(self.bytes(), self.layout_view(), entry as int),
            id < self.layout_view().eager_polys,
    {
        let payload = self.payload_bytes();
        let len: usize = payload.len();
        proof {
            lemma_list_bounds(payload@, self.layout, list as int);
            let id = list_id(payload@, self.layout, entry as int);
        }
        read_u16(payload, self.layout.list_ids + entry * 2)
    }

    /// Maps a poly id to its feature id via the parent table.
    fn parent_of(&self, poly_id: u16) -> (feature: u16)
        requires
            self.wf(),
            poly_id < self.layout_view().eager_polys,
        ensures
            feature == parent_at(self.bytes(), self.layout_view(), poly_id as int),
            feature < self.layout_view().n_features,
    {
        let payload = self.payload_bytes();
        let len: usize = payload.len();
        proof {
            let parent = parent_at(payload@, self.layout, poly_id as int);
        }
        read_u16(payload, self.layout.parent + poly_id as usize * 2)
    }

    /// The name of a feature, `None` when it is empty or not UTF-8.
    fn tzid(&self, feature_id: u16) -> (name: Option<&str>)
        requires
            self.wf(),
            feature_id < self.layout_view().n_features,
        ensures
            text_view(name) == tzid_text(self.bytes(), self.layout_view(), feature_id as int),
    {
        let payload = self.payload_bytes();
        let len: usize = payload.len();
        let start: usize = read_u16(payload, feature_id as usize * 2) as usize;
        let end: usize = read_u16(payload, feature_id as usize * 2 + 2) as usize;
        proof {
            assert(start == string_offset(payload@, feature_id as int));
            assert(end == string_offset(payload@, feature_id + 1));
            assert(string_offset(payload@, (feature_id + 1) - 1) <= string_offset(
                payload@,
                feature_id + 1,
            ));
            assert(self.layout.pool + string_offset(payload@, feature_id + 1)
                <= self.layout.sections_len);
        }
        let bytes = vstd::slice::slice_subrange(
            payload,
            self.layout.pool + start,
            self.layout.pool + end,
        );
        match decode_text(bytes) {
            Some(text) => if text.is_empty() { None } else { Some(text) },
            None => None,
        }
    }

    /// The name a candidate-list entry resolves to.
    fn entry_name(&self, list: u16, entry: usize) -> (name: Option<&str>)
        requires
            self.wf(),
            list < self.layout_view().uniq,
            list_offset(self.bytes(), self.layout_view(), list as int) <= entry < list_offset(
                self.bytes(),
                self.layout_view(),
                list + 1,
            ),
        ensures
            text_view(name) == entry_tzid(self.bytes(), self.layout_view(), entry as int),
    {
        self.tzid(self.parent_of(self.list_entry(list, entry)))
    }

    /// Tests one polygon in this finder's memory mode.
    fn poly_contains(&self, poly_id: u16, px: i32, py: i32) -> (claimed: bool)
        requires
            self.wf(),
            self.layout_view().geom != GeomEncoding::Coarse,
            poly_id < self.layout_view().eager_polys,
            self.claim_ok(poly_id as int, (px as int, py as int)),
        ensures
            claimed == self.poly_claims(poly_id as int, (px as int, py as int)),
    {
        match &self.eager {
            Some(eager) => eager.poly_contains(self.layout.quant_bits, poly_id, px, py),
            None => {
                let payload = self.payload_bytes();
                if self.layout.geom == GeomEncoding::FullRings {
                    full_rings_poly_contains(payload, &self.layout, poly_id, px, py)
                } else {
                    arc_poly_contains(payload, &self.layout, poly_id, px, py)
                }
            },
        }
    }

    /// Runs [`lookup()`](Finder::lookup) without the position check. An
    /// interior cell answers with its zone, a border cell with the first
    /// candidate that claims the point, and with the dominant-first head when
    /// none does.
    #[must_use]
    pub fn lookup_unchecked(&self, probe: Probe) -> (name: Option<&str>)
        requires
            self.wf(),
            self.lookup_defined(probe),
        ensures
            text_view(name) == self.lookup_answer(probe),
    {
        let ghost p = (probe.x as int, probe.y as int);
        let ghost claims = |id: int| self.poly_claims(id, p);
        let ghost (b, layout) = (self.bytes(), self.layout_view());
        match CellTag::from_cell(self.cell_value(probe)) {
            CellTag::Empty => None,
            CellTag::Zone(feature) => self.tzid(feature),
            CellTag::Border(list) => {
                let (start, end) = self.list_bounds(list);
                if self.layout.geom == GeomEncoding::Coarse {
                    return self.entry_name(list, start);
                }
                let mut entry: usize = start;
                while entry < end
                    invariant
                        self.wf(),
                        b == self.bytes(),
                        layout == self.layout_view(),
                        layout.geom != GeomEncoding::Coarse,
                        list < layout.uniq,
                        CellTag::of(probe_cell(b, layout, probe)) == CellTag::Border(list),
                        self.lookup_defined(probe),
                        start == list_offset(b, layout, list as int),
                        end == list_offset(b, layout, list + 1),
                        start <= entry <= end,
                        p == (probe.x as int, probe.y as int),
                        claims == (|id: int| self.poly_claims(id, p)),
                        first_claim(b, layout, claims, start as int, end as int) == first_claim(
                            b,
                            layout,
                            claims,
                            entry as int,
                            end as int,
                        ),
                    decreases end - entry,
                {
                    let poly_id: u16 = self.list_entry(list, entry);
                    proof {
                        lemma_first_claim_range(b, layout, claims, entry as int, end as int);
                        assert(self.claim_ok(list_id(b, layout, entry as int), p));
                    }
                    if self.poly_contains(poly_id, probe.x, probe.y) {
                        return self.entry_name(list, entry);
                    }
                    entry = entry + 1;
                }
                // quantization edge: no candidate claims the point, so the
                // dominant-first head is the best answer
                if start < end {
                    self.entry_name(list, start)
                } else {
                    None
                }
            },
        }
    }

    /// Runs [`lookup_coarse()`](Finder::lookup_coarse) without the position
    /// check.
    #[must_use]
    pub fn lookup_coarse_unchecked(&self, probe: Probe) -> (name: Option<&str>)
        requires
            self.wf(),
            coarse_defined(self.bytes(), self.layout_view(), probe),
        ensures
            text_view(name) == coarse_answer(self.bytes(), self.layout_view(), probe),
    {
        match CellTag::from_cell(self.cell_value(probe)) {
            CellTag::Empty => None,
            CellTag::Zone(feature) => self.tzid(feature),
            CellTag::Border(list) => {
                let (start, _end) = self.list_bounds(list);
                self.entry_name(list, start)
            },
        }
    }

    /// Performs the accurate lookup: the grid cell yields either an interior
    /// zone or candidates that go through the polygon test. `Ok(None)` means
    /// no zone claims the point. `probe` is what the quantizer makes of
    /// `position` on this asset.
    pub fn lookup(&self, position: Position, probe: Probe) -> (r: Result<Option<&str>, Error>)
        requires
            self.wf(),
            position.in_range() ==> self.lookup_defined(probe),
        ensures
            match r {
                Ok(name) => position.in_range() && text_view(name) == self.lookup_answer(probe),
                Err(error) => !position.in_range() && error == Error::InvalidPosition,
            },
    {
        if position.is_valid() {
            Ok(self.lookup_unchecked(probe))
        } else {
            Err(Error::InvalidPosition)
        }
    }

    /// Performs a grid-only approximate lookup on any asset: no geometry is
    /// decoded. Border cells answer with the cell's dominant zone.
    pub fn lookup_coarse(&self, position: Position, probe: Probe) -> (r: Result<
        Option<&str>,
        Error,
    >)
        requires
            self.wf(),
            position.in_range() ==> coarse_defined(self.bytes(), self.layout_view(), probe),
        ensures
            match r {
                Ok(name) => position.in_range() && text_view(name) == coarse_answer(
                    self.bytes(),
                    self.layout_view(),
                    probe,
                ),
                Err(error) => !position.in_range() && error == Error::InvalidPosition,
            },
    {
        if position.is_valid() {
            Ok(self.lookup_coarse_unchecked(probe))
        } else {
            Err(Error::InvalidPosition)
        }
    }

    /// Whether the grid-only answer is defined for a probe.
    #[must_use]
    pub fn can_answer_coarse(&self, probe: Probe) -> (defined: bool)
        requires
            self.wf(),
        ensures
            defined == coarse_defined(self.bytes(), self.layout_view(), probe),
    {
        match CellTag::from_cell(self.cell_value(probe)) {
            CellTag::Border(list) => {
                let (start, end) = self.list_bounds(list);
                start < end
            },
            _ => true,
        }
    }

    /// Whether a poly can be tested against a point.
    fn claim_intact(&self, poly_id: u16, px: i32, py: i32) -> (intact: bool)
        requires
            self.wf(),
            self.layout_view().geom != GeomEncoding::Coarse,
        ensures
            intact == self.claim_ok(poly_id as int, (px as int, py as int)),
    {
        match &self.eager {
            Some(_) => true,
            None => {
                let payload = self.payload_bytes();
                if self.layout.geom == GeomEncoding::FullRings {
                    full_claim_intact(payload, &self.layout, poly_id as u32, px, py)
                } else {
                    arc_claim_intact(payload, &self.layout, poly_id as u32, px, py)
                }
            },
        }
    }

    /// Whether the accurate answer is defined for a probe: an asset whose
    /// candidate geometry does not decode has none.
    #[must_use]
    pub fn can_answer(&self, probe: Probe) -> (defined: bool)
        requires
            self.wf(),
        ensures
            defined == self.lookup_defined(probe),
    {
        let ghost p = (probe.x as int, probe.y as int);
        let ghost claims = |id: int| self.poly_claims(id, p);
        let ghost (b, layout) = (self.bytes(), self.layout_view());
        match CellTag::from_cell(self.cell_value(probe)) {
            CellTag::Border(list) => {
                let (start, end) = self.list_bounds(list);
                if self.layout.geom == GeomEncoding::Coarse {
                    return start < end;
                }
                let mut entry: usize = start;
                while entry < end
                    invariant
                        self.wf(),
                        b == self.bytes(),
                        layout == self.layout_view(),
                        layout.geom != GeomEncoding::Coarse,
                        list < layout.uniq,
                        CellTag::of(probe_cell(b, layout, probe)) == CellTag::Border(list),
                        start == list_offset(b, layout, list as int),
                        end == list_offset(b, layout, list + 1),
                        start <= entry <= end,
                        p == (probe.x as int, probe.y as int),
                        claims == (|id: int| self.poly_claims(id, p)),
                        first_claim(b, layout, claims, start as int, end as int) == first_claim(
                            b,
                            layout,
                            claims,
                            entry as int,
                            end as int,
                        ),
                        forall|e: int|
                            start <= e < entry ==> self.claim_ok(
                                #[trigger] list_id(b, layout, e),
                                p,
                            ),
                    decreases end - entry,
                {
                    let poly_id: u16 = self.list_entry(list, entry);
                    proof {
                        lemma_first_claim_range(b, layout, claims, entry as int, end as int);
                    }
                    if !self.claim_intact(poly_id, probe.x, probe.y) {
                        assert(!self.claim_ok(list_id(b, layout, entry as int), p));
                        return false;
                    }
                    if self.poly_contains(poly_id, probe.x, probe.y) {
                        return true;
                    }
                    entry = entry + 1;
                }
                true
            },
            _ => true,
        }
    }
}

/// On a coarse asset the accurate answer is the grid-only answer, whatever
/// polys would claim: cell precision is that asset's precision.
pub proof fn lemma_coarse_asset_answers_coarsely(
    b: Seq<u8>,
    layout: PayloadLayout,
    claims: spec_fn(int) -> bool,
    probe: Probe,
)
    requires
        layout.geom == GeomEncoding::Coarse,
    ensures
        answer(b, layout, claims, probe) == coarse_answer(b, layout, probe),
{
}

/// Interior and empty cells answer the same at either precision: no geometry
/// is consulted.
pub proof fn lemma_interior_cells_touch_no_geometry(
    b: Seq<u8>,
    layout: PayloadLayout,
    claims: spec_fn(int) -> bool,
    probe: Probe,
)
    requires
        !(CellTag::of(probe_cell(b, layout, probe)) is Border),
    ensures
        answer(b, layout, claims, probe) == coarse_answer(b, layout, probe),
{
}

/// The bytes behind the prologue and the header.
pub open spec fn sections(b: Seq<u8>) -> Seq<u8> {
    b.skip((PROLOGUE_LEN + PAYLOAD_HEADER_LEN) as int)
}

/// What the prologue and header of a container parse to.
pub open spec fn container_layout(b: Seq<u8>) -> Result<PayloadLayout, Error> {
    match outer_spec(b) {
        Err(error) => Err(error),
        Ok(start) => parse_spec(b.skip(start as int)),
    }
}

/// The load-time checks on a decoded payload.
pub open spec fn checked(blob: Seq<u8>, layout: PayloadLayout) -> Result<
    (Seq<u8>, PayloadLayout),
    ErrorView,
> {
    if !full_counts_agree(blob, layout) {
        Err(ErrorView::Plain(Error::FullRingsCountsDisagree))
    } else if !tables_ok(blob, layout) {
        Err(ErrorView::Plain(Error::TableOutOfRange))
    } else {
        Ok((blob, layout))
    }
}

/// The stored payload of an uncompressed container. Trailing bytes are fine;
/// running out before the declared end is not.
pub open spec fn stored(b: Seq<u8>, layout: PayloadLayout) -> Result<
    (Seq<u8>, PayloadLayout),
    ErrorView,
> {
    if sections(b).len() < layout.sections_len {
        Err(ErrorView::Plain(Error::Truncated))
    } else {
        checked(sections(b).take(layout.sections_len as int), layout)
    }
}

/// What a container loads as: its payload and layout, or the error. The
/// header is validated before any decompression.
pub open spec fn load_spec(b: Seq<u8>) -> Result<(Seq<u8>, PayloadLayout), ErrorView> {
    match container_layout(b) {
        Err(error) => Err(ErrorView::Plain(error)),
        Ok(layout) => if layout.codec == Codec::Uncompressed {
            stored(b, layout)
        } else {
            match decompress_spec(layout.codec.code(), layout.sections_len as nat, sections(b)) {
                Err(error) => Err(error),
                Ok(blob) => checked(blob, layout),
            }
        },
    }
}

/// What a container loads as without a copy: compressed assets are refused.
pub open spec fn static_spec(b: Seq<u8>) -> Result<(Seq<u8>, PayloadLayout), ErrorView> {
    match container_layout(b) {
        Err(error) => Err(ErrorView::Plain(error)),
        Ok(layout) => if layout.codec == Codec::Uncompressed {
            stored(b, layout)
        } else {
            Err(ErrorView::Plain(Error::StaticAssetCompressed))
        },
    }
}

/// A freshly loaded finder: the payload and layout stated, nothing decoded.
pub open spec fn loads_as(
    r: Result<Finder, Error>,
    expected: Result<(Seq<u8>, PayloadLayout), ErrorView>,
) -> bool {
    match r {
        Ok(finder) => {
            &&& expected == Ok::<(Seq<u8>, PayloadLayout), ErrorView>(
                (finder.bytes(), finder.layout_view()),
            )
            &&& finder.cache() is None
            &&& finder.wf()
        },
        Err(error) => expected == Err::<(Seq<u8>, PayloadLayout), ErrorView>(error@),
    }
}

/// An uncompressed asset loads alike from static storage and from a slice:
/// the memory mode does not change what is read.
pub proof fn lemma_static_and_slice_agree(b: Seq<u8>)
    requires
        container_layout(b) matches Ok(layout) ==> layout.codec == Codec::Uncompressed,
    ensures
        static_spec(b) == load_spec(b),
{
}

/// Parses the prologue and the header.
fn open_container(bytes: &[u8]) -> (layout: Result<PayloadLayout, Error>)
    ensures
        layout == container_layout(bytes@),
        layout matches Ok(l) ==> {
            &&& bytes@.len() >= PROLOGUE_LEN + PAYLOAD_HEADER_LEN
            &&& l.tables_within(l.sections_len as int)
            &&& geometry_wf(l, l.sections_len as int)
            &&& l.sections_len <= u32::MAX
        },
{
    let start: usize = match outer(bytes) {
        Ok(start) => start,
        Err(error) => return Err(error),
    };
    let rest = vstd::slice::slice_subrange(bytes, start, bytes.len());
    proof {
        lemma_parsed_tables_within(rest@);
        assert(rest@ =~= bytes@.skip(start as int));
    }
    parse(rest)
}

/// Whether coordinates may stand at an address: those of a `FullRings` payload
/// lie on four bytes.
pub open spec fn aligned(layout: PayloadLayout, address: int) -> bool {
    layout.geom == GeomEncoding::FullRings ==> (address + layout.full_coords) % 4 == 0
}

/// Whether a payload at this address has its coordinates where they may stand.
pub fn is_aligned(layout: &PayloadLayout, address: usize) -> (fits: bool)
    ensures
        fits == aligned(*layout, address as int),
{
    layout.geom != GeomEncoding::FullRings || (address % 4 + layout.full_coords % 4) % 4 == 0
}

/// Whether an uncompressed asset whose payload stands at this address is to be
/// refused as misaligned, with [`Error::Misaligned`]: it is complete, but its
/// coordinates are not where they may stand. Memory addresses are the caller's
/// to know; lookups read bytes and are not affected.
pub fn is_misaligned(bytes: &[u8], address: usize) -> (refused: bool)
    ensures
        refused == (container_layout(bytes@) matches Ok(layout) && layout.codec
            == Codec::Uncompressed && sections(bytes@).len() >= layout.sections_len && !aligned(
            layout,
            address as int,
        )),
{
    match open_container(bytes) {
        Ok(layout) => layout.codec == Codec::Uncompressed && bytes.len() - (PROLOGUE_LEN
            + PAYLOAD_HEADER_LEN) >= layout.sections_len && !is_aligned(&layout, address),
        Err(_) => false,
    }
}

/// Runs the load-time checks on a decoded payload.
fn check_payload(payload: &[u8], layout: &PayloadLayout) -> (r: Result<(), Error>)
    requires
        payload@.len() == layout.sections_len,
        layout.tables_within(layout.sections_len as int),
        geometry_wf(*layout, layout.sections_len as int),
    ensures
        match r {
            Ok(_) => checked(payload@, *layout) == Ok::<(Seq<u8>, PayloadLayout), ErrorView>(
                (payload@, *layout),
            ) && tables_ok(payload@, *layout),
            Err(error) => checked(payload@, *layout) == Err::<
                (Seq<u8>, PayloadLayout),
                ErrorView,
            >(error@),
        },
{
    match check_full_rings(payload, layout) {
        Err(error) => return Err(error),
        Ok(_) => {},
    }
    check_tables(payload, layout)
}

impl Finder {
    /// Borrows an asset from static storage. This is zero-copy mode: there is
    /// no payload copy. Only uncompressed assets are accepted.
    pub fn from_static(bytes: &'static [u8]) -> (r: Result<Finder, Error>)
        ensures
            loads_as(r, static_spec(bytes@)),
    {
        let layout = match open_container(bytes) {
            Ok(layout) => layout,
            Err(error) => return Err(error),
        };
        if layout.codec != Codec::Uncompressed {
            return Err(Error::StaticAssetCompressed);
        }
        let sections_start: usize = PROLOGUE_LEN + PAYLOAD_HEADER_LEN;
        if bytes.len() - sections_start < layout.sections_len {
            return Err(Error::Truncated);
        }
        let payload = vstd::slice::slice_subrange(
            bytes,
            sections_start,
            sections_start + layout.sections_len,
        );
        assert(payload@ =~= sections(bytes@).take(layout.sections_len as int));
        match check_payload(payload, &layout) {
            Err(error) => return Err(error),
            Ok(_) => {},
        }
        Ok(Finder { payload: Payload::Borrowed(payload), layout, eager: None })
    }

    /// Decodes a borrowed asset into an owned finder (lazy mode),
    /// decompressing as needed. An uncompressed asset is copied.
    pub fn from_slice(bytes: &[u8]) -> (r: Result<Finder, Error>)
        ensures
            loads_as(r, load_spec(bytes@)),
    {
        let layout = match open_container(bytes) {
            Ok(layout) => layout,
            Err(error) => return Err(error),
        };
        let sections_start: usize = PROLOGUE_LEN + PAYLOAD_HEADER_LEN;
        let rest = vstd::slice::slice_subrange(bytes, sections_start, bytes.len());
        assert(rest@ =~= sections(bytes@));
        let payload: Vec<u8> = if layout.codec == Codec::Uncompressed {
            if rest.len() < layout.sections_len {
                return Err(Error::Truncated);
            }
            let blob = vstd::slice::slice_subrange(rest, 0, layout.sections_len);
            assert(blob@ =~= sections(bytes@).take(layout.sections_len as int));
            vstd::slice::slice_to_vec(blob)
        } else {
            match decompress(layout.codec.byte(), layout.sections_len, rest) {
                Ok(payload) => payload,
                Err(error) => return Err(error),
            }
        };
        match check_payload(payload.as_slice(), &layout) {
            Err(error) => return Err(error),
            Ok(_) => {},
        }
        Ok(Finder { payload: Payload::Owned(payload), layout, eager: None })
    }

    /// Takes ownership of an asset buffer. A compressed asset is
    /// decompressed; an uncompressed one is adopted in place, reusing the
    /// allocation. The result is lazy mode either way.
    pub fn from_vec(bytes: Vec<u8>) -> (r: Result<Finder, Error>)
        ensures
            loads_as(r, load_spec(bytes@)),
    {
        let layout = match open_container(bytes.as_slice()) {
            Ok(layout) => layout,
            Err(error) => return Err(error),
        };
        let sections_start: usize = PROLOGUE_LEN + PAYLOAD_HEADER_LEN;
        let payload: Vec<u8> = if layout.codec == Codec::Uncompressed {
            if bytes.len() - sections_start < layout.sections_len {
                return Err(Error::Truncated);
            }
            let ghost blob = sections(bytes@).take(layout.sections_len as int);
            let ghost whole = bytes@;
            let mut buffer = bytes;
            let mut i: usize = 0;
            while i < layout.sections_len
                invariant
                    i <= layout.sections_len,
                    sections_start == PROLOGUE_LEN + PAYLOAD_HEADER_LEN,
                    buffer@.len() == whole.len(),
                    sections_start + layout.sections_len <= whole.len(),
                    blob == sections(whole).take(layout.sections_len as int),
                    forall|k: int| 0 <= k < i ==> buffer@[k] == blob[k],
                    forall|k: int| i + sections_start <= k < whole.len() ==> buffer@[k] == whole[k],
                decreases layout.sections_len - i,
            {
                let len: usize = buffer.len();
                let byte: u8 = buffer[sections_start + i];
                buffer.set(i, byte);
                i = i + 1;
            }
            buffer.truncate(layout.sections_len);
            assert(buffer@ =~= blob);
            buffer
        } else {
            let rest = vstd::slice::slice_subrange(bytes.as_slice(), sections_start, bytes.len());
            assert(rest@ =~= sections(bytes@));
            match decompress(layout.codec.byte(), layout.sections_len, rest) {
                Ok(payload) => payload,
                Err(error) => return Err(error),
            }
        };
        match check_payload(payload.as_slice(), &layout) {
            Err(error) => return Err(error),
            Ok(_) => {},
        }
        Ok(Finder { payload: Payload::Owned(payload), layout, eager: None })
    }

    /// The parsed layout: the asset's knobs and section positions.
    #[must_use]
    pub fn layout(&self) -> (layout: &PayloadLayout)
        ensures
            *layout == self.layout_view(),
    {
        &self.layout
    }

    /// Returns the population-density weight floor the asset was simplified
    /// with, in units of 1e-4; `None` means unweighted simplification.
    #[must_use]
    pub fn density_weight_floor(&self) -> (floor_e4: Option<u16>)
        ensures
            floor_e4 == if self.layout_view().density_weight_floor_e4 == 0 {
                None::<u16>
            } else {
                Some(self.layout_view().density_weight_floor_e4)
            },
    {
        match self.layout.density_weight_floor_e4 {
            0 => None,
            floor_e4 => Some(floor_e4),
        }
    }

    /// Returns the TZBB release the asset was generated from; the result is
    /// an empty string if the recorded bytes are not valid UTF-8.
    #[must_use]
    pub fn tzbb_release(&self) -> (tag: &str)
        requires
            self.wf(),
        ensures
            tag@ == release_text(self.bytes(), self.layout_view()),
    {
        proof {
            reveal_strlit("");
        }
        match decode_text(release(&self.layout, self.payload_bytes())) {
            Some(text) => text,
            None => {
                assert(""@ =~= Seq::<char>::empty());
                ""
            },
        }
    }

    /// The bytes [`preload()`](Finder::preload) reserves: coordinates at
    /// quant-nearest width, ring ends, and poly records.
    pub open spec fn preload_size(layout: PayloadLayout) -> int {
        if layout.geom == GeomEncoding::FullRings || layout.geom == GeomEncoding::Coarse {
            0
        } else {
            layout.eager_coords * (if layout.quant_bits == QuantBits::Bits16 {
                4int
            } else {
                8int
            }) + layout.eager_rings * 4 + layout.eager_polys * 20
        }
    }

    /// Returns the heap bytes [`preload()`](Finder::preload) will reserve.
    /// The asset records how many coordinates, rings, and polygons its
    /// geometry decodes to, so this is pure arithmetic.
    #[must_use]
    pub fn preload_bytes(&self) -> (size: usize)
        requires
            Finder::preload_size(self.layout_view()) <= usize::MAX,
        ensures
            size == Finder::preload_size(self.layout_view()),
    {
        let layout = &self.layout;
        match layout.geom {
            GeomEncoding::FullRings | GeomEncoding::Coarse => 0,
            _ => {
                let pair_size: u64 = if layout.quant_bits == QuantBits::Bits16 { 4 } else { 8 };
                assert(0 <= layout.eager_coords * pair_size <= 0xFFFF_FFFF * 8) by (nonlinear_arith)
                    requires
                        0 <= layout.eager_coords <= 0xFFFF_FFFF,
                        0 <= pair_size <= 8,
                ;
                let total: u64 = layout.eager_coords as u64 * pair_size + layout.eager_rings as u64
                    * 4 + layout.eager_polys as u64 * 20;
                total as usize
            },
        }
    }
}

/// The TZBB release string of a payload, empty unless it is valid UTF-8.
pub open spec fn release_text(b: Seq<u8>, layout: PayloadLayout) -> Seq<char> {
    match text_of(b.subrange(layout.release_off as int, layout.release_off + layout.release_len)) {
        Some(text) => text,
        None => Seq::empty(),
    }
}

/// Whether a layout stores shared arcs.
pub open spec fn has_arcs(layout: PayloadLayout) -> bool {
    layout.geom == GeomEncoding::VarintArcs || layout.geom == GeomEncoding::FixedWidthArcs
}

impl Finder {
    /// Whether [`preload()`](Finder::preload) has something to decode.
    pub open spec fn undecoded(&self) -> bool {
        self.cache() is None && has_arcs(self.layout_view())
    }

    /// Whether the geometry decodes into the cache.
    pub open spec fn decodable(&self) -> bool {
        &&& polys_ok(self.bytes(), self.layout_view())
        &&& cache_fits(self.bytes(), self.layout_view())
    }

    /// The cache [`preload()`](Finder::preload) decodes.
    pub open spec fn decoded(&self) -> (Cache, bool) {
        (
            decode_spec(
                self.bytes(),
                self.layout_view(),
                self.layout_view().eager_polys as int,
            ),
            self.layout_view().quant_bits == QuantBits::Bits16,
        )
    }

    /// Decodes all polygons into memory once (eager mode) where the geometry
    /// decodes, and reports whether it did; otherwise nothing changes. Where
    /// there is nothing to decode, nothing changes either.
    pub fn try_preload(&mut self) -> (preloaded: bool)
        requires
            old(self).wf(),
        ensures
            final(self).wf(),
            final(self).bytes() == old(self).bytes(),
            final(self).layout_view() == old(self).layout_view(),
            preloaded == (!old(self).undecoded() || old(self).decodable()),
            final(self).cache() == if old(self).undecoded() && old(self).decodable() {
                Some(old(self).decoded())
            } else {
                old(self).cache()
            },
    {
        match self.layout.geom {
            GeomEncoding::FullRings | GeomEncoding::Coarse => return true,
            _ => {},
        }
        if self.eager.is_some() {
            return true;
        }
        let payload = self.payload_bytes();
        if !polys_intact(payload, &self.layout) {
            return false;
        }
        match decode(payload, &self.layout) {
            None => false,
            Some(eager) => {
                self.eager = Some(eager);
                true
            },
        }
    }

    /// Decodes all polygons into memory once (eager mode): repeat lookups
    /// then skip decoding entirely. It is a no-op if already preloaded, and
    /// on assets whose payload is the cache already or holds no geometry.
    pub fn preload(&mut self)
        requires
            old(self).wf(),
            old(self).undecoded() ==> old(self).decodable(),
        ensures
            final(self).wf(),
            final(self).bytes() == old(self).bytes(),
            final(self).layout_view() == old(self).layout_view(),
            final(self).cache() == if old(self).undecoded() {
                Some(old(self).decoded())
            } else {
                old(self).cache()
            },
    {
        let _ = self.try_preload();
    }
}

/// Which poly claims come first depends only on the listed polys.
proof fn lemma_first_claim_same(
    b: Seq<u8>,
    layout: PayloadLayout,
    one: spec_fn(int) -> bool,
    other: spec_fn(int) -> bool,
    from: int,
    to: int,
)
    requires
        forall|entry: int|
            from <= entry < to ==> one(#[trigger] list_id(b, layout, entry)) == other(
                list_id(b, layout, entry),
            ),
    ensures
        first_claim(b, layout, one, from, to) == first_claim(b, layout, other, from, to),
    decreases to - from,
{
    if from < to {
        lemma_first_claim_same(b, layout, one, other, from + 1, to);
    }
}

/// Whether every ring of a poly is stored closed, as the format says.
pub open spec fn rings_closed(b: Seq<u8>, layout: PayloadLayout, id: int) -> bool {
    forall|i: int|
        0 <= i < (poly_refs(b, layout, id)->0).len() ==> ring_closed(
            b,
            layout,
            #[trigger] (poly_refs(b, layout, id)->0)[i],
        )
}

/// Preloading keeps every answer: on an asset whose rings are stored closed,
/// a finder that decoded its geometry answers each probe as the one that
/// walks the payload does.
pub proof fn lemma_preload_keeps_answers(lazy: Finder, eager: Finder, probe: Probe)
    requires
        lazy.wf(),
        lazy.undecoded(),
        lazy.decodable(),
        eager.bytes() == lazy.bytes(),
        eager.layout_view() == lazy.layout_view(),
        eager.cache() == Some(lazy.decoded()),
        forall|id: int|
            0 <= id < lazy.layout_view().eager_polys ==> #[trigger] rings_closed(
                lazy.bytes(),
                lazy.layout_view(),
                id,
            ),
    ensures
        eager.lookup_answer(probe) == lazy.lookup_answer(probe),
{
    let (b, layout) = (lazy.bytes(), lazy.layout_view());
    let p = (probe.x as int, probe.y as int);
    let one = |id: int| lazy.poly_claims(id, p);
    let other = |id: int| eager.poly_claims(id, p);
    let cell = probe_cell(b, layout, probe);
    lemma_probe_cell_ok(b, layout, probe);
    if let CellTag::Border(list) = CellTag::of(cell) {
        let from = list_offset(b, layout, list as int);
        let to = list_offset(b, layout, list + 1);
        lemma_list_bounds(b, layout, list as int);
        assert forall|entry: int| from <= entry < to implies one(
            #[trigger] list_id(b, layout, entry),
        ) == other(list_id(b, layout, entry)) by {
            let id = list_id(b, layout, entry);
            assert(id < layout.eager_polys);
            assert(rings_closed(b, layout, id));
            lemma_eager_agrees(b, layout, id, p);
        }
        lemma_first_claim_same(b, layout, one, other, from, to);
    }
}

impl Finder {
    /// The rings of a poly, as this finder's memory mode has them.
    pub open spec fn poly_rings(&self, id: int) -> Seq<Seq<Point>> {
        let (b, layout) = (self.bytes(), self.layout_view());
        match self.cache() {
            Some((cache, _)) => cache_rings(cache, id),
            None => if layout.geom == GeomEncoding::FullRings {
                cache_rings(full_cache(b, layout), id)
            } else {
                stored_rings(b, layout, id)
            },
        }
    }

    /// The bounding box of a poly, as this finder's memory mode has it.
    pub open spec fn poly_bounds(&self, id: int) -> BBox {
        let (b, layout) = (self.bytes(), self.layout_view());
        match self.cache() {
            Some((cache, _)) => cache.polys[id].0,
            None => if layout.geom == GeomEncoding::FullRings {
                full_cache(b, layout).polys[id].0
            } else {
                poly_box(b, layout, id)
            },
        }
    }

    /// Whether a poly is stored as the format says: it decodes, its rings are
    /// closed, and its box encloses them.
    pub open spec fn poly_stands(&self, id: int) -> bool {
        let (b, layout) = (self.bytes(), self.layout_view());
        &&& self.cache() is None ==> if layout.geom == GeomEncoding::FullRings {
            full_poly_ok(b, layout, id)
        } else {
            arc_poly_ok(b, layout, id) && rings_closed(b, layout, id)
        }
        &&& encloses(self.poly_bounds(id), self.poly_rings(id))
    }
}

/// Every memory mode of every encoding claims points by one rule: a point on an
/// edge of the poly's rings, or one from which a ray crosses them an odd number
/// of times.
pub proof fn lemma_polys_claim_by_even_odd(finder: Finder, id: int, p: Point)
    requires
        finder.wf(),
        finder.layout_view().geom != GeomEncoding::Coarse,
        0 <= id < finder.layout_view().eager_polys,
        finder.poly_stands(id),
    ensures
        finder.poly_claims(id, p) == even_odd(finder.poly_rings(id), p),
{
    let (b, layout) = (finder.bytes(), finder.layout_view());
    let rings = finder.poly_rings(id);
    match finder.eager {
        Some(eager) => {
            let cache = eager.cache();
            assert(0 <= poly_begin(cache, id) <= cache.polys[id].1 <= cache.ring_ends.len());
            assert(eager.narrow() ==> fit_16_bits(rings)) by {
                if eager.narrow() {
                    assert forall|k: int, i: int|
                        0 <= k < rings.len() && 0 <= i < rings[k].len() implies vertex_fits(
                        #[trigger] rings[k][i],
                        2,
                    ) by {
                        let r = poly_begin(cache, id) + k;
                        assert(0 <= ring_begin(cache.ring_ends, r) <= cache.ring_ends[r]
                            <= cache.coords.len());
                        assert(rings[k][i] == cache.coords[ring_begin(cache.ring_ends, r) + i]);
                    }
                }
            }
            lemma_cache_claims_by_even_odd(cache, eager.narrow(), id, p);
        },
        None => if layout.geom == GeomEncoding::FullRings {
            let cache = full_cache(b, layout);
            let narrow = layout.quant_bits == QuantBits::Bits16;
            assert(narrow ==> fit_16_bits(rings)) by {
                if narrow {
                    assert forall|k: int, i: int|
                        0 <= k < rings.len() && 0 <= i < rings[k].len() implies vertex_fits(
                        #[trigger] rings[k][i],
                        2,
                    ) by {
                        let r = poly_begin(cache, id) + k;
                        let at = ring_begin(cache.ring_ends, r) + i;
                        assert(ring_begin(cache.ring_ends, r) <= cache.ring_ends[r]
                            <= layout.eager_coords);
                        if r > 0 {
                            assert(cache.ring_ends[r - 1] == full_end(b, layout, r - 1));
                        }
                        assert(rings[k][i] == cache.coords[at]);
                        assert(cache.coords[at] == full_vertex(b, layout, at));
                        lemma_vertex_at_fits(b, layout.full_coords + at * 4, 2);
                    }
                }
            }
            lemma_cache_claims_by_even_odd(cache, narrow, id, p);
        } else {
            lemma_arcs_claim_by_even_odd(b, layout, id, p);
        },
    }
}

/// The cell a probe lands on holds an in-range value.
proof fn lemma_probe_cell_ok(b: Seq<u8>, layout: PayloadLayout, probe: Probe)
    requires
        tables_wf(b, layout),
    ensures
        cell_ok(layout, probe_cell(b, layout, probe)),
{
    let row = clamped(probe.row as int, layout.nrows as int);
    let col = clamped(probe.col as int, layout.ncols as int);
    let (nrows, ncols) = (layout.nrows as int, layout.ncols as int);
    assert(0 <= row * ncols && row * ncols + col < ncols * nrows) by (nonlinear_arith)
        requires
            0 <= row,
            row + 1 <= nrows,
            0 <= col < ncols,
    ;
}

/// Whether the sections lie in the encoder's physical order: the zone strings
/// in front of the arc block, room for the parent table between that and the
/// grid, and the release string behind the grid.
pub open spec fn in_order(b: Seq<u8>, layout: PayloadLayout) -> bool {
    &&& layout.pool + string_offset(b, layout.n_features as int) <= layout.arc_offsets
    &&& layout.arc_offsets + 2 * layout.eager_polys <= layout.primary
    &&& layout.primary <= layout.release_off
}

/// How far the grid moves forward when the geometry is dropped.
pub open spec fn drop_shift(layout: PayloadLayout) -> int {
    layout.primary - (layout.arc_offsets + 2 * layout.eager_polys)
}

/// The payload without its geometry: the zone strings, the parent table, and
/// the grid tables with the release tail.
pub open spec fn dropped_bytes(b: Seq<u8>, layout: PayloadLayout) -> Seq<u8> {
    b.take(layout.arc_offsets as int) + b.subrange(
        layout.parent as int,
        layout.parent + 2 * layout.eager_polys,
    ) + b.skip(layout.primary as int)
}

/// The layout of the payload without its geometry. The dropped sections'
/// offsets are out of any payload's range.
pub open spec fn dropped_layout(layout: PayloadLayout) -> PayloadLayout {
    let shift = drop_shift(layout);
    PayloadLayout {
        sections_len: (layout.sections_len - shift) as usize,
        parent: layout.arc_offsets,
        primary: (layout.primary - shift) as usize,
        list_offsets: (layout.list_offsets - shift) as usize,
        list_ids: (layout.list_ids - shift) as usize,
        release_off: (layout.release_off - shift) as usize,
        arc_offsets: usize::MAX,
        arc_data: usize::MAX,
        poly_offsets: usize::MAX,
        ring_data: usize::MAX,
        ..layout
    }
}

/// Every table entry that lookups follow survives the drop.
proof fn lemma_dropped_entries(b: Seq<u8>, layout: PayloadLayout)
    requires
        tables_wf(b, layout),
        arcs_within(layout, b.len() as int),
        in_order(b, layout),
    ensures
        ({
            let (d, m) = (dropped_bytes(b, layout), dropped_layout(layout));
            &&& d.len() == m.sections_len
            &&& forall|i: int| 0 <= i < layout.arc_offsets ==> #[trigger] d[i] == b[i]
            &&& forall|i: int|
                0 <= i < layout.eager_polys ==> #[trigger] parent_at(d, m, i) == parent_at(
                    b,
                    layout,
                    i,
                )
            &&& forall|i: int|
                layout.primary <= i < b.len() ==> #[trigger] b[i] == d[i - drop_shift(layout)]
        }),
{
    let (d, m) = (dropped_bytes(b, layout), dropped_layout(layout));
    let (a, n) = (layout.arc_offsets as int, 2 * layout.eager_polys as int);
    assert(d.len() == a + n + (b.len() - layout.primary));
    assert forall|i: int| 0 <= i < layout.eager_polys implies #[trigger] parent_at(d, m, i)
        == parent_at(b, layout, i) by {
        assert(d[a + 2 * i] == b[layout.parent + 2 * i]);
        assert(d[a + 2 * i + 1] == b[layout.parent + 2 * i + 1]);
    }
}

/// Dropping the geometry keeps the tables consistent.
proof fn lemma_dropped_tables(b: Seq<u8>, layout: PayloadLayout)
    requires
        tables_wf(b, layout),
        arcs_within(layout, b.len() as int),
        in_order(b, layout),
    ensures
        tables_wf(dropped_bytes(b, layout), dropped_layout(layout)),
{
    let (d, m) = (dropped_bytes(b, layout), dropped_layout(layout));
    let shift = drop_shift(layout);
    lemma_dropped_entries(b, layout);
    assert(m.tables_within(d.len() as int));
    assert(strings_ok(d, m, m.n_features + 1)) by {
        assert forall|i: int| 0 <= i <= layout.n_features implies #[trigger] string_offset(d, i)
            == string_offset(b, i) by {
            assert(d[2 * i] == b[2 * i] && d[2 * i + 1] == b[2 * i + 1]);
        }
        let last = layout.n_features as int;
        assert(string_offset(d, last) == string_offset(b, last));
    }
    assert forall|i: int| 0 <= i < m.eager_polys implies #[trigger] parent_at(d, m, i)
        < m.n_features by {
        assert(parent_at(b, layout, i) < layout.n_features);
    }
    assert forall|i: int| 0 <= i <= m.uniq implies #[trigger] list_offset(d, m, i) == list_offset(
        b,
        layout,
        i,
    ) by {
        let at = layout.list_offsets + 2 * i;
        assert(b[at] == d[at - shift] && b[at + 1] == d[at + 1 - shift]);
    }
    assert(list_room(m) == list_room(layout));
    assert(list_offsets_ok(d, m, m.uniq + 1));
    lemma_list_room(b, layout);
    assert forall|i: int|
        0 <= i < list_offset(d, m, m.uniq as int) implies #[trigger] list_id(d, m, i)
        < m.eager_polys by {
        let at = layout.list_ids + 2 * i;
        assert(b[at] == d[at - shift] && b[at + 1] == d[at + 1 - shift]);
        assert(list_id(b, layout, i) < layout.eager_polys);
    }
    assert forall|i: int| 0 <= i < m.ncols * m.nrows implies cell_ok(
        m,
        #[trigger] cell_at(d, m, i) as u16,
    ) by {
        let at = layout.primary + 2 * i;
        assert(b[at] == d[at - shift] && b[at + 1] == d[at + 1 - shift]);
        assert(cell_ok(layout, cell_at(b, layout, i) as u16));
    }
}

/// Candidate lists end in front of the release string.
proof fn lemma_list_room(b: Seq<u8>, layout: PayloadLayout)
    requires
        tables_wf(b, layout),
    ensures
        list_offset(b, layout, layout.uniq as int) <= list_room(layout),
        list_offset(b, layout, layout.uniq as int) > 0 ==> layout.list_ids + 2 * list_offset(
            b,
            layout,
            layout.uniq as int,
        ) <= layout.release_off,
{
}

/// Dropping the geometry keeps the names.
proof fn lemma_dropped_names(b: Seq<u8>, layout: PayloadLayout, f: int)
    requires
        tables_wf(b, layout),
        arcs_within(layout, b.len() as int),
        in_order(b, layout),
        0 <= f < layout.n_features,
    ensures
        tzid_text(dropped_bytes(b, layout), dropped_layout(layout), f) == tzid_text(b, layout, f),
{
    let (d, m) = (dropped_bytes(b, layout), dropped_layout(layout));
    lemma_dropped_entries(b, layout);
    assert(string_offset(b, f) <= string_offset(b, f + 1));
    assert(string_offset(b, f + 1) <= string_offset(b, layout.n_features as int));
    assert(string_offset(b, f) == string_offset(d, f));
    assert(string_offset(b, f + 1) == string_offset(d, f + 1));
    let (lo, hi) = (layout.pool + string_offset(b, f), layout.pool + string_offset(b, f + 1));
    assert(d.subrange(lo, hi) =~= b.subrange(lo, hi));
}

/// Dropping the geometry keeps the cells.
proof fn lemma_dropped_cell(b: Seq<u8>, layout: PayloadLayout, probe: Probe)
    requires
        tables_wf(b, layout),
        arcs_within(layout, b.len() as int),
        in_order(b, layout),
    ensures
        probe_cell(dropped_bytes(b, layout), dropped_layout(layout), probe) == probe_cell(
            b,
            layout,
            probe,
        ),
{
    let (d, m) = (dropped_bytes(b, layout), dropped_layout(layout));
    let shift = drop_shift(layout);
    lemma_dropped_entries(b, layout);
    let row = clamped(probe.row as int, layout.nrows as int);
    let col = clamped(probe.col as int, layout.ncols as int);
    let (nrows, ncols) = (layout.nrows as int, layout.ncols as int);
    assert(0 <= row * ncols && row * ncols + col < ncols * nrows) by (nonlinear_arith)
        requires
            0 <= row,
            row + 1 <= nrows,
            0 <= col < ncols,
    ;
    let at = layout.primary + 2 * (row * ncols + col);
    assert(b[at] == d[at - shift] && b[at + 1] == d[at + 1 - shift]);
}

/// Dropping the geometry keeps the candidate lists, and what their entries are
/// named.
proof fn lemma_dropped_list(b: Seq<u8>, layout: PayloadLayout, l: int, e: int)
    requires
        tables_wf(b, layout),
        arcs_within(layout, b.len() as int),
        in_order(b, layout),
        0 <= l < layout.uniq,
    ensures
        ({
            let (d, m) = (dropped_bytes(b, layout), dropped_layout(layout));
            let (from, to) = (list_offset(b, layout, l), list_offset(b, layout, l + 1));
            &&& list_offset(d, m, l) == from
            &&& list_offset(d, m, l + 1) == to
            &&& from <= e < to ==> list_id(d, m, e) == list_id(b, layout, e) && entry_tzid(d, m, e)
                == entry_tzid(b, layout, e)
        }),
{
    let (d, m) = (dropped_bytes(b, layout), dropped_layout(layout));
    let shift = drop_shift(layout);
    lemma_dropped_entries(b, layout);
    lemma_list_bounds(b, layout, l);
    lemma_list_room(b, layout);
    let p0 = layout.list_offsets + 2 * l;
    assert(b[p0] == d[p0 - shift] && b[p0 + 1] == d[p0 + 1 - shift]);
    assert(b[p0 + 2] == d[p0 + 2 - shift] && b[p0 + 3] == d[p0 + 3 - shift]);
    let (from, to) = (list_offset(b, layout, l), list_offset(b, layout, l + 1));
    if from <= e < to {
        let q = layout.list_ids + 2 * e;
        assert(b[q] == d[q - shift] && b[q + 1] == d[q + 1 - shift]);
        let id = list_id(b, layout, e);
        assert(id < layout.eager_polys);
        assert(parent_at(d, m, id) == parent_at(b, layout, id));
        let f = parent_at(b, layout, id);
        assert(f < layout.n_features);
        lemma_dropped_names(b, layout, f);
    }
}

/// Dropping the geometry keeps what the tables say: the names, the cells, and
/// the candidate lists.
proof fn lemma_dropped_answers(
    b: Seq<u8>,
    layout: PayloadLayout,
    claims: spec_fn(int) -> bool,
    probe: Probe,
)
    requires
        tables_wf(b, layout),
        arcs_within(layout, b.len() as int),
        in_order(b, layout),
    ensures
        coarse_defined(b, layout, probe) ==> coarse_answer(
            dropped_bytes(b, layout),
            dropped_layout(layout),
            probe,
        ) == coarse_answer(b, layout, probe),
        answer(dropped_bytes(b, layout), dropped_layout(layout), claims, probe) == answer(
            b,
            layout,
            claims,
            probe,
        ),
{
    let (d, m) = (dropped_bytes(b, layout), dropped_layout(layout));
    lemma_probe_cell_ok(b, layout, probe);
    lemma_dropped_cell(b, layout, probe);
    match CellTag::of(probe_cell(b, layout, probe)) {
        CellTag::Empty => {},
        CellTag::Zone(feature) => {
            lemma_dropped_names(b, layout, feature as int);
        },
        CellTag::Border(list) => {
            let l = list as int;
            let (from, to) = (list_offset(b, layout, l), list_offset(b, layout, l + 1));
            assert forall|e: int| from <= e < to implies #[trigger] list_id(d, m, e) == list_id(
                b,
                layout,
                e,
            ) by {
                lemma_dropped_list(b, layout, l, e);
            }
            lemma_dropped_list(b, layout, l, from);
            lemma_first_claim_dropped(b, layout, claims, from, to);
            if let Some(e) = first_claim(b, layout, claims, from, to) {
                lemma_first_claim_range(b, layout, claims, from, to);
                lemma_dropped_list(b, layout, l, e);
            }
        },
    }
}

/// A claiming entry lies in the range searched.
proof fn lemma_first_claim_range(
    b: Seq<u8>,
    layout: PayloadLayout,
    claims: spec_fn(int) -> bool,
    from: int,
    to: int,
)
    ensures
        first_claim(b, layout, claims, from, to) matches Some(e) ==> from <= e < to,
    decreases to - from,
{
    if from < to {
        lemma_first_claim_range(b, layout, claims, from + 1, to);
    }
}

/// The search for a claiming entry sees the same lists after the drop.
proof fn lemma_first_claim_dropped(
    b: Seq<u8>,
    layout: PayloadLayout,
    claims: spec_fn(int) -> bool,
    from: int,
    to: int,
)
    requires
        forall|e: int|
            from <= e < to ==> #[trigger] list_id(
                dropped_bytes(b, layout),
                dropped_layout(layout),
                e,
            ) == list_id(b, layout, e),
    ensures
        first_claim(dropped_bytes(b, layout), dropped_layout(layout), claims, from, to)
            == first_claim(b, layout, claims, from, to),
    decreases to - from,
{
    if from < to {
        lemma_first_claim_dropped(b, layout, claims, from + 1, to);
        assert(list_id(dropped_bytes(b, layout), dropped_layout(layout), from) == list_id(
            b,
            layout,
            from,
        ));
    }
}

/// Dropping the encoded geometry of a preloaded finder keeps every answer,
/// accurate and coarse, and the release tag.
pub proof fn lemma_dropping_keeps_answers(full: Finder, slim: Finder, probe: Probe)
    requires
        full.wf(),
        full.cache() is Some,
        slim.cache() == full.cache(),
        arcs_within(full.layout_view(), full.bytes().len() as int),
        in_order(full.bytes(), full.layout_view()),
        slim.bytes() == dropped_bytes(full.bytes(), full.layout_view()),
        slim.layout_view() == dropped_layout(full.layout_view()),
    ensures
        slim.lookup_answer(probe) == full.lookup_answer(probe),
        coarse_defined(full.bytes(), full.layout_view(), probe) ==> coarse_answer(
            slim.bytes(),
            slim.layout_view(),
            probe,
        ) == coarse_answer(full.bytes(), full.layout_view(), probe),
        release_text(slim.bytes(), slim.layout_view()) == release_text(
            full.bytes(),
            full.layout_view(),
        ),
{
    let (b, layout) = (full.bytes(), full.layout_view());
    let p = (probe.x as int, probe.y as int);
    let claims = |id: int| full.poly_claims(id, p);
    lemma_dropped_answers(b, layout, claims, probe);
    lemma_dropped_entries(b, layout);
    assert((|id: int| slim.poly_claims(id, p)) =~= claims);
    let (d, m) = (slim.bytes(), slim.layout_view());
    let (lo, hi) = (layout.release_off as int, layout.release_off + layout.release_len);
    assert(d.subrange(m.release_off as int, m.release_off + m.release_len) =~= b.subrange(lo, hi));
}

/// A finder loaded straight to eager mode: without its encoded geometry where
/// that decodes and can be cut out, otherwise as loaded lazily.
pub open spec fn eager_loads_as(
    r: Result<Finder, Error>,
    expected: Result<(Seq<u8>, PayloadLayout), ErrorView>,
) -> bool {
    match r {
        Ok(finder) => finder.wf() && match expected {
            Ok((blob, layout)) => {
                if has_arcs(layout) && polys_ok(blob, layout) && cache_fits(blob, layout)
                    && in_order(blob, layout) {
                    &&& finder.bytes() == dropped_bytes(blob, layout)
                    &&& finder.layout_view() == dropped_layout(layout)
                    &&& finder.cache() == Some(
                        (
                            decode_spec(blob, layout, layout.eager_polys as int),
                            layout.quant_bits == QuantBits::Bits16,
                        ),
                    )
                } else {
                    &&& finder.bytes() == blob
                    &&& finder.layout_view() == layout
                    &&& finder.cache() is None
                }
            },
            Err(_) => false,
        },
        Err(error) => expected == Err::<(Seq<u8>, PayloadLayout), ErrorView>(error@),
    }
}

impl Finder {
    /// Whether the sections lie in the encoder's physical order.
    fn sections_in_order(&self) -> (ordered: bool)
        requires
            self.wf(),
            has_arcs(self.layout_view()),
        ensures
            ordered == in_order(self.bytes(), self.layout_view()),
    {
        let payload = self.payload_bytes();
        let len: usize = payload.len();
        let layout = &self.layout;
        let pool_end: u64 = layout.pool as u64 + read_u16(
            payload,
            layout.n_features as usize * 2,
        ) as u64;
        pool_end <= layout.arc_offsets as u64 && layout.arc_offsets as u128 + 2
            * layout.eager_polys as u128 <= layout.primary as u128 && layout.primary
            <= layout.release_off
    }

    /// Drops the encoded geometry of a preloaded finder, keeping the zone
    /// strings, the parent table, the grid, and the release tag.
    fn drop_geometry(self) -> (slim: Finder)
        requires
            self.wf(),
            self.cache() is Some,
            arcs_within(self.layout_view(), self.bytes().len() as int),
            in_order(self.bytes(), self.layout_view()),
        ensures
            slim.wf(),
            slim.bytes() == dropped_bytes(self.bytes(), self.layout_view()),
            slim.layout_view() == dropped_layout(self.layout_view()),
            slim.cache() == self.cache(),
    {
        proof {
            lemma_dropped_tables(self.bytes(), self.layout);
        }
        let ghost before = self.bytes();
        let ghost old_layout = self.layout;
        let payload = self.payload_bytes();
        let len: usize = payload.len();
        let mut layout = self.layout;
        let parent_len: usize = layout.eager_polys as usize * 2;
        let mut kept: Vec<u8> = Vec::new();
        push_bytes(&mut kept, vstd::slice::slice_subrange(payload, 0, layout.arc_offsets));
        push_bytes(
            &mut kept,
            vstd::slice::slice_subrange(payload, layout.parent, layout.parent + parent_len),
        );
        push_bytes(&mut kept, vstd::slice::slice_subrange(payload, layout.primary, len));
        assert(kept@ =~= dropped_bytes(before, old_layout));
        let shift: usize = layout.primary - (layout.arc_offsets + parent_len);
        layout.sections_len = layout.sections_len - shift;
        layout.parent = layout.arc_offsets;
        layout.primary = layout.primary - shift;
        layout.list_offsets = layout.list_offsets - shift;
        layout.list_ids = layout.list_ids - shift;
        layout.release_off = layout.release_off - shift;
        // any residual use of the dropped sections is out of range
        layout.arc_offsets = usize::MAX;
        layout.arc_data = usize::MAX;
        layout.poly_offsets = usize::MAX;
        layout.ring_data = usize::MAX;
        assert(layout == dropped_layout(old_layout));
        Finder { payload: Payload::Owned(kept), layout, eager: self.eager }
    }

    /// Decodes straight to eager mode: all polygons are decoded up front and
    /// the encoded geometry is dropped. An asset whose payload is the cache
    /// already, or holds no geometry, stays as loaded; so does one whose
    /// geometry does not decode or whose sections are out of order.
    pub fn eager_from_slice(bytes: &[u8]) -> (r: Result<Finder, Error>)
        ensures
            eager_loads_as(r, load_spec(bytes@)),
    {
        let mut finder = match Finder::from_slice(bytes) {
            Ok(finder) => finder,
            Err(error) => return Err(error),
        };
        match finder.layout.geom {
            GeomEncoding::FullRings | GeomEncoding::Coarse => return Ok(finder),
            _ => {},
        }
        if !finder.sections_in_order() || !finder.try_preload() {
            return Ok(finder);
        }
        Ok(finder.drop_geometry())
    }
}

/// Loading straight to eager mode keeps every answer: on an asset whose rings
/// are stored closed, the finder without encoded geometry answers each probe
/// as the lazily loaded one does.
pub proof fn lemma_eager_load_keeps_answers(lazy: Finder, slim: Finder, probe: Probe)
    requires
        lazy.wf(),
        lazy.undecoded(),
        lazy.decodable(),
        in_order(lazy.bytes(), lazy.layout_view()),
        slim.bytes() == dropped_bytes(lazy.bytes(), lazy.layout_view()),
        slim.layout_view() == dropped_layout(lazy.layout_view()),
        slim.cache() == Some(lazy.decoded()),
        forall|id: int|
            0 <= id < lazy.layout_view().eager_polys ==> #[trigger] rings_closed(
                lazy.bytes(),
                lazy.layout_view(),
                id,
            ),
    ensures
        slim.lookup_answer(probe) == lazy.lookup_answer(probe),
{
    let (b, layout) = (lazy.bytes(), lazy.layout_view());
    let p = (probe.x as int, probe.y as int);
    let one = |id: int| lazy.poly_claims(id, p);
    let other = |id: int| slim.poly_claims(id, p);
    lemma_dropped_answers(b, layout, other, probe);
    lemma_probe_cell_ok(b, layout, probe);
    if let CellTag::Border(list) = CellTag::of(probe_cell(b, layout, probe)) {
        let from = list_offset(b, layout, list as int);
        let to = list_offset(b, layout, list + 1);
        lemma_list_bounds(b, layout, list as int);
        assert forall|entry: int| from <= entry < to implies one(
            #[trigger] list_id(b, layout, entry),
        ) == other(list_id(b, layout, entry)) by {
            let id = list_id(b, layout, entry);
            assert(rings_closed(b, layout, id));
            lemma_eager_agrees(b, layout, id, p);
        }
        lemma_first_claim_same(b, layout, one, other, from, to);
    }
}

/// Lazy and eager loading refuse the same assets, with the same error.
pub proof fn lemma_loaders_refuse_alike(b: Seq<u8>, error: Error)
    ensures
        eager_loads_as(Err(error), load_spec(b)) == loads_as(Err(error), load_spec(b)),
{
}

/// The memory mode does not show: on an asset whose rings are stored closed, the
/// finder loaded lazily, the one preloaded after that and the one loaded
/// straight to eager mode give the same answers, accurate and coarse, and the
/// same release tag.
pub proof fn lemma_memory_modes_agree(
    b: Seq<u8>,
    lazy: Finder,
    preloaded: Finder,
    eager: Finder,
    probe: Probe,
)
    requires
        loads_as(Ok(lazy), load_spec(b)),
        lazy.undecoded() ==> lazy.decodable(),
        preloaded.wf(),
        preloaded.bytes() == lazy.bytes(),
        preloaded.layout_view() == lazy.layout_view(),
        preloaded.cache() == if lazy.undecoded() {
            Some(lazy.decoded())
        } else {
            lazy.cache()
        },
        eager_loads_as(Ok(eager), load_spec(b)),
        has_arcs(lazy.layout_view()) ==> forall|id: int|
            0 <= id < lazy.layout_view().eager_polys ==> #[trigger] rings_closed(
                lazy.bytes(),
                lazy.layout_view(),
                id,
            ),
        coarse_defined(lazy.bytes(), lazy.layout_view(), probe),
    ensures
        preloaded.lookup_answer(probe) == lazy.lookup_answer(probe),
        eager.lookup_answer(probe) == lazy.lookup_answer(probe),
        coarse_answer(preloaded.bytes(), preloaded.layout_view(), probe) == coarse_answer(
            lazy.bytes(),
            lazy.layout_view(),
            probe,
        ),
        coarse_answer(eager.bytes(), eager.layout_view(), probe) == coarse_answer(
            lazy.bytes(),
            lazy.layout_view(),
            probe,
        ),
        release_text(preloaded.bytes(), preloaded.layout_view()) == release_text(
            lazy.bytes(),
            lazy.layout_view(),
        ),
        release_text(eager.bytes(), eager.layout_view()) == release_text(
            lazy.bytes(),
            lazy.layout_view(),
        ),
{
    let p = (probe.x as int, probe.y as int);
    let claims = |id: int| lazy.poly_claims(id, p);
    if has_arcs(lazy.layout_view()) {
        lemma_preload_keeps_answers(lazy, preloaded, probe);
        if in_order(lazy.bytes(), lazy.layout_view()) {
            lemma_eager_load_keeps_answers(lazy, eager, probe);
            lemma_dropping_keeps_answers(preloaded, eager, probe);
        } else {
            assert((|id: int| eager.poly_claims(id, p)) =~= claims);
        }
    } else {
        assert((|id: int| preloaded.poly_claims(id, p)) =~= claims);
        assert((|id: int| eager.poly_claims(id, p)) =~= claims);
    }
}

} // verus!
