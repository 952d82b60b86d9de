//! The types shared by the encoder and the reader: the asset enums and their
//! header bytes, the primary-grid cell tag, the payload header record, and
//! the deterministic generator behind every reproducible sampler.

use vstd::prelude::*;

use crate::text::str_eq;

verus! {

/// The magic bytes every asset starts with, ASCII `uTZ1`.
pub const MAGIC: [u8; 4] = [0x75, 0x54, 0x5A, 0x31];

/// The container-format version the reader accepts.
pub const VERSION: u8 = 11;

/// The byte length of the container prologue: magic (4), version (1), and 3
/// reserved bytes.
pub const PROLOGUE_LEN: usize = 8;

/// [`PayloadHeader`]'s serialized size. The section blob starts at
/// `PROLOGUE_LEN + PAYLOAD_HEADER_LEN`.
pub const PAYLOAD_HEADER_LEN: usize = 64;

/// The primary grid table's "no zone covers this cell" marker (all 15 id bits
/// set).
pub const NO_ZONE: u16 = 0x7FFF;

/// A primary-grid cell's border flag: the high bit set means the low 15 bits
/// index a candidate list instead of naming a zone.
pub const BORDER_FLAG: u16 = 0x8000;

/// The mask selecting a primary-grid cell's 15-bit value.
pub const CELL_ID_MASK: u16 = 0x7FFF;

/// Knuth's MMIX LCG multiplier.
pub const MMIX_MUL: u64 = 0x5851_F42D_4C95_7F2D;

/// Knuth's MMIX LCG increment.
pub const MMIX_ADD: u64 = 0x1405_7B7E_F767_814F;

/// The seed for point sampling in benches and measurements.
pub const POINT_SEED: u64 = 0x1234_5678;

/// The seed for pseudo-random payload bytes.
pub const PAYLOAD_SEED: u64 = 0x757a_7472_6970;

/// One decoded primary-grid cell.
#[derive(Debug, Clone, Copy, PartialEq, Eq, Structural)]
pub enum CellTag {
    /// No zone covers the cell.
    Empty,
    /// A single zone covers the cell.
    Zone(u16),
    /// A zone boundary passes through the cell; the value indexes the cell's
    /// candidate list.
    Border(u16),
}

impl CellTag {
    /// The tag a cell value stands for.
    pub open spec fn of(cell: u16) -> CellTag {
        if cell >= 0x8000 {
            CellTag::Border((cell - 0x8000) as u16)
        } else if cell == NO_ZONE {
            CellTag::Empty
        } else {
            CellTag::Zone(cell)
        }
    }

    /// Decodes a primary-table cell value.
    #[must_use]
    pub fn from_cell(cell: u16) -> (tag: CellTag)
        ensures
            tag == CellTag::of(cell),
    {
        assert(cell & 0x8000u16 != 0 <==> cell >= 0x8000) by (bit_vector);
        assert(cell >= 0x8000 ==> cell & 0x7FFFu16 == cell - 0x8000) by (bit_vector);
        if cell & BORDER_FLAG != 0 {
            CellTag::Border(cell & CELL_ID_MASK)
        } else if cell == NO_ZONE {
            CellTag::Empty
        } else {
            CellTag::Zone(cell)
        }
    }
}

/// The coordinate quantization width: how many bits each stored coordinate
/// occupies (the header byte is the bit count).
#[derive(Debug, Clone, Copy, PartialEq, Eq, Structural)]
pub enum QuantBits {
    Bits16,
    Bits24,
    Bits32,
}

impl QuantBits {
    /// The width in bits.
    pub open spec fn width(self) -> int {
        match self {
            QuantBits::Bits16 => 16,
            QuantBits::Bits24 => 24,
            QuantBits::Bits32 => 32,
        }
    }

    /// The bytes per stored coordinate.
    pub open spec fn size(self) -> int {
        self.width() / 8
    }

    /// The width in bits.
    #[must_use]
    pub fn bits(self) -> (bits: u32)
        ensures
            bits == self.width(),
    {
        match self {
            QuantBits::Bits16 => 16,
            QuantBits::Bits24 => 24,
            QuantBits::Bits32 => 32,
        }
    }

    /// The number of bytes per stored coordinate (2 / 3 / 4).
    #[must_use]
    pub fn bytes(self) -> (n: usize)
        ensures
            n == self.size(),
            2 <= n <= 4,
    {
        match self {
            QuantBits::Bits16 => 2,
            QuantBits::Bits24 => 3,
            QuantBits::Bits32 => 4,
        }
    }

    /// The width a header byte names, if any.
    pub open spec fn of_byte(byte: u8) -> Option<QuantBits> {
        if byte == 16 {
            Some(QuantBits::Bits16)
        } else if byte == 24 {
            Some(QuantBits::Bits24)
        } else if byte == 32 {
            Some(QuantBits::Bits32)
        } else {
            None
        }
    }

    /// The width a header byte names, if any.
    #[must_use]
    pub fn from_byte(byte: u8) -> (width: Option<QuantBits>)
        ensures
            width == QuantBits::of_byte(byte),
    {
        match byte {
            16 => Some(QuantBits::Bits16),
            24 => Some(QuantBits::Bits24),
            32 => Some(QuantBits::Bits32),
            _ => None,
        }
    }
}

/// The geometry encoding, which decides how an asset stores its polygons and
/// how lookups read them. The three polygon encodings answer identically;
/// `Coarse` drops the polygons and answers at grid-cell precision.
#[derive(Debug, Clone, Copy, PartialEq, Eq, Structural)]
pub enum GeomEncoding {
    /// Shared arcs as delta + zigzag-varint streams.
    VarintArcs,
    /// Shared arcs as absolute quant-width coordinates.
    FixedWidthArcs,
    /// Each ring in full: quant-width pairs plus ring/poly index tables.
    FullRings,
    /// Grid only; no geometry at all.
    Coarse,
}

impl GeomEncoding {
    /// The encoding a header byte names, if any.
    pub open spec fn of_byte(byte: u8) -> Option<GeomEncoding> {
        if byte == 0 {
            Some(GeomEncoding::VarintArcs)
        } else if byte == 1 {
            Some(GeomEncoding::FixedWidthArcs)
        } else if byte == 2 {
            Some(GeomEncoding::FullRings)
        } else if byte == 3 {
            Some(GeomEncoding::Coarse)
        } else {
            None
        }
    }

    /// The encoding a header byte names, if any.
    #[must_use]
    pub fn from_byte(byte: u8) -> (geom: Option<GeomEncoding>)
        ensures
            geom == GeomEncoding::of_byte(byte),
    {
        match byte {
            0 => Some(GeomEncoding::VarintArcs),
            1 => Some(GeomEncoding::FixedWidthArcs),
            2 => Some(GeomEncoding::FullRings),
            3 => Some(GeomEncoding::Coarse),
            _ => None,
        }
    }

    /// The header byte of this encoding.
    pub open spec fn code(self) -> u8 {
        match self {
            GeomEncoding::VarintArcs => 0,
            GeomEncoding::FixedWidthArcs => 1,
            GeomEncoding::FullRings => 2,
            GeomEncoding::Coarse => 3,
        }
    }

    /// The header byte of this encoding.
    #[must_use]
    pub fn byte(self) -> (byte: u8)
        ensures
            byte == self.code(),
            GeomEncoding::of_byte(byte) == Some(self),
    {
        match self {
            GeomEncoding::VarintArcs => 0,
            GeomEncoding::FixedWidthArcs => 1,
            GeomEncoding::FullRings => 2,
            GeomEncoding::Coarse => 3,
        }
    }
}

impl Default for GeomEncoding {
    fn default() -> (geom: GeomEncoding)
        ensures
            geom == GeomEncoding::VarintArcs,
    {
        GeomEncoding::VarintArcs
    }
}

/// The simplification algorithm an asset was generated with.
#[derive(Debug, Clone, Copy, PartialEq, Eq, Structural)]
pub enum SimplifyAlgorithm {
    /// The geometry is stored as sourced.
    Unsimplified,
    /// Ramer-Douglas-Peucker.
    Rdp,
    /// Visvalingam-Whyatt.
    Visvalingam,
    /// Imai-Iri.
    ImaiIri,
}

impl SimplifyAlgorithm {
    /// The algorithm a header byte names, if any.
    pub open spec fn of_byte(byte: u8) -> Option<SimplifyAlgorithm> {
        if byte == 0 {
            Some(SimplifyAlgorithm::Unsimplified)
        } else if byte == 1 {
            Some(SimplifyAlgorithm::Rdp)
        } else if byte == 2 {
            Some(SimplifyAlgorithm::Visvalingam)
        } else if byte == 3 {
            Some(SimplifyAlgorithm::ImaiIri)
        } else {
            None
        }
    }

    /// The algorithm a header byte names, if any.
    #[must_use]
    pub fn from_byte(byte: u8) -> (algorithm: Option<SimplifyAlgorithm>)
        ensures
            algorithm == SimplifyAlgorithm::of_byte(byte),
    {
        match byte {
            0 => Some(SimplifyAlgorithm::Unsimplified),
            1 => Some(SimplifyAlgorithm::Rdp),
            2 => Some(SimplifyAlgorithm::Visvalingam),
            3 => Some(SimplifyAlgorithm::ImaiIri),
            _ => None,
        }
    }

    /// The header byte of this algorithm.
    #[must_use]
    pub fn byte(self) -> (byte: u8)
        ensures
            SimplifyAlgorithm::of_byte(byte) == Some(self),
    {
        match self {
            SimplifyAlgorithm::Unsimplified => 0,
            SimplifyAlgorithm::Rdp => 1,
            SimplifyAlgorithm::Visvalingam => 2,
            SimplifyAlgorithm::ImaiIri => 3,
        }
    }
}

impl Default for SimplifyAlgorithm {
    fn default() -> (algorithm: SimplifyAlgorithm)
        ensures
            algorithm == SimplifyAlgorithm::Rdp,
    {
        SimplifyAlgorithm::Rdp
    }
}

/// The compression applied to an asset's payload.
#[derive(Debug, Clone, Copy, PartialEq, Eq, Structural)]
pub enum Codec {
    Uncompressed,
    Gzip,
    Zstd,
    Brotli,
    Xz,
}

impl Codec {
    /// The codec a header byte names, if any.
    pub open spec fn of_byte(byte: u8) -> Option<Codec> {
        if byte == 0 {
            Some(Codec::Uncompressed)
        } else if byte == 1 {
            Some(Codec::Gzip)
        } else if byte == 2 {
            Some(Codec::Zstd)
        } else if byte == 3 {
            Some(Codec::Brotli)
        } else if byte == 4 {
            Some(Codec::Xz)
        } else {
            None
        }
    }

    /// The codec a header byte names, if any.
    #[must_use]
    pub fn from_byte(byte: u8) -> (codec: Option<Codec>)
        ensures
            codec == Codec::of_byte(byte),
    {
        match byte {
            0 => Some(Codec::Uncompressed),
            1 => Some(Codec::Gzip),
            2 => Some(Codec::Zstd),
            3 => Some(Codec::Brotli),
            4 => Some(Codec::Xz),
            _ => None,
        }
    }

    /// The header byte of this codec.
    pub open spec fn code(self) -> u8 {
        match self {
            Codec::Uncompressed => 0,
            Codec::Gzip => 1,
            Codec::Zstd => 2,
            Codec::Brotli => 3,
            Codec::Xz => 4,
        }
    }

    /// The header byte of this codec.
    #[must_use]
    pub fn byte(self) -> (byte: u8)
        ensures
            byte == self.code(),
            Codec::of_byte(byte) == Some(self),
    {
        match self {
            Codec::Uncompressed => 0,
            Codec::Gzip => 1,
            Codec::Zstd => 2,
            Codec::Brotli => 3,
            Codec::Xz => 4,
        }
    }
}

/// The dataset an asset was built from: a zone set times ocean coverage. The
/// header byte keeps the zone set in bits 0-1 and land-only in bit 2.
#[derive(Debug, Clone, Copy, PartialEq, Eq, Structural)]
pub enum Dataset {
    /// Zones whose rules are identical from today onward are merged.
    Now,
    /// Zones identical since 1970 are merged.
    Since1970,
    /// Every distinct tzid is kept.
    All,
    /// `Now` without maritime zones.
    NowLandOnly,
    /// `Since1970` without maritime zones.
    Since1970LandOnly,
    /// `All` without maritime zones.
    AllLandOnly,
}

impl Dataset {
    /// The canonical name's text.
    pub open spec fn name_text(self) -> Seq<char> {
        match self {
            Dataset::Now => "now"@,
            Dataset::Since1970 => "1970"@,
            Dataset::All => "all"@,
            Dataset::NowLandOnly => "land-now"@,
            Dataset::Since1970LandOnly => "land-1970"@,
            Dataset::AllLandOnly => "land-all"@,
        }
    }

    /// The zone-set half of the name.
    pub open spec fn zone_set_text(self) -> Seq<char> {
        match self {
            Dataset::Now | Dataset::NowLandOnly => "now"@,
            Dataset::Since1970 | Dataset::Since1970LandOnly => "1970"@,
            Dataset::All | Dataset::AllLandOnly => "all"@,
        }
    }

    /// Whether maritime timezones cover the oceans.
    pub open spec fn covers_oceans(self) -> bool {
        self is Now || self is Since1970 || self is All
    }

    /// Returns the canonical dataset name (`now`, `1970`, or `all`, with a
    /// `land-` prefix for the land-only variants).
    #[must_use]
    pub fn name(self) -> (name: &'static str)
        ensures
            name@ == self.name_text(),
    {
        match self {
            Dataset::Now => "now",
            Dataset::Since1970 => "1970",
            Dataset::All => "all",
            Dataset::NowLandOnly => "land-now",
            Dataset::Since1970LandOnly => "land-1970",
            Dataset::AllLandOnly => "land-all",
        }
    }

    /// The zone-set half of the name (`"now"`, `"1970"`, or `"all"`).
    #[must_use]
    pub fn zone_set(self) -> (name: &'static str)
        ensures
            name@ == self.zone_set_text(),
    {
        match self {
            Dataset::Now | Dataset::NowLandOnly => "now",
            Dataset::Since1970 | Dataset::Since1970LandOnly => "1970",
            Dataset::All | Dataset::AllLandOnly => "all",
        }
    }

    /// Whether maritime timezones cover the oceans (`false` names the `land-`
    /// releases).
    #[must_use]
    pub fn oceans(self) -> (covered: bool)
        ensures
            covered == self.covers_oceans(),
    {
        match self {
            Dataset::Now | Dataset::Since1970 | Dataset::All => true,
            _ => false,
        }
    }

    /// The dataset a header byte names, if any.
    pub open spec fn of_byte(byte: u8) -> Option<Dataset> {
        if byte == 0 {
            Some(Dataset::Now)
        } else if byte == 1 {
            Some(Dataset::Since1970)
        } else if byte == 2 {
            Some(Dataset::All)
        } else if byte == 4 {
            Some(Dataset::NowLandOnly)
        } else if byte == 5 {
            Some(Dataset::Since1970LandOnly)
        } else if byte == 6 {
            Some(Dataset::AllLandOnly)
        } else {
            None
        }
    }

    /// The dataset a header byte names, if any.
    #[must_use]
    pub fn from_byte(byte: u8) -> (dataset: Option<Dataset>)
        ensures
            dataset == Dataset::of_byte(byte),
    {
        match byte {
            0 => Some(Dataset::Now),
            1 => Some(Dataset::Since1970),
            2 => Some(Dataset::All),
            4 => Some(Dataset::NowLandOnly),
            5 => Some(Dataset::Since1970LandOnly),
            6 => Some(Dataset::AllLandOnly),
            _ => None,
        }
    }

    /// The header byte of this dataset.
    #[must_use]
    pub fn code(self) -> (byte: u8)
        ensures
            Dataset::of_byte(byte) == Some(self),
    {
        match self {
            Dataset::Now => 0,
            Dataset::Since1970 => 1,
            Dataset::All => 2,
            Dataset::NowLandOnly => 4,
            Dataset::Since1970LandOnly => 5,
            Dataset::AllLandOnly => 6,
        }
    }

    /// The dataset a name selects, if any: the canonical names, and the
    /// legacy `osm` / `osm1970` spellings of the first two.
    pub open spec fn named(text: Seq<char>) -> Option<Dataset> {
        if text == "now"@ || text == "osm"@ {
            Some(Dataset::Now)
        } else if text == "1970"@ || text == "osm1970"@ {
            Some(Dataset::Since1970)
        } else if text == "all"@ {
            Some(Dataset::All)
        } else if text == "land-now"@ {
            Some(Dataset::NowLandOnly)
        } else if text == "land-1970"@ {
            Some(Dataset::Since1970LandOnly)
        } else if text == "land-all"@ {
            Some(Dataset::AllLandOnly)
        } else {
            None
        }
    }

    /// Parses a dataset name (`[land-]now|1970|all`; the legacy `osm` and
    /// `osm1970` are accepted).
    #[must_use]
    pub fn from_name(name: &str) -> (dataset: Option<Dataset>)
        ensures
            dataset == Dataset::named(name@),
    {
        if str_eq(name, "now") || str_eq(name, "osm") {
            Some(Dataset::Now)
        } else if str_eq(name, "1970") || str_eq(name, "osm1970") {
            Some(Dataset::Since1970)
        } else if str_eq(name, "all") {
            Some(Dataset::All)
        } else if str_eq(name, "land-now") {
            Some(Dataset::NowLandOnly)
        } else if str_eq(name, "land-1970") {
            Some(Dataset::Since1970LandOnly)
        } else if str_eq(name, "land-all") {
            Some(Dataset::AllLandOnly)
        } else {
            None
        }
    }
}

/// The canonical name of a dataset is the spelling the parser accepts: it
/// names that very dataset.
pub proof fn lemma_dataset_name_round_trips(dataset: Dataset)
    ensures
        Dataset::named(dataset.name_text()) == Some(dataset),
{
    reveal_strlit("now");
    reveal_strlit("osm");
    reveal_strlit("1970");
    reveal_strlit("osm1970");
    reveal_strlit("all");
    reveal_strlit("land-now");
    reveal_strlit("land-1970");
    reveal_strlit("land-all");
    assert("now"@.len() == 3 && "osm"@.len() == 3 && "all"@.len() == 3);
    assert("1970"@.len() == 4 && "osm1970"@.len() == 7);
    assert("land-now"@.len() == 8 && "land-1970"@.len() == 9 && "land-all"@.len() == 8);
    assert("now"@[0] == 'n' && "osm"@[0] == 'o' && "all"@[0] == 'a');
    assert("land-now"@[5] == 'n' && "land-all"@[5] == 'a');
}

/// The dataset byte is the zone set plus a land-only flag of weight four.
pub proof fn lemma_dataset_byte_layout(byte: u8)
    ensures
        Dataset::of_byte(byte) matches Some(dataset) ==> {
            &&& byte < 8
            &&& byte % 4 < 3
            &&& dataset.covers_oceans() <==> byte < 4
            &&& Dataset::of_byte((byte % 4) as u8) matches Some(ocean) && ocean.zone_set_text()
                == dataset.zone_set_text()
        },
{
}

/// A minimal MMIX LCG for reproducible test and bench data.
pub struct Lcg(pub u64);

impl Lcg {
    #[must_use]
    pub fn new(seed: u64) -> (lcg: Self)
        ensures
            lcg.0 == seed,
    {
        Lcg(seed)
    }

    /// Advances and returns the full 64-bit state.
    pub fn next_u64(&mut self) -> (state: u64)
        ensures
            state == (old(self).0 * MMIX_MUL + MMIX_ADD) % 0x1_0000_0000_0000_0000,
            final(self).0 == state,
    {
        let scaled: u64 = self.0.wrapping_mul(MMIX_MUL);
        let next: u64 = scaled.wrapping_add(MMIX_ADD);
        proof {
            let m: int = 0x1_0000_0000_0000_0000;
            let product: int = self.0 * MMIX_MUL;
            assert(scaled == product % m);
            assert((product % m + MMIX_ADD) % m == (product + MMIX_ADD) % m) by {
                vstd::arithmetic::div_mod::lemma_add_mod_noop(product, MMIX_ADD as int, m);
                vstd::arithmetic::div_mod::lemma_add_mod_noop(product % m, MMIX_ADD as int, m);
                vstd::arithmetic::div_mod::lemma_mod_twice(product, m);
            }
        }
        self.0 = next;
        self.0
    }
}

/// A cell names a zone by its number, a candidate list by its number above
/// 32768, and nothing by 32767.
pub proof fn lemma_cells_split_in_halves(number: u16)
    requires
        number < 0x8000,
    ensures
        number != 0x7FFF ==> CellTag::of(number) == CellTag::Zone(number),
        CellTag::of(0x7FFF) == CellTag::Empty,
        CellTag::of((32768 + number) as u16) == CellTag::Border(number),
{
}

/// Every header byte names at most one of each kind, and the byte that stands
/// for something names it.
pub proof fn lemma_header_bytes_name_back(byte: u8)
    ensures
        QuantBits::of_byte(byte) matches Some(q) ==> q.width() == byte && q.size() * 8 == byte,
        GeomEncoding::of_byte(byte) matches Some(g) ==> g.code() == byte,
        Codec::of_byte(byte) matches Some(c) ==> c.code() == byte,
        QuantBits::of_byte(byte) is Some <==> byte == 16 || byte == 24 || byte == 32,
        GeomEncoding::of_byte(byte) is Some <==> byte < 4,
        SimplifyAlgorithm::of_byte(byte) is Some <==> byte < 4,
        Codec::of_byte(byte) is Some <==> byte < 5,
        Dataset::of_byte(byte) is Some <==> byte < 7 && byte != 3,
{
}

/// A dataset is named by its zone set, alone or behind `land-`, and by two legacy
/// names; nothing else names one.
pub proof fn lemma_only_known_datasets(text: Seq<char>)
    ensures
        Dataset::named(text) == Some(Dataset::Now) <==> text == "now"@ || text == "osm"@,
        Dataset::named(text) == Some(Dataset::Since1970) <==> text == "1970"@ || text == "osm1970"@,
        Dataset::named(text) == Some(Dataset::All) <==> text == "all"@,
        Dataset::named(text) == Some(Dataset::NowLandOnly) <==> text == "land-now"@,
        Dataset::named(text) == Some(Dataset::Since1970LandOnly) <==> text == "land-1970"@,
        Dataset::named(text) == Some(Dataset::AllLandOnly) <==> text == "land-all"@,
{
    reveal_strlit("now");
    reveal_strlit("osm");
    reveal_strlit("1970");
    reveal_strlit("osm1970");
    reveal_strlit("all");
    reveal_strlit("land-now");
    reveal_strlit("land-1970");
    reveal_strlit("land-all");
    assert("now"@.len() == 3 && "osm"@.len() == 3 && "all"@.len() == 3);
    assert("1970"@.len() == 4 && "osm1970"@.len() == 7);
    assert("land-now"@.len() == 8 && "land-1970"@.len() == 9 && "land-all"@.len() == 8);
    assert("now"@[0] == 'n' && "osm"@[0] == 'o' && "all"@[0] == 'a');
    assert("land-now"@[5] == 'n' && "land-all"@[5] == 'a');
}

} // verus!
