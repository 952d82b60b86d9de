//! The container's one fixed header record, which carries everything the
//! reader needs to locate every section. It sits in plaintext right after the
//! prologue; only the section blob after it is compressed.

use vstd::prelude::*;

use crate::bytes::{bytes_eq_at, le_bytes, push_u16, push_u32, u16_at, u32_at};
use crate::common::{
    Codec, Dataset, GeomEncoding, QuantBits, SimplifyAlgorithm, MAGIC, PAYLOAD_HEADER_LEN,
    PROLOGUE_LEN, VERSION,
};

verus! {

/// The payload header. Field order is the wire order, every integer is
/// little-endian, and all offsets are relative to the section blob.
#[derive(Debug, Clone, Copy, PartialEq, Eq, Structural)]
pub struct PayloadHeader {
    /// The offset of the arc store, or of the `FullRings` coordinates.
    pub arcs_off: u32,
    /// The offset of the poly-to-feature parent table (plus the ring records
    /// of the arc encodings).
    pub rings_off: u32,
    /// The offset of the grid tables.
    pub grid_off: u32,
    /// The offset of the TZBB release string.
    pub release_off: u32,
    /// The eager-cache coordinate count (may only over-estimate for the arc
    /// encodings).
    pub eager_coords: u32,
    pub eager_rings: u32,
    pub eager_polys: u32,
    /// The arc count, zero when there is no arc store.
    pub n_arcs: u32,
    /// The section blob's decompressed size.
    pub raw_len: u32,
    /// The grid cell size in degrees, as the bit pattern of an IEEE-754
    /// single.
    pub grid_deg: u32,
    /// The simplification tolerance in meters, as the bit pattern of an
    /// IEEE-754 single.
    pub epsilon_m: u32,
    pub n_features: u16,
    /// The grid's column count.
    pub ncols: u16,
    /// The grid's row count.
    pub nrows: u16,
    /// The number of distinct border-cell candidate lists.
    pub uniq: u16,
    pub release_len: u16,
    /// Reserved, must be zero.
    pub flags: u16,
    pub dataset: Dataset,
    pub quant_bits: QuantBits,
    pub simplify_algorithm: SimplifyAlgorithm,
    pub geom: GeomEncoding,
    /// The section blob's compression codec.
    pub codec: Codec,
    /// The population-density weight floor in fixed-point 1e-4.
    pub density_weight_floor_e4: u16,
    /// Reserved, must be zero.
    pub reserved: u8,
}

/// Why a header record could not be read.
#[derive(Debug, Clone, Copy, PartialEq, Eq, Structural)]
pub enum HeaderFault {
    /// The bytes end inside the record.
    Short,
    /// An enum byte names no variant.
    BadByte,
}

/// Whether the enum byte at `k` is present and names nothing.
pub open spec fn bad_byte(b: Seq<u8>, k: int) -> bool {
    &&& k < b.len()
    &&& {
        ||| k == 56 && Dataset::of_byte(b[k]) is None
        ||| k == 57 && QuantBits::of_byte(b[k]) is None
        ||| k == 58 && SimplifyAlgorithm::of_byte(b[k]) is None
        ||| k == 59 && GeomEncoding::of_byte(b[k]) is None
        ||| k == 60 && Codec::of_byte(b[k]) is None
    }
}

/// The header record at the start of `b`. Fields are read in wire order: an
/// enum byte that is present and names nothing is a bad byte even when the
/// record is cut short behind it.
pub open spec fn header_of(b: Seq<u8>) -> Result<PayloadHeader, HeaderFault> {
    if exists|k: int| 56 <= k <= 60 && #[trigger] bad_byte(b, k) {
        Err(HeaderFault::BadByte)
    } else if b.len() < PAYLOAD_HEADER_LEN {
        Err(HeaderFault::Short)
    } else {
        Ok(
            PayloadHeader {
                arcs_off: u32_at(b, 0) as u32,
                rings_off: u32_at(b, 4) as u32,
                grid_off: u32_at(b, 8) as u32,
                release_off: u32_at(b, 12) as u32,
                eager_coords: u32_at(b, 16) as u32,
                eager_rings: u32_at(b, 20) as u32,
                eager_polys: u32_at(b, 24) as u32,
                n_arcs: u32_at(b, 28) as u32,
                raw_len: u32_at(b, 32) as u32,
                grid_deg: u32_at(b, 36) as u32,
                epsilon_m: u32_at(b, 40) as u32,
                n_features: u16_at(b, 44) as u16,
                ncols: u16_at(b, 46) as u16,
                nrows: u16_at(b, 48) as u16,
                uniq: u16_at(b, 50) as u16,
                release_len: u16_at(b, 52) as u16,
                flags: u16_at(b, 54) as u16,
                dataset: Dataset::of_byte(b[56])->0,
                quant_bits: QuantBits::of_byte(b[57])->0,
                simplify_algorithm: SimplifyAlgorithm::of_byte(b[58])->0,
                geom: GeomEncoding::of_byte(b[59])->0,
                codec: Codec::of_byte(b[60])->0,
                density_weight_floor_e4: u16_at(b, 61) as u16,
                reserved: b[63],
            },
        )
    }
}

/// The little-endian `u32` at `i`.
fn get_u32(b: &[u8], i: usize) -> (v: u32)
    requires
        i + 4 <= b@.len(),
    ensures
        v == u32_at(b@, i as int),
{
    b[i] as u32 + 256 * (b[i + 1] as u32) + 65536 * (b[i + 2] as u32) + 16777216 * (b[i + 3] as u32)
}

/// The little-endian `u16` at `i`.
fn get_u16(b: &[u8], i: usize) -> (v: u16)
    requires
        i + 2 <= b@.len(),
    ensures
        v == u16_at(b@, i as int),
{
    b[i] as u16 + 256 * (b[i + 1] as u16)
}

impl PayloadHeader {
    /// Reads the record at the start of `b`.
    pub fn read(b: &[u8]) -> (header: Result<PayloadHeader, HeaderFault>)
        ensures
            header == header_of(b@),
    {
        let n: usize = b.len();
        if n > 56 && Dataset::from_byte(b[56]).is_none() {
            assert(bad_byte(b@, 56));
            return Err(HeaderFault::BadByte);
        }
        if n > 57 && QuantBits::from_byte(b[57]).is_none() {
            assert(bad_byte(b@, 57));
            return Err(HeaderFault::BadByte);
        }
        if n > 58 && SimplifyAlgorithm::from_byte(b[58]).is_none() {
            assert(bad_byte(b@, 58));
            return Err(HeaderFault::BadByte);
        }
        if n > 59 && GeomEncoding::from_byte(b[59]).is_none() {
            assert(bad_byte(b@, 59));
            return Err(HeaderFault::BadByte);
        }
        if n > 60 && Codec::from_byte(b[60]).is_none() {
            assert(bad_byte(b@, 60));
            return Err(HeaderFault::BadByte);
        }
        if n < PAYLOAD_HEADER_LEN {
            return Err(HeaderFault::Short);
        }
        let enums = (
            Dataset::from_byte(b[56]),
            QuantBits::from_byte(b[57]),
            SimplifyAlgorithm::from_byte(b[58]),
            GeomEncoding::from_byte(b[59]),
            Codec::from_byte(b[60]),
        );
        match enums {
            (
                Some(dataset),
                Some(quant_bits),
                Some(simplify_algorithm),
                Some(geom),
                Some(codec),
            ) => Ok(
                PayloadHeader {
                    arcs_off: get_u32(b, 0),
                    rings_off: get_u32(b, 4),
                    grid_off: get_u32(b, 8),
                    release_off: get_u32(b, 12),
                    eager_coords: get_u32(b, 16),
                    eager_rings: get_u32(b, 20),
                    eager_polys: get_u32(b, 24),
                    n_arcs: get_u32(b, 28),
                    raw_len: get_u32(b, 32),
                    grid_deg: get_u32(b, 36),
                    epsilon_m: get_u32(b, 40),
                    n_features: get_u16(b, 44),
                    ncols: get_u16(b, 46),
                    nrows: get_u16(b, 48),
                    uniq: get_u16(b, 50),
                    release_len: get_u16(b, 52),
                    flags: get_u16(b, 54),
                    dataset,
                    quant_bits,
                    simplify_algorithm,
                    geom,
                    codec,
                    density_weight_floor_e4: get_u16(b, 61),
                    reserved: b[63],
                },
            ),
            _ => Err(HeaderFault::BadByte),
        }
    }

    /// Writes the record. The result is the one byte string of the declared
    /// length that reads back as this header.
    pub fn write(&self) -> (bytes: Vec<u8>)
        ensures
            bytes@.len() == PAYLOAD_HEADER_LEN,
            header_of(bytes@) == Ok::<PayloadHeader, HeaderFault>(*self),
    {
        let mut out: Vec<u8> = Vec::with_capacity(PAYLOAD_HEADER_LEN);
        push_u32(&mut out, self.arcs_off);
        push_u32(&mut out, self.rings_off);
        push_u32(&mut out, self.grid_off);
        push_u32(&mut out, self.release_off);
        push_u32(&mut out, self.eager_coords);
        push_u32(&mut out, self.eager_rings);
        push_u32(&mut out, self.eager_polys);
        push_u32(&mut out, self.n_arcs);
        push_u32(&mut out, self.raw_len);
        push_u32(&mut out, self.grid_deg);
        push_u32(&mut out, self.epsilon_m);
        push_u16(&mut out, self.n_features);
        push_u16(&mut out, self.ncols);
        push_u16(&mut out, self.nrows);
        push_u16(&mut out, self.uniq);
        push_u16(&mut out, self.release_len);
        push_u16(&mut out, self.flags);
        out.push(self.dataset.code());
        out.push(self.quant_bits.bits() as u8);
        out.push(self.simplify_algorithm.byte());
        out.push(self.geom.byte());
        out.push(self.codec.byte());
        push_u16(&mut out, self.density_weight_floor_e4);
        out.push(self.reserved);
        proof {
            let b = out@;
            assert(b.len() == 64);
            assert forall|k: int| 56 <= k <= 60 implies !#[trigger] bad_byte(b, k) by {}
            let h = header_of(b)->Ok_0;
            assert(h.quant_bits == self.quant_bits);
            assert(h =~= *self);
        }
        out
    }

    /// Parses the plaintext header out of a complete asset, checking the
    /// prologue first (magic and version). The result is `None` if the bytes
    /// are too short, not an asset, a different format version, or hold an
    /// enum byte that names nothing.
    #[must_use]
    pub fn from_asset(bytes: &[u8]) -> (header: Option<PayloadHeader>)
        ensures
            header == asset_header(bytes@),
    {
        if bytes.len() < PROLOGUE_LEN + PAYLOAD_HEADER_LEN {
            return None;
        }
        if !bytes_eq_at(bytes, 0, &MAGIC) || bytes[4] != VERSION {
            return None;
        }
        match PayloadHeader::read(vstd::slice::slice_subrange(bytes, PROLOGUE_LEN, bytes.len())) {
            Ok(header) => Some(header),
            Err(_) => None,
        }
    }
}

/// The header of a complete asset, if its bytes are long enough, start with
/// the magic and the accepted version, and hold a readable record.
pub open spec fn asset_header(b: Seq<u8>) -> Option<PayloadHeader> {
    if b.len() < PROLOGUE_LEN + PAYLOAD_HEADER_LEN || b.subrange(0, 4) != MAGIC@ || b[4] != VERSION {
        None
    } else {
        match header_of(b.skip(PROLOGUE_LEN as int)) {
            Ok(header) => Some(header),
            Err(_) => None,
        }
    }
}

/// Two records of the declared length that read as the same header are the
/// same bytes: nothing in the record is redundant or ignored.
pub proof fn lemma_header_bytes_unique(a: Seq<u8>, b: Seq<u8>)
    requires
        a.len() == PAYLOAD_HEADER_LEN,
        b.len() == PAYLOAD_HEADER_LEN,
        header_of(a) is Ok,
        header_of(a) == header_of(b),
    ensures
        a == b,
{
    assert(!bad_byte(a, 56) && !bad_byte(a, 57) && !bad_byte(a, 58) && !bad_byte(a, 59)
        && !bad_byte(a, 60));
    assert(!bad_byte(b, 56) && !bad_byte(b, 57) && !bad_byte(b, 58) && !bad_byte(b, 59)
        && !bad_byte(b, 60));
    lemma_u32_unique(a, b, 0);
    lemma_u32_unique(a, b, 4);
    lemma_u32_unique(a, b, 8);
    lemma_u32_unique(a, b, 12);
    lemma_u32_unique(a, b, 16);
    lemma_u32_unique(a, b, 20);
    lemma_u32_unique(a, b, 24);
    lemma_u32_unique(a, b, 28);
    lemma_u32_unique(a, b, 32);
    lemma_u32_unique(a, b, 36);
    lemma_u32_unique(a, b, 40);
    lemma_u16_unique(a, b, 44);
    lemma_u16_unique(a, b, 46);
    lemma_u16_unique(a, b, 48);
    lemma_u16_unique(a, b, 50);
    lemma_u16_unique(a, b, 52);
    lemma_u16_unique(a, b, 54);
    lemma_u16_unique(a, b, 61);
    assert forall|k: int| 0 <= k < 64 implies a[k] == b[k] by {
        if k < 44 {
            let w = k / 4;
            assert(k == 4 * w || k == 4 * w + 1 || k == 4 * w + 2 || k == 4 * w + 3);
        }
    }
    assert(a =~= b);
}

proof fn lemma_u32_unique(a: Seq<u8>, b: Seq<u8>, i: int)
    requires
        u32_at(a, i) as u32 == u32_at(b, i) as u32,
    ensures
        a[i] == b[i],
        a[i + 1] == b[i + 1],
        a[i + 2] == b[i + 2],
        a[i + 3] == b[i + 3],
{
}

proof fn lemma_u16_unique(a: Seq<u8>, b: Seq<u8>, i: int)
    requires
        u16_at(a, i) as u16 == u16_at(b, i) as u16,
    ensures
        a[i] == b[i],
        a[i + 1] == b[i + 1],
{
}

/// Four bytes for each of some numbers, the least significant first.
pub open spec fn words(v: Seq<u32>) -> Seq<u8>
    decreases v.len(),
{
    if v.len() == 0 {
        Seq::empty()
    } else {
        words(v.drop_last()) + le_bytes(v.last() as int, 4)
    }
}

/// Two bytes for each of some numbers, the least significant first.
pub open spec fn halves(v: Seq<u16>) -> Seq<u8>
    decreases v.len(),
{
    if v.len() == 0 {
        Seq::empty()
    } else {
        halves(v.drop_last()) + le_bytes(v.last() as int, 2)
    }
}

/// Each word stands at four times its number.
pub proof fn lemma_words(v: Seq<u32>, i: int)
    requires
        0 <= i < v.len(),
    ensures
        words(v).len() == 4 * v.len(),
        u32_at(words(v), 4 * i) == v[i],
    decreases v.len(),
{
    let (b, before, last) = (words(v), words(v.drop_last()), le_bytes(v.last() as int, 4));
    if v.len() > 1 {
        lemma_words(v.drop_last(), if i < v.len() - 1 { i } else { 0 });
    } else {
        assert(before.len() == 0);
    }
    assert(b == before + last);
    if i < v.len() - 1 {
        assert(b[4 * i] == before[4 * i] && b[4 * i + 1] == before[4 * i + 1] && b[4 * i + 2]
            == before[4 * i + 2] && b[4 * i + 3] == before[4 * i + 3]);
    } else {
        assert(b[4 * i] == last[0] && b[4 * i + 1] == last[1] && b[4 * i + 2] == last[2] && b[4 * i
            + 3] == last[3]);
        crate::bytes::lemma_bytes_are_little_endian(last, 0, v.last() as int);
    }
}

/// Each half stands at twice its number.
proof fn lemma_halves(v: Seq<u16>, i: int)
    requires
        0 <= i < v.len(),
    ensures
        halves(v).len() == 2 * v.len(),
        u16_at(halves(v), 2 * i) == v[i],
    decreases v.len(),
{
    let (b, before, last) = (halves(v), halves(v.drop_last()), le_bytes(v.last() as int, 2));
    if v.len() > 1 {
        lemma_halves(v.drop_last(), if i < v.len() - 1 { i } else { 0 });
    } else {
        assert(before.len() == 0);
    }
    assert(b == before + last);
    if i < v.len() - 1 {
        assert(b[2 * i] == before[2 * i] && b[2 * i + 1] == before[2 * i + 1]);
    } else {
        assert(b[2 * i] == last[0] && b[2 * i + 1] == last[1]);
    }
}

/// The words of a header, in the order they are declared in.
pub open spec fn words_of(h: PayloadHeader) -> Seq<u32> {
    seq![
        h.arcs_off,
        h.rings_off,
        h.grid_off,
        h.release_off,
        h.eager_coords,
        h.eager_rings,
        h.eager_polys,
        h.n_arcs,
        h.raw_len,
        h.grid_deg,
        h.epsilon_m,
    ]
}

/// The halves of a header, in the order they are declared in.
pub open spec fn halves_of(h: PayloadHeader) -> Seq<u16> {
    seq![h.n_features, h.ncols, h.nrows, h.uniq, h.release_len, h.flags]
}

/// The bytes of a header: its words, its halves, what its names stand for, the
/// weight floor and the reserved byte, in the order they are declared in.
pub open spec fn record_of(h: PayloadHeader) -> Seq<u8> {
    words(words_of(h)) + halves(halves_of(h)) + seq![
        match h.dataset {
            Dataset::Now => 0u8,
            Dataset::Since1970 => 1u8,
            Dataset::All => 2u8,
            Dataset::NowLandOnly => 4u8,
            Dataset::Since1970LandOnly => 5u8,
            Dataset::AllLandOnly => 6u8,
        },
        match h.quant_bits {
            QuantBits::Bits16 => 16u8,
            QuantBits::Bits24 => 24u8,
            QuantBits::Bits32 => 32u8,
        },
        match h.simplify_algorithm {
            SimplifyAlgorithm::Unsimplified => 0u8,
            SimplifyAlgorithm::Rdp => 1u8,
            SimplifyAlgorithm::Visvalingam => 2u8,
            SimplifyAlgorithm::ImaiIri => 3u8,
        },
        match h.geom {
            GeomEncoding::VarintArcs => 0u8,
            GeomEncoding::FixedWidthArcs => 1u8,
            GeomEncoding::FullRings => 2u8,
            GeomEncoding::Coarse => 3u8,
        },
        match h.codec {
            Codec::Uncompressed => 0u8,
            Codec::Gzip => 1u8,
            Codec::Zstd => 2u8,
            Codec::Brotli => 3u8,
            Codec::Xz => 4u8,
        },
    ] + le_bytes(h.density_weight_floor_e4 as int, 2) + seq![h.reserved]
}

/// The words of a record read back.
proof fn lemma_record_words(h: PayloadHeader, i: int)
    requires
        0 <= i < 11,
    ensures
        record_of(h).len() == 64,
        u32_at(record_of(h), 4 * i) == words_of(h)[i],
{
    let (b, w) = (record_of(h), words(words_of(h)));
    lemma_words(words_of(h), i);
    lemma_halves(halves_of(h), 0);
    assert(b[4 * i] == w[4 * i] && b[4 * i + 1] == w[4 * i + 1] && b[4 * i + 2] == w[4 * i + 2]
        && b[4 * i + 3] == w[4 * i + 3]);
}

/// The halves of a record read back.
proof fn lemma_record_halves(h: PayloadHeader, i: int)
    requires
        0 <= i < 6,
    ensures
        u16_at(record_of(h), 44 + 2 * i) == halves_of(h)[i],
{
    let (b, w) = (record_of(h), halves(halves_of(h)));
    lemma_words(words_of(h), 0);
    lemma_halves(halves_of(h), i);
    assert(b[44 + 2 * i] == w[2 * i] && b[44 + 2 * i + 1] == w[2 * i + 1]);
}

/// A record of fields reads as those fields.
proof fn lemma_record_reads(h: PayloadHeader)
    ensures
        record_of(h).len() == 64,
        header_of(record_of(h)) == Ok::<PayloadHeader, HeaderFault>(h),
{
    let b = record_of(h);
    lemma_record_words(h, 0);
    lemma_record_words(h, 1);
    lemma_record_words(h, 2);
    lemma_record_words(h, 3);
    lemma_record_words(h, 4);
    lemma_record_words(h, 5);
    lemma_record_words(h, 6);
    lemma_record_words(h, 7);
    lemma_record_words(h, 8);
    lemma_record_words(h, 9);
    lemma_record_words(h, 10);
    lemma_record_halves(h, 0);
    lemma_record_halves(h, 1);
    lemma_record_halves(h, 2);
    lemma_record_halves(h, 3);
    lemma_record_halves(h, 4);
    lemma_record_halves(h, 5);
    lemma_words(words_of(h), 0);
    lemma_halves(halves_of(h), 0);
    let floor = le_bytes(h.density_weight_floor_e4 as int, 2);
    assert(b[61] == floor[0] && b[62] == floor[1]);
    assert forall|k: int| 56 <= k <= 60 implies !#[trigger] bad_byte(b, k) by {}
    let r = header_of(b)->Ok_0;
    assert(r =~= h);
}

/// Bytes read as a header exactly where they start with its fields in order;
/// what stands behind them is not looked at.
pub proof fn lemma_headers_are_their_fields_in_order(b: Seq<u8>, h: PayloadHeader)
    ensures
        header_of(b) == Ok::<PayloadHeader, HeaderFault>(h) <==> b.len() >= 64 && b.take(64)
            == record_of(h),
{
    lemma_record_reads(h);
    if b.len() >= 64 {
        let a = b.take(64);
        assert(forall|k: int| 0 <= k < 64 ==> a[k] == b[k]);
        assert forall|k: int| 56 <= k <= 60 implies #[trigger] bad_byte(b, k) == bad_byte(a, k) by {}
        assert(header_of(a) == header_of(b)) by {
            if exists|k: int| 56 <= k <= 60 && #[trigger] bad_byte(b, k) {
                let k = choose|k: int| 56 <= k <= 60 && #[trigger] bad_byte(b, k);
                assert(bad_byte(a, k));
            } else {
                assert forall|k: int| 56 <= k <= 60 implies !#[trigger] bad_byte(a, k) by {
                    assert(!bad_byte(b, k));
                }
            }
        }
        if header_of(b) == Ok::<PayloadHeader, HeaderFault>(h) {
            lemma_header_bytes_unique(a, record_of(h));
        }
    }
}

/// A record that ends too soon, and names nothing it should not, is short.
pub proof fn lemma_short_records(b: Seq<u8>)
    requires
        b.len() < 56,
    ensures
        header_of(b) == Err::<PayloadHeader, HeaderFault>(HeaderFault::Short),
{
}

/// An asset's header is the one behind `uTZ1`, the version and three bytes of
/// any value.
pub proof fn lemma_assets_start_with_a_header(
    b: Seq<u8>,
    h: PayloadHeader,
)
    ensures
        asset_header(b) == Some(h) <==> {
            &&& b.len() >= 72
            &&& b[0] == 0x75 && b[1] == 0x54 && b[2] == 0x5A && b[3] == 0x31
            &&& b[4] == 11
            &&& b.subrange(8, 72) == record_of(h)
        },
{
    if b.len() >= 72 {
        let magic = b.subrange(0, 4);
        assert(magic[0] == b[0] && magic[1] == b[1] && magic[2] == b[2] && magic[3] == b[3]);
        if b[0] == 0x75 && b[1] == 0x54 && b[2] == 0x5A && b[3] == 0x31 {
            assert(magic =~= MAGIC@);
        }
        lemma_headers_are_their_fields_in_order(b.skip(8), h);
        assert(b.skip(8).take(64) =~= b.subrange(8, 72));
    }
}

} // verus!
