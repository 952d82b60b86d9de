//! The container encoder: its knobs and errors, the compression codecs, and
//! the outer header.
//!
//! ```text
//! outer: magic "uTZ1" | version u8 | codec u8 | raw_len u32 | 2 zero bytes | payload…
//! ```
//! `raw_len` is the uncompressed payload size, so decoders allocate once.

use vstd::prelude::*;

use crate::bytes::{le_bytes, lemma_unsigned_round_trip, push_bytes, push_u32, u32_at};
use crate::clean::CleanStats;
use crate::codecs::{
    brotli_bound, brotli_compress, xz_encoded, xz_write, zlib_deflate, zlib_deflated,
    zstd_encode_all, zstd_encoded,
};
use crate::common::{Codec, GeomEncoding, SimplifyAlgorithm, MAGIC};
use crate::decompress::decompress_spec;

verus! {

/// The container version the encoder writes.
pub const VERSION: u8 = 7;

/// The outer header's length: magic, version, codec, `raw_len`, and two zero
/// bytes, so that a 4-aligned container has a 4-aligned payload.
pub const OUTER_LEN: usize = 12;

/// The simplification algorithm recorded in the header.
#[derive(Clone, Copy, PartialEq, Eq, Structural, Debug)]
pub enum SimplifyAlgo {
    Rdp,
    Visvalingam,
    ImaiIri,
}

/// A simplification algorithm with its knob, the bit pattern of an `f64`.
#[derive(Clone, Copy, PartialEq, Eq, Structural, Debug)]
pub enum Simplify {
    Rdp { eps: u64 },
    Visvalingam { min_area: u64 },
    ImaiIri { eps: u64 },
    Unsimplified,
}

/// What a format limit bounds.
#[derive(Clone, Copy, PartialEq, Eq, Structural, Debug)]
pub enum Limit {
    Features,
    Polygons,
    ReleaseBytes,
    EagerCoords,
    PoolBytes,
    PolyRings,
    Arcs,
    Vertices,
    PayloadBytes,
}

/// Anything that can fail while encoding.
#[derive(Clone, PartialEq, Eq, Debug)]
pub enum EncodeError {
    /// A quantization width other than 16, 24 or 32 bits.
    QuantBits { bits: u32 },
    /// A grid cell size outside 0.1–45 degrees (the bit pattern of an `f64`).
    GridDeg { deg: u64 },
    /// A count past what the format stores.
    FormatLimit { what: Limit, n: usize, max: usize },
    /// A section outgrew the width the format stores its counts and offsets
    /// at.
    Oversized { what: Limit },
    /// More distinct candidate lists than 15 bits index.
    GridLists { deg: u64, n: usize },
    /// More candidate list ids than a u16 offset reaches.
    GridListIds { deg: u64, n: usize },
    /// A compressor failed; carries its text.
    Compress(String),
    /// The xz compressor failed; carries its text.
    Xz(String),
    /// Visvalingam's knob is an area, not an epsilon.
    VisvalingamEps,
}

/// The encoder's knobs.
pub struct Params {
    /// the dataset's header byte
    pub dataset: u8,
    /// the source release tag recorded in the header
    pub tzbb_release: String,
    /// the tolerance in metres recorded in the header, the bit pattern of an
    /// `f64`
    pub eps_m: u64,
    /// 16 / 24 / 32
    pub quant_bits: u32,
    /// the grid cell size in degrees, 0.1–45, the bit pattern of an `f64`
    pub grid_deg: u64,
    pub codec: Codec,
    pub simplify: SimplifyAlgo,
    pub geom: GeomEncoding,
}

/// Byte size of each payload section, and the geometry counts.
#[derive(Clone, Copy, Debug)]
pub struct PayloadStats {
    pub header: u32,
    pub zones: u32,
    pub arcs: u32,
    pub rings: u32,
    pub grid: u32,
    pub n_arcs: u32,
    /// vertices actually stored
    pub n_verts: u32,
    /// what the cleanup after quantization removed
    pub clean: CleanStats,
}

impl SimplifyAlgo {
    /// The algorithm that stands in the header for a configured one: an
    /// unsimplified build is stamped as the default.
    pub fn stamp_of(algorithm: SimplifyAlgorithm) -> (stamp: SimplifyAlgo)
        ensures
            stamp == match algorithm {
                SimplifyAlgorithm::Visvalingam => SimplifyAlgo::Visvalingam,
                SimplifyAlgorithm::ImaiIri => SimplifyAlgo::ImaiIri,
                SimplifyAlgorithm::Rdp | SimplifyAlgorithm::Unsimplified => SimplifyAlgo::Rdp,
            },
    {
        match algorithm {
            SimplifyAlgorithm::Visvalingam => SimplifyAlgo::Visvalingam,
            SimplifyAlgorithm::ImaiIri => SimplifyAlgo::ImaiIri,
            SimplifyAlgorithm::Rdp | SimplifyAlgorithm::Unsimplified => SimplifyAlgo::Rdp,
        }
    }

    /// The header byte of this algorithm.
    pub open spec fn code(self) -> u8 {
        match self {
            SimplifyAlgo::Rdp => 0,
            SimplifyAlgo::Visvalingam => 1,
            SimplifyAlgo::ImaiIri => 2,
        }
    }

    /// The header byte of this algorithm.
    pub fn byte(self) -> (byte: u8)
        ensures
            byte == self.code(),
    {
        match self {
            SimplifyAlgo::Rdp => 0,
            SimplifyAlgo::Visvalingam => 1,
            SimplifyAlgo::ImaiIri => 2,
        }
    }

    /// The algorithm driven by an epsilon in degrees. Visvalingam is
    /// rejected: its knob is an area.
    pub fn to_simplify(self, eps_deg: u64) -> (r: Result<Simplify, EncodeError>)
        ensures
            r == match self {
                SimplifyAlgo::Rdp => Ok::<Simplify, EncodeError>(Simplify::Rdp { eps: eps_deg }),
                SimplifyAlgo::ImaiIri => Ok(Simplify::ImaiIri { eps: eps_deg }),
                SimplifyAlgo::Visvalingam => Err(EncodeError::VisvalingamEps),
            },
    {
        match self {
            SimplifyAlgo::Rdp => Ok(Simplify::Rdp { eps: eps_deg }),
            SimplifyAlgo::ImaiIri => Ok(Simplify::ImaiIri { eps: eps_deg }),
            SimplifyAlgo::Visvalingam => Err(EncodeError::VisvalingamEps),
        }
    }
}

/// A configured algorithm driven by an epsilon in degrees. Visvalingam is
/// rejected: its knob is an area.
pub fn to_simplify(algorithm: SimplifyAlgorithm, eps_deg: u64) -> (r: Result<Simplify, EncodeError>)
    ensures
        r == match algorithm {
            SimplifyAlgorithm::Unsimplified => Ok::<Simplify, EncodeError>(Simplify::Unsimplified),
            SimplifyAlgorithm::Rdp => Ok(Simplify::Rdp { eps: eps_deg }),
            SimplifyAlgorithm::ImaiIri => Ok(Simplify::ImaiIri { eps: eps_deg }),
            SimplifyAlgorithm::Visvalingam => Err(EncodeError::VisvalingamEps),
        },
{
    match algorithm {
        SimplifyAlgorithm::Unsimplified => Ok(Simplify::Unsimplified),
        _ => SimplifyAlgo::stamp_of(algorithm).to_simplify(eps_deg),
    }
}

impl Default for SimplifyAlgo {
    fn default() -> (algo: SimplifyAlgo)
        ensures
            algo == SimplifyAlgo::Rdp,
    {
        SimplifyAlgo::Rdp
    }
}

/// The xz dictionary for `len` bytes: the smallest power of two from `size`
/// on that holds them, at most 64 MiB.
pub open spec fn dict_from(len: int, size: int) -> int
    decreases 0x0800_0000 - size,
{
    if size <= 0 || size >= len || size >= 0x0400_0000 {
        size
    } else {
        dict_from(len, 2 * size)
    }
}

/// The xz dictionary size for `len` bytes, from 4 KiB to 64 MiB.
fn dict_size(len: usize) -> (size: u32)
    ensures
        size == dict_from(len as int, 0x1000),
        0x1000 <= size <= 0x0400_0000,
{
    let mut size: u32 = 0x1000;
    let mut doublings: u8 = 0;
    while doublings < 14 && (size as usize) < len
        invariant
            doublings <= 14,
            0x1000 <= size <= 0x0400_0000,
            size == 0x1000 * power_of_two(doublings as nat),
            dict_from(len as int, 0x1000) == dict_from(len as int, size as int),
        decreases 14 - doublings,
    {
        proof {
            lemma_doublings(doublings as nat);
        }
        size = 2 * size;
        doublings = doublings + 1;
    }
    proof {
        lemma_doublings(doublings as nat);
    }
    size
}

spec fn power_of_two(k: nat) -> nat
    decreases k,
{
    if k == 0 {
        1
    } else {
        2 * power_of_two((k - 1) as nat)
    }
}

proof fn lemma_doublings(k: nat)
    requires
        k <= 14,
    ensures
        k < 14 ==> power_of_two(k) <= 0x2000,
        k == 14 ==> power_of_two(k) == 0x4000,
{
    reveal_with_fuel(power_of_two, 16);
}

/// The bytes of a result behind its first `skipped`.
pub open spec fn body_of(r: Result<Vec<u8>, EncodeError>, skipped: int) -> Result<
    Seq<u8>,
    EncodeError,
> {
    match r {
        Ok(bytes) => Ok(bytes@.skip(skipped)),
        Err(e) => Err(e),
    }
}

/// Whether a compression result is the stream or the error the compressor
/// gave.
pub open spec fn compressed_is(
    r: Result<Seq<u8>, EncodeError>,
    stream: Result<Seq<u8>, Seq<char>>,
    xz: bool,
) -> bool {
    match stream {
        Ok(bytes) => r matches Ok(body) && body == bytes,
        Err(detail) => if xz {
            r matches Err(EncodeError::Xz(text)) && text@ == detail
        } else {
            r matches Err(EncodeError::Compress(text)) && text@ == detail
        },
    }
}

/// A compressor's result with its error typed.
pub fn judge_compressed(stream: Result<Vec<u8>, String>, xz: bool) -> (r: Result<
    Vec<u8>,
    EncodeError,
>)
    ensures
        compressed_is(body_of(r, 0), crate::codecs::bytes_of(stream), xz),
{
    match stream {
        Ok(body) => {
            assert(body@.skip(0) =~= body@);
            Ok(body)
        },
        Err(detail) => if xz {
            Err(EncodeError::Xz(detail))
        } else {
            Err(EncodeError::Compress(detail))
        },
    }
}

/// Whether a result is what a codec makes of `raw`: gzip at level 10, zstd at
/// level 22, xz at its extreme preset with a dictionary that fits the input. Of
/// brotli the stream is not fixed, only that there is one, how long it is at
/// most, and what it decodes to. Zstd alone may fail.
pub open spec fn compress_is(r: Result<Seq<u8>, EncodeError>, raw: Seq<u8>, codec: Codec) -> bool {
    match codec {
        Codec::Uncompressed => compressed_is(r, Ok(raw), false),
        Codec::Gzip => compressed_is(r, Ok(zlib_deflated(raw, 10)), false),
        Codec::Zstd => compressed_is(r, zstd_encoded(raw, 22), false),
        Codec::Brotli => {
            &&& r is Ok
            &&& r->Ok_0.len() <= brotli_bound(raw.len() as int)
            &&& body_readable(codec, r->Ok_0.len() as int) ==> decompress_spec(
                codec.code(),
                raw.len(),
                r->Ok_0,
            ) == Ok::<Seq<u8>, crate::error::ErrorView>(raw)
        },
        Codec::Xz => r is Ok && compressed_is(
            r,
            xz_encoded(raw, 9, dict_from(raw.len() as int, 0x1000), 273, 512),
            true,
        ),
    }
}

/// Whether the reader can take a body of this codec and size: its brotli
/// decoder counts input in 32 bits.
pub open spec fn body_readable(codec: Codec, len: int) -> bool {
    codec == Codec::Brotli ==> len < 0x1_0000_0000
}

/// Whether a body is refused under every declared size but one.
pub open spec fn only_size(codec: Codec, body: Seq<u8>, raw_len: nat) -> bool {
    forall|n: nat|
        n <= usize::MAX && n < u64::MAX && n != raw_len ==> (#[trigger] decompress_spec(
            codec.code(),
            n,
            body,
        )) is Err
}

/// The quality and the window size, as a power of two, that brotli compresses
/// with: the densest it has.
pub fn brotli_settings() -> (settings: (i32, i32))
    ensures
        settings == (11i32, 24i32),
{
    (11, 24)
}

/// Compresses `raw` with `codec`: the body only, no outer header. What comes
/// out decompresses to `raw`, and under no other declared size to anything.
pub fn compress(raw: &[u8], codec: Codec) -> (r: Result<Vec<u8>, EncodeError>)
    ensures
        compress_is(body_of(r, 0), raw@, codec),
        codec != Codec::Zstd ==> r is Ok,
        r matches Ok(body) ==> body_readable(codec, body@.len() as int) ==> decompress_spec(
            codec.code(),
            raw@.len(),
            body@,
        ) == Ok::<Seq<u8>, crate::error::ErrorView>(raw@),
        r matches Ok(body) ==> only_size(codec, body@, raw@.len()),
{
    let r = match codec {
        Codec::Uncompressed => Ok(vstd::slice::slice_to_vec(raw)),
        Codec::Gzip => judge_compressed(Ok(zlib_deflate(raw, 10)), false),
        Codec::Zstd => judge_compressed(zstd_encode_all(raw, 22), false),
        Codec::Brotli => {
            let (quality, window) = brotli_settings();
            judge_compressed(brotli_compress(raw, quality, window), false)
        },
        Codec::Xz => judge_compressed(xz_write(raw, 9, dict_size(raw.len()), 273, 512), true),
    };
    proof {
        if r is Ok {
            assert((r->Ok_0)@.skip(0) =~= (r->Ok_0)@);
        }
    }
    r
}

/// The outer header of a payload of `raw_len` bytes.
pub open spec fn outer_bytes(codec: Codec, raw_len: int) -> Seq<u8> {
    MAGIC@ + seq![VERSION, codec.code()] + le_bytes(raw_len, 4) + seq![0u8, 0u8]
}

/// Prepends the outer header, compressing the payload with `codec`.
pub fn finish(payload: &[u8], codec: Codec) -> (r: Result<Vec<u8>, EncodeError>)
    requires
        payload@.len() <= u32::MAX,
    ensures
        r matches Ok(o) ==> o@.len() >= OUTER_LEN && o@.take(OUTER_LEN as int) == outer_bytes(
            codec,
            payload@.len() as int,
        ),
        compress_is(body_of(r, OUTER_LEN as int), payload@, codec),
        codec != Codec::Zstd ==> r is Ok,
        r matches Ok(o) ==> u32_at(o@, 6) == payload@.len() && (body_readable(
            codec,
            o@.len() - OUTER_LEN,
        ) ==> decompress_spec(o@[5], u32_at(o@, 6) as nat, o@.skip(OUTER_LEN as int)) == Ok::<
            Seq<u8>,
            crate::error::ErrorView,
        >(payload@)),
{
    let raw_len = payload.len() as u32;
    let compressed = compress(payload, codec);
    match compressed {
        Err(e) => Err(e),
        Ok(body) => {
            let mut o: Vec<u8> = Vec::new();
            push_bytes(&mut o, MAGIC.as_slice());
            o.push(VERSION);
            o.push(codec.byte());
            push_u32(&mut o, raw_len);
            o.push(0);
            o.push(0);
            assert(o@ =~= outer_bytes(codec, payload@.len() as int));
            let ghost head = o@;
            push_bytes(&mut o, body.as_slice());
            proof {
                assert(head.len() == 12);
                assert(o@.take(12) =~= head);
                assert(o@.skip(12) =~= body@);
                assert(o@.subrange(6, 10) =~= le_bytes(raw_len as int, 4)) by {
                    assert(head.subrange(6, 10) =~= le_bytes(raw_len as int, 4));
                    assert(o@.subrange(6, 10) =~= head.subrange(6, 10));
                }
                lemma_unsigned_round_trip(o@, 6, raw_len as int, 4);
                assert(head[5] == codec.code());
                assert(body@.skip(0) =~= body@);
            }
            Ok(o)
        },
    }
}

/// The xz dictionary is a power of two from 4 KiB to 64 MiB that holds the
/// input where 64 MiB do, and half of it would not.
pub proof fn lemma_dictionary_just_holds(len: int)
    ensures
        0x1000 <= dict_from(len, 0x1000) <= 0x0400_0000,
        exists|k: nat| dict_from(len, 0x1000) == #[trigger] vstd::arithmetic::power2::pow2(k),
        len <= dict_from(len, 0x1000) || dict_from(len, 0x1000) == 0x0400_0000,
        dict_from(len, 0x1000) == 0x1000 || dict_from(len, 0x1000) < 2 * len,
{
    vstd::arithmetic::power2::lemma2_to64();
    lemma_dictionary_from(len, 0x1000, 12);
}

/// From a power of two on, the dictionary is the first one that holds the
/// input.
proof fn lemma_dictionary_from(len: int, size: int, k: nat)
    requires
        0x1000 <= size <= 0x0400_0000,
        size == vstd::arithmetic::power2::pow2(k),
        12 <= k <= 26,
    ensures
        size <= dict_from(len, size) <= 0x0400_0000,
        exists|j: nat| dict_from(len, size) == #[trigger] vstd::arithmetic::power2::pow2(j),
        len <= dict_from(len, size) || dict_from(len, size) == 0x0400_0000,
        dict_from(len, size) == size || dict_from(len, size) < 2 * len,
    decreases 26 - k,
{
    vstd::arithmetic::power2::lemma2_to64();
    vstd::arithmetic::power2::lemma_pow2_unfold((k + 1) as nat);
    if size < len && size < 0x0400_0000 {
        assert(k < 26);
        if k < 25 {
            vstd::arithmetic::power2::lemma_pow2_strictly_increases(k, 25);
        }
        lemma_dictionary_from(len, 2 * size, (k + 1) as nat);
    } else {
        assert(dict_from(len, size) == vstd::arithmetic::power2::pow2(k));
    }
}

/// The outer header is the format's name and version, the codec, the payload's
/// size with the least significant byte first, and two zero bytes.
pub proof fn lemma_outer_header_lies_as_declared(codec: Codec, raw_len: u32)
    ensures
        ({
            let b = outer_bytes(codec, raw_len as int);
            &&& b.len() == 12
            &&& b[0] == 0x75 && b[1] == 0x54 && b[2] == 0x5A && b[3] == 0x31
            &&& b[4] == 7
            &&& b[5] == codec.code()
            &&& b[6] + 256 * (b[7] + 256 * (b[8] + 256 * b[9])) == raw_len
            &&& b[10] == 0 && b[11] == 0
        }),
{
    let b = outer_bytes(codec, raw_len as int);
    let w = le_bytes(raw_len as int, 4);
    crate::bytes::lemma_bytes_are_little_endian(w, 0, raw_len as int);
    assert(b[6] == w[0] && b[7] == w[1] && b[8] == w[2] && b[9] == w[3]);
}

/// Whatever the size of the input, it is compressed at the densest setting of its
/// codec, and a failure of the compressor is passed on in its own words.
pub proof fn lemma_densest_settings(r: Result<Seq<u8>, EncodeError>, raw: Seq<u8>)
    ensures
        compress_is(r, raw, Codec::Uncompressed) <==> r == Ok::<Seq<u8>, EncodeError>(raw),
        compress_is(r, raw, Codec::Gzip) <==> r == Ok::<Seq<u8>, EncodeError>(
            zlib_deflated(raw, 10),
        ),
        compress_is(r, raw, Codec::Zstd) ==> match zstd_encoded(raw, 22) {
            Ok(body) => r == Ok::<Seq<u8>, EncodeError>(body),
            Err(detail) => r matches Err(EncodeError::Compress(text)) && text@ == detail,
        },
        compress_is(r, raw, Codec::Xz) ==> r is Ok && xz_encoded(
            raw,
            9,
            dict_from(raw.len() as int, 0x1000),
            273,
            512,
        ) == Ok::<Seq<u8>, Seq<char>>(r->Ok_0),
{
}

} // verus!
