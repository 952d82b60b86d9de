//! The codec backends: one wrapper per outside decoder or encoder.
//!
//! What a compressed stream decodes to takes a whole format to state, so each
//! backend's result is a name applied to the call's arguments, but for the
//! brotli encoder's, which differs between machines. The encoders also state
//! the one fact that ties the two sides together: what was written reads back.

use std::io::{Read, Write};

use brotli_decompressor::{BrotliDecompressStream, BrotliResult, BrotliState, StandardAlloc};
use miniz_oxide::inflate::{decompress_slice_iter_to_slice, TINFLStatus};
use vstd::prelude::*;

use crate::frames::frame_bounded;

verus! {

/// Why the inflater stopped, one variant per status of the backend.
#[derive(Debug, Clone, Copy, PartialEq, Eq, Structural)]
pub enum InflateFault {
    FailedCannotMakeProgress,
    BadParam,
    Adler32Mismatch,
    Failed,
    Done,
    NeedsMoreInput,
    HasMoreOutput,
}

/// How a brotli decode call ended, one variant per result of the backend; a
/// failure carries the backend's own error code as text.
#[derive(Debug, Clone, PartialEq, Eq)]
pub enum BrotliStatus {
    ResultSuccess,
    NeedsMoreInput,
    NeedsMoreOutput,
    ResultFailure(String),
}

/// The count of bytes inflated, or why the inflater stopped, and the output
/// buffer, when inflating `body` as a zlib stream into `raw_len` bytes.
pub uninterp spec fn zlib_inflated(body: Seq<u8>, raw_len: nat) -> (
    Result<nat, InflateFault>,
    Seq<u8>,
);

/// What libzstd decodes `body` to, or the text of its error.
pub uninterp spec fn zstd_decoded(body: Seq<u8>) -> Result<Seq<u8>, Seq<char>>;

/// The first `limit` bytes of the zstd frame at the start of `body` as the
/// pure-Rust decoder reads it, or the text of its error.
pub uninterp spec fn ruzstd_read(body: Seq<u8>, limit: nat) -> Result<Seq<u8>, Seq<char>>;

/// How decoding `body` as a brotli stream into `raw_len` bytes ends: the
/// status (0 success, 1 more input needed, 2 more output needed, 3 failure),
/// the failure's error code as text, the count of bytes written, and the
/// output buffer.
pub uninterp spec fn brotli_decoded(body: Seq<u8>, raw_len: nat) -> (
    int,
    Seq<char>,
    nat,
    Seq<u8>,
);

/// The first `limit` bytes of the xz stream `body`, or whether the input
/// ended early and the text of the error.
pub uninterp spec fn xz_read(body: Seq<u8>, limit: nat) -> Result<Seq<u8>, (bool, Seq<char>)>;

/// The zlib stream the deflater writes for `raw` at `level`.
pub uninterp spec fn zlib_deflated(raw: Seq<u8>, level: int) -> Seq<u8>;

/// The zstd frame libzstd writes for `raw` at `level`, or the text of its
/// error.
pub uninterp spec fn zstd_encoded(raw: Seq<u8>, level: int) -> Result<Seq<u8>, Seq<char>>;

/// The xz stream the encoder writes for `raw`, or the text of its error.
pub uninterp spec fn xz_encoded(
    raw: Seq<u8>,
    preset: int,
    dict_size: int,
    nice_len: int,
    depth_limit: int,
) -> Result<Seq<u8>, Seq<char>>;

/// The status number of a brotli decode.
pub open spec fn brotli_code(status: BrotliStatus) -> int {
    match status {
        BrotliStatus::ResultSuccess => 0,
        BrotliStatus::NeedsMoreInput => 1,
        BrotliStatus::NeedsMoreOutput => 2,
        BrotliStatus::ResultFailure(_) => 3,
    }
}

/// The error text of a brotli decode, empty unless it failed.
pub open spec fn brotli_detail(status: BrotliStatus) -> Seq<char> {
    match status {
        BrotliStatus::ResultFailure(detail) => detail@,
        _ => Seq::empty(),
    }
}

/// A count as a mathematical number.
pub open spec fn count_of(r: Result<usize, InflateFault>) -> Result<nat, InflateFault> {
    match r {
        Ok(n) => Ok(n as nat),
        Err(fault) => Err(fault),
    }
}

/// Decoded bytes and error text by their views.
pub open spec fn bytes_of(r: Result<Vec<u8>, String>) -> Result<Seq<u8>, Seq<char>> {
    match r {
        Ok(bytes) => Ok(bytes@),
        Err(detail) => Err(detail@),
    }
}

/// Decoded bytes, or the early-end flag and error text, by their views.
pub open spec fn flagged_of(r: Result<Vec<u8>, (bool, String)>) -> Result<
    Seq<u8>,
    (bool, Seq<char>),
> {
    match r {
        Ok(bytes) => Ok(bytes@),
        Err(fault) => Err((fault.0, fault.1@)),
    }
}

/// Whether a decode succeeded with exactly these bytes.
pub open spec fn decoded_is(r: Result<Seq<u8>, Seq<char>>, bytes: Seq<u8>) -> bool {
    r == Ok::<Seq<u8>, Seq<char>>(bytes)
}

/// Whether a stream read succeeded with exactly these bytes.
pub open spec fn read_is(r: Result<Seq<u8>, (bool, Seq<char>)>, bytes: Seq<u8>) -> bool {
    r == Ok::<Seq<u8>, (bool, Seq<char>)>(bytes)
}

/// `miniz_oxide::inflate::decompress_slice_iter_to_slice`: inflates one zlib
/// stream into a buffer of `raw_len` bytes, checking the checksum. On success
/// the count of bytes written is returned, and no more than the buffer holds.
#[verifier::external_body]
pub(crate) fn zlib_inflate(body: &[u8], raw_len: usize) -> (r: (
    Result<usize, InflateFault>,
    Vec<u8>,
))
    ensures
        (count_of(r.0), r.1@) == zlib_inflated(body@, raw_len as nat),
        r.1@.len() == raw_len,
        r.0 is Ok ==> r.0->Ok_0 <= raw_len,
{
    let mut out = vec![0u8; raw_len];
    let count = decompress_slice_iter_to_slice(&mut out, core::iter::once(body), true, false);
    let count = count.map_err(
        |status| match status {
            TINFLStatus::FailedCannotMakeProgress => InflateFault::FailedCannotMakeProgress,
            TINFLStatus::BadParam => InflateFault::BadParam,
            TINFLStatus::Adler32Mismatch => InflateFault::Adler32Mismatch,
            TINFLStatus::Failed => InflateFault::Failed,
            TINFLStatus::Done => InflateFault::Done,
            TINFLStatus::NeedsMoreInput => InflateFault::NeedsMoreInput,
            TINFLStatus::HasMoreOutput => InflateFault::HasMoreOutput,
        },
    );
    (count, out)
}

/// `zstd::stream::decode_all`: decodes every zstd frame of `body`.
#[verifier::external_body]
pub(crate) fn zstd_decode_all(body: &[u8]) -> (r: Result<Vec<u8>, String>)
    ensures
        bytes_of(r) == zstd_decoded(body@),
{
    zstd::stream::decode_all(body).map_err(|source| format!("{source}"))
}

/// `ruzstd::decoding::StreamingDecoder`: reads the single frame at the start
/// of `body`, stopping after `limit` bytes. It panics on a block whose output
/// reaches 2^32 bytes.
#[verifier::external_body]
pub(crate) fn ruzstd_read_frame(body: &[u8], limit: u64) -> (r: Result<Vec<u8>, String>)
    requires
        frame_bounded(body@),
    ensures
        bytes_of(r) == ruzstd_read(body@, limit as nat),
        r is Ok ==> (r->Ok_0)@.len() <= limit,
{
    let decoder = ruzstd::decoding::StreamingDecoder::new(body).map_err(
        |source| format!("{source}"),
    )?;
    let mut out = Vec::new();
    decoder.take(limit).read_to_end(&mut out).map_err(|source| format!("{source}"))?;
    Ok(out)
}

/// `brotli_decompressor::BrotliDecompressStream`: decodes the whole input in
/// one call into a buffer of `raw_len` bytes, and reports how many were
/// written.
#[verifier::external_body]
pub(crate) fn brotli_decompress(body: &[u8], raw_len: usize) -> (r: (BrotliStatus, usize, Vec<u8>))
    ensures
        (brotli_code(r.0), brotli_detail(r.0), r.1 as nat, r.2@) == brotli_decoded(
            body@,
            raw_len as nat,
        ),
        r.2@.len() == raw_len,
        r.1 <= raw_len,
{
    let heap = StandardAlloc::default;
    let (mut out, mut state) = (vec![0u8; raw_len], BrotliState::new(heap(), heap(), heap()));
    let (mut avail_in, mut in_off, mut avail_out, mut out_off) = (body.len(), 0, raw_len, 0);
    let status = BrotliDecompressStream(
        &mut avail_in, &mut in_off, body, &mut avail_out, &mut out_off, &mut out, &mut 0, &mut state,
    );
    let status = match status {
        BrotliResult::ResultSuccess => BrotliStatus::ResultSuccess,
        BrotliResult::NeedsMoreInput => BrotliStatus::NeedsMoreInput,
        BrotliResult::NeedsMoreOutput => BrotliStatus::NeedsMoreOutput,
        BrotliResult::ResultFailure => BrotliStatus::ResultFailure(format!("{:?}", state.error_code)),
    };
    (status, out_off, out)
}

/// `lzma_rust2::XzReader`: reads the single xz stream `body`, stopping after
/// `limit` bytes. An error says whether the input ended early.
#[verifier::external_body]
pub(crate) fn xz_read_stream(body: &[u8], limit: u64) -> (r: Result<Vec<u8>, (bool, String)>)
    ensures
        flagged_of(r) == xz_read(body@, limit as nat),
        r is Ok ==> (r->Ok_0)@.len() <= limit,
{
    let mut out = Vec::new();
    let reader = lzma_rust2::XzReader::new(body, false);
    match reader.take(limit).read_to_end(&mut out) {
        Ok(_) => Ok(out),
        Err(source) => {
            Err((source.kind() == std::io::ErrorKind::UnexpectedEof, format!("{source:?}")))
        },
    }
}

/// `miniz_oxide::deflate::compress_to_vec_zlib`: the zlib stream of `raw`,
/// which inflates back to `raw`. Into whatever buffer it is inflated, success
/// comes at the end of the stream only, with the count of `raw`.
#[verifier::external_body]
pub(crate) fn zlib_deflate(raw: &[u8], level: u8) -> (body: Vec<u8>)
    requires
        level <= 10,
    ensures
        body@ == zlib_deflated(raw@, level as int),
        zlib_inflated(body@, raw@.len()) == (Ok::<nat, InflateFault>(raw@.len()), raw@),
        forall|n: nat|
            n <= usize::MAX ==> ((#[trigger] zlib_inflated(body@, n)).0 matches Ok(count) ==> count
                == raw@.len()),
{
    miniz_oxide::deflate::compress_to_vec_zlib(raw, level)
}

/// `zstd::encode_all`: the zstd frame of `raw`, which decodes back to `raw`.
#[verifier::external_body]
pub(crate) fn zstd_encode_all(raw: &[u8], level: i32) -> (r: Result<Vec<u8>, String>)
    requires
        1 <= level <= 22,
    ensures
        bytes_of(r) == zstd_encoded(raw@, level as int),
        r is Ok ==> decoded_is(zstd_decoded((r->Ok_0)@), raw@),
{
    zstd::encode_all(raw, level).map_err(|source| format!("{source}"))
}

/// A size that no brotli stream of `raw_len` bytes exceeds: blocks of at least
/// 16 KiB cost four bytes each, besides what begins and ends the stream.
pub open spec fn brotli_bound(raw_len: int) -> int {
    raw_len + raw_len / 0x4000 * 4 + 23
}

/// `brotli::BrotliCompress`: the brotli stream of `raw`, which decodes back to
/// `raw` as long as the decoder accepts its length. Into whatever buffer it is
/// decoded, success comes when all of `raw` is written only.
/// From memory into memory it does not fail, and a block that does not shrink is
/// stored as it is, so the stream stays within a bound.
/// Which stream it is stays open: the encoder weighs its choices by logarithms
/// whose last digits differ between machines. It is called at its densest
/// setting only.
#[verifier::external_body]
pub(crate) fn brotli_compress(raw: &[u8], quality: i32, lgwin: i32) -> (r: Result<Vec<u8>, String>)
    requires
        quality == 11,
        lgwin == 24,
    ensures
        r is Ok,
        (r->Ok_0)@.len() <= brotli_bound(raw@.len() as int),
        r is Ok && (r->Ok_0)@.len() < 0x1_0000_0000 ==> brotli_decoded((r->Ok_0)@, raw@.len()) == (
            0int,
            Seq::<char>::empty(),
            raw@.len(),
            raw@,
        ),
        r is Ok ==> forall|n: nat|
            n <= usize::MAX && (#[trigger] brotli_decoded((r->Ok_0)@, n)).0 == 0 ==> brotli_decoded(
                (r->Ok_0)@,
                n,
            ).2 == raw@.len(),
{
    let mut out = Vec::new();
    let params = brotli::enc::BrotliEncoderParams { quality, lgwin, ..Default::default() };
    let mut input = raw;
    brotli::BrotliCompress(&mut input, &mut out, &params).map_err(|source| format!("{source}"))?;
    Ok(out)
}

/// `lzma_rust2::XzWriter`: the xz stream of `raw`, which reads back as `raw`
/// and nothing more. A read that stops earlier has as many bytes as were asked
/// for. Into memory it does not fail: the dictionary size is one the format has,
/// and a chunk ends while its buffer still has room for a symbol.
#[verifier::external_body]
pub(crate) fn xz_write(
    raw: &[u8],
    preset: u32,
    dict_size: u32,
    nice_len: u32,
    depth_limit: i32,
) -> (r: Result<Vec<u8>, String>)
    requires
        preset <= 9,
        0x1000 <= dict_size <= 0x0400_0000,
        8 <= nice_len <= 273,
        0 <= depth_limit,
    ensures
        r is Ok,
        bytes_of(r) == xz_encoded(
            raw@,
            preset as int,
            dict_size as int,
            nice_len as int,
            depth_limit as int,
        ),
        r is Ok ==> read_is(xz_read((r->Ok_0)@, raw@.len() + 1), raw@),
        r is Ok ==> forall|limit: nat|
            limit <= u64::MAX ==> ((#[trigger] xz_read((r->Ok_0)@, limit)) matches Ok(bytes)
                ==> bytes.len() == if limit < raw@.len() {
                limit
            } else {
                raw@.len()
            }),
{
    let mut options = lzma_rust2::XzOptions::with_preset(preset);
    options.lzma_options.dict_size = dict_size;
    options.lzma_options.nice_len = nice_len;
    options.lzma_options.depth_limit = depth_limit;
    let writer = lzma_rust2::XzWriter::new(Vec::new(), options);
    let mut writer = writer.map_err(|source| format!("{source:?}"))?;
    writer.write_all(raw).map_err(|source| format!("{source:?}"))?;
    writer.finish().map_err(|source| format!("{source:?}"))
}

} // verus!
