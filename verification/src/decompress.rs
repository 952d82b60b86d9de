//! Payload decompression: one codec byte per backend, and what each backend's
//! outcome means for the asset.
//!
//! | codec byte | backend              |
//! |-----------:|----------------------|
//! | 0          | none (copy)          |
//! | 1          | `miniz_oxide`        |
//! | 2          | `zstd` (C libzstd)   |
//! | 3          | `brotli-decompressor`|
//! | 4          | `lzma-rust2`         |
//!
//! `ruzstd` is the pure-Rust alternative for codec byte 2.

use vstd::prelude::*;

use crate::codecs::{
    brotli_code, brotli_decoded, brotli_decompress, brotli_detail, bytes_of, count_of, flagged_of,
    ruzstd_read, ruzstd_read_frame, xz_read, xz_read_stream, zlib_inflate, zlib_inflated,
    zstd_decode_all, zstd_decoded, BrotliStatus, InflateFault,
};
use crate::error::{Error, ErrorView};
use crate::frames::frame_bounded;

verus! {

/// A decode result by its views.
pub open spec fn outcome_of(r: Result<Vec<u8>, Error>) -> Result<Seq<u8>, ErrorView> {
    match r {
        Ok(bytes) => Ok(bytes@),
        Err(error) => Err(error@),
    }
}

/// The name of an inflate status.
pub open spec fn fault_name(fault: InflateFault) -> Seq<char> {
    match fault {
        InflateFault::FailedCannotMakeProgress => "FailedCannotMakeProgress"@,
        InflateFault::BadParam => "BadParam"@,
        InflateFault::Adler32Mismatch => "Adler32Mismatch"@,
        InflateFault::Failed => "Failed"@,
        InflateFault::Done => "Done"@,
        InflateFault::NeedsMoreInput => "NeedsMoreInput"@,
        InflateFault::HasMoreOutput => "HasMoreOutput"@,
    }
}

/// The name of an inflate status.
fn fault_text(fault: InflateFault) -> (name: String)
    ensures
        name@ == fault_name(fault),
{
    match fault {
        InflateFault::FailedCannotMakeProgress => String::from_str("FailedCannotMakeProgress"),
        InflateFault::BadParam => String::from_str("BadParam"),
        InflateFault::Adler32Mismatch => String::from_str("Adler32Mismatch"),
        InflateFault::Failed => String::from_str("Failed"),
        InflateFault::Done => String::from_str("Done"),
        InflateFault::NeedsMoreInput => String::from_str("NeedsMoreInput"),
        InflateFault::HasMoreOutput => String::from_str("HasMoreOutput"),
    }
}

/// The decoded bytes where their count is the declared one.
pub open spec fn sized(raw_len: nat, bytes: Seq<u8>) -> Result<Seq<u8>, ErrorView> {
    if bytes.len() == raw_len {
        Ok(bytes)
    } else {
        Err(ErrorView::Plain(Error::RawLengthMismatch))
    }
}

/// What an inflate outcome means: input exhausted mid-stream is a truncated
/// asset, pending output means the stream outgrows the declared size, and a
/// short stream is a size mismatch.
pub open spec fn gzip_outcome(
    codec: u8,
    raw_len: nat,
    inflated: (Result<nat, InflateFault>, Seq<u8>),
) -> Result<Seq<u8>, ErrorView> {
    match inflated.0 {
        Ok(count) => if count == raw_len {
            Ok(inflated.1)
        } else {
            Err(ErrorView::Plain(Error::RawLengthMismatch))
        },
        Err(InflateFault::FailedCannotMakeProgress) => Err(ErrorView::Plain(Error::Truncated)),
        Err(InflateFault::HasMoreOutput) => Err(ErrorView::Plain(Error::RawLengthMismatch)),
        Err(fault) => Err(ErrorView::Decoder { codec, detail: fault_name(fault) }),
    }
}

/// Judges an inflate outcome.
pub fn judge_gzip(
    codec: u8,
    raw_len: usize,
    count: Result<usize, InflateFault>,
    out: Vec<u8>,
) -> (r: Result<Vec<u8>, Error>)
    ensures
        outcome_of(r) == gzip_outcome(codec, raw_len as nat, (count_of(count), out@)),
{
    match count {
        Ok(decoded_len) => {
            if decoded_len != raw_len {
                return Err(Error::RawLengthMismatch);
            }
            Ok(out)
        },
        Err(InflateFault::FailedCannotMakeProgress) => Err(Error::Truncated),
        Err(InflateFault::HasMoreOutput) => Err(Error::RawLengthMismatch),
        Err(fault) => Err(Error::DecoderFailed { codec, detail: fault_text(fault) }),
    }
}

/// Inflates a zlib stream straight into a buffer of the declared size.
pub fn decompress_gzip(codec: u8, raw_len: usize, body: &[u8]) -> (r: Result<Vec<u8>, Error>)
    ensures
        outcome_of(r) == gzip_outcome(codec, raw_len as nat, zlib_inflated(body@, raw_len as nat)),
        r matches Ok(bytes) ==> bytes@.len() == raw_len,
{
    let (count, out) = zlib_inflate(body, raw_len);
    judge_gzip(codec, raw_len, count, out)
}

/// What a whole-stream decode means: an error is the backend's own, and the
/// byte count must be the declared one.
pub open spec fn stream_outcome(
    codec: u8,
    raw_len: nat,
    decoded: Result<Seq<u8>, Seq<char>>,
) -> Result<Seq<u8>, ErrorView> {
    match decoded {
        Ok(bytes) => sized(raw_len, bytes),
        Err(detail) => Err(ErrorView::Decoder { codec, detail }),
    }
}

/// Judges a whole-stream decode.
pub fn judge_stream(codec: u8, raw_len: usize, decoded: Result<Vec<u8>, String>) -> (r: Result<
    Vec<u8>,
    Error,
>)
    ensures
        outcome_of(r) == stream_outcome(codec, raw_len as nat, bytes_of(decoded)),
{
    match decoded {
        Ok(out) => {
            if out.len() != raw_len {
                return Err(Error::RawLengthMismatch);
            }
            Ok(out)
        },
        Err(detail) => Err(Error::DecoderFailed { codec, detail }),
    }
}

/// Decodes with libzstd.
pub fn decompress_zstd(codec: u8, raw_len: usize, body: &[u8]) -> (r: Result<Vec<u8>, Error>)
    ensures
        outcome_of(r) == stream_outcome(codec, raw_len as nat, zstd_decoded(body@)),
{
    judge_stream(codec, raw_len, zstd_decode_all(body))
}

/// Decodes one frame with the pure-Rust zstd decoder. One byte beyond the
/// declared size is asked for, so a frame that holds more is noticed. No block
/// may ask for 2^32 bytes of output: see
/// [`is_frame_bounded()`](crate::frames::is_frame_bounded).
pub fn decompress_ruzstd(codec: u8, raw_len: usize, body: &[u8]) -> (r: Result<Vec<u8>, Error>)
    requires
        raw_len < u64::MAX,
        frame_bounded(body@),
    ensures
        outcome_of(r) == stream_outcome(
            codec,
            raw_len as nat,
            ruzstd_read(body@, (raw_len + 1) as nat),
        ),
{
    judge_stream(codec, raw_len, ruzstd_read_frame(body, raw_len as u64 + 1))
}

/// What a brotli outcome means: the two needs-more statuses are terminal.
pub open spec fn brotli_outcome(
    codec: u8,
    raw_len: nat,
    decoded: (int, Seq<char>, nat, Seq<u8>),
) -> Result<Seq<u8>, ErrorView> {
    if decoded.0 == 0 {
        if decoded.2 == raw_len {
            Ok(decoded.3)
        } else {
            Err(ErrorView::Plain(Error::RawLengthMismatch))
        }
    } else if decoded.0 == 1 {
        Err(ErrorView::Plain(Error::Truncated))
    } else if decoded.0 == 2 {
        Err(ErrorView::Plain(Error::RawLengthMismatch))
    } else {
        Err(ErrorView::Decoder { codec, detail: decoded.1 })
    }
}

/// Judges a brotli outcome.
pub fn judge_brotli(
    codec: u8,
    raw_len: usize,
    status: BrotliStatus,
    written: usize,
    out: Vec<u8>,
) -> (r: Result<Vec<u8>, Error>)
    ensures
        outcome_of(r) == brotli_outcome(
            codec,
            raw_len as nat,
            (brotli_code(status), brotli_detail(status), written as nat, out@),
        ),
{
    match status {
        BrotliStatus::ResultSuccess => {
            if written != raw_len {
                return Err(Error::RawLengthMismatch);
            }
            Ok(out)
        },
        BrotliStatus::NeedsMoreInput => Err(Error::Truncated),
        BrotliStatus::NeedsMoreOutput => Err(Error::RawLengthMismatch),
        BrotliStatus::ResultFailure(detail) => Err(Error::DecoderFailed { codec, detail }),
    }
}

/// Decodes the whole input into an output of the declared size in one call.
pub fn decompress_brotli(codec: u8, raw_len: usize, body: &[u8]) -> (r: Result<Vec<u8>, Error>)
    ensures
        outcome_of(r) == brotli_outcome(
            codec,
            raw_len as nat,
            brotli_decoded(body@, raw_len as nat),
        ),
        r matches Ok(bytes) ==> bytes@.len() == raw_len,
{
    let (status, written, out) = brotli_decompress(body, raw_len);
    judge_brotli(codec, raw_len, status, written, out)
}

/// What an xz read means: input that ends early is a truncated asset.
pub open spec fn xz_outcome(
    codec: u8,
    raw_len: nat,
    read: Result<Seq<u8>, (bool, Seq<char>)>,
) -> Result<Seq<u8>, ErrorView> {
    match read {
        Ok(bytes) => sized(raw_len, bytes),
        Err((true, _)) => Err(ErrorView::Plain(Error::Truncated)),
        Err((false, detail)) => Err(ErrorView::Decoder { codec, detail }),
    }
}

/// Judges an xz read.
pub fn judge_xz(codec: u8, raw_len: usize, read: Result<Vec<u8>, (bool, String)>) -> (r: Result<
    Vec<u8>,
    Error,
>)
    ensures
        outcome_of(r) == xz_outcome(codec, raw_len as nat, flagged_of(read)),
{
    match read {
        Ok(out) => {
            if out.len() != raw_len {
                return Err(Error::RawLengthMismatch);
            }
            Ok(out)
        },
        Err((true, _)) => Err(Error::Truncated),
        Err((false, detail)) => Err(Error::DecoderFailed { codec, detail }),
    }
}

/// Decodes an xz stream. One byte beyond the declared size is asked for, so a
/// stream that holds more is noticed.
pub fn decompress_xz(codec: u8, raw_len: usize, body: &[u8]) -> (r: Result<Vec<u8>, Error>)
    requires
        raw_len < u64::MAX,
    ensures
        outcome_of(r) == xz_outcome(
            codec,
            raw_len as nat,
            xz_read(body@, (raw_len + 1) as nat),
        ),
{
    judge_xz(codec, raw_len, xz_read_stream(body, raw_len as u64 + 1))
}

/// What `body` decompresses to under a codec byte, given the declared size.
pub open spec fn decompress_spec(codec: u8, raw_len: nat, body: Seq<u8>) -> Result<
    Seq<u8>,
    ErrorView,
> {
    if codec == 0 {
        sized(raw_len, body)
    } else if codec == 1 {
        gzip_outcome(codec, raw_len, zlib_inflated(body, raw_len))
    } else if codec == 2 {
        stream_outcome(codec, raw_len, zstd_decoded(body))
    } else if codec == 3 {
        brotli_outcome(codec, raw_len, brotli_decoded(body, raw_len))
    } else if codec == 4 {
        xz_outcome(codec, raw_len, xz_read(body, raw_len + 1))
    } else {
        Err(ErrorView::Plain(Error::CodecNotCompiledIn(codec)))
    }
}

/// Decompress `body` into an owned buffer of exactly `raw_len` bytes
/// (`raw_len` comes from the header). Codec 0 copies.
pub fn decompress(codec: u8, raw_len: usize, body: &[u8]) -> (r: Result<Vec<u8>, Error>)
    requires
        codec == 4 ==> raw_len < u64::MAX,
    ensures
        outcome_of(r) == decompress_spec(codec, raw_len as nat, body@),
        r matches Ok(bytes) ==> bytes@.len() == raw_len,
{
    match codec {
        0 => {
            if body.len() != raw_len {
                return Err(Error::RawLengthMismatch);
            }
            Ok(vstd::slice::slice_to_vec(body))
        },
        1 => decompress_gzip(codec, raw_len, body),
        2 => decompress_zstd(codec, raw_len, body),
        3 => decompress_brotli(codec, raw_len, body),
        4 => decompress_xz(codec, raw_len, body),
        _ => Err(Error::CodecNotCompiledIn(codec)),
    }
}

/// Whatever decodes a body, what comes out is handed on where its size is the
/// declared one, and any other size is a mismatch.
pub proof fn lemma_sizes_decide(codec: u8, raw_len: nat, bytes: Seq<u8>, count: nat)
    ensures
        bytes.len() == raw_len ==> stream_outcome(codec, raw_len, Ok(bytes)) == Ok::<
            Seq<u8>,
            ErrorView,
        >(bytes) && xz_outcome(codec, raw_len, Ok(bytes)) == Ok::<Seq<u8>, ErrorView>(bytes)
            && decompress_spec(0, raw_len, bytes) == Ok::<Seq<u8>, ErrorView>(bytes),
        bytes.len() != raw_len ==> stream_outcome(codec, raw_len, Ok(bytes)) == Err::<
            Seq<u8>,
            ErrorView,
        >(ErrorView::Plain(Error::RawLengthMismatch)) && xz_outcome(codec, raw_len, Ok(bytes))
            == Err::<Seq<u8>, ErrorView>(ErrorView::Plain(Error::RawLengthMismatch))
            && decompress_spec(0, raw_len, bytes) == Err::<Seq<u8>, ErrorView>(
            ErrorView::Plain(Error::RawLengthMismatch),
        ),
        gzip_outcome(codec, raw_len, (Ok(count), bytes)) is Ok <==> count == raw_len,
        gzip_outcome(codec, count, (Ok(count), bytes)) == Ok::<Seq<u8>, ErrorView>(bytes),
        forall|detail: Seq<char>|
            brotli_outcome(codec, raw_len, #[trigger] success(detail, count, bytes)) is Ok <==> count
                == raw_len,
        forall|detail: Seq<char>|
            brotli_outcome(codec, count, #[trigger] success(detail, count, bytes)) == Ok::<
                Seq<u8>,
                ErrorView,
            >(bytes),
{
}

/// A brotli decode that succeeded.
pub open spec fn success(detail: Seq<char>, count: nat, bytes: Seq<u8>) -> (
    int,
    Seq<char>,
    nat,
    Seq<u8>,
) {
    (0, detail, count, bytes)
}

/// A decoder that fails is named, and its own words are passed on; input that
/// ends too soon is a truncated asset, and output that does not end is a
/// mismatch, whatever else the decoder says.
pub proof fn lemma_failures_are_told_apart(
    codec: u8,
    raw_len: nat,
    detail: Seq<char>,
    count: nat,
    out: Seq<u8>,
    status: int,
)
    ensures
        stream_outcome(codec, raw_len, Err(detail)) == Err::<Seq<u8>, ErrorView>(
            ErrorView::Decoder { codec, detail },
        ),
        xz_outcome(codec, raw_len, Err((false, detail))) == Err::<Seq<u8>, ErrorView>(
            ErrorView::Decoder { codec, detail },
        ),
        xz_outcome(codec, raw_len, Err((true, detail))) == Err::<Seq<u8>, ErrorView>(
            ErrorView::Plain(Error::Truncated),
        ),
        brotli_outcome(codec, raw_len, (1, detail, count, out)) == Err::<Seq<u8>, ErrorView>(
            ErrorView::Plain(Error::Truncated),
        ),
        brotli_outcome(codec, raw_len, (2, detail, count, out)) == Err::<Seq<u8>, ErrorView>(
            ErrorView::Plain(Error::RawLengthMismatch),
        ),
        status < 0 || status > 2 ==> brotli_outcome(codec, raw_len, (status, detail, count, out))
            == Err::<Seq<u8>, ErrorView>(ErrorView::Decoder { codec, detail }),
        gzip_outcome(codec, raw_len, (Err(InflateFault::FailedCannotMakeProgress), out)) == Err::<
            Seq<u8>,
            ErrorView,
        >(ErrorView::Plain(Error::Truncated)),
        gzip_outcome(codec, raw_len, (Err(InflateFault::HasMoreOutput), out)) == Err::<
            Seq<u8>,
            ErrorView,
        >(ErrorView::Plain(Error::RawLengthMismatch)),
        codec > 4 ==> decompress_spec(codec, raw_len, out) == Err::<Seq<u8>, ErrorView>(
            ErrorView::Plain(Error::CodecNotCompiledIn(codec)),
        ),
{
}

} // verus!
