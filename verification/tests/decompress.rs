use utz::codecs::{BrotliStatus, InflateFault};
use utz::common::{Codec, Lcg};
use utz::decompress::{decompress, decompress_ruzstd, judge_brotli, judge_gzip, judge_stream, judge_xz};
use utz::encode::{brotli_settings, compress, finish, judge_compressed, EncodeError};
use utz::error::Error;
use utz::frames::is_frame_bounded;

/// A corrupt stream must surface the backend's own diagnostic, and the message
/// must compose the codec byte with that detail.
fn assert_decoder_failed(expected_codec: u8, err: &Error) {
    match err {
        Error::DecoderFailed { codec, detail } => {
            assert_eq!(*codec, expected_codec);
            assert!(!detail.is_empty(), "backend diagnostic must not be empty");
            let text = err.message();
            assert!(text.contains(&format!("codec {expected_codec}")));
            assert!(text.contains(detail.as_str()));
        }
        other => panic!("expected DecoderFailed, got {other:?}"),
    }
}

#[test]
fn unknown_codec_reports_its_byte() {
    assert_eq!(decompress(9, 4, &[]), Err(Error::CodecNotCompiledIn(9)));
}

#[test]
fn memcpy_size_lie_is_raw_length_mismatch() {
    assert_eq!(decompress(0, 5, b"abc"), Err(Error::RawLengthMismatch));
}

#[test]
fn gzip_corrupt_stream_carries_detail() {
    let err = decompress(1, 64, b"not a zlib stream").expect_err("garbage must not inflate");
    assert_decoder_failed(1, &err);
}

/// A zlib stream of 64 bytes of ASCII text.
const ZLIB_64: [u8; 64] = [
    120, 156, 5, 193, 129, 1, 128, 16, 20, 64, 193, 85, 222, 30, 77, 131, 136, 196, 151, 8, 77, 223,
    93, 243, 150, 187, 7, 19, 209, 85, 70, 198, 201, 228, 236, 169, 60, 200, 107, 43, 205, 91, 46,
    245, 45, 118, 57, 54, 138, 50, 145, 180, 208, 50, 25, 161, 121, 92, 248, 1, 252, 248, 23, 46,
];

#[test]
fn gzip_truncated_stream_is_truncated() {
    assert_eq!(decompress(1, 64, &ZLIB_64).map(|out| out.len()), Ok(64));
    assert_eq!(decompress(1, 64, &ZLIB_64[..30]), Err(Error::Truncated));
}

#[test]
fn gzip_size_lie_is_raw_length_mismatch() {
    assert_eq!(decompress(1, 63, &ZLIB_64), Err(Error::RawLengthMismatch));
}

#[test]
fn zstd_corrupt_stream_carries_detail() {
    let err = decompress(2, 64, b"not a zstd frame").expect_err("garbage must not decode");
    assert_decoder_failed(2, &err);
}

#[test]
fn brotli_corrupt_stream_carries_libbrotli_code() {
    let err = decompress(3, 64, b"not a brotli stream").expect_err("garbage must not decode");
    assert_decoder_failed(3, &err);
    // the detail is the specific libbrotli code, not the bare status
    assert!(err.message().contains("BROTLI_DECODER_"));
}

/// A brotli stream of the same 64 bytes of ASCII text.
const BROTLI_64: [u8; 60] = [
    27, 63, 0, 16, 141, 84, 181, 127, 132, 74, 215, 27, 30, 215, 77, 26, 138, 246, 56, 208, 32, 59,
    115, 121, 97, 3, 14, 28, 2, 123, 216, 7, 28, 207, 165, 52, 181, 12, 26, 11, 244, 196, 23, 34,
    96, 193, 133, 51, 248, 37, 127, 70, 111, 159, 233, 163, 220, 56, 132, 4,
];

#[test]
fn brotli_truncated_stream_is_truncated() {
    assert_eq!(decompress(3, 64, &BROTLI_64).map(|out| out.len()), Ok(64));
    assert_eq!(decompress(3, 64, &BROTLI_64[..30]), Err(Error::Truncated));
}

#[test]
fn brotli_size_lie_is_raw_length_mismatch() {
    assert_eq!(decompress(3, 63, &BROTLI_64), Err(Error::RawLengthMismatch));
}

#[test]
fn xz_corrupt_stream_carries_detail() {
    let err = decompress(4, 64, b"not an xz stream").expect_err("garbage must not decode");
    assert_decoder_failed(4, &err);
}

/// An xz stream of the same 64 bytes of ASCII text.
const XZ_64: [u8; 120] = [
    253, 55, 122, 88, 90, 0, 0, 4, 230, 214, 180, 70, 2, 0, 33, 1, 22, 0, 0, 0, 116, 47, 229, 163,
    1, 0, 63, 116, 104, 101, 32, 113, 117, 105, 99, 107, 32, 98, 114, 111, 119, 110, 32, 102, 111,
    120, 32, 106, 117, 109, 112, 115, 32, 111, 118, 101, 114, 32, 116, 104, 101, 32, 108, 97, 122,
    121, 32, 100, 111, 103, 59, 32, 112, 97, 99, 107, 32, 109, 121, 32, 98, 111, 120, 32, 119, 105,
    116, 104, 32, 102, 105, 0, 202, 232, 76, 14, 75, 53, 221, 214, 0, 1, 88, 64, 231, 35, 56, 36,
    31, 182, 243, 125, 1, 0, 0, 0, 0, 4, 89, 90,
];

#[test]
fn xz_truncated_stream_is_truncated() {
    assert_eq!(decompress(4, 64, &XZ_64).map(|out| out.len()), Ok(64));
    assert_eq!(decompress(4, 64, &XZ_64[..60]), Err(Error::Truncated));
}

#[test]
fn every_stream_holds_the_same_text() {
    let text = b"the quick brown fox jumps over the lazy dog; pack my box with fi";
    assert_eq!(text.len(), 64);
    assert_eq!(decompress(1, 64, &ZLIB_64), Ok(text.to_vec()));
    assert_eq!(decompress(3, 64, &BROTLI_64), Ok(text.to_vec()));
    assert_eq!(decompress(4, 64, &XZ_64), Ok(text.to_vec()));
}

const PAYLOAD_SEED: u64 = 0x757a_7472_6970;

/// 4 MiB: large enough that encoder-declared window and dictionary parameters
/// come into play on the reader side.
const PAYLOAD_SIZE: usize = 4 << 20;

/// Compressible-but-not-trivial payload of at least `size` bytes.
fn payload(size: usize) -> Vec<u8> {
    let mut lcg = Lcg::new(PAYLOAD_SEED);
    let mut out = Vec::with_capacity(size);
    while out.len() < size {
        let bits = lcg.next_u64();
        // short pseudo-runs make it compress like real section data
        let run = usize::try_from(bits & 0x1F).expect("5-bit mask fits") + 1;
        let byte = u8::try_from((bits >> 8) & 0x3F).expect("6-bit mask fits");
        out.extend(std::iter::repeat_n(byte, run));
    }
    out
}

fn roundtrips(codec: Codec, size: usize) {
    let raw = payload(size);
    let compressed = compress(&raw, codec).expect("encoder side must accept");
    let decoded = decompress(codec.byte(), raw.len(), &compressed)
        .unwrap_or_else(|error| panic!("{codec:?}: reader backend refused: {error:?}"));
    assert_eq!(decoded, raw, "{codec:?} roundtrip");
}

#[test]
fn every_codec_roundtrips_through_the_real_encoder() {
    for codec in [Codec::Uncompressed, Codec::Gzip, Codec::Zstd, Codec::Brotli] {
        roundtrips(codec, PAYLOAD_SIZE);
    }
    // the xz encoder takes about nine seconds a mebibyte: the rest of what time
    // allows is in the test below
    roundtrips(Codec::Xz, PAYLOAD_SIZE / 16);
}

#[test]
fn xz_roundtrips_through_the_real_encoder() {
    roundtrips(Codec::Xz, PAYLOAD_SIZE / 4);
}

#[test]
fn every_codec_but_zstd_is_sure_to_accept() {
    // what shrinks, what does not, and nothing at all
    let mut lcg = Lcg::new(PAYLOAD_SEED);
    let noise: Vec<u8> = (0..100_000).map(|_| (lcg.next_u64() >> 24) as u8).collect();
    for raw in [vec![], vec![0u8; 100_000], noise] {
        for codec in [Codec::Uncompressed, Codec::Gzip, Codec::Brotli, Codec::Xz] {
            assert!(compress(&raw, codec).is_ok(), "{codec:?} {}", raw.len());
            let container = finish(&raw, codec).expect("finishes");
            assert_eq!(decompress(codec.byte(), raw.len(), &container[12..]), Ok(raw.clone()));
        }
        // brotli stores what it cannot shrink
        let body = compress(&raw, Codec::Brotli).expect("compresses");
        assert!(body.len() <= raw.len() + raw.len() / 0x4000 * 4 + 23, "{}", body.len());
    }
    assert_eq!(brotli_settings(), (11, 24));
}

#[test]
fn zstd_frames_roundtrip_through_the_pure_rust_reader() {
    let raw = payload(PAYLOAD_SIZE);
    let compressed = compress(&raw, Codec::Zstd).expect("encoder side must accept");
    assert!(is_frame_bounded(&compressed));
    let decoded = decompress_ruzstd(Codec::Zstd.byte(), raw.len(), &compressed)
        .unwrap_or_else(|error| panic!("reader backend refused: {error:?}"));
    assert_eq!(decoded, raw);
}

#[test]
fn every_codec_refuses_a_wrong_declared_size() {
    let raw = payload(2000);
    for codec in
        [Codec::Uncompressed, Codec::Gzip, Codec::Zstd, Codec::Brotli, Codec::Xz]
    {
        let compressed = compress(&raw, codec).expect("encoder side must accept");
        for n in [0, 1, raw.len() - 1, raw.len() + 1, raw.len() * 2] {
            let refused = decompress(codec.byte(), n, &compressed);
            assert_eq!(refused, Err(Error::RawLengthMismatch), "{codec:?} {n}");
        }
    }
}

#[test]
fn empty_and_tiny_payloads_roundtrip() {
    for raw in [vec![], vec![7u8], payload(300)] {
        for codec in
            [Codec::Uncompressed, Codec::Gzip, Codec::Zstd, Codec::Brotli, Codec::Xz]
        {
            let compressed = compress(&raw, codec).expect("compresses");
            let decoded = decompress(codec.byte(), raw.len(), &compressed);
            assert_eq!(decoded, Ok(raw.clone()), "{codec:?} {}", raw.len());
        }
    }
}

#[test]
fn compressors_shrink_what_compresses() {
    let raw = vec![7u8; 10_000];
    for codec in [Codec::Gzip, Codec::Zstd, Codec::Brotli, Codec::Xz] {
        let compressed = compress(&raw, codec).expect("compresses");
        assert!(compressed.len() < 1000, "{codec:?}");
        assert_ne!(compressed, raw);
    }
}

#[test]
fn both_zstd_backends_read_the_same_frame() {
    let raw = payload(20_000);
    let frame = compress(&raw, Codec::Zstd).expect("compresses");
    assert_eq!(decompress(2, raw.len(), &frame), Ok(raw.clone()));
    assert!(is_frame_bounded(&frame) && is_frame_bounded(b"not a zstd frame"));
    assert_eq!(decompress_ruzstd(2, raw.len(), &frame), Ok(raw));
    assert!(decompress_ruzstd(2, 64, b"not a zstd frame").is_err());
}

/// A frame of one compressed block: no literals, then `extra` sequences more
/// than the shortest three-byte number holds.
fn frame_with(block_len: u32, extra: u16) -> Vec<u8> {
    let mut frame = vec![0x28, 0xB5, 0x2F, 0xFD, 0x20, 0];
    frame.extend(&(block_len * 8 + 5).to_le_bytes()[..3]);
    let mut block = vec![0, 255];
    block.extend(extra.to_le_bytes());
    block.resize(block_len as usize, 0);
    frame.extend(block);
    frame
}

#[test]
fn frames_are_bounded_by_size_or_sequences() {
    assert!(is_frame_bounded(&frame_with(64_999, u16::MAX)));
    assert!(is_frame_bounded(&frame_with(65_000, 247)));
    assert!(!is_frame_bounded(&frame_with(65_000, 248)));
    assert!(!is_frame_bounded(&frame_with(0x2_0000, u16::MAX)));
    // no such block is read, so nothing bounds it
    assert!(is_frame_bounded(&frame_with(0x2_0001, u16::MAX)));
    let mut cut = frame_with(65_000, u16::MAX);
    cut.pop();
    assert!(is_frame_bounded(&cut));
    // the bounds hold for every block of a frame
    let mut two = frame_with(65_000, 0);
    two[6] -= 1;
    two.extend(&frame_with(65_000, 248)[6..]);
    assert!(!is_frame_bounded(&two));
    assert!(is_frame_bounded(&[]));
}

#[test]
fn any_declared_size_is_answered() {
    assert_eq!(decompress(0, usize::MAX, b"abc"), Err(Error::RawLengthMismatch));
    assert_eq!(decompress(9, usize::MAX, b"abc"), Err(Error::CodecNotCompiledIn(9)));
    let frame = compress(b"abc", Codec::Zstd).expect("compresses");
    assert_eq!(decompress(2, usize::MAX, &frame), Err(Error::RawLengthMismatch));
}

#[test]
fn finished_containers_decompress_to_their_payload() {
    let raw = payload(5_000);
    for codec in [Codec::Uncompressed, Codec::Gzip, Codec::Xz] {
        let container = finish(&raw, codec).expect("finishes");
        assert_eq!(&container[..4], b"uTZ1");
        assert_eq!(container[4], 7);
        assert_eq!(container[5], codec.byte());
        let len = u32::from_le_bytes([container[6], container[7], container[8], container[9]]);
        assert_eq!(len as usize, raw.len());
        assert_eq!(&container[10..12], &[0, 0]);
        assert_eq!(decompress(container[5], raw.len(), &container[12..]), Ok(raw.clone()));
    }
}

#[test]
fn size_lies_are_caught_by_every_codec() {
    let raw = payload(1_000);
    for codec in [
        Codec::Uncompressed,
        Codec::Gzip,
        Codec::Zstd,
        Codec::Brotli,
        Codec::Xz,
    ] {
        let body = compress(&raw, codec).expect("compresses");
        assert!(decompress(codec.byte(), raw.len() + 1, &body).is_err(), "{codec:?}");
    }
}

#[test]
fn outcomes_are_judged_as_stated() {
    assert_eq!(judge_stream(2, 3, Ok(vec![1, 2, 3])), Ok(vec![1, 2, 3]));
    assert_eq!(judge_stream(2, 4, Ok(vec![1, 2, 3])), Err(Error::RawLengthMismatch));
    assert_eq!(
        judge_stream(2, 3, Err(String::from("broken"))),
        Err(Error::DecoderFailed { codec: 2, detail: String::from("broken") })
    );
    assert_eq!(judge_xz(4, 1, Err((true, String::from("eof")))), Err(Error::Truncated));
    assert_eq!(
        judge_xz(4, 1, Err((false, String::from("bad")))),
        Err(Error::DecoderFailed { codec: 4, detail: String::from("bad") })
    );
    assert_eq!(judge_compressed(Ok(vec![9]), true), Ok(vec![9]));
    assert_eq!(
        judge_compressed(Err(String::from("no")), true),
        Err(EncodeError::Xz(String::from("no")))
    );
    assert_eq!(
        judge_compressed(Err(String::from("no")), false),
        Err(EncodeError::Compress(String::from("no")))
    );
    assert_eq!(judge_gzip(1, 2, Ok(2), vec![4, 5]), Ok(vec![4, 5]));
    assert_eq!(judge_gzip(1, 3, Ok(2), vec![4, 5, 0]), Err(Error::RawLengthMismatch));
    assert_eq!(
        judge_gzip(1, 2, Err(InflateFault::FailedCannotMakeProgress), vec![]),
        Err(Error::Truncated)
    );
    assert_eq!(
        judge_gzip(1, 2, Err(InflateFault::HasMoreOutput), vec![]),
        Err(Error::RawLengthMismatch)
    );
    assert_eq!(
        judge_brotli(3, 1, BrotliStatus::ResultSuccess, 1, vec![8]),
        Ok(vec![8])
    );
    assert_eq!(
        judge_brotli(3, 1, BrotliStatus::NeedsMoreInput, 0, vec![0]),
        Err(Error::Truncated)
    );
    assert_eq!(
        judge_brotli(3, 1, BrotliStatus::NeedsMoreOutput, 1, vec![0]),
        Err(Error::RawLengthMismatch)
    );
    assert_eq!(
        judge_brotli(3, 1, BrotliStatus::ResultFailure(String::from("why")), 0, vec![0]),
        Err(Error::DecoderFailed { codec: 3, detail: String::from("why") })
    );
}
