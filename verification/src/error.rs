//! Errors surfaced by the reader, and their messages.

use vstd::prelude::*;

use crate::common::GeomEncoding;

verus! {

/// Errors surfaced by the reader. The text carried by `DecoderFailed` and
/// `ReadFailed` is best-effort diagnostics for logs, not a parseable API.
#[non_exhaustive]
#[derive(Debug, Clone, PartialEq, Eq)]
pub enum Error {
    /// The byte source ends before the container does.
    Truncated,
    /// The magic bytes don't match: not an asset container.
    BadMagic,
    /// A container of a format version this reader doesn't speak.
    UnsupportedVersion(u8),
    /// A payload header field holds an invalid value.
    InvalidHeaderField,
    /// A section overruns the payload.
    SectionOverrun,
    /// The decoded payload size disagrees with the header's raw length.
    RawLengthMismatch,
    /// The codec byte has no backend.
    CodecNotCompiledIn(u8),
    /// A codec backend rejected the stream as corrupt.
    DecoderFailed {
        /// The codec byte whose backend failed.
        codec: u8,
        /// The backend's own diagnostic text.
        detail: String,
    },
    /// Reading the byte source failed; carries the I/O error's text.
    ReadFailed(String),
    /// A compressed asset was handed to the zero-copy loader.
    StaticAssetCompressed,
    /// A `FullRings` coordinate section is not 4-byte aligned in memory.
    Misaligned,
    /// A `FullRings` coordinate section is misaligned within the payload.
    FullRingsSectionMisaligned,
    /// A `FullRings` ring-end table disagrees with its coordinate count.
    FullRingsCountsDisagree,
    /// The geometry encoding has no decoder.
    GeometryNotCompiledIn(GeomEncoding),
    /// A table entry refers outside the table it points into.
    TableOutOfRange,
    /// The position is outside lon -180..=180, lat -90..=90, or NaN.
    InvalidPosition,
}

/// An error with its carried text as characters.
pub enum ErrorView {
    /// An error that carries no text.
    Plain(Error),
    /// `DecoderFailed`.
    Decoder {
        codec: u8,
        detail: Seq<char>,
    },
    /// `ReadFailed`.
    Read {
        detail: Seq<char>,
    },
}

impl View for Error {
    type V = ErrorView;

    open spec fn view(&self) -> ErrorView {
        match *self {
            Error::DecoderFailed { codec, detail } => ErrorView::Decoder { codec, detail: detail@ },
            Error::ReadFailed(detail) => ErrorView::Read { detail: detail@ },
            other => ErrorView::Plain(other),
        }
    }
}

/// The decimal digit of a value below ten.
pub open spec fn digit(v: nat) -> char {
    if v == 0 { '0' } else if v == 1 { '1' } else if v == 2 { '2' } else if v == 3 { '3' }
    else if v == 4 { '4' } else if v == 5 { '5' } else if v == 6 { '6' } else if v == 7 { '7' }
    else if v == 8 { '8' } else { '9' }
}

/// The decimal form of `v`.
pub open spec fn decimal(v: nat) -> Seq<char>
    decreases v,
{
    if v < 10 { seq![digit(v)] } else { decimal(v / 10) + seq![digit(v % 10)] }
}

/// The text of one decimal digit.
fn digit_str(v: u8) -> (s: &'static str)
    requires
        v < 10,
    ensures
        s@ == seq![digit(v as nat)],
{
    proof {
        reveal_strlit("0");
        reveal_strlit("1");
        reveal_strlit("2");
        reveal_strlit("3");
        reveal_strlit("4");
        reveal_strlit("5");
        reveal_strlit("6");
        reveal_strlit("7");
        reveal_strlit("8");
        reveal_strlit("9");
    }
    let s = match v {
        0 => "0",
        1 => "1",
        2 => "2",
        3 => "3",
        4 => "4",
        5 => "5",
        6 => "6",
        7 => "7",
        8 => "8",
        _ => "9",
    };
    assert(s@ =~= seq![digit(v as nat)]);
    s
}

/// Appends the decimal form of `v`.
pub fn push_decimal(out: &mut String, v: u8)
    ensures
        final(out)@ == old(out)@ + decimal(v as nat),
{
    reveal_with_fuel(decimal, 4);
    if v >= 100 {
        out.append(digit_str(v / 100));
    }
    if v >= 10 {
        out.append(digit_str(v / 10 % 10));
    }
    out.append(digit_str(v % 10));
    assert(out@ =~= old(out)@ + decimal(v as nat));
}

/// The name of a geometry encoding in messages.
pub open spec fn geom_name(geom: GeomEncoding) -> Seq<char> {
    match geom {
        GeomEncoding::VarintArcs => "VarintArcs"@,
        GeomEncoding::FixedWidthArcs => "FixedWidthArcs"@,
        GeomEncoding::FullRings => "FullRings"@,
        GeomEncoding::Coarse => "Coarse"@,
    }
}

impl Error {
    /// The message text of this error.
    pub open spec fn text(self) -> Seq<char> {
        match self {
            Error::Truncated => "byte source ends before the container does (truncated)"@,
            Error::BadMagic => "not a \u{3bc}TZ container (bad magic)"@,
            Error::UnsupportedVersion(version) => "unsupported container version "@ + decimal(
                version as nat,
            ),
            Error::InvalidHeaderField => "invalid payload header field"@,
            Error::SectionOverrun => "section overruns the payload"@,
            Error::RawLengthMismatch => "decoded size disagrees with the header's raw length"@,
            Error::CodecNotCompiledIn(codec) => "codec "@ + decimal(codec as nat)
                + " has no compiled-in backend"@,
            Error::DecoderFailed { codec, detail } => "codec "@ + decimal(codec as nat)
                + " decoder reported: "@ + detail@,
            Error::ReadFailed(detail) => "reading the container failed: "@ + detail@,
            Error::StaticAssetCompressed => "compressed container passed to from_static"@,
            Error::Misaligned =>
            "FullRings container not 4-byte aligned (use include_bytes_aligned!(4, ..))"@,
            Error::FullRingsSectionMisaligned =>
            "FullRings coordinate section misaligned within the payload"@,
            Error::FullRingsCountsDisagree =>
            "FullRings ring-end table disagrees with the coordinate count"@,
            Error::GeometryNotCompiledIn(geom) => "geometry encoding "@ + geom_name(geom)
                + " has no compiled-in decoder (enable the matching geom-* feature)"@,
            Error::TableOutOfRange => "a table entry refers out of range"@,
            Error::InvalidPosition => "position out of range"@,
        }
    }

    /// Renders the message.
    #[must_use]
    pub fn message(&self) -> (message: String)
        ensures
            message@ == self.text(),
    {
        match self {
            Error::Truncated => String::from_str(
                "byte source ends before the container does (truncated)",
            ),
            Error::BadMagic => String::from_str("not a \u{3bc}TZ container (bad magic)"),
            Error::UnsupportedVersion(version) => {
                let mut out = String::from_str("unsupported container version ");
                push_decimal(&mut out, *version);
                out
            },
            Error::InvalidHeaderField => String::from_str("invalid payload header field"),
            Error::SectionOverrun => String::from_str("section overruns the payload"),
            Error::RawLengthMismatch => String::from_str(
                "decoded size disagrees with the header's raw length",
            ),
            Error::CodecNotCompiledIn(codec) => {
                let mut out = String::from_str("codec ");
                push_decimal(&mut out, *codec);
                out.append(" has no compiled-in backend");
                out
            },
            Error::DecoderFailed { codec, detail } => {
                let mut out = String::from_str("codec ");
                push_decimal(&mut out, *codec);
                out.append(" decoder reported: ");
                out.append(detail.as_str());
                out
            },
            Error::ReadFailed(detail) => {
                let mut out = String::from_str("reading the container failed: ");
                out.append(detail.as_str());
                out
            },
            Error::StaticAssetCompressed => String::from_str(
                "compressed container passed to from_static",
            ),
            Error::Misaligned => String::from_str(
                "FullRings container not 4-byte aligned (use include_bytes_aligned!(4, ..))",
            ),
            Error::FullRingsSectionMisaligned => String::from_str(
                "FullRings coordinate section misaligned within the payload",
            ),
            Error::FullRingsCountsDisagree => String::from_str(
                "FullRings ring-end table disagrees with the coordinate count",
            ),
            Error::GeometryNotCompiledIn(geom) => {
                let mut out = String::from_str("geometry encoding ");
                match geom {
                    GeomEncoding::VarintArcs => out.append("VarintArcs"),
                    GeomEncoding::FixedWidthArcs => out.append("FixedWidthArcs"),
                    GeomEncoding::FullRings => out.append("FullRings"),
                    GeomEncoding::Coarse => out.append("Coarse"),
                }
                out.append(" has no compiled-in decoder (enable the matching geom-* feature)");
                out
            },
            Error::TableOutOfRange => String::from_str("a table entry refers out of range"),
            Error::InvalidPosition => String::from_str("position out of range"),
        }
    }
}

/// What a text of decimal digits says.
pub open spec fn digits_value(s: Seq<char>) -> int
    decreases s.len(),
{
    if s.len() == 0 {
        0
    } else {
        10 * digits_value(s.drop_last()) + (s.last() as int - '0' as int)
    }
}

/// The decimal form is made of digits that say the number, without a zero in
/// front of others.
pub proof fn lemma_decimal_says_the_number(v: nat)
    ensures
        decimal(v).len() >= 1,
        digits_value(decimal(v)) == v,
        forall|i: int| 0 <= i < decimal(v).len() ==> '0' <= decimal(v)[i] && decimal(v)[i] <= '9',
        decimal(v).len() > 1 ==> decimal(v)[0] != '0',
    decreases v,
{
    let s = decimal(v);
    if v >= 10 {
        lemma_decimal_says_the_number(v / 10);
        assert(s.drop_last() =~= decimal(v / 10));
        assert(s[0] == decimal(v / 10)[0]);
        if decimal(v / 10).len() == 1 {
            assert(decimal(v / 10).drop_last().len() == 0);
            assert(digits_value(decimal(v / 10).drop_last()) == 0);
        }
    } else {
        assert(s.drop_last().len() == 0);
        assert(digits_value(s.drop_last()) == 0);
    }
}

} // verus!
