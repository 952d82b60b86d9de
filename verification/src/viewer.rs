//! The live viewer's knobs and records: which statistic, codec and algorithm
//! a knob index names, the records of the problems panel, and the match of a
//! simplified arc's vertices back to the vertices it was made from.

use crate::bytes::{le_bytes, push_u16, push_u32};
use crate::common::Codec;
use crate::encode::{
    body_of, compress, compress_is, EncodeError, PayloadStats, Simplify, SimplifyAlgo,
};
use crate::reconstruct::{places_equal, same_place};
use crate::sections::push_low16;
use crate::topology::Bits;
use crate::validate::Kind;
use vstd::prelude::*;

verus! {

/// The statistic behind an index: the five section sizes, the two counts, the
/// six cleanup removals; 0 for an unknown index.
pub open spec fn stat_at(s: PayloadStats, i: u32) -> u32 {
    if i == 0 {
        s.header
    } else if i == 1 {
        s.zones
    } else if i == 2 {
        s.arcs
    } else if i == 3 {
        s.rings
    } else if i == 4 {
        s.grid
    } else if i == 5 {
        s.n_arcs
    } else if i == 6 {
        s.n_verts
    } else if i == 7 {
        s.clean.dups
    } else if i == 8 {
        s.clean.spikes
    } else if i == 9 {
        s.clean.collinear
    } else if i == 10 {
        s.clean.rings_dropped
    } else if i == 11 {
        s.clean.polys_dropped
    } else if i == 12 {
        s.clean.arcs_dropped
    } else {
        0
    }
}

/// The statistic behind an index, 0 for an unknown one.
pub fn stat(s: &PayloadStats, i: u32) -> (value: u32)
    ensures
        value == stat_at(*s, i),
{
    match i {
        0 => s.header,
        1 => s.zones,
        2 => s.arcs,
        3 => s.rings,
        4 => s.grid,
        5 => s.n_arcs,
        6 => s.n_verts,
        7 => s.clean.dups,
        8 => s.clean.spikes,
        9 => s.clean.collinear,
        10 => s.clean.rings_dropped,
        11 => s.clean.polys_dropped,
        12 => s.clean.arcs_dropped,
        _ => 0,
    }
}

/// The codec behind the viewer's codec knob. Zstd has no place on it.
pub open spec fn knob_codec(knob: u32) -> Option<Codec> {
    if knob == 1 {
        Some(Codec::Gzip)
    } else if knob == 3 {
        Some(Codec::Brotli)
    } else if knob == 4 {
        Some(Codec::Xz)
    } else {
        None
    }
}

/// The size that a compression result is shown with, 0 for an error.
pub open spec fn shown_size(r: Result<Seq<u8>, EncodeError>) -> int {
    match r {
        Ok(body) => body.len() as int % 0x1_0000_0000,
        Err(_) => 0,
    }
}

/// The size to show for a compression: 0 for a failed one.
pub fn size_shown(r: &Result<Vec<u8>, EncodeError>) -> (size: u32)
    ensures
        size == shown_size(body_of(*r, 0)),
{
    match r {
        Ok(body) => {
            assert(body@.skip(0) =~= body@);
            (body.len() as u64 % 0x1_0000_0000) as u32
        },
        Err(_) => 0,
    }
}

/// The compressed size of a payload under a codec knob: 0 for an unknown
/// codec, for an empty payload and for a failed compression.
pub fn compressed_size(payload: &[u8], knob: u32) -> (size: u32)
    ensures
        match knob_codec(knob) {
            Some(codec) if payload@.len() > 0 => exists|r: Result<Seq<u8>, EncodeError>| #[trigger]
                compress_is(r, payload@, codec) && size == shown_size(r),
            _ => size == 0,
        },
{
    if payload.len() == 0 {
        return 0;
    }
    let codec = match knob {
        1 => Codec::Gzip,
        3 => Codec::Brotli,
        4 => Codec::Xz,
        _ => return 0,
    };
    let r = compress(payload, codec);
    assert(compress_is(body_of(r, 0), payload@, codec));
    size_shown(&r)
}

/// The simplification behind the viewer's algorithm knob. `eps` is the
/// tolerance in degrees and `area` its square, both as bits of a double.
pub fn simplify_knob(knob: u32, eps: u64, area: u64) -> (algo: Simplify)
    ensures
        algo == if knob == 0 {
            Simplify::Rdp { eps }
        } else if knob == 1 {
            Simplify::Visvalingam { min_area: area }
        } else if knob == 2 {
            Simplify::ImaiIri { eps }
        } else {
            Simplify::Unsimplified
        },
{
    match knob {
        0 => Simplify::Rdp { eps },
        1 => Simplify::Visvalingam { min_area: area },
        2 => Simplify::ImaiIri { eps },
        _ => Simplify::Unsimplified,
    }
}

/// The algorithm that a payload of the viewer's algorithm knob is stamped
/// with.
pub fn stamp_knob(knob: u32) -> (algo: SimplifyAlgo)
    ensures
        algo == if knob == 1 {
            SimplifyAlgo::Visvalingam
        } else if knob == 2 {
            SimplifyAlgo::ImaiIri
        } else {
            SimplifyAlgo::Rdp
        },
{
    match knob {
        1 => SimplifyAlgo::Visvalingam,
        2 => SimplifyAlgo::ImaiIri,
        _ => SimplifyAlgo::Rdp,
    }
}

/// One spot of the problems panel: its place as bits of two singles, what is
/// wrong there, and the feature that owns the ring.
#[derive(Clone, Copy, PartialEq, Eq, Structural, Debug)]
pub struct Spot {
    pub lon: u32,
    pub lat: u32,
    pub kind: Kind,
    pub feat: usize,
}

/// The record of a spot: longitude, latitude, kind (0 cross, 1 overlap) and
/// the low 16 bits of the feature index.
pub open spec fn spot_bytes(s: Spot) -> Seq<u8> {
    le_bytes(s.lon as int, 4) + le_bytes(s.lat as int, 4) + le_bytes(
        match s.kind {
            Kind::Cross => 0,
            Kind::Overlap => 1,
        },
        2,
    ) + le_bytes(s.feat as int, 2)
}

/// The records of the first `n` spots in a row.
pub open spec fn spots_bytes(spots: Seq<Spot>, n: int) -> Seq<u8>
    decreases n,
{
    if n <= 0 {
        Seq::empty()
    } else {
        spots_bytes(spots, n - 1) + spot_bytes(spots[n - 1])
    }
}

/// The twelve-byte records of the problems panel.
pub fn problem_records(spots: &[Spot]) -> (records: Vec<u8>)
    ensures
        records@ == spots_bytes(spots@, spots@.len() as int),
        records@.len() == 12 * spots@.len(),
{
    let mut out: Vec<u8> = Vec::new();
    let mut i: usize = 0;
    while i < spots.len()
        invariant
            i <= spots@.len(),
            out@ == spots_bytes(spots@, i as int),
            out@.len() == 12 * i,
        decreases spots@.len() - i,
    {
        let s = spots[i];
        push_u32(&mut out, s.lon);
        push_u32(&mut out, s.lat);
        let kind: u16 = match s.kind {
            Kind::Cross => 0,
            Kind::Overlap => 1,
        };
        push_u16(&mut out, kind);
        push_low16(&mut out, s.feat);
        assert(out@ =~= spots_bytes(spots@, i as int) + spot_bytes(s));
        i = i + 1;
    }
    out
}

/// The viewer's display quantization.
#[derive(Clone, Copy, PartialEq, Eq, Structural, Debug)]
pub enum Quant {
    /// no snap: coordinates pass through unchanged
    F64,
    /// round to the nearest single
    F32,
    /// round to 1e-7 degrees
    I32,
    /// snap to the signed 24-bit lattice over the axis span
    I24,
    /// snap to the signed 16-bit lattice over the axis span
    I16,
}

impl Quant {
    /// The mode behind the viewer's quantization knob; an unknown code means
    /// no snap.
    #[must_use]
    pub fn from_code(code: u32) -> (mode: Quant)
        ensures
            mode == if code == 1 {
                Quant::F32
            } else if code == 2 {
                Quant::I32
            } else if code == 3 {
                Quant::I24
            } else if code == 4 {
                Quant::I16
            } else {
                Quant::F64
            },
    {
        match code {
            1 => Quant::F32,
            2 => Quant::I32,
            3 => Quant::I24,
            4 => Quant::I16,
            _ => Quant::F64,
        }
    }
}

/// Whether `at` places each kept vertex on a source vertex that compares equal,
/// in order.
pub open spec fn embeds(kept: Seq<Bits>, src: Seq<Bits>, at: Seq<int>) -> bool {
    &&& at.len() == kept.len()
    &&& forall|v: int| 0 <= v < at.len() ==> 0 <= #[trigger] at[v] < src.len() && same_place(
        src[at[v]],
        kept[v],
    )
    &&& forall|v: int, w: int| 0 <= v < w < at.len() ==> (#[trigger] at[v]) < (#[trigger] at[w])
}

/// Positions as integers.
pub open spec fn positions(at: Seq<usize>) -> Seq<int> {
    at.map_values(|i: usize| i as int)
}

/// Matches the vertices a simplifier kept back to the indices of the vertices
/// it was given, each to the first equal vertex past its predecessor. `None`
/// exactly when the kept vertices are no subsequence of the given ones.
pub fn match_kept(kept: &[Bits], src: &[Bits]) -> (at: Option<Vec<usize>>)
    ensures
        at matches Some(at) ==> embeds(kept@, src@, positions(at@)),
        at matches Some(at) ==> forall|other: Seq<int>, v: int| #[trigger]
            embeds(kept@, src@, other) && 0 <= v < at@.len() ==> #[trigger] at@[v] <= other[v],
        at is None ==> forall|other: Seq<int>| !#[trigger] embeds(kept@, src@, other),
{
    let mut at: Vec<usize> = Vec::new();
    let mut j: usize = 0;
    let mut v: usize = 0;
    while v < kept.len()
        invariant
            v <= kept@.len(),
            at@.len() == v,
            j <= src@.len(),
            v > 0 ==> j == at@[v - 1] + 1,
            v == 0 ==> j == 0,
            forall|w: int| 0 <= w < v ==> 0 <= #[trigger] at@[w] < src@.len() && same_place(
                src@[at@[w] as int],
                kept@[w],
            ),
            forall|u: int, w: int| 0 <= u < w < v ==> (#[trigger] at@[u]) < (#[trigger] at@[w]),
            forall|other: Seq<int>, w: int| #[trigger]
                embeds(kept@, src@, other) && 0 <= w < v ==> #[trigger] at@[w] <= other[w],
        decreases kept@.len() - v,
    {
        let ghost from = j;
        while j < src.len() && !places_equal(src[j], kept[v])
            invariant
                v < kept@.len(),
                from <= j <= src@.len(),
                forall|i: int| from <= i < j ==> !same_place(#[trigger] src@[i], kept@[v as int]),
            decreases src@.len() - j,
        {
            j = j + 1;
        }
        proof {
            assert forall|other: Seq<int>| #[trigger] embeds(kept@, src@, other) implies other[v as int]
                >= j by {
                if v > 0 {
                    assert(at@[v - 1] <= other[v - 1]);
                    assert(other[v - 1] < other[v as int]);
                }
                assert(same_place(src@[other[v as int]], kept@[v as int]));
            }
        }
        if j == src.len() {
            proof {
                assert forall|other: Seq<int>| !#[trigger] embeds(kept@, src@, other) by {
                    if embeds(kept@, src@, other) {
                        assert(other[v as int] >= j);
                    }
                }
            }
            return None;
        }
        at.push(j);
        j = j + 1;
        v = v + 1;
    }
    Some(at)
}

/// One output segment that skips source vertices: the kept vertex it ends at,
/// and the source indices of its ends.
#[derive(Clone, Copy, PartialEq, Eq, Structural, Debug)]
pub struct Gap {
    pub end: usize,
    pub from: usize,
    pub to: usize,
}

/// The segments among the first `n` kept vertices that skip source vertices.
pub open spec fn gaps_of(at: Seq<usize>, n: int) -> Seq<Gap>
    decreases n,
{
    if n <= 1 {
        Seq::empty()
    } else if at[n - 1] > at[n - 2] + 1 {
        gaps_of(at, n - 1).push(Gap { end: (n - 1) as usize, from: at[n - 2], to: at[n - 1] })
    } else {
        gaps_of(at, n - 1)
    }
}

/// The output segments that skip source vertices, in order: the ones whose
/// pockets are priced.
pub fn gaps(at: &[usize]) -> (skipping: Vec<Gap>)
    ensures
        skipping@ == gaps_of(at@, at@.len() as int),
{
    let mut out: Vec<Gap> = Vec::new();
    let mut n: usize = if at.len() == 0 { 0 } else { 1 };
    while n < at.len()
        invariant
            n <= at@.len(),
            n == 0 ==> at@.len() == 0,
            out@ == gaps_of(at@, n as int),
        decreases at@.len() - n,
    {
        let (from, to) = (at[n - 1], at[n]);
        if to > from && to - from > 1 {
            out.push(Gap { end: n, from, to });
        }
        n = n + 1;
    }
    out
}

/// Whether a gap is the segment that ends at one of the first `n` kept
/// vertices and leaves source vertices out.
pub open spec fn leaves_out(at: Seq<usize>, n: int, g: Gap) -> bool {
    &&& 1 <= g.end < n
    &&& g.from == at[g.end - 1]
    &&& g.to == at[g.end as int]
    &&& g.to - g.from >= 2
}

/// The gaps are exactly the segments between kept neighbours that leave source
/// vertices out, in the order of the segments.
pub proof fn lemma_gaps_leave_vertices_out(at: Seq<usize>, n: int, g: Gap)
    requires
        0 <= n <= at.len(),
        at.len() <= usize::MAX,
    ensures
        gaps_of(at, n).contains(g) <==> leaves_out(at, n, g),
        forall|i: int, j: int|
            0 <= i < j < gaps_of(at, n).len() ==> gaps_of(at, n)[i].end < gaps_of(at, n)[j].end,
        forall|i: int| 0 <= i < gaps_of(at, n).len() ==> (#[trigger] gaps_of(at, n)[i]).end < n,
    decreases n,
{
    let all = gaps_of(at, n);
    if n > 1 {
        let before = gaps_of(at, n - 1);
        lemma_gaps_leave_vertices_out(at, n - 1, g);
        if at[n - 1] > at[n - 2] + 1 {
            let last = Gap { end: (n - 1) as usize, from: at[n - 2], to: at[n - 1] };
            assert(all == before.push(last));
            if before.contains(g) {
                let i = choose|i: int| 0 <= i < before.len() && before[i] == g;
                assert(all[i] == g);
            }
            assert(all[before.len() as int] == last);
            if all.contains(g) {
                let i = choose|i: int| 0 <= i < all.len() && all[i] == g;
                if i < before.len() {
                    assert(before[i] == g);
                }
            }
        }
    }
}

/// Whether the twelve bytes at `p` are a spot's record: longitude, latitude,
/// kind and feature, each with its least significant byte first.
pub open spec fn records_spot(b: Seq<u8>, p: int, s: Spot) -> bool {
    &&& s.lon == b[p] + 256 * (b[p + 1] + 256 * (b[p + 2] + 256 * b[p + 3]))
    &&& s.lat == b[p + 4] + 256 * (b[p + 5] + 256 * (b[p + 6] + 256 * b[p + 7]))
    &&& s.kind is Cross ==> b[p + 8] == 0 && b[p + 9] == 0
    &&& s.kind is Overlap ==> b[p + 8] == 1 && b[p + 9] == 0
    &&& s.feat as int % 0x1_0000 == b[p + 10] + 256 * b[p + 11]
}

/// One spot's record.
proof fn lemma_spot_record(s: Spot)
    ensures
        spot_bytes(s).len() == 12,
        records_spot(spot_bytes(s), 0, s),
{
    let b = spot_bytes(s);
    let lon = le_bytes(s.lon as int, 4);
    let lat = le_bytes(s.lat as int, 4);
    let feat = le_bytes(s.feat as int, 2);
    let kind = le_bytes(
        match s.kind {
            Kind::Cross => 0,
            Kind::Overlap => 1,
        },
        2,
    );
    assert(b == lon + lat + kind + feat);
    assert(b[0] == lon[0] && b[1] == lon[1] && b[2] == lon[2] && b[3] == lon[3]);
    assert(b[4] == lat[0] && b[5] == lat[1] && b[6] == lat[2] && b[7] == lat[3]);
    assert(b[8] == kind[0] && b[9] == kind[1]);
    assert(b[10] == feat[0] && b[11] == feat[1]);
    crate::bytes::lemma_bytes_are_little_endian(lon, 0, s.lon as int);
    crate::bytes::lemma_bytes_are_little_endian(lat, 0, s.lat as int);
}

/// The record of a spot stands at twelve times its number.
pub proof fn lemma_spot_records(spots: Seq<Spot>, n: int, k: int)
    requires
        0 <= k < n <= spots.len(),
    ensures
        spots_bytes(spots, n).len() == 12 * n,
        records_spot(spots_bytes(spots, n), 12 * k, spots[k]),
    decreases n,
{
    let before = spots_bytes(spots, n - 1);
    let last = spot_bytes(spots[n - 1]);
    let b = before + last;
    assert(spots_bytes(spots, n) == b);
    lemma_spot_record(spots[n - 1]);
    if n > 1 {
        lemma_spot_records(spots, n - 1, if k < n - 1 { k } else { 0 });
    } else {
        assert(before.len() == 0);
    }
    if k == n - 1 {
        assert forall|i: int| 0 <= i < 12 implies b[12 * k + i] == #[trigger] last[i] by {}
        assert(b[12 * k] == last[0] && b[12 * k + 1] == last[1] && b[12 * k + 2] == last[2] && b[12
            * k + 3] == last[3] && b[12 * k + 4] == last[4] && b[12 * k + 5] == last[5] && b[12 * k
            + 6] == last[6] && b[12 * k + 7] == last[7] && b[12 * k + 8] == last[8] && b[12 * k + 9]
            == last[9] && b[12 * k + 10] == last[10] && b[12 * k + 11] == last[11]);
    } else {
        assert forall|i: int| 0 <= i < before.len() implies b[i] == #[trigger] before[i] by {}
        let p = 12 * k;
        assert(b[p] == before[p] && b[p + 1] == before[p + 1] && b[p + 2] == before[p + 2] && b[p
            + 3] == before[p + 3] && b[p + 4] == before[p + 4] && b[p + 5] == before[p + 5] && b[p
            + 6] == before[p + 6] && b[p + 7] == before[p + 7] && b[p + 8] == before[p + 8] && b[p
            + 9] == before[p + 9] && b[p + 10] == before[p + 10] && b[p + 11] == before[p + 11]);
    }
}

/// No statistic stands behind an index above twelve, and each of the thirteen
/// stands behind one index: knowing all of them is knowing the statistics.
pub proof fn lemma_indices_name_each_statistic(s: PayloadStats, t: PayloadStats, i: u32)
    ensures
        i > 12 ==> stat_at(s, i) == 0,
        (forall|k: u32| k <= 12 ==> #[trigger] stat_at(s, k) == stat_at(t, k)) ==> s == t,
        s.header == stat_at(s, 0) && s.zones == stat_at(s, 1) && s.arcs == stat_at(s, 2) && s.rings
            == stat_at(s, 3) && s.grid == stat_at(s, 4) && s.n_arcs == stat_at(s, 5) && s.n_verts
            == stat_at(s, 6) && s.clean.dups == stat_at(s, 7) && s.clean.spikes == stat_at(s, 8)
            && s.clean.collinear == stat_at(s, 9) && s.clean.rings_dropped == stat_at(s, 10)
            && s.clean.polys_dropped == stat_at(s, 11) && s.clean.arcs_dropped == stat_at(s, 12),
{
    if forall|k: u32| k <= 12 ==> #[trigger] stat_at(s, k) == stat_at(t, k) {
        assert(stat_at(s, 0) == stat_at(t, 0) && stat_at(s, 1) == stat_at(t, 1) && stat_at(s, 2)
            == stat_at(t, 2) && stat_at(s, 3) == stat_at(t, 3) && stat_at(s, 4) == stat_at(t, 4)
            && stat_at(s, 5) == stat_at(t, 5) && stat_at(s, 6) == stat_at(t, 6) && stat_at(s, 7)
            == stat_at(t, 7) && stat_at(s, 8) == stat_at(t, 8) && stat_at(s, 9) == stat_at(t, 9)
            && stat_at(s, 10) == stat_at(t, 10) && stat_at(s, 11) == stat_at(t, 11) && stat_at(
            s,
            12,
        ) == stat_at(t, 12));
    }
}

/// A body is shown by its size, and a failure by none.
pub proof fn lemma_shown_sizes(body: Seq<u8>, error: EncodeError)
    ensures
        body.len() <= u32::MAX ==> shown_size(Ok(body)) == body.len(),
        shown_size(Err(error)) == 0,
        knob_codec(1) == Some(Codec::Gzip) && knob_codec(3) == Some(Codec::Brotli) && knob_codec(4)
            == Some(Codec::Xz),
        forall|knob: u32|
            knob != 1 && knob != 3 && knob != 4 ==> (#[trigger] knob_codec(knob)) is None,
{
}

} // verus!
