//! The outside of a payload: what its header says, how its sections add up, and
//! which payloads are refused.

use vstd::prelude::*;
use vstd::utf8::encode_utf8;

use crate::bytes::{le_bytes, lemma_bytes_are_little_endian};
use crate::clean::{CleanStats, Vertex};
use crate::common::GeomEncoding;
use crate::csr::ids_of;
use crate::encode::{EncodeError, Params, SimplifyAlgo};
use crate::ieee::narrowed;
use crate::payload::{
    arcs_off_of, geometry_of, header_bytes, header_len, knob_bytes, payload_bytes, payload_stats,
    polys_verts, refs_verts, refusal, rings_verts, too_many_rings, Sections, Source,
};
use crate::readback::{holds, lemma_holds_split};
use crate::sections::{concat, flat_rings};
use crate::snapped::total_verts;
use crate::stitch::{joined, ring_of, stitched};

verus! {

/// Four bytes as a number, the least significant first.
pub open spec fn four(b: Seq<u8>, i: int) -> int {
    b[i] + 256 * (b[i + 1] + 256 * (b[i + 2] + 256 * b[i + 3]))
}

/// Two bytes as a number, the least significant first.
pub open spec fn two(b: Seq<u8>, i: int) -> int {
    b[i] + 256 * b[i + 1]
}

/// Four bytes that stand somewhere.
proof fn lemma_four(b: Seq<u8>, p: int, v: int)
    requires
        holds(b, p, le_bytes(v, 4)),
        0 <= v <= u32::MAX,
    ensures
        four(b, p) == v,
{
    let w = le_bytes(v, 4);
    assert(b.subrange(p, p + 4) == w);
    assert(w[0] == b[p] && w[1] == b[p + 1] && w[2] == b[p + 2] && w[3] == b[p + 3]);
    lemma_bytes_are_little_endian(w, 0, v);
}

/// The low four bytes of a number that stand somewhere.
proof fn lemma_low_four(b: Seq<u8>, p: int, v: int)
    requires
        holds(b, p, le_bytes(v, 4)),
    ensures
        four(b, p) == v % 0x1_0000_0000,
{
    let w = le_bytes(v, 4);
    assert(b.subrange(p, p + 4) == w);
    assert(w[0] == b[p] && w[1] == b[p + 1] && w[2] == b[p + 2] && w[3] == b[p + 3]);
    lemma_bytes_are_little_endian(w, 0, v);
}

/// Two bytes that stand somewhere.
proof fn lemma_two(b: Seq<u8>, p: int, v: int)
    requires
        holds(b, p, le_bytes(v, 2)),
        0 <= v <= 0xFFFF,
    ensures
        two(b, p) == v,
{
    let w = le_bytes(v, 2);
    assert(b.subrange(p, p + 2) == w);
    assert(w[0] == b[p] && w[1] == b[p + 1]);
}

/// A byte that stands somewhere.
proof fn lemma_one(b: Seq<u8>, p: int, v: int)
    requires
        holds(b, p, le_bytes(v, 1)),
        0 <= v <= 0xFF,
    ensures
        b[p] == v,
{
    let w = le_bytes(v, 1);
    assert(b.subrange(p, p + 1) == w);
    assert(w[0] == b[p]);
}

/// The vertices of some arcs, counted arc by arc.
pub open spec fn vertices_in(arcs: Seq<Seq<Vertex>>) -> nat {
    arcs.fold_left(0nat, |n: nat, arc: Seq<Vertex>| n + arc.len())
}

proof fn lemma_vertices_in(arcs: Seq<Seq<Vertex>>, n: int)
    requires
        0 <= n <= arcs.len(),
    ensures
        total_verts(arcs, n) == vertices_in(arcs.take(n)),
    decreases n,
{
    reveal(Seq::fold_left);
    if n > 0 {
        lemma_vertices_in(arcs, n - 1);
        assert(arcs.take(n).drop_last() =~= arcs.take(n - 1));
        assert(arcs.take(n).last() == arcs[n - 1]);
    }
}

/// The sizes that are reported of a payload that is accepted add up to its bytes,
/// and its arcs and vertices are counted.
pub proof fn lemma_sizes_add_up(p: Params, src: Source, clean: CleanStats)
    requires
        refusal(p, src) is None,
    ensures
        ({
            let st = payload_stats(p, src, clean);
            &&& st.header + st.zones + st.arcs + st.rings + st.grid == payload_bytes(p, src).len()
            &&& st.header == 40 + encode_utf8(p.tzbb_release@).len()
            &&& st.n_arcs == src.arcs.len()
            &&& st.n_verts == vertices_in(src.arcs)
            &&& st.clean == clean
        }),
{
    lemma_payload_len(p, src);
    lemma_vertices_in(src.arcs, src.arcs.len() as int);
    assert(src.arcs.take(src.arcs.len() as int) =~= src.arcs);
}

/// How long a payload is, section by section.
proof fn lemma_payload_len(p: Params, src: Source)
    ensures
        ({
            let s = geometry_of(p, src);
            payload_bytes(p, src).len() == arcs_off_of(p, src) + s.arcs.len() + s.rings.len()
                + crate::payload::grid_bytes(
                src.ncols,
                src.nrows,
                src.entries,
                src.lists,
                src.parent,
            ).len()
        }),
{
    reveal(payload_bytes);
    let s = geometry_of(p, src);
    let arcs_off = arcs_off_of(p, src);
    let head = header_bytes(
        p,
        src.names.len() as int,
        arcs_off,
        arcs_off + s.arcs.len(),
        arcs_off + s.arcs.len() + s.rings.len(),
        s,
        src.polys.len() as int,
    );
    assert(head.len() == header_len(encode_utf8(p.tzbb_release@).len() as int));
}

/// The header of an accepted payload: the knobs, the release behind its length,
/// the number of features, where the arcs, the ring index and the grid start, and
/// how many coordinates, rings and polygons the geometry decodes to.
pub proof fn lemma_payload_header(p: Params, src: Source)
    requires
        refusal(p, src) is None,
    ensures
        ({
            let b = payload_bytes(p, src);
            let s = geometry_of(p, src);
            let release = encode_utf8(p.tzbb_release@);
            let at = 14 + release.len() as int;
            &&& b[0] == p.dataset
            &&& b[1] == p.quant_bits
            &&& p.simplify == SimplifyAlgo::Rdp ==> b[2] == 0
            &&& p.simplify == SimplifyAlgo::Visvalingam ==> b[2] == 1
            &&& p.simplify == SimplifyAlgo::ImaiIri ==> b[2] == 2
            &&& p.geom == GeomEncoding::VarintArcs ==> b[3] == 0
            &&& p.geom == GeomEncoding::FixedWidthArcs ==> b[3] == 1
            &&& p.geom == GeomEncoding::FullRings ==> b[3] == 2
            &&& p.geom == GeomEncoding::Coarse ==> b[3] == 3
            &&& b[4] == 0
            &&& four(b, 5) == narrowed(p.grid_deg)
            &&& four(b, 9) == narrowed(p.eps_m)
            &&& b[13] == release.len()
            &&& b.subrange(14, at) == release
            &&& two(b, at) == src.names.len()
            &&& four(b, at + 2) == arcs_off_of(p, src)
            &&& four(b, at + 6) == four(b, at + 2) + s.arcs.len()
            &&& four(b, at + 10) == four(b, at + 6) + s.rings.len()
            &&& four(b, at + 14) == s.eager_coords
            &&& four(b, at + 18) == s.eager_rings % 0x1_0000_0000
            &&& four(b, at + 22) == src.polys.len()
        }),
{
    let b = payload_bytes(p, src);
    let s = geometry_of(p, src);
    let arcs_off = arcs_off_of(p, src);
    let rings_off = arcs_off + s.arcs.len();
    let grid_off = rings_off + s.rings.len();
    let n = src.names.len() as int;
    let head = header_bytes(p, n, arcs_off, rings_off, grid_off, s, src.polys.len() as int);
    lemma_payload_len(p, src);
    assert(holds(b, 0, head)) by {
        reveal(payload_bytes);
        assert(b.subrange(0, head.len() as int) =~= head);
    }
    lemma_header_parts(b, p, n, arcs_off, rings_off, grid_off, s, src.polys.len() as int);
    lemma_header_reads(b, p, n, arcs_off, rings_off, grid_off, s, src.polys.len() as int);
}

/// The parts of a header, each where it stands.
spec fn parts_stand(
    b: Seq<u8>,
    p: Params,
    n: int,
    arcs_off: int,
    rings_off: int,
    grid_off: int,
    s: Sections,
    n_polys: int,
) -> bool {
    let release = encode_utf8(p.tzbb_release@);
    let at = 14 + release.len() as int;
    &&& holds(b, 0, knob_bytes(p))
    &&& holds(b, 13, le_bytes(release.len() as int, 1))
    &&& holds(b, 14, release)
    &&& holds(b, at, le_bytes(n, 2))
    &&& holds(b, at + 2, le_bytes(arcs_off, 4))
    &&& holds(b, at + 6, le_bytes(rings_off, 4))
    &&& holds(b, at + 10, le_bytes(grid_off, 4))
    &&& holds(b, at + 14, le_bytes(s.eager_coords as int, 4))
    &&& holds(b, at + 18, le_bytes(s.eager_rings as int, 4))
    &&& holds(b, at + 22, le_bytes(n_polys, 4))
}

proof fn lemma_header_parts(
    b: Seq<u8>,
    p: Params,
    n: int,
    arcs_off: int,
    rings_off: int,
    grid_off: int,
    s: Sections,
    n_polys: int,
)
    requires
        holds(b, 0, header_bytes(p, n, arcs_off, rings_off, grid_off, s, n_polys)),
    ensures
        parts_stand(b, p, n, arcs_off, rings_off, grid_off, s, n_polys),
{
    let release = encode_utf8(p.tzbb_release@);
    let k = knob_bytes(p);
    let w0 = le_bytes(release.len() as int, 1);
    let w1 = le_bytes(n, 2);
    let w2 = le_bytes(arcs_off, 4);
    let w3 = le_bytes(rings_off, 4);
    let w4 = le_bytes(grid_off, 4);
    let w5 = le_bytes(s.eager_coords as int, 4);
    let w6 = le_bytes(s.eager_rings as int, 4);
    let w7 = le_bytes(n_polys, 4);
    let h0 = k + w0;
    let h1 = h0 + release;
    let h2 = h1 + w1;
    let h3 = h2 + w2;
    let h4 = h3 + w3;
    let h5 = h4 + w4;
    let h6 = h5 + w5;
    let h7 = h6 + w6;
    lemma_holds_split(b, 0, h7, w7);
    lemma_holds_split(b, 0, h6, w6);
    lemma_holds_split(b, 0, h5, w5);
    lemma_holds_split(b, 0, h4, w4);
    lemma_holds_split(b, 0, h3, w3);
    lemma_holds_split(b, 0, h2, w2);
    lemma_holds_split(b, 0, h1, w1);
    lemma_holds_split(b, 0, h0, release);
    lemma_holds_split(b, 0, k, w0);
}

proof fn lemma_header_reads(
    b: Seq<u8>,
    p: Params,
    n: int,
    arcs_off: int,
    rings_off: int,
    grid_off: int,
    s: Sections,
    n_polys: int,
)
    requires
        parts_stand(b, p, n, arcs_off, rings_off, grid_off, s, n_polys),
        p.quant_bits <= 255,
        encode_utf8(p.tzbb_release@).len() <= 255,
        0 <= n <= 0xFFFF,
        0 <= arcs_off <= rings_off <= grid_off <= u32::MAX,
        s.eager_coords <= u32::MAX,
        0 <= n_polys <= u32::MAX,
    ensures
        ({
            let release = encode_utf8(p.tzbb_release@);
            let at = 14 + release.len() as int;
            &&& b[0] == p.dataset
            &&& b[1] == p.quant_bits
            &&& b[2] == p.simplify.code()
            &&& b[3] == p.geom.code()
            &&& b[4] == 0
            &&& four(b, 5) == narrowed(p.grid_deg)
            &&& four(b, 9) == narrowed(p.eps_m)
            &&& b[13] == release.len()
            &&& b.subrange(14, at) == release
            &&& two(b, at) == n
            &&& four(b, at + 2) == arcs_off
            &&& four(b, at + 6) == rings_off
            &&& four(b, at + 10) == grid_off
            &&& four(b, at + 14) == s.eager_coords
            &&& four(b, at + 18) == s.eager_rings % 0x1_0000_0000
            &&& four(b, at + 22) == n_polys
        }),
{
    let release = encode_utf8(p.tzbb_release@);
    let at = 14 + release.len() as int;
    lemma_knobs(b, p);
    lemma_one(b, 13, release.len() as int);
    lemma_two(b, at, n);
    lemma_four(b, at + 2, arcs_off);
    lemma_four(b, at + 6, rings_off);
    lemma_four(b, at + 10, grid_off);
    lemma_four(b, at + 14, s.eager_coords as int);
    lemma_low_four(b, at + 18, s.eager_rings as int);
    lemma_four(b, at + 22, n_polys);
}

/// The knobs at the start of a header.
proof fn lemma_knobs(b: Seq<u8>, p: Params)
    requires
        holds(b, 0, knob_bytes(p)),
        p.quant_bits <= 255,
    ensures
        knob_bytes(p).len() == 13,
        b[0] == p.dataset,
        b[1] == p.quant_bits,
        b[2] == p.simplify.code(),
        b[3] == p.geom.code(),
        b[4] == 0,
        four(b, 5) == narrowed(p.grid_deg),
        four(b, 9) == narrowed(p.eps_m),
{
    let names = seq![p.dataset, p.quant_bits as u8, p.simplify.code(), p.geom.code(), 0u8];
    let grid = le_bytes(narrowed(p.grid_deg), 4);
    let eps = le_bytes(narrowed(p.eps_m), 4);
    lemma_holds_split(b, 0, names + grid, eps);
    lemma_holds_split(b, 0, names, grid);
    let w = b.subrange(0, 5);
    assert(w == names);
    assert(w[0] == b[0] && w[1] == b[1] && w[2] == b[2] && w[3] == b[3] && w[4] == b[4]);
    crate::ieee::lemma_narrowing_is_nearest(p.grid_deg);
    crate::ieee::lemma_narrowing_is_nearest(p.eps_m);
    lemma_four(b, 5, narrowed(p.grid_deg));
    lemma_four(b, 9, narrowed(p.eps_m));
}

/// A payload is accepted exactly where its quantization is one of three, its cells
/// are no smaller than a tenth of a degree and no larger than 45, and every count
/// fits the width it is stored at.
pub proof fn lemma_accepted_payloads(p: Params, src: Source)
    ensures
        refusal(p, src) is None <==> {
            &&& p.quant_bits == 16 || p.quant_bits == 24 || p.quant_bits == 32
            &&& 0x3FB9_9999_9999_999A <= p.grid_deg <= 0x4046_8000_0000_0000
            &&& src.names.len() <= 32766
            &&& src.polys.len() <= 32766
            &&& src.lists.len() <= 32766
            &&& ids_of(src.lists, src.lists.len() as int).len() <= 65535
            &&& encode_utf8(p.tzbb_release@).len() <= 255
            &&& geometry_of(p, src).eager_coords <= u32::MAX
            &&& concat(src.names, src.names.len() as int).len() <= 65535
            &&& p.geom == GeomEncoding::VarintArcs || p.geom == GeomEncoding::FixedWidthArcs
                ==> forall|i: int|
                0 <= i < src.polys.len() ==> (#[trigger] src.polys[i]).len() <= 65535
            &&& src.arcs.len() <= u32::MAX
            &&& vertices_in(src.arcs) <= u32::MAX
            &&& payload_bytes(p, src).len() <= u32::MAX
        },
        refusal(p, src) matches Some(EncodeError::QuantBits { bits }) ==> bits == p.quant_bits,
        refusal(p, src) matches Some(EncodeError::GridDeg { deg }) ==> deg == p.grid_deg,
{
    lemma_vertices_in(src.arcs, src.arcs.len() as int);
    assert(src.arcs.take(src.arcs.len() as int) =~= src.arcs);
    if !too_many_rings(p.geom, src.polys) {
        assert(p.geom == GeomEncoding::VarintArcs || p.geom == GeomEncoding::FixedWidthArcs
            ==> forall|i: int|
            0 <= i < src.polys.len() ==> (#[trigger] src.polys[i]).len() <= 65535);
    }
}

/// Whether a ring's arcs follow each other, each with a vertex, and lead back to
/// where the first starts.
pub open spec fn closes(refs: Seq<u32>, arcs: Seq<Seq<Vertex>>) -> bool {
    let path = stitched(refs, arcs, refs.len() as int);
    &&& refs.len() >= 1
    &&& forall|j: int|
        0 <= j < refs.len() ==> (#[trigger] refs[j] / 2) < arcs.len() && arcs[(refs[j] / 2) as int].len()
            > 0
    &&& joined(refs, arcs, refs.len() as int)
    &&& path.len() > 1
    &&& path[0] == path[path.len() - 1]
}

/// Stitching stores every vertex of the arcs but one for each place where two of
/// them meet.
proof fn lemma_stitched_len(refs: Seq<u32>, arcs: Seq<Seq<Vertex>>, n: int)
    requires
        1 <= n <= refs.len(),
        joined(refs, arcs, n),
        forall|j: int| 0 <= j < refs.len() ==> arcs[(#[trigger] refs[j] / 2) as int].len() > 0,
    ensures
        stitched(refs, arcs, n).len() + n - 1 == refs_verts(refs, arcs, n),
    decreases n,
{
    assert(arcs[(refs[n - 1] / 2) as int].len() > 0);
    if n > 1 {
        lemma_stitched_len(refs, arcs, n - 1);
    } else {
        assert(stitched(refs, arcs, 0).len() == 0);
        assert(refs_verts(refs, arcs, 0) == 0);
    }
}

/// The references of some rings, counted ring by ring.
pub open spec fn references_in(rings: Seq<Seq<u32>>) -> nat {
    rings.fold_left(0nat, |n: nat, refs: Seq<u32>| n + refs.len())
}

/// The vertices of some rings, counted ring by ring.
pub open spec fn ring_vertices_in(rings: Seq<Seq<u32>>, arcs: Seq<Seq<Vertex>>) -> nat {
    rings.fold_left(0nat, |n: nat, refs: Seq<u32>| n + ring_of(refs, arcs).len())
}

/// The vertices that the arcs of rings bring are those of the rings, and one for
/// each reference.
proof fn lemma_rings_counted(rings: Seq<Seq<u32>>, arcs: Seq<Seq<Vertex>>, n: int)
    requires
        0 <= n <= rings.len(),
        forall|r: int| 0 <= r < rings.len() ==> closes(#[trigger] rings[r], arcs),
    ensures
        rings_verts(rings, arcs, n) == ring_vertices_in(rings.take(n), arcs) + references_in(
            rings.take(n),
        ),
    decreases n,
{
    reveal(Seq::fold_left);
    if n > 0 {
        lemma_rings_counted(rings, arcs, n - 1);
        let refs = rings[n - 1];
        assert(closes(refs, arcs));
        lemma_stitched_len(refs, arcs, refs.len() as int);
        assert(rings.take(n).drop_last() =~= rings.take(n - 1));
        assert(rings.take(n).last() == refs);
    }
}

/// Counting two lists of rings in a row counts both.
proof fn lemma_counts_add(a: Seq<Seq<u32>>, b: Seq<Seq<u32>>, arcs: Seq<Seq<Vertex>>)
    ensures
        references_in(a + b) == references_in(a) + references_in(b),
        ring_vertices_in(a + b, arcs) == ring_vertices_in(a, arcs) + ring_vertices_in(b, arcs),
    decreases b.len(),
{
    reveal(Seq::fold_left);
    if b.len() == 0 {
        assert(a + b =~= a);
    } else {
        lemma_counts_add(a, b.drop_last(), arcs);
        assert((a + b).drop_last() =~= a + b.drop_last());
        assert((a + b).last() == b.last());
    }
}

/// What an encoding by arcs reserves for coordinates: the vertices of every ring,
/// and one more for each arc it is made of.
pub proof fn lemma_reserved_coordinates(
    polys: Seq<Seq<Seq<u32>>>,
    arcs: Seq<Seq<Vertex>>,
    n: int,
)
    requires
        0 <= n <= polys.len(),
        forall|p: int, r: int|
            0 <= p < polys.len() && 0 <= r < polys[p].len() ==> closes(#[trigger] polys[p][r], arcs),
    ensures
        polys_verts(polys, arcs, n) == ring_vertices_in(flat_rings(polys, n), arcs) + references_in(
            flat_rings(polys, n),
        ),
    decreases n,
{
    if n > 0 {
        lemma_reserved_coordinates(polys, arcs, n - 1);
        let rings = polys[n - 1];
        assert forall|r: int| 0 <= r < rings.len() implies closes(#[trigger] rings[r], arcs) by {
            assert(closes(polys[n - 1][r], arcs));
        }
        lemma_rings_counted(rings, arcs, rings.len() as int);
        assert(rings.take(rings.len() as int) =~= rings);
        lemma_counts_add(flat_rings(polys, n - 1), rings, arcs);
    } else {
        reveal(Seq::fold_left);
    }
}

} // verus!
