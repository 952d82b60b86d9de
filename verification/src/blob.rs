//! The viewer's topology blob: arcs, optional densities, and the topology
//! section the live encoder works from.
//!
//! ```text
//! "uTZv" | flags u32 (1 = densities, 2 = topology section)
//!        | n_arcs u32 | n_verts u32 | arc offsets u32[n_arcs+1]
//!        | zero bytes to a multiple of 8 | vertices f64 pairs
//!        | densities f32[n_verts] (flag 1)
//! topology section:
//!   dataset u8 | release (len u8 + bytes) | n_features u16
//!   | per feature: offset f32, tzid (len u8 + bytes)
//!   | n_rings u32 | per ring: n u32, refs u32[n]
//!   | per feature: npolys u16; per poly: nrings u16, ring indices u32[nrings]
//! ```

use vstd::prelude::*;
use vstd::utf8::{decode_utf8, valid_utf8};

use crate::bytes::{bytes_eq_at, u16_at, u32_at, u64_at};
use crate::format::{read_u16, read_u32};
use crate::owners::rings_view;
use crate::text::{decode_text, text_of};
use crate::topology::{Bits, Topology};

verus! {

/// A feature's metadata; its geometry lives in the topology.
pub struct BlobFeature {
    /// the UTC offset, the bit pattern of an `f32`
    pub offset: u32,
    pub tzid: Option<String>,
}

/// A parsed blob.
pub struct Blob {
    pub topo: Topology,
    /// per-vertex density, bit patterns of `f32`s in arc order; empty when not
    /// shipped
    pub dens: Vec<u32>,
    pub feats: Vec<BlobFeature>,
    pub dataset_code: u8,
    pub release: String,
}

/// A feature's metadata as mathematical data.
pub struct FeatureView {
    pub offset: int,
    pub tzid: Option<Seq<char>>,
}

/// A parsed blob as mathematical data.
#[verifier::ext_equal]
pub struct BlobView {
    pub arcs: Seq<Seq<Bits>>,
    pub dens: Seq<u32>,
    pub feats: Seq<FeatureView>,
    pub ring_refs: Seq<Seq<u32>>,
    pub structure: Seq<Seq<Seq<usize>>>,
    pub dataset_code: u8,
    pub release: Seq<char>,
}

/// Whether `n` bytes stand at `p`.
pub open spec fn room(b: Seq<u8>, p: int, n: int) -> bool {
    0 <= p && p + n <= b.len()
}

/// `n` u32s from `p` on, and the position behind them.
pub open spec fn u32s_at(b: Seq<u8>, p: int, n: int) -> Option<(Seq<u32>, int)> {
    if n <= 0 || room(b, p, 4 * n) {
        Some((Seq::new(n as nat, |i: int| u32_at(b, p + 4 * i) as u32), p + 4 * n))
    } else {
        None
    }
}

/// The text of `n` bytes at `p`, and the position behind them.
pub open spec fn text_at(b: Seq<u8>, p: int, n: int) -> Option<(Seq<char>, int)> {
    if room(b, p, n) {
        match text_of(b.subrange(p, p + n)) {
            Some(text) => Some((text, p + n)),
            None => None,
        }
    } else {
        None
    }
}

/// Whether offsets ascend.
pub open spec fn offsets_ascend(offs: Seq<u32>) -> bool {
    forall|a: int, c: int| 0 <= a <= c < offs.len() ==> offs[a] <= offs[c]
}

/// The point at `p`.
pub open spec fn point_at(b: Seq<u8>, p: int) -> Bits {
    (u64_at(b, p) as u64, u64_at(b, p + 8) as u64)
}

/// The arcs whose vertices start at `p`, one behind the other.
pub open spec fn arcs_at(b: Seq<u8>, p: int, offs: Seq<u32>) -> Seq<Seq<Bits>> {
    Seq::new(
        (offs.len() - 1) as nat,
        |a: int|
            Seq::new(
                (offs[a + 1] - offs[a]) as nat,
                |i: int| point_at(b, p + 16 * (offs[a] - offs[0] + i)),
            ),
    )
}

/// The next multiple of eight.
pub open spec fn aligned(p: int) -> int {
    (p + 7) / 8 * 8
}

/// A feature's metadata at `p`: an empty tzid is none.
pub open spec fn feature_at(b: Seq<u8>, p: int) -> Option<(FeatureView, int)> {
    if room(b, p, 5) {
        match text_at(b, p + 5, b[p + 4] as int) {
            Some((tzid, next)) => Some(
                (
                    FeatureView {
                        offset: u32_at(b, p),
                        tzid: if tzid.len() == 0 {
                            None
                        } else {
                            Some(tzid)
                        },
                    },
                    next,
                ),
            ),
            None => None,
        }
    } else {
        None
    }
}

/// `n` features' metadata from `p` on.
pub open spec fn features_at(b: Seq<u8>, p: int, n: int) -> Option<(Seq<FeatureView>, int)>
    decreases n,
{
    if n <= 0 {
        Some((Seq::empty(), p))
    } else {
        match features_at(b, p, n - 1) {
            Some((done, q)) => match feature_at(b, q) {
                Some((f, next)) => Some((done.push(f), next)),
                None => None,
            },
            None => None,
        }
    }
}

/// A counted list of u32s at `p`.
pub open spec fn counted_at(b: Seq<u8>, p: int) -> Option<(Seq<u32>, int)> {
    if room(b, p, 4) {
        u32s_at(b, p + 4, u32_at(b, p))
    } else {
        None
    }
}

/// `n` rings' references from `p` on.
pub open spec fn ring_lists_at(b: Seq<u8>, p: int, n: int) -> Option<(Seq<Seq<u32>>, int)>
    decreases n,
{
    if n <= 0 {
        Some((Seq::empty(), p))
    } else {
        match ring_lists_at(b, p, n - 1) {
            Some((done, q)) => match counted_at(b, q) {
                Some((refs, next)) => Some((done.push(refs), next)),
                None => None,
            },
            None => None,
        }
    }
}

/// Ring indices as machine integers.
pub open spec fn widened(v: Seq<u32>) -> Seq<usize> {
    Seq::new(v.len(), |i: int| v[i] as usize)
}

/// A polygon's ring indices at `p`.
pub open spec fn poly_at(b: Seq<u8>, p: int) -> Option<(Seq<usize>, int)> {
    if room(b, p, 2) {
        match u32s_at(b, p + 2, u16_at(b, p)) {
            Some((rings, next)) => Some((widened(rings), next)),
            None => None,
        }
    } else {
        None
    }
}

/// `n` polygons from `p` on.
pub open spec fn polys_at(b: Seq<u8>, p: int, n: int) -> Option<(Seq<Seq<usize>>, int)>
    decreases n,
{
    if n <= 0 {
        Some((Seq::empty(), p))
    } else {
        match polys_at(b, p, n - 1) {
            Some((done, q)) => match poly_at(b, q) {
                Some((poly, next)) => Some((done.push(poly), next)),
                None => None,
            },
            None => None,
        }
    }
}

/// A feature's polygons at `p`.
pub open spec fn shape_at(b: Seq<u8>, p: int) -> Option<(Seq<Seq<usize>>, int)> {
    if room(b, p, 2) {
        polys_at(b, p + 2, u16_at(b, p))
    } else {
        None
    }
}

/// `n` features' polygons from `p` on.
pub open spec fn shapes_at(b: Seq<u8>, p: int, n: int) -> Option<(Seq<Seq<Seq<usize>>>, int)>
    decreases n,
{
    if n <= 0 {
        Some((Seq::empty(), p))
    } else {
        match shapes_at(b, p, n - 1) {
            Some((done, q)) => match shape_at(b, q) {
                Some((shape, next)) => Some((done.push(shape), next)),
                None => None,
            },
            None => None,
        }
    }
}

/// The magic bytes, ASCII `uTZv`.
pub const BLOB_MAGIC: [u8; 4] = [0x75, 0x54, 0x5A, 0x76];

/// The topology section at `p`.
#[verifier::opaque]
pub open spec fn section_at(b: Seq<u8>, p: int, arcs: Seq<Seq<Bits>>, dens: Seq<u32>) -> Option<
    BlobView,
> {
    if !room(b, p, 2) {
        None
    } else {
        match text_at(b, p + 2, b[p + 1] as int) {
            None => None,
            Some((release, q)) => if !room(b, q, 2) {
                None
            } else {
                let n = u16_at(b, q);
                match features_at(b, q + 2, n) {
                    None => None,
                    Some((feats, q2)) => if !room(b, q2, 4) {
                        None
                    } else {
                        match ring_lists_at(b, q2 + 4, u32_at(b, q2)) {
                            None => None,
                            Some((ring_refs, q3)) => match shapes_at(b, q3, n) {
                                None => None,
                                Some((structure, _)) => Some(
                                    BlobView {
                                        arcs,
                                        dens,
                                        feats,
                                        ring_refs,
                                        structure,
                                        dataset_code: b[p],
                                        release,
                                    },
                                ),
                            },
                        }
                    },
                }
            },
        }
    }
}

/// The vertex section behind the offsets `offs`, which end at `p`.
pub open spec fn vertices_at(
    b: Seq<u8>,
    p: int,
    offs: Seq<u32>,
    n_verts: int,
    densities: bool,
) -> Option<BlobView> {
    let base = aligned(p);
    let count = n_verts - offs[0];
    if count > 0 && !room(b, base, 16 * count) {
        None
    } else if densities {
        match u32s_at(b, base + 16 * count, n_verts) {
            Some((dens, next)) => section_at(b, next, arcs_at(b, base, offs), dens),
            None => None,
        }
    } else {
        section_at(b, base + 16 * count, arcs_at(b, base, offs), Seq::empty())
    }
}

/// What a blob holds, `None` where it is malformed or has no topology section.
pub open spec fn blob_of(b: Seq<u8>) -> Option<BlobView> {
    if !room(b, 0, 16) || b.subrange(0, 4) != BLOB_MAGIC@ || u32_at(b, 4) / 2 % 2 == 0 {
        None
    } else {
        let n_arcs = u32_at(b, 8);
        let n_verts = u32_at(b, 12);
        match u32s_at(b, 16, n_arcs + 1) {
            None => None,
            Some((offs, p)) => if offs.last() != n_verts || !offsets_ascend(offs) {
                None
            } else {
                vertices_at(b, p, offs, n_verts, u32_at(b, 4) % 2 == 1)
            },
        }
    }
}

/// A parsed blob's contents.
pub open spec fn blob_view(blob: Blob) -> BlobView {
    BlobView {
        arcs: Seq::new(blob.topo.arc_coords@.len(), |a: int| blob.topo.arc_coords@[a]@),
        dens: blob.dens@,
        feats: features_view(blob.feats@),
        ring_refs: rings_view(blob.topo.ring_refs@),
        structure: shapes_view(blob.topo.structure@),
        dataset_code: blob.dataset_code,
        release: blob.release@,
    }
}

/// A feature's contents.
pub open spec fn feature_contents(f: BlobFeature) -> FeatureView {
    FeatureView {
        offset: f.offset as int,
        tzid: match f.tzid {
            Some(name) => Some(name@),
            None => None,
        },
    }
}

/// The features' contents.
pub open spec fn features_view(feats: Seq<BlobFeature>) -> Seq<FeatureView> {
    Seq::new(feats.len(), |i: int| feature_contents(feats[i]))
}

/// A feature's polygons as sequences.
pub open spec fn shape_view(shape: Seq<Vec<usize>>) -> Seq<Seq<usize>> {
    Seq::new(shape.len(), |i: int| shape[i]@)
}

/// The features' polygons as sequences.
pub open spec fn shapes_view(shapes: Seq<Vec<Vec<usize>>>) -> Seq<Seq<Seq<usize>>> {
    Seq::new(shapes.len(), |i: int| shape_view(shapes[i]@))
}

/// Reads a `u64`.
fn read_u64(b: &[u8], p: usize) -> (v: u64)
    requires
        p + 8 <= b@.len(),
    ensures
        v == u64_at(b@, p as int),
{
    let len = b.len();
    assert(p + 8 <= len);
    read_u32(b, p) as u64 + 0x1_0000_0000 * (read_u32(b, p + 4) as u64)
}

/// A value read, with the position behind it.
pub struct Rd<T> {
    pub value: T,
    pub next: usize,
}

/// Reads `n` u32s.
fn read_u32s(b: &[u8], p: usize, n: usize) -> (r: Option<Rd<Vec<u32>>>)
    requires
        p <= b@.len(),
    ensures
        match u32s_at(b@, p as int, n as int) {
            Some((v, next)) => r matches Some(rd) && rd.value@ == v && rd.next == next && next
                <= b@.len(),
            None => r is None,
        },
{
    let len = b.len();
    if n > (len - p) / 4 {
        return None;
    }
    let mut v: Vec<u32> = Vec::new();
    let mut i: usize = 0;
    while i < n
        invariant
            i <= n,
            len == b@.len(),
            p + 4 * n <= len,
            v@.len() == i,
            forall|k: int| 0 <= k < i ==> #[trigger] v@[k] == u32_at(b@, p + 4 * k),
        decreases n - i,
    {
        v.push(read_u32(b, p + 4 * i));
        i = i + 1;
    }
    assert(v@ =~= Seq::new(n as nat, |k: int| u32_at(b@, p + 4 * k) as u32));
    Some(Rd { value: v, next: p + 4 * n })
}

/// Reads text of `n` bytes.
fn read_text<'a>(b: &'a [u8], p: usize, n: usize) -> (r: Option<Rd<&'a str>>)
    requires
        p <= b@.len(),
    ensures
        match text_at(b@, p as int, n as int) {
            Some((text, next)) => r matches Some(rd) && rd.value@ == text && rd.next == next && next
                <= b@.len(),
            None => r is None,
        },
{
    let len = b.len();
    if n > len - p {
        return None;
    }
    let bytes = vstd::slice::slice_subrange(b, p, p + n);
    match decode_text(bytes) {
        Some(text) => Some(Rd { value: text, next: p + n }),
        None => None,
    }
}

proof fn lemma_empty_text(bytes: Seq<u8>)
    requires
        valid_utf8(bytes),
    ensures
        (decode_utf8(bytes).len() == 0) == (bytes.len() == 0),
{
}

/// Reads one feature's metadata.
fn read_feature(b: &[u8], p: usize) -> (r: Option<Rd<BlobFeature>>)
    requires
        p <= b@.len(),
    ensures
        match feature_at(b@, p as int) {
            Some((f, next)) => r matches Some(rd) && feature_contents(rd.value) == f && rd.next
                == next && next <= b@.len(),
            None => r is None,
        },
{
    let len = b.len();
    if len - p < 5 {
        return None;
    }
    let offset = read_u32(b, p);
    let n = b[p + 4] as usize;
    match read_text(b, p + 5, n) {
        Some(rd) => {
            proof {
                lemma_empty_text(b@.subrange(p + 5, p + 5 + n));
            }
            let tzid = if n == 0 {
                None
            } else {
                Some(String::from_str(rd.value))
            };
            Some(Rd { value: BlobFeature { offset, tzid }, next: rd.next })
        },
        None => None,
    }
}

proof fn lemma_features_stop(b: Seq<u8>, p: int, m: int, n: int)
    requires
        m <= n,
        features_at(b, p, m) is None,
    ensures
        features_at(b, p, n) is None,
    decreases n - m,
{
    if m < n {
        lemma_features_stop(b, p, m, n - 1);
    }
}

/// Reads `n` features' metadata.
fn read_features(b: &[u8], p: usize, n: usize) -> (r: Option<Rd<Vec<BlobFeature>>>)
    requires
        p <= b@.len(),
    ensures
        match features_at(b@, p as int, n as int) {
            Some((v, next)) => r matches Some(rd) && features_view(rd.value@) == v && rd.next
                == next && next <= b@.len(),
            None => r is None,
        },
{
    let mut v: Vec<BlobFeature> = Vec::new();
    let mut at = p;
    let mut i: usize = 0;
    assert(features_view(v@) =~= Seq::<FeatureView>::empty());
    while i < n
        invariant
            i <= n,
            at <= b@.len(),
            features_at(b@, p as int, i as int) == Some((features_view(v@), at as int)),
        decreases n - i,
    {
        match read_feature(b, at) {
            Some(rd) => {
                let ghost before = features_view(v@);
                let ghost f = feature_contents(rd.value);
                v.push(rd.value);
                assert(features_view(v@) =~= before.push(f));
                at = rd.next;
            },
            None => {
                proof {
                    lemma_features_stop(b@, p as int, i as int + 1, n as int);
                }
                return None;
            },
        }
        i = i + 1;
    }
    Some(Rd { value: v, next: at })
}

proof fn lemma_rings_stop(b: Seq<u8>, p: int, m: int, n: int)
    requires
        m <= n,
        ring_lists_at(b, p, m) is None,
    ensures
        ring_lists_at(b, p, n) is None,
    decreases n - m,
{
    if m < n {
        lemma_rings_stop(b, p, m, n - 1);
    }
}

/// Reads `n` rings' references.
fn read_rings(b: &[u8], p: usize, n: usize) -> (r: Option<Rd<Vec<Vec<u32>>>>)
    requires
        p <= b@.len(),
    ensures
        match ring_lists_at(b@, p as int, n as int) {
            Some((v, next)) => r matches Some(rd) && rings_view(rd.value@) == v && rd.next == next
                && next <= b@.len(),
            None => r is None,
        },
{
    let len = b.len();
    let mut v: Vec<Vec<u32>> = Vec::new();
    let mut at = p;
    let mut i: usize = 0;
    assert(rings_view(v@) =~= Seq::<Seq<u32>>::empty());
    while i < n
        invariant
            i <= n,
            len == b@.len(),
            at <= len,
            ring_lists_at(b@, p as int, i as int) == Some((rings_view(v@), at as int)),
        decreases n - i,
    {
        let read = if len - at < 4 {
            None
        } else {
            read_u32s(b, at + 4, read_u32(b, at) as usize)
        };
        match read {
            Some(rd) => {
                let ghost before = rings_view(v@);
                let ghost refs = rd.value@;
                v.push(rd.value);
                assert(rings_view(v@) =~= before.push(refs));
                at = rd.next;
            },
            None => {
                proof {
                    lemma_rings_stop(b@, p as int, i as int + 1, n as int);
                }
                return None;
            },
        }
        i = i + 1;
    }
    Some(Rd { value: v, next: at })
}

proof fn lemma_polys_stop(b: Seq<u8>, p: int, m: int, n: int)
    requires
        m <= n,
        polys_at(b, p, m) is None,
    ensures
        polys_at(b, p, n) is None,
    decreases n - m,
{
    if m < n {
        lemma_polys_stop(b, p, m, n - 1);
    }
}

/// Ring indices as machine integers.
fn widen(v: &Vec<u32>) -> (out: Vec<usize>)
    ensures
        out@ == widened(v@),
{
    let mut out: Vec<usize> = Vec::new();
    let mut i: usize = 0;
    while i < v.len()
        invariant
            i <= v@.len(),
            out@.len() == i,
            forall|k: int| 0 <= k < i ==> #[trigger] out@[k] == v@[k],
        decreases v@.len() - i,
    {
        out.push(v[i] as usize);
        i = i + 1;
    }
    assert(out@ =~= widened(v@));
    out
}

/// Reads one feature's polygons.
fn read_shape(b: &[u8], p: usize) -> (r: Option<Rd<Vec<Vec<usize>>>>)
    requires
        p <= b@.len(),
    ensures
        match shape_at(b@, p as int) {
            Some((v, next)) => r matches Some(rd) && shape_view(rd.value@) == v && rd.next == next
                && next <= b@.len(),
            None => r is None,
        },
{
    let len = b.len();
    if len - p < 2 {
        return None;
    }
    let n = read_u16(b, p) as usize;
    let mut v: Vec<Vec<usize>> = Vec::new();
    let mut at = p + 2;
    let mut i: usize = 0;
    assert(shape_view(v@) =~= Seq::<Seq<usize>>::empty());
    while i < n
        invariant
            i <= n,
            len == b@.len(),
            p + 2 <= len,
            n == u16_at(b@, p as int),
            at <= len,
            polys_at(b@, p + 2, i as int) == Some((shape_view(v@), at as int)),
        decreases n - i,
    {
        let read = if len - at < 2 {
            None
        } else {
            read_u32s(b, at + 2, read_u16(b, at) as usize)
        };
        match read {
            Some(rd) => {
                let ghost before = shape_view(v@);
                let poly = widen(&rd.value);
                let ghost rings = poly@;
                v.push(poly);
                assert(shape_view(v@) =~= before.push(rings));
                at = rd.next;
            },
            None => {
                proof {
                    lemma_polys_stop(b@, p + 2, i as int + 1, n as int);
                }
                return None;
            },
        }
        i = i + 1;
    }
    Some(Rd { value: v, next: at })
}

proof fn lemma_shapes_stop(b: Seq<u8>, p: int, m: int, n: int)
    requires
        m <= n,
        shapes_at(b, p, m) is None,
    ensures
        shapes_at(b, p, n) is None,
    decreases n - m,
{
    if m < n {
        lemma_shapes_stop(b, p, m, n - 1);
    }
}

/// Reads `n` features' polygons.
fn read_shapes(b: &[u8], p: usize, n: usize) -> (r: Option<Rd<Vec<Vec<Vec<usize>>>>>)
    requires
        p <= b@.len(),
    ensures
        match shapes_at(b@, p as int, n as int) {
            Some((v, next)) => r matches Some(rd) && shapes_view(rd.value@) == v && rd.next == next,
            None => r is None,
        },
{
    let mut v: Vec<Vec<Vec<usize>>> = Vec::new();
    let mut at = p;
    let mut i: usize = 0;
    assert(shapes_view(v@) =~= Seq::<Seq<Seq<usize>>>::empty());
    while i < n
        invariant
            i <= n,
            at <= b@.len(),
            shapes_at(b@, p as int, i as int) == Some((shapes_view(v@), at as int)),
        decreases n - i,
    {
        match read_shape(b, at) {
            Some(rd) => {
                let ghost before = shapes_view(v@);
                let ghost shape = shape_view(rd.value@);
                v.push(rd.value);
                assert(shapes_view(v@) =~= before.push(shape));
                at = rd.next;
            },
            None => {
                proof {
                    lemma_shapes_stop(b@, p as int, i as int + 1, n as int);
                }
                return None;
            },
        }
        i = i + 1;
    }
    Some(Rd { value: v, next: at })
}

/// Reads the topology section.
fn read_section(b: &[u8], p: usize, arc_coords: Vec<Vec<Bits>>, dens: Vec<u32>) -> (r: Option<Blob>)
    requires
        p <= b@.len(),
    ensures
        match section_at(
            b@,
            p as int,
            Seq::new(arc_coords@.len(), |a: int| arc_coords@[a]@),
            dens@,
        ) {
            Some(view) => r matches Some(blob) && blob_view(blob) == view,
            None => r is None,
        },
{
    proof {
        reveal(section_at);
    }
    let len = b.len();
    if len - p < 2 {
        return None;
    }
    let dataset_code = b[p];
    let release = match read_text(b, p + 2, b[p + 1] as usize) {
        Some(rd) => rd,
        None => {
            return None;
        },
    };
    let at = release.next;
    if len - at < 2 {
        return None;
    }
    let n = read_u16(b, at) as usize;
    let feats = match read_features(b, at + 2, n) {
        Some(rd) => rd,
        None => {
            return None;
        },
    };
    let at = feats.next;
    if len - at < 4 {
        return None;
    }
    let rings = match read_rings(b, at + 4, read_u32(b, at) as usize) {
        Some(rd) => rd,
        None => {
            return None;
        },
    };
    let shapes = match read_shapes(b, rings.next, n) {
        Some(rd) => rd,
        None => {
            return None;
        },
    };
    Some(
        Blob {
            topo: Topology { arc_coords, ring_refs: rings.value, structure: shapes.value },
            dens,
            feats: feats.value,
            dataset_code,
            release: String::from_str(release.value),
        },
    )
}

/// Whether offsets ascend.
fn ascend(offs: &Vec<u32>) -> (yes: bool)
    ensures
        yes == offsets_ascend(offs@),
{
    let mut i: usize = 1;
    while i < offs.len()
        invariant
            1 <= i,
            i <= offs@.len() || offs@.len() == 0,
            forall|a: int, c: int| 0 <= a <= c < i && c < offs@.len() ==> offs@[a] <= offs@[c],
        decreases offs@.len() - i,
    {
        if offs[i - 1] > offs[i] {
            return false;
        }
        assert forall|a: int, c: int| 0 <= a <= c < i + 1 && c < offs@.len() implies offs@[a]
            <= offs@[c] by {
            if c == i && a < i {
                assert(offs@[a] <= offs@[i - 1]);
            }
        }
        i = i + 1;
    }
    true
}

/// Reads the arcs whose vertices start at `base`.
fn read_arcs(b: &[u8], base: usize, offs: &Vec<u32>) -> (arcs: Vec<Vec<Bits>>)
    requires
        offs@.len() > 0,
        offsets_ascend(offs@),
        base + 16 * (offs@.last() - offs@[0]) <= b@.len(),
    ensures
        Seq::new(arcs@.len(), |a: int| arcs@[a]@) == arcs_at(b@, base as int, offs@),
{
    let len = b.len();
    let n = offs.len() - 1;
    let mut arcs: Vec<Vec<Bits>> = Vec::new();
    let mut at: usize = base;
    let mut a: usize = 0;
    while a < n
        invariant
            a <= n,
            n == offs@.len() - 1,
            len == b@.len(),
            offsets_ascend(offs@),
            base + 16 * (offs@.last() - offs@[0]) <= len,
            at == base + 16 * (offs@[a as int] - offs@[0]),
            arcs@.len() == a,
            forall|k: int|
                0 <= k < a ==> (#[trigger] arcs@[k])@ == arcs_at(b@, base as int, offs@)[k],
        decreases n - a,
    {
        assert(offs@[a as int] <= offs@[a + 1]);
        assert(offs@[a + 1] <= offs@.last());
        assert(offs@[0] <= offs@[a as int]);
        let count = (offs[a + 1] - offs[a]) as usize;
        let mut arc: Vec<Bits> = Vec::new();
        let mut i: usize = 0;
        while i < count
            invariant
                i <= count,
                a < n,
                n == offs@.len() - 1,
                len == b@.len(),
                offs@[0] <= offs@[a as int] <= offs@[a + 1] <= offs@.last(),
                count == offs@[a + 1] - offs@[a as int],
                base + 16 * (offs@.last() - offs@[0]) <= len,
                at == base + 16 * (offs@[a as int] - offs@[0] + i),
                arc@.len() == i,
                forall|k: int|
                    0 <= k < i ==> #[trigger] arc@[k] == point_at(
                        b@,
                        base + 16 * (offs@[a as int] - offs@[0] + k),
                    ),
            decreases count - i,
        {
            arc.push((read_u64(b, at), read_u64(b, at + 8)));
            at = at + 16;
            i = i + 1;
        }
        assert(arc@ =~= arcs_at(b@, base as int, offs@)[a as int]);
        arcs.push(arc);
        a = a + 1;
    }
    assert(Seq::new(arcs@.len(), |k: int| arcs@[k]@) =~= arcs_at(b@, base as int, offs@));
    arcs
}

proof fn lemma_past_end(b: Seq<u8>, p: int, offs: Seq<u32>, n_verts: int, densities: bool)
    requires
        aligned(p) > b.len(),
        n_verts >= offs[0],
        n_verts >= 0,
    ensures
        vertices_at(b, p, offs, n_verts, densities) is None,
{
    reveal(section_at);
}

/// Reads the vertices behind the offsets, which end at `p`, and what follows.
fn read_vertices(b: &[u8], p: usize, offs: &Vec<u32>, n_verts: u32, densities: bool) -> (r: Option<
    Blob,
>)
    requires
        p <= b@.len(),
        offs@.len() > 0,
        offs@.last() == n_verts,
        offsets_ascend(offs@),
    ensures
        match vertices_at(b@, p as int, offs@, n_verts as int, densities) {
            Some(view) => r matches Some(blob) && blob_view(blob) == view,
            None => r is None,
        },
{
    let len = b.len();
    let pad = (8 - p % 8) % 8;
    assert(aligned(p as int) == p + pad);
    assert(offs@[0] <= offs@.last());
    if pad > len - p {
        proof {
            lemma_past_end(b@, p as int, offs@, n_verts as int, densities);
        }
        return None;
    }
    let base = p + pad;
    let count = (n_verts - offs[0]) as usize;
    if count > (len - base) / 16 {
        return None;
    }
    let arcs = read_arcs(b, base, offs);
    let next = base + 16 * count;
    if densities {
        match read_u32s(b, next, n_verts as usize) {
            Some(rd) => read_section(b, rd.next, arcs, rd.value),
            None => None,
        }
    } else {
        let no_dens: Vec<u32> = Vec::new();
        assert(no_dens@ =~= Seq::<u32>::empty());
        read_section(b, next, arcs, no_dens)
    }
}

/// Parses a blob. `None` where it is malformed or predates the topology
/// section.
pub fn parse_blob(b: &[u8]) -> (r: Option<Blob>)
    ensures
        match blob_of(b@) {
            Some(view) => r matches Some(blob) && blob_view(blob) == view,
            None => r is None,
        },
{
    let len = b.len();
    if len < 16 {
        return None;
    }
    assert(BLOB_MAGIC@.len() == 4);
    if !bytes_eq_at(b, 0, BLOB_MAGIC.as_slice()) {
        return None;
    }
    let flags = read_u32(b, 4);
    if flags / 2 % 2 == 0 {
        return None;
    }
    let n_arcs = read_u32(b, 8);
    let n_verts = read_u32(b, 12);
    if n_arcs as usize == usize::MAX {
        return None;
    }
    match read_u32s(b, 16, n_arcs as usize + 1) {
        Some(rd) => {
            let offs = rd.value;
            if offs[offs.len() - 1] != n_verts || !ascend(&offs) {
                return None;
            }
            read_vertices(b, rd.next, &offs, n_verts, flags % 2 == 1)
        },
        None => None,
    }
}

} // verus!
