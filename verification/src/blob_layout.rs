//! The viewer's topology blob as it is laid out: what stands in it, in order, and
//! that reading it gives that back.

use vstd::prelude::*;
use vstd::utf8::encode_utf8;

use crate::blob::{
    aligned, arcs_at, blob_of, counted_at, feature_at, features_at, offsets_ascend, point_at,
    poly_at, polys_at, ring_lists_at, section_at, shape_at, shapes_at, text_at, u32s_at,
    vertices_at, widened, BlobView, FeatureView, BLOB_MAGIC,
};
use crate::bytes::{le_bytes, lemma_bytes_are_little_endian, u16_at, u32_at, u64_at};
use crate::header::{lemma_words, words};
use crate::readback::{holds, lemma_holds_split};
use crate::topology::Bits;

verus! {

/// The first `n` of some records, one behind the other.
pub open spec fn strung(records: Seq<Seq<u8>>, n: int) -> Seq<u8>
    decreases n,
{
    if n <= 0 {
        Seq::empty()
    } else {
        strung(records, n - 1) + records[n - 1]
    }
}

/// A number in eight bytes, the least significant first.
pub open spec fn in_eight(v: u64) -> Seq<u8> {
    le_bytes(v as int % 0x1_0000_0000, 4) + le_bytes(v as int / 0x1_0000_0000, 4)
}

/// A vertex: its two coordinates.
pub open spec fn vertex_record(v: Bits) -> Seq<u8> {
    in_eight(v.0) + in_eight(v.1)
}

/// A text behind the number of its bytes.
pub open spec fn text_record(text: Seq<char>) -> Seq<u8> {
    seq![encode_utf8(text).len() as u8] + encode_utf8(text)
}

/// A feature: its offset, and its name, empty where it has none.
pub open spec fn feature_record(f: FeatureView) -> Seq<u8> {
    le_bytes(f.offset, 4) + text_record(
        match f.tzid {
            Some(name) => name,
            None => Seq::empty(),
        },
    )
}

/// A ring: how many references it has, and those.
pub open spec fn ring_list(refs: Seq<u32>) -> Seq<u8> {
    le_bytes(refs.len() as int, 4) + words(refs)
}

/// A polygon: how many rings it has, and those.
pub open spec fn poly_list(rings: Seq<u32>) -> Seq<u8> {
    le_bytes(rings.len() as int, 2) + words(rings)
}

/// A feature's polygons: how many they are, and those.
pub open spec fn shape_list(polys: Seq<Seq<u32>>) -> Seq<u8> {
    le_bytes(polys.len() as int, 2) + strung(
        polys.map_values(|p: Seq<u32>| poly_list(p)),
        polys.len() as int,
    )
}

/// What a blob is written from.
pub struct Contents {
    /// all vertices, arc by arc
    pub verts: Seq<Bits>,
    /// where each arc starts among them, and where the last ends
    pub offs: Seq<u32>,
    /// one number for each vertex, where they are shipped
    pub dens: Option<Seq<u32>>,
    pub feats: Seq<FeatureView>,
    pub rings: Seq<Seq<u32>>,
    pub shapes: Seq<Seq<Seq<u32>>>,
    pub dataset_code: u8,
    pub release: Seq<char>,
}

/// Whether a feature's fields fit their widths; a name that is there is not empty.
pub open spec fn feature_writable(f: FeatureView) -> bool {
    &&& 0 <= f.offset <= u32::MAX
    &&& f.tzid matches Some(name) ==> name.len() > 0 && encode_utf8(name).len() <= 255
}

impl Contents {
    /// Whether the counts fit their widths and the arcs cover the vertices.
    pub open spec fn writable(self) -> bool {
        &&& self.offs.len() >= 1
        &&& self.offs.len() <= u32::MAX
        &&& self.offs[0] == 0
        &&& self.offs[self.offs.len() - 1] == self.verts.len()
        &&& forall|i: int, j: int| 0 <= i <= j < self.offs.len() ==> self.offs[i] <= self.offs[j]
        &&& self.dens matches Some(dens) ==> dens.len() == self.verts.len()
        &&& self.feats.len() <= 0xFFFF
        &&& forall|f: int| 0 <= f < self.feats.len() ==> feature_writable(#[trigger] self.feats[f])
        &&& self.rings.len() <= u32::MAX
        &&& forall|r: int| 0 <= r < self.rings.len() ==> (#[trigger] self.rings[r]).len() <= u32::MAX
        &&& self.shapes.len() == self.feats.len()
        &&& forall|f: int| 0 <= f < self.shapes.len() ==> (#[trigger] self.shapes[f]).len() <= 0xFFFF
        &&& forall|f: int, p: int|
            0 <= f < self.shapes.len() && 0 <= p < self.shapes[f].len() ==> (
            #[trigger] self.shapes[f][p]).len() <= 0xFFFF
        &&& encode_utf8(self.release).len() <= 255
    }

    /// The topology section: dataset, release, features, rings, polygons.
    pub open spec fn section(self) -> Seq<u8> {
        seq![self.dataset_code] + (text_record(self.release) + (le_bytes(
            self.feats.len() as int,
            2,
        ) + (strung(
            self.feats.map_values(|f: FeatureView| feature_record(f)),
            self.feats.len() as int,
        ) + (le_bytes(self.rings.len() as int, 4) + (strung(
            self.rings.map_values(|r: Seq<u32>| ring_list(r)),
            self.rings.len() as int,
        ) + strung(
            self.shapes.map_values(|s: Seq<Seq<u32>>| shape_list(s)),
            self.shapes.len() as int,
        ))))))
    }

    /// The vertices, the densities and the section.
    pub open spec fn body(self) -> Seq<u8> {
        strung(self.verts.map_values(|v: Bits| vertex_record(v)), self.verts.len() as int) + ((
        match self.dens {
            Some(dens) => words(dens),
            None => Seq::empty(),
        }) + self.section())
    }

    /// The whole blob: `uTZv`, flags (1 for densities, 2 for the topology
    /// section), the counts of arcs and vertices, where the arcs start, zeros up to
    /// a multiple of eight, the vertices, the densities, the section.
    pub open spec fn bytes(self) -> Seq<u8> {
        seq![0x75u8, 0x54u8, 0x5Au8, 0x76u8] + (le_bytes(
            if self.dens is Some {
                3
            } else {
                2
            },
            4,
        ) + (le_bytes(self.offs.len() - 1, 4) + (le_bytes(self.verts.len() as int, 4) + (words(
            self.offs,
        ) + (zeros(if self.offs.len() % 2 == 1 { 4 } else { 0 }) + self.body())))))
    }
}

/// Zero bytes.
pub open spec fn zeros(n: nat) -> Seq<u8> {
    Seq::new(n, |i: int| 0u8)
}

/// A word that stands somewhere reads as itself.
proof fn lemma_word(b: Seq<u8>, p: int, v: int)
    requires
        holds(b, p, le_bytes(v, 4)),
        0 <= v <= u32::MAX,
    ensures
        u32_at(b, p) == v,
{
    let w = le_bytes(v, 4);
    assert(b.subrange(p, p + 4) == w);
    assert(w[0] == b[p] && w[1] == b[p + 1] && w[2] == b[p + 2] && w[3] == b[p + 3]);
    lemma_bytes_are_little_endian(w, 0, v);
}

/// A half that stands somewhere reads as itself.
proof fn lemma_half(b: Seq<u8>, p: int, v: int)
    requires
        holds(b, p, le_bytes(v, 2)),
        0 <= v <= 0xFFFF,
    ensures
        u16_at(b, p) == v,
{
    let w = le_bytes(v, 2);
    assert(b.subrange(p, p + 2) == w);
    assert(w[0] == b[p] && w[1] == b[p + 1]);
}

/// Words that stand somewhere read as themselves.
proof fn lemma_words_read(b: Seq<u8>, p: int, v: Seq<u32>)
    requires
        holds(b, p, words(v)),
    ensures
        words(v).len() == 4 * v.len(),
        u32s_at(b, p, v.len() as int) == Some((v, p + 4 * v.len())),
{
    let n = v.len() as int;
    let w = words(v);
    if n > 0 {
        lemma_words(v, 0);
    }
    let read = Seq::new(n as nat, |i: int| u32_at(b, p + 4 * i) as u32);
    assert forall|i: int| 0 <= i < n implies read[i] == v[i] by {
        lemma_words(v, i);
        assert(b.subrange(p, p + w.len()) == w);
        assert(w[4 * i] == b[p + 4 * i] && w[4 * i + 1] == b[p + 4 * i + 1] && w[4 * i + 2] == b[p
            + 4 * i + 2] && w[4 * i + 3] == b[p + 4 * i + 3]);
    }
    assert(read =~= v);
}

/// A number in eight bytes reads as itself.
proof fn lemma_eight(b: Seq<u8>, p: int, v: u64)
    requires
        holds(b, p, in_eight(v)),
    ensures
        u64_at(b, p) == v,
{
    let (lo, hi) = (v as int % 0x1_0000_0000, v as int / 0x1_0000_0000);
    lemma_holds_split(b, p, le_bytes(lo, 4), le_bytes(hi, 4));
    lemma_word(b, p, lo);
    lemma_word(b, p + 4, hi);
}

/// Of records in a row, each stands behind those before it.
proof fn lemma_strung(b: Seq<u8>, p: int, records: Seq<Seq<u8>>, n: int)
    requires
        n > 0,
        holds(b, p, strung(records, n)),
    ensures
        holds(b, p, strung(records, n - 1)),
        holds(b, p + strung(records, n - 1).len(), records[n - 1]),
{
    lemma_holds_split(b, p, strung(records, n - 1), records[n - 1]);
}

/// Vertices in a row read as themselves.
proof fn lemma_vertices(b: Seq<u8>, p: int, verts: Seq<Bits>, n: int, i: int)
    requires
        0 <= i < n <= verts.len(),
        holds(b, p, strung(verts.map_values(|v: Bits| vertex_record(v)), n)),
    ensures
        strung(verts.map_values(|v: Bits| vertex_record(v)), n).len() == 16 * n,
        point_at(b, p + 16 * i) == verts[i],
    decreases n,
{
    let records = verts.map_values(|v: Bits| vertex_record(v));
    lemma_strung(b, p, records, n);
    if n > 1 {
        lemma_vertices(b, p, verts, n - 1, if i < n - 1 { i } else { 0 });
    } else {
        assert(strung(records, 0).len() == 0);
    }
    assert(records[n - 1] == vertex_record(verts[n - 1]));
    if i == n - 1 {
        let at = p + 16 * i;
        lemma_holds_split(b, at, in_eight(verts[i].0), in_eight(verts[i].1));
        lemma_eight(b, at, verts[i].0);
        lemma_eight(b, at + 8, verts[i].1);
    }
}

/// A text behind its size reads as itself.
proof fn lemma_text(b: Seq<u8>, p: int, text: Seq<char>)
    requires
        holds(b, p, text_record(text)),
        encode_utf8(text).len() <= 255,
    ensures
        b[p] == encode_utf8(text).len(),
        text_at(b, p + 1, b[p] as int) == Some((text, p + text_record(text).len())),
{
    let size = seq![encode_utf8(text).len() as u8];
    lemma_holds_split(b, p, size, encode_utf8(text));
    assert(b.subrange(p, p + 1)[0] == b[p]);
    assert(size[0] == b[p]);
    vstd::utf8::encode_utf8_valid_utf8(text);
    vstd::utf8::encode_utf8_decode_utf8(text);
}

/// A feature reads as itself.
proof fn lemma_feature(b: Seq<u8>, p: int, f: FeatureView)
    requires
        holds(b, p, feature_record(f)),
        feature_writable(f),
    ensures
        feature_at(b, p) == Some((f, p + feature_record(f).len())),
{
    let name = match f.tzid {
        Some(name) => name,
        None => Seq::empty(),
    };
    vstd::utf8::encode_utf8_valid_utf8(name);
    if f.tzid is None {
        assert(encode_utf8(name) =~= Seq::<u8>::empty());
    }
    lemma_holds_split(b, p, le_bytes(f.offset, 4), text_record(name));
    lemma_word(b, p, f.offset);
    lemma_text(b, p + 4, name);
}

/// Features in a row read as themselves.
proof fn lemma_features(b: Seq<u8>, p: int, feats: Seq<FeatureView>, n: int)
    requires
        0 <= n <= feats.len(),
        forall|f: int| 0 <= f < feats.len() ==> feature_writable(#[trigger] feats[f]),
        holds(b, p, strung(feats.map_values(|f: FeatureView| feature_record(f)), n)),
    ensures
        features_at(b, p, n) == Some(
            (
                feats.take(n),
                p + strung(feats.map_values(|f: FeatureView| feature_record(f)), n).len(),
            ),
        ),
    decreases n,
{
    let records = feats.map_values(|f: FeatureView| feature_record(f));
    if n > 0 {
        lemma_strung(b, p, records, n);
        lemma_features(b, p, feats, n - 1);
        assert(records[n - 1] == feature_record(feats[n - 1]));
        lemma_feature(b, p + strung(records, n - 1).len(), feats[n - 1]);
        assert(feats.take(n - 1).push(feats[n - 1]) =~= feats.take(n));
    } else {
        assert(feats.take(0) =~= Seq::empty());
    }
}

/// Rings in a row read as themselves.
proof fn lemma_rings(b: Seq<u8>, p: int, rings: Seq<Seq<u32>>, n: int)
    requires
        0 <= n <= rings.len(),
        forall|r: int| 0 <= r < rings.len() ==> (#[trigger] rings[r]).len() <= u32::MAX,
        holds(b, p, strung(rings.map_values(|r: Seq<u32>| ring_list(r)), n)),
    ensures
        ring_lists_at(b, p, n) == Some(
            (rings.take(n), p + strung(rings.map_values(|r: Seq<u32>| ring_list(r)), n).len()),
        ),
    decreases n,
{
    let records = rings.map_values(|r: Seq<u32>| ring_list(r));
    if n > 0 {
        lemma_strung(b, p, records, n);
        lemma_rings(b, p, rings, n - 1);
        let refs = rings[n - 1];
        let at = p + strung(records, n - 1).len();
        assert(records[n - 1] == ring_list(refs));
        lemma_holds_split(b, at, le_bytes(refs.len() as int, 4), words(refs));
        lemma_word(b, at, refs.len() as int);
        lemma_words_read(b, at + 4, refs);
        assert(counted_at(b, at) == Some((refs, at + 4 + 4 * refs.len())));
        assert(rings.take(n - 1).push(refs) =~= rings.take(n));
    } else {
        assert(rings.take(0) =~= Seq::empty());
    }
}

/// Polygons as they are read.
spec fn widened_polys(polys: Seq<Seq<u32>>) -> Seq<Seq<usize>> {
    Seq::new(polys.len(), |p: int| widened(polys[p]))
}

/// Features' polygons as they are read.
spec fn widened_shapes(shapes: Seq<Seq<Seq<u32>>>) -> Seq<Seq<Seq<usize>>> {
    Seq::new(shapes.len(), |f: int| widened_polys(shapes[f]))
}

/// Polygons in a row read as themselves.
proof fn lemma_polys(b: Seq<u8>, p: int, polys: Seq<Seq<u32>>, n: int)
    requires
        0 <= n <= polys.len(),
        forall|q: int| 0 <= q < polys.len() ==> (#[trigger] polys[q]).len() <= 0xFFFF,
        holds(b, p, strung(polys.map_values(|p: Seq<u32>| poly_list(p)), n)),
    ensures
        polys_at(b, p, n) == Some(
            (
                widened_polys(polys.take(n)),
                p + strung(polys.map_values(|p: Seq<u32>| poly_list(p)), n).len(),
            ),
        ),
    decreases n,
{
    let records = polys.map_values(|p: Seq<u32>| poly_list(p));
    if n > 0 {
        lemma_strung(b, p, records, n);
        lemma_polys(b, p, polys, n - 1);
        let rings = polys[n - 1];
        let at = p + strung(records, n - 1).len();
        assert(records[n - 1] == poly_list(rings));
        lemma_holds_split(b, at, le_bytes(rings.len() as int, 2), words(rings));
        lemma_half(b, at, rings.len() as int);
        lemma_words_read(b, at + 2, rings);
        assert(poly_at(b, at) == Some((widened(rings), at + 2 + 4 * rings.len())));
        assert(widened_polys(polys.take(n - 1)).push(widened(rings)) =~= widened_polys(
            polys.take(n),
        ));
    } else {
        assert(widened_polys(polys.take(0)) =~= Seq::empty());
    }
}

/// Features' polygons in a row read as themselves.
proof fn lemma_shapes(b: Seq<u8>, p: int, shapes: Seq<Seq<Seq<u32>>>, n: int)
    requires
        0 <= n <= shapes.len(),
        forall|f: int| 0 <= f < shapes.len() ==> (#[trigger] shapes[f]).len() <= 0xFFFF,
        forall|f: int, q: int|
            0 <= f < shapes.len() && 0 <= q < shapes[f].len() ==> (#[trigger] shapes[f][q]).len()
                <= 0xFFFF,
        holds(b, p, strung(shapes.map_values(|s: Seq<Seq<u32>>| shape_list(s)), n)),
    ensures
        shapes_at(b, p, n) == Some(
            (
                widened_shapes(shapes.take(n)),
                p + strung(shapes.map_values(|s: Seq<Seq<u32>>| shape_list(s)), n).len(),
            ),
        ),
    decreases n,
{
    let records = shapes.map_values(|s: Seq<Seq<u32>>| shape_list(s));
    if n > 0 {
        lemma_strung(b, p, records, n);
        lemma_shapes(b, p, shapes, n - 1);
        let polys = shapes[n - 1];
        let at = p + strung(records, n - 1).len();
        let lists = polys.map_values(|p: Seq<u32>| poly_list(p));
        assert(records[n - 1] == shape_list(polys));
        lemma_holds_split(
            b,
            at,
            le_bytes(polys.len() as int, 2),
            strung(lists, polys.len() as int),
        );
        lemma_half(b, at, polys.len() as int);
        assert forall|q: int| 0 <= q < polys.len() implies (#[trigger] polys[q]).len() <= 0xFFFF by {
            assert(shapes[n - 1][q].len() <= 0xFFFF);
        }
        lemma_polys(b, at + 2, polys, polys.len() as int);
        assert(polys.take(polys.len() as int) =~= polys);
        assert(shape_at(b, at) == Some((widened_polys(polys), at + records[n - 1].len())));
        assert(widened_shapes(shapes.take(n - 1)).push(widened_polys(polys)) =~= widened_shapes(
            shapes.take(n),
        ));
    } else {
        assert(widened_shapes(shapes.take(0)) =~= Seq::empty());
    }
}

/// A topology section reads as what it was written from.
proof fn lemma_section(b: Seq<u8>, p: int, c: Contents, arcs: Seq<Seq<Bits>>, dens: Seq<u32>)
    requires
        c.writable(),
        holds(b, p, c.section()),
    ensures
        section_at(b, p, arcs, dens) == Some(
            BlobView {
                arcs,
                dens,
                feats: c.feats,
                ring_refs: c.rings,
                structure: widened_shapes(c.shapes),
                dataset_code: c.dataset_code,
                release: c.release,
            },
        ),
{
    reveal(section_at);
    let fr = c.feats.map_values(|f: FeatureView| feature_record(f));
    let rr = c.rings.map_values(|r: Seq<u32>| ring_list(r));
    let sr = c.shapes.map_values(|s: Seq<Seq<u32>>| shape_list(s));
    let (nf, nr) = (c.feats.len() as int, c.rings.len() as int);
    let w6 = strung(sr, nf);
    let w5 = strung(rr, nr) + w6;
    let w4 = le_bytes(nr, 4) + w5;
    let w3 = strung(fr, nf) + w4;
    let w2 = le_bytes(nf, 2) + w3;
    let w1 = text_record(c.release) + w2;
    lemma_holds_split(b, p, seq![c.dataset_code], w1);
    assert(b.subrange(p, p + 1)[0] == b[p]);
    assert(seq![c.dataset_code][0] == b[p]);
    lemma_holds_split(b, p + 1, text_record(c.release), w2);
    lemma_text(b, p + 1, c.release);
    let q = p + 1 + text_record(c.release).len();
    lemma_holds_split(b, q, le_bytes(nf, 2), w3);
    lemma_half(b, q, nf);
    lemma_holds_split(b, q + 2, strung(fr, nf), w4);
    lemma_features(b, q + 2, c.feats, nf);
    assert(c.feats.take(nf) =~= c.feats);
    let q2 = q + 2 + strung(fr, nf).len();
    lemma_holds_split(b, q2, le_bytes(nr, 4), w5);
    lemma_word(b, q2, nr);
    lemma_holds_split(b, q2 + 4, strung(rr, nr), w6);
    lemma_rings(b, q2 + 4, c.rings, nr);
    assert(c.rings.take(nr) =~= c.rings);
    let q3 = q2 + 4 + strung(rr, nr).len();
    lemma_shapes(b, q3, c.shapes, nf);
    assert(c.shapes.take(nf) =~= c.shapes);
}

/// What stands in front of the vertices reads as it was written.
proof fn lemma_front(b: Seq<u8>, c: Contents)
    requires
        c.writable(),
        holds(b, 0, c.bytes()),
    ensures
        ({
            let n = c.offs.len() as int;
            &&& b.len() >= 16
            &&& b.subrange(0, 4) == BLOB_MAGIC@
            &&& u32_at(b, 4) == if c.dens is Some {
                3int
            } else {
                2
            }
            &&& u32_at(b, 8) == n - 1
            &&& u32_at(b, 12) == c.verts.len()
            &&& u32s_at(b, 16, n) == Some((c.offs, 16 + 4 * n))
            &&& holds(b, aligned(16 + 4 * n), c.body())
        }),
{
    let n = c.offs.len() as int;
    let nv = c.verts.len() as int;
    let flags: int = if c.dens is Some {
        3
    } else {
        2
    };
    let pad = zeros(
        if c.offs.len() % 2 == 1 {
            4
        } else {
            0
        },
    );
    let magic = seq![0x75u8, 0x54u8, 0x5Au8, 0x76u8];
    let w5 = pad + c.body();
    let w4 = words(c.offs) + w5;
    let w3 = le_bytes(nv, 4) + w4;
    let w2 = le_bytes(n - 1, 4) + w3;
    let w1 = le_bytes(flags, 4) + w2;
    assert(c.bytes() == magic + w1);
    lemma_holds_split(b, 0, magic, w1);
    assert(magic =~= BLOB_MAGIC@);
    lemma_holds_split(b, 4, le_bytes(flags, 4), w2);
    lemma_word(b, 4, flags);
    lemma_holds_split(b, 8, le_bytes(n - 1, 4), w3);
    lemma_word(b, 8, n - 1);
    lemma_holds_split(b, 12, le_bytes(nv, 4), w4);
    lemma_word(b, 12, nv);
    lemma_holds_split(b, 16, words(c.offs), w5);
    lemma_words_read(b, 16, c.offs);
    lemma_holds_split(b, 16 + 4 * n, pad, c.body());
    if n % 2 == 1 {
        assert(n == 2 * (n / 2) + 1);
    } else {
        assert(n == 2 * (n / 2));
    }
}

/// The arcs read as their vertices.
proof fn lemma_arcs(b: Seq<u8>, p: int, c: Contents, a: int)
    requires
        c.writable(),
        0 <= a < c.offs.len() - 1,
        holds(
            b,
            p,
            strung(c.verts.map_values(|v: Bits| vertex_record(v)), c.verts.len() as int),
        ),
    ensures
        arcs_at(b, p, c.offs)[a] == c.verts.subrange(c.offs[a] as int, c.offs[a + 1] as int),
{
    let arcs = arcs_at(b, p, c.offs);
    let last = c.offs.len() - 1;
    let (from, to) = (c.offs[a] as int, c.offs[a + 1] as int);
    assert(c.offs[a] <= c.offs[a + 1] && c.offs[a + 1] <= c.offs[last]);
    assert forall|i: int| 0 <= i < to - from implies arcs[a][i] == c.verts[from + i] by {
        lemma_vertices(b, p, c.verts, c.verts.len() as int, from + i);
    }
    assert(arcs[a] =~= c.verts.subrange(from, to));
}

/// What a body is read as.
spec fn body_view(c: Contents, arcs: Seq<Seq<Bits>>) -> BlobView {
    BlobView {
        arcs,
        dens: match c.dens {
            Some(dens) => dens,
            None => Seq::empty(),
        },
        feats: c.feats,
        ring_refs: c.rings,
        structure: widened_shapes(c.shapes),
        dataset_code: c.dataset_code,
        release: c.release,
    }
}

/// The vertices and what follows them read as they were written.
proof fn lemma_body(b: Seq<u8>, p: int, c: Contents)
    requires
        c.writable(),
        holds(b, aligned(p), c.body()),
    ensures
        vertices_at(b, p, c.offs, c.verts.len() as int, c.dens is Some) == Some(
            body_view(c, arcs_at(b, aligned(p), c.offs)),
        ),
        holds(
            b,
            aligned(p),
            strung(c.verts.map_values(|v: Bits| vertex_record(v)), c.verts.len() as int),
        ),
{
    let base = aligned(p);
    let nv = c.verts.len() as int;
    let vr = c.verts.map_values(|v: Bits| vertex_record(v));
    let dw = match c.dens {
        Some(dens) => words(dens),
        None => Seq::empty(),
    };
    lemma_holds_split(b, base, strung(vr, nv), dw + c.section());
    if nv > 0 {
        lemma_vertices(b, base, c.verts, nv, 0);
    } else {
        assert(strung(vr, 0).len() == 0);
    }
    let at = base + 16 * nv;
    lemma_holds_split(b, at, dw, c.section());
    let arcs = arcs_at(b, base, c.offs);
    match c.dens {
        Some(dens) => {
            lemma_words_read(b, at, dens);
            lemma_section(b, at + 4 * nv, c, arcs, dens);
        },
        None => {
            lemma_section(b, at, c, arcs, Seq::empty());
        },
    }
}

/// A blob laid out as it should be is read as what stands in it: every arc with
/// its vertices, the densities where they are shipped, every feature, every ring
/// and every polygon in its place. What follows the blob is not looked at.
pub proof fn lemma_blobs_read_as_written(c: Contents, rest: Seq<u8>)
    requires
        c.writable(),
    ensures
        blob_of(c.bytes() + rest) matches Some(v) && {
            &&& v.arcs.len() == c.offs.len() - 1
            &&& forall|a: int|
                0 <= a < v.arcs.len() ==> #[trigger] v.arcs[a] == c.verts.subrange(
                    c.offs[a] as int,
                    c.offs[a + 1] as int,
                )
            &&& v.dens == match c.dens {
                Some(dens) => dens,
                None => Seq::empty(),
            }
            &&& v.feats == c.feats
            &&& v.ring_refs == c.rings
            &&& v.structure.len() == c.shapes.len()
            &&& forall|f: int|
                0 <= f < c.shapes.len() ==> (#[trigger] v.structure[f]).len() == c.shapes[f].len()
            &&& forall|f: int, p: int|
                0 <= f < c.shapes.len() && 0 <= p < c.shapes[f].len() ==> (
                #[trigger] v.structure[f][p]).len() == c.shapes[f][p].len()
            &&& forall|f: int, p: int, i: int|
                0 <= f < c.shapes.len() && 0 <= p < c.shapes[f].len() && 0 <= i
                    < c.shapes[f][p].len() ==> #[trigger] v.structure[f][p][i] == c.shapes[f][p][i]
            &&& v.dataset_code == c.dataset_code
            &&& v.release == c.release
        },
{
    let b = c.bytes() + rest;
    let n = c.offs.len() as int;
    let p = 16 + 4 * n;
    assert(b.subrange(0, c.bytes().len() as int) =~= c.bytes());
    lemma_front(b, c);
    lemma_body(b, p, c);
    assert(c.offs.last() == c.offs[n - 1]);
    assert(offsets_ascend(c.offs));
    let v = body_view(c, arcs_at(b, aligned(p), c.offs));
    assert(blob_of(b) == Some(v));
    assert forall|a: int| 0 <= a < v.arcs.len() implies #[trigger] v.arcs[a] == c.verts.subrange(
        c.offs[a] as int,
        c.offs[a + 1] as int,
    ) by {
        lemma_arcs(b, aligned(p), c, a);
    }
}

/// Bytes that do not start with `uTZv`, are shorter than the counts, or do not
/// announce a topology section are no blob.
pub proof fn lemma_other_bytes_are_no_blobs(b: Seq<u8>)
    requires
        b.len() < 16 || !(b[0] == 0x75 && b[1] == 0x54 && b[2] == 0x5A && b[3] == 0x76) || b[4] / 2
            % 2 == 0,
    ensures
        blob_of(b) is None,
{
    if b.len() >= 16 {
        let head = b.subrange(0, 4);
        assert(head[0] == b[0] && head[1] == b[1] && head[2] == b[2] && head[3] == b[3]);
        assert(BLOB_MAGIC@[0] == 0x75 && BLOB_MAGIC@[1] == 0x54 && BLOB_MAGIC@[2] == 0x5A
            && BLOB_MAGIC@[3] == 0x76);
        assert(u32_at(b, 4) / 2 % 2 == b[4] as int / 2 % 2);
    }
}

} // verus!
