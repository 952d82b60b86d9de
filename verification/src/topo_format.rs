//! The plain topology format: tzid pool, arcs, and per feature its bounding
//! box and its rings' arc references.

use vstd::prelude::*;
use vstd::utf8::encode_utf8;

use crate::bytes::{
    le_bytes, lemma_unsigned_round_trip, push_bytes, push_fixed, push_u32, u16_at, u32_at,
};
use crate::clean::{arcs_view, Vertex};
use crate::geometry::{arc_at, bbox_at, rings_at};
use crate::pool::{lemma_position_from, lemma_position_is, pooled, position};
use crate::readback::{
    box_fits, box_of, holds, lemma_arc_reads_back, lemma_box_reads_back, lemma_holds_split,
    lemma_record_holds, lemma_rings_read_back, lemma_u32_reads, path_fits, points_of, ring_numbers,
};
use crate::sections::{
    arc_record, arc_records, box_bytes, box_over, concat, empty_box, grow_box, grown, push_arc,
    push_box, push_low16, push_low32, push_ring, ring_record, rings_bytes, GridBox,
};
use crate::sift::{feature_view, poly_view, refs_view, structure_view};
use crate::snapped::total_verts;
use crate::text::str_eq;

verus! {

/// What the format records of a feature besides its rings.
pub struct FeatureRecord {
    /// the UTC offset, the bit pattern of an `f32`
    pub offset: u32,
    pub tzid: Option<String>,
    /// the feature's own rings on the quantization grid, in a row
    pub outline: Vec<Vec<Vertex>>,
}

/// A serialized topology and its counts.
pub struct TopoOut {
    pub bytes: Vec<u8>,
    pub arcs: usize,
    pub ring_refs: usize,
    /// vertices actually stored
    pub verts: usize,
}

/// The bytes per coordinate at `bits` bits.
pub open spec fn coord_bytes(bits: u32) -> nat {
    ((bits + 7) / 8) as nat
}

/// Appends a coordinate at `bits` bits, rounded up to whole bytes.
pub fn pushb(out: &mut Vec<u8>, v: i32, bits: u32)
    requires
        1 <= bits <= 32,
    ensures
        final(out)@ == old(out)@ + le_bytes(v as int, coord_bytes(bits)),
{
    push_fixed(out, v, ((bits + 7) / 8) as usize);
}

/// A feature's name, if it has one.
pub open spec fn name_of(f: FeatureRecord) -> Option<Seq<char>> {
    match f.tzid {
        Some(name) => Some(name@),
        None => None,
    }
}

/// The distinct names of the first `n` features, in order of appearance.
pub open spec fn name_pool(feats: Seq<FeatureRecord>, n: int) -> Seq<Seq<char>>
    decreases n,
{
    if n <= 0 {
        Seq::empty()
    } else {
        match name_of(feats[n - 1]) {
            Some(name) => pooled(name_pool(feats, n - 1), name),
            None => name_pool(feats, n - 1),
        }
    }
}

/// A pooled name: its length in bytes, then the bytes.
pub open spec fn name_record(name: Seq<char>) -> Seq<u8> {
    le_bytes(encode_utf8(name).len() as int, 2) + encode_utf8(name)
}

/// The first `n` pooled names.
pub open spec fn names_bytes(pool: Seq<Seq<char>>, n: int) -> Seq<u8>
    decreases n,
{
    if n <= 0 {
        Seq::empty()
    } else {
        names_bytes(pool, n - 1) + name_record(pool[n - 1])
    }
}

/// A feature's index into the pool, all ones where it has no name.
pub open spec fn name_index(f: FeatureRecord, pool: Seq<Seq<char>>) -> int {
    match name_of(f) {
        Some(name) => position(pool, name),
        None => 0xFFFF,
    }
}

/// The box of the first `n` rings of an outline.
pub open spec fn outline_box(outline: Seq<Vec<Vertex>>, n: int) -> GridBox
    decreases n,
{
    if n <= 0 {
        empty_box()
    } else {
        box_over(outline_box(outline, n - 1), outline[n - 1]@, outline[n - 1]@.len() as int)
    }
}

/// The records of a polygon's first `n` rings.
pub open spec fn poly_rings_bytes(ring_refs: Seq<Seq<u32>>, poly: Seq<int>, n: int) -> Seq<u8>
    decreases n,
{
    if n <= 0 {
        Seq::empty()
    } else {
        poly_rings_bytes(ring_refs, poly, n - 1) + ring_record(ring_refs[poly[n - 1]])
    }
}

/// A feature's first `n` polygons: ring count, rings.
pub open spec fn polys_bytes(ring_refs: Seq<Seq<u32>>, polys: Seq<Seq<int>>, n: int) -> Seq<u8>
    decreases n,
{
    if n <= 0 {
        Seq::empty()
    } else {
        let poly = polys[n - 1];
        polys_bytes(ring_refs, polys, n - 1) + le_bytes(poly.len() as int, 2) + poly_rings_bytes(
            ring_refs,
            poly,
            poly.len() as int,
        )
    }
}

/// A feature: offset, name index, box, polygon count, polygons.
pub open spec fn feature_bytes(
    f: FeatureRecord,
    pool: Seq<Seq<char>>,
    ring_refs: Seq<Seq<u32>>,
    polys: Seq<Seq<int>>,
    bits: u32,
) -> Seq<u8> {
    le_bytes(f.offset as int, 4) + le_bytes(name_index(f, pool), 2) + box_bytes(
        outline_box(f.outline@, f.outline@.len() as int),
        coord_bytes(bits),
    ) + le_bytes(polys.len() as int, 2) + polys_bytes(ring_refs, polys, polys.len() as int)
}

/// The first `n` features.
pub open spec fn features_bytes(
    feats: Seq<FeatureRecord>,
    pool: Seq<Seq<char>>,
    ring_refs: Seq<Seq<u32>>,
    structure: Seq<Seq<Seq<int>>>,
    bits: u32,
    n: int,
) -> Seq<u8>
    decreases n,
{
    if n <= 0 {
        Seq::empty()
    } else {
        features_bytes(feats, pool, ring_refs, structure, bits, n - 1) + feature_bytes(
            feats[n - 1],
            pool,
            ring_refs,
            structure[n - 1],
            bits,
        )
    }
}

/// The whole file: magic, feature count, pool, arcs, features.
pub open spec fn topology_bytes(
    feats: Seq<FeatureRecord>,
    arcs: Seq<Seq<Vertex>>,
    ring_refs: Seq<Seq<u32>>,
    structure: Seq<Seq<Seq<int>>>,
    bits: u32,
    abs_fixed: bool,
) -> Seq<u8> {
    let pool = name_pool(feats, feats.len() as int);
    let records = arc_records(arcs, abs_fixed, coord_bytes(bits));
    le_bytes(0x4E45_4442, 4) + le_bytes(feats.len() as int, 4) + le_bytes(pool.len() as int, 2)
        + names_bytes(pool, pool.len() as int) + le_bytes(arcs.len() as int, 4) + concat(
        records,
        records.len() as int,
    ) + features_bytes(feats, pool, ring_refs, structure, bits, feats.len() as int)
}

/// The references of the first `n` rings, counted.
pub open spec fn total_refs(ring_refs: Seq<Seq<u32>>, n: int) -> nat
    decreases n,
{
    if n <= 0 {
        0
    } else {
        total_refs(ring_refs, n - 1) + ring_refs[n - 1].len()
    }
}

/// The pooled names as text.
spec fn texts(pool: Seq<&str>) -> Seq<Seq<char>> {
    Seq::new(pool.len(), |i: int| pool[i]@)
}

/// The index of a name in the pool, or the pool's length.
fn find_name(pool: &Vec<&str>, name: &str) -> (at: usize)
    ensures
        at == position(texts(pool@), name@),
        at <= pool@.len(),
{
    let ghost tv = texts(pool@);
    let mut at: usize = 0;
    while at < pool.len()
        invariant_except_break
            at <= pool@.len(),
        invariant
            at <= pool@.len(),
            tv == texts(pool@),
            forall|j: int| 0 <= j < at ==> tv[j] != name@,
        ensures
            at < pool@.len() ==> tv[at as int] == name@,
        decreases pool@.len() - at,
    {
        let same = str_eq(pool[at], name);
        assert(tv[at as int] == pool@[at as int]@);
        if same {
            break;
        }
        at = at + 1;
    }
    proof {
        lemma_position_is(tv, name@, at as int);
    }
    at
}

/// The distinct names of the features, in order of appearance.
fn pool_names<'a>(feats: &'a [FeatureRecord]) -> (pool: Vec<&'a str>)
    ensures
        texts(pool@) == name_pool(feats@, feats@.len() as int),
{
    let mut pool: Vec<&'a str> = Vec::new();
    let mut i: usize = 0;
    assert(texts(pool@) =~= name_pool(feats@, 0));
    while i < feats.len()
        invariant
            i <= feats@.len(),
            texts(pool@) == name_pool(feats@, i as int),
        decreases feats@.len() - i,
    {
        match &feats[i].tzid {
            Some(name) => {
                let text = name.as_str();
                let at = find_name(&pool, text);
                if at == pool.len() {
                    let ghost before = texts(pool@);
                    pool.push(text);
                    assert(texts(pool@) =~= before.push(text@));
                }
            },
            None => {},
        }
        i = i + 1;
    }
    pool
}

/// Appends one feature.
fn push_feature(
    out: &mut Vec<u8>,
    f: &FeatureRecord,
    pool: &Vec<&str>,
    ring_refs: &[Vec<u32>],
    polys: &Vec<Vec<usize>>,
    bits: u32,
)
    requires
        1 <= bits <= 32,
        forall|p: int, k: int|
            0 <= p < polys@.len() && 0 <= k < polys@[p]@.len() ==> (#[trigger] polys@[p]@[k])
                < ring_refs@.len(),
    ensures
        final(out)@ == old(out)@ + feature_bytes(
            *f,
            texts(pool@),
            refs_view(ring_refs@),
            feature_view(polys@),
            bits,
        ),
{
    let ghost start = out@;
    let ghost rv = refs_view(ring_refs@);
    let ghost fv = feature_view(polys@);
    push_u32(out, f.offset);
    match &f.tzid {
        Some(name) => {
            let at = find_name(pool, name.as_str());
            push_low16(out, at);
        },
        None => {
            push_low16(out, 0xFFFF);
        },
    }
    let mut b = GridBox { min_x: i32::MAX, min_y: i32::MAX, max_x: i32::MIN, max_y: i32::MIN };
    let mut i: usize = 0;
    while i < f.outline.len()
        invariant
            i <= f.outline@.len(),
            b == outline_box(f.outline@, i as int),
        decreases f.outline@.len() - i,
    {
        b = grow_box(b, f.outline[i].as_slice());
        i = i + 1;
    }
    push_box(out, b, ((bits + 7) / 8) as usize);
    push_low16(out, polys.len());
    let ghost counted = out@;
    let mut p: usize = 0;
    assert(out@ =~= counted + polys_bytes(rv, fv, 0));
    while p < polys.len()
        invariant
            p <= polys@.len(),
            rv == refs_view(ring_refs@),
            fv == feature_view(polys@),
            forall|p: int, k: int|
                0 <= p < polys@.len() && 0 <= k < polys@[p]@.len() ==> (#[trigger] polys@[p]@[k])
                    < ring_refs@.len(),
            out@ == counted + polys_bytes(rv, fv, p as int),
        decreases polys@.len() - p,
    {
        let poly = &polys[p];
        let ghost pv = poly_view(poly@);
        assert(fv[p as int] == pv);
        push_low16(out, poly.len());
        let ghost headed = out@;
        let mut k: usize = 0;
        assert(out@ =~= headed + poly_rings_bytes(rv, pv, 0));
        while k < poly.len()
            invariant
                p < polys@.len(),
                poly == polys@[p as int],
                k <= poly@.len(),
                rv == refs_view(ring_refs@),
                pv == poly_view(poly@),
                forall|p: int, k: int|
                    0 <= p < polys@.len() && 0 <= k < polys@[p]@.len() ==> (
                    #[trigger] polys@[p]@[k]) < ring_refs@.len(),
                out@ == headed + poly_rings_bytes(rv, pv, k as int),
            decreases poly@.len() - k,
        {
            assert(polys@[p as int]@[k as int] < ring_refs@.len());
            let ring = poly[k];
            push_ring(out, &ring_refs[ring]);
            assert(pv[k as int] == ring as int);
            assert(rv[ring as int] == ring_refs@[ring as int]@);
            assert(out@ =~= headed + poly_rings_bytes(rv, pv, k as int + 1));
            k = k + 1;
        }
        assert(out@ =~= counted + polys_bytes(rv, fv, p as int + 1));
        p = p + 1;
    }
    assert(fv.len() == polys@.len());
    assert(out@ =~= start + feature_bytes(*f, texts(pool@), rv, fv, bits));
}

/// Serializes a topology: arcs as delta + zigzag varints, or, with
/// `abs_fixed`, at fixed width for random access.
pub fn serialize_topology(
    feats: &[FeatureRecord],
    arcs: &[Vec<Vertex>],
    ring_refs: &[Vec<u32>],
    structure: &[Vec<Vec<usize>>],
    qbits: u32,
    abs_fixed: bool,
) -> (out: TopoOut)
    requires
        1 <= qbits <= 32,
        feats@.len() <= structure@.len(),
        forall|f: int, p: int, k: int|
            0 <= f < structure@.len() && 0 <= p < structure@[f]@.len() && 0 <= k
                < structure@[f]@[p]@.len() ==> (#[trigger] structure@[f]@[p]@[k])
                < ring_refs@.len(),
        total_refs(refs_view(ring_refs@), ring_refs@.len() as int) <= usize::MAX,
        total_verts(arcs_view(arcs@), arcs@.len() as int) <= usize::MAX,
    ensures
        out.bytes@ == topology_bytes(
            feats@,
            arcs_view(arcs@),
            refs_view(ring_refs@),
            structure_view(structure@),
            qbits,
            abs_fixed,
        ),
        out.arcs == arcs@.len(),
        out.ring_refs == total_refs(refs_view(ring_refs@), ring_refs@.len() as int),
        out.verts == total_verts(arcs_view(arcs@), arcs@.len() as int),
{
    let ghost av = arcs_view(arcs@);
    let ghost rv = refs_view(ring_refs@);
    let ghost sv = structure_view(structure@);
    let size = ((qbits + 7) / 8) as usize;
    let ghost records = arc_records(av, abs_fixed, coord_bytes(qbits));
    let pool = pool_names(feats);
    let ghost names = texts(pool@);
    let mut o: Vec<u8> = Vec::new();
    push_u32(&mut o, 0x4E45_4442);
    push_low32(&mut o, feats.len());
    push_low16(&mut o, pool.len());
    let ghost at0 = o@;
    let mut i: usize = 0;
    assert(o@ =~= at0 + names_bytes(names, 0));
    while i < pool.len()
        invariant
            i <= pool@.len(),
            names == texts(pool@),
            o@ == at0 + names_bytes(names, i as int),
        decreases pool@.len() - i,
    {
        let bytes = pool[i].as_bytes();
        assert(names[i as int] == pool@[i as int]@);
        push_low16(&mut o, bytes.len());
        push_bytes(&mut o, bytes);
        assert(o@ =~= at0 + names_bytes(names, i as int + 1));
        i = i + 1;
    }
    push_low32(&mut o, arcs.len());
    let ghost at1 = o@;
    let mut verts: usize = 0;
    let mut a: usize = 0;
    assert(o@ =~= at1 + concat(records, 0));
    while a < arcs.len()
        invariant
            a <= arcs@.len(),
            1 <= size <= 4,
            size == coord_bytes(qbits),
            av == arcs_view(arcs@),
            records == arc_records(av, abs_fixed, coord_bytes(qbits)),
            o@ == at1 + concat(records, a as int),
            verts == total_verts(av, a as int),
            total_verts(av, av.len() as int) <= usize::MAX,
        decreases arcs@.len() - a,
    {
        assert(av[a as int] == arcs@[a as int]@);
        push_arc(&mut o, &arcs[a], abs_fixed, size);
        assert(o@ =~= at1 + concat(records, a as int + 1));
        proof {
            crate::snapped::lemma_verts_grow(av, a as int + 1, av.len() as int);
        }
        verts = verts + arcs[a].len();
        a = a + 1;
    }
    let ghost at2 = o@;
    let mut f: usize = 0;
    assert(o@ =~= at2 + features_bytes(feats@, names, rv, sv, qbits, 0));
    while f < feats.len()
        invariant
            f <= feats@.len(),
            feats@.len() <= structure@.len(),
            1 <= qbits <= 32,
            names == texts(pool@),
            rv == refs_view(ring_refs@),
            sv == structure_view(structure@),
            forall|f: int, p: int, k: int|
                0 <= f < structure@.len() && 0 <= p < structure@[f]@.len() && 0 <= k
                    < structure@[f]@[p]@.len() ==> (#[trigger] structure@[f]@[p]@[k])
                    < ring_refs@.len(),
            o@ == at2 + features_bytes(feats@, names, rv, sv, qbits, f as int),
        decreases feats@.len() - f,
    {
        assert(sv[f as int] == feature_view(structure@[f as int]@));
        assert forall|p: int, k: int|
            0 <= p < structure@[f as int]@.len() && 0 <= k
                < structure@[f as int]@[p]@.len() implies (
        #[trigger] structure@[f as int]@[p]@[k]) < ring_refs@.len() by {}
        push_feature(&mut o, &feats[f], &pool, ring_refs, &structure[f], qbits);
        assert(o@ =~= at2 + features_bytes(feats@, names, rv, sv, qbits, f as int + 1));
        f = f + 1;
    }
    let mut refs: usize = 0;
    let mut r: usize = 0;
    while r < ring_refs.len()
        invariant
            r <= ring_refs@.len(),
            rv == refs_view(ring_refs@),
            refs == total_refs(rv, r as int),
            total_refs(rv, rv.len() as int) <= usize::MAX,
        decreases ring_refs@.len() - r,
    {
        assert(rv[r as int] == ring_refs@[r as int]@);
        proof {
            lemma_refs_grow(rv, r as int + 1, rv.len() as int);
        }
        refs = refs + ring_refs[r].len();
        r = r + 1;
    }
    assert(av.len() == arcs@.len());
    assert(names.len() == pool@.len());
    assert(o@ =~= topology_bytes(feats@, av, rv, sv, qbits, abs_fixed));
    TopoOut { bytes: o, arcs: arcs.len(), ring_refs: refs, verts }
}

proof fn lemma_refs_grow(ring_refs: Seq<Seq<u32>>, m: int, n: int)
    requires
        0 <= m <= n <= ring_refs.len(),
    ensures
        total_refs(ring_refs, m) <= total_refs(ring_refs, n),
    decreases n - m,
{
    if m < n {
        lemma_refs_grow(ring_refs, m, n - 1);
    }
}

/// A pool holds every name that a feature has, none of them twice and no other,
/// and a feature's index is the place of its name in it.
pub proof fn lemma_pool_names_each_once(feats: Seq<FeatureRecord>, n: int, f: int)
    requires
        0 <= f < n <= feats.len(),
    ensures
        ({
            let pool = name_pool(feats, n);
            &&& forall|i: int, j: int| 0 <= i < j < pool.len() ==> pool[i] != pool[j]
            &&& forall|i: int|
                0 <= i < pool.len() ==> exists|g: int|
                    0 <= g < n && Some(#[trigger] pool[i]) == #[trigger] name_of(feats[g])
            &&& name_of(feats[f]) matches Some(name) ==> 0 <= name_index(feats[f], pool) < pool.len()
                && pool[name_index(feats[f], pool)] == name
            &&& name_of(feats[f]) is None ==> name_index(feats[f], pool) == 0xFFFF
        }),
    decreases n,
{
    lemma_pool_distinct(feats, n);
    let pool = name_pool(feats, n);
    assert forall|i: int| 0 <= i < pool.len() implies exists|g: int|
        0 <= g < n && Some(#[trigger] pool[i]) == #[trigger] name_of(feats[g]) by {
        lemma_pool_from(feats, n, i);
    }
    if let Some(name) = name_of(feats[f]) {
        lemma_pool_has(feats, n, f);
        lemma_position_from(pool, name, 0);
        let i = choose|i: int| 0 <= i < pool.len() && pool[i] == name;
        assert(pool[i] == name);
    }
}

proof fn lemma_pool_distinct(feats: Seq<FeatureRecord>, n: int)
    requires
        0 <= n <= feats.len(),
    ensures
        forall|i: int, j: int|
            0 <= i < j < name_pool(feats, n).len() ==> name_pool(feats, n)[i] != name_pool(
                feats,
                n,
            )[j],
    decreases n,
{
    if n > 0 {
        lemma_pool_distinct(feats, n - 1);
        let before = name_pool(feats, n - 1);
        if let Some(name) = name_of(feats[n - 1]) {
            lemma_position_from(before, name, 0);
        }
    }
}

proof fn lemma_pool_from(feats: Seq<FeatureRecord>, n: int, i: int)
    requires
        0 <= n <= feats.len(),
        0 <= i < name_pool(feats, n).len(),
    ensures
        exists|g: int| 0 <= g < n && Some(name_pool(feats, n)[i]) == #[trigger] name_of(feats[g]),
    decreases n,
{
    if n > 0 {
        let before = name_pool(feats, n - 1);
        if i < before.len() {
            lemma_pool_from(feats, n - 1, i);
            let g = choose|g: int|
                0 <= g < n - 1 && Some(before[i]) == #[trigger] name_of(feats[g]);
            assert(Some(name_pool(feats, n)[i]) == name_of(feats[g]));
        } else {
            assert(Some(name_pool(feats, n)[i]) == name_of(feats[n - 1]));
        }
    }
}

proof fn lemma_pool_has(feats: Seq<FeatureRecord>, n: int, f: int)
    requires
        0 <= f < n <= feats.len(),
        name_of(feats[f]) is Some,
    ensures
        name_pool(feats, n).contains(name_of(feats[f])->0),
    decreases n,
{
    let name = name_of(feats[f])->0;
    let (before, pool) = (name_pool(feats, n - 1), name_pool(feats, n));
    if f < n - 1 {
        lemma_pool_has(feats, n - 1, f);
        let i = choose|i: int| 0 <= i < before.len() && before[i] == name;
        assert(pool[i] == name);
    } else {
        lemma_position_from(before, name, 0);
        if position(before, name) < before.len() {
            assert(pool[position(before, name)] == name);
        } else {
            assert(pool[before.len() as int] == name);
        }
    }
}

/// Whether a box holds a vertex.
pub open spec fn box_holds(b: GridBox, v: Vertex) -> bool {
    b.min_x <= v.0 && v.0 <= b.max_x && b.min_y <= v.1 && v.1 <= b.max_y
}

/// Whether a vertex of an outline's first `n` rings is `v`.
pub open spec fn outline_has(outline: Seq<Vec<Vertex>>, n: int, v: Vertex) -> bool {
    exists|r: int| 0 <= r < n && #[trigger] outline[r]@.contains(v)
}

/// Whether a box holds every vertex of some set, and a vertex of it stands on each
/// of its sides.
pub open spec fn just_holds(b: GridBox, has: spec_fn(Vertex) -> bool) -> bool {
    &&& forall|v: Vertex| #[trigger] has(v) ==> box_holds(b, v)
    &&& (exists|v: Vertex| #[trigger] has(v)) ==> {
        &&& exists|v: Vertex| #[trigger] has(v) && v.0 == b.min_x
        &&& exists|v: Vertex| #[trigger] has(v) && v.1 == b.min_y
        &&& exists|v: Vertex| #[trigger] has(v) && v.0 == b.max_x
        &&& exists|v: Vertex| #[trigger] has(v) && v.1 == b.max_y
    }
}

/// The vertices of an outline's first `n` rings, and of the first `m` of the next.
spec fn has_upto(outline: Seq<Vec<Vertex>>, n: int, m: int) -> spec_fn(Vertex) -> bool {
    |v: Vertex|
        outline_has(outline, n, v) || exists|i: int| 0 <= i < m && #[trigger] outline[n]@[i] == v
}

/// One more vertex grows a box that just holds the others to one that just holds
/// them all.
proof fn lemma_grown(b: GridBox, x: Vertex, has: spec_fn(Vertex) -> bool, now: spec_fn(Vertex) -> bool)
    requires
        just_holds(b, has),
        (exists|v: Vertex| #[trigger] has(v)) || b == empty_box(),
        forall|v: Vertex| #[trigger] now(v) == (has(v) || v == x),
    ensures
        just_holds(grown(b, x), now),
        exists|v: Vertex| #[trigger] now(v),
{
    let g = grown(b, x);
    assert(now(x));
    assert forall|v: Vertex| #[trigger] now(v) implies box_holds(g, v) by {
        if has(v) {
            assert(box_holds(b, v));
        }
    }
    if exists|v: Vertex| #[trigger] has(v) {
        let w = choose|v: Vertex| #[trigger] has(v);
        assert(box_holds(b, w));
        let (l, r) = (
            choose|v: Vertex| #[trigger] has(v) && v.0 == b.min_x,
            choose|v: Vertex| #[trigger] has(v) && v.0 == b.max_x,
        );
        let (d, u) = (
            choose|v: Vertex| #[trigger] has(v) && v.1 == b.min_y,
            choose|v: Vertex| #[trigger] has(v) && v.1 == b.max_y,
        );
        assert(now(l) && now(r) && now(d) && now(u));
    }
}

/// The box of an outline just holds its vertices.
proof fn lemma_outline_box(outline: Seq<Vec<Vertex>>, n: int, m: int)
    requires
        0 <= n <= outline.len(),
        m == 0 || (n < outline.len() && 0 <= m <= outline[n]@.len()),
    ensures
        ({
            let b = if m == 0 {
                outline_box(outline, n)
            } else {
                box_over(outline_box(outline, n), outline[n]@, m)
            };
            let has = has_upto(outline, n, m);
            &&& just_holds(b, has)
            &&& (exists|v: Vertex| #[trigger] has(v)) || b == empty_box()
        }),
    decreases n, m,
{
    let has = has_upto(outline, n, m);
    if m > 0 {
        lemma_outline_box(outline, n, m - 1);
        let less = has_upto(outline, n, m - 1);
        let b = if m == 1 {
            outline_box(outline, n)
        } else {
            box_over(outline_box(outline, n), outline[n]@, m - 1)
        };
        let x = outline[n]@[m - 1];
        assert(box_over(outline_box(outline, n), outline[n]@, 0) == outline_box(outline, n));
        assert forall|v: Vertex| #[trigger] has(v) == (less(v) || v == x) by {
            if has(v) && !outline_has(outline, n, v) {
                let i = choose|i: int| 0 <= i < m && #[trigger] outline[n]@[i] == v;
                if i < m - 1 {
                    assert(less(v));
                }
            }
            if less(v) && !outline_has(outline, n, v) {
                let i = choose|i: int| 0 <= i < m - 1 && #[trigger] outline[n]@[i] == v;
                assert(outline[n]@[i] == v);
            }
            if v == x {
                assert(outline[n]@[m - 1] == v);
            }
        }
        lemma_grown(b, x, less, has);
    } else if n > 0 {
        let len = outline[n - 1]@.len() as int;
        lemma_outline_box(outline, n - 1, len);
        let less = has_upto(outline, n - 1, len);
        assert(box_over(outline_box(outline, n - 1), outline[n - 1]@, 0) == outline_box(
            outline,
            n - 1,
        ));
        assert forall|v: Vertex| #[trigger] has(v) == less(v) by {
            if outline_has(outline, n, v) {
                let r = choose|r: int| 0 <= r < n && #[trigger] outline[r]@.contains(v);
                if r < n - 1 {
                    assert(outline_has(outline, n - 1, v));
                } else {
                    let i = choose|i: int| 0 <= i < len && outline[r]@[i] == v;
                    assert(outline[n - 1]@[i] == v);
                }
            }
            if less(v) {
                if outline_has(outline, n - 1, v) {
                    let r = choose|r: int| 0 <= r < n - 1 && #[trigger] outline[r]@.contains(v);
                    assert(outline[r]@.contains(v));
                } else {
                    let i = choose|i: int| 0 <= i < len && #[trigger] outline[n - 1]@[i] == v;
                    assert(outline[n - 1]@.contains(v));
                }
            }
        }
        assert(has =~= less);
    } else {
        assert forall|v: Vertex| !#[trigger] has(v) by {}
    }
}

/// The vertices of an outline.
pub open spec fn outline_vertices(outline: Seq<Vec<Vertex>>) -> spec_fn(Vertex) -> bool {
    |v: Vertex| outline_has(outline, outline.len() as int, v)
}

/// A feature's box holds every vertex of its outline, and a vertex stands on each
/// of its sides.
pub proof fn lemma_feature_boxes_are_tight(outline: Seq<Vec<Vertex>>)
    ensures
        just_holds(outline_box(outline, outline.len() as int), outline_vertices(outline)),
{
    let n = outline.len() as int;
    lemma_outline_box(outline, n, 0);
    let (a, b) = (has_upto(outline, n, 0), outline_vertices(outline));
    assert forall|v: Vertex| #[trigger] a(v) == b(v) by {}
    assert(a =~= b);
}

/// Where the arcs stand in a file.
pub open spec fn arcs_from(feats: Seq<FeatureRecord>) -> int {
    let pool = name_pool(feats, feats.len() as int);
    14int + names_bytes(pool, pool.len() as int).len()
}

/// Where the features stand in a file.
pub open spec fn feats_from(
    feats: Seq<FeatureRecord>,
    arcs: Seq<Seq<Vertex>>,
    bits: u32,
    abs_fixed: bool,
) -> int {
    let records = arc_records(arcs, abs_fixed, coord_bytes(bits));
    arcs_from(feats) + concat(records, records.len() as int).len()
}

/// The parts of a file, each where it stands.
proof fn lemma_parts(
    feats: Seq<FeatureRecord>,
    arcs: Seq<Seq<Vertex>>,
    ring_refs: Seq<Seq<u32>>,
    structure: Seq<Seq<Seq<int>>>,
    bits: u32,
    abs_fixed: bool,
)
    ensures
        ({
            let b = topology_bytes(feats, arcs, ring_refs, structure, bits, abs_fixed);
            let pool = name_pool(feats, feats.len() as int);
            let records = arc_records(arcs, abs_fixed, coord_bytes(bits));
            &&& holds(b, 0, le_bytes(0x4E45_4442, 4))
            &&& holds(b, 4, le_bytes(feats.len() as int, 4))
            &&& holds(b, 8, le_bytes(pool.len() as int, 2))
            &&& holds(b, 10, names_bytes(pool, pool.len() as int))
            &&& holds(b, arcs_from(feats) - 4, le_bytes(arcs.len() as int, 4))
            &&& holds(b, arcs_from(feats), concat(records, records.len() as int))
            &&& holds(
                b,
                feats_from(feats, arcs, bits, abs_fixed),
                features_bytes(feats, pool, ring_refs, structure, bits, feats.len() as int),
            )
        }),
{
    let b = topology_bytes(feats, arcs, ring_refs, structure, bits, abs_fixed);
    let pool = name_pool(feats, feats.len() as int);
    let records = arc_records(arcs, abs_fixed, coord_bytes(bits));
    let w0 = le_bytes(0x4E45_4442, 4);
    let w1 = le_bytes(feats.len() as int, 4);
    let w2 = le_bytes(pool.len() as int, 2);
    let w3 = names_bytes(pool, pool.len() as int);
    let w4 = le_bytes(arcs.len() as int, 4);
    let w5 = concat(records, records.len() as int);
    let w6 = features_bytes(feats, pool, ring_refs, structure, bits, feats.len() as int);
    assert(b.subrange(0, b.len() as int) =~= b);
    lemma_holds_split(b, 0, w0 + w1 + w2 + w3 + w4 + w5, w6);
    lemma_holds_split(b, 0, w0 + w1 + w2 + w3 + w4, w5);
    lemma_holds_split(b, 0, w0 + w1 + w2 + w3, w4);
    lemma_holds_split(b, 0, w0 + w1 + w2, w3);
    lemma_holds_split(b, 0, w0 + w1, w2);
    lemma_holds_split(b, 0, w0, w1);
}

/// A file starts with `BDEN` and counts its features; behind its names it counts
/// its arcs, and each of them reads back as its vertices.
pub proof fn lemma_topology_arcs_read_back(
    feats: Seq<FeatureRecord>,
    arcs: Seq<Seq<Vertex>>,
    ring_refs: Seq<Seq<u32>>,
    structure: Seq<Seq<Seq<int>>>,
    bits: u32,
    abs_fixed: bool,
    a: int,
)
    requires
        9 <= bits <= 32,
        feats.len() <= u32::MAX,
        arcs.len() <= u32::MAX,
        0 <= a < arcs.len(),
        1 <= arcs[a].len() <= u32::MAX,
        path_fits(arcs[a], coord_bytes(bits) as int),
    ensures
        ({
            let b = topology_bytes(feats, arcs, ring_refs, structure, bits, abs_fixed);
            let size = coord_bytes(bits);
            &&& b[0] == 'B' as int && b[1] == 'D' as int && b[2] == 'E' as int && b[3] == 'N' as int
            &&& u32_at(b, 4) == feats.len()
            &&& u32_at(b, arcs_from(feats) - 4) == arcs.len()
            &&& 8 * size - 8 < bits <= 8 * size
            &&& arc_at(
                b,
                abs_fixed,
                size as int,
                arcs_from(feats) + concat(arc_records(arcs, abs_fixed, size), a).len(),
            ) == Some(points_of(arcs[a]))
        }),
{
    let b = topology_bytes(feats, arcs, ring_refs, structure, bits, abs_fixed);
    let size = coord_bytes(bits);
    let records = arc_records(arcs, abs_fixed, size);
    lemma_parts(feats, arcs, ring_refs, structure, bits, abs_fixed);
    let magic = le_bytes(0x4E45_4442, 4);
    assert(b.subrange(0, 4) == magic);
    assert(magic[0] == b[0] && magic[1] == b[1] && magic[2] == b[2] && magic[3] == b[3]);
    lemma_u32_reads(b, 4, feats.len() as int);
    lemma_u32_reads(b, arcs_from(feats) - 4, arcs.len() as int);
    lemma_record_holds(b, arcs_from(feats), records, records.len() as int, a);
    assert(records[a] == arc_record(arcs[a], abs_fixed, size));
    lemma_arc_reads_back(
        b,
        arcs_from(feats) + concat(records, a).len(),
        arcs[a],
        abs_fixed,
        size,
    );
}

/// Of features in a row, each stands behind those before it.
proof fn lemma_feature_holds(
    b: Seq<u8>,
    pos: int,
    feats: Seq<FeatureRecord>,
    pool: Seq<Seq<char>>,
    ring_refs: Seq<Seq<u32>>,
    structure: Seq<Seq<Seq<int>>>,
    bits: u32,
    n: int,
    f: int,
)
    requires
        0 <= f < n <= feats.len(),
        holds(b, pos, features_bytes(feats, pool, ring_refs, structure, bits, n)),
    ensures
        holds(
            b,
            pos + features_bytes(feats, pool, ring_refs, structure, bits, f).len(),
            feature_bytes(feats[f], pool, ring_refs, structure[f], bits),
        ),
    decreases n,
{
    lemma_holds_split(
        b,
        pos,
        features_bytes(feats, pool, ring_refs, structure, bits, n - 1),
        feature_bytes(feats[n - 1], pool, ring_refs, structure[n - 1], bits),
    );
    if f < n - 1 {
        lemma_feature_holds(b, pos, feats, pool, ring_refs, structure, bits, n - 1, f);
    }
}

/// A polygon's rings.
pub open spec fn rings_of_poly(ring_refs: Seq<Seq<u32>>, poly: Seq<int>) -> Seq<Seq<u32>> {
    Seq::new(poly.len(), |k: int| ring_refs[poly[k]])
}

/// A polygon's ring records, either way.
proof fn lemma_poly_rings(ring_refs: Seq<Seq<u32>>, poly: Seq<int>, n: int)
    requires
        0 <= n <= poly.len(),
    ensures
        poly_rings_bytes(ring_refs, poly, n) == rings_bytes(rings_of_poly(ring_refs, poly), n),
    decreases n,
{
    if n > 0 {
        lemma_poly_rings(ring_refs, poly, n - 1);
    }
}

/// Of polygons in a row, each stands behind those before it.
proof fn lemma_poly_holds(
    b: Seq<u8>,
    pos: int,
    ring_refs: Seq<Seq<u32>>,
    polys: Seq<Seq<int>>,
    n: int,
    p: int,
)
    requires
        0 <= p < n <= polys.len(),
        holds(b, pos, polys_bytes(ring_refs, polys, n)),
    ensures
        holds(
            b,
            pos + polys_bytes(ring_refs, polys, p).len(),
            le_bytes(polys[p].len() as int, 2) + poly_rings_bytes(
                ring_refs,
                polys[p],
                polys[p].len() as int,
            ),
        ),
    decreases n,
{
    let poly = polys[n - 1];
    let before = polys_bytes(ring_refs, polys, n - 1);
    let count = le_bytes(poly.len() as int, 2);
    let rings = poly_rings_bytes(ring_refs, poly, poly.len() as int);
    assert(before + count + rings =~= before + (count + rings));
    lemma_holds_split(b, pos, before, count + rings);
    if p < n - 1 {
        lemma_poly_holds(b, pos, ring_refs, polys, n - 1, p);
    }
}

/// The head of a feature reads as it was written, and its polygons follow.
proof fn lemma_feature_reads(
    b: Seq<u8>,
    at: int,
    f: FeatureRecord,
    pool: Seq<Seq<char>>,
    ring_refs: Seq<Seq<u32>>,
    polys: Seq<Seq<int>>,
    bits: u32,
)
    requires
        9 <= bits <= 32,
        polys.len() <= 0xFFFF,
        0 <= name_index(f, pool) <= 0xFFFF,
        box_fits(outline_box(f.outline@, f.outline@.len() as int), coord_bytes(bits) as int),
        holds(b, at, feature_bytes(f, pool, ring_refs, polys, bits)),
    ensures
        ({
            let size = coord_bytes(bits) as int;
            &&& u32_at(b, at) == f.offset
            &&& u16_at(b, at + 4) == name_index(f, pool)
            &&& bbox_at(b, at + 6, size) == box_of(
                outline_box(f.outline@, f.outline@.len() as int),
            )
            &&& u16_at(b, at + 6 + 4 * size) == polys.len()
            &&& holds(b, at + 8 + 4 * size, polys_bytes(ring_refs, polys, polys.len() as int))
        }),
{
    let size = coord_bytes(bits);
    let bb = outline_box(f.outline@, f.outline@.len() as int);
    let index = name_index(f, pool);
    let w0 = le_bytes(f.offset as int, 4);
    let w1 = le_bytes(index, 2);
    let w2 = box_bytes(bb, size);
    let w3 = le_bytes(polys.len() as int, 2);
    let w4 = polys_bytes(ring_refs, polys, polys.len() as int);
    lemma_holds_split(b, at, w0 + w1 + w2 + w3, w4);
    lemma_holds_split(b, at, w0 + w1 + w2, w3);
    lemma_holds_split(b, at, w0 + w1, w2);
    lemma_holds_split(b, at, w0, w1);
    assert(w2.len() == 4 * size);
    lemma_u32_reads(b, at, f.offset as int);
    lemma_unsigned_round_trip(b, at + 4, index, 2);
    lemma_box_reads_back(b, at + 6, bb, size);
    lemma_unsigned_round_trip(b, at + 6 + 4 * size, polys.len() as int, 2);
}

/// A polygon's rings read as their references.
proof fn lemma_poly_reads(
    b: Seq<u8>,
    q: int,
    ring_refs: Seq<Seq<u32>>,
    polys: Seq<Seq<int>>,
    p: int,
)
    requires
        0 <= p < polys.len(),
        polys[p].len() <= 0xFFFF,
        forall|k: int| 0 <= k < polys[p].len() ==> 0 <= #[trigger] polys[p][k] < ring_refs.len(),
        forall|r: int| 0 <= r < ring_refs.len() ==> (#[trigger] ring_refs[r]).len() <= u32::MAX,
        holds(b, q, polys_bytes(ring_refs, polys, polys.len() as int)),
    ensures
        ({
            let pos = q + polys_bytes(ring_refs, polys, p).len();
            &&& u16_at(b, pos) == polys[p].len()
            &&& rings_at(b, pos + 2, polys[p].len()) matches Some((rings, _)) && rings
                == ring_numbers(rings_of_poly(ring_refs, polys[p]))
        }),
{
    lemma_poly_holds(b, q, ring_refs, polys, polys.len() as int, p);
    let pos = q + polys_bytes(ring_refs, polys, p).len();
    let poly = polys[p];
    let rings = rings_of_poly(ring_refs, poly);
    lemma_poly_rings(ring_refs, poly, poly.len() as int);
    lemma_holds_split(
        b,
        pos,
        le_bytes(poly.len() as int, 2),
        rings_bytes(rings, poly.len() as int),
    );
    lemma_unsigned_round_trip(b, pos, poly.len() as int, 2);
    assert forall|k: int| 0 <= k < rings.len() implies (#[trigger] rings[k]).len() <= u32::MAX by {
        assert(0 <= polys[p][k] < ring_refs.len());
    }
    lemma_rings_read_back(b, pos + 2, rings);
}

/// A feature stands behind those before it: its offset, the place of its name, its
/// box, and its polygons, whose rings read back as their references.
pub proof fn lemma_topology_features_read_back(
    feats: Seq<FeatureRecord>,
    arcs: Seq<Seq<Vertex>>,
    ring_refs: Seq<Seq<u32>>,
    structure: Seq<Seq<Seq<int>>>,
    bits: u32,
    abs_fixed: bool,
    f: int,
    p: int,
)
    requires
        9 <= bits <= 32,
        feats.len() <= 0xFFFF,
        0 <= f < feats.len() <= structure.len(),
        0 <= p < structure[f].len() <= 0xFFFF,
        structure[f][p].len() <= 0xFFFF,
        forall|k: int|
            0 <= k < structure[f][p].len() ==> 0 <= #[trigger] structure[f][p][k]
                < ring_refs.len(),
        forall|r: int| 0 <= r < ring_refs.len() ==> (#[trigger] ring_refs[r]).len() <= u32::MAX,
        box_fits(
            outline_box(feats[f].outline@, feats[f].outline@.len() as int),
            coord_bytes(bits) as int,
        ),
    ensures
        ({
            let b = topology_bytes(feats, arcs, ring_refs, structure, bits, abs_fixed);
            let size = coord_bytes(bits) as int;
            let pool = name_pool(feats, feats.len() as int);
            let at = feats_from(feats, arcs, bits, abs_fixed) + features_bytes(
                feats,
                pool,
                ring_refs,
                structure,
                bits,
                f,
            ).len();
            let poly = at + 8 + 4 * size + polys_bytes(ring_refs, structure[f], p).len();
            &&& u32_at(b, at) == feats[f].offset
            &&& u16_at(b, at + 4) == name_index(feats[f], pool)
            &&& bbox_at(b, at + 6, size) == box_of(
                outline_box(feats[f].outline@, feats[f].outline@.len() as int),
            )
            &&& u16_at(b, at + 6 + 4 * size) == structure[f].len()
            &&& u16_at(b, poly) == structure[f][p].len()
            &&& rings_at(b, poly + 2, structure[f][p].len()) matches Some((rings, _)) && rings
                == ring_numbers(rings_of_poly(ring_refs, structure[f][p]))
        }),
{
    let b = topology_bytes(feats, arcs, ring_refs, structure, bits, abs_fixed);
    let size = coord_bytes(bits);
    let pool = name_pool(feats, feats.len() as int);
    let n = feats.len() as int;
    lemma_parts(feats, arcs, ring_refs, structure, bits, abs_fixed);
    let start = feats_from(feats, arcs, bits, abs_fixed);
    lemma_feature_holds(b, start, feats, pool, ring_refs, structure, bits, n, f);
    let at = start + features_bytes(feats, pool, ring_refs, structure, bits, f).len();
    lemma_pool_names_each_once(feats, n, f);
    lemma_pool_len(feats, n);
    lemma_feature_reads(b, at, feats[f], pool, ring_refs, structure[f], bits);
    lemma_poly_reads(b, at + 8 + 4 * size, ring_refs, structure[f], p);
}

/// A pool has no more names than there are features.
proof fn lemma_pool_len(feats: Seq<FeatureRecord>, n: int)
    requires
        0 <= n <= feats.len(),
    ensures
        name_pool(feats, n).len() <= n,
    decreases n,
{
    if n > 0 {
        lemma_pool_len(feats, n - 1);
    }
}

} // verus!
