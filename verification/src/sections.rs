//! The payload's serialized records: arcs, rings, tables, and the flattened
//! ring image.

use vstd::prelude::*;

use crate::bytes::{le_bytes, push_fixed, push_u16, varint_bytes, zigzag_spec};
use crate::clean::{arcs_view, refs_valid, ring_coords_q, Vertex};
use crate::sift::refs_view;
use crate::stitch::ring_of;

verus! {

/// Zigzag-maps a signed delta.
pub fn zigzag(v: i64) -> (z: u64)
    ensures
        z == zigzag_spec(v as int),
{
    if v >= 0 {
        2 * (v as u64)
    } else {
        2 * ((-(v + 1)) as u64) + 1
    }
}

/// Appends a varint: seven bits a byte, least significant first.
pub fn put_varint(out: &mut Vec<u8>, v: u64)
    ensures
        final(out)@ == old(out)@ + varint_bytes(v as nat),
{
    let mut rest: u64 = v;
    while rest >= 128
        invariant
            out@ + varint_bytes(rest as nat) == old(out)@ + varint_bytes(v as nat),
        decreases rest,
    {
        let ghost before = out@;
        out.push((128 + rest % 128) as u8);
        assert(before + varint_bytes(rest as nat) =~= out@ + varint_bytes((rest / 128) as nat));
        rest = rest / 128;
    }
    out.push(rest as u8);
    assert(out@ =~= old(out)@ + varint_bytes(v as nat));
}

/// Appends the low four bytes of a count, little-endian.
pub fn push_low32(out: &mut Vec<u8>, v: usize)
    ensures
        final(out)@ == old(out)@ + le_bytes(v as int, 4),
{
    out.push((v % 256) as u8);
    out.push((v / 256 % 256) as u8);
    out.push((v / 65536 % 256) as u8);
    out.push((v / 16777216 % 256) as u8);
    assert(out@ =~= old(out)@ + le_bytes(v as int, 4));
}

/// Appends the low two bytes of a count, little-endian.
pub fn push_low16(out: &mut Vec<u8>, v: usize)
    ensures
        final(out)@ == old(out)@ + le_bytes(v as int, 2),
{
    out.push((v % 256) as u8);
    out.push((v / 256 % 256) as u8);
    assert(out@ =~= old(out)@ + le_bytes(v as int, 2));
}

/// The first `n` records in a row.
pub open spec fn concat(records: Seq<Seq<u8>>, n: int) -> Seq<u8>
    decreases n,
{
    if n <= 0 {
        Seq::empty()
    } else {
        concat(records, n - 1) + records[n - 1]
    }
}

/// The first `n` entries of the records' offset table.
pub open spec fn offsets_bytes(records: Seq<Seq<u8>>, n: int) -> Seq<u8>
    decreases n,
{
    if n <= 0 {
        Seq::empty()
    } else {
        offsets_bytes(records, n - 1) + le_bytes(concat(records, n - 1).len() as int, 4)
    }
}

/// The first `n` values as u16s.
pub open spec fn u16_table(v: Seq<u16>, n: int) -> Seq<u8>
    decreases n,
{
    if n <= 0 {
        Seq::empty()
    } else {
        u16_table(v, n - 1) + le_bytes(v[n - 1] as int, 2)
    }
}

/// The first `n` values as u32s.
pub open spec fn u32_table(v: Seq<int>, n: int) -> Seq<u8>
    decreases n,
{
    if n <= 0 {
        Seq::empty()
    } else {
        u32_table(v, n - 1) + le_bytes(v[n - 1], 4)
    }
}

/// Appends a u16 table.
pub fn push_u16_table(out: &mut Vec<u8>, v: &[u16])
    ensures
        final(out)@ == old(out)@ + u16_table(v@, v@.len() as int),
{
    let mut i: usize = 0;
    while i < v.len()
        invariant
            i <= v@.len(),
            out@ == old(out)@ + u16_table(v@, i as int),
        decreases v@.len() - i,
    {
        push_u16(out, v[i]);
        assert(out@ =~= old(out)@ + u16_table(v@, i as int + 1));
        i = i + 1;
    }
}

/// A vertex at quantization width.
pub open spec fn vertex_bytes(v: Vertex, size: nat) -> Seq<u8> {
    le_bytes(v.0 as int, size) + le_bytes(v.1 as int, size)
}

/// A vertex as two zigzag deltas from the one before it.
pub open spec fn delta_bytes(from: Vertex, to: Vertex) -> Seq<u8> {
    varint_bytes(zigzag_spec(to.0 - from.0)) + varint_bytes(zigzag_spec(to.1 - from.1))
}

/// The bytes of vertex `i` of an arc: absolute where it is the first or the
/// arc is fixed-width, deltas otherwise.
pub open spec fn step_bytes(a: Seq<Vertex>, fixed: bool, size: nat, i: int) -> Seq<u8> {
    if fixed || i == 0 {
        vertex_bytes(a[i], size)
    } else {
        delta_bytes(a[i - 1], a[i])
    }
}

/// The first `n` vertices of an arc.
pub open spec fn vertices_bytes(a: Seq<Vertex>, fixed: bool, size: nat, n: int) -> Seq<u8>
    decreases n,
{
    if n <= 0 {
        Seq::empty()
    } else {
        vertices_bytes(a, fixed, size, n - 1) + step_bytes(a, fixed, size, n - 1)
    }
}

/// An arc record: its vertex count, then its vertices.
pub open spec fn arc_record(a: Seq<Vertex>, fixed: bool, size: nat) -> Seq<u8> {
    varint_bytes(a.len()) + vertices_bytes(a, fixed, size, a.len() as int)
}

/// The records of all arcs.
pub open spec fn arc_records(arcs: Seq<Seq<Vertex>>, fixed: bool, size: nat) -> Seq<Seq<u8>> {
    Seq::new(arcs.len(), |i: int| arc_record(arcs[i], fixed, size))
}

/// Appends one arc record.
pub fn push_arc(out: &mut Vec<u8>, a: &Vec<Vertex>, fixed: bool, size: usize)
    requires
        1 <= size <= 4,
    ensures
        final(out)@ == old(out)@ + arc_record(a@, fixed, size as nat),
{
    let ghost start = out@;
    put_varint(out, a.len() as u64);
    let ghost counted = out@;
    let mut i: usize = 0;
    assert(out@ =~= counted + vertices_bytes(a@, fixed, size as nat, 0));
    while i < a.len()
        invariant
            i <= a@.len(),
            1 <= size <= 4,
            out@ == counted + vertices_bytes(a@, fixed, size as nat, i as int),
        decreases a@.len() - i,
    {
        let ghost before = out@;
        let v = a[i];
        if fixed || i == 0 {
            push_fixed(out, v.0, size);
            push_fixed(out, v.1, size);
        } else {
            let p = a[i - 1];
            put_varint(out, zigzag(v.0 as i64 - p.0 as i64));
            put_varint(out, zigzag(v.1 as i64 - p.1 as i64));
        }
        assert(out@ =~= before + step_bytes(a@, fixed, size as nat, i as int));
        assert(out@ =~= counted + vertices_bytes(a@, fixed, size as nat, i as int + 1));
        i = i + 1;
    }
    assert(out@ =~= start + arc_record(a@, fixed, size as nat));
}

/// Serializes all arcs: the offset table's bytes and the records behind it.
pub fn arc_store(arcs: &Vec<Vec<Vertex>>, fixed: bool, size: usize) -> (out: (Vec<u8>, Vec<u8>))
    requires
        2 <= size <= 4,
    ensures
        ({
            let records = arc_records(arcs_view(arcs@), fixed, size as nat);
            &&& out.0@ == offsets_bytes(records, records.len() as int + 1)
            &&& out.1@ == concat(records, records.len() as int)
        }),
{
    let ghost records = arc_records(arcs_view(arcs@), fixed, size as nat);
    let mut table: Vec<u8> = Vec::new();
    let mut data: Vec<u8> = Vec::new();
    let mut i: usize = 0;
    while i < arcs.len()
        invariant
            i <= arcs@.len(),
            2 <= size <= 4,
            records == arc_records(arcs_view(arcs@), fixed, size as nat),
            table@ == offsets_bytes(records, i as int),
            data@ == concat(records, i as int),
        decreases arcs@.len() - i,
    {
        push_low32(&mut table, data.len());
        push_arc(&mut data, &arcs[i], fixed, size);
        assert(records[i as int] == arc_record(arcs@[i as int]@, fixed, size as nat));
        i = i + 1;
    }
    push_low32(&mut table, data.len());
    (table, data)
}

/// The first `n` references of a ring as varints.
pub open spec fn refs_bytes(refs: Seq<u32>, n: int) -> Seq<u8>
    decreases n,
{
    if n <= 0 {
        Seq::empty()
    } else {
        refs_bytes(refs, n - 1) + varint_bytes(refs[n - 1] as nat)
    }
}

/// A ring record: its reference count, then its references.
pub open spec fn ring_record(refs: Seq<u32>) -> Seq<u8> {
    varint_bytes(refs.len()) + refs_bytes(refs, refs.len() as int)
}

/// The records of a poly's first `n` rings.
pub open spec fn rings_bytes(rings: Seq<Seq<u32>>, n: int) -> Seq<u8>
    decreases n,
{
    if n <= 0 {
        Seq::empty()
    } else {
        rings_bytes(rings, n - 1) + ring_record(rings[n - 1])
    }
}

/// A bounding box on the quantization grid.
#[derive(Clone, Copy, PartialEq, Eq, Structural, Debug)]
pub struct GridBox {
    pub min_x: i32,
    pub min_y: i32,
    pub max_x: i32,
    pub max_y: i32,
}

/// The box of no vertices.
pub open spec fn empty_box() -> GridBox {
    GridBox { min_x: i32::MAX, min_y: i32::MAX, max_x: i32::MIN, max_y: i32::MIN }
}

/// A box extended to a vertex.
pub open spec fn grown(b: GridBox, v: Vertex) -> GridBox {
    GridBox {
        min_x: if v.0 < b.min_x { v.0 } else { b.min_x },
        min_y: if v.1 < b.min_y { v.1 } else { b.min_y },
        max_x: if v.0 > b.max_x { v.0 } else { b.max_x },
        max_y: if v.1 > b.max_y { v.1 } else { b.max_y },
    }
}

/// A box extended to the first `n` vertices of a path.
pub open spec fn box_over(b: GridBox, path: Seq<Vertex>, n: int) -> GridBox
    decreases n,
{
    if n <= 0 {
        b
    } else {
        grown(box_over(b, path, n - 1), path[n - 1])
    }
}

/// A box extended to the arcs of a ring's first `n` references.
pub open spec fn box_refs(b: GridBox, refs: Seq<u32>, arcs: Seq<Seq<Vertex>>, n: int) -> GridBox
    decreases n,
{
    if n <= 0 {
        b
    } else {
        let arc = arcs[(refs[n - 1] / 2) as int];
        box_over(box_refs(b, refs, arcs, n - 1), arc, arc.len() as int)
    }
}

/// The box of the arcs of a poly's first `n` rings.
pub open spec fn box_rings(rings: Seq<Seq<u32>>, arcs: Seq<Seq<Vertex>>, n: int) -> GridBox
    decreases n,
{
    if n <= 0 {
        empty_box()
    } else {
        let refs = rings[n - 1];
        box_refs(box_rings(rings, arcs, n - 1), refs, arcs, refs.len() as int)
    }
}

/// A box as four integers of `size` bytes.
pub open spec fn box_bytes(b: GridBox, size: nat) -> Seq<u8> {
    le_bytes(b.min_x as int, size) + le_bytes(b.min_y as int, size) + le_bytes(
        b.max_x as int,
        size,
    ) + le_bytes(b.max_y as int, size)
}

/// A poly record: bounding box, ring count, rings.
pub open spec fn poly_record(rings: Seq<Seq<u32>>, arcs: Seq<Seq<Vertex>>, size: nat) -> Seq<u8> {
    box_bytes(box_rings(rings, arcs, rings.len() as int), size) + le_bytes(rings.len() as int, 2)
        + rings_bytes(rings, rings.len() as int)
}

/// The records of all polys.
pub open spec fn poly_records(
    polys: Seq<Seq<Seq<u32>>>,
    arcs: Seq<Seq<Vertex>>,
    size: nat,
) -> Seq<Seq<u8>> {
    Seq::new(polys.len(), |i: int| poly_record(polys[i], arcs, size))
}

/// The polys' rings as sequences.
pub open spec fn polys_view(polys: Seq<Vec<Vec<u32>>>) -> Seq<Seq<Seq<u32>>> {
    Seq::new(polys.len(), |i: int| refs_view(polys[i]@))
}

/// Whether every ring's references name arcs.
pub open spec fn polys_valid(polys: Seq<Vec<Vec<u32>>>, arcs: Seq<Vec<Vertex>>) -> bool {
    forall|i: int, k: int|
        0 <= i < polys.len() && 0 <= k < polys[i]@.len() ==> refs_valid(
            (#[trigger] polys[i]@[k])@,
            arcs,
        )
}

/// Extends a box to a path.
pub fn grow_box(b: GridBox, path: &[Vertex]) -> (out: GridBox)
    ensures
        out == box_over(b, path@, path@.len() as int),
{
    let mut out = b;
    let mut i: usize = 0;
    while i < path.len()
        invariant
            i <= path@.len(),
            out == box_over(b, path@, i as int),
        decreases path@.len() - i,
    {
        let v = path[i];
        out = GridBox {
            min_x: if v.0 < out.min_x {
                v.0
            } else {
                out.min_x
            },
            min_y: if v.1 < out.min_y {
                v.1
            } else {
                out.min_y
            },
            max_x: if v.0 > out.max_x {
                v.0
            } else {
                out.max_x
            },
            max_y: if v.1 > out.max_y {
                v.1
            } else {
                out.max_y
            },
        };
        i = i + 1;
    }
    out
}

/// Extends a box to the arcs a ring references.
fn grow_box_refs(b: GridBox, refs: &Vec<u32>, arcs: &Vec<Vec<Vertex>>) -> (out: GridBox)
    requires
        refs_valid(refs@, arcs@),
    ensures
        out == box_refs(b, refs@, arcs_view(arcs@), refs@.len() as int),
{
    let mut out = b;
    let mut i: usize = 0;
    while i < refs.len()
        invariant
            i <= refs@.len(),
            refs_valid(refs@, arcs@),
            out == box_refs(b, refs@, arcs_view(arcs@), i as int),
        decreases refs@.len() - i,
    {
        assert((refs@[i as int] / 2) < arcs@.len());
        let id = (refs[i] / 2) as usize;
        assert(arcs_view(arcs@)[id as int] == arcs@[id as int]@);
        out = grow_box(out, arcs[id].as_slice());
        i = i + 1;
    }
    out
}

/// Appends a box.
pub fn push_box(out: &mut Vec<u8>, b: GridBox, size: usize)
    requires
        1 <= size <= 4,
    ensures
        final(out)@ == old(out)@ + box_bytes(b, size as nat),
{
    push_fixed(out, b.min_x, size);
    push_fixed(out, b.min_y, size);
    push_fixed(out, b.max_x, size);
    push_fixed(out, b.max_y, size);
    assert(out@ =~= old(out)@ + box_bytes(b, size as nat));
}

/// Appends one ring record.
pub fn push_ring(out: &mut Vec<u8>, refs: &Vec<u32>)
    ensures
        final(out)@ == old(out)@ + ring_record(refs@),
        final(out)@.len() > old(out)@.len(),
{
    let ghost start = out@;
    put_varint(out, refs.len() as u64);
    proof {
        crate::bytes::lemma_varint_len(refs@.len());
    }
    let ghost counted = out@;
    let mut i: usize = 0;
    assert(out@ =~= counted + refs_bytes(refs@, 0));
    while i < refs.len()
        invariant
            i <= refs@.len(),
            out@ == counted + refs_bytes(refs@, i as int),
        decreases refs@.len() - i,
    {
        put_varint(out, refs[i] as u64);
        assert(out@ =~= counted + refs_bytes(refs@, i as int + 1));
        i = i + 1;
    }
    assert(out@ =~= start + ring_record(refs@));
}

/// Appends one poly record.
fn push_poly(out: &mut Vec<u8>, rings: &Vec<Vec<u32>>, arcs: &Vec<Vec<Vertex>>, size: usize)
    requires
        2 <= size <= 4,
        forall|k: int| 0 <= k < rings@.len() ==> refs_valid((#[trigger] rings@[k])@, arcs@),
    ensures
        final(out)@ == old(out)@ + poly_record(
            refs_view(rings@),
            arcs_view(arcs@),
            size as nat,
        ),
        final(out)@.len() >= old(out)@.len() + rings@.len(),
{
    let ghost start = out@;
    let ghost rv = refs_view(rings@);
    let ghost av = arcs_view(arcs@);
    let mut b = GridBox { min_x: i32::MAX, min_y: i32::MAX, max_x: i32::MIN, max_y: i32::MIN };
    let mut i: usize = 0;
    while i < rings.len()
        invariant
            i <= rings@.len(),
            rv == refs_view(rings@),
            av == arcs_view(arcs@),
            forall|k: int| 0 <= k < rings@.len() ==> refs_valid((#[trigger] rings@[k])@, arcs@),
            b == box_rings(rv, av, i as int),
        decreases rings@.len() - i,
    {
        assert(refs_valid(rings@[i as int]@, arcs@));
        assert(rv[i as int] == rings@[i as int]@);
        b = grow_box_refs(b, &rings[i], arcs);
        i = i + 1;
    }
    push_box(out, b, size);
    push_low16(out, rings.len());
    let ghost counted = out@;
    let mut k: usize = 0;
    assert(out@ =~= counted + rings_bytes(rv, 0));
    while k < rings.len()
        invariant
            k <= rings@.len(),
            rv == refs_view(rings@),
            out@ == counted + rings_bytes(rv, k as int),
            out@.len() >= counted.len() + k,
        decreases rings@.len() - k,
    {
        assert(rv[k as int] == rings@[k as int]@);
        push_ring(out, &rings[k]);
        assert(out@ =~= counted + rings_bytes(rv, k as int + 1));
        k = k + 1;
    }
    assert(out@ =~= start + poly_record(rv, av, size as nat));
}

/// The polys' rings in a row.
pub open spec fn flat_rings(polys: Seq<Seq<Seq<u32>>>, n: int) -> Seq<Seq<u32>>
    decreases n,
{
    if n <= 0 {
        Seq::empty()
    } else {
        flat_rings(polys, n - 1) + polys[n - 1]
    }
}

/// Serializes all polys' ring records: the offset table's bytes, the records
/// behind it, and the count of rings.
pub fn ring_store(polys: &Vec<Vec<Vec<u32>>>, arcs: &Vec<Vec<Vertex>>, size: usize) -> (out: (
    Vec<u8>,
    Vec<u8>,
    usize,
))
    requires
        2 <= size <= 4,
        polys_valid(polys@, arcs@),
    ensures
        ({
            let records = poly_records(polys_view(polys@), arcs_view(arcs@), size as nat);
            &&& out.0@ == offsets_bytes(records, records.len() as int + 1)
            &&& out.1@ == concat(records, records.len() as int)
            &&& out.2 == flat_rings(polys_view(polys@), polys@.len() as int).len()
        }),
{
    let ghost pv = polys_view(polys@);
    let ghost records = poly_records(pv, arcs_view(arcs@), size as nat);
    let mut table: Vec<u8> = Vec::new();
    let mut data: Vec<u8> = Vec::new();
    let mut n_rings: usize = 0;
    let mut i: usize = 0;
    while i < polys.len()
        invariant
            i <= polys@.len(),
            2 <= size <= 4,
            polys_valid(polys@, arcs@),
            pv == polys_view(polys@),
            records == poly_records(pv, arcs_view(arcs@), size as nat),
            table@ == offsets_bytes(records, i as int),
            data@ == concat(records, i as int),
            n_rings == flat_rings(pv, i as int).len(),
            n_rings <= data@.len(),
        decreases polys@.len() - i,
    {
        push_low32(&mut table, data.len());
        assert forall|k: int| 0 <= k < polys@[i as int]@.len() implies refs_valid(
            (#[trigger] polys@[i as int]@[k])@,
            arcs@,
        ) by {}
        push_poly(&mut data, &polys[i], arcs, size);
        assert(pv[i as int] == refs_view(polys@[i as int]@));
        let written = data.len();
        assert(n_rings + polys@[i as int]@.len() <= written);
        n_rings = n_rings + polys[i].len();
        i = i + 1;
    }
    push_low32(&mut table, data.len());
    (table, data, n_rings)
}

/// The vertices of the first `n` rings in a row, each ring stitched and open.
pub open spec fn flat_coords(rings: Seq<Seq<u32>>, arcs: Seq<Seq<Vertex>>, n: int) -> Seq<Vertex>
    decreases n,
{
    if n <= 0 {
        Seq::empty()
    } else {
        flat_coords(rings, arcs, n - 1) + ring_of(rings[n - 1], arcs)
    }
}

/// The first `n` vertices at quantization width.
pub open spec fn coords_bytes(coords: Seq<Vertex>, size: nat, n: int) -> Seq<u8>
    decreases n,
{
    if n <= 0 {
        Seq::empty()
    } else {
        coords_bytes(coords, size, n - 1) + vertex_bytes(coords[n - 1], size)
    }
}

/// Where each ring ends in the vertices.
pub open spec fn ring_ends(rings: Seq<Seq<u32>>, arcs: Seq<Seq<Vertex>>) -> Seq<int> {
    Seq::new(rings.len(), |i: int| flat_coords(rings, arcs, i + 1).len() as int)
}

/// The box of a poly's stitched rings.
pub open spec fn image_box(rings: Seq<Seq<u32>>, arcs: Seq<Seq<Vertex>>) -> GridBox {
    let coords = flat_coords(rings, arcs, rings.len() as int);
    box_over(empty_box(), coords, coords.len() as int)
}

/// The records of the first `n` polys of the image: bounding box, and where
/// the poly's rings end among the ring ends.
pub open spec fn image_polys(polys: Seq<Seq<Seq<u32>>>, arcs: Seq<Seq<Vertex>>, n: int) -> Seq<u8>
    decreases n,
{
    if n <= 0 {
        Seq::empty()
    } else {
        image_polys(polys, arcs, n - 1) + box_bytes(image_box(polys[n - 1], arcs), 4) + le_bytes(
            flat_rings(polys, n).len() as int,
            4,
        )
    }
}

/// Vertices take twice the coordinate size each.
pub proof fn lemma_coords_len(coords: Seq<Vertex>, size: nat, n: int)
    requires
        n >= 0,
    ensures
        coords_bytes(coords, size, n).len() == n * (2 * size),
    decreases n,
{
    if n > 0 {
        lemma_coords_len(coords, size, n - 1);
        assert(n * (2 * size) == (n - 1) * (2 * size) + 2 * size) by (nonlinear_arith);
    } else {
        assert(n * (2 * size) == 0) by (nonlinear_arith)
            requires
                n == 0,
        ;
    }
}

proof fn lemma_coords_prefix(a: Seq<Vertex>, b: Seq<Vertex>, size: nat, n: int)
    requires
        n <= a.len(),
        n <= b.len(),
        forall|i: int| 0 <= i < n ==> a[i] == b[i],
    ensures
        coords_bytes(a, size, n) == coords_bytes(b, size, n),
    decreases n,
{
    if n > 0 {
        lemma_coords_prefix(a, b, size, n - 1);
    }
}

proof fn lemma_box_prefix(start: GridBox, a: Seq<Vertex>, b: Seq<Vertex>, n: int)
    requires
        n <= a.len(),
        n <= b.len(),
        forall|i: int| 0 <= i < n ==> a[i] == b[i],
    ensures
        box_over(start, a, n) == box_over(start, b, n),
    decreases n,
{
    if n > 0 {
        lemma_box_prefix(start, a, b, n - 1);
    }
}

proof fn lemma_box_concat(start: GridBox, a: Seq<Vertex>, b: Seq<Vertex>, n: int)
    requires
        0 <= n <= b.len(),
    ensures
        box_over(start, a + b, a.len() + n) == box_over(
            box_over(start, a, a.len() as int),
            b,
            n,
        ),
    decreases n,
{
    if n > 0 {
        lemma_box_concat(start, a, b, n - 1);
        assert((a + b)[a.len() + n - 1] == b[n - 1]);
    } else {
        lemma_box_prefix(start, a + b, a, a.len() as int);
    }
}

/// Appends a ring's vertices, which stand behind `done` in `whole`.
fn push_coords(out: &mut Vec<u8>, ring: &Vec<Vertex>, size: usize, done: Ghost<Seq<Vertex>>)
    requires
        2 <= size <= 4,
        old(out)@ == coords_bytes(done@, size as nat, done@.len() as int),
    ensures
        final(out)@ == coords_bytes(
            done@ + ring@,
            size as nat,
            (done@.len() + ring@.len()) as int,
        ),
{
    let ghost whole = done@ + ring@;
    let mut i: usize = 0;
    proof {
        lemma_coords_prefix(done@, whole, size as nat, done@.len() as int);
    }
    while i < ring.len()
        invariant
            i <= ring@.len(),
            2 <= size <= 4,
            whole == done@ + ring@,
            out@ == coords_bytes(whole, size as nat, done@.len() + i),
        decreases ring@.len() - i,
    {
        let ghost before = out@;
        push_fixed(out, ring[i].0, size);
        push_fixed(out, ring[i].1, size);
        assert(whole[done@.len() + i] == ring@[i as int]);
        assert(out@ =~= before + vertex_bytes(ring@[i as int], size as nat));
        i = i + 1;
    }
}

/// The flattened ring image, serialized: the vertices, the ring ends, the poly
/// records, and the counts of vertices and rings.
pub fn image_store(polys: &Vec<Vec<Vec<u32>>>, arcs: &Vec<Vec<Vertex>>, size: usize) -> (out: (
    Vec<u8>,
    Vec<u8>,
    Vec<u8>,
    usize,
    usize,
))
    requires
        2 <= size <= 4,
        polys_valid(polys@, arcs@),
    ensures
        ({
            let pv = polys_view(polys@);
            let av = arcs_view(arcs@);
            let rings = flat_rings(pv, pv.len() as int);
            let coords = flat_coords(rings, av, rings.len() as int);
            let ends = ring_ends(rings, av);
            &&& out.0@ == coords_bytes(coords, size as nat, coords.len() as int)
            &&& out.1@ == u32_table(ends, ends.len() as int)
            &&& out.2@ == image_polys(pv, av, pv.len() as int)
            &&& out.3 == coords.len()
            &&& out.4 == rings.len()
        }),
{
    let ghost pv = polys_view(polys@);
    let ghost av = arcs_view(arcs@);
    let ghost all = flat_rings(pv, pv.len() as int);
    let mut data: Vec<u8> = Vec::new();
    let mut ends: Vec<u8> = Vec::new();
    let mut records: Vec<u8> = Vec::new();
    let mut n_coords: usize = 0;
    let mut n_rings: usize = 0;
    let mut i: usize = 0;
    assert(data@ =~= coords_bytes(flat_coords(all, av, 0), size as nat, 0));
    while i < polys.len()
        invariant
            i <= polys@.len(),
            2 <= size <= 4,
            polys_valid(polys@, arcs@),
            pv == polys_view(polys@),
            av == arcs_view(arcs@),
            all == flat_rings(pv, pv.len() as int),
            n_rings == flat_rings(pv, i as int).len(),
            n_rings <= all.len(),
            n_coords == flat_coords(all, av, n_rings as int).len(),
            data@ == coords_bytes(
                flat_coords(all, av, n_rings as int),
                size as nat,
                n_coords as int,
            ),
            ends@ == u32_table(ring_ends(all, av), n_rings as int),
            ends@.len() == 4 * n_rings,
            records@ == image_polys(pv, av, i as int),
        decreases polys@.len() - i,
    {
        let poly = &polys[i];
        let ghost rings = refs_view(poly@);
        let ghost first = n_rings;
        assert(pv[i as int] == rings);
        proof {
            lemma_flat_rings(pv, i as int + 1, pv.len() as int);
        }
        let mut b = GridBox { min_x: i32::MAX, min_y: i32::MAX, max_x: i32::MIN, max_y: i32::MIN };
        let mut k: usize = 0;
        while k < poly.len()
            invariant
                k <= poly@.len(),
                i < polys@.len(),
                poly == polys@[i as int],
                2 <= size <= 4,
                polys_valid(polys@, arcs@),
                av == arcs_view(arcs@),
                rings == refs_view(poly@),
                n_rings == first + k,
                first + poly@.len() <= all.len(),
                forall|j: int| 0 <= j < poly@.len() ==> all[first + j] == #[trigger] rings[j],
                n_coords == flat_coords(all, av, n_rings as int).len(),
                data@ == coords_bytes(
                    flat_coords(all, av, n_rings as int),
                    size as nat,
                    n_coords as int,
                ),
                ends@ == u32_table(ring_ends(all, av), n_rings as int),
                ends@.len() == 4 * n_rings,
                b == box_over(
                    empty_box(),
                    flat_coords(rings, av, k as int),
                    flat_coords(rings, av, k as int).len() as int,
                ),
            decreases poly@.len() - k,
        {
            let ghost done = flat_coords(all, av, n_rings as int);
            assert(refs_valid(polys@[i as int]@[k as int]@, arcs@));
            let ring = ring_coords_q(poly[k].as_slice(), arcs.as_slice());
            assert(rings[k as int] == poly@[k as int]@);
            assert(all[n_rings as int] == rings[k as int]);
            push_coords(&mut data, &ring, size, Ghost(done));
            proof {
                lemma_coords_len(
                    done + ring@,
                    size as nat,
                    (done.len() + ring@.len()) as int,
                );
                lemma_scaled(n_coords + ring@.len(), 2 * size as int);
                lemma_box_concat(
                    empty_box(),
                    flat_coords(rings, av, k as int),
                    ring@,
                    ring@.len() as int,
                );
            }
            let written = data.len();
            assert(n_coords + ring@.len() <= written);
            n_coords = n_coords + ring.len();
            b = grow_box(b, ring.as_slice());
            push_low32(&mut ends, n_coords);
            let ended = ends.len();
            assert(n_rings < ended);
            n_rings = n_rings + 1;
            k = k + 1;
        }
        push_box(&mut records, b, 4);
        push_low32(&mut records, n_rings);
        i = i + 1;
    }
    (data, ends, records, n_coords, n_rings)
}

proof fn lemma_scaled(n: int, k: int)
    requires
        0 <= n,
        1 <= k,
    ensures
        n <= n * k,
{
    assert(n <= n * k) by (nonlinear_arith)
        requires
            0 <= n,
            1 <= k,
    ;
}

/// More polys' rings begin with fewer polys' rings.
pub proof fn lemma_flat_rings(polys: Seq<Seq<Seq<u32>>>, m: int, n: int)
    requires
        0 <= m <= n,
    ensures
        flat_rings(polys, m).len() <= flat_rings(polys, n).len(),
        forall|j: int|
            0 <= j < flat_rings(polys, m).len() ==> flat_rings(polys, n)[j] == flat_rings(
                polys,
                m,
            )[j],
    decreases n - m,
{
    if m < n {
        lemma_flat_rings(polys, m, n - 1);
    }
}

} // verus!
