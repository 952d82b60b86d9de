//! How geometry lies in a payload: the steps of an arc, the vertices of the ring
//! image, and where its rings end.

use vstd::prelude::*;

use crate::bytes::{
    fits, fixed_at, le_bytes, lemma_fixed_round_trip, lemma_varint_round_trip, varint_at,
    varint_bytes, zigzag_spec,
};
use crate::clean::Vertex;
use crate::geometry::{arc_at, arc_step, arc_tail};
use crate::pip::Point;
use crate::readback::{holds, lemma_holds_split};
use crate::sections::{
    arc_record, coords_bytes, delta_bytes, flat_coords, ring_ends, vertex_bytes, vertices_bytes,
};
use crate::stitch::ring_of;

verus! {

/// Whether a number stands for a step: twice the step forward, and one less than
/// twice the step back.
pub open spec fn stands_for_step(z: nat, step: int) -> bool {
    if step >= 0 {
        z == step + step
    } else {
        z == -step - step - 1
    }
}

/// A step of an arc is two varints, for the step along `x` and for the step along
/// `y`, and nothing else.
pub proof fn lemma_steps_are_two_varints(from: Vertex, to: Vertex)
    ensures
        ({
            let b = delta_bytes(from, to);
            varint_at(b, 0) matches Some((x, middle)) && {
                &&& stands_for_step(x, to.0 - from.0)
                &&& varint_at(b, middle) matches Some((y, end)) && {
                    &&& stands_for_step(y, to.1 - from.1)
                    &&& end == b.len()
                }
            }
        }),
{
    let b = delta_bytes(from, to);
    let (x, y) = (zigzag_spec(to.0 - from.0), zigzag_spec(to.1 - from.1));
    let (u, v) = (varint_bytes(x), varint_bytes(y));
    assert(b.subrange(0, u.len() as int) =~= u);
    assert(b.subrange(u.len() as int, u.len() as int + v.len()) =~= v);
    lemma_varint_round_trip(b, 0, x);
    lemma_varint_round_trip(b, u.len() as int, y);
}

/// An arc record counts its vertices and then holds them; one more vertex adds its
/// two coordinates where it is the first or the width is fixed, else the step to it
/// from the one before, and changes nothing in front of it but the count.
pub proof fn lemma_arcs_grow_by_steps(a: Seq<Vertex>, v: Vertex, fixed: bool, size: nat)
    ensures
        ({
            let b = a.push(v);
            let (m, n) = (varint_bytes(a.len()).len() as int, varint_bytes(b.len()).len() as int);
            let (old_record, record) = (arc_record(a, fixed, size), arc_record(b, fixed, size));
            let added = if fixed || a.len() == 0 {
                le_bytes(v.0 as int, size) + le_bytes(v.1 as int, size)
            } else {
                delta_bytes(a[a.len() - 1], v)
            };
            &&& varint_at(record, 0) == Some((b.len(), n))
            &&& record.skip(n) == old_record.skip(m) + added
        }),
{
    let b = a.push(v);
    let (len, n) = (a.len() as int, varint_bytes(b.len()).len() as int);
    let m = varint_bytes(a.len()).len() as int;
    let record = arc_record(b, fixed, size);
    assert(record.subrange(0, n) =~= varint_bytes(b.len()));
    lemma_varint_round_trip(record, 0, b.len());
    lemma_same_steps(a, b, fixed, size, len);
    assert(record.skip(n) =~= vertices_bytes(b, fixed, size, len + 1));
    assert(arc_record(a, fixed, size).skip(m) =~= vertices_bytes(a, fixed, size, len));
    assert(b[len] == v);
    if len > 0 {
        assert(b[len - 1] == a[len - 1]);
    }
}

/// The first vertices of two arcs that start alike are stored alike.
proof fn lemma_same_steps(a: Seq<Vertex>, b: Seq<Vertex>, fixed: bool, size: nat, n: int)
    requires
        0 <= n <= a.len(),
        n <= b.len(),
        forall|i: int| 0 <= i < n ==> a[i] == b[i],
    ensures
        vertices_bytes(a, fixed, size, n) == vertices_bytes(b, fixed, size, n),
    decreases n,
{
    if n > 0 {
        lemma_same_steps(a, b, fixed, size, n - 1);
        assert(a[n - 1] == b[n - 1]);
        if n > 1 {
            assert(a[n - 2] == b[n - 2]);
        }
    }
}

/// The vertices of an image stand in a row, each with its two coordinates at the
/// width of the grid.
pub proof fn lemma_image_vertices(coords: Seq<Vertex>, size: nat, n: int, i: int)
    requires
        2 <= size <= 4,
        0 <= i < n <= coords.len(),
        fits(coords[i].0 as int, size as int),
        fits(coords[i].1 as int, size as int),
    ensures
        coords_bytes(coords, size, n).len() == 2 * size * n,
        fixed_at(coords_bytes(coords, size, n), 2 * size * i, size as int) == coords[i].0,
        fixed_at(coords_bytes(coords, size, n), 2 * size * i + size, size as int) == coords[i].1,
{
    let b = coords_bytes(coords, size, n);
    lemma_coords_hold(coords, size, n, i);
    let at = 2 * size * i;
    lemma_holds_split(b, at, le_bytes(coords[i].0 as int, size), le_bytes(coords[i].1 as int, size));
    lemma_fixed_round_trip(b, at, coords[i].0 as int, size);
    lemma_fixed_round_trip(b, at + size, coords[i].1 as int, size);
}

/// Each vertex of an image stands behind those before it.
proof fn lemma_coords_hold(coords: Seq<Vertex>, size: nat, n: int, i: int)
    requires
        0 <= i < n <= coords.len(),
    ensures
        coords_bytes(coords, size, n).len() == 2 * size * n,
        holds(coords_bytes(coords, size, n), 2 * size * i, vertex_bytes(coords[i], size)),
    decreases n,
{
    let (b, before) = (coords_bytes(coords, size, n), coords_bytes(coords, size, n - 1));
    let last = vertex_bytes(coords[n - 1], size);
    assert(b == before + last);
    assert(2 * size * n == 2 * size * (n - 1) + 2 * size) by (nonlinear_arith);
    if n > 1 {
        lemma_coords_hold(coords, size, n - 1, if i < n - 1 { i } else { 0 });
    } else {
        assert(before.len() == 0);
    }
    if i < n - 1 {
        let at = 2 * size * i;
        let w = vertex_bytes(coords[i], size);
        assert(b.subrange(at, at + w.len()) =~= before.subrange(at, at + w.len()));
    } else {
        assert(b.subrange(before.len() as int, b.len() as int) =~= last);
    }
}

/// A ring of the image ends as far behind the one before it as it has vertices, and
/// the vertices between are its own.
pub proof fn lemma_image_rings_end(rings: Seq<Seq<u32>>, arcs: Seq<Seq<Vertex>>, i: int)
    requires
        0 <= i < rings.len(),
    ensures
        ({
            let ends = ring_ends(rings, arcs);
            let coords = flat_coords(rings, arcs, rings.len() as int);
            let ring = ring_of(rings[i], arcs);
            let start = if i == 0 {
                0
            } else {
                ends[i - 1]
            };
            &&& ends.len() == rings.len()
            &&& ends[i] == start + ring.len()
            &&& ends[i] <= coords.len()
            &&& coords.subrange(start, ends[i]) == ring
        }),
{
    let n = rings.len() as int;
    let coords = flat_coords(rings, arcs, n);
    let upto = flat_coords(rings, arcs, i + 1);
    let ring = ring_of(rings[i], arcs);
    lemma_coords_grow(rings, arcs, i + 1, n);
    assert(flat_coords(rings, arcs, 0).len() == 0);
    let start = flat_coords(rings, arcs, i).len() as int;
    assert(upto == flat_coords(rings, arcs, i) + ring);
    assert(coords.subrange(start, upto.len() as int) =~= upto.subrange(start, upto.len() as int));
    assert(upto.subrange(start, upto.len() as int) =~= ring);
}

/// More rings leave the vertices of the first ones where they are.
proof fn lemma_coords_grow(rings: Seq<Seq<u32>>, arcs: Seq<Seq<Vertex>>, m: int, n: int)
    requires
        0 <= m <= n,
    ensures
        flat_coords(rings, arcs, m).len() <= flat_coords(rings, arcs, n).len(),
        forall|k: int|
            0 <= k < flat_coords(rings, arcs, m).len() ==> flat_coords(rings, arcs, m)[k]
                == flat_coords(rings, arcs, n)[k],
    decreases n - m,
{
    if m < n {
        lemma_coords_grow(rings, arcs, m, n - 1);
    }
}

/// The vertices of a fixed-width arc stand in a row behind its count, whatever
/// bytes it is read from; an arc that counts none has one.
pub proof fn lemma_fixed_arcs_lie_in_a_row(b: Seq<u8>, size: int, pos: int, i: int)
    ensures
        arc_at(b, true, size, pos) matches Some(points) ==> varint_at(b, pos) matches Some(
            (n, first),
        ) && {
            let count = n % 0x1_0000_0000_0000_0000;
            &&& first <= pos + 10
            &&& points.len() == if count == 0 {
                1
            } else {
                count
            }
            &&& 0 <= i < points.len() ==> points[i] == (
                fixed_at(b, first + (2 * size) * i, size),
                fixed_at(b, first + (2 * size) * i + size, size),
            )
        },
{
    if let Some(points) = arc_at(b, true, size, pos) {
        let (n, first) = varint_at(b, pos)->0;
        let count = n % 0x1_0000_0000_0000_0000;
        let rest = if count == 0 {
            0
        } else {
            (count - 1) as nat
        };
        let v = (fixed_at(b, first, size), fixed_at(b, first + size, size));
        lemma_fixed_tail(b, size, first + 2 * size, v, rest, i - 1);
        if i > 0 {
            assert((2 * size) * i == 2 * size + (2 * size) * (i - 1)) by (nonlinear_arith);
        } else {
            assert((2 * size) * 0 == 0);
        }
    }
}

proof fn lemma_fixed_tail(b: Seq<u8>, size: int, pos: int, last: Point, n: nat, i: int)
    ensures
        arc_tail(b, true, size, pos, last, n) matches Some(rest) ==> {
            &&& rest.len() == n
            &&& 0 <= i < n ==> rest[i] == (
                fixed_at(b, pos + (2 * size) * i, size),
                fixed_at(b, pos + (2 * size) * i + size, size),
            )
        },
    decreases n,
{
    if n > 0 {
        let v = (fixed_at(b, pos, size), fixed_at(b, pos + size, size));
        lemma_fixed_tail(b, size, pos + 2 * size, v, (n - 1) as nat, i - 1);
        if i > 0 {
            assert((2 * size) * i == 2 * size + (2 * size) * (i - 1)) by (nonlinear_arith);
        } else {
            assert((2 * size) * 0 == 0);
        }
    }
}

/// Whether two varints at `pos`, which end at `next`, say the step from one point
/// to another.
pub open spec fn says_step(b: Seq<u8>, pos: int, from: Point, to: Point, next: int) -> bool {
    varint_at(b, pos) matches Some((x, middle)) && {
        &&& stands_for_step(x % 0x1_0000_0000_0000_0000, to.0 - from.0)
        &&& varint_at(b, middle) matches Some((y, end)) && {
            &&& stands_for_step(y % 0x1_0000_0000_0000_0000, to.1 - from.1)
            &&& end == next
        }
    }
}

/// Whether the bytes from `pos` on say the steps along a path, one behind the other.
pub open spec fn says_steps(b: Seq<u8>, pos: int, path: Seq<Point>) -> bool
    decreases path.len(),
{
    path.len() > 1 ==> exists|next: int| #[trigger]
        says_step(b, pos, path[0], path[1], next) && says_steps(b, next, path.skip(1))
}

/// A varint arc is a count, a first vertex at the width of the grid, and the steps
/// from each vertex to the next, whatever bytes it is read from; an arc that counts
/// none has one vertex.
pub proof fn lemma_varint_arcs_step_along(b: Seq<u8>, size: int, pos: int)
    ensures
        arc_at(b, false, size, pos) matches Some(points) ==> varint_at(b, pos) matches Some(
            (n, first),
        ) && {
            let count = n % 0x1_0000_0000_0000_0000;
            &&& first <= pos + 10
            &&& points.len() == if count == 0 {
                1
            } else {
                count
            }
            &&& points[0] == (fixed_at(b, first, size), fixed_at(b, first + size, size))
            &&& says_steps(b, first + 2 * size, points)
        },
{
    if let Some(points) = arc_at(b, false, size, pos) {
        let (n, first) = varint_at(b, pos)->0;
        let count = n % 0x1_0000_0000_0000_0000;
        let rest = if count == 0 {
            0
        } else {
            (count - 1) as nat
        };
        let v = (fixed_at(b, first, size), fixed_at(b, first + size, size));
        lemma_varint_tail(b, size, first + 2 * size, v, rest);
    }
}

proof fn lemma_varint_tail(b: Seq<u8>, size: int, pos: int, last: Point, n: nat)
    ensures
        arc_tail(b, false, size, pos, last, n) matches Some(rest) ==> {
            &&& rest.len() == n
            &&& says_steps(b, pos, seq![last] + rest)
        },
    decreases n,
{
    if n > 0 {
        if let Some(rest) = arc_tail(b, false, size, pos, last, n) {
            let (v, next) = arc_step(b, false, size, pos, last)->0;
            lemma_varint_tail(b, size, next, v, (n - 1) as nat);
            let path = seq![last] + rest;
            assert(path[0] == last && path[1] == v);
            let tail = arc_tail(b, false, size, next, v, (n - 1) as nat)->0;
            assert(path.skip(1) =~= seq![v] + tail);
            assert(says_step(b, pos, path[0], path[1], next));
        }
    }
}

} // verus!
