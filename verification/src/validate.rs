//! Ring-geometry validation: where assembled rings cross themselves, overlap
//! themselves collinearly, touch themselves, or collapse.

use vstd::prelude::*;

use crate::clean::{
    arcs_view, degenerate, refs_valid, ring_coords_q, ring_degenerate, CleanStats, Vertex,
};
use crate::order::{in_range, ordered, sort_indices};
use crate::sift::{
    feature_view, poly_view, refs_view, sift, sift_rings, structure_view, topology_valid, Sift,
};
use crate::snapped::{clean_arcs, cleaned, countable, lemma_drops};
use crate::stitch::ring_of;

verus! {

/// A located defect's kind.
#[derive(Clone, Copy, PartialEq, Eq, Structural, Debug)]
pub enum Kind {
    Cross,
    Overlap,
}

/// One located defect: the two segments of a ring that meet, each named by
/// its first vertex.
#[derive(Clone, Copy, PartialEq, Eq, Structural, Debug)]
pub struct Loc {
    /// ring ordinal within the measured rings
    pub ring: usize,
    pub kind: Kind,
    pub first: usize,
    pub second: usize,
}

/// What a measurement found.
pub struct Bad {
    /// non-adjacent segment pairs that properly cross
    pub crossings: usize,
    /// non-adjacent collinear segment pairs overlapping in more than a point
    pub overlaps: usize,
    /// non-adjacent segment pairs touching in exactly one point
    pub touches: usize,
    /// rings with fewer than 3 distinct vertices or zero area
    pub degenerate: usize,
    pub verts: usize,
    /// crossing/overlap spots (touches are counted but not located)
    pub locs: Vec<Loc>,
}

impl Bad {
    /// Whether every crossing and overlap is located.
    pub open spec fn wf(self) -> bool {
        self.crossings + self.overlaps == self.locs@.len()
    }
}

impl Default for Bad {
    fn default() -> (b: Bad)
        ensures
            b.crossings == 0,
            b.overlaps == 0,
            b.touches == 0,
            b.degenerate == 0,
            b.verts == 0,
            b.locs@ == Seq::<Loc>::empty(),
    {
        Bad { crossings: 0, overlaps: 0, touches: 0, degenerate: 0, verts: 0, locs: Vec::new() }
    }
}

/// How two segments meet.
#[derive(Clone, Copy, PartialEq, Eq, Structural, Debug)]
pub enum Class {
    Apart,
    Touch,
    Cross,
    Overlap,
}

/// Twice the signed area of the triangle `a`, `b`, `c`.
pub open spec fn turn(a: Vertex, b: Vertex, c: Vertex) -> int {
    (b.0 - a.0) * (c.1 - a.1) - (b.1 - a.1) * (c.0 - a.0)
}

/// The sign of a number.
pub open spec fn sign(v: int) -> int {
    if v > 0 {
        1
    } else if v < 0 {
        -1
    } else {
        0
    }
}

/// The smaller of two coordinates.
pub open spec fn low(a: i32, b: i32) -> i32 {
    if a <= b {
        a
    } else {
        b
    }
}

/// The larger of two coordinates.
pub open spec fn high(a: i32, b: i32) -> i32 {
    if a >= b {
        a
    } else {
        b
    }
}

/// Whether `p` lies in the box of `a` and `b`.
pub open spec fn boxed(p: Vertex, a: Vertex, b: Vertex) -> bool {
    low(a.0, b.0) <= p.0 <= high(a.0, b.0) && low(a.1, b.1) <= p.1 <= high(a.1, b.1)
}

/// A segment.
pub type Segment = (Vertex, Vertex);

/// How two segments meet. Collinear segments compare as ranges along their
/// line; segments cross where each one's ends lie strictly on both sides of
/// the other; they touch where an end of one lies on the other.
#[verifier::opaque]
pub open spec fn class_of(p: Segment, q: Segment) -> Class {
    let (o1, o2) = (sign(turn(p.0, p.1, q.0)), sign(turn(p.0, p.1, q.1)));
    let (o3, o4) = (sign(turn(q.0, q.1, p.0)), sign(turn(q.0, q.1, p.1)));
    if o1 == 0 && o2 == 0 && o3 == 0 && o4 == 0 {
        let upright = p.0.0 == p.1.0 && q.0.0 == q.1.0;
        let (a0, a1) = if upright { (p.0.1, p.1.1) } else { (p.0.0, p.1.0) };
        let (b0, b1) = if upright { (q.0.1, q.1.1) } else { (q.0.0, q.1.0) };
        let from = high(low(a0, a1), low(b0, b1));
        let to = low(high(a0, a1), high(b0, b1));
        if from < to {
            Class::Overlap
        } else if from == to {
            Class::Touch
        } else {
            Class::Apart
        }
    } else if o1 != o2 && o3 != o4 && o1 != 0 && o2 != 0 && o3 != 0 && o4 != 0 {
        Class::Cross
    } else if (o1 == 0 && boxed(q.0, p.0, p.1)) || (o2 == 0 && boxed(q.1, p.0, p.1)) || (o3 == 0
        && boxed(p.0, q.0, q.1)) || (o4 == 0 && boxed(p.1, q.0, q.1)) {
        Class::Touch
    } else {
        Class::Apart
    }
}

/// How two segments meet does not depend on which comes first, nor on their
/// directions.
pub proof fn lemma_class_symmetric(p: Segment, q: Segment)
    ensures
        class_of(p, q) == class_of(q, p),
        class_of((p.1, p.0), q) == class_of(p, q),
{
    reveal(class_of);
    lemma_turn_reverses(p.0, p.1, q.0);
    lemma_turn_reverses(p.0, p.1, q.1);
}

proof fn lemma_turn_reverses(a: Vertex, b: Vertex, c: Vertex)
    ensures
        turn(b, a, c) == -turn(a, b, c),
{
    assert((a.0 - b.0) * (c.1 - b.1) - (a.1 - b.1) * (c.0 - b.0) == -((b.0 - a.0) * (c.1 - a.1) - (
    b.1 - a.1) * (c.0 - a.0))) by (nonlinear_arith);
}

/// Segment `i` of a ring.
pub open spec fn segment(c: Seq<Vertex>, i: int) -> Segment {
    (c[i], c[(i + 1) % (c.len() as int)])
}

/// Whether segments `i` and `j` share a vertex by construction.
pub open spec fn adjacent(i: int, j: int, n: int) -> bool {
    i - j == 1 || j - i == 1 || i - j == n - 1 || j - i == n - 1
}

/// Whether the boxes of two segments meet.
pub open spec fn boxes_meet(p: Segment, q: Segment) -> bool {
    &&& low(q.0.0, q.1.0) <= high(p.0.0, p.1.0)
    &&& low(p.0.0, p.1.0) <= high(q.0.0, q.1.0)
    &&& low(q.0.1, q.1.1) <= high(p.0.1, p.1.1)
    &&& low(p.0.1, p.1.1) <= high(q.0.1, q.1.1)
}

/// How segments `i` and `j` of a ring meet, beyond sharing a vertex by
/// construction.
pub open spec fn pair_class(c: Seq<Vertex>, i: int, j: int) -> Class {
    if i == j || adjacent(i, j, c.len() as int) || !boxes_meet(segment(c, i), segment(c, j)) {
        Class::Apart
    } else {
        class_of(segment(c, i), segment(c, j))
    }
}

/// The pairs of segments of a ring that meet in a way, the lower index first.
pub open spec fn pairs_of(c: Seq<Vertex>, class: Class) -> Set<(int, int)> {
    Set::new(|e: (int, int)| 0 <= e.0 < e.1 < c.len() && pair_class(c, e.0, e.1) == class)
}

/// A pair with the lower index first.
pub open spec fn sorted_pair(i: int, j: int) -> (int, int) {
    if i < j {
        (i, j)
    } else {
        (j, i)
    }
}

/// Twice the signed area of the triangle `a`, `b`, `c`.
fn orient(a: Vertex, b: Vertex, c: Vertex) -> (v: i128)
    ensures
        v == turn(a, b, c),
{
    let ux = b.0 as i128 - a.0 as i128;
    let uy = b.1 as i128 - a.1 as i128;
    let vx = c.0 as i128 - a.0 as i128;
    let vy = c.1 as i128 - a.1 as i128;
    proof {
        lemma_bounded(ux as int, vy as int);
        lemma_bounded(uy as int, vx as int);
    }
    ux * vy - uy * vx
}

proof fn lemma_bounded(x: int, y: int)
    requires
        -0x1_0000_0000 <= x <= 0x1_0000_0000,
        -0x1_0000_0000 <= y <= 0x1_0000_0000,
    ensures
        -0x1_0000_0000_0000_0000 <= x * y <= 0x1_0000_0000_0000_0000,
{
    assert(-0x1_0000_0000_0000_0000 <= x * y <= 0x1_0000_0000_0000_0000) by (nonlinear_arith)
        requires
            -0x1_0000_0000 <= x <= 0x1_0000_0000,
            -0x1_0000_0000 <= y <= 0x1_0000_0000,
    ;
}

/// The sign of a number.
fn sgn(v: i128) -> (s: i8)
    ensures
        s == sign(v as int),
{
    if v > 0 {
        1
    } else if v < 0 {
        -1
    } else {
        0
    }
}

/// The smaller of two coordinates.
fn min32(a: i32, b: i32) -> (m: i32)
    ensures
        m == low(a, b),
{
    if a <= b {
        a
    } else {
        b
    }
}

/// The larger of two coordinates.
fn max32(a: i32, b: i32) -> (m: i32)
    ensures
        m == high(a, b),
{
    if a >= b {
        a
    } else {
        b
    }
}

/// Whether `p` lies in the box of `a` and `b`.
fn in_bbox(p: Vertex, a: Vertex, b: Vertex) -> (inside: bool)
    ensures
        inside == boxed(p, a, b),
{
    p.0 >= min32(a.0, b.0) && p.0 <= max32(a.0, b.0) && p.1 >= min32(a.1, b.1) && p.1 <= max32(
        a.1,
        b.1,
    )
}

/// How two segments meet.
pub fn seg_class(p: Segment, q: Segment) -> (class: Class)
    ensures
        class == class_of(p, q),
{
    proof {
        reveal(class_of);
    }
    let o1 = sgn(orient(p.0, p.1, q.0));
    let o2 = sgn(orient(p.0, p.1, q.1));
    let o3 = sgn(orient(q.0, q.1, p.0));
    let o4 = sgn(orient(q.0, q.1, p.1));
    if o1 == 0 && o2 == 0 && o3 == 0 && o4 == 0 {
        // collinear: compare as ranges along the line
        let upright = p.0.0 == p.1.0 && q.0.0 == q.1.0;
        let (a0, a1) = if upright {
            (p.0.1, p.1.1)
        } else {
            (p.0.0, p.1.0)
        };
        let (b0, b1) = if upright {
            (q.0.1, q.1.1)
        } else {
            (q.0.0, q.1.0)
        };
        let from = max32(min32(a0, a1), min32(b0, b1));
        let to = min32(max32(a0, a1), max32(b0, b1));
        return if from < to {
            Class::Overlap
        } else if from == to {
            Class::Touch
        } else {
            Class::Apart
        };
    }
    if o1 != o2 && o3 != o4 && o1 != 0 && o2 != 0 && o3 != 0 && o4 != 0 {
        return Class::Cross;
    }
    if (o1 == 0 && in_bbox(q.0, p.0, p.1)) || (o2 == 0 && in_bbox(q.1, p.0, p.1)) || (o3 == 0
        && in_bbox(p.0, q.0, q.1)) || (o4 == 0 && in_bbox(p.1, q.0, q.1)) {
        return Class::Touch;
    }
    Class::Apart
}

/// Whether a point comes before or with another, by `x`, then by `y`.
pub open spec fn point_le(a: Vertex, b: Vertex) -> bool {
    a.0 < b.0 || (a.0 == b.0 && a.1 <= b.1)
}

/// The first of two points.
pub open spec fn first_point(a: Vertex, b: Vertex) -> Vertex {
    if point_le(a, b) {
        a
    } else {
        b
    }
}

/// The last of two points.
pub open spec fn last_point(a: Vertex, b: Vertex) -> Vertex {
    if point_le(a, b) {
        b
    } else {
        a
    }
}

/// Twice the midpoint of the stretch two overlapping segments share: of their
/// four ends, all but the first and the last, added up.
pub open spec fn doubled_midpoint(p: Segment, q: Segment) -> (int, int) {
    let first = first_point(first_point(p.0, p.1), first_point(q.0, q.1));
    let last = last_point(last_point(p.0, p.1), last_point(q.0, q.1));
    (
        p.0.0 + p.1.0 + q.0.0 + q.1.0 - first.0 - last.0,
        p.0.1 + p.1.1 + q.0.1 + q.1.1 - first.1 - last.1,
    )
}

fn first_of(a: Vertex, b: Vertex) -> (f: Vertex)
    ensures
        f == first_point(a, b),
{
    if a.0 < b.0 || (a.0 == b.0 && a.1 <= b.1) {
        a
    } else {
        b
    }
}

fn last_of(a: Vertex, b: Vertex) -> (l: Vertex)
    ensures
        l == last_point(a, b),
{
    if a.0 < b.0 || (a.0 == b.0 && a.1 <= b.1) {
        b
    } else {
        a
    }
}

/// Twice the midpoint of the stretch two overlapping segments share.
pub fn overlap_middle(p: Segment, q: Segment) -> (m: (i64, i64))
    ensures
        m.0 == doubled_midpoint(p, q).0,
        m.1 == doubled_midpoint(p, q).1,
{
    let first = first_of(first_of(p.0, p.1), first_of(q.0, q.1));
    let last = last_of(last_of(p.0, p.1), last_of(q.0, q.1));
    (
        p.0.0 as i64 + p.1.0 as i64 + q.0.0 as i64 + q.1.0 as i64 - first.0 as i64 - last.0 as i64,
        p.0.1 as i64 + p.1.1 as i64 + q.0.1 as i64 + q.1.1 as i64 - first.1 as i64 - last.1 as i64,
    )
}

/// Whether the pair of sorted positions `a < b` comes before `(x, y)` in the
/// sweep.
spec fn swept(a: int, b: int, x: int, y: int) -> bool {
    a < x || (a == x && b < y)
}

/// Whether a set holds exactly the swept pairs that meet in a way.
#[verifier::opaque]
spec fn sweeps(
    set: Set<(int, int)>,
    c: Seq<Vertex>,
    idx: Seq<usize>,
    class: Class,
    x: int,
    y: int,
) -> bool {
    &&& set.finite()
    &&& set.subset_of(pairs_of(c, class))
    &&& forall|a: int, b: int|
        #![trigger idx[a], idx[b]]
        0 <= a < b < idx.len() ==> set.contains(sorted_pair(idx[a] as int, idx[b] as int)) == (
        swept(a, b, x, y) && pair_class(c, idx[a] as int, idx[b] as int) == class)
}

proof fn lemma_pair_symmetric(c: Seq<Vertex>, i: int, j: int)
    ensures
        pair_class(c, i, j) == pair_class(c, j, i),
{
    lemma_class_symmetric(segment(c, i), segment(c, j));
}

/// One more pair swept, which belongs in the set where it meets that way.
proof fn lemma_sweep_step(
    set: Set<(int, int)>,
    c: Seq<Vertex>,
    idx: Seq<usize>,
    class: Class,
    x: int,
    y: int,
) -> (next: Set<(int, int)>)
    requires
        sweeps(set, c, idx, class, x, y),
        0 <= x < y < idx.len(),
        idx.len() == c.len(),
        idx.no_duplicates(),
        forall|a: int| 0 <= a < idx.len() ==> (#[trigger] idx[a]) < c.len(),
    ensures
        sweeps(next, c, idx, class, x, y + 1),
        set.finite(),
        !set.contains(sorted_pair(idx[x] as int, idx[y] as int)),
        pair_class(c, idx[x] as int, idx[y] as int) == class ==> next == set.insert(
            sorted_pair(idx[x] as int, idx[y] as int),
        ) && next.len() == set.len() + 1,
        pair_class(c, idx[x] as int, idx[y] as int) != class ==> next == set,
{
    reveal(sweeps);
    let e = sorted_pair(idx[x] as int, idx[y] as int);
    let meets = pair_class(c, idx[x] as int, idx[y] as int) == class;
    assert(set.contains(e) == (swept(x, y, x, y) && meets));
    let next = if meets { set.insert(e) } else { set };
    lemma_pair_symmetric(c, idx[x] as int, idx[y] as int);
    assert(idx[x] != idx[y]);
    if meets {
        assert(pairs_of(c, class).contains(e));
    }
    assert forall|a: int, b: int|
        #![trigger idx[a], idx[b]]
        0 <= a < b < idx.len() implies next.contains(sorted_pair(idx[a] as int, idx[b] as int)) == (
    swept(a, b, x, y + 1) && pair_class(c, idx[a] as int, idx[b] as int) == class) by {
        assert(set.contains(sorted_pair(idx[a] as int, idx[b] as int)) == (swept(a, b, x, y)
            && pair_class(c, idx[a] as int, idx[b] as int) == class));
        if sorted_pair(idx[a] as int, idx[b] as int) == e {
            // no index occurs twice, so the positions are the same
            if a != x {
                assert(idx[a] != idx[x]);
            }
            if b != y {
                assert(idx[b] != idx[y]);
            }
            if a != y {
                assert(idx[a] != idx[y]);
            }
        }
    }
    next
}

/// A row whose remaining pairs do not meet that way is swept.
proof fn lemma_sweep_row(
    set: Set<(int, int)>,
    c: Seq<Vertex>,
    idx: Seq<usize>,
    class: Class,
    x: int,
    y: int,
)
    requires
        sweeps(set, c, idx, class, x, y),
        0 <= x < y <= idx.len(),
        forall|b: int|
            #![trigger idx[b]]
            y <= b < idx.len() ==> pair_class(c, idx[x] as int, idx[b] as int) != class,
    ensures
        sweeps(set, c, idx, class, x + 1, x + 2),
{
    reveal(sweeps);
    assert forall|a: int, b: int|
        #![trigger idx[a], idx[b]]
        0 <= a < b < idx.len() implies set.contains(sorted_pair(idx[a] as int, idx[b] as int)) == (
    swept(a, b, x + 1, x + 2) && pair_class(c, idx[a] as int, idx[b] as int) == class) by {
        assert(set.contains(sorted_pair(idx[a] as int, idx[b] as int)) == (swept(a, b, x, y)
            && pair_class(c, idx[a] as int, idx[b] as int) == class));
    }
}

/// A complete sweep holds every pair.
proof fn lemma_sweep_done(
    set: Set<(int, int)>,
    c: Seq<Vertex>,
    idx: Seq<usize>,
    class: Class,
    x: int,
)
    requires
        sweeps(set, c, idx, class, x, x + 1),
        x >= idx.len(),
        idx.len() == c.len(),
        idx.no_duplicates(),
        forall|a: int| 0 <= a < idx.len() ==> (#[trigger] idx[a]) < c.len(),
        forall|i: usize| i < c.len() ==> #[trigger] idx.contains(i),
        c.len() <= usize::MAX,
    ensures
        set == pairs_of(c, class),
{
    reveal(sweeps);
    assert forall|e: (int, int)| pairs_of(c, class).contains(e) implies set.contains(e) by {
        let i = e.0 as usize;
        let j = e.1 as usize;
        assert(idx.contains(i) && idx.contains(j));
        let a = choose|a: int| 0 <= a < idx.len() && idx[a] == i;
        let b = choose|b: int| 0 <= b < idx.len() && idx[b] == j;
        lemma_pair_symmetric(c, e.0, e.1);
        if a < b {
            assert(set.contains(sorted_pair(idx[a] as int, idx[b] as int)));
        } else {
            assert(a != b);
            assert(set.contains(sorted_pair(idx[b] as int, idx[a] as int)));
        }
    }
    assert(set =~= pairs_of(c, class));
}

/// Whether the spots behind the first `from` are exactly the given crossings
/// and overlaps of ring `ri`, each once.
#[verifier::opaque]
pub open spec fn locates(
    locs: Seq<Loc>,
    from: int,
    ri: usize,
    crosses: Set<(int, int)>,
    overlaps: Set<(int, int)>,
) -> bool {
    &&& locs.len() == from + crosses.len() + overlaps.len()
    &&& forall|k: int|
        from <= k < locs.len() ==> {
            let l = #[trigger] locs[k];
            let e = sorted_pair(l.first as int, l.second as int);
            &&& l.ring == ri
            &&& match l.kind {
                Kind::Cross => crosses.contains(e),
                Kind::Overlap => overlaps.contains(e),
            }
        }
    &&& forall|e: (int, int)| #[trigger]
        crosses.contains(e) ==> exists|k: int|
            from <= k < locs.len() && (#[trigger] locs[k]).kind == Kind::Cross && sorted_pair(
                locs[k].first as int,
                locs[k].second as int,
            ) == e
    &&& forall|e: (int, int)| #[trigger]
        overlaps.contains(e) ==> exists|k: int|
            from <= k < locs.len() && (#[trigger] locs[k]).kind == Kind::Overlap && sorted_pair(
                locs[k].first as int,
                locs[k].second as int,
            ) == e
}

proof fn lemma_located(
    locs: Seq<Loc>,
    from: int,
    ri: usize,
    crosses: Set<(int, int)>,
    overlaps: Set<(int, int)>,
    l: Loc,
    e: (int, int),
)
    requires
        0 <= from <= locs.len(),
        crosses.finite(),
        overlaps.finite(),
        locates(locs, from, ri, crosses, overlaps),
        l.ring == ri,
        e == sorted_pair(l.first as int, l.second as int),
        l.kind == Kind::Cross ==> !crosses.contains(e),
        l.kind == Kind::Overlap ==> !overlaps.contains(e),
    ensures
        l.kind == Kind::Cross ==> locates(
            locs.push(l),
            from,
            ri,
            crosses.insert(e),
            overlaps,
        ),
        l.kind == Kind::Overlap ==> locates(
            locs.push(l),
            from,
            ri,
            crosses,
            overlaps.insert(e),
        ),
{
    reveal(locates);
    let more = locs.push(l);
    let nc = if l.kind == Kind::Cross { crosses.insert(e) } else { crosses };
    let no = if l.kind == Kind::Overlap { overlaps.insert(e) } else { overlaps };
    assert(more[locs.len() as int] == l);
    assert forall|f: (int, int)| #[trigger] nc.contains(f) implies exists|k: int|
        from <= k < more.len() && (#[trigger] more[k]).kind == Kind::Cross && sorted_pair(
            more[k].first as int,
            more[k].second as int,
        ) == f by {
        if crosses.contains(f) {
            let k = choose|k: int|
                from <= k < locs.len() && (#[trigger] locs[k]).kind == Kind::Cross && sorted_pair(
                    locs[k].first as int,
                    locs[k].second as int,
                ) == f;
            assert(more[k] == locs[k]);
        } else {
            assert(more[locs.len() as int].kind == Kind::Cross);
        }
    }
    assert forall|f: (int, int)| #[trigger] no.contains(f) implies exists|k: int|
        from <= k < more.len() && (#[trigger] more[k]).kind == Kind::Overlap && sorted_pair(
            more[k].first as int,
            more[k].second as int,
        ) == f by {
        if overlaps.contains(f) {
            let k = choose|k: int|
                from <= k < locs.len() && (#[trigger] locs[k]).kind == Kind::Overlap
                    && sorted_pair(locs[k].first as int, locs[k].second as int) == f;
            assert(more[k] == locs[k]);
        } else {
            assert(more[locs.len() as int].kind == Kind::Overlap);
        }
    }
    assert forall|k: int| from <= k < more.len() implies {
        let m = #[trigger] more[k];
        let g = sorted_pair(m.first as int, m.second as int);
        &&& m.ring == ri
        &&& match m.kind {
            Kind::Cross => nc.contains(g),
            Kind::Overlap => no.contains(g),
        }
    } by {
        if k < locs.len() {
            assert(more[k] == locs[k]);
        }
    }
}

/// The counters after a ring's pairs were counted.
pub open spec fn counts_pairs(
    b: Bad,
    was: Bad,
    ri: usize,
    crosses: Set<(int, int)>,
    overlaps: Set<(int, int)>,
    touches: Set<(int, int)>,
) -> bool {
    &&& b.crossings == was.crossings + crosses.len()
    &&& b.overlaps == was.overlaps + overlaps.len()
    &&& b.touches == was.touches + touches.len()
    &&& b.degenerate == was.degenerate
    &&& b.verts == was.verts
    &&& b.locs@.len() >= was.locs@.len()
    &&& b.locs@.take(was.locs@.len() as int) == was.locs@
    &&& locates(b.locs@, was.locs@.len() as int, ri, crosses, overlaps)
}

/// The smaller `x` of each segment of a ring.
fn segment_keys(c: &[Vertex]) -> (keys: Vec<i32>)
    ensures
        keys@.len() == c@.len(),
        forall|i: int|
            0 <= i < c@.len() ==> #[trigger] keys@[i] == low(
                segment(c@, i).0.0,
                segment(c@, i).1.0,
            ),
{
    let n = c.len();
    let mut keys: Vec<i32> = Vec::new();
    let mut i: usize = 0;
    while i < n
        invariant
            i <= n,
            n == c@.len(),
            keys@.len() == i,
            forall|k: int|
                0 <= k < i ==> #[trigger] keys@[k] == low(
                    segment(c@, k).0.0,
                    segment(c@, k).1.0,
                ),
        decreases n - i,
    {
        let s = segment_at(c, i);
        keys.push(min32(s.0.0, s.1.0));
        i = i + 1;
    }
    keys
}

/// Segment `i` of a ring.
fn segment_at(c: &[Vertex], i: usize) -> (s: Segment)
    requires
        i < c@.len(),
    ensures
        s == segment(c@, i as int),
{
    let n = c.len();
    let next = if i + 1 == n {
        0
    } else {
        i + 1
    };
    proof {
        crate::walks::lemma_next(i as int, n as int);
        vstd::arithmetic::div_mod::lemma_small_mod(i as nat, n as nat);
    }
    (c[i], c[next])
}

/// Records how one pair of segments meets.
fn record(
    b: &mut Bad,
    ri: usize,
    i: usize,
    j: usize,
    class: Class,
    was: Ghost<Bad>,
    crosses: Ghost<Set<(int, int)>>,
    overlaps: Ghost<Set<(int, int)>>,
    touches: Ghost<Set<(int, int)>>,
)
    requires
        old(b).wf(),
        old(b).touches < usize::MAX,
        crosses@.finite(),
        overlaps@.finite(),
        touches@.finite(),
        counts_pairs(*old(b), was@, ri, crosses@, overlaps@, touches@),
        !crosses@.contains(sorted_pair(i as int, j as int)),
        !overlaps@.contains(sorted_pair(i as int, j as int)),
        !touches@.contains(sorted_pair(i as int, j as int)),
    ensures
        final(b).wf(),
        counts_pairs(
            *final(b),
            was@,
            ri,
            with_pair(crosses@, class == Class::Cross, sorted_pair(i as int, j as int)),
            with_pair(overlaps@, class == Class::Overlap, sorted_pair(i as int, j as int)),
            with_pair(touches@, class == Class::Touch, sorted_pair(i as int, j as int)),
        ),
{
    let ghost e = sorted_pair(i as int, j as int);
    let ghost locs0 = b.locs@;
    let ghost from = was@.locs@.len() as int;
    match class {
        Class::Cross => {
            let l = Loc { ring: ri, kind: Kind::Cross, first: i, second: j };
            proof {
                lemma_located(locs0, from, ri, crosses@, overlaps@, l, e);
            }
            b.locs.push(l);
            let located = b.locs.len();
            assert(b.crossings + 1 <= located);
            b.crossings = b.crossings + 1;
        },
        Class::Overlap => {
            let l = Loc { ring: ri, kind: Kind::Overlap, first: i, second: j };
            proof {
                lemma_located(locs0, from, ri, crosses@, overlaps@, l, e);
            }
            b.locs.push(l);
            let located = b.locs.len();
            assert(b.overlaps + 1 <= located);
            b.overlaps = b.overlaps + 1;
        },
        Class::Touch => {
            b.touches = b.touches + 1;
        },
        Class::Apart => {},
    }
    proof {
        assert(b.locs@.take(from) =~= was@.locs@) by {
            assert forall|k: int| 0 <= k < from implies b.locs@[k] == was@.locs@[k] by {
                assert(locs0.take(from)[k] == was@.locs@[k]);
            }
        }
    }
}

/// A set with one more pair, where it belongs in.
spec fn with_pair(set: Set<(int, int)>, meets: bool, e: (int, int)) -> Set<(int, int)> {
    if meets {
        set.insert(e)
    } else {
        set
    }
}

/// Counts the non-adjacent segment pairs of one ring that meet, split by kind,
/// and locates the crossings and overlaps. The pairs are swept by `x`, so
/// segments far apart are never compared.
pub fn ring_bad(ri: usize, c: &[Vertex], b: &mut Bad)
    requires
        old(b).wf(),
        old(b).touches + c@.len() * c@.len() <= usize::MAX,
    ensures
        final(b).wf(),
        counts_pairs(
            *final(b),
            *old(b),
            ri,
            pairs_of(c@, Class::Cross),
            pairs_of(c@, Class::Overlap),
            pairs_of(c@, Class::Touch),
        ),
        pairs_of(c@, Class::Touch).len() <= c@.len() * c@.len(),
{
    let n = c.len();
    let ghost was = *b;
    let keys = segment_keys(c);
    let idx = sort_indices(keys.as_slice());
    let ghost mut crosses: Set<(int, int)> = Set::empty();
    let ghost mut overlaps: Set<(int, int)> = Set::empty();
    let ghost mut touches: Set<(int, int)> = Set::empty();
    proof {
        reveal(sweeps);
        reveal(locates);
    }
    assert(b.locs@.take(was.locs@.len() as int) =~= was.locs@);
    assert(0 * n == 0) by (nonlinear_arith);
    let mut x: usize = 0;
    while x < n
        invariant
            x <= n,
            n == c@.len(),
            n == idx@.len(),
            keys@.len() == n,
            was == *old(b),
            was.touches + n * n <= usize::MAX,
            b.wf(),
            forall|i: int|
                0 <= i < n ==> #[trigger] keys@[i] == low(
                    segment(c@, i).0.0,
                    segment(c@, i).1.0,
                ),
            in_range(keys@, idx@),
            ordered(keys@, idx@),
            idx@.no_duplicates(),
            forall|i: usize| i < n ==> #[trigger] idx@.contains(i),
            sweeps(crosses, c@, idx@, Class::Cross, x as int, x + 1),
            sweeps(overlaps, c@, idx@, Class::Overlap, x as int, x + 1),
            sweeps(touches, c@, idx@, Class::Touch, x as int, x + 1),
            touches.len() <= x * n,
            counts_pairs(*b, was, ri, crosses, overlaps, touches),
        decreases n - x,
    {
        let i = idx[x];
        let p = segment_at(c, i);
        let reach = max32(p.0.0, p.1.0);
        let floor = min32(p.0.1, p.1.1);
        let ceiling = max32(p.0.1, p.1.1);
        let mut y: usize = x + 1;
        while y < n
            invariant
                sweeps(crosses, c@, idx@, Class::Cross, x as int, y as int),
                sweeps(overlaps, c@, idx@, Class::Overlap, x as int, y as int),
                sweeps(touches, c@, idx@, Class::Touch, x as int, y as int),
                x < y <= n,
                n == c@.len(),
                n == idx@.len(),
                keys@.len() == n,
                i == idx@[x as int],
                i < n,
                p == segment(c@, i as int),
                reach == high(p.0.0, p.1.0),
                floor == low(p.0.1, p.1.1),
                ceiling == high(p.0.1, p.1.1),
                was.touches + n * n <= usize::MAX,
                b.wf(),
                forall|i: int|
                    0 <= i < n ==> #[trigger] keys@[i] == low(
                        segment(c@, i).0.0,
                        segment(c@, i).1.0,
                    ),
                in_range(keys@, idx@),
                ordered(keys@, idx@),
                idx@.no_duplicates(),
                touches.len() <= x * n + (y - x - 1),
                counts_pairs(*b, was, ri, crosses, overlaps, touches),
            ensures
                forall|z: int|
                    #![trigger idx@[z]]
                    y <= z < n ==> pair_class(c@, idx@[x as int] as int, idx@[z] as int)
                        == Class::Apart,
            decreases n - y,
        {
            assert(idx@[y as int] < keys@.len());
            let j = idx[y];
            let q = segment_at(c, j);
            assert(keys@[i as int] <= keys@[j as int]);
            if min32(q.0.0, q.1.0) > reach {
                proof {
                    assert forall|z: int|
                        #![trigger idx@[z]]
                        y <= z < n implies pair_class(c@, idx@[x as int] as int, idx@[z] as int)
                        == Class::Apart by {
                        assert(idx@[z] < keys@.len());
                        if y < z {
                            assert(keys@[idx@[y as int] as int] <= keys@[idx@[z] as int]);
                        }
                        assert(keys@[idx@[z] as int] > reach);
                    }
                }
                break;
            }
            let apart_index = if i > j {
                i - j
            } else {
                j - i
            };
            let skip = apart_index == 1 || apart_index == n - 1 || max32(q.0.1, q.1.1) < floor
                || min32(q.0.1, q.1.1) > ceiling;
            let class = if skip {
                Class::Apart
            } else {
                seg_class(p, q)
            };
            let ghost e = sorted_pair(i as int, j as int);
            proof {
                assert(idx@[x as int] != idx@[y as int]);
                assert(class == pair_class(c@, i as int, j as int));
                assert forall|a: int| 0 <= a < idx@.len() implies (#[trigger] idx@[a])
                    < c@.len() by {}
            }
            let ghost nc = lemma_sweep_step(
                crosses,
                c@,
                idx@,
                Class::Cross,
                x as int,
                y as int,
            );
            let ghost no = lemma_sweep_step(
                overlaps,
                c@,
                idx@,
                Class::Overlap,
                x as int,
                y as int,
            );
            let ghost nt = lemma_sweep_step(
                touches,
                c@,
                idx@,
                Class::Touch,
                x as int,
                y as int,
            );
            assert(x * n + (y - x) <= n * n) by (nonlinear_arith)
                requires
                    x < y,
                    y <= n,
                    x + 1 <= n,
            ;
            record(
                b,
                ri,
                i,
                j,
                class,
                Ghost(was),
                Ghost(crosses),
                Ghost(overlaps),
                Ghost(touches),
            );
            proof {
                assert(nc == with_pair(crosses, class == Class::Cross, e));
                assert(no == with_pair(overlaps, class == Class::Overlap, e));
                assert(nt == with_pair(touches, class == Class::Touch, e));
                crosses = nc;
                overlaps = no;
                touches = nt;
            }
            y = y + 1;
        }
        proof {
            lemma_sweep_row(crosses, c@, idx@, Class::Cross, x as int, y as int);
            lemma_sweep_row(overlaps, c@, idx@, Class::Overlap, x as int, y as int);
            lemma_sweep_row(touches, c@, idx@, Class::Touch, x as int, y as int);
            assert((x + 1) * n == x * n + n) by (nonlinear_arith);
        }
        x = x + 1;
    }
    proof {
        assert forall|a: int| 0 <= a < idx@.len() implies (#[trigger] idx@[a]) < c@.len() by {}
        lemma_sweep_done(crosses, c@, idx@, Class::Cross, x as int);
        lemma_sweep_done(overlaps, c@, idx@, Class::Overlap, x as int);
        lemma_sweep_done(touches, c@, idx@, Class::Touch, x as int);
    }
}

/// Whether a ring collapsed to a spur: it has no area, and not because lobes
/// that cross cancel out.
pub open spec fn collapsed(ring: Seq<Vertex>) -> bool {
    degenerate(ring) && pairs_of(ring, Class::Cross).len() == 0
}

/// The rings that did not collapse.
pub open spec fn standing(rings: Seq<Seq<Vertex>>) -> spec_fn(int) -> bool {
    |r: int| !collapsed(rings[r])
}

/// The crossings and overlaps of a ring.
pub open spec fn spots(ring: Seq<Vertex>) -> nat {
    pairs_of(ring, Class::Cross).len() + pairs_of(ring, Class::Overlap).len()
}

/// The pairs that meet in a way, counted over those of the first `n` rings that
/// are looked at.
pub open spec fn total_pairs(
    rings: Seq<Seq<Vertex>>,
    looked_at: spec_fn(int) -> bool,
    class: Class,
    n: int,
) -> nat
    decreases n,
{
    if n <= 0 {
        0
    } else {
        total_pairs(rings, looked_at, class, n - 1) + if looked_at(n - 1) {
            pairs_of(rings[n - 1], class).len()
        } else {
            0
        }
    }
}

/// The ones without area among the first `n` rings, counted.
pub open spec fn total_degenerate(rings: Seq<Seq<Vertex>>, n: int) -> nat
    decreases n,
{
    if n <= 0 {
        0
    } else {
        total_degenerate(rings, n - 1) + if degenerate(rings[n - 1]) {
            1nat
        } else {
            0nat
        }
    }
}

/// The squared lengths of the first `n` rings, added up.
pub open spec fn squares(rings: Seq<Seq<Vertex>>, n: int) -> nat
    decreases n,
{
    if n <= 0 {
        0
    } else {
        squares(rings, n - 1) + rings[n - 1].len() * rings[n - 1].len()
    }
}

/// Whether these are the spots of those of the first `n` rings that are looked
/// at, ring by ring.
pub open spec fn spots_are(
    locs: Seq<Loc>,
    rings: Seq<Seq<Vertex>>,
    looked_at: spec_fn(int) -> bool,
    n: int,
) -> bool
    decreases n,
{
    if n <= 0 {
        locs.len() == 0
    } else if !looked_at(n - 1) {
        spots_are(locs, rings, looked_at, n - 1)
    } else {
        let k = locs.len() - spots(rings[n - 1]);
        &&& 0 <= k
        &&& spots_are(locs.take(k), rings, looked_at, n - 1)
        &&& locates(
            locs,
            k,
            (n - 1) as usize,
            pairs_of(rings[n - 1], Class::Cross),
            pairs_of(rings[n - 1], Class::Overlap),
        )
    }
}

/// The rings as sequences.
pub open spec fn paths(rings: Seq<Vec<Vertex>>) -> Seq<Seq<Vertex>> {
    Seq::new(rings.len(), |i: int| rings[i]@)
}

/// Whether a measurement is that of the first `n` rings: all are counted, and
/// those that did not collapse are searched.
pub open spec fn measures(b: Bad, rings: Seq<Seq<Vertex>>, n: int) -> bool {
    &&& b.crossings == total_pairs(rings, standing(rings), Class::Cross, n)
    &&& b.overlaps == total_pairs(rings, standing(rings), Class::Overlap, n)
    &&& b.touches == total_pairs(rings, standing(rings), Class::Touch, n)
    &&& b.degenerate == total_degenerate(rings, n)
    &&& b.verts == crate::snapped::total_verts(rings, n)
    &&& spots_are(b.locs@, rings, standing(rings), n)
}

proof fn lemma_square(n: nat)
    ensures
        n <= n * n,
{
    assert(n <= n * n) by (nonlinear_arith)
        requires
            n >= 0,
    ;
}

proof fn lemma_squares_grow(rings: Seq<Seq<Vertex>>, m: int, n: int)
    requires
        0 <= m <= n <= rings.len(),
    ensures
        squares(rings, m) <= squares(rings, n),
    decreases n - m,
{
    if m < n {
        lemma_squares_grow(rings, m, n - 1);
        let k = rings[n - 1].len();
        assert(0 <= k * k) by (nonlinear_arith);
    }
}

/// Whether a ring collapsed to a spur.
fn has_collapsed(c: &[Vertex]) -> (is: bool)
    requires
        c@.len() * c@.len() <= usize::MAX,
    ensures
        is == collapsed(c@),
{
    if !ring_degenerate(c) {
        return false;
    }
    let mut b = Bad::default();
    ring_bad(0, c, &mut b);
    b.crossings == 0
}

/// Measures rings: how often their segments cross, overlap and touch, and how
/// many have no area. A collapsed ring is counted and not searched; one whose
/// lobes cross and cancel out is searched like any other.
pub fn measure(rings: &[Vec<Vertex>]) -> (b: Bad)
    requires
        squares(paths(rings@), rings@.len() as int) <= usize::MAX,
    ensures
        b.wf(),
        measures(b, paths(rings@), rings@.len() as int),
{
    let ghost pv = paths(rings@);
    let mut b = Bad::default();
    let mut r: usize = 0;
    while r < rings.len()
        invariant
            r <= rings@.len(),
            pv == paths(rings@),
            squares(pv, pv.len() as int) <= usize::MAX,
            b.wf(),
            measures(b, pv, r as int),
            b.verts <= squares(pv, r as int),
            b.touches <= squares(pv, r as int),
            b.degenerate <= r,
        decreases rings@.len() - r,
    {
        let c = &rings[r];
        assert(pv[r as int] == c@);
        let ghost was = b;
        proof {
            lemma_squares_grow(pv, r as int + 1, pv.len() as int);
            lemma_square(c@.len());
        }
        b.verts = b.verts + c.len();
        if ring_degenerate(c.as_slice()) {
            b.degenerate = b.degenerate + 1;
        }
        if has_collapsed(c.as_slice()) {
            assert(0 <= c@.len() * c@.len()) by (nonlinear_arith);
        } else {
            ring_bad(r, c.as_slice(), &mut b);
            proof {
                reveal(locates);
                assert(b.locs@.len() - spots(pv[r as int]) == was.locs@.len());
            }
        }
        r = r + 1;
    }
    b
}

/// Whether the rings' squared lengths add up within the counters.
pub fn can_measure(rings: &[Vec<Vertex>]) -> (fits: bool)
    ensures
        fits == (squares(paths(rings@), rings@.len() as int) <= usize::MAX),
{
    let ghost pv = paths(rings@);
    let mut sum: u128 = 0;
    let mut r: usize = 0;
    while r < rings.len()
        invariant
            r <= rings@.len(),
            pv == paths(rings@),
            sum == squares(pv, r as int),
            sum <= usize::MAX,
        decreases rings@.len() - r,
    {
        let n = rings[r].len() as u128;
        assert(pv[r as int].len() == n);
        assert(n * n <= 0xFFFF_FFFF_FFFF_FFFF * 0xFFFF_FFFF_FFFF_FFFF) by (nonlinear_arith)
            requires
                n <= 0xFFFF_FFFF_FFFF_FFFF,
        ;
        if n * n > usize::MAX as u128 - sum {
            proof {
                lemma_squares_grow(pv, r as int + 1, pv.len() as int);
            }
            return false;
        }
        sum = sum + n * n;
        r = r + 1;
    }
    true
}

/// A surviving defect, its ring and the feature that owns that.
#[derive(Clone, Copy, PartialEq, Eq, Structural, Debug)]
pub struct Problem {
    /// the spot; its ring is counted among those left
    pub loc: Loc,
    /// ring index before any were dropped
    pub ring: usize,
    /// owning feature index
    pub feat: usize,
}

/// Whether a feature has ring `r`.
pub open spec fn feature_has(polys: Seq<Seq<int>>, r: int) -> bool {
    exists|p: int, k: int|
        0 <= p < polys.len() && 0 <= k < polys[p].len() && #[trigger] polys[p][k] == r
}

/// The last of the first `n` features that has ring `r`, the largest index
/// where none has.
pub open spec fn owner_of(structure: Seq<Seq<Seq<int>>>, r: int, n: int) -> usize
    decreases n,
{
    if n <= 0 {
        usize::MAX
    } else if feature_has(structure[n - 1], r) {
        (n - 1) as usize
    } else {
        owner_of(structure, r, n - 1)
    }
}

/// Whether one of the first `p` polygons, or of the first `k` rings of the
/// next, is ring `r`.
spec fn has_upto(polys: Seq<Seq<int>>, r: int, p: int, k: int) -> bool {
    exists|q: int, i: int|
        0 <= q < polys.len() && 0 <= i < polys[q].len() && (q < p || (q == p && i < k))
            && #[trigger] polys[q][i] == r
}

/// The feature that owns each ring.
fn ring_owners(structure: &[Vec<Vec<usize>>], n_rings: usize) -> (owner: Vec<usize>)
    requires
        forall|f: int, p: int, k: int|
            0 <= f < structure@.len() && 0 <= p < structure@[f]@.len() && 0 <= k
                < structure@[f]@[p]@.len() ==> (#[trigger] structure@[f]@[p]@[k]) < n_rings,
    ensures
        owner@.len() == n_rings,
        forall|r: int|
            0 <= r < n_rings ==> #[trigger] owner@[r] == owner_of(
                structure_view(structure@),
                r,
                structure@.len() as int,
            ),
{
    let ghost sv = structure_view(structure@);
    let mut owner: Vec<usize> = Vec::new();
    while owner.len() < n_rings
        invariant
            owner@.len() <= n_rings,
            forall|r: int| 0 <= r < owner@.len() ==> #[trigger] owner@[r] == usize::MAX,
        decreases n_rings - owner@.len(),
    {
        owner.push(usize::MAX);
    }
    let mut f: usize = 0;
    while f < structure.len()
        invariant
            f <= structure@.len(),
            sv == structure_view(structure@),
            owner@.len() == n_rings,
            forall|f: int, p: int, k: int|
                0 <= f < structure@.len() && 0 <= p < structure@[f]@.len() && 0 <= k
                    < structure@[f]@[p]@.len() ==> (#[trigger] structure@[f]@[p]@[k]) < n_rings,
            forall|r: int| 0 <= r < n_rings ==> #[trigger] owner@[r] == owner_of(sv, r, f as int),
        decreases structure@.len() - f,
    {
        let feature = &structure[f];
        let ghost fv = feature_view(feature@);
        assert(sv[f as int] == fv);
        let ghost was = owner@;
        let mut p: usize = 0;
        while p < feature.len()
            invariant
                f < structure@.len(),
                feature == structure@[f as int],
                fv == feature_view(feature@),
                p <= feature@.len(),
                owner@.len() == n_rings,
                was.len() == n_rings,
                forall|f: int, p: int, k: int|
                    0 <= f < structure@.len() && 0 <= p < structure@[f]@.len() && 0 <= k
                        < structure@[f]@[p]@.len() ==> (#[trigger] structure@[f]@[p]@[k])
                        < n_rings,
                forall|r: int|
                    0 <= r < n_rings ==> #[trigger] owner@[r] == if has_upto(fv, r, p as int, 0) {
                        f
                    } else {
                        was[r]
                    },
            decreases feature@.len() - p,
        {
            let poly = &feature[p];
            let ghost pv = poly_view(poly@);
            assert(fv[p as int] == pv);
            let mut k: usize = 0;
            while k < poly.len()
                invariant
                    f < structure@.len(),
                    feature == structure@[f as int],
                    fv == feature_view(feature@),
                    p < feature@.len(),
                    poly == feature@[p as int],
                    pv == poly_view(poly@),
                    fv[p as int] == pv,
                    k <= poly@.len(),
                    owner@.len() == n_rings,
                    was.len() == n_rings,
                    forall|f: int, p: int, k: int|
                        0 <= f < structure@.len() && 0 <= p < structure@[f]@.len() && 0 <= k
                            < structure@[f]@[p]@.len() ==> (#[trigger] structure@[f]@[p]@[k])
                            < n_rings,
                    forall|r: int|
                        0 <= r < n_rings ==> #[trigger] owner@[r] == if has_upto(
                            fv,
                            r,
                            p as int,
                            k as int,
                        ) {
                            f
                        } else {
                            was[r]
                        },
                decreases poly@.len() - k,
            {
                assert(structure@[f as int]@[p as int]@[k as int] < n_rings);
                let ri = poly[k];
                let ghost before = owner@;
                owner.set(ri, f);
                assert forall|r: int| 0 <= r < n_rings implies #[trigger] owner@[r] == if has_upto(
                    fv,
                    r,
                    p as int,
                    k as int + 1,
                ) {
                    f
                } else {
                    was[r]
                } by {
                    assert(before[r] == if has_upto(fv, r, p as int, k as int) {
                        f
                    } else {
                        was[r]
                    });
                    assert(fv[p as int][k as int] == ri as int);
                    if has_upto(fv, r, p as int, k as int) {
                        let (q, i) = choose|q: int, i: int|
                            0 <= q < fv.len() && 0 <= i < fv[q].len() && (q < p || (q == p && i
                                < k)) && #[trigger] fv[q][i] == r;
                        assert(fv[q][i] == r);
                    }
                    if has_upto(fv, r, p as int, k as int + 1) && r != ri {
                        let (q, i) = choose|q: int, i: int|
                            0 <= q < fv.len() && 0 <= i < fv[q].len() && (q < p || (q == p && i < k
                                + 1)) && #[trigger] fv[q][i] == r;
                        assert(fv[q][i] == r);
                    }
                }
                k = k + 1;
            }
            assert forall|r: int| 0 <= r < n_rings implies #[trigger] owner@[r] == if has_upto(
                fv,
                r,
                p as int + 1,
                0,
            ) {
                f
            } else {
                was[r]
            } by {
                if has_upto(fv, r, p as int + 1, 0) {
                    let (q, i) = choose|q: int, i: int|
                        0 <= q < fv.len() && 0 <= i < fv[q].len() && (q < p + 1 || (q == p + 1 && i
                            < 0)) && #[trigger] fv[q][i] == r;
                    assert(fv[q][i] == r);
                }
                if has_upto(fv, r, p as int, poly@.len() as int) {
                    let (q, i) = choose|q: int, i: int|
                        0 <= q < fv.len() && 0 <= i < fv[q].len() && (q < p || (q == p && i
                            < poly@.len())) && #[trigger] fv[q][i] == r;
                    assert(fv[q][i] == r);
                }
            }
            p = p + 1;
        }
        assert forall|r: int| 0 <= r < n_rings implies #[trigger] owner@[r] == owner_of(
            sv,
            r,
            f as int + 1,
        ) by {
            assert(was[r] == owner_of(sv, r, f as int));
            if feature_has(fv, r) {
                let (q, i) = choose|q: int, i: int|
                    0 <= q < fv.len() && 0 <= i < fv[q].len() && #[trigger] fv[q][i] == r;
                assert(fv[q][i] == r);
                assert(has_upto(fv, r, feature@.len() as int, 0));
            }
            if has_upto(fv, r, feature@.len() as int, 0) {
                let (q, i) = choose|q: int, i: int|
                    0 <= q < fv.len() && 0 <= i < fv[q].len() && (q < feature@.len() || (q
                        == feature@.len() && i < 0)) && #[trigger] fv[q][i] == r;
                assert(fv[q][i] == r);
            }
        }
        f = f + 1;
    }
    owner
}

/// A topology's rings, stitched.
pub open spec fn rings_of(refs: Seq<Seq<u32>>, arcs: Seq<Seq<Vertex>>) -> Seq<Seq<Vertex>> {
    Seq::new(refs.len(), |r: int| ring_of(refs[r], arcs))
}

/// The problems' spots.
pub open spec fn locs_of(problems: Seq<Problem>) -> Seq<Loc> {
    Seq::new(problems.len(), |k: int| problems[k].loc)
}

/// A topology's rings, stitched.
pub fn stitch_rings(ring_refs: &[Vec<u32>], arcs: &[Vec<Vertex>]) -> (rings: Vec<Vec<Vertex>>)
    requires
        forall|r: int|
            0 <= r < ring_refs@.len() ==> refs_valid((#[trigger] ring_refs@[r])@, arcs@),
    ensures
        paths(rings@) == rings_of(refs_view(ring_refs@), arcs_view(arcs@)),
{
    let ghost target = rings_of(refs_view(ring_refs@), arcs_view(arcs@));
    let mut rings: Vec<Vec<Vertex>> = Vec::new();
    let mut r: usize = 0;
    while r < ring_refs.len()
        invariant
            r <= ring_refs@.len(),
            target == rings_of(refs_view(ring_refs@), arcs_view(arcs@)),
            forall|r: int|
                0 <= r < ring_refs@.len() ==> refs_valid((#[trigger] ring_refs@[r])@, arcs@),
            rings@.len() == r,
            forall|k: int| 0 <= k < r ==> (#[trigger] rings@[k])@ == target[k],
        decreases ring_refs@.len() - r,
    {
        rings.push(ring_coords_q(ring_refs[r].as_slice(), arcs));
        r = r + 1;
    }
    assert(paths(rings@) =~= target);
    rings
}

/// The rings that are left when collapsed rings are dropped, in structure
/// order: a collapsed exterior goes with its holes.
pub open spec fn left_over(structure: Seq<Seq<Seq<int>>>, rings: Seq<Seq<Vertex>>) -> Sift {
    sift(standing(rings), structure, structure.len() as int)
}

/// Rings listed anew.
pub open spec fn relisted(rings: Seq<Seq<Vertex>>, kept: Seq<int>) -> Seq<Seq<Vertex>> {
    Seq::new(kept.len(), |k: int| rings[kept[k]])
}

/// Which rings did not collapse.
fn rings_standing(rings: &Vec<Vec<Vertex>>) -> (ok: Vec<bool>)
    requires
        squares(paths(rings@), rings@.len() as int) <= usize::MAX,
    ensures
        ok@.len() == rings@.len(),
        forall|r: int| 0 <= r < ok@.len() ==> #[trigger] ok@[r] == standing(paths(rings@))(r),
{
    let ghost pv = paths(rings@);
    let n = rings.len();
    assert(pv.len() == n);
    let mut ok: Vec<bool> = Vec::new();
    while ok.len() < n
        invariant
            ok@.len() <= n,
            n == rings@.len(),
            n == pv.len(),
            pv == paths(rings@),
            squares(pv, pv.len() as int) <= usize::MAX,
            forall|r: int| 0 <= r < ok@.len() ==> #[trigger] ok@[r] == standing(pv)(r),
        decreases n - ok@.len(),
    {
        let r: usize = ok.len();
        assert(pv[r as int] == rings@[r as int]@);
        proof {
            lemma_squares_grow(pv, r as int + 1, pv.len() as int);
        }
        ok.push(!has_collapsed(rings[r].as_slice()));
    }
    ok
}

/// The rings at the given indices, stitched.
fn stitch_kept(ring_refs: &[Vec<u32>], arcs: &[Vec<Vertex>], kept: &Vec<usize>) -> (rings: Vec<
    Vec<Vertex>,
>)
    requires
        forall|r: int|
            0 <= r < ring_refs@.len() ==> refs_valid((#[trigger] ring_refs@[r])@, arcs@),
        forall|k: int| 0 <= k < kept@.len() ==> (#[trigger] kept@[k]) < ring_refs@.len(),
    ensures
        paths(rings@) == relisted(
            rings_of(refs_view(ring_refs@), arcs_view(arcs@)),
            poly_view(kept@),
        ),
{
    let ghost whole = rings_of(refs_view(ring_refs@), arcs_view(arcs@));
    let mut rings: Vec<Vec<Vertex>> = Vec::new();
    let mut k: usize = 0;
    while k < kept.len()
        invariant
            k <= kept@.len(),
            whole == rings_of(refs_view(ring_refs@), arcs_view(arcs@)),
            forall|r: int|
                0 <= r < ring_refs@.len() ==> refs_valid((#[trigger] ring_refs@[r])@, arcs@),
            forall|k: int| 0 <= k < kept@.len() ==> (#[trigger] kept@[k]) < ring_refs@.len(),
            rings@.len() == k,
            forall|i: int| 0 <= i < k ==> (#[trigger] rings@[i])@ == whole[kept@[i] as int],
        decreases kept@.len() - k,
    {
        let r: usize = kept[k];
        rings.push(ring_coords_q(ring_refs[r].as_slice(), arcs));
        k = k + 1;
    }
    assert(paths(rings@) =~= relisted(whole, poly_view(kept@)));
    rings
}

/// Cleans snapped arcs, drops the rings that collapsed to spurs, then locates
/// every crossing and overlap of those left, with the feature that owns the
/// ring. A spot on a shared border is reported once per owning ring. `None`
/// where the rings are too large to count.
pub fn find_problems(
    ring_refs: &[Vec<u32>],
    structure: &[Vec<Vec<usize>>],
    arcs: Vec<Vec<Vertex>>,
    closed: &[bool],
) -> (found: Option<Vec<Problem>>)
    requires
        topology_valid(ring_refs@, structure@, arcs@),
        closed@.len() == arcs@.len(),
        countable(structure_view(structure@), arcs_view(arcs@)),
    ensures
        ({
            let rings = rings_of(refs_view(ring_refs@), cleaned(arcs_view(arcs@), closed@));
            let sifted = left_over(structure_view(structure@), rings);
            let left = relisted(rings, sifted.kept);
            &&& found is None <==> squares(rings, rings.len() as int) > usize::MAX || squares(
                left,
                left.len() as int,
            ) > usize::MAX
            &&& found matches Some(problems) ==> spots_are(
                locs_of(problems@),
                left,
                standing(left),
                left.len() as int,
            ) && forall|k: int|
                #![trigger problems@[k]]
                0 <= k < problems@.len() ==> problems@[k].ring == sifted.kept[problems@[k].loc.ring
                    as int] && problems@[k].feat == owner_of(
                    sifted.features,
                    problems@[k].loc.ring as int,
                    sifted.features.len() as int,
                )
        }),
{
    let ghost sv = structure_view(structure@);
    let ghost pv = rings_of(refs_view(ring_refs@), cleaned(arcs_view(arcs@), closed@));
    let ghost sifted = left_over(sv, pv);
    let ghost left = relisted(pv, sifted.kept);
    let (arcs, _) = clean_arcs(arcs, closed);
    let rings = stitch_rings(ring_refs, arcs.as_slice());
    assert(paths(rings@).len() == rings@.len());
    if !can_measure(rings.as_slice()) {
        return None;
    }
    let ok = rings_standing(&rings);
    let mut st = CleanStats::default();
    proof {
        lemma_drops(standing(pv), sv, sv.len() as int);
    }
    let (kept, features) = sift_rings(structure, &ok, &mut st, Ghost(standing(pv)));
    let rings = stitch_kept(ring_refs, arcs.as_slice(), &kept);
    assert(paths(rings@).len() == rings@.len());
    if !can_measure(rings.as_slice()) {
        return None;
    }
    let owner = ring_owners(features.as_slice(), rings.len());
    let locs = measure(rings.as_slice()).locs;
    proof {
        lemma_spots_in_range(locs@, left, standing(left), left.len() as int);
    }
    let ghost fv = sifted.features;
    let mut problems: Vec<Problem> = Vec::new();
    let mut k: usize = 0;
    while k < locs.len()
        invariant
            k <= locs@.len(),
            poly_view(kept@) == sifted.kept,
            kept@.len() == owner@.len(),
            forall|r: int|
                0 <= r < owner@.len() ==> #[trigger] owner@[r] == owner_of(
                    fv,
                    r,
                    fv.len() as int,
                ),
            forall|i: int|
                0 <= i < locs@.len() ==> (#[trigger] locs@[i]).ring < owner@.len(),
            problems@.len() == k,
            forall|i: int|
                #![trigger problems@[i]]
                0 <= i < k ==> problems@[i].loc == locs@[i] && problems@[i].ring
                    == sifted.kept[problems@[i].loc.ring as int] && problems@[i].feat == owner_of(
                    fv,
                    problems@[i].loc.ring as int,
                    fv.len() as int,
                ),
        decreases locs@.len() - k,
    {
        let loc = locs[k];
        assert(poly_view(kept@)[loc.ring as int] == kept@[loc.ring as int]);
        problems.push(Problem { loc, ring: kept[loc.ring], feat: owner[loc.ring] });
        k = k + 1;
    }
    assert(locs_of(problems@) =~= locs@);
    Some(problems)
}

proof fn lemma_spots_in_range(
    locs: Seq<Loc>,
    rings: Seq<Seq<Vertex>>,
    looked_at: spec_fn(int) -> bool,
    n: int,
)
    requires
        0 <= n <= rings.len(),
        n <= usize::MAX,
        spots_are(locs, rings, looked_at, n),
    ensures
        forall|i: int| 0 <= i < locs.len() ==> (#[trigger] locs[i]).ring < n,
    decreases n,
{
    if n > 0 {
        if looked_at(n - 1) {
            let k = locs.len() - spots(rings[n - 1]);
            lemma_spots_in_range(locs.take(k), rings, looked_at, n - 1);
            reveal(locates);
            assert forall|i: int| 0 <= i < locs.len() implies (#[trigger] locs[i]).ring < n by {
                if i < k {
                    assert(locs.take(k)[i] == locs[i]);
                }
            }
        } else {
            lemma_spots_in_range(locs, rings, looked_at, n - 1);
        }
    }
}

} // verus!
