//! Post-quantization cleanup. Snapping arc vertices to a coarse grid collapses
//! nearby vertices and folds thin features onto themselves: consecutive
//! duplicates, zero-area spurs where the path reverses over itself
//! ("spikes"), and rings whose area vanishes entirely.
//!
//! Every fix runs on the shared arcs (or drops whole rings), never on one
//! polygon in isolation, so neighbouring zones stay stitched by construction.

use vstd::prelude::*;

use crate::stitch::{append_spec, oriented, ring_of, stitched};

verus! {

/// A vertex on the quantization grid.
pub type Vertex = (i32, i32);

/// Whether two vertices coincide.
pub fn same_vertex(a: Vertex, b: Vertex) -> (same: bool)
    ensures
        same == (a == b),
{
    a.0 == b.0 && a.1 == b.1
}

/// What the cleanup removed.
#[derive(Clone, Copy, Debug, PartialEq, Eq, Structural)]
pub struct CleanStats {
    /// Consecutive duplicate vertices removed.
    pub dups: u32,
    /// Zero-area spur vertices removed (path reverses along the same line).
    pub spikes: u32,
    /// Collinear pass-through vertices removed (no geometry change).
    pub collinear: u32,
    /// Degenerate rings dropped (fewer than 3 distinct vertices or area 0).
    pub rings_dropped: u32,
    /// Polygons dropped because their exterior ring degenerated.
    pub polys_dropped: u32,
    /// Arcs left unreferenced by ring drops (removed, ids compacted).
    pub arcs_dropped: u32,
}

impl Default for CleanStats {
    fn default() -> (stats: CleanStats)
        ensures
            stats == no_stats(),
    {
        CleanStats {
            dups: 0,
            spikes: 0,
            collinear: 0,
            rings_dropped: 0,
            polys_dropped: 0,
            arcs_dropped: 0,
        }
    }
}

/// Nothing removed.
pub open spec fn no_stats() -> CleanStats {
    CleanStats {
        dups: 0,
        spikes: 0,
        collinear: 0,
        rings_dropped: 0,
        polys_dropped: 0,
        arcs_dropped: 0,
    }
}

/// How a path bends at a vertex.
#[derive(Clone, Copy, PartialEq, Eq, Structural, Debug)]
pub enum Bend {
    /// The vertex repeats a neighbour.
    Duplicate,
    /// The path reverses over itself along the same line.
    Spike,
    /// The path passes straight through.
    Collinear,
    /// The path turns.
    Keep,
}

/// How the path bends at `q` between `p` and `r`, all distinct from `q`:
/// where the two steps are parallel, their direction decides.
pub open spec fn bend(p: Vertex, q: Vertex, r: Vertex) -> Bend {
    let (ax, ay) = (q.0 - p.0, q.1 - p.1);
    let (bx, by) = (r.0 - q.0, r.1 - q.1);
    if ax * by != ay * bx {
        Bend::Keep
    } else if ax * bx + ay * by < 0 {
        Bend::Spike
    } else {
        Bend::Collinear
    }
}

/// How the path bends at `q` between `p` and `r` (all distinct from `q`).
pub fn classify(p: Vertex, q: Vertex, r: Vertex) -> (kind: Bend)
    ensures
        kind == bend(p, q, r),
{
    let (ax, ay): (i128, i128) = (q.0 as i128 - p.0 as i128, q.1 as i128 - p.1 as i128);
    let (bx, by): (i128, i128) = (r.0 as i128 - q.0 as i128, r.1 as i128 - q.1 as i128);
    proof {
        lemma_step_product(ax as int, by as int);
        lemma_step_product(ay as int, bx as int);
        lemma_step_product(ax as int, bx as int);
        lemma_step_product(ay as int, by as int);
    }
    if ax * by != ay * bx {
        return Bend::Keep;
    }
    if ax * bx + ay * by < 0 {
        Bend::Spike
    } else {
        Bend::Collinear
    }
}

/// Products of grid steps stay far within 128 bits.
proof fn lemma_step_product(u: int, v: int)
    requires
        -0xFFFF_FFFF <= u <= 0xFFFF_FFFF,
        -0xFFFF_FFFF <= v <= 0xFFFF_FFFF,
    ensures
        -0x1_0000_0000_0000_0000 < u * v < 0x1_0000_0000_0000_0000,
{
    assert(-0x1_0000_0000_0000_0000 < u * v < 0x1_0000_0000_0000_0000) by (nonlinear_arith)
        requires
            -0xFFFF_FFFF <= u <= 0xFFFF_FFFF,
            -0xFFFF_FFFF <= v <= 0xFFFF_FFFF,
    ;
}

/// How many vertices of each kind a cleanup removed.
pub struct Tally {
    pub dups: nat,
    pub spikes: nat,
    pub collinear: nat,
}

/// A tally with one more removal of a kind.
pub open spec fn tally_add(t: Tally, kind: Bend) -> Tally {
    match kind {
        Bend::Duplicate => Tally { dups: t.dups + 1, ..t },
        Bend::Spike => Tally { spikes: t.spikes + 1, ..t },
        Bend::Collinear => Tally { collinear: t.collinear + 1, ..t },
        Bend::Keep => t,
    }
}

/// The tally of nothing.
pub open spec fn tally_none() -> Tally {
    Tally { dups: 0, spikes: 0, collinear: 0 }
}

/// The counters after a cleanup.
pub open spec fn counted(st: CleanStats, t: Tally) -> CleanStats {
    CleanStats {
        dups: (st.dups + t.dups) as u32,
        spikes: (st.spikes + t.spikes) as u32,
        collinear: (st.collinear + t.collinear) as u32,
        ..st
    }
}

/// Whether the counters can take these removals.
pub open spec fn counts_fit(st: CleanStats, t: Tally) -> bool {
    &&& st.dups + t.dups <= u32::MAX
    &&& st.spikes + t.spikes <= u32::MAX
    &&& st.collinear + t.collinear <= u32::MAX
}

/// Whether one tally counts no more than another, kind by kind.
pub open spec fn tally_le(t: Tally, u: Tally) -> bool {
    t.dups <= u.dups && t.spikes <= u.spikes && t.collinear <= u.collinear
}

/// What vertex `i` of an open arc is, `i >= 1`: the last vertex is removable
/// only as a repeat of the one before it.
pub open spec fn open_bend(a: Seq<Vertex>, i: int) -> Bend {
    if a[i] == a[i - 1] {
        Bend::Duplicate
    } else if i + 1 == a.len() {
        Bend::Keep
    } else if a[i] == a[i + 1] {
        Bend::Duplicate
    } else {
        bend(a[i - 1], a[i], a[i + 1])
    }
}

/// The vertex to look at next after a removal at `i`: one back, but never the
/// first.
pub open spec fn step_back(i: int) -> int {
    if i <= 1 { 1 } else { i - 1 }
}

/// The cleanup of an open arc from vertex `i` on: removable vertices go one
/// at a time, looking again one vertex back after each, so multi-vertex spurs
/// unwind fully.
pub open spec fn open_run(a: Seq<Vertex>, i: int, t: Tally) -> (Seq<Vertex>, Tally)
    decreases 2 * a.len() - i,
{
    if !(1 <= i < a.len()) {
        (a, t)
    } else if open_bend(a, i) == Bend::Keep {
        if i + 1 == a.len() {
            (a, t)
        } else {
            open_run(a, i + 1, t)
        }
    } else {
        open_run(a.remove(i), step_back(i), tally_add(t, open_bend(a, i)))
    }
}

/// Whether no interior vertex of an open arc is removable, and no vertex
/// repeats its predecessor.
pub open spec fn open_clean(a: Seq<Vertex>, n: int) -> bool {
    forall|i: int| 1 <= i < n ==> #[trigger] open_bend(a, i) == Bend::Keep
}

/// The cleanup keeps the endpoints' positions, leaves nothing removable, and
/// counts every vertex it removed.
pub proof fn lemma_open_run(a: Seq<Vertex>, i: int, t: Tally)
    requires
        a.len() >= 1,
        1 <= i,
        i <= a.len(),
        open_clean_before(a, i),
    ensures
        ({
            let (b, u) = open_run(a, i, t);
            &&& 1 <= b.len() <= a.len()
            &&& b[0] == a[0]
            &&& b.last() == a.last()
            &&& open_clean(b, b.len() as int)
            &&& u.dups + u.spikes + u.collinear + b.len() == t.dups + t.spikes + t.collinear
                + a.len()
            &&& u.dups >= t.dups
            &&& u.spikes >= t.spikes
            &&& u.collinear >= t.collinear
        }),
    decreases 2 * a.len() - i,
{
    if i < a.len() {
        if open_bend(a, i) == Bend::Keep {
            if i + 1 == a.len() {
                assert forall|k: int| 1 <= k < a.len() implies #[trigger] open_bend(a, k)
                    == Bend::Keep by {
                    if k < i {
                        assert(settled(a, k));
                    }
                }
            } else {
                assert(open_clean_before(a, i + 1)) by {
                    assert forall|k: int| 1 <= k < i + 1 implies #[trigger] settled(a, k) by {}
                }
                lemma_open_run(a, i + 1, t);
            }
        } else {
            let c = a.remove(i);
            let j = step_back(i);
            assert forall|k: int| 1 <= k < j implies #[trigger] settled(c, k) by {
                assert(settled(a, k));
            }
            if i + 1 == a.len() {
                assert(a[i] == a[i - 1]);
                assert(c.last() == a.last());
            } else {
                assert(c.last() == a.last());
            }
            lemma_open_run(c, j, tally_add(t, open_bend(a, i)));
        }
    } else {
        assert forall|k: int| 1 <= k < a.len() implies #[trigger] open_bend(a, k) == Bend::Keep by {
            assert(settled(a, k));
        }
    }
}

/// Vertex `k` and its two neighbours are settled: it is not removable, and
/// the vertex behind it is present.
pub open spec fn settled(a: Seq<Vertex>, k: int) -> bool {
    &&& k + 1 < a.len()
    &&& open_bend(a, k) == Bend::Keep
}

/// Every vertex in front of `i` is settled.
pub open spec fn open_clean_before(a: Seq<Vertex>, i: int) -> bool {
    forall|k: int| 1 <= k < i ==> #[trigger] settled(a, k)
}

/// A cleanup only adds to its tally.
proof fn lemma_open_tally(a: Seq<Vertex>, i: int, t: Tally)
    ensures
        tally_le(t, open_run(a, i, t).1),
    decreases 2 * a.len() - i,
{
    if 1 <= i < a.len() {
        if open_bend(a, i) != Bend::Keep {
            lemma_open_tally(a.remove(i), step_back(i), tally_add(t, open_bend(a, i)));
        } else if i + 1 < a.len() {
            lemma_open_tally(a, i + 1, t);
        }
    }
}

/// Cleans an open arc in place. Its endpoints are junctions shared with other
/// arcs and keep their positions.
pub fn clean_open(a: &mut Vec<Vertex>, st: &mut CleanStats)
    requires
        counts_fit(*old(st), open_run(old(a)@, 1, tally_none()).1),
    ensures
        final(a)@ == open_run(old(a)@, 1, tally_none()).0,
        *final(st) == counted(*old(st), open_run(old(a)@, 1, tally_none()).1),
        old(a)@.len() > 0 ==> {
            &&& final(a)@.len() > 0
            &&& final(a)@[0] == old(a)@[0]
            &&& final(a)@.last() == old(a)@.last()
            &&& open_clean(final(a)@, final(a)@.len() as int)
        },
{
    let ghost start = a@;
    let ghost st0 = *st;
    let ghost mut t = tally_none();
    proof {
        if start.len() > 0 {
            lemma_open_run(start, 1, t);
        }
    }
    let mut i: usize = 1;
    while i < a.len()
        invariant
            1 <= i,
            counts_fit(st0, open_run(start, 1, tally_none()).1),
            open_run(a@, i as int, t) == open_run(start, 1, tally_none()),
            t.dups + t.spikes + t.collinear + a@.len() == start.len(),
            *st == counted(st0, t),
            start.len() > 0 ==> i <= a@.len(),
        ensures
            open_run(start, 1, tally_none()) == (a@, t),
            *st == counted(st0, t),
        decreases 2 * a@.len() - i,
    {
        let back: usize = if i <= 1 { 1 } else { i - 1 };
        proof {
            let kind = open_bend(a@, i as int);
            lemma_open_tally(a@.remove(i as int), step_back(i as int), tally_add(t, kind));
        }
        if same_vertex(a[i], a[i - 1]) {
            a.remove(i);
            st.dups = st.dups + 1;
            proof {
                t = tally_add(t, Bend::Duplicate);
            }
            i = back;
            continue;
        }
        if i + 1 == a.len() {
            break;
        }
        if same_vertex(a[i], a[i + 1]) {
            a.remove(i);
            st.dups = st.dups + 1;
            proof {
                t = tally_add(t, Bend::Duplicate);
            }
            i = back;
            continue;
        }
        match classify(a[i - 1], a[i], a[i + 1]) {
            Bend::Spike => {
                a.remove(i);
                st.spikes = st.spikes + 1;
                proof {
                    t = tally_add(t, Bend::Spike);
                }
                i = back;
            },
            Bend::Collinear => {
                a.remove(i);
                st.collinear = st.collinear + 1;
                proof {
                    t = tally_add(t, Bend::Collinear);
                }
                i = back;
            },
            _ => {
                i = i + 1;
            },
        }
    }
}

/// The vertex before `i`, cyclically.
pub open spec fn ring_prev(a: Seq<Vertex>, i: int) -> Vertex {
    if i == 0 { a.last() } else { a[i - 1] }
}

/// The vertex behind `i`, cyclically.
pub open spec fn ring_next(a: Seq<Vertex>, i: int) -> Vertex {
    if i + 1 == a.len() { a[0] } else { a[i + 1] }
}

/// What vertex `i` of a closed ring is.
pub open spec fn ring_bend(a: Seq<Vertex>, i: int) -> Bend {
    if a[i] == ring_prev(a, i) || a[i] == ring_next(a, i) {
        Bend::Duplicate
    } else {
        bend(ring_prev(a, i), a[i], ring_next(a, i))
    }
}

/// One pass over a closed ring from vertex `i` on: the vertices left, the
/// tally, and whether anything was removed. A ring of two vertices or fewer
/// is left alone.
pub open spec fn ring_pass(a: Seq<Vertex>, i: int, t: Tally, changed: bool) -> (
    Seq<Vertex>,
    Tally,
    bool,
)
    decreases a.len() - i,
{
    if !(a.len() >= 3 && 0 <= i < a.len()) {
        (a, t, changed)
    } else if ring_bend(a, i) == Bend::Keep {
        ring_pass(a, i + 1, t, changed)
    } else {
        ring_pass(a.remove(i), i, tally_add(t, ring_bend(a, i)), true)
    }
}

/// Passes over a closed ring until one removes nothing.
pub open spec fn ring_passes(a: Seq<Vertex>, t: Tally) -> (Seq<Vertex>, Tally)
    decreases a.len(),
{
    let (b, u, changed) = ring_pass(a, 0, t, false);
    if !changed || b.len() < 3 || b.len() >= a.len() {
        (b, u)
    } else {
        ring_passes(b, u)
    }
}

/// The cleanup of a closed ring: passes to a fixed point, and of a remaining
/// pair of equal vertices only one is kept.
pub open spec fn ring_run(a: Seq<Vertex>, t: Tally) -> (Seq<Vertex>, Tally) {
    let (b, u) = ring_passes(a, t);
    if b.len() == 2 && b[0] == b[1] {
        (b.drop_last(), tally_add(u, Bend::Duplicate))
    } else {
        (b, u)
    }
}

/// The total a tally counts.
pub open spec fn tally_total(t: Tally) -> nat {
    t.dups + t.spikes + t.collinear
}

/// Whether no vertex of a closed ring is removable.
pub open spec fn ring_clean(a: Seq<Vertex>) -> bool {
    forall|i: int| 0 <= i < a.len() ==> #[trigger] ring_bend(a, i) == Bend::Keep
}

/// A pass counts every vertex it removes, and removes nothing exactly when
/// every vertex it saw was a turn.
proof fn lemma_ring_pass(a: Seq<Vertex>, i: int, t: Tally, changed: bool)
    requires
        0 <= i,
        !changed ==> forall|k: int|
            0 <= k < i && k < a.len() ==> #[trigger] ring_bend(a, k) == Bend::Keep,
    ensures
        ({
            let (b, u, after) = ring_pass(a, i, t, changed);
            &&& tally_total(u) + b.len() == tally_total(t) + a.len()
            &&& u.dups >= t.dups && u.spikes >= t.spikes && u.collinear >= t.collinear
            &&& changed ==> after
            &&& after && !changed ==> b.len() < a.len()
            &&& !after ==> b == a
            &&& !after && a.len() >= 3 ==> ring_clean(a)
            &&& a.len() >= 1 ==> b.len() >= 1
        }),
    decreases a.len() - i,
{
    if a.len() >= 3 && i < a.len() {
        if ring_bend(a, i) == Bend::Keep {
            lemma_ring_pass(a, i + 1, t, changed);
        } else {
            lemma_ring_pass(a.remove(i), i, tally_add(t, ring_bend(a, i)), true);
        }
    }
}

/// Passes end at a ring of fewer than three vertices or one with nothing
/// removable, and count every vertex they remove.
proof fn lemma_ring_passes(a: Seq<Vertex>, t: Tally)
    ensures
        ({
            let (b, u) = ring_passes(a, t);
            &&& tally_total(u) + b.len() == tally_total(t) + a.len()
            &&& u.dups >= t.dups && u.spikes >= t.spikes && u.collinear >= t.collinear
            &&& b.len() < 3 || ring_clean(b)
            &&& a.len() >= 1 ==> b.len() >= 1
        }),
    decreases a.len(),
{
    lemma_ring_pass(a, 0, t, false);
    let (b, u, changed) = ring_pass(a, 0, t, false);
    if changed && b.len() >= 3 {
        lemma_ring_passes(b, u);
    }
}

/// The cleanup of a closed ring leaves fewer than three vertices or nothing
/// removable, never an equal pair, and counts every vertex it removes.
pub proof fn lemma_ring_run(a: Seq<Vertex>, t: Tally)
    ensures
        ({
            let (b, u) = ring_run(a, t);
            &&& tally_total(u) + b.len() == tally_total(t) + a.len()
            &&& u.dups >= t.dups && u.spikes >= t.spikes && u.collinear >= t.collinear
            &&& b.len() < 3 || ring_clean(b)
            &&& b.len() == 2 ==> b[0] != b[1]
            &&& a.len() >= 1 ==> b.len() >= 1
        }),
{
    lemma_ring_passes(a, t);
}

/// A pass only adds to its tally.
proof fn lemma_pass_tally(a: Seq<Vertex>, i: int, t: Tally, changed: bool)
    ensures
        tally_le(t, ring_pass(a, i, t, changed).1),
    decreases a.len() - i,
{
    if a.len() >= 3 && 0 <= i < a.len() {
        if ring_bend(a, i) == Bend::Keep {
            lemma_pass_tally(a, i + 1, t, changed);
        } else {
            lemma_pass_tally(a.remove(i), i, tally_add(t, ring_bend(a, i)), true);
        }
    }
}

/// Passes only add to their tally.
proof fn lemma_passes_tally(a: Seq<Vertex>, t: Tally)
    ensures
        tally_le(t, ring_passes(a, t).1),
        tally_le(ring_pass(a, 0, t, false).1, ring_passes(a, t).1),
    decreases a.len(),
{
    lemma_pass_tally(a, 0, t, false);
    let (b, u, changed) = ring_pass(a, 0, t, false);
    if changed && b.len() >= 3 && b.len() < a.len() {
        lemma_passes_tally(b, u);
    }
}

/// Cleans a closed ring in place, stored without its closing vertex.
pub fn clean_cyclic(a: &mut Vec<Vertex>, st: &mut CleanStats)
    requires
        counts_fit(*old(st), ring_run(old(a)@, tally_none()).1),
    ensures
        final(a)@ == ring_run(old(a)@, tally_none()).0,
        *final(st) == counted(*old(st), ring_run(old(a)@, tally_none()).1),
        final(a)@.len() < 3 || ring_clean(final(a)@),
{
    let ghost start = a@;
    let ghost st0 = *st;
    let ghost mut t = tally_none();
    let ghost whole = ring_passes(start, t).1;
    proof {
        lemma_ring_run(start, t);
    }
    loop
        invariant
            counts_fit(st0, whole),
            whole == ring_passes(start, tally_none()).1,
            ring_passes(a@, t) == ring_passes(start, tally_none()),
            tally_total(t) + a@.len() == start.len(),
            *st == counted(st0, t),
        ensures
            ring_passes(start, tally_none()) == (a@, t),
            tally_total(t) + a@.len() == start.len(),
            *st == counted(st0, t),
        decreases a@.len(),
    {
        let ghost (round, round_t) = (a@, t);
        let mut changed: bool = false;
        let mut i: usize = 0;
        proof {
            lemma_passes_tally(round, round_t);
        }
        while a.len() >= 3 && i < a.len()
            invariant
                counts_fit(st0, whole),
                tally_le(ring_pass(round, 0, round_t, false).1, whole),
                ring_pass(a@, i as int, t, changed) == ring_pass(round, 0, round_t, false),
                tally_total(t) + a@.len() == start.len(),
                *st == counted(st0, t),
            decreases a@.len() - i,
        {
            proof {
                let kind = ring_bend(a@, i as int);
                lemma_pass_tally(a@.remove(i as int), i as int, tally_add(t, kind), true);
            }
            let n: usize = a.len();
            let p: Vertex = if i == 0 { a[n - 1] } else { a[i - 1] };
            let q: Vertex = a[i];
            let r: Vertex = if i + 1 == n { a[0] } else { a[i + 1] };
            if same_vertex(q, p) || same_vertex(q, r) {
                a.remove(i);
                st.dups = st.dups + 1;
                changed = true;
                proof {
                    t = tally_add(t, Bend::Duplicate);
                }
                continue;
            }
            match classify(p, q, r) {
                Bend::Spike => {
                    a.remove(i);
                    st.spikes = st.spikes + 1;
                    changed = true;
                    proof {
                        t = tally_add(t, Bend::Spike);
                    }
                },
                Bend::Collinear => {
                    a.remove(i);
                    st.collinear = st.collinear + 1;
                    changed = true;
                    proof {
                        t = tally_add(t, Bend::Collinear);
                    }
                },
                _ => {
                    i = i + 1;
                },
            }
        }
        proof {
            lemma_ring_pass(round, 0, round_t, false);
            assert(ring_pass(round, 0, round_t, false) == (a@, t, changed));
        }
        if !changed || a.len() < 3 {
            break;
        }
    }
    if a.len() == 2 && same_vertex(a[0], a[1]) {
        a.pop();
        st.dups = st.dups + 1;
    }
}

/// A closed arc's ring: without the last vertex, where that repeats the first.
pub open spec fn unclosed(a: Seq<Vertex>) -> Seq<Vertex> {
    if a.len() > 1 && a[0] == a.last() { a.drop_last() } else { a }
}

/// The cleanup of one arc: closed arcs (stored with first == last) are
/// cleaned cyclically, open arcs never lose their endpoints.
pub open spec fn clean_spec(a: Seq<Vertex>, closed: bool) -> (Seq<Vertex>, Tally) {
    if closed {
        let (b, t) = ring_run(unclosed(a), tally_none());
        (if b.len() > 1 { b.push(b[0]) } else { b }, t)
    } else {
        open_run(a, 1, tally_none())
    }
}

/// Remove quantization artifacts from one quantized arc, in place.
///
/// An interior vertex goes when it duplicates its predecessor, when the path
/// reverses over it along the same line (iterated, so multi-vertex spurs
/// unwind fully), or when it lies collinearly between its neighbours.
/// `closed` arcs are cleaned cyclically so artifacts at the arbitrary start
/// vertex are caught too.
pub fn clean_arc(a: &mut Vec<Vertex>, closed: bool, st: &mut CleanStats)
    requires
        counts_fit(*old(st), clean_spec(old(a)@, closed).1),
    ensures
        final(a)@ == clean_spec(old(a)@, closed).0,
        *final(st) == counted(*old(st), clean_spec(old(a)@, closed).1),
        old(a)@.len() > 0 ==> final(a)@.len() > 0,
        final(a)@.len() <= old(a)@.len() + 1,
{
    if closed {
        let ghost whole = a@;
        let n: usize = a.len();
        if n > 1 && same_vertex(a[0], a[n - 1]) {
            a.pop();
            assert(a@ =~= whole.drop_last());
        }
        proof {
            lemma_ring_run(a@, tally_none());
        }
        clean_cyclic(a, st);
        if a.len() > 1 {
            let first: Vertex = a[0];
            a.push(first);
        }
    } else {
        proof {
            if a@.len() > 0 {
                lemma_open_run(a@, 1, tally_none());
            }
        }
        clean_open(a, st);
    }
}

/// An open arc with nothing removable is left as it is.
proof fn lemma_open_fixed(a: Seq<Vertex>, i: int, t: Tally)
    requires
        open_clean(a, a.len() as int),
        1 <= i,
    ensures
        open_run(a, i, t) == (a, t),
    decreases a.len() - i,
{
    if i < a.len() {
        assert(open_bend(a, i) == Bend::Keep);
        if i + 1 < a.len() {
            lemma_open_fixed(a, i + 1, t);
        }
    }
}

/// A closed ring with nothing removable is left as it is.
proof fn lemma_ring_fixed(a: Seq<Vertex>, i: int, t: Tally)
    requires
        a.len() < 3 || ring_clean(a),
        0 <= i,
    ensures
        ring_pass(a, i, t, false) == (a, t, false),
    decreases a.len() - i,
{
    if a.len() >= 3 && i < a.len() {
        assert(ring_bend(a, i) == Bend::Keep);
        lemma_ring_fixed(a, i + 1, t);
    }
}

/// Cleaning an open arc keeps its two endpoints, which are junctions shared
/// with other arcs, and leaves no vertex that repeats its predecessor and no
/// interior vertex that is not a turn.
pub proof fn lemma_clean_open_arc(a: Seq<Vertex>)
    requires
        a.len() >= 1,
    ensures
        ({
            let b = clean_spec(a, false).0;
            &&& b.len() >= 1
            &&& b[0] == a[0]
            &&& b.last() == a.last()
            &&& open_clean(b, b.len() as int)
        }),
{
    lemma_open_run(a, 1, tally_none());
}

/// Cleaning a closed arc leaves a closed arc: its last vertex repeats its
/// first, and around it, the arbitrary start vertex included, every vertex is
/// a turn (or fewer than three are left).
pub proof fn lemma_clean_closed_arc(a: Seq<Vertex>)
    ensures
        ({
            let b = clean_spec(a, true).0;
            &&& b.len() > 1 ==> b[0] == b.last()
            &&& b.len() > 3 ==> ring_clean(b.drop_last())
        }),
{
    let open = unclosed(a);
    lemma_ring_run(open, tally_none());
    let r = ring_run(open, tally_none()).0;
    let b = clean_spec(a, true).0;
    if r.len() > 1 {
        assert(b.drop_last() =~= r);
    }
}

/// Cleaning is idempotent: a cleaned arc has nothing left to clean, whatever was
/// counted before, and no counter moves.
pub proof fn lemma_clean_idempotent(a: Seq<Vertex>, closed: bool, st: CleanStats)
    ensures
        ({
            let b = clean_spec(a, closed).0;
            &&& clean_spec(b, closed) == (b, tally_none())
            &&& counts_fit(st, clean_spec(b, closed).1)
            &&& counted(st, clean_spec(b, closed).1) == st
        }),
{
    let b = clean_spec(a, closed).0;
    let t = tally_none();
    if closed {
        let open = unclosed(a);
        lemma_ring_run(open, t);
        let r = ring_run(open, t).0;
        let again = unclosed(b);
        assert(again =~= r);
        lemma_ring_fixed(r, 0, t);
        assert(ring_passes(r, t) == (r, t));
    } else if a.len() >= 1 {
        lemma_open_run(a, 1, t);
        lemma_open_fixed(b, 1, t);
    }
}

/// The arcs as sequences.
pub open spec fn arcs_view(arcs: Seq<Vec<Vertex>>) -> Seq<Seq<Vertex>> {
    arcs.map_values(|arc: Vec<Vertex>| arc@)
}

/// Whether a ring's references name arcs, and its first names a non-empty
/// one.
pub open spec fn refs_valid(refs: Seq<u32>, arcs: Seq<Vec<Vertex>>) -> bool {
    &&& forall|i: int| 0 <= i < refs.len() ==> (#[trigger] refs[i] / 2) < arcs.len()
    &&& refs.len() > 0 ==> arcs[(refs[0] / 2) as int]@.len() > 0
}

/// Assemble one ring's quantized coords from its signed arc refs.
pub fn ring_coords_q(refs: &[u32], arcs: &[Vec<Vertex>]) -> (coords: Vec<Vertex>)
    requires
        refs_valid(refs@, arcs@),
    ensures
        coords@ == ring_of(refs@, arcs_view(arcs@)),
{
    let ghost view = arcs_view(arcs@);
    let mut coords: Vec<Vertex> = Vec::new();
    let mut i: usize = 0;
    while i < refs.len()
        invariant
            i <= refs@.len(),
            refs_valid(refs@, arcs@),
            view == arcs_view(arcs@),
            coords@ == stitched(refs@, view, i as int),
            i > 0 ==> coords@.len() > 0,
        decreases refs@.len() - i,
    {
        let r: u32 = refs[i];
        let arc = &arcs[(r / 2) as usize];
        let reversed: bool = r % 2 == 1;
        let n: usize = arc.len();
        let ghost walked = oriented(arc@, reversed);
        assert(view[(r / 2) as int] == arc@);
        let skip: usize = if coords.len() > 0 && n > 0 && same_vertex(
            coords[coords.len() - 1],
            if reversed { arc[n - 1] } else { arc[0] },
        ) {
            1
        } else {
            0
        };
        let ghost before = coords@;
        let mut k: usize = skip;
        while k < n
            invariant
                skip <= k <= n,
                n == arc@.len(),
                walked == oriented(arc@, reversed),
                coords@ =~= before + walked.subrange(skip as int, k as int),
            decreases n - k,
        {
            let v: Vertex = if reversed { arc[n - 1 - k] } else { arc[k] };
            assert(walked[k as int] == v);
            coords.push(v);
            k = k + 1;
        }
        assert(walked.subrange(skip as int, n as int) =~= if skip == 1 {
            walked.skip(1)
        } else {
            walked
        });
        assert(coords@ =~= append_spec(before, walked));
        i = i + 1;
    }
    let n: usize = coords.len();
    if n > 1 && same_vertex(coords[n - 1], coords[0]) {
        let ghost whole = coords@;
        coords.pop();
        assert(coords@ =~= whole.drop_last());
    }
    coords
}

/// Twice the signed area under the first `n` edges of a ring.
pub open spec fn area2(c: Seq<Vertex>, n: int) -> int
    decreases n,
{
    if n <= 0 {
        0
    } else {
        let (p, q) = (c[n - 1], ring_next(c, n - 1));
        area2(c, n - 1) + (p.0 * q.1 - q.0 * p.1)
    }
}

/// Twice the signed area that a ring encloses.
pub open spec fn ring_area2(c: Seq<Vertex>) -> int {
    area2(c, c.len() as int)
}

/// Whether a ring collapsed: fewer than three vertices, or area exactly zero.
pub open spec fn degenerate(c: Seq<Vertex>) -> bool {
    c.len() < 3 || ring_area2(c) == 0
}

/// Ring collapsed under quantization: fewer than 3 vertices, or shoelace area
/// exactly 0 (spur-only remnant). Exact for every coordinate.
pub fn ring_degenerate(c: &[Vertex]) -> (collapsed: bool)
    ensures
        collapsed == degenerate(c@),
{
    let n: usize = c.len();
    if n < 3 {
        return true;
    }
    let mut sum: i128 = 0;
    let mut i: usize = 0;
    while i < n
        invariant
            i <= n,
            n == c@.len(),
            sum == area2(c@, i as int),
            -0x8000_0000_0000_0000 * i <= sum <= 0x8000_0000_0000_0000 * i,
        decreases n - i,
    {
        let p: Vertex = c[i];
        let q: Vertex = if i + 1 == n { c[0] } else { c[i + 1] };
        proof {
            lemma_term(p.0 as int, q.1 as int);
            lemma_term(q.0 as int, p.1 as int);
        }
        let term: i128 = p.0 as i128 * q.1 as i128 - q.0 as i128 * p.1 as i128;
        sum = sum + term;
        i = i + 1;
    }
    sum == 0
}

/// A product of two coordinates stays within 2^62.
proof fn lemma_term(u: int, v: int)
    requires
        -0x8000_0000 <= u <= 0x7FFF_FFFF,
        -0x8000_0000 <= v <= 0x7FFF_FFFF,
    ensures
        -0x4000_0000_0000_0000 <= u * v <= 0x4000_0000_0000_0000,
{
    assert(-0x4000_0000_0000_0000 <= u * v <= 0x4000_0000_0000_0000) by (nonlinear_arith)
        requires
            -0x8000_0000 <= u <= 0x8000_0000,
            -0x8000_0000 <= v <= 0x8000_0000,
    ;
}

/// Whether `kept` holds vertices of `a`, in their order: those at the indices
/// `at`.
pub open spec fn picks(kept: Seq<Vertex>, a: Seq<Vertex>, at: Seq<int>) -> bool {
    &&& at.len() == kept.len()
    &&& forall|k: int|
        0 <= k < kept.len() ==> 0 <= #[trigger] at[k] < a.len() && kept[k] == a[at[k]]
    &&& forall|k: int, l: int| 0 <= k < l < at.len() ==> #[trigger] at[k] < #[trigger] at[l]
}

/// Whether `kept` is what is left of `a` when vertices are removed.
pub open spec fn subsequence(kept: Seq<Vertex>, a: Seq<Vertex>) -> bool {
    exists|at: Seq<int>| picks(kept, a, at)
}

proof fn lemma_subsequence_itself(a: Seq<Vertex>)
    ensures
        subsequence(a, a),
{
    assert(picks(a, a, Seq::new(a.len(), |k: int| k)));
}

proof fn lemma_subsequence_remove(kept: Seq<Vertex>, a: Seq<Vertex>, i: int)
    requires
        0 <= i < a.len(),
        subsequence(kept, a.remove(i)),
    ensures
        subsequence(kept, a),
{
    let at = choose|at: Seq<int>| picks(kept, a.remove(i), at);
    let wide = Seq::new(
        at.len(),
        |k: int| if at[k] < i { at[k] } else { at[k] + 1 },
    );
    assert forall|k: int| 0 <= k < kept.len() implies 0 <= #[trigger] wide[k] < a.len() && kept[k]
        == a[wide[k]] by {
        assert(0 <= at[k] < a.remove(i).len() && kept[k] == a.remove(i)[at[k]]);
    }
    assert forall|k: int, l: int| 0 <= k < l < wide.len() implies #[trigger] wide[k]
        < #[trigger] wide[l] by {
        assert(at[k] < at[l]);
    }
    assert(picks(kept, a, wide));
}

proof fn lemma_open_run_removes(a: Seq<Vertex>, i: int, t: Tally)
    requires
        1 <= i,
    ensures
        subsequence(open_run(a, i, t).0, a),
    decreases 2 * a.len() - i,
{
    if !(i < a.len()) || (open_bend(a, i) == Bend::Keep && i + 1 == a.len()) {
        lemma_subsequence_itself(a);
    } else if open_bend(a, i) == Bend::Keep {
        lemma_open_run_removes(a, i + 1, t);
    } else {
        lemma_open_run_removes(a.remove(i), step_back(i), tally_add(t, open_bend(a, i)));
        lemma_subsequence_remove(open_run(a, i, t).0, a, i);
    }
}

proof fn lemma_ring_pass_removes(
    a: Seq<Vertex>,
    i: int,
    t: Tally,
    changed: bool,
    kept: Seq<Vertex>,
)
    requires
        0 <= i,
        subsequence(kept, ring_pass(a, i, t, changed).0),
    ensures
        subsequence(kept, a),
    decreases a.len() - i,
{
    if a.len() >= 3 && i < a.len() {
        if ring_bend(a, i) == Bend::Keep {
            lemma_ring_pass_removes(a, i + 1, t, changed, kept);
        } else {
            let u = tally_add(t, ring_bend(a, i));
            lemma_ring_pass_removes(a.remove(i), i, u, true, kept);
            lemma_subsequence_remove(kept, a, i);
        }
    }
}

proof fn lemma_ring_passes_remove(a: Seq<Vertex>, t: Tally, kept: Seq<Vertex>)
    requires
        subsequence(kept, ring_passes(a, t).0),
    ensures
        subsequence(kept, a),
    decreases a.len(),
{
    let (b, u, changed) = ring_pass(a, 0, t, false);
    if changed && b.len() >= 3 && b.len() < a.len() {
        lemma_ring_passes_remove(b, u, kept);
    }
    lemma_ring_pass_removes(a, 0, t, false, kept);
}

/// Cleaning only removes: what is left of an open arc, or of the ring of a
/// closed one, are vertices it had, in the order it had them. Nothing moves and
/// nothing is added.
pub proof fn lemma_cleaning_only_removes(a: Seq<Vertex>, closed: bool)
    ensures
        ({
            let b = clean_spec(a, closed).0;
            if closed {
                subsequence(unclosed(b), unclosed(a))
            } else {
                subsequence(b, a)
            }
        }),
{
    let t = tally_none();
    if closed {
        let ring = unclosed(a);
        let passed = ring_passes(ring, t).0;
        let kept = ring_run(ring, t).0;
        lemma_subsequence_itself(kept);
        if passed.len() == 2 && passed[0] == passed[1] {
            assert(kept =~= passed.remove(1));
            lemma_subsequence_remove(kept, passed, 1);
        }
        lemma_ring_passes_remove(ring, t, kept);
        assert(unclosed(clean_spec(a, true).0) =~= kept);
    } else {
        lemma_open_run_removes(a, 1, t);
    }
}

/// Twice the signed area that one edge adds.
spec fn edge_area2(p: Vertex, q: Vertex) -> int {
    p.0 * q.1 - q.0 * p.1
}

/// A vertex that is no turn adds no area: the edge past it sweeps what the two
/// edges through it did.
proof fn lemma_no_turn_no_area(p: Vertex, q: Vertex, r: Vertex)
    requires
        q == p || q == r || bend(p, q, r) != Bend::Keep,
    ensures
        edge_area2(p, r) == edge_area2(p, q) + edge_area2(q, r),
{
    let (px, py) = (p.0 as int, p.1 as int);
    let (qx, qy) = (q.0 as int, q.1 as int);
    let (rx, ry) = (r.0 as int, r.1 as int);
    if q == p || q == r {
        assert(qx * qy - qx * qy == 0);
    } else {
        assert((qx - px) * (ry - qy) == qx * ry - qx * qy - px * ry + px * qy)
            by (nonlinear_arith);
        assert((qy - py) * (rx - qx) == rx * qy - qx * qy - rx * py + qx * py)
            by (nonlinear_arith);
    }
}

/// The edges in front of a removed vertex stay.
proof fn lemma_area_in_front(a: Seq<Vertex>, i: int, k: int)
    requires
        0 <= k < i < a.len(),
    ensures
        area2(a.remove(i), k) == area2(a, k),
    decreases k,
{
    if k > 0 {
        lemma_area_in_front(a, i, k - 1);
    }
}

/// The edges behind a removed vertex stay, one index down; with the closing
/// edge left out.
proof fn lemma_area_behind(a: Seq<Vertex>, i: int, from: int, k: int)
    requires
        0 <= i <= from <= k < a.len() - 1,
    ensures
        area2(a.remove(i), k) - area2(a.remove(i), from) == area2(a, k + 1) - area2(a, from + 1),
    decreases k,
{
    if k > from {
        lemma_area_behind(a, i, from, k - 1);
    }
}

/// Removing a vertex that is no turn keeps the area of the ring.
proof fn lemma_area_remove(a: Seq<Vertex>, i: int)
    requires
        0 <= i < a.len(),
        a.len() >= 2,
        ring_bend(a, i) != Bend::Keep,
    ensures
        area2(a.remove(i), a.len() - 1) == area2(a, a.len() as int),
{
    let n = a.len() as int;
    let c = a.remove(i);
    lemma_no_turn_no_area(ring_prev(a, i), a[i], ring_next(a, i));
    if i == 0 {
        // the closing edge ends at the second vertex now
        if n >= 3 {
            lemma_area_behind(a, 0, 0, n - 2);
            assert(area2(c, 0) == 0);
            assert(area2(a, 1) == area2(a, 0) + edge_area2(a[0], a[1]));
            assert(c[n - 2] == a[n - 1]);
            assert(ring_next(c, n - 2) == a[1]);
            assert(area2(c, n - 1) == area2(c, n - 2) + edge_area2(a[n - 1], a[1]));
            assert(area2(a, n) == area2(a, n - 1) + edge_area2(a[n - 1], a[0]));
        } else {
            reveal_with_fuel(area2, 3);
        }
    } else {
        lemma_area_in_front(a, i, i - 1);
        assert(area2(c, i) == area2(c, i - 1) + edge_area2(a[i - 1], ring_next(a, i)));
        assert(area2(a, i) == area2(a, i - 1) + edge_area2(a[i - 1], a[i]));
        assert(area2(a, i + 1) == area2(a, i) + edge_area2(a[i], ring_next(a, i)));
        if i < n - 1 {
            lemma_area_behind(a, i, i, n - 2);
            assert(area2(c, n - 1) == area2(c, n - 2) + edge_area2(c[n - 2], c[0]));
            assert(area2(a, n) == area2(a, n - 1) + edge_area2(a[n - 1], a[0]));
        }
    }
}

proof fn lemma_open_run_area(a: Seq<Vertex>, i: int, t: Tally)
    requires
        1 <= i,
    ensures
        ring_area2(open_run(a, i, t).0) == ring_area2(a),
    decreases 2 * a.len() - i,
{
    if i < a.len() {
        if open_bend(a, i) != Bend::Keep {
            lemma_area_remove(a, i);
            lemma_open_run_area(a.remove(i), step_back(i), tally_add(t, open_bend(a, i)));
        } else if i + 1 < a.len() {
            lemma_open_run_area(a, i + 1, t);
        }
    }
}

proof fn lemma_ring_pass_area(a: Seq<Vertex>, i: int, t: Tally, changed: bool)
    requires
        0 <= i,
    ensures
        ring_area2(ring_pass(a, i, t, changed).0) == ring_area2(a),
    decreases a.len() - i,
{
    if a.len() >= 3 && i < a.len() {
        if ring_bend(a, i) == Bend::Keep {
            lemma_ring_pass_area(a, i + 1, t, changed);
        } else {
            lemma_area_remove(a, i);
            lemma_ring_pass_area(a.remove(i), i, tally_add(t, ring_bend(a, i)), true);
        }
    }
}

proof fn lemma_ring_passes_area(a: Seq<Vertex>, t: Tally)
    ensures
        ring_area2(ring_passes(a, t).0) == ring_area2(a),
    decreases a.len(),
{
    lemma_ring_pass_area(a, 0, t, false);
    let (b, u, changed) = ring_pass(a, 0, t, false);
    if changed && b.len() >= 3 && b.len() < a.len() {
        lemma_ring_passes_area(b, u);
    }
}

/// A closing vertex that repeats the first adds no area.
proof fn lemma_closing_area(a: Seq<Vertex>)
    ensures
        ring_area2(unclosed(a)) == ring_area2(a),
{
    if a.len() > 1 && a[0] == a.last() {
        assert(ring_bend(a, a.len() - 1) != Bend::Keep);
        assert(a.drop_last() =~= a.remove(a.len() - 1));
        lemma_area_remove(a, a.len() - 1);
    }
}

/// Cleaning keeps the area: repeats, spikes and pass-through vertices enclose
/// none. So it holds of a closed arc's ring, and of what an open arc encloses
/// with the line between its ends.
pub proof fn lemma_cleaning_keeps_the_area(a: Seq<Vertex>, closed: bool)
    ensures
        ring_area2(clean_spec(a, closed).0) == ring_area2(a),
{
    let t = tally_none();
    if closed {
        let ring = unclosed(a);
        let passed = ring_passes(ring, t).0;
        let kept = ring_run(ring, t).0;
        lemma_closing_area(a);
        lemma_ring_passes_area(ring, t);
        if passed.len() == 2 && passed[0] == passed[1] {
            assert(kept =~= passed.remove(1));
            lemma_area_remove(passed, 1);
        }
        let b = clean_spec(a, true).0;
        assert(unclosed(b) =~= kept);
        lemma_closing_area(b);
    } else {
        lemma_open_run_area(a, 1, t);
    }
}

/// A ring of three vertices or more is without area after cleaning exactly where
/// it was before.
pub proof fn lemma_cleaning_keeps_degenerate(a: Seq<Vertex>)
    requires
        unclosed(a).len() >= 3,
    ensures
        degenerate(unclosed(clean_spec(a, true).0)) == degenerate(unclosed(a)),
{
    let b = clean_spec(a, true).0;
    lemma_cleaning_keeps_the_area(a, true);
    lemma_closing_area(a);
    lemma_closing_area(b);
    if unclosed(b).len() < 3 {
        reveal_with_fuel(area2, 3);
    }
}

/// Whether a path turns at `q`, coming from `p` and going on to `r`: the steps
/// are not parallel. A vertex that repeats a neighbour is no turn.
pub open spec fn turns(p: Vertex, q: Vertex, r: Vertex) -> bool {
    (q.0 - p.0) * (r.1 - q.1) - (q.1 - p.1) * (r.0 - q.0) != 0
}

/// Whether a vertex repeats a neighbour.
pub open spec fn repeats(p: Vertex, q: Vertex, r: Vertex) -> bool {
    q == p || q == r
}

/// Whether a path goes back the way it came: its steps are opposed.
pub open spec fn goes_back(p: Vertex, q: Vertex, r: Vertex) -> bool {
    (q.0 - p.0) * (r.0 - q.0) + (q.1 - p.1) * (r.1 - q.1) < 0
}

/// Whether a count rises by one artifact: a repeated vertex, a spike where the
/// path goes back along its line, or else a vertex it passes straight through.
pub open spec fn one_more(t: Tally, u: Tally, p: Vertex, q: Vertex, r: Vertex) -> bool {
    if repeats(p, q, r) {
        u.dups == t.dups + 1 && u.spikes == t.spikes && u.collinear == t.collinear
    } else if goes_back(p, q, r) {
        u.dups == t.dups && u.spikes == t.spikes + 1 && u.collinear == t.collinear
    } else {
        u.dups == t.dups && u.spikes == t.spikes && u.collinear == t.collinear + 1
    }
}

pub proof fn lemma_bend_means(p: Vertex, q: Vertex, r: Vertex)
    ensures
        (bend(p, q, r) == Bend::Keep) == turns(p, q, r),
        turns(p, q, r) ==> !repeats(p, q, r),
        bend(p, q, r) != Bend::Duplicate,
        !turns(p, q, r) ==> (bend(p, q, r) == Bend::Spike) == goes_back(p, q, r),
{
    let (ax, ay) = (q.0 - p.0, q.1 - p.1);
    let (bx, by) = (r.0 - q.0, r.1 - q.1);
    if q == p {
        assert(0 * by - 0 * bx == 0) by (nonlinear_arith);
    }
    if q == r {
        assert(ax * 0 - ay * 0 == 0) by (nonlinear_arith);
    }
}

/// A cleaned open arc turns at every interior vertex, and no vertex of it repeats
/// the one before.
pub proof fn lemma_cleaned_arcs_turn(a: Seq<Vertex>)
    requires
        a.len() >= 1,
    ensures
        ({
            let b = clean_spec(a, false).0;
            &&& forall|i: int|
                1 <= i < b.len() - 1 ==> turns(b[i - 1], #[trigger] b[i], b[i + 1])
            &&& forall|i: int| 1 <= i < b.len() ==> #[trigger] b[i] != b[i - 1]
        }),
{
    lemma_open_run(a, 1, tally_none());
    let b = clean_spec(a, false).0;
    assert forall|i: int| 1 <= i < b.len() - 1 implies turns(b[i - 1], #[trigger] b[i], b[i + 1]) by {
        assert(open_bend(b, i) == Bend::Keep);
        lemma_bend_means(b[i - 1], b[i], b[i + 1]);
    }
    assert forall|i: int| 1 <= i < b.len() implies #[trigger] b[i] != b[i - 1] by {
        assert(open_bend(b, i) == Bend::Keep);
    }
}

/// A cleaned closed arc of three or more vertices turns at every one of them, its
/// arbitrary start included.
pub proof fn lemma_cleaned_rings_turn(a: Seq<Vertex>)
    ensures
        ({
            let b = clean_spec(a, true).0;
            &&& b.len() > 1 ==> b.last() == b[0]
            &&& b.len() > 3 ==> turns(b[b.len() - 2], b[0], b[1])
            &&& b.len() > 3 ==> forall|i: int|
                1 <= i < b.len() - 1 ==> turns(b[i - 1], #[trigger] b[i], b[i + 1])
        }),
{
    lemma_clean_closed_arc(a);
    let b = clean_spec(a, true).0;
    if b.len() > 3 {
        let ring = b.drop_last();
        assert forall|i: int| 0 <= i < ring.len() implies turns(
            ring_prev(ring, i),
            #[trigger] ring[i],
            ring_next(ring, i),
        ) by {
            assert(ring_bend(ring, i) == Bend::Keep);
            lemma_bend_means(ring_prev(ring, i), ring[i], ring_next(ring, i));
        }
        assert(ring[0] == b[0]);
        assert forall|i: int| 1 <= i < b.len() - 1 implies turns(
            b[i - 1],
            #[trigger] b[i],
            b[i + 1],
        ) by {
            assert(ring[i] == b[i]);
        }
    }
}

/// An open arc that turns at every interior vertex, and whose last vertex does not
/// repeat the one before, is left as it is.
pub proof fn lemma_turning_arcs_stay(a: Seq<Vertex>)
    requires
        forall|i: int| 1 <= i < a.len() - 1 ==> turns(a[i - 1], #[trigger] a[i], a[i + 1]),
        a.len() >= 2 ==> a[a.len() - 1] != a[a.len() - 2],
    ensures
        clean_spec(a, false).0 == a,
        clean_spec(a, false).1 == tally_none(),
{
    assert forall|i: int| 1 <= i < a.len() implies #[trigger] open_bend(a, i) == Bend::Keep by {
        if i < a.len() - 1 {
            assert(turns(a[i - 1], a[i], a[i + 1]));
            lemma_bend_means(a[i - 1], a[i], a[i + 1]);
        }
    }
    lemma_open_fixed(a, 1, tally_none());
}

/// A ring that turns at every vertex is left as it is.
pub proof fn lemma_turning_rings_stay(a: Seq<Vertex>)
    requires
        a.len() > 3,
        a.last() == a[0],
        turns(a[a.len() - 2], a[0], a[1]),
        forall|i: int| 1 <= i < a.len() - 1 ==> turns(a[i - 1], #[trigger] a[i], a[i + 1]),
    ensures
        clean_spec(a, true).0 == a,
        clean_spec(a, true).1 == tally_none(),
{
    let ring = a.drop_last();
    assert forall|i: int| 0 <= i < ring.len() implies #[trigger] ring_bend(ring, i) == Bend::Keep by {
        if i > 0 {
            assert(turns(a[i - 1], a[i], a[i + 1]));
        }
        lemma_bend_means(ring_prev(ring, i), ring[i], ring_next(ring, i));
    }
    lemma_ring_fixed(ring, 0, tally_none());
    assert(ring.push(ring[0]) =~= a);
}

/// Where a cleanup starts counting makes no difference to what it finds.
proof fn lemma_open_tally_shifts(a: Seq<Vertex>, i: int, t: Tally)
    ensures
        open_run(a, i, t).0 == open_run(a, i, tally_none()).0,
        open_run(a, i, t).1.dups == t.dups + open_run(a, i, tally_none()).1.dups,
        open_run(a, i, t).1.spikes == t.spikes + open_run(a, i, tally_none()).1.spikes,
        open_run(a, i, t).1.collinear == t.collinear + open_run(a, i, tally_none()).1.collinear,
    decreases 2 * a.len() - i,
{
    if 1 <= i < a.len() {
        if open_bend(a, i) != Bend::Keep {
            let c = a.remove(i);
            lemma_open_tally_shifts(c, step_back(i), tally_add(t, open_bend(a, i)));
            lemma_open_tally_shifts(c, step_back(i), tally_add(tally_none(), open_bend(a, i)));
        } else if i + 1 < a.len() {
            lemma_open_tally_shifts(a, i + 1, t);
        }
    }
}

/// A cleanup passes over settled vertices.
proof fn lemma_open_skips(a: Seq<Vertex>, i: int, j: int, t: Tally)
    requires
        1 <= i <= j,
        forall|k: int| i <= k < j ==> #[trigger] settled(a, k),
    ensures
        open_run(a, i, t) == open_run(a, j, t),
    decreases j - i,
{
    if i < j {
        assert(settled(a, i));
        lemma_open_skips(a, i + 1, j, t);
    }
}

/// The first vertex of an open arc that is no turn goes, whatever the direction
/// of the line it lies on: cleaning the arc is cleaning it without that vertex,
/// and one more artifact of its kind is counted.
pub proof fn lemma_first_artifact_goes(a: Seq<Vertex>, i: int)
    requires
        1 <= i < a.len() - 1,
        forall|k: int| 1 <= k < i ==> turns(a[k - 1], #[trigger] a[k], a[k + 1]),
        !turns(a[i - 1], a[i], a[i + 1]),
    ensures
        clean_spec(a, false).0 == clean_spec(a.remove(i), false).0,
        one_more(
            clean_spec(a.remove(i), false).1,
            clean_spec(a, false).1,
            a[i - 1],
            a[i],
            a[i + 1],
        ),
{
    let t = tally_none();
    let c = a.remove(i);
    assert forall|k: int| 1 <= k < i implies #[trigger] settled(a, k) by {
        assert(turns(a[k - 1], a[k], a[k + 1]));
        lemma_bend_means(a[k - 1], a[k], a[k + 1]);
    }
    lemma_bend_means(a[i - 1], a[i], a[i + 1]);
    lemma_open_skips(a, 1, i, t);
    let j = step_back(i);
    assert forall|k: int| 1 <= k < j implies #[trigger] settled(c, k) by {
        assert(settled(a, k));
    }
    lemma_open_skips(c, 1, j, t);
    lemma_open_tally_shifts(c, j, tally_add(t, open_bend(a, i)));
}

/// A last vertex that repeats the one before it goes, where all between turn.
pub proof fn lemma_repeated_end_goes(a: Seq<Vertex>)
    requires
        a.len() >= 2,
        forall|k: int| 1 <= k < a.len() - 2 ==> turns(a[k - 1], #[trigger] a[k], a[k + 1]),
        a[a.len() - 1] == a[a.len() - 2],
    ensures
        clean_spec(a, false).0 == clean_spec(a.drop_last(), false).0,
        clean_spec(a, false).1.dups == clean_spec(a.drop_last(), false).1.dups + 1,
        clean_spec(a, false).1.spikes == clean_spec(a.drop_last(), false).1.spikes,
        clean_spec(a, false).1.collinear == clean_spec(a.drop_last(), false).1.collinear,
{
    let n = a.len() as int;
    if n > 2 {
        let (p, q) = (a[n - 3], a[n - 2]);
        assert((q.0 - p.0) * 0 - (q.1 - p.1) * 0 == 0) by (nonlinear_arith);
        lemma_first_artifact_goes(a, n - 2);
        assert(a.remove(n - 2) =~= a.drop_last());
    } else {
        let c = a.remove(1);
        assert(c =~= a.drop_last());
        reveal_with_fuel(open_run, 3);
    }
}

/// Where a pass starts counting makes no difference to what it finds, and every
/// vertex that turns is passed over.
proof fn lemma_pass_skips(a: Seq<Vertex>, i: int, j: int, t: Tally, changed: bool)
    requires
        0 <= i <= j <= a.len(),
        a.len() >= 3,
        forall|k: int| i <= k < j ==> #[trigger] ring_bend(a, k) == Bend::Keep,
    ensures
        ring_pass(a, i, t, changed) == ring_pass(a, j, t, changed),
    decreases j - i,
{
    if i < j {
        assert(ring_bend(a, i) == Bend::Keep);
        lemma_pass_skips(a, i + 1, j, t, changed);
    }
}

/// The only vertex of a ring that is no turn goes, and is counted by its kind,
/// where the rest turns without it.
pub proof fn lemma_only_artifact_goes(a: Seq<Vertex>, i: int)
    requires
        a.len() >= 4,
        0 <= i < a.len(),
        forall|k: int| 0 <= k < i ==> turns(ring_prev(a, k), #[trigger] a[k], ring_next(a, k)),
        !turns(ring_prev(a, i), a[i], ring_next(a, i)),
        forall|k: int|
            0 <= k < a.len() - 1 ==> turns(
                ring_prev(a.remove(i), k),
                #[trigger] a.remove(i)[k],
                ring_next(a.remove(i), k),
            ),
    ensures
        clean_spec(a.push(a[0]), true).0 == a.remove(i).push(a.remove(i)[0]),
        one_more(
            tally_none(),
            clean_spec(a.push(a[0]), true).1,
            ring_prev(a, i),
            a[i],
            ring_next(a, i),
        ),
{
    let t = tally_none();
    let c = a.remove(i);
    assert(a.push(a[0]).drop_last() =~= a);
    assert forall|k: int| 0 <= k < i implies #[trigger] ring_bend(a, k) == Bend::Keep by {
        assert(turns(ring_prev(a, k), a[k], ring_next(a, k)));
        lemma_bend_means(ring_prev(a, k), a[k], ring_next(a, k));
    }
    assert forall|k: int| 0 <= k < c.len() implies #[trigger] ring_bend(c, k) == Bend::Keep by {
        assert(turns(ring_prev(c, k), c[k], ring_next(c, k)));
        lemma_bend_means(ring_prev(c, k), c[k], ring_next(c, k));
    }
    lemma_bend_means(ring_prev(a, i), a[i], ring_next(a, i));
    let u = tally_add(t, ring_bend(a, i));
    lemma_pass_skips(a, 0, i, t, false);
    lemma_pass_skips(c, i, c.len() as int, u, true);
    assert(ring_pass(a, 0, t, false) == (c, u, true));
    lemma_ring_fixed(c, 0, u);
    assert(ring_passes(c, u) == (c, u));
}

} // verus!
