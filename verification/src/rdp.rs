//! Ramer-Douglas-Peucker over an open polyline. How far a point lies off a
//! chord, in units of its own tolerance, is asked of the caller; the search for
//! the farthest point, the splitting and the selection are here.

use vstd::prelude::*;

use crate::select::{
    drawn_through, embeds, kept_indices, kept_points, lemma_ends_are_kept, lemma_selection_embeds,
    lemma_selection_is_drawn, lemma_selection_is_exact, select,
};
use crate::topology::Bits;

verus! {

/// The bit pattern of the double infinity: the patterns up to it are the
/// doubles from zero on, in their order.
pub const DOUBLE_INFINITY: u64 = 0x7FF0_0000_0000_0000;

/// The bit pattern of 1: a point within its tolerance measures no more.
pub const WITHIN: u64 = 0x3FF0_0000_0000_0000;

/// Whether a double, given by its bits, is zero or negative.
pub open spec fn at_most_zero(bits: u64) -> bool {
    bits == 0 || 0x8000_0000_0000_0000 <= bits <= 0xFFF0_0000_0000_0000
}

/// Whether a simplifier leaves a line of `n` points as it is: there is nothing
/// to drop, or its knob, the bits of a double, allows nothing.
pub fn keeps_all(n: usize, knob: u64) -> (all: bool)
    ensures
        all == (n < 3 || at_most_zero(knob)),
{
    n < 3 || knob == 0 || (0x8000_0000_0000_0000 <= knob && knob <= 0xFFF0_0000_0000_0000)
}

/// Whether the caller's measures can be relied on: any point strictly inside a
/// span of the line may be asked about, and the same question has one answer.
pub open spec fn measures<F: Fn(usize, usize, usize) -> u64>(off: F, n: int) -> bool {
    &&& forall|a: usize, i: usize, b: usize| a < i < b < n ==> call_requires(off, (a, i, b))
    &&& forall|a: usize, i: usize, b: usize, x: u64, y: u64|
        #![trigger call_ensures(off, (a, i, b), x), call_ensures(off, (a, i, b), y)]
        call_ensures(off, (a, i, b), x) && call_ensures(off, (a, i, b), y) ==> x == y
}

/// The caller's measure of a point off a chord.
pub open spec fn measured<F: Fn(usize, usize, usize) -> u64>(
    off: F,
    a: usize,
    i: usize,
    b: usize,
) -> u64 {
    choose|x: u64| call_ensures(off, (a, i, b), x)
}

/// How far a point lies off the chord of a span, as the caller measures it. What
/// is not a number, or a negative one, counts as nothing.
pub open spec fn reach<F: Fn(usize, usize, usize) -> u64>(off: F, a: int, i: int, b: int) -> int {
    let bits = measured(off, a as usize, i as usize, b as usize);
    if bits <= DOUBLE_INFINITY {
        bits as int
    } else {
        0
    }
}

/// Whether a span is split at `m`: it lies too far off the chord, no point lies
/// farther off, and none before it as far.
pub open spec fn splits<F: Fn(usize, usize, usize) -> u64>(off: F, a: int, b: int, m: int) -> bool {
    &&& a < m < b
    &&& reach(off, a, m, b) > WITHIN
    &&& forall|i: int| a < i < b ==> #[trigger] reach(off, a, i, b) <= reach(off, a, m, b)
    &&& forall|i: int| a < i < m ==> #[trigger] reach(off, a, i, b) < reach(off, a, m, b)
}

/// Whether no point of a span lies too far off its chord.
pub open spec fn close<F: Fn(usize, usize, usize) -> u64>(off: F, a: int, b: int) -> bool {
    forall|i: int| a < i < b ==> #[trigger] reach(off, a, i, b) <= WITHIN
}

/// Whether a point strictly inside a span is kept: it is where the span is
/// split, or is kept in the half it lies in.
pub open spec fn kept_inside<F: Fn(usize, usize, usize) -> u64>(
    off: F,
    a: int,
    b: int,
    i: int,
) -> bool
    decreases b - a,
{
    if !(a < i < b) || !(exists|m: int| splits(off, a, b, m)) {
        false
    } else {
        let m = choose|m: int| splits(off, a, b, m);
        if !(a < m < b) || i == m {
            true
        } else if i < m {
            kept_inside(off, a, m, i)
        } else {
            kept_inside(off, m, b, i)
        }
    }
}

/// Which of `n` points are kept: both ends, and what is kept between them.
pub open spec fn kept<F: Fn(usize, usize, usize) -> u64>(off: F, n: int) -> Seq<bool> {
    Seq::new(n as nat, |i: int| i == 0 || i == n - 1 || kept_inside(off, 0, n - 1, i))
}

/// Whether `a` and `b` are neighbours among the kept points.
pub open spec fn kept_neighbours(keep: Seq<bool>, a: int, b: int) -> bool {
    0 <= a < b < keep.len() && keep[a] && keep[b] && forall|i: int| a < i < b ==> !#[trigger] keep[i]
}

/// Whether nothing between two neighbouring kept points of a span lies too far
/// off their chord.
pub open spec fn within_tolerance<F: Fn(usize, usize, usize) -> u64>(
    off: F,
    keep: Seq<bool>,
    lo: int,
    hi: int,
) -> bool {
    forall|x: int, y: int|
        lo <= x && y <= hi && #[trigger] kept_neighbours(keep, x, y) ==> close(off, x, y)
}

/// Measures a point off a chord.
fn measure<F: Fn(usize, usize, usize) -> u64>(off: &F, a: usize, i: usize, b: usize) -> (r: u64)
    requires
        call_requires(*off, (a, i, b)),
        forall|x: u64, y: u64|
            #![trigger call_ensures(*off, (a, i, b), x), call_ensures(*off, (a, i, b), y)]
            call_ensures(*off, (a, i, b), x) && call_ensures(*off, (a, i, b), y) ==> x == y,
    ensures
        r == reach(*off, a as int, i as int, b as int),
{
    let bits: u64 = off(a, i, b);
    assert(call_ensures(*off, (a, i, b), bits));
    if bits <= DOUBLE_INFINITY {
        bits
    } else {
        0
    }
}

/// Where a span is split, `None` if every point of it is close to its chord.
fn farthest<F: Fn(usize, usize, usize) -> u64>(off: &F, a: usize, b: usize, n: usize) -> (m: Option<
    usize,
>)
    requires
        measures(*off, n as int),
        a < b < n,
    ensures
        match m {
            Some(m) => splits(*off, a as int, b as int, m as int),
            None => close(*off, a as int, b as int),
        },
{
    let mut at: usize = a;
    let mut most: u64 = 0;
    let mut i: usize = a + 1;
    while i < b
        invariant
            measures(*off, n as int),
            a < i <= b < n,
            a <= at < i,
            at == a ==> most == 0,
            at > a ==> most == reach(*off, a as int, at as int, b as int),
            forall|k: int| a < k < i ==> #[trigger] reach(*off, a as int, k, b as int) <= most,
            forall|k: int| a < k < at ==> #[trigger] reach(*off, a as int, k, b as int) < most,
        decreases b - i,
    {
        let r: u64 = measure(off, a, i, b);
        if r > most {
            most = r;
            at = i;
        }
        i = i + 1;
    }
    if most > WITHIN {
        Some(at)
    } else {
        None
    }
}

/// A span is split at one point only, and only if it is not close.
proof fn lemma_split<F: Fn(usize, usize, usize) -> u64>(off: F, a: int, b: int, m: int)
    requires
        splits(off, a, b, m),
    ensures
        (choose|m: int| splits(off, a, b, m)) == m,
{
    let c = choose|m: int| splits(off, a, b, m);
    assert(splits(off, a, b, c));
    assert(reach(off, a, c, b) <= reach(off, a, m, b));
    assert(reach(off, a, m, b) <= reach(off, a, c, b));
}

/// Marks the kept points strictly inside a span.
fn keep_inside<F: Fn(usize, usize, usize) -> u64>(off: &F, a: usize, b: usize, keep: &mut Vec<bool>)
    requires
        measures(*off, old(keep)@.len() as int),
        a < b < old(keep)@.len(),
        forall|i: int| a < i < b ==> !#[trigger] old(keep)@[i],
        old(keep)@[a as int],
        old(keep)@[b as int],
    ensures
        final(keep)@.len() == old(keep)@.len(),
        forall|i: int|
            0 <= i < old(keep)@.len() ==> #[trigger] final(keep)@[i] == if a < i < b {
                kept_inside(*off, a as int, b as int, i)
            } else {
                old(keep)@[i]
            },
    decreases b - a,
{
    let n: usize = keep.len();
    match farthest(off, a, b, n) {
        Some(m) => {
            proof {
                lemma_split(*off, a as int, b as int, m as int);
            }
            keep.set(m, true);
            let ghost marked = keep@;
            keep_inside(off, a, m, keep);
            let ghost left = keep@;
            assert forall|i: int| m < i < b implies !#[trigger] keep@[i] by {
                assert(left[i] == marked[i]);
                assert(marked[i] == old(keep)@[i]);
            }
            keep_inside(off, m, b, keep);
            proof {
                assert forall|i: int| 0 <= i < old(keep)@.len() implies #[trigger] keep@[i] == if a
                    < i < b {
                    kept_inside(*off, a as int, b as int, i)
                } else {
                    old(keep)@[i]
                } by {
                    assert(left[i] == if a < i < m {
                        kept_inside(*off, a as int, m as int, i)
                    } else {
                        marked[i]
                    });
                }
            }
        },
        None => {
            proof {
                assert forall|m: int| !splits(*off, a as int, b as int, m) by {
                    if a < m < b {
                        assert(reach(*off, a as int, m, b as int) <= WITHIN);
                    }
                }
            }
        },
    }
}

/// The points that Ramer-Douglas-Peucker keeps of a line of `n` points: both
/// ends, and inside a span the point farthest off its chord, if that is too far,
/// together with what its two halves keep. Between two neighbouring kept points
/// nothing is too far off their chord.
pub fn rdp_keep<F: Fn(usize, usize, usize) -> u64>(n: usize, off: &F) -> (keep: Vec<bool>)
    requires
        n >= 1,
        measures(*off, n as int),
    ensures
        keep@ == kept(*off, n as int),
        within_tolerance(*off, keep@, 0, n - 1),
{
    let mut keep: Vec<bool> = Vec::new();
    while keep.len() < n
        invariant
            keep@.len() <= n,
            forall|i: int| 0 <= i < keep@.len() ==> !#[trigger] keep@[i],
        decreases n - keep@.len(),
    {
        keep.push(false);
    }
    keep.set(0, true);
    keep.set(n - 1, true);
    if n > 1 {
        keep_inside(off, 0, n - 1, &mut keep);
    }
    assert(keep@ =~= kept(*off, n as int));
    proof {
        lemma_rdp_stays_within(*off, n as int);
    }
    keep
}

/// The line that Ramer-Douglas-Peucker makes of one at a tolerance, the bits of
/// a double. The caller measures a point off a chord in units of its own
/// tolerance, squared.
pub open spec fn simplified<F: Fn(usize, usize, usize) -> u64>(
    points: Seq<Bits>,
    eps: u64,
    off: F,
) -> Seq<Bits> {
    if points.len() < 3 || at_most_zero(eps) {
        points
    } else {
        kept_points(points, kept(off, points.len() as int))
    }
}

/// Simplifies a line by Ramer-Douglas-Peucker.
pub fn rdp<F: Fn(usize, usize, usize) -> u64>(points: &[Bits], eps: u64, off: &F) -> (line: Vec<Bits>)
    requires
        measures(*off, points@.len() as int),
    ensures
        line@ == simplified(points@, eps, *off),
{
    if keeps_all(points.len(), eps) {
        return vstd::slice::slice_to_vec(points);
    }
    let keep = rdp_keep(points.len(), off);
    select(points, keep.as_slice())
}

/// A span that is not close is split somewhere.
proof fn lemma_splits_somewhere<F: Fn(usize, usize, usize) -> u64>(off: F, a: int, b: int, k: int)
    requires
        a < k < b,
        reach(off, a, k, b) > WITHIN,
    ensures
        exists|m: int| splits(off, a, b, m),
{
    let m = lemma_first_greatest(off, a, b, b);
    assert(reach(off, a, k, b) <= reach(off, a, m, b));
    assert(splits(off, a, b, m));
}

/// Some point before `end` is the first to lie farthest off.
proof fn lemma_first_greatest<F: Fn(usize, usize, usize) -> u64>(
    off: F,
    a: int,
    b: int,
    end: int,
) -> (m: int)
    requires
        a + 1 < end,
    ensures
        a < m < end,
        forall|i: int| a < i < end ==> #[trigger] reach(off, a, i, b) <= reach(off, a, m, b),
        forall|i: int| a < i < m ==> #[trigger] reach(off, a, i, b) < reach(off, a, m, b),
    decreases end - a,
{
    if a + 2 == end {
        a + 1
    } else {
        let before = lemma_first_greatest(off, a, b, end - 1);
        if reach(off, a, end - 1, b) > reach(off, a, before, b) {
            end - 1
        } else {
            before
        }
    }
}

/// What a span keeps leaves nothing too far off between its neighbours.
proof fn lemma_span_within<F: Fn(usize, usize, usize) -> u64>(
    off: F,
    keep: Seq<bool>,
    a: int,
    b: int,
)
    requires
        0 <= a < b < keep.len(),
        keep[a],
        keep[b],
        forall|i: int| a < i < b ==> #[trigger] keep[i] == kept_inside(off, a, b, i),
    ensures
        within_tolerance(off, keep, a, b),
    decreases b - a,
{
    if exists|m: int| splits(off, a, b, m) {
        let m = choose|m: int| splits(off, a, b, m);
        assert(splits(off, a, b, m));
        assert(keep[m] == kept_inside(off, a, b, m));
        lemma_span_within(off, keep, a, m);
        lemma_span_within(off, keep, m, b);
        assert forall|x: int, y: int|
            a <= x && y <= b && #[trigger] kept_neighbours(keep, x, y) implies close(off, x, y) by {
            assert(!(x < m < y));
        }
    } else {
        assert(close(off, a, b)) by {
            assert forall|i: int| a < i < b implies #[trigger] reach(off, a, i, b) <= WITHIN by {
                if reach(off, a, i, b) > WITHIN {
                    lemma_splits_somewhere(off, a, b, i);
                }
            }
        }
        assert forall|x: int, y: int|
            a <= x && y <= b && #[trigger] kept_neighbours(keep, x, y) implies close(off, x, y) by {
            assert(x == a && y == b) by {
                assert(a < x < b ==> !kept_inside(off, a, b, x));
                assert(a < y < b ==> !kept_inside(off, a, b, y));
            }
        }
    }
}

/// Every point that is dropped lies within its own tolerance of the chord
/// between the kept points around it.
pub proof fn lemma_rdp_stays_within<F: Fn(usize, usize, usize) -> u64>(off: F, n: int)
    requires
        n >= 1,
    ensures
        within_tolerance(off, kept(off, n), 0, n - 1),
{
    if n > 1 {
        lemma_span_within(off, kept(off, n), 0, n - 1);
    }
}

/// Simplifying keeps both ends of a line and invents no point: what comes out is
/// a subsequence of what went in.
pub proof fn lemma_rdp_keeps_the_ends<F: Fn(usize, usize, usize) -> u64>(
    points: Seq<Bits>,
    eps: u64,
    off: F,
)
    requires
        points.len() >= 2,
    ensures
        simplified(points, eps, off).len() >= 2,
        simplified(points, eps, off)[0] == points[0],
        simplified(points, eps, off).last() == points.last(),
        exists|at: Seq<int>| #[trigger] embeds(simplified(points, eps, off), points, at),
{
    let keep = kept(off, points.len() as int);
    if points.len() < 3 || at_most_zero(eps) {
        let each = Seq::new(points.len(), |i: int| i);
        assert(simplified(points, eps, off) == points);
        assert(embeds(simplified(points, eps, off), points, each));
    } else {
        lemma_ends_are_kept(points, keep);
        lemma_selection_embeds(points, keep);
        assert(embeds(
            simplified(points, eps, off),
            points,
            kept_indices(keep, keep.len() as int),
        ));
    }
}

/// What a line is simplified to depends on the measures alone: where two callers
/// measure alike, as with weights that are all one, the lines agree.
pub proof fn lemma_measured_alike<
    F: Fn(usize, usize, usize) -> u64,
    G: Fn(usize, usize, usize) -> u64,
>(points: Seq<Bits>, eps: u64, off: F, other: G)
    requires
        forall|a: int, i: int, b: int|
            0 <= a < i < b < points.len() ==> #[trigger] reach(off, a, i, b) == reach(
                other,
                a,
                i,
                b,
            ),
    ensures
        simplified(points, eps, off) == simplified(points, eps, other),
{
    let n = points.len() as int;
    assert forall|i: int| 0 <= i < n implies kept(off, n)[i] == kept(other, n)[i] by {
        lemma_kept_alike(off, other, 0, n - 1, i);
    }
    assert(kept(off, n) =~= kept(other, n));
}

/// A span whose points measure alike is split alike, and keeps the same points.
proof fn lemma_kept_alike<
    F: Fn(usize, usize, usize) -> u64,
    G: Fn(usize, usize, usize) -> u64,
>(off: F, other: G, lo: int, hi: int, i: int)
    requires
        forall|a: int, k: int, b: int|
            lo <= a < k < b <= hi ==> #[trigger] reach(off, a, k, b) == reach(other, a, k, b),
    ensures
        kept_inside(off, lo, hi, i) == kept_inside(other, lo, hi, i),
    decreases hi - lo,
{
    if lo < i < hi {
        assert forall|m: int| splits(off, lo, hi, m) == splits(other, lo, hi, m) by {
            if lo < m < hi {
                assert(reach(off, lo, m, hi) == reach(other, lo, m, hi));
                assert forall|k: int| lo < k < hi implies #[trigger] reach(off, lo, k, hi) == reach(
                    other,
                    lo,
                    k,
                    hi,
                ) by {}
                if splits(off, lo, hi, m) {
                    assert forall|k: int| lo < k < hi implies #[trigger] reach(other, lo, k, hi)
                        <= reach(other, lo, m, hi) && (k < m ==> reach(other, lo, k, hi) < reach(
                        other,
                        lo,
                        m,
                        hi,
                    )) by {
                        assert(reach(off, lo, k, hi) == reach(other, lo, k, hi));
                    }
                }
            }
        }
        if exists|m: int| splits(off, lo, hi, m) {
            let m = choose|m: int| splits(off, lo, hi, m);
            assert(splits(off, lo, hi, m));
            lemma_split(off, lo, hi, m);
            lemma_split(other, lo, hi, m);
            lemma_kept_alike(off, other, lo, m, i);
            lemma_kept_alike(off, other, m, hi, i);
        }
    }
}

/// Whether a measure, the bits of a double, says that a point lies too far off: it
/// is a number larger than one.
pub open spec fn too_far(bits: u64) -> bool {
    0x3FF0_0000_0000_0000 < bits <= 0x7FF0_0000_0000_0000
}

/// Whether no point between two was measured too far off their chord.
pub open spec fn nothing_too_far<F: Fn(usize, usize, usize) -> u64>(off: F, a: int, b: int) -> bool {
    forall|i: int| a < i < b ==> !too_far(#[trigger] measured(off, a as usize, i as usize, b as usize))
}

/// What Ramer-Douglas-Peucker returns at a positive tolerance: a line through both
/// ends and some of the points between, such that no point that is missing was
/// measured too far off the chord between the two kept points around it.
pub proof fn lemma_rdp_keeps_within_tolerance<F: Fn(usize, usize, usize) -> u64>(
    points: Seq<Bits>,
    eps: u64,
    off: F,
) -> (at: Seq<int>)
    requires
        points.len() >= 3,
        0 < eps < 0x8000_0000_0000_0000,
    ensures
        drawn_through(simplified(points, eps, off), points, at),
        forall|v: int|
            0 <= v < at.len() - 1 ==> nothing_too_far(off, #[trigger] at[v], at[v + 1]),
{
    let n = points.len() as int;
    let keep = kept(off, n);
    lemma_rdp_stays_within(off, n);
    lemma_selection_is_drawn(points, keep);
    let at = kept_indices(keep, n);
    assert forall|v: int| 0 <= v < at.len() - 1 implies nothing_too_far(
        off,
        #[trigger] at[v],
        at[v + 1],
    ) by {
        assert(at[v] < at[v + 1]);
        assert(kept_neighbours(keep, at[v], at[v + 1])) by {
            assert forall|k: int| at[v] < k < at[v + 1] implies !#[trigger] keep[k] by {}
        }
        assert(close(off, at[v], at[v + 1]));
        let (a, b) = (at[v], at[v + 1]);
        assert forall|i: int| a < i < b implies !too_far(
            #[trigger] measured(off, a as usize, i as usize, b as usize),
        ) by {
            assert(reach(off, a, i, b) <= WITHIN);
        }
    }
    at
}

/// A line whose points all lie within tolerance of the chord between its ends
/// comes down to those ends.
pub proof fn lemma_rdp_flattens<F: Fn(usize, usize, usize) -> u64>(
    points: Seq<Bits>,
    eps: u64,
    off: F,
)
    requires
        3 <= points.len() <= usize::MAX,
        0 < eps < 0x8000_0000_0000_0000,
        nothing_too_far(off, 0, points.len() - 1),
    ensures
        simplified(points, eps, off) == seq![points[0], points.last()],
{
    let n = points.len() as int;
    let keep = kept(off, n);
    let end = n - 1;
    assert forall|m: int| !splits(off, 0, end, m) by {
        if 0 < m < end {
            assert(!too_far(measured(off, 0int as usize, m as usize, end as usize)));
        }
    }
    lemma_selection_is_drawn(points, keep);
    let at = kept_indices(keep, n);
    assert(at.len() == 2) by {
        if at.len() > 2 {
            assert(keep[at[1]]);
            assert(at[0] < at[1] && at[1] < at[at.len() - 1]);
            assert(!kept_inside(off, 0, n - 1, at[1]));
        }
    }
    assert(simplified(points, eps, off) =~= seq![points[0], points.last()]);
}

/// Whether `m` is measured farthest off the chord from the first point to `end`,
/// the first of those measured as far.
pub open spec fn farthest_off<F: Fn(usize, usize, usize) -> u64>(off: F, end: int, m: int) -> bool {
    let mine = measured(off, 0, m as usize, end as usize);
    forall|i: int|
        0 < i < end ==> {
            let other = #[trigger] measured(off, 0, i as usize, end as usize);
            other < mine || other > 0x7FF0_0000_0000_0000 || (other == mine && m <= i)
        }
}

/// The point that lies farthest off the chord between the ends stays, if that is
/// too far: the first of those that lie equally far.
pub proof fn lemma_rdp_keeps_the_farthest<F: Fn(usize, usize, usize) -> u64>(
    points: Seq<Bits>,
    eps: u64,
    off: F,
    m: int,
) -> (at: Seq<int>)
    requires
        3 <= points.len() <= usize::MAX,
        0 < eps < 0x8000_0000_0000_0000,
        0 < m < points.len() - 1,
        too_far(measured(off, 0, m as usize, (points.len() - 1) as usize)),
        farthest_off(off, points.len() - 1, m),
    ensures
        drawn_through(simplified(points, eps, off), points, at),
        at.contains(m),
{
    let n = points.len() as int;
    let keep = kept(off, n);
    assert(splits(off, 0, n - 1, m)) by {
        let end = n - 1;
        assert forall|i: int| 0 < i < end implies #[trigger] reach(off, 0, i, end) <= reach(
            off,
            0,
            m,
            end,
        ) && (i < m ==> reach(off, 0, i, end) < reach(off, 0, m, end)) by {
            let other = measured(off, 0, i as usize, end as usize);
        }
    }
    lemma_split(off, 0, n - 1, m);
    assert(kept_inside(off, 0, n - 1, m));
    assert(keep[m]);
    lemma_selection_is_drawn(points, keep);
    lemma_selection_is_exact(points, keep);
    kept_indices(keep, n)
}

/// A tolerance of zero or less drops nothing, nor does any from a line of fewer
/// than three points.
pub proof fn lemma_no_tolerance_drops_nothing<F: Fn(usize, usize, usize) -> u64>(
    points: Seq<Bits>,
    eps: u64,
    off: F,
)
    requires
        points.len() < 3 || eps == 0 || 0x8000_0000_0000_0000 <= eps <= 0xFFF0_0000_0000_0000,
    ensures
        simplified(points, eps, off) == points,
{
}

/// A knob allows nothing where the number its bits stand for is zero or below it;
/// what is no number is neither.
pub proof fn lemma_knobs_that_allow_nothing(bits: u64)
    ensures
        ({
            let (negative, e, m) = (
                bits >= 0x8000_0000_0000_0000,
                bits as int / 0x10_0000_0000_0000 % 2048,
                bits as int % 0x10_0000_0000_0000,
            );
            at_most_zero(bits) <==> (e == 0 && m == 0) || (negative && !(e == 2047 && m != 0))
        }),
{
}

} // verus!
