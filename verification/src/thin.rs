//! Visvalingam-Whyatt over the indices of an open polyline: the interior
//! point that spans the smallest triangle with its neighbours goes first. How
//! large a triangle is is asked of the caller, as a number that orders like
//! the area.

use crate::rdp::{at_most_zero, keeps_all};
use crate::select::{
    drawn_through, kept_indices, kept_points, lemma_all_selected, lemma_selection_is_drawn,
    lemma_selection_is_exact, select,
};
use crate::topology::Bits;
use crate::tourney::{least_at, Tourney};
use vstd::prelude::*;

verus! {

/// Whether the caller's areas can be relied on: any triangle along the line
/// may be asked about, and the same question has one answer.
pub open spec fn measures<F: Fn(usize, usize, usize) -> u64>(area: F, n: int) -> bool {
    &&& forall|a: usize, b: usize, c: usize| a < b < c < n ==> call_requires(area, (a, b, c))
    &&& forall|a: usize, b: usize, c: usize, x: u64, y: u64|
        #![trigger call_ensures(area, (a, b, c), x), call_ensures(area, (a, b, c), y)]
        call_ensures(area, (a, b, c), x) && call_ensures(area, (a, b, c), y) ==> x == y
}

/// The caller's area of a triangle.
pub open spec fn area_of<F: Fn(usize, usize, usize) -> u64>(
    area: F,
    a: usize,
    b: usize,
    c: usize,
) -> u64 {
    choose|x: u64| call_ensures(area, (a, b, c), x)
}

/// The next point that is left after `i`.
pub open spec fn next_left(left: Seq<bool>, i: int) -> int
    decreases left.len() - i,
{
    if i + 1 >= left.len() {
        left.len() as int
    } else if left[i + 1] {
        i + 1
    } else {
        next_left(left, i + 1)
    }
}

/// The point that is left before `i`.
pub open spec fn prev_left(left: Seq<bool>, i: int) -> int
    decreases i,
{
    if i <= 0 {
        -1
    } else if left[i - 1] {
        i - 1
    } else {
        prev_left(left, i - 1)
    }
}

/// Whether a point is left and has a neighbour on either side.
pub open spec fn interior(left: Seq<bool>, i: int) -> bool {
    0 < i < left.len() - 1 && left[i]
}

/// The area that a point spans with its neighbours among those left, `None`
/// for a point that is gone or at an end.
pub open spec fn span_of<F: Fn(usize, usize, usize) -> u64>(
    area: F,
    left: Seq<bool>,
    i: int,
) -> Option<u64> {
    if interior(left, i) {
        Some(
            area_of(area, prev_left(left, i) as usize, i as usize, next_left(left, i) as usize),
        )
    } else {
        None
    }
}

/// What every point spans.
pub open spec fn spans<F: Fn(usize, usize, usize) -> u64>(area: F, left: Seq<bool>) -> Seq<
    Option<u64>,
> {
    Seq::new(left.len(), |i: int| span_of(area, left, i))
}

/// How many of the first `n` points are left.
pub open spec fn left_count(left: Seq<bool>, n: int) -> nat
    decreases n,
{
    if n <= 0 {
        0
    } else {
        left_count(left, n - 1) + if left[n - 1] {
            1nat
        } else {
            0
        }
    }
}

/// Whether a point is the next to go: it spans the least, the first of equals,
/// and less than the limit.
pub open spec fn goes<F: Fn(usize, usize, usize) -> u64>(
    area: F,
    limit: u64,
    left: Seq<bool>,
    i: int,
) -> bool {
    least_at(spans(area, left), i) && spans(area, left)[i]->0 < limit
}

/// What is left when points go until none spans less than the limit.
pub open spec fn thinned<F: Fn(usize, usize, usize) -> u64>(
    area: F,
    limit: u64,
    left: Seq<bool>,
) -> Seq<bool>
    decreases left_count(left, left.len() as int),
    via thinned_decreases::<F>
{
    if exists|i: int| goes(area, limit, left, i) {
        let i = choose|i: int| goes(area, limit, left, i);
        thinned(area, limit, left.update(i, false))
    } else {
        left
    }
}

#[via_fn]
proof fn thinned_decreases<F: Fn(usize, usize, usize) -> u64>(
    area: F,
    limit: u64,
    left: Seq<bool>,
) {
    if exists|i: int| goes(area, limit, left, i) {
        let i = choose|i: int| goes(area, limit, left, i);
        assert(interior(left, i));
        lemma_count_drops(left, i, left.len() as int);
    }
}

/// One point fewer is left when a point goes.
proof fn lemma_count_drops(left: Seq<bool>, i: int, n: int)
    requires
        0 <= i < left.len(),
        left[i],
        0 <= n <= left.len(),
    ensures
        left_count(left.update(i, false), n) + (if i < n {
            1nat
        } else {
            0
        }) == left_count(left, n),
    decreases n,
{
    if n > 0 {
        lemma_count_drops(left, i, n - 1);
    }
}

/// Only one point is the next to go.
proof fn lemma_one_goes<F: Fn(usize, usize, usize) -> u64>(
    area: F,
    limit: u64,
    left: Seq<bool>,
    i: int,
    j: int,
)
    requires
        goes(area, limit, left, i),
        goes(area, limit, left, j),
    ensures
        i == j,
{
    let keys = spans(area, left);
    assert(keys[i] is Some && keys[j] is Some);
}

/// Whether `j` is the next point left after `i`.
pub open spec fn follows(left: Seq<bool>, i: int, j: int) -> bool {
    0 <= i < j < left.len() && left[j] && forall|k: int| i < k < j ==> !#[trigger] left[k]
}

/// The next point left is the one that follows.
proof fn lemma_next(left: Seq<bool>, i: int, j: int)
    requires
        follows(left, i, j),
    ensures
        next_left(left, i) == j,
    decreases j - i,
{
    if i + 1 < j {
        assert(!left[i + 1]);
        lemma_next(left, i + 1, j);
    }
}

/// The point left before is the one that is followed.
proof fn lemma_prev(left: Seq<bool>, i: int, j: int)
    requires
        follows(left, i, j),
        left[i],
    ensures
        prev_left(left, j) == i,
    decreases j - i,
{
    if i + 1 < j {
        assert(!left[j - 1]);
        lemma_prev_from(left, i, j - 1);
    }
}

/// The same from a point that need not be left.
proof fn lemma_prev_from(left: Seq<bool>, i: int, j: int)
    requires
        0 <= i < j <= left.len(),
        left[i],
        forall|k: int| i < k < j ==> !#[trigger] left[k],
    ensures
        prev_left(left, j) == i,
    decreases j - i,
{
    if i + 1 < j {
        assert(!left[j - 1]);
        lemma_prev_from(left, i, j - 1);
    }
}

/// The links of a line of which points are gone: every point that is left
/// knows its neighbours.
pub open spec fn linked(left: Seq<bool>, prev: Seq<usize>, next: Seq<usize>) -> bool {
    &&& left.len() >= 2
    &&& prev.len() == left.len()
    &&& next.len() == left.len()
    &&& left[0]
    &&& left[left.len() - 1]
    &&& forall|i: int|
        0 <= i < left.len() - 1 && #[trigger] left[i] ==> follows(left, i, next[i] as int)
            && prev[next[i] as int] == i
    &&& forall|i: int|
        0 < i < left.len() && #[trigger] left[i] ==> follows(left, prev[i] as int, i)
            && left[prev[i] as int] && next[prev[i] as int] == i
}

/// A point's span is the area with its linked neighbours.
proof fn lemma_linked_span<F: Fn(usize, usize, usize) -> u64>(
    area: F,
    left: Seq<bool>,
    prev: Seq<usize>,
    next: Seq<usize>,
    i: int,
)
    requires
        linked(left, prev, next),
        interior(left, i),
    ensures
        span_of(area, left, i) == Some(area_of(area, prev[i], i as usize, next[i])),
        prev[i] < i < next[i] < left.len(),
{
    lemma_next(left, i, next[i] as int);
    lemma_prev(left, prev[i] as int, i);
}

/// Unlinking a point that goes keeps the links right, and only the spans of
/// its two neighbours change.
proof fn lemma_unlinked<F: Fn(usize, usize, usize) -> u64>(
    area: F,
    left: Seq<bool>,
    prev: Seq<usize>,
    next: Seq<usize>,
    i: int,
)
    requires
        linked(left, prev, next),
        interior(left, i),
        left.len() <= usize::MAX,
    ensures
        linked(
            left.update(i, false),
            prev.update(next[i] as int, prev[i]),
            next.update(prev[i] as int, next[i]),
        ),
        prev[i] < i < next[i] < left.len(),
        left[prev[i] as int],
        left[next[i] as int],
        forall|j: int|
            0 <= j < left.len() && j != i && j != prev[i] && j != next[i] ==> #[trigger] span_of(
                area,
                left.update(i, false),
                j,
            ) == span_of(area, left, j),
{
    let gone = left.update(i, false);
    let (p, s) = (prev[i] as int, next[i] as int);
    let prev2 = prev.update(s, prev[i]);
    let next2 = next.update(p, next[i]);
    assert(follows(left, i, s) && follows(left, p, i));
    assert forall|j: int| 0 <= j < gone.len() - 1 && #[trigger] gone[j] implies follows(
        gone,
        j,
        next2[j] as int,
    ) && prev2[next2[j] as int] == j by {
        assert(left[j]);
        assert(follows(left, j, next[j] as int));
        if j != p {
            assert(next[j] != i) by {
                if next[j] == i {
                    assert(prev[i] == j);
                }
            }
            assert(next[j] != s) by {
                if next[j] == s {
                    assert(prev[s] == j);
                    assert(prev[s] == i);
                }
            }
        } else {
            assert forall|k: int| p < k < s implies !#[trigger] gone[k] by {
                assert(k == i || !left[k]);
            }
        }
    }
    assert forall|j: int| 0 < j < gone.len() && #[trigger] gone[j] implies follows(
        gone,
        prev2[j] as int,
        j,
    ) && gone[prev2[j] as int] && next2[prev2[j] as int] == j by {
        assert(left[j]);
        assert(follows(left, prev[j] as int, j));
        if j != s {
            assert(prev[j] != i) by {
                if prev[j] == i {
                    assert(next[i] == j);
                }
            }
            assert(prev[j] != p) by {
                if prev[j] == p {
                    assert(next[p] == j);
                    assert(next[p] == i);
                }
            }
        } else {
            assert forall|k: int| p < k < s implies !#[trigger] gone[k] by {
                assert(k == i || !left[k]);
            }
        }
    }
    assert(linked(gone, prev2, next2));
    assert forall|j: int|
        0 <= j < left.len() && j != i && j != p && j != s implies #[trigger] span_of(
        area,
        gone,
        j,
    ) == span_of(area, left, j) by {
        if interior(left, j) {
            assert(left[j] && gone[j]);
            lemma_linked_span(area, left, prev, next, j);
            lemma_linked_span(area, gone, prev2, next2, j);
        }
    }
}

/// Asks for the area a point spans with its linked neighbours.
fn ask<F: Fn(usize, usize, usize) -> u64>(
    area: &F,
    left: &Vec<bool>,
    prev: &Vec<usize>,
    next: &Vec<usize>,
    i: usize,
) -> (span: Option<u64>)
    requires
        measures(*area, left@.len() as int),
        linked(left@, prev@, next@),
        i < left@.len(),
        left@[i as int],
    ensures
        span == span_of(*area, left@, i as int),
{
    if i == 0 || i == left.len() - 1 {
        return None;
    }
    proof {
        lemma_linked_span(*area, left@, prev@, next@, i as int);
    }
    let x: u64 = area(prev[i], i, next[i]);
    assert(area_of(*area, prev@[i as int], i, next@[i as int]) == x);
    Some(x)
}

/// The points that Visvalingam-Whyatt leaves of a line of `n` points: while
/// an interior point spans less than the limit with its neighbours, the one
/// that spans the least goes, the first of equals.
pub fn vw_keep<F: Fn(usize, usize, usize) -> u64>(n: usize, limit: u64, area: &F) -> (left: Vec<
    bool,
>)
    requires
        2 <= n <= usize::MAX / 2,
        measures(*area, n as int),
    ensures
        left@ == thinned(*area, limit, Seq::new(n as nat, |i: int| true)),
        left@.len() == n,
        left@[0],
        left@[n - 1],
{
    let mut left: Vec<bool> = Vec::new();
    let mut prev: Vec<usize> = Vec::new();
    let mut next: Vec<usize> = Vec::new();
    let mut i: usize = 0;
    while i < n
        invariant
            i <= n,
            n <= usize::MAX / 2,
            left@.len() == i,
            prev@.len() == i,
            next@.len() == i,
            forall|k: int| 0 <= k < i ==> #[trigger] left@[k],
            forall|k: int| 0 < k < i ==> #[trigger] prev@[k] == k - 1,
            forall|k: int| 0 <= k < i ==> #[trigger] next@[k] == k + 1,
        decreases n - i,
    {
        left.push(true);
        prev.push(if i == 0 { 0 } else { i - 1 });
        next.push(i + 1);
        i = i + 1;
    }
    let ghost all = left@;
    assert(all =~= Seq::new(n as nat, |i: int| true));
    let mut tourney = Tourney::new(n);
    i = 0;
    while i < n
        invariant
            i <= n,
            n == left@.len(),
            measures(*area, n as int),
            linked(left@, prev@, next@),
            forall|k: int| 0 <= k < n ==> #[trigger] left@[k],
            tourney.wf(),
            tourney.keys().len() == n,
            forall|k: int|
                0 <= k < i ==> #[trigger] tourney.keys()[k] == span_of(*area, left@, k),
        decreases n - i,
    {
        let span = ask(area, &left, &prev, &next, i);
        tourney.set(i, span);
        i = i + 1;
    }
    assert(tourney.keys() =~= spans(*area, left@));
    loop
        invariant_except_break
            n == left@.len(),
            2 <= n,
            measures(*area, n as int),
            linked(left@, prev@, next@),
            tourney.wf(),
            tourney.keys() == spans(*area, left@),
            thinned(*area, limit, all) == thinned(*area, limit, left@),
        ensures
            left@ == thinned(*area, limit, all),
            left@.len() == n,
            left@[0],
            left@[n - 1],
        decreases left_count(left@, n as int),
    {
        let (at, span) = match tourney.least() {
            Some(least) => least,
            None => {
                proof {
                    assert forall|i: int| !goes(*area, limit, left@, i) by {
                        if goes(*area, limit, left@, i) {
                            assert(tourney.keys()[i] is None);
                        }
                    }
                }
                break;
            },
        };
        if span >= limit {
            proof {
                assert forall|i: int| !goes(*area, limit, left@, i) by {
                    if goes(*area, limit, left@, i) {
                        assert(tourney.keys()[i] is Some);
                        assert(tourney.keys()[at as int] is Some);
                    }
                }
            }
            break;
        }
        let ghost before = left@;
        proof {
            assert(interior(left@, at as int)) by {
                assert(spans(*area, left@)[at as int] == span_of(*area, left@, at as int));
            }
            assert(goes(*area, limit, left@, at as int));
            let i = choose|i: int| goes(*area, limit, left@, i);
            lemma_one_goes(*area, limit, left@, at as int, i);
            lemma_unlinked(*area, left@, prev@, next@, at as int);
            lemma_count_drops(left@, at as int, n as int);
        }
        let (p, s): (usize, usize) = (prev[at], next[at]);
        left.set(at, false);
        next.set(p, s);
        prev.set(s, p);
        tourney.set(at, None);
        let span_p = ask(area, &left, &prev, &next, p);
        tourney.set(p, span_p);
        let span_s = ask(area, &left, &prev, &next, s);
        tourney.set(s, span_s);
        proof {
            assert forall|j: int| 0 <= j < n implies #[trigger] tourney.keys()[j] == span_of(
                *area,
                left@,
                j,
            ) by {
                if j != at && j != p && j != s {
                    assert(spans(*area, before)[j] == span_of(*area, before, j));
                }
            }
            assert(tourney.keys() =~= spans(*area, left@));
        }
    }
    left
}

/// Thinning brings no point back.
proof fn lemma_thinned_within<F: Fn(usize, usize, usize) -> u64>(
    area: F,
    limit: u64,
    left: Seq<bool>,
)
    ensures
        thinned(area, limit, left).len() == left.len(),
        forall|i: int|
            0 <= i < left.len() && #[trigger] thinned(area, limit, left)[i] ==> left[i],
    decreases left_count(left, left.len() as int),
{
    if exists|i: int| goes(area, limit, left, i) {
        let i = choose|i: int| goes(area, limit, left, i);
        assert(interior(left, i));
        lemma_count_drops(left, i, left.len() as int);
        lemma_thinned_within(area, limit, left.update(i, false));
    }
}

/// Counts follow inclusion.
proof fn lemma_count_within(fewer: Seq<bool>, more: Seq<bool>, n: int)
    requires
        0 <= n <= fewer.len(),
        fewer.len() == more.len(),
        forall|i: int| 0 <= i < more.len() && #[trigger] fewer[i] ==> more[i],
    ensures
        left_count(fewer, n) <= left_count(more, n),
    decreases n,
{
    if n > 0 {
        lemma_count_within(fewer, more, n - 1);
    }
}

/// A larger limit keeps a part of what a smaller one keeps: it thins on from
/// there.
pub proof fn lemma_larger_limits_keep_fewer<F: Fn(usize, usize, usize) -> u64>(
    area: F,
    small: u64,
    large: u64,
    left: Seq<bool>,
)
    requires
        small <= large,
    ensures
        thinned(area, large, left) == thinned(area, large, thinned(area, small, left)),
        forall|i: int|
            0 <= i < left.len() && #[trigger] thinned(area, large, left)[i] ==> thinned(
                area,
                small,
                left,
            )[i],
        left_count(thinned(area, large, left), left.len() as int) <= left_count(
            thinned(area, small, left),
            left.len() as int,
        ),
    decreases left_count(left, left.len() as int),
{
    if exists|i: int| goes(area, small, left, i) {
        let i = choose|i: int| goes(area, small, left, i);
        assert(interior(left, i));
        lemma_count_drops(left, i, left.len() as int);
        assert(goes(area, large, left, i));
        let j = choose|j: int| goes(area, large, left, j);
        lemma_one_goes(area, large, left, i, j);
        lemma_larger_limits_keep_fewer(area, small, large, left.update(i, false));
    } else {
        lemma_thinned_within(area, large, left);
        lemma_count_within(thinned(area, large, left), left, left.len() as int);
    }
}

/// The line that Visvalingam-Whyatt makes of one at a smallest area, the bits of
/// a double.
pub open spec fn simplified<F: Fn(usize, usize, usize) -> u64>(
    points: Seq<Bits>,
    min_area: u64,
    area: F,
) -> Seq<Bits> {
    if points.len() < 3 || at_most_zero(min_area) {
        points
    } else {
        kept_points(points, thinned(area, min_area, Seq::new(points.len(), |i: int| true)))
    }
}

/// Simplifies a line by Visvalingam-Whyatt.
pub fn visvalingam<F: Fn(usize, usize, usize) -> u64>(
    points: &[Bits],
    min_area: u64,
    area: &F,
) -> (line: Vec<Bits>)
    requires
        points@.len() <= usize::MAX / 2,
        measures(*area, points@.len() as int),
    ensures
        line@ == simplified(points@, min_area, *area),
{
    if keeps_all(points.len(), min_area) {
        return vstd::slice::slice_to_vec(points);
    }
    let left = vw_keep(points.len(), min_area, area);
    select(points, left.as_slice())
}

/// Whether three points that are left follow each other: nothing is left between
/// them.
pub open spec fn in_a_row(left: Seq<bool>, p: int, i: int, q: int) -> bool {
    &&& 0 <= p < i < q < left.len()
    &&& left[p] && left[i] && left[q]
    &&& forall|k: int| p < k < q && k != i ==> !#[trigger] left[k]
}

/// Whether a point may go at this moment: with the neighbours then left it spans
/// less than the limit, and no other point spans less, nor an earlier one as
/// little.
pub open spec fn may_go<F: Fn(usize, usize, usize) -> u64>(
    area: F,
    limit: u64,
    left: Seq<bool>,
    i: int,
) -> bool {
    exists|p: int, q: int| #[trigger]
        in_a_row(left, p, i, q) && area_of(area, p as usize, i as usize, q as usize) < limit && (
        forall|a: int, j: int, b: int| #[trigger]
            in_a_row(left, a, j, b) ==> {
                let (mine, other) = (
                    area_of(area, p as usize, i as usize, q as usize),
                    area_of(area, a as usize, j as usize, b as usize),
                );
                mine < other || (mine == other && i <= j)
            })
}

/// What is left when the first `m` of some points are gone.
pub open spec fn without(left: Seq<bool>, order: Seq<int>, m: int) -> Seq<bool> {
    Seq::new(left.len(), |i: int| left[i] && !order.take(m).contains(i))
}

/// Whether points go one at a time in this order, each when it may.
pub open spec fn go_in_order<F: Fn(usize, usize, usize) -> u64>(
    area: F,
    limit: u64,
    left: Seq<bool>,
    order: Seq<int>,
) -> bool {
    forall|m: int|
        0 <= m < order.len() ==> may_go(area, limit, without(left, order, m), #[trigger] order[m])
}

/// Three points in a row are a point and its neighbours.
proof fn lemma_row(left: Seq<bool>, p: int, i: int, q: int)
    requires
        in_a_row(left, p, i, q),
    ensures
        interior(left, i),
        prev_left(left, i) == p,
        next_left(left, i) == q,
{
    assert(follows(left, i, q) && follows(left, p, i));
    lemma_next(left, i, q);
    lemma_prev(left, p, i);
}

/// The nearest point left in front.
proof fn lemma_prev_is(left: Seq<bool>, i: int)
    requires
        0 < i <= left.len(),
        left[0],
    ensures
        0 <= prev_left(left, i) < i,
        left[prev_left(left, i)],
        forall|k: int| prev_left(left, i) < k < i ==> !#[trigger] left[k],
    decreases i,
{
    if !left[i - 1] {
        lemma_prev_is(left, i - 1);
    }
}

/// The nearest point left behind.
proof fn lemma_next_is(left: Seq<bool>, i: int)
    requires
        0 <= i < left.len() - 1,
        left[left.len() - 1],
    ensures
        i < next_left(left, i) < left.len(),
        left[next_left(left, i)],
        forall|k: int| i < k < next_left(left, i) ==> !#[trigger] left[k],
    decreases left.len() - i,
{
    if !left[i + 1] {
        lemma_next_is(left, i + 1);
    }
}

/// Every interior point that is left is in a row with its neighbours.
proof fn lemma_interior_row(left: Seq<bool>, i: int)
    requires
        interior(left, i),
        left[0],
        left[left.len() - 1],
    ensures
        in_a_row(left, prev_left(left, i), i, next_left(left, i)),
{
    lemma_prev_is(left, i);
    lemma_next_is(left, i);
}

/// The point that goes next may go, and where none goes none spans too little.
proof fn lemma_goes_means<F: Fn(usize, usize, usize) -> u64>(
    area: F,
    limit: u64,
    left: Seq<bool>,
    i: int,
)
    requires
        left.len() >= 2,
        left[0],
        left[left.len() - 1],
        goes(area, limit, left, i),
    ensures
        interior(left, i),
        may_go(area, limit, left, i),
{
    let keys = spans(area, left);
    assert(interior(left, i));
    lemma_interior_row(left, i);
    let (p, q) = (prev_left(left, i), next_left(left, i));
    assert forall|a: int, j: int, b: int| #[trigger] in_a_row(left, a, j, b) implies {
        let (mine, other) = (
            area_of(area, p as usize, i as usize, q as usize),
            area_of(area, a as usize, j as usize, b as usize),
        );
        mine < other || (mine == other && i <= j)
    } by {
        lemma_row(left, a, j, b);
        assert(keys[j] == span_of(area, left, j));
        assert(keys[j] is Some);
    }
    assert(in_a_row(left, p, i, q));
}

/// Some interior point spans the least.
proof fn lemma_least_exists(keys: Seq<Option<u64>>, n: int)
    requires
        0 <= n <= keys.len(),
        exists|i: int| 0 <= i < n && (#[trigger] keys[i]) is Some,
    ensures
        exists|i: int| #[trigger] least_at(keys.take(n), i),
    decreases n,
{
    let some = keys.take(n);
    if exists|i: int| 0 <= i < n - 1 && (#[trigger] keys[i]) is Some {
        lemma_least_exists(keys, n - 1);
        let few = keys.take(n - 1);
        let i = choose|i: int| #[trigger] least_at(few, i);
        assert forall|j: int| 0 <= j < few.len() implies few[j] == some[j] by {}
        if keys[n - 1] is Some && keys[n - 1]->0 < few[i]->0 {
            assert forall|j: int| 0 <= j < some.len() && (#[trigger] some[j]) is Some implies some[n
                - 1]->0 < some[j]->0 || (some[n - 1]->0 == some[j]->0 && n - 1 <= j) by {
                if j < n - 1 {
                    assert(few[j] is Some);
                }
            }
            assert(least_at(some, n - 1));
        } else {
            assert forall|j: int| 0 <= j < some.len() && (#[trigger] some[j]) is Some implies some[
                i
            ]->0 < some[j]->0 || (some[i]->0 == some[j]->0 && i <= j) by {
                if j < n - 1 {
                    assert(few[j] is Some);
                }
            }
            assert(least_at(some, i));
        }
    } else {
        assert(keys[n - 1] is Some);
        assert(least_at(some, n - 1));
    }
}

/// Where no point goes any more, three in a row span at least the limit.
proof fn lemma_rest_spans<F: Fn(usize, usize, usize) -> u64>(
    area: F,
    limit: u64,
    left: Seq<bool>,
    p: int,
    i: int,
    q: int,
)
    requires
        !(exists|i: int| goes(area, limit, left, i)),
        in_a_row(left, p, i, q),
    ensures
        area_of(area, p as usize, i as usize, q as usize) >= limit,
{
    lemma_row(left, p, i, q);
    let keys = spans(area, left);
    assert(keys[i] == span_of(area, left, i));
    assert(keys[i] is Some);
    lemma_least_exists(keys, keys.len() as int);
    assert(keys.take(keys.len() as int) =~= keys);
    let m = choose|m: int| #[trigger] least_at(keys, m);
    assert(!goes(area, limit, left, m));
    assert(keys[m]->0 <= keys[i]->0);
}

/// Thinning takes points away one at a time, each when it may go, and stops when
/// none may.
proof fn lemma_thinned_in_order<F: Fn(usize, usize, usize) -> u64>(
    area: F,
    limit: u64,
    left: Seq<bool>,
) -> (order: Seq<int>)
    requires
        left.len() >= 2,
        left[0],
        left[left.len() - 1],
    ensures
        go_in_order(area, limit, left, order),
        thinned(area, limit, left) == without(left, order, order.len() as int),
        thinned(area, limit, left)[0],
        thinned(area, limit, left)[left.len() - 1],
        forall|p: int, i: int, q: int| #[trigger]
            in_a_row(thinned(area, limit, left), p, i, q) ==> area_of(
                area,
                p as usize,
                i as usize,
                q as usize,
            ) >= limit,
    decreases left_count(left, left.len() as int),
{
    if exists|i: int| goes(area, limit, left, i) {
        let i = choose|i: int| goes(area, limit, left, i);
        lemma_goes_means(area, limit, left, i);
        lemma_count_drops(left, i, left.len() as int);
        let gone = left.update(i, false);
        let rest = lemma_thinned_in_order(area, limit, gone);
        let order = seq![i] + rest;
        assert forall|m: int| 0 <= m < order.len() implies may_go(
            area,
            limit,
            without(left, order, m),
            #[trigger] order[m],
        ) by {
            if m == 0 {
                assert(without(left, order, 0) =~= left);
            } else {
                lemma_without_first(left, i, rest, m - 1);
                assert(may_go(area, limit, without(gone, rest, m - 1), rest[m - 1]));
            }
        }
        lemma_without_first(left, i, rest, rest.len() as int);
        order
    } else {
        let order = Seq::<int>::empty();
        assert(without(left, order, 0) =~= left);
        assert forall|p: int, i: int, q: int| #[trigger]
            in_a_row(thinned(area, limit, left), p, i, q) implies area_of(
            area,
            p as usize,
            i as usize,
            q as usize,
        ) >= limit by {
            lemma_rest_spans(area, limit, left, p, i, q);
        }
        order
    }
}

proof fn lemma_without_first(left: Seq<bool>, i: int, rest: Seq<int>, m: int)
    requires
        0 <= i < left.len(),
        0 <= m <= rest.len(),
    ensures
        without(left, seq![i] + rest, m + 1) == without(left.update(i, false), rest, m),
{
    let order = seq![i] + rest;
    let (more, few) = (order.take(m + 1), rest.take(m));
    assert(more =~= seq![i] + few);
    assert forall|k: int| 0 <= k < left.len() implies more.contains(k) == (k == i || few.contains(
        k,
    )) by {
        if few.contains(k) {
            let v = choose|v: int| 0 <= v < few.len() && few[v] == k;
            assert(more[v + 1] == k);
        }
        if k == i {
            assert(more[0] == k);
        }
        if more.contains(k) && k != i {
            let v = choose|v: int| 0 <= v < more.len() && more[v] == k;
            assert(few[v - 1] == k);
        }
    }
    assert(without(left, order, m + 1) =~= without(left.update(i, false), rest, m));
}

/// A line none of whose points spans less than the smallest area with its two
/// neighbours is returned as it is, however long it is.
pub proof fn lemma_large_triangles_stay<F: Fn(usize, usize, usize) -> u64>(
    points: Seq<Bits>,
    min_area: u64,
    area: F,
)
    requires
        forall|i: int|
            0 < i < points.len() - 1 ==> #[trigger] area_of(
                area,
                (i - 1) as usize,
                i as usize,
                (i + 1) as usize,
            ) >= min_area,
        points.len() <= usize::MAX,
    ensures
        simplified(points, min_area, area) == points,
{
    let all = Seq::new(points.len(), |i: int| true);
    if points.len() >= 3 && !at_most_zero(min_area) {
        if exists|i: int| goes(area, min_area, all, i) {
            let i = choose|i: int| goes(area, min_area, all, i);
            lemma_goes_means(area, min_area, all, i);
            let (p, q) = choose|p: int, q: int| #[trigger]
                in_a_row(all, p, i, q) && area_of(area, p as usize, i as usize, q as usize)
                    < min_area;
            assert(p == i - 1) by {
                if p < i - 1 {
                    assert(!all[i - 1]);
                }
            }
            assert(q == i + 1) by {
                if q > i + 1 {
                    assert(!all[i + 1]);
                }
            }
        }
        lemma_all_selected(points, all);
    }
}

/// What Visvalingam-Whyatt returns for a positive smallest area: a line through
/// both ends and some of the points between, in which every point spans at least
/// that area with its two neighbours. Every point that is missing went at a moment
/// at which it spanned less than that with the neighbours then left, and the least
/// of all.
pub proof fn lemma_visvalingam_drops_small_triangles<F: Fn(usize, usize, usize) -> u64>(
    points: Seq<Bits>,
    min_area: u64,
    area: F,
) -> (found: (Seq<int>, Seq<int>))
    requires
        points.len() >= 3,
        0 < min_area < 0x8000_0000_0000_0000,
    ensures
        ({
            let (at, order) = found;
            let all = Seq::new(points.len(), |i: int| true);
            &&& drawn_through(simplified(points, min_area, area), points, at)
            &&& forall|v: int|
                0 < v < at.len() - 1 ==> area_of(
                    area,
                    at[v - 1] as usize,
                    #[trigger] at[v] as usize,
                    at[v + 1] as usize,
                ) >= min_area
            &&& go_in_order(area, min_area, all, order)
            &&& forall|i: int|
                0 <= i < points.len() ==> #[trigger] at.contains(i) != order.contains(i)
        }),
{
    let all = Seq::new(points.len(), |i: int| true);
    let order = lemma_thinned_in_order(area, min_area, all);
    let left = thinned(area, min_area, all);
    lemma_selection_is_exact(points, left);
    lemma_selection_is_drawn(points, left);
    let at = kept_indices(left, left.len() as int);
    assert forall|v: int| 0 < v < at.len() - 1 implies area_of(
        area,
        at[v - 1] as usize,
        #[trigger] at[v] as usize,
        at[v + 1] as usize,
    ) >= min_area by {
        assert(at[v - 1] < at[v] && at[v] < at[v + 1]);
        assert forall|k: int| at[v - 1] < k < at[v + 1] && k != at[v] implies !#[trigger] left[k] by {
            if k < at[v] {
                assert(at[v - 1] < k < at[v - 1 + 1]);
            }
        }
        assert(in_a_row(left, at[v - 1], at[v], at[v + 1]));
    }
    assert forall|i: int| 0 <= i < points.len() implies #[trigger] at.contains(i)
        != order.contains(i) by {
        assert(order.take(order.len() as int) =~= order);
        assert(left[i] == at.contains(i));
    }
    (at, order)
}

/// A smallest area of zero or less drops nothing, nor does any from a line of
/// fewer than three points.
pub proof fn lemma_no_area_drops_nothing<F: Fn(usize, usize, usize) -> u64>(
    points: Seq<Bits>,
    min_area: u64,
    area: F,
)
    requires
        points.len() < 3 || min_area == 0 || 0x8000_0000_0000_0000 <= min_area
            <= 0xFFF0_0000_0000_0000,
    ensures
        simplified(points, min_area, area) == points,
{
}

} // verus!
