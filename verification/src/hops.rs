//! The fewest hops over the shortcuts of an open polyline, the core of
//! Imai-Iri simplification. Which shortcuts stay within tolerance is the
//! caller's to say, one bit per pair of points.

use vstd::prelude::*;

use crate::rdp::{close, kept_neighbours, within_tolerance};
use crate::thin::left_count;

verus! {

/// Whether bit `j` of a row is set.
pub open spec fn has_bit(row: Seq<u64>, j: int) -> bool {
    (row[j / 64] >> ((j % 64) as u64)) & 1 == 1
}

/// Whether there is a shortcut from point `i` to a later point `j`.
pub open spec fn shortcut(rows: Seq<Vec<u64>>, i: int, j: int) -> bool {
    0 <= i < j < rows.len() && has_bit(rows[i]@, j)
}

/// Whether every row has a bit for every point.
pub open spec fn rows_fill(rows: Seq<Vec<u64>>) -> bool {
    forall|i: int| 0 <= i < rows.len() ==> (#[trigger] rows[i])@.len() * 64 >= rows.len()
}

/// Whether a path goes on from its `k`-th point by a shortcut.
pub open spec fn hop(rows: Seq<Vec<u64>>, path: Seq<usize>, k: int) -> bool {
    shortcut(rows, path[k] as int, path[k + 1] as int)
}

/// Whether a path leads by shortcuts from one point to another.
pub open spec fn leads(rows: Seq<Vec<u64>>, path: Seq<usize>, from: int, to: int) -> bool {
    &&& path.len() > 0
    &&& path[0] == from
    &&& path.last() == to
    &&& forall|k: int|
        0 <= k < path.len() - 1 ==> #[trigger] hop(rows, path, k)
}

/// Whether a path comes before another, or is the same: by the first point in
/// which they differ.
pub open spec fn comes_first(a: Seq<usize>, b: Seq<usize>) -> bool {
    a == b || exists|k: int|
        0 <= k < a.len() && k < b.len() && #[trigger] a[k] < b[k] && a.take(k) == b.take(k)
}

/// Whether a path is the one to take: no path has fewer points, and of those
/// with as few it comes first.
pub open spec fn is_best(rows: Seq<Vec<u64>>, path: Seq<usize>, from: int, to: int) -> bool {
    &&& leads(rows, path, from, to)
    &&& forall|other: Seq<usize>| #[trigger]
        leads(rows, other, from, to) ==> path.len() <= other.len()
    &&& forall|other: Seq<usize>|
        other.len() == path.len() && #[trigger] leads(rows, other, from, to) ==> comes_first(
            path,
            other,
        )
}

/// The number of points on the shortest way from each point to the last, as
/// far as it is known: 0 where there is none.
pub open spec fn distances(rows: Seq<Vec<u64>>, far: Seq<usize>, from: int) -> bool {
    &&& far.len() == rows.len()
    &&& forall|i: int| from <= i < rows.len() ==> distance_is(rows, i, #[trigger] far[i] as int)
}

/// Whether `d` is the number of points on the shortest way from a point to
/// the last, or 0 if there is none.
pub open spec fn distance_is(rows: Seq<Vec<u64>>, i: int, d: int) -> bool {
    let last = rows.len() - 1;
    if d == 0 {
        forall|path: Seq<usize>| !#[trigger] leads(rows, path, i, last)
    } else {
        &&& exists|path: Seq<usize>| #[trigger] leads(rows, path, i, last) && path.len() == d
        &&& forall|path: Seq<usize>| #[trigger] leads(rows, path, i, last) ==> path.len() >= d
    }
}

/// A path with its first point taken off leads on from its second.
proof fn lemma_rest_leads(rows: Seq<Vec<u64>>, path: Seq<usize>, from: int, to: int)
    requires
        leads(rows, path, from, to),
        path.len() > 1,
    ensures
        leads(rows, path.skip(1), path[1] as int, to),
        shortcut(rows, from, path[1] as int),
{
    let rest = path.skip(1);
    assert(hop(rows, path, 0));
    assert forall|k: int| 0 <= k < rest.len() - 1 implies #[trigger] hop(rows, rest, k) by {
        assert(hop(rows, path, k + 1));
    }
}

/// A shortcut before a path leads to where the path does.
proof fn lemma_step_leads(rows: Seq<Vec<u64>>, i: usize, path: Seq<usize>, j: int, to: int)
    requires
        shortcut(rows, i as int, j),
        leads(rows, path, j, to),
    ensures
        leads(rows, seq![i] + path, i as int, to),
{
    let longer = seq![i] + path;
    assert forall|k: int| 0 <= k < longer.len() - 1 implies #[trigger] hop(rows, longer, k) by {
        if k > 0 {
            assert(hop(rows, path, k - 1));
        }
    }
}

/// Whether bit `j` of a row is set.
fn bit(row: &Vec<u64>, j: usize) -> (set: bool)
    requires
        j < row@.len() * 64,
    ensures
        set == has_bit(row@, j as int),
{
    let at: u64 = (j % 64) as u64;
    (row[j / 64] >> at) & 1 == 1
}

/// The nearest of the points that a point has shortcuts to, if any: its
/// distance to the last point, 0 if there is none.
fn nearest(rows: &[Vec<u64>], far: &Vec<usize>, i: usize) -> (d: usize)
    requires
        i < rows@.len(),
        rows_fill(rows@),
        far@.len() == rows@.len(),
    ensures
        d == 0 ==> forall|j: int| #[trigger] shortcut(rows@, i as int, j) ==> far@[j] == 0,
        d > 0 ==> (exists|j: int| #[trigger] shortcut(rows@, i as int, j) && far@[j] == d),
        d > 0 ==> forall|j: int| #[trigger]
            shortcut(rows@, i as int, j) ==> far@[j] == 0 || far@[j] >= d,
{
    let n: usize = rows.len();
    let mut d: usize = 0;
    let mut j: usize = i + 1;
    while j < n
        invariant
            i < j <= n,
            n == rows@.len(),
            rows_fill(rows@),
            far@.len() == n,
            d == 0 ==> forall|k: int| k < j && #[trigger] shortcut(rows@, i as int, k) ==> far@[k]
                == 0,
            d > 0 ==> (exists|k: int| #[trigger] shortcut(rows@, i as int, k) && far@[k] == d),
            d > 0 ==> forall|k: int|
                k < j && #[trigger] shortcut(rows@, i as int, k) ==> far@[k] == 0 || far@[k] >= d,
        decreases n - j,
    {
        assert(rows@[i as int]@.len() * 64 >= n);
        if far[j] > 0 && (d == 0 || far[j] < d) && bit(&rows[i], j) {
            assert(shortcut(rows@, i as int, j as int));
            d = far[j];
        }
        j = j + 1;
    }
    d
}

/// A distance follows from those of the later points.
proof fn lemma_distance(rows: Seq<Vec<u64>>, far: Seq<usize>, i: int, d: int)
    requires
        0 <= i < rows.len() - 1,
        rows.len() <= usize::MAX,
        far.len() == rows.len(),
        forall|j: int| i < j < rows.len() ==> distance_is(rows, j, #[trigger] far[j] as int),
        d >= 0,
        d == 0 ==> forall|j: int| #[trigger] shortcut(rows, i, j) ==> far[j] == 0,
        d > 0 ==> (exists|j: int| #[trigger] shortcut(rows, i, j) && far[j] == d),
        d > 0 ==> forall|j: int| #[trigger] shortcut(rows, i, j) ==> far[j] == 0 || far[j] >= d,
    ensures
        distance_is(
            rows,
            i,
            if d == 0 {
                0
            } else {
                d + 1
            },
        ),
{
    let last = rows.len() - 1;
    assert forall|path: Seq<usize>| #[trigger] leads(rows, path, i, last) implies d > 0
        && path.len() >= d + 1 by {
        assert(path.len() > 1);
        lemma_rest_leads(rows, path, i, last);
        let j = path[1] as int;
        assert(distance_is(rows, j, far[j] as int));
        assert(leads(rows, path.skip(1), j, last));
    }
    if d > 0 {
        let j = choose|j: int| #[trigger] shortcut(rows, i, j) && far[j] == d;
        assert(distance_is(rows, j, far[j] as int));
        let path = choose|path: Seq<usize>| #[trigger]
            leads(rows, path, j, last) && path.len() == d;
        lemma_step_leads(rows, i as usize, path, j, last);
    }
}

/// The last point is on its own shortest way.
proof fn lemma_last(rows: Seq<Vec<u64>>)
    requires
        1 <= rows.len() <= usize::MAX,
    ensures
        distance_is(rows, rows.len() - 1, 1),
{
    let last = (rows.len() - 1) as usize;
    assert(leads(rows, seq![last], last as int, last as int));
    assert(seq![last].len() == 1);
}

/// How far every point is from the last.
fn all_distances(rows: &[Vec<u64>]) -> (far: Vec<usize>)
    requires
        rows@.len() >= 1,
        rows_fill(rows@),
    ensures
        distances(rows@, far@, 0),
{
    let n: usize = rows.len();
    let mut far: Vec<usize> = Vec::new();
    while far.len() < n
        invariant
            far@.len() <= n,
        decreases n - far@.len(),
    {
        far.push(0);
    }
    far.set(n - 1, 1);
    proof {
        lemma_last(rows@);
    }
    let mut i: usize = n - 1;
    while i > 0
        invariant
            i < n,
            n == rows@.len(),
            n <= usize::MAX,
            rows_fill(rows@),
            distances(rows@, far@, i as int),
            forall|j: int| i <= j < n ==> #[trigger] far@[j] <= n - j,
        decreases i,
    {
        let at: usize = i - 1;
        let d: usize = nearest(rows, &far, at);
        proof {
            lemma_distance(rows@, far@, at as int, d as int);
            if d > 0 {
                let j = choose|j: int| #[trigger] shortcut(rows@, at as int, j) && far@[j] == d;
                assert(far@[j] <= n - j);
            }
        }
        let ghost before = far@;
        far.set(
            at,
            if d == 0 {
                0
            } else {
                d + 1
            },
        );
        proof {
            assert forall|j: int| at <= j < n implies distance_is(
                rows@,
                j,
                #[trigger] far@[j] as int,
            ) by {
                if j > at {
                    assert(far@[j] == before[j]);
                }
            }
        }
        i = at;
    }
    far
}

/// The first point that a point has a shortcut to at the given distance from
/// the last.
fn first_nearer(rows: &[Vec<u64>], far: &Vec<usize>, i: usize, d: usize) -> (j: usize)
    requires
        i < rows@.len(),
        rows_fill(rows@),
        far@.len() == rows@.len(),
        exists|j: int| #[trigger] shortcut(rows@, i as int, j) && far@[j] == d,
    ensures
        shortcut(rows@, i as int, j as int),
        far@[j as int] == d,
        forall|k: int| #[trigger] shortcut(rows@, i as int, k) && far@[k] == d ==> j <= k,
{
    let n: usize = rows.len();
    let mut j: usize = i + 1;
    while j < n
        invariant
            i < j <= n,
            n == rows@.len(),
            rows_fill(rows@),
            far@.len() == n,
            forall|k: int| k < j && #[trigger] shortcut(rows@, i as int, k) ==> far@[k] != d,
            exists|k: int| #[trigger] shortcut(rows@, i as int, k) && far@[k] == d,
        decreases n - j,
    {
        assert(rows@[i as int]@.len() * 64 >= n);
        if far[j] == d && bit(&rows[i], j) {
            return j;
        }
        j = j + 1;
    }
    assert(false);
    n
}

/// A point on a shortest way goes on to one that is one nearer.
proof fn lemma_goes_on(rows: Seq<Vec<u64>>, far: Seq<usize>, i: int)
    requires
        distances(rows, far, 0),
        1 <= rows.len() <= usize::MAX,
        0 <= i < rows.len() - 1,
        far[i] > 0,
    ensures
        far[i] > 1,
        exists|j: int| #[trigger] shortcut(rows, i, j) && far[j] == far[i] - 1,
{
    let last = rows.len() - 1;
    assert(distance_is(rows, i, far[i] as int));
    let path = choose|path: Seq<usize>| #[trigger]
        leads(rows, path, i, last) && path.len() == far[i];
    assert(path.len() > 1);
    lemma_rest_leads(rows, path, i, last);
    let j = path[1] as int;
    assert(distance_is(rows, j, far[j] as int));
    assert(leads(rows, path.skip(1), j, last));
    if far[j] < far[i] - 1 {
        let shorter = choose|p: Seq<usize>| #[trigger] leads(rows, p, j, last) && p.len() == far[j];
        lemma_step_leads(rows, i as usize, shorter, j, last);
        assert(false);
    }
    assert(shortcut(rows, i, j) && far[j] == far[i] - 1);
}

/// Going to the first point that is one nearer, and on by the best path from
/// there, is the best path.
proof fn lemma_best_step(
    rows: Seq<Vec<u64>>,
    far: Seq<usize>,
    i: usize,
    j: int,
    rest: Seq<usize>,
)
    requires
        distances(rows, far, 0),
        1 <= rows.len() <= usize::MAX,
        i < rows.len() - 1,
        far[i as int] > 1,
        shortcut(rows, i as int, j),
        far[j] == far[i as int] - 1,
        forall|k: int| #[trigger] shortcut(rows, i as int, k) && far[k] == far[j] ==> j <= k,
        is_best(rows, rest, j, rows.len() - 1),
        rest.len() == far[j],
    ensures
        is_best(rows, seq![i] + rest, i as int, rows.len() - 1),
{
    let last = rows.len() - 1;
    let path = seq![i] + rest;
    lemma_step_leads(rows, i, rest, j, last);
    assert(distance_is(rows, i as int, far[i as int] as int));
    assert forall|other: Seq<usize>|
        other.len() == path.len() && #[trigger] leads(
            rows,
            other,
            i as int,
            last,
        ) implies comes_first(path, other) by {
        lemma_rest_leads(rows, other, i as int, last);
        let k = other[1] as int;
        let tail = other.skip(1);
        assert(distance_is(rows, k, far[k] as int));
        assert(leads(rows, tail, k, last));
        assert(tail.len() == far[j]);
        lemma_nearer(rows, far, i as int, k);
        assert(far[k] == far[j]);
        assert(j <= k);
        if j < k {
            assert(path.take(1) =~= seq![i]);
            assert(other.take(1) =~= seq![i]);
            assert(path[1] < other[1]);
        } else {
            assert(leads(rows, tail, j, last));
            assert(comes_first(rest, tail));
            if rest == tail {
                assert(other =~= seq![i] + tail);
            } else {
                let m = choose|m: int|
                    0 <= m < rest.len() && m < tail.len() && #[trigger] rest[m] < tail[m]
                        && rest.take(m) == tail.take(m);
                assert(path[m + 1] < other[m + 1]);
                assert(path.take(m + 1) =~= seq![i] + rest.take(m));
                assert(other.take(m + 1) =~= seq![i] + tail.take(m));
            }
        }
    }
}

/// A shortcut brings no more than one point nearer.
proof fn lemma_nearer(rows: Seq<Vec<u64>>, far: Seq<usize>, i: int, k: int)
    requires
        distances(rows, far, 0),
        1 <= rows.len() <= usize::MAX,
        shortcut(rows, i, k),
        far[k] > 0,
        far[i] > 0,
    ensures
        far[k] >= far[i] - 1,
{
    let last = rows.len() - 1;
    assert(distance_is(rows, k, far[k] as int));
    assert(distance_is(rows, i, far[i] as int));
    let p = choose|p: Seq<usize>| #[trigger] leads(rows, p, k, last) && p.len() == far[k];
    lemma_step_leads(rows, i as usize, p, k, last);
}

/// The best path from a point that the last can be reached from.
proof fn lemma_best_exists(rows: Seq<Vec<u64>>, far: Seq<usize>, i: int) -> (path: Seq<usize>)
    requires
        distances(rows, far, 0),
        1 <= rows.len() <= usize::MAX,
        0 <= i < rows.len(),
        far[i] > 0,
    ensures
        is_best(rows, path, i, rows.len() - 1),
        path.len() == far[i],
    decreases rows.len() - i,
{
    let last = rows.len() - 1;
    assert(distance_is(rows, i, far[i] as int));
    if i == last {
        let only = seq![i as usize];
        assert(leads(rows, only, i, last));
        assert forall|other: Seq<usize>|
            other.len() == 1 && #[trigger] leads(rows, other, i, last) implies comes_first(
            only,
            other,
        ) by {
            assert(only =~= other);
        }
        only
    } else {
        lemma_goes_on(rows, far, i);
        let j = lemma_least_nearer(rows, far, i, 0);
        let rest = lemma_best_exists(rows, far, j);
        lemma_best_step(rows, far, i as usize, j, rest);
        seq![i as usize] + rest
    }
}

/// Of the points that are one nearer, one is the first.
proof fn lemma_least_nearer(rows: Seq<Vec<u64>>, far: Seq<usize>, i: int, from: int) -> (j: int)
    requires
        0 <= from,
        exists|j: int| #[trigger] shortcut(rows, i, j) && far[j] == far[i] - 1,
        forall|k: int| k < from && #[trigger] shortcut(rows, i, k) ==> far[k] != far[i] - 1,
    ensures
        shortcut(rows, i, j),
        far[j] == far[i] - 1,
        forall|k: int| #[trigger] shortcut(rows, i, k) && far[k] == far[i] - 1 ==> j <= k,
    decreases rows.len() - from,
{
    if shortcut(rows, i, from) && far[from] == far[i] - 1 {
        from
    } else {
        let w = choose|j: int| #[trigger] shortcut(rows, i, j) && far[j] == far[i] - 1;
        assert(w > from);
        lemma_least_nearer(rows, far, i, from + 1)
    }
}

/// What a path has walked so far, and the best path on from there, is the best
/// path from the start.
#[verifier::opaque]
pub open spec fn continues(rows: Seq<Vec<u64>>, walked: Seq<usize>, best: Seq<usize>) -> bool {
    &&& walked.len() > 0
    &&& walked.len() <= best.len()
    &&& walked == best.take(walked.len() as int)
    &&& is_best(rows, best.skip(walked.len() - 1), walked.last() as int, rows.len() - 1)
}

/// Two best paths between the same points are the same.
proof fn lemma_best_unique(rows: Seq<Vec<u64>>, a: Seq<usize>, b: Seq<usize>, from: int, to: int)
    requires
        is_best(rows, a, from, to),
        is_best(rows, b, from, to),
    ensures
        a == b,
{
    assert(a.len() == b.len());
    assert(comes_first(a, b) && comes_first(b, a));
    if a != b {
        let k = choose|k: int|
            0 <= k < a.len() && k < b.len() && #[trigger] a[k] < b[k] && a.take(k) == b.take(k);
        let m = choose|m: int|
            0 <= m < b.len() && m < a.len() && #[trigger] b[m] < a[m] && b.take(m) == a.take(m);
        if k < m {
            assert(a.take(m)[k] == b.take(m)[k]);
        } else if m < k {
            assert(a.take(k)[m] == b.take(k)[m]);
        }
        assert(false);
    }
}

/// Going on to the first point that is one nearer stays on the best path.
proof fn lemma_walk_on(
    rows: Seq<Vec<u64>>,
    far: Seq<usize>,
    walked: Seq<usize>,
    best: Seq<usize>,
    next: usize,
)
    requires
        distances(rows, far, 0),
        1 <= rows.len() <= usize::MAX,
        continues(rows, walked, best),
        walked.last() < rows.len() - 1,
        far[walked.last() as int] > 1,
        best.len() == walked.len() + far[walked.last() as int] - 1,
        shortcut(rows, walked.last() as int, next as int),
        far[next as int] == far[walked.last() as int] - 1,
        forall|k: int| #[trigger]
            shortcut(rows, walked.last() as int, k) && far[k] == far[next as int] ==> next <= k,
    ensures
        continues(rows, walked.push(next), best),
{
    reveal(continues);
    let at = walked.last();
    let rest = best.skip(walked.len() - 1);
    let on = lemma_best_exists(rows, far, next as int);
    lemma_best_step(rows, far, at, next as int, on);
    lemma_best_unique(rows, rest, seq![at] + on, at as int, rows.len() - 1);
    assert(best.skip(walked.len() as int) =~= rest.skip(1));
    assert(rest.skip(1) =~= on);
    assert(best[walked.len() as int] == rest[1]);
    assert(rest[1] == on[0]);
    assert(walked.push(next) =~= best.take(walked.len() as int + 1));
}

/// The best path from the first point to the last over the shortcuts: the one
/// with the fewest points, and of those the one that comes first. `None` if
/// the last point cannot be reached.
pub fn fewest_hops(rows: &[Vec<u64>]) -> (path: Option<Vec<usize>>)
    requires
        rows@.len() >= 1,
        rows_fill(rows@),
    ensures
        path matches Some(path) ==> is_best(rows@, path@, 0, rows@.len() - 1),
        path is None ==> forall|other: Seq<usize>| !#[trigger]
            leads(rows@, other, 0, rows@.len() - 1),
{
    let n: usize = rows.len();
    let far = all_distances(rows);
    assert(distance_is(rows@, 0, far@[0] as int));
    if far[0] == 0 {
        return None;
    }
    let ghost best = lemma_best_exists(rows@, far@, 0);
    let mut path: Vec<usize> = Vec::new();
    path.push(0);
    let mut at: usize = 0;
    proof {
        reveal(continues);
        assert(path@ =~= best.take(1));
        assert(best.skip(0) =~= best);
    }
    while at < n - 1
        invariant
            n == rows@.len(),
            n >= 1,
            at < n,
            rows_fill(rows@),
            distances(rows@, far@, 0),
            far@[at as int] > 0,
            path@.len() > 0,
            path@.last() == at,
            best.len() == path@.len() + far@[at as int] - 1,
            continues(rows@, path@, best),
        decreases n - at,
    {
        proof {
            lemma_goes_on(rows@, far@, at as int);
        }
        let next: usize = first_nearer(rows, &far, at, far[at] - 1);
        proof {
            lemma_walk_on(rows@, far@, path@, best, next);
        }
        path.push(next);
        at = next;
    }
    proof {
        reveal(continues);
        assert(far@[at as int] == 1) by {
            assert(distance_is(rows@, n - 1, far@[at as int] as int));
            lemma_last(rows@);
            assert(leads(rows@, seq![at], n - 1, n - 1));
            assert(seq![at].len() == 1);
        }
        assert(best.take(path@.len() as int) =~= best);
    }
    Some(path)
}

/// The kept points below `m`, in order.
spec fn kept_below(keep: Seq<bool>, m: int) -> Seq<usize>
    decreases m,
{
    if m <= 0 {
        Seq::empty()
    } else if keep[m - 1] {
        kept_below(keep, m - 1).push((m - 1) as usize)
    } else {
        kept_below(keep, m - 1)
    }
}

/// The kept points lead by shortcuts to the last of them.
proof fn lemma_kept_lead<F: Fn(usize, usize, usize) -> u64>(
    off: F,
    rows: Seq<Vec<u64>>,
    keep: Seq<bool>,
    m: int,
)
    requires
        1 <= m <= keep.len() <= usize::MAX,
        rows.len() == keep.len(),
        keep[0],
        within_tolerance(off, keep, 0, keep.len() - 1),
        forall|a: int, b: int|
            0 <= a < b < rows.len() && #[trigger] close(off, a, b) ==> shortcut(rows, a, b),
    ensures
        ({
            let path = kept_below(keep, m);
            &&& path.len() == left_count(keep, m)
            &&& path.len() > 0
            &&& path.last() < m
            &&& keep[path.last() as int]
            &&& forall|i: int| path.last() < i < m ==> !#[trigger] keep[i]
            &&& leads(rows, path, 0, path.last() as int)
        }),
    decreases m,
{
    let path = kept_below(keep, m);
    if m == 1 {
        reveal_with_fuel(kept_below, 2);
        reveal_with_fuel(left_count, 2);
        assert(path =~= seq![0usize]);
    } else {
        lemma_kept_lead(off, rows, keep, m - 1);
        let head = kept_below(keep, m - 1);
        if keep[m - 1] {
            let (a, b) = (head.last() as int, m - 1);
            assert(kept_neighbours(keep, a, b));
            assert(close(off, a, b));
            assert(shortcut(rows, a, b));
            assert forall|k: int| 0 <= k < path.len() - 1 implies #[trigger] hop(rows, path, k) by {
                if k < head.len() - 1 {
                    assert(hop(rows, head, k));
                }
            }
        }
    }
}

/// The fewest hops keep no more points than splitting does at the same
/// tolerance: where every span without a point too far off its chord is a
/// shortcut, the kept points of Ramer-Douglas-Peucker are one way to go.
pub proof fn lemma_no_more_points_than_splitting<F: Fn(usize, usize, usize) -> u64>(
    off: F,
    rows: Seq<Vec<u64>>,
    keep: Seq<bool>,
    path: Seq<usize>,
)
    requires
        1 <= keep.len() <= usize::MAX,
        rows.len() == keep.len(),
        keep[0],
        keep[keep.len() - 1],
        within_tolerance(off, keep, 0, keep.len() - 1),
        forall|a: int, b: int|
            0 <= a < b < rows.len() && #[trigger] close(off, a, b) ==> shortcut(rows, a, b),
        is_best(rows, path, 0, rows.len() - 1),
    ensures
        path.len() <= left_count(keep, keep.len() as int),
{
    let n = keep.len() as int;
    lemma_kept_lead(off, rows, keep, n);
    let other = kept_below(keep, n);
    assert(other.last() == n - 1) by {
        if other.last() < n - 1 {
            assert(!keep[n - 1]);
        }
    }
    assert(leads(rows, other, 0, n - 1));
}

/// Whether a path goes from the first point to the last, always forward and by
/// bits that are set: bit `j` of row `i` stands for the hop from `i` to `j`.
pub open spec fn hops_through(rows: Seq<Vec<u64>>, path: Seq<usize>) -> bool {
    &&& path.len() > 0
    &&& path[0] == 0
    &&& path[path.len() - 1] == rows.len() - 1
    &&& forall|k: int|
        0 <= k < path.len() - 1 ==> {
            let (i, j) = (#[trigger] path[k], path[k + 1]);
            i < j && j < rows.len() && (rows[i as int]@[j as int / 64] >> ((j % 64) as u64)) & 1
                == 1
        }
}

proof fn lemma_leads_means(rows: Seq<Vec<u64>>, path: Seq<usize>)
    requires
        rows.len() >= 1,
    ensures
        leads(rows, path, 0, rows.len() - 1) == hops_through(rows, path),
{
    if leads(rows, path, 0, rows.len() - 1) {
        assert forall|k: int| 0 <= k < path.len() - 1 implies {
            let (i, j) = (#[trigger] path[k], path[k + 1]);
            i < j && j < rows.len() && (rows[i as int]@[j as int / 64] >> ((j % 64) as u64)) & 1
                == 1
        } by {
            assert(hop(rows, path, k));
        }
    }
    if hops_through(rows, path) {
        assert forall|k: int| 0 <= k < path.len() - 1 implies #[trigger] hop(rows, path, k) by {
            let i = path[k];
        }
    }
}

/// The best path hops over set bits from the first point to the last, and no other
/// such path has fewer points.
pub proof fn lemma_best_has_the_fewest_points(rows: Seq<Vec<u64>>, path: Seq<usize>)
    requires
        rows.len() >= 1,
        is_best(rows, path, 0, rows.len() - 1),
    ensures
        hops_through(rows, path),
        forall|other: Seq<usize>| #[trigger]
            hops_through(rows, other) ==> path.len() <= other.len(),
{
    lemma_leads_means(rows, path);
    assert forall|other: Seq<usize>| #[trigger] hops_through(rows, other) implies path.len()
        <= other.len() by {
        lemma_leads_means(rows, other);
    }
}

/// Where there is no best path, no path hops over set bits to the last point.
pub proof fn lemma_no_way_is_no_way(rows: Seq<Vec<u64>>, path: Seq<usize>)
    requires
        rows.len() >= 1,
        hops_through(rows, path),
    ensures
        leads(rows, path, 0, rows.len() - 1),
{
    lemma_leads_means(rows, path);
}

} // verus!
