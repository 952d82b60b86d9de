//! The two passes over the geometry that fill a grid, once the floating-point
//! side has said where they go: the cells that ring edges visit, and the
//! spans of subcells that a polygon's rows fill.

use crate::finder::clamped;
use crate::grid::{insert_sorted, sorted_set, NO_ZONE};
use vstd::prelude::*;

verus! {

/// The grid cell at a column and a row, each clamped into the grid.
pub fn cell_at(col: i64, row: i64, ncols: usize, nrows: usize) -> (cell: usize)
    requires
        0 < ncols <= i64::MAX,
        0 < nrows <= i64::MAX,
        ncols * nrows <= usize::MAX,
    ensures
        cell == clamped(row as int, nrows as int) * ncols + clamped(col as int, ncols as int),
        cell < ncols * nrows,
{
    let c: usize = if col < 0 {
        0
    } else if col >= ncols as i64 {
        ncols - 1
    } else {
        col as usize
    };
    let r: usize = if row < 0 {
        0
    } else if row >= nrows as i64 {
        nrows - 1
    } else {
        row as usize
    };
    proof {
        lemma_place(r as int, c as int, ncols as int, nrows as int);
    }
    r * ncols + c
}

/// A place in a row-major table.
proof fn lemma_place(row: int, col: int, ncols: int, nrows: int)
    requires
        0 <= row < nrows,
        0 <= col < ncols,
    ensures
        0 <= row * ncols,
        row * ncols + col < ncols * nrows,
{
    assert(0 <= row * ncols && row * ncols + col < ncols * nrows) by (nonlinear_arith)
        requires
            0 <= row < nrows,
            0 <= col < ncols,
    ;
}

/// Whether one of the first `n` visits takes the zone into the cell.
pub open spec fn visited(visits: Seq<(usize, u16)>, n: int, cell: int, zone: u16) -> bool {
    exists|i: int| 0 <= i < n && (#[trigger] visits[i]).0 == cell && visits[i].1 == zone
}

/// The zones that the first `n` visits take into the cell.
pub open spec fn visitors(visits: Seq<(usize, u16)>, n: int, cell: int) -> spec_fn(u16) -> bool {
    |zone: u16| visited(visits, n, cell, zone)
}

/// Notes a visit, unless it repeats the one before.
pub fn note_visit(visits: &mut Vec<(usize, u16)>, cell: usize, zone: u16)
    ensures
        final(visits)@ == if old(visits)@.len() > 0 && old(visits)@.last() == (cell, zone) {
            old(visits)@
        } else {
            old(visits)@.push((cell, zone))
        },
        forall|c: int, z: u16| #[trigger]
            visited(final(visits)@, final(visits)@.len() as int, c, z) == (visited(
                old(visits)@,
                old(visits)@.len() as int,
                c,
                z,
            ) || (c == cell && z == zone)),
{
    let ghost before = visits@;
    let n: usize = visits.len();
    if n == 0 || visits[n - 1].0 != cell || visits[n - 1].1 != zone {
        visits.push((cell, zone));
    }
    proof {
        let after = visits@;
        assert(after.last() == (cell, zone));
        assert forall|c: int, z: u16| #[trigger] visited(after, after.len() as int, c, z) == (visited(
            before,
            before.len() as int,
            c,
            z,
        ) || (c == cell && z == zone)) by {
            if visited(before, before.len() as int, c, z) {
                let i = choose|i: int|
                    0 <= i < before.len() && (#[trigger] before[i]).0 == c && before[i].1 == z;
                assert(after[i].0 == c && after[i].1 == z);
            }
            if c == cell && z == zone {
                assert(after[after.len() - 1].0 == c);
            }
            if visited(after, after.len() as int, c, z) && !(c == cell && z == zone) {
                let i = choose|i: int|
                    0 <= i < after.len() && (#[trigger] after[i]).0 == c && after[i].1 == z;
                assert(before[i].0 == c && before[i].1 == z);
            }
        }
    }
}

/// Collects the zones of every cell that ring edges pass through: each cell's
/// visitors once, in ascending order.
pub fn collect_visits(total: usize, visits: &[(usize, u16)]) -> (sets: Vec<Vec<u16>>)
    requires
        forall|i: int| 0 <= i < visits@.len() ==> (#[trigger] visits@[i]).0 < total,
    ensures
        sets@.len() == total,
        forall|c: int|
            0 <= c < total ==> sorted_set(
                (#[trigger] sets@[c])@,
                visitors(visits@, visits@.len() as int, c),
            ),
{
    let mut sets: Vec<Vec<u16>> = Vec::new();
    while sets.len() < total
        invariant
            sets@.len() <= total,
            forall|c: int| 0 <= c < sets@.len() ==> (#[trigger] sets@[c])@.len() == 0,
        decreases total - sets@.len(),
    {
        sets.push(Vec::new());
    }
    let mut i: usize = 0;
    while i < visits.len()
        invariant
            i <= visits@.len(),
            sets@.len() == total,
            forall|k: int| 0 <= k < visits@.len() ==> (#[trigger] visits@[k]).0 < total,
            forall|c: int|
                0 <= c < total ==> sorted_set(
                    (#[trigger] sets@[c])@,
                    visitors(visits@, i as int, c),
                ),
        decreases visits@.len() - i,
    {
        let (cell, zone) = visits[i];
        let ghost before = sets@;
        let mut set: Vec<u16> = Vec::new();
        std::mem::swap(&mut set, &mut sets[cell]);
        insert_sorted(&mut set, zone);
        std::mem::swap(&mut set, &mut sets[cell]);
        proof {
            assert forall|c: int| 0 <= c < total implies sorted_set(
                (#[trigger] sets@[c])@,
                visitors(visits@, i + 1, c),
            ) by {
                lemma_visitors_step(visits@, i as int, c);
                assert(sorted_set(before[c]@, visitors(visits@, i as int, c)));
                if c != cell {
                    assert(sets@[c] == before[c]);
                }
            }
        }
        i = i + 1;
    }
    sets
}

/// One more visit adds its zone to its own cell.
proof fn lemma_visitors_step(visits: Seq<(usize, u16)>, n: int, cell: int)
    requires
        0 <= n < visits.len(),
    ensures
        forall|z: u16| #[trigger]
            visitors(visits, n + 1, cell)(z) == (visitors(visits, n, cell)(z) || (visits[n].0 == cell
                && visits[n].1 == z)),
{
    assert forall|z: u16| #[trigger]
        visitors(visits, n + 1, cell)(z) == (visitors(visits, n, cell)(z) || (visits[n].0 == cell
            && visits[n].1 == z)) by {
        if visited(visits, n + 1, cell, z) {
            let i = choose|i: int|
                0 <= i < n + 1 && (#[trigger] visits[i]).0 == cell && visits[i].1 == z;
            if i < n {
                assert(visited(visits, n, cell, z));
            }
        }
        if visited(visits, n, cell, z) {
            let i = choose|i: int|
                0 <= i < n && (#[trigger] visits[i]).0 == cell && visits[i].1 == z;
            assert(visits[i].0 == cell);
        }
        if visits[n].0 == cell && visits[n].1 == z {
            assert(visited(visits, n + 1, cell, z));
        }
    }
}

/// A run of subcells in one row, filled by a zone: from the first column
/// through the last, as far as they lie on the grid.
#[derive(Clone, Copy, PartialEq, Eq, Structural, Debug)]
pub struct Span {
    pub zone: u16,
    pub row: usize,
    pub first: i64,
    pub last: i64,
}

/// The owner of a subcell after the first `n` spans: the last zone to fill it.
pub open spec fn painted(spans: Seq<Span>, n: int, row: int, col: int) -> u16
    decreases n,
{
    if n <= 0 {
        NO_ZONE
    } else if spans[n - 1].row == row && spans[n - 1].first <= col <= spans[n - 1].last {
        spans[n - 1].zone
    } else {
        painted(spans, n - 1, row, col)
    }
}

/// Whether a table holds the owner of every subcell.
pub open spec fn owners_are(owner: Seq<u16>, spans: Seq<Span>, n: int, fcols: int, frows: int) -> bool {
    &&& owner.len() == fcols * frows
    &&& forall|row: int, col: int|
        #![trigger painted(spans, n, row, col)]
        0 <= row < frows && 0 <= col < fcols ==> owner[row * fcols + col] == painted(
            spans,
            n,
            row,
            col,
        )
}

/// Two places of a row-major table are the same only if rows and columns are.
proof fn lemma_distinct(r1: int, c1: int, r2: int, c2: int, ncols: int)
    requires
        0 <= c1 < ncols,
        0 <= c2 < ncols,
        r1 * ncols + c1 == r2 * ncols + c2,
    ensures
        r1 == r2,
        c1 == c2,
{
    assert(r1 == r2) by (nonlinear_arith)
        requires
            0 <= c1 < ncols,
            0 <= c2 < ncols,
            r1 * ncols + c1 == r2 * ncols + c2,
    ;
}

/// Fills the subcells of every span in order; a later span takes over what an
/// earlier one filled.
pub fn paint_owners(fcols: usize, frows: usize, spans: &[Span]) -> (owner: Vec<u16>)
    requires
        fcols <= i64::MAX,
        fcols * frows <= usize::MAX,
        forall|i: int| 0 <= i < spans@.len() ==> (#[trigger] spans@[i]).row < frows,
    ensures
        owners_are(owner@, spans@, spans@.len() as int, fcols as int, frows as int),
{
    let total: usize = fcols * frows;
    let mut owner: Vec<u16> = Vec::new();
    while owner.len() < total
        invariant
            owner@.len() <= total,
            forall|i: int| 0 <= i < owner@.len() ==> owner@[i] == NO_ZONE,
        decreases total - owner@.len(),
    {
        owner.push(NO_ZONE);
    }
    proof {
        assert forall|row: int, col: int|
            #![trigger painted(spans@, 0, row, col)]
            0 <= row < frows && 0 <= col < fcols implies owner@[row * fcols + col] == painted(
            spans@,
            0,
            row,
            col,
        ) by {
            lemma_place(row, col, fcols as int, frows as int);
        }
    }
    let mut i: usize = 0;
    while i < spans.len()
        invariant
            i <= spans@.len(),
            fcols <= i64::MAX,
            total == fcols * frows,
            forall|k: int| 0 <= k < spans@.len() ==> (#[trigger] spans@[k]).row < frows,
            owners_are(owner@, spans@, i as int, fcols as int, frows as int),
        decreases spans@.len() - i,
    {
        let span = spans[i];
        let first: usize = if span.first < 0 {
            0
        } else if span.first >= fcols as i64 {
            fcols
        } else {
            span.first as usize
        };
        let past: usize = if span.last < 0 {
            0
        } else if span.last >= fcols as i64 {
            fcols
        } else {
            (span.last + 1) as usize
        };
        proof {
            if fcols > 0 {
                lemma_place(span.row as int, fcols - 1, fcols as int, frows as int);
            } else {
                assert(span.row * fcols == 0) by (nonlinear_arith)
                    requires
                        fcols == 0,
                ;
            }
        }
        let base: usize = span.row * fcols;
        let ghost before = owner@;
        let mut col: usize = first;
        while col < past
            invariant
                first <= col,
                first < past ==> col <= past,
                first >= past ==> col == first,
                past <= fcols,
                base == span.row * fcols,
                span.row < frows,
                total == fcols * frows,
                owner@.len() == before.len() == total,
                forall|k: int|
                    0 <= k < total ==> #[trigger] owner@[k] == if base + first <= k < base + col {
                        span.zone
                    } else {
                        before[k]
                    },
            decreases past - col,
        {
            proof {
                lemma_place(span.row as int, col as int, fcols as int, frows as int);
            }
            owner.set(base + col, span.zone);
            col = col + 1;
        }
        proof {
            assert forall|row: int, c: int|
                #![trigger painted(spans@, i + 1, row, c)]
                0 <= row < frows && 0 <= c < fcols implies owner@[row * fcols + c] == painted(
                spans@,
                i + 1,
                row,
                c,
            ) by {
                let k = row * fcols + c;
                lemma_place(row, c, fcols as int, frows as int);
                assert(before[k] == painted(spans@, i as int, row, c));
                if base + first <= k < base + col {
                    assert(col == past);
                    lemma_distinct(row, c, span.row as int, k - base, fcols as int);
                }
                if row == span.row {
                    assert(k == base + c);
                }
            }
        }
        i = i + 1;
    }
    owner
}

/// Whether a span fills the subcell at a row and a column.
pub open spec fn fills(span: Span, row: int, col: int) -> bool {
    span.row == row && span.first <= col && col <= span.last
}

/// Whether the last of the spans to fill a subcell is the one at `i`.
pub open spec fn fills_last(spans: Seq<Span>, i: int, row: int, col: int) -> bool {
    &&& 0 <= i < spans.len()
    &&& fills(spans[i], row, col)
    &&& forall|j: int| i < j < spans.len() ==> !fills(#[trigger] spans[j], row, col)
}

/// The owner after some spans is that of the last of them that fills the
/// subcell.
proof fn lemma_painted(spans: Seq<Span>, n: int, row: int, col: int, i: int)
    requires
        0 <= i < n <= spans.len(),
        fills(spans[i], row, col),
        forall|j: int| i < j < n ==> !fills(#[trigger] spans[j], row, col),
    ensures
        painted(spans, n, row, col) == spans[i].zone,
    decreases n,
{
    if i < n - 1 {
        assert(!fills(spans[n - 1], row, col));
        lemma_painted(spans, n - 1, row, col, i);
    }
}

/// Nobody owns what no span fills.
proof fn lemma_unpainted(spans: Seq<Span>, n: int, row: int, col: int)
    requires
        0 <= n <= spans.len(),
        forall|j: int| 0 <= j < n ==> !fills(#[trigger] spans[j], row, col),
    ensures
        painted(spans, n, row, col) == 0xFFFF,
    decreases n,
{
    if n > 0 {
        assert(!fills(spans[n - 1], row, col));
        lemma_unpainted(spans, n - 1, row, col);
    }
}

/// A subcell belongs to the zone of the last span that fills it, and to none
/// where no span does.
pub proof fn lemma_last_fill_owns(
    owner: Seq<u16>,
    spans: Seq<Span>,
    fcols: int,
    frows: int,
    row: int,
    col: int,
)
    requires
        owners_are(owner, spans, spans.len() as int, fcols, frows),
        0 <= row < frows,
        0 <= col < fcols,
    ensures
        owner.len() == fcols * frows,
        forall|i: int| #[trigger]
            fills_last(spans, i, row, col) ==> owner[row * fcols + col] == spans[i].zone,
        (forall|i: int| 0 <= i < spans.len() ==> !fills(#[trigger] spans[i], row, col))
            ==> owner[row * fcols + col] == 0xFFFF,
{
    let n = spans.len() as int;
    assert(owner[row * fcols + col] == painted(spans, n, row, col));
    assert forall|i: int| #[trigger] fills_last(spans, i, row, col) implies owner[row * fcols + col]
        == spans[i].zone by {
        lemma_painted(spans, n, row, col, i);
    }
    if forall|i: int| 0 <= i < spans.len() ==> !fills(#[trigger] spans[i], row, col) {
        lemma_unpainted(spans, n, row, col);
    }
}

/// On the grid a cell is numbered row by row from the first; a column or a
/// row off it counts as the nearest one on it.
pub proof fn lemma_cells_number_row_by_row(col: int, row: int, ncols: int, nrows: int)
    requires
        ncols > 0,
        nrows > 0,
    ensures
        0 <= col < ncols ==> clamped(col, ncols) == col,
        col < 0 ==> clamped(col, ncols) == 0,
        col >= ncols ==> clamped(col, ncols) == ncols - 1,
        0 <= clamped(row, nrows) * ncols + clamped(col, ncols) < ncols * nrows,
        (clamped(row, nrows) * ncols + clamped(col, ncols)) % ncols == clamped(col, ncols),
        (clamped(row, nrows) * ncols + clamped(col, ncols)) / ncols == clamped(row, nrows),
{
    let (r, c) = (clamped(row, nrows), clamped(col, ncols));
    lemma_place(r, c, ncols, nrows);
    vstd::arithmetic::div_mod::lemma_fundamental_div_mod_converse(r * ncols + c, ncols, r, c);
}

/// A cell lists a zone once, in ascending order, exactly where some visit
/// takes it there.
pub proof fn lemma_visits_are_collected(
    set: Seq<u16>,
    visits: Seq<(usize, u16)>,
    cell: usize,
    zone: u16,
)
    requires
        sorted_set(set, visitors(visits, visits.len() as int, cell as int)),
    ensures
        set.contains(zone) <==> visits.contains((cell, zone)),
        forall|i: int, j: int| 0 <= i < j < set.len() ==> set[i] < set[j],
{
    let said = visitors(visits, visits.len() as int, cell as int);
    assert(said(zone) == visited(visits, visits.len() as int, cell as int, zone));
    if said(zone) {
        let i = choose|i: int|
            0 <= i < visits.len() && (#[trigger] visits[i]).0 == cell && visits[i].1 == zone;
        assert(visits[i] == (cell, zone));
    }
    if visits.contains((cell, zone)) {
        let i = choose|i: int| 0 <= i < visits.len() && visits[i] == (cell, zone);
        assert(visits[i].0 == cell && visits[i].1 == zone);
    }
}

} // verus!
