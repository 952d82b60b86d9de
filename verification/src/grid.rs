//! Grid + interned CSR: per-cell candidate sets and dominant zones from a
//! rasterized world, and the candidate lists stored once each.

use vstd::prelude::*;

verus! {

/// Marks a cell or subcell no zone owns.
pub const NO_ZONE: u16 = 0xFFFF;

/// A rasterized grid.
pub struct CellGrid {
    /// cell size in degrees, as the bit pattern of its `f64`
    pub deg: u64,
    pub ncols: usize,
    pub nrows: usize,
    /// sorted candidate ids per cell
    pub sets: Vec<Vec<u16>>,
    /// dominant zone per cell from subcell ownership (`NO_ZONE` if nothing filled)
    pub dominant: Vec<u16>,
    /// per-cell subcell ownership tallies (candidate id, subcells owned), by id
    pub tallies: Vec<Vec<(u16, u32)>>,
}

/// How many of the `n` subcells from `base` on zone `z` owns.
pub open spec fn owned_run(owner: Seq<u16>, base: int, z: u16, n: int) -> nat
    decreases n,
{
    if n <= 0 {
        0
    } else {
        owned_run(owner, base, z, n - 1) + if owner[base + n - 1] == z { 1nat } else { 0nat }
    }
}

/// How many subcells zone `z` owns in the first `rows` subcell rows of the
/// cell whose first subcell is at `base`, `sub` subcells to a row.
pub open spec fn owned_rows(owner: Seq<u16>, fcols: int, base: int, sub: int, z: u16, rows: int) -> nat
    decreases rows,
{
    if rows <= 0 {
        0
    } else {
        owned_rows(owner, fcols, base, sub, z, rows - 1) + owned_run(
            owner,
            base + (rows - 1) * fcols,
            z,
            sub,
        )
    }
}

/// The index of the first subcell of a cell.
pub open spec fn cell_base(ncols: int, sub: int, cell: int) -> int {
    (cell / ncols) * sub * (ncols * sub) + (cell % ncols) * sub
}

/// How many subcells of a cell zone `z` owns. Nothing is owned by no zone.
pub open spec fn owned(owner: Seq<u16>, ncols: int, sub: int, cell: int, z: u16) -> nat {
    if z == NO_ZONE {
        0
    } else {
        owned_rows(owner, ncols * sub, cell_base(ncols, sub, cell), sub, z, sub)
    }
}

/// Whether a tally lists exactly the ids with a positive count, by id.
pub open spec fn tally_of(t: Seq<(u16, u32)>, count: spec_fn(u16) -> nat) -> bool {
    &&& forall|i: int, j: int| 0 <= i < j < t.len() ==> (#[trigger] t[i]).0 < (#[trigger] t[j]).0
    &&& forall|i: int|
        0 <= i < t.len() ==> (#[trigger] t[i]).1 == count(t[i].0) && count(t[i].0) > 0
    &&& forall|z: u16| #[trigger]
        count(z) > 0 ==> exists|i: int| 0 <= i < t.len() && (#[trigger] t[i]).0 == z
}

/// Whether `d` is the id with the largest count, the smallest such id on a
/// tie, or `NO_ZONE` where every count is zero.
pub open spec fn dominant_of(d: u16, count: spec_fn(u16) -> nat) -> bool {
    if d == NO_ZONE {
        forall|z: u16| #[trigger] count(z) == 0
    } else {
        count(d) > 0 && forall|z: u16|
            (#[trigger] count(z)) < count(d) || (count(z) == count(d) && d <= z)
    }
}

/// Whether ids ascend strictly.
pub open spec fn ascending(v: Seq<u16>) -> bool {
    forall|i: int, j: int| 0 <= i < j < v.len() ==> (#[trigger] v[i]) < (#[trigger] v[j])
}

/// Whether `v` holds exactly the ids of a set, ascending.
pub open spec fn sorted_set(v: Seq<u16>, member: spec_fn(u16) -> bool) -> bool {
    ascending(v) && forall|z: u16| #[trigger] v.contains(z) == member(z)
}

/// The ownership counts of a cell.
pub open spec fn counts(owner: Seq<u16>, ncols: int, sub: int, cell: int) -> spec_fn(u16) -> nat {
    |z: u16| owned(owner, ncols, sub, cell, z)
}

/// The candidates of a cell: the ids whose rings pass through it, and the ids
/// that own a part of it.
pub open spec fn candidates(walked: Seq<u16>, count: spec_fn(u16) -> nat) -> spec_fn(u16) -> bool {
    |z: u16| walked.contains(z) || count(z) > 0
}

/// Whether a grid aggregates the walked candidates and the subcell owners.
pub open spec fn aggregates(
    grid: CellGrid,
    ncols: int,
    sub: int,
    walked: Seq<Vec<u16>>,
    owner: Seq<u16>,
) -> bool {
    &&& grid.sets@.len() == walked.len()
    &&& grid.dominant@.len() == walked.len()
    &&& grid.tallies@.len() == walked.len()
    &&& forall|c: int|
        #![trigger grid.sets@[c]]
        #![trigger grid.dominant@[c]]
        #![trigger grid.tallies@[c]]
        0 <= c < walked.len() ==> {
            let count = counts(owner, ncols, sub, c);
            &&& tally_of(grid.tallies@[c]@, count)
            &&& dominant_of(grid.dominant@[c], count)
            &&& sorted_set(grid.sets@[c]@, candidates(walked[c]@, count))
        }
}

/// Counts with one more for `z`.
spec fn plus_one(count: spec_fn(u16) -> nat, z: u16) -> spec_fn(u16) -> nat {
    |y: u16| count(y) + if y == z { 1nat } else { 0nat }
}

/// Counts one more subcell for `z`.
fn bump(t: &mut Vec<(u16, u32)>, z: u16, count: Ghost<spec_fn(u16) -> nat>)
    requires
        tally_of(old(t)@, count@),
        count@(z) < u32::MAX,
    ensures
        tally_of(final(t)@, plus_one(count@, z)),
{
    let ghost t0 = t@;
    let ghost more = plus_one(count@, z);
    let mut i: usize = 0;
    while i < t.len() && t[i].0 < z
        invariant
            i <= t@.len(),
            t@ == t0,
            forall|j: int| 0 <= j < i ==> (#[trigger] t0[j]).0 < z,
        decreases t@.len() - i,
    {
        i = i + 1;
    }
    if i < t.len() && t[i].0 == z {
        let n = t[i].1;
        t.set(i, (z, n + 1));
        proof {
            assert forall|j: int| 0 <= j < t@.len() implies (#[trigger] t@[j]).1 == more(t@[j].0)
                && more(t@[j].0) > 0 by {
                assert(t0[j].1 == count@(t0[j].0));
                if j != i {
                    assert(t0[j].0 != z);
                }
            }
            assert forall|y: u16| #[trigger] more(y) > 0 implies exists|j: int|
                0 <= j < t@.len() && (#[trigger] t@[j]).0 == y by {
                if y == z {
                    assert(t@[i as int].0 == z);
                } else {
                    assert(count@(y) > 0);
                    let j = choose|j: int| 0 <= j < t0.len() && (#[trigger] t0[j]).0 == y;
                    assert(t@[j].0 == y);
                }
            }
        }
    } else {
        proof {
            if count@(z) > 0 {
                let j = choose|j: int| 0 <= j < t0.len() && (#[trigger] t0[j]).0 == z;
                if j > i {
                    assert(t0[i as int].0 < t0[j].0);
                }
                assert(false);
            }
        }
        t.insert(i, (z, 1));
        proof {
            assert forall|j: int| 0 <= j < t@.len() implies (#[trigger] t@[j]).1 == more(t@[j].0)
                && more(t@[j].0) > 0 by {
                if j < i {
                    assert(t@[j] == t0[j]);
                } else if j > i {
                    assert(t@[j] == t0[j - 1]);
                    if t0[j - 1].0 == z {
                        assert(count@(z) > 0);
                    }
                }
            }
            assert forall|y: u16| #[trigger] more(y) > 0 implies exists|j: int|
                0 <= j < t@.len() && (#[trigger] t@[j]).0 == y by {
                if y == z {
                    assert(t@[i as int].0 == z);
                } else {
                    assert(count@(y) > 0);
                    let j = choose|j: int| 0 <= j < t0.len() && (#[trigger] t0[j]).0 == y;
                    if j < i {
                        assert(t@[j].0 == y);
                    } else {
                        assert(t@[j + 1].0 == y);
                    }
                }
            }
            assert forall|a: int, b: int| 0 <= a < b < t@.len() implies (#[trigger] t@[a]).0 < (
            #[trigger] t@[b]).0 by {
                let a0 = if a < i { a } else { a - 1 };
                let b0 = if b < i { b } else { b - 1 };
                if a != i && b != i {
                    assert(t0[a0].0 < t0[b0].0);
                } else if b == i {
                    assert(t0[a].0 < z);
                } else {
                    assert(t0[i as int].0 >= z);
                    if b0 > i {
                        assert(t0[i as int].0 < t0[b0].0);
                    }
                    assert(t0[i as int].0 != z) by {
                        if t0[i as int].0 == z {
                            assert(count@(z) > 0);
                        }
                    }
                }
            }
        }
    }
}

/// Adds an id to an ascending list, once.
pub fn insert_sorted(v: &mut Vec<u16>, z: u16)
    requires
        ascending(old(v)@),
    ensures
        ascending(final(v)@),
        forall|y: u16| #[trigger] final(v)@.contains(y) == (old(v)@.contains(y) || y == z),
{
    let ghost v0 = v@;
    let mut i: usize = 0;
    while i < v.len() && v[i] < z
        invariant
            i <= v@.len(),
            v@ == v0,
            forall|j: int| 0 <= j < i ==> (#[trigger] v0[j]) < z,
        decreases v@.len() - i,
    {
        i = i + 1;
    }
    if i < v.len() && v[i] == z {
        assert(v0[i as int] == z);
        return;
    }
    v.insert(i, z);
    proof {
        assert forall|a: int, b: int| 0 <= a < b < v@.len() implies (#[trigger] v@[a]) < (
        #[trigger] v@[b]) by {
            let a0 = if a < i { a } else { a - 1 };
            let b0 = if b < i { b } else { b - 1 };
            if a != i && b != i {
                assert(v0[a0] < v0[b0]);
            } else if b == i {
                assert(v0[a] < z);
            } else if b0 > i {
                assert(v0[i as int] < v0[b0]);
            }
        }
        assert forall|y: u16| #[trigger] v@.contains(y) == (v0.contains(y) || y == z) by {
            if v0.contains(y) {
                let j = choose|j: int| 0 <= j < v0.len() && v0[j] == y;
                assert(v@[if j < i { j } else { j + 1 }] == y);
            }
            if y == z {
                assert(v@[i as int] == z);
            }
            if v@.contains(y) && y != z {
                let j = choose|j: int| 0 <= j < v@.len() && v@[j] == y;
                assert(v0[if j < i { j } else { j - 1 }] == y);
            }
        }
    }
}

/// The id with the largest count of a tally.
fn dominant(t: &Vec<(u16, u32)>, count: Ghost<spec_fn(u16) -> nat>) -> (d: u16)
    requires
        tally_of(t@, count@),
        count@(NO_ZONE) == 0,
    ensures
        dominant_of(d, count@),
{
    let mut best: usize = 0;
    let mut i: usize = 0;
    while i < t.len()
        invariant
            i <= t@.len(),
            i > 0 ==> best < i,
            i == 0 ==> best == 0,
            forall|a: int, b: int|
                0 <= a < b < t@.len() ==> (#[trigger] t@[a]).0 < (#[trigger] t@[b]).0,
            forall|j: int|
                0 <= j < i ==> (#[trigger] t@[j]).1 < t@[best as int].1 || (t@[j].1
                    == t@[best as int].1 && t@[best as int].0 <= t@[j].0),
        decreases t@.len() - i,
    {
        if i == 0 || t[i].1 > t[best].1 {
            best = i;
        } else {
            assert(t@[best as int].0 < t@[i as int].0);
        }
        i = i + 1;
    }
    if t.len() == 0 {
        NO_ZONE
    } else {
        proof {
            let d = t@[best as int].0;
            assert(count@(d) > 0);
            assert forall|z: u16|
                (#[trigger] count@(z)) < count@(d) || (count@(z) == count@(d) && d <= z) by {
                if count@(z) > 0 {
                    let j = choose|j: int| 0 <= j < t@.len() && (#[trigger] t@[j]).0 == z;
                    assert(t@[j].1 == count@(z));
                }
            }
        }
        t[best].0
    }
}

proof fn lemma_run_bound(owner: Seq<u16>, base: int, z: u16, n: int)
    requires
        n >= 0,
    ensures
        owned_run(owner, base, z, n) <= n,
    decreases n,
{
    if n > 0 {
        lemma_run_bound(owner, base, z, n - 1);
    }
}

proof fn lemma_rows_bound(owner: Seq<u16>, fcols: int, base: int, sub: int, z: u16, rows: int)
    requires
        rows >= 0,
        sub >= 0,
    ensures
        owned_rows(owner, fcols, base, sub, z, rows) <= rows * sub,
    decreases rows,
{
    if rows > 0 {
        lemma_rows_bound(owner, fcols, base, sub, z, rows - 1);
        lemma_run_bound(owner, base + (rows - 1) * fcols, z, sub);
        assert(rows * sub == (rows - 1) * sub + sub) by (nonlinear_arith);
    } else {
        assert(rows * sub == 0) by (nonlinear_arith)
            requires
                rows == 0,
        ;
    }
}

/// The counts of a cell after `rows` whole subcell rows and `n` subcells of
/// the next.
spec fn partial(owner: Seq<u16>, fcols: int, base: int, sub: int, rows: int, n: int) -> spec_fn(
    u16,
) -> nat {
    |z: u16|
        if z == NO_ZONE {
            0
        } else {
            owned_rows(owner, fcols, base, sub, z, rows) + owned_run(
                owner,
                base + rows * fcols,
                z,
                n,
            )
        }
}

/// The subcell ownership tally of the cell whose first subcell is at `base`.
fn tally_cell(owner: &[u16], fcols: usize, base: usize, sub: usize) -> (t: Vec<(u16, u32)>)
    requires
        sub * sub <= u32::MAX,
        forall|r: int, k: int|
            0 <= r < sub && 0 <= k < sub ==> #[trigger] subcell_index(
                base as int,
                fcols as int,
                r,
                k,
            ) < owner@.len(),
    ensures
        tally_of(
            t@,
            partial(owner@, fcols as int, base as int, sub as int, sub as int, 0),
        ),
{
    let total = owner.len();
    let mut t: Vec<(u16, u32)> = Vec::new();
    let mut row: usize = base;
    let mut r: usize = 0;
    proof {
        assert(row as int == base + 0 * fcols) by (nonlinear_arith)
            requires
                row == base,
        ;
    }
    while r < sub
        invariant
            r <= sub,
            total == owner@.len(),
            sub * sub <= u32::MAX,
            r < sub ==> row == base + r * fcols,
            forall|r: int, k: int|
                0 <= r < sub && 0 <= k < sub ==> #[trigger] subcell_index(
                    base as int,
                    fcols as int,
                    r,
                    k,
                ) < owner@.len(),
            tally_of(t@, partial(owner@, fcols as int, base as int, sub as int, r as int, 0)),
        decreases sub - r,
    {
        let mut k: usize = 0;
        while k < sub
            invariant
                k <= sub,
                r < sub,
                total == owner@.len(),
                sub * sub <= u32::MAX,
                row == base + r * fcols,
                forall|r: int, k: int|
                    0 <= r < sub && 0 <= k < sub ==> #[trigger] subcell_index(
                        base as int,
                        fcols as int,
                        r,
                        k,
                    ) < owner@.len(),
                tally_of(
                    t@,
                    partial(owner@, fcols as int, base as int, sub as int, r as int, k as int),
                ),
            decreases sub - k,
        {
            assert(subcell_index(base as int, fcols as int, r as int, k as int) < owner@.len());
            let z = owner[row + k];
            let ghost count = partial(
                owner@,
                fcols as int,
                base as int,
                sub as int,
                r as int,
                k as int,
            );
            let ghost next = partial(
                owner@,
                fcols as int,
                base as int,
                sub as int,
                r as int,
                k as int + 1,
            );
            if z != NO_ZONE {
                proof {
                    lemma_rows_bound(
                        owner@,
                        fcols as int,
                        base as int,
                        sub as int,
                        z,
                        r as int,
                    );
                    lemma_run_bound(owner@, base + r * fcols, z, k as int);
                    assert(r * sub + k < sub * sub) by (nonlinear_arith)
                        requires
                            r < sub,
                            k < sub,
                    ;
                }
                bump(&mut t, z, Ghost(count));
                assert(plus_one(count, z) =~= next);
            } else {
                assert(count =~= next);
            }
            k = k + 1;
        }
        proof {
            let a = partial(owner@, fcols as int, base as int, sub as int, r as int, sub as int);
            let b = partial(owner@, fcols as int, base as int, sub as int, r as int + 1, 0);
            assert(a =~= b);
        }
        r = r + 1;
        if r < sub {
            proof {
                assert(subcell_index(base as int, fcols as int, r as int, 0) < owner@.len());
                assert(base + r * fcols == base + (r - 1) * fcols + fcols) by (nonlinear_arith);
            }
            row = row + fcols;
        }
    }
    t
}

/// The index of a cell's subcell in row `r`, column `k`.
pub open spec fn subcell_index(base: int, fcols: int, r: int, k: int) -> int {
    base + r * fcols + k
}

proof fn lemma_subcells(ncols: int, nrows: int, sub: int, cell: int, r: int, k: int)
    requires
        0 <= cell < ncols * nrows,
        0 < ncols,
        0 <= r < sub,
        0 <= k < sub,
    ensures
        0 <= cell_base(ncols, sub, cell),
        0 <= subcell_index(cell_base(ncols, sub, cell), ncols * sub, r, k) < (ncols * sub) * (nrows
            * sub),
{
    let cj = cell / ncols;
    let ci = cell % ncols;
    let fcols = ncols * sub;
    assert(cell == cj * ncols + ci && 0 <= ci < ncols) by (nonlinear_arith)
        requires
            cj == cell / ncols,
            ci == cell % ncols,
            0 < ncols,
    ;
    assert(0 <= cj < nrows) by (nonlinear_arith)
        requires
            cell == cj * ncols + ci,
            0 <= ci < ncols,
            0 <= cell < ncols * nrows,
    ;
    assert(0 <= ci * sub && ci * sub + sub <= fcols) by (nonlinear_arith)
        requires
            0 <= ci < ncols,
            0 < sub,
            fcols == ncols * sub,
    ;
    assert(0 <= cj * sub + r && cj * sub + r + 1 <= nrows * sub && 0 <= cj * sub)
        by (nonlinear_arith)
        requires
            0 <= cj < nrows,
            0 <= r < sub,
    ;
    let fj = cj * sub + r;
    let fi = ci * sub + k;
    assert(cj * sub * fcols + r * fcols == fj * fcols) by (nonlinear_arith)
        requires
            fj == cj * sub + r,
    ;
    assert(0 <= fj * fcols && fj * fcols + fi < (nrows * sub) * fcols && 0 <= cj * sub * fcols)
        by (nonlinear_arith)
        requires
            0 <= fj,
            fj + 1 <= nrows * sub,
            0 <= fi < fcols,
            0 <= cj * sub,
    ;
    assert((nrows * sub) * fcols == fcols * (nrows * sub)) by (nonlinear_arith);
}

/// Aggregates a rasterized world to cells: `walked` lists per cell the ids
/// whose rings pass through it, `owner` gives the owning id of every subcell,
/// on a grid `sub` times finer, row by row.
///
/// The candidates of a cell are both together: where zones deliberately
/// overlap, a zone that covers a whole cell leaves no ring in it.
pub fn build(
    deg: u64,
    ncols: usize,
    nrows: usize,
    sub: usize,
    walked: &[Vec<u16>],
    owner: &[u16],
) -> (grid: CellGrid)
    requires
        ncols > 0,
        sub > 0,
        walked@.len() == ncols * nrows,
        owner@.len() == (ncols * sub) * (nrows * sub),
        sub * sub <= u32::MAX,
    ensures
        grid.deg == deg,
        grid.ncols == ncols,
        grid.nrows == nrows,
        aggregates(grid, ncols as int, sub as int, walked@, owner@),
{
    let total = owner.len();
    let mut sets: Vec<Vec<u16>> = Vec::new();
    let mut dominants: Vec<u16> = Vec::new();
    let mut tallies: Vec<Vec<(u16, u32)>> = Vec::new();
    let mut c: usize = 0;
    while c < walked.len()
        invariant
            c <= walked@.len(),
            ncols > 0,
            sub > 0,
            walked@.len() == ncols * nrows,
            total == owner@.len(),
            owner@.len() == (ncols * sub) * (nrows * sub),
            sub * sub <= u32::MAX,
            aggregates(
                CellGrid { deg, ncols, nrows, sets, dominant: dominants, tallies },
                ncols as int,
                sub as int,
                walked@.take(c as int),
                owner@,
            ),
        decreases walked@.len() - c,
    {
        proof {
            lemma_subcells(ncols as int, nrows as int, sub as int, c as int, 0, 0);
            lemma_cell_fits(ncols as int, nrows as int, sub as int, c as int);
        }
        let fcols = ncols * sub;
        let row = c / ncols;
        let col = c % ncols;
        let base = row * sub * fcols + col * sub;
        assert forall|r: int, k: int| 0 <= r < sub && 0 <= k < sub implies #[trigger] subcell_index(
            base as int,
            fcols as int,
            r,
            k,
        ) < owner@.len() by {
            lemma_subcells(ncols as int, nrows as int, sub as int, c as int, r, k);
        }
        let t = tally_cell(owner, fcols, base, sub);
        let ghost count = counts(owner@, ncols as int, sub as int, c as int);
        proof {
            let p = partial(owner@, fcols as int, base as int, sub as int, sub as int, 0);
            assert(p =~= count);
        }
        let d = dominant(&t, Ghost(count));
        let set = candidate_set(&walked[c], &t, Ghost(count));
        let ghost before = CellGrid { deg, ncols, nrows, sets, dominant: dominants, tallies };
        sets.push(set);
        dominants.push(d);
        tallies.push(t);
        proof {
            let w0 = walked@.take(c as int);
            let w1 = walked@.take(c as int + 1);
            let after = CellGrid { deg, ncols, nrows, sets, dominant: dominants, tallies };
            assert forall|i: int|
                #![trigger after.sets@[i]]
                #![trigger after.dominant@[i]]
                #![trigger after.tallies@[i]]
                0 <= i < w1.len() implies {
                let count = counts(owner@, ncols as int, sub as int, i);
                &&& tally_of(after.tallies@[i]@, count)
                &&& dominant_of(after.dominant@[i], count)
                &&& sorted_set(after.sets@[i]@, candidates(w1[i]@, count))
            } by {
                if i < c {
                    assert(w0[i] == w1[i]);
                    assert(after.sets@[i] == before.sets@[i]);
                    assert(after.dominant@[i] == before.dominant@[i]);
                    assert(after.tallies@[i] == before.tallies@[i]);
                }
            }
        }
        c = c + 1;
    }
    assert(walked@.take(walked@.len() as int) =~= walked@);
    CellGrid { deg, ncols, nrows, sets, dominant: dominants, tallies }
}

proof fn lemma_cell_fits(ncols: int, nrows: int, sub: int, cell: int)
    requires
        0 <= cell < ncols * nrows,
        0 < ncols,
        0 < sub,
    ensures
        0 <= ncols * sub <= (ncols * sub) * (nrows * sub),
        0 <= (cell / ncols) * sub <= (cell / ncols) * sub * (ncols * sub),
        0 <= (cell % ncols) * sub,
        cell_base(ncols, sub, cell) < (ncols * sub) * (nrows * sub),
{
    lemma_subcells(ncols, nrows, sub, cell, 0, 0);
    let cj = cell / ncols;
    let ci = cell % ncols;
    assert(0 <= ci < ncols && 0 <= cj) by (nonlinear_arith)
        requires
            cj == cell / ncols,
            ci == cell % ncols,
            0 < ncols,
            0 <= cell,
    ;
    assert(nrows > 0) by (nonlinear_arith)
        requires
            0 <= cell < ncols * nrows,
            0 < ncols,
    ;
    let fcols = ncols * sub;
    let frows = nrows * sub;
    assert(fcols > 0) by (nonlinear_arith)
        requires
            fcols == ncols * sub,
            0 < ncols,
            0 < sub,
    ;
    assert(frows > 0) by (nonlinear_arith)
        requires
            frows == nrows * sub,
            0 < nrows,
            0 < sub,
    ;
    assert(fcols <= fcols * frows) by (nonlinear_arith)
        requires
            0 < fcols,
            0 < frows,
    ;
    let a = cj * sub;
    assert(0 <= a) by (nonlinear_arith)
        requires
            a == cj * sub,
            0 <= cj,
            0 < sub,
    ;
    assert(a <= a * fcols) by (nonlinear_arith)
        requires
            0 <= a,
            0 < fcols,
    ;
    assert(0 <= ci * sub) by (nonlinear_arith)
        requires
            0 <= ci,
            0 < sub,
    ;
    assert(0 * fcols == 0) by (nonlinear_arith);
}

/// The candidates of one cell, ascending.
fn candidate_set(
    walked: &Vec<u16>,
    t: &Vec<(u16, u32)>,
    count: Ghost<spec_fn(u16) -> nat>,
) -> (set: Vec<u16>)
    requires
        tally_of(t@, count@),
    ensures
        sorted_set(set@, candidates(walked@, count@)),
{
    let mut set: Vec<u16> = Vec::new();
    let mut i: usize = 0;
    while i < walked.len()
        invariant
            i <= walked@.len(),
            ascending(set@),
            forall|z: u16| #[trigger] set@.contains(z) == walked@.take(i as int).contains(z),
        decreases walked@.len() - i,
    {
        let z = walked[i];
        insert_sorted(&mut set, z);
        assert(walked@.take(i as int + 1) =~= walked@.take(i as int).push(z));
        assert forall|y: u16| #[trigger] set@.contains(y) == walked@.take(i as int + 1).contains(
            y,
        ) by {
            let w0 = walked@.take(i as int);
            let w1 = w0.push(z);
            if w0.contains(y) {
                let j = choose|j: int| 0 <= j < w0.len() && w0[j] == y;
                assert(w1[j] == y);
            }
            if y == z {
                assert(w1[i as int] == y);
            }
            if w1.contains(y) && y != z {
                let j = choose|j: int| 0 <= j < w1.len() && w1[j] == y;
                assert(w0[j] == y);
            }
        }
        i = i + 1;
    }
    assert(walked@.take(walked@.len() as int) =~= walked@);
    let mut k: usize = 0;
    while k < t.len()
        invariant
            k <= t@.len(),
            ascending(set@),
            forall|z: u16| #[trigger]
                set@.contains(z) == (walked@.contains(z) || exists|j: int|
                    0 <= j < k && (#[trigger] t@[j]).0 == z),
        decreases t@.len() - k,
    {
        let ghost before = set@;
        insert_sorted(&mut set, t[k].0);
        assert forall|z: u16| #[trigger] set@.contains(z) == (walked@.contains(z) || exists|j: int|
            0 <= j < k + 1 && (#[trigger] t@[j]).0 == z) by {
            if before.contains(z) && !walked@.contains(z) {
                let j = choose|j: int| 0 <= j < k && (#[trigger] t@[j]).0 == z;
                assert(t@[j].0 == z);
            }
            if z == t@[k as int].0 {
                assert(t@[k as int].0 == z);
            }
        }
        k = k + 1;
    }
    assert forall|z: u16| #[trigger] set@.contains(z) == candidates(walked@, count@)(z) by {
        if count@(z) > 0 {
            let j = choose|j: int| 0 <= j < t@.len() && (#[trigger] t@[j]).0 == z;
            assert(t@[j].0 == z);
        }
    }
    set
}

/// The subcells of the cell in row `row`, column `col` that a zone owns, by
/// their place in the cell.
pub open spec fn subcells_of(
    owner: Seq<u16>,
    ncols: int,
    sub: int,
    row: int,
    col: int,
    z: u16,
) -> Set<(int, int)> {
    Set::new(
        |e: (int, int)|
            0 <= e.0 < sub && 0 <= e.1 < sub && owner[(row * sub + e.0) * (ncols * sub) + (col * sub
                + e.1)] == z,
    )
}

/// The owned places of a run, as a set.
proof fn lemma_run_set(owner: Seq<u16>, base: int, z: u16, n: int)
    requires
        n >= 0,
    ensures
        Set::new(|k: int| 0 <= k < n && owner[base + k] == z).finite(),
        Set::new(|k: int| 0 <= k < n && owner[base + k] == z).len() == owned_run(owner, base, z, n),
    decreases n,
{
    let all = Set::new(|k: int| 0 <= k < n && owner[base + k] == z);
    if n == 0 {
        assert(all =~= Set::empty());
    } else {
        lemma_run_set(owner, base, z, n - 1);
        let few = Set::new(|k: int| 0 <= k < n - 1 && owner[base + k] == z);
        if owner[base + n - 1] == z {
            assert(all =~= few.insert(n - 1));
        } else {
            assert(all =~= few);
        }
    }
}

/// The owned places of rows, as a set.
proof fn lemma_rows_set(owner: Seq<u16>, fcols: int, base: int, sub: int, z: u16, rows: int)
    requires
        rows >= 0,
        sub >= 0,
    ensures
        ({
            let set = Set::new(
                |e: (int, int)|
                    0 <= e.0 < rows && 0 <= e.1 < sub && owner[base + e.0 * fcols + e.1] == z,
            );
            set.finite() && set.len() == owned_rows(owner, fcols, base, sub, z, rows)
        }),
    decreases rows,
{
    let all = Set::new(
        |e: (int, int)| 0 <= e.0 < rows && 0 <= e.1 < sub && owner[base + e.0 * fcols + e.1] == z,
    );
    if rows == 0 {
        assert(all =~= Set::empty());
    } else {
        lemma_rows_set(owner, fcols, base, sub, z, rows - 1);
        let few = Set::new(
            |e: (int, int)|
                0 <= e.0 < rows - 1 && 0 <= e.1 < sub && owner[base + e.0 * fcols + e.1] == z,
        );
        let at = base + (rows - 1) * fcols;
        lemma_run_set(owner, at, z, sub);
        let run = Set::new(|k: int| 0 <= k < sub && owner[at + k] == z);
        let f = |k: int| (rows - 1, k);
        let last = run.map(f);
        run.lemma_map_finite(f);
        vstd::set_lib::lemma_map_size(run, last, f);
        assert forall|e: (int, int)| all.contains(e) == few.union(last).contains(e) by {
            if all.contains(e) && e.0 == rows - 1 {
                assert(run.contains(e.1));
                assert(last.contains(f(e.1)));
            }
        }
        assert(all =~= few.union(last));
        assert(few.disjoint(last));
        vstd::set_lib::lemma_set_disjoint_lens(few, last);
    }
}

/// A cell's count of a zone is the number of its subcells that the zone owns.
proof fn lemma_owned_set(owner: Seq<u16>, ncols: int, sub: int, row: int, col: int, z: u16)
    requires
        0 <= row,
        0 <= col < ncols,
        0 < sub,
        z != NO_ZONE,
    ensures
        subcells_of(owner, ncols, sub, row, col, z).finite(),
        owned(owner, ncols, sub, row * ncols + col, z) == subcells_of(
            owner,
            ncols,
            sub,
            row,
            col,
            z,
        ).len(),
{
    let cell = row * ncols + col;
    vstd::arithmetic::div_mod::lemma_fundamental_div_mod_converse(cell, ncols, row, col);
    let fcols = ncols * sub;
    let base = row * sub * fcols + col * sub;
    assert(cell_base(ncols, sub, cell) == base);
    lemma_rows_set(owner, fcols, base, sub, z, sub);
    let rows = Set::new(
        |e: (int, int)| 0 <= e.0 < sub && 0 <= e.1 < sub && owner[base + e.0 * fcols + e.1] == z,
    );
    assert forall|e: (int, int)| #[trigger] rows.contains(e) == subcells_of(
        owner,
        ncols,
        sub,
        row,
        col,
        z,
    ).contains(e) by {
        assert(base + e.0 * fcols + e.1 == (row * sub + e.0) * fcols + (col * sub + e.1))
            by (nonlinear_arith)
            requires
                base == row * sub * fcols + col * sub,
        ;
    }
    assert(rows =~= subcells_of(owner, ncols, sub, row, col, z));
}

/// A grid lists who is there. The candidates of the cell in row `row`, column
/// `col` are the zones whose rings pass through it and the zones that own one of
/// its subcells, by id and each once. Its tally counts the subcells of every
/// zone that owns one, and its dominant zone owns the most of them, the lowest id
/// of equals.
pub proof fn lemma_grid_lists_who_is_there(
    grid: CellGrid,
    ncols: int,
    sub: int,
    walked: Seq<Vec<u16>>,
    owner: Seq<u16>,
    row: int,
    col: int,
)
    requires
        aggregates(grid, ncols, sub, walked, owner),
        0 <= row,
        0 <= col < ncols,
        row * ncols + col < walked.len(),
        0 < sub,
    ensures
        ({
            let c = row * ncols + col;
            let (set, tally, d) = (grid.sets@[c]@, grid.tallies@[c]@, grid.dominant@[c]);
            &&& forall|z: u16| #[trigger]
                set.contains(z) == (walked[c]@.contains(z) || (z != NO_ZONE && subcells_of(
                    owner,
                    ncols,
                    sub,
                    row,
                    col,
                    z,
                ).len() > 0))
            &&& forall|i: int, j: int|
                0 <= i < j < set.len() ==> (#[trigger] set[i]) < (#[trigger] set[j])
            &&& forall|i: int|
                0 <= i < tally.len() ==> (#[trigger] tally[i]).0 != NO_ZONE && tally[i].1
                    == subcells_of(owner, ncols, sub, row, col, tally[i].0).len()
            &&& forall|z: u16|
                z != NO_ZONE && #[trigger] subcells_of(owner, ncols, sub, row, col, z).len() > 0
                    ==> exists|i: int| 0 <= i < tally.len() && (#[trigger] tally[i]).0 == z
            &&& forall|i: int, j: int|
                0 <= i < j < tally.len() ==> (#[trigger] tally[i]).0 < (#[trigger] tally[j]).0
            &&& forall|z: u16|
                z != NO_ZONE ==> if d == NO_ZONE {
                    #[trigger] subcells_of(owner, ncols, sub, row, col, z).len() == 0
                } else {
                    let (a, b) = (
                        subcells_of(owner, ncols, sub, row, col, z).len(),
                        subcells_of(owner, ncols, sub, row, col, d).len(),
                    );
                    b > 0 && (a < b || (a == b && d <= z))
                }
        }),
{
    assert(0 <= row * ncols) by (nonlinear_arith)
        requires
            0 <= row,
            0 < ncols,
    ;
    let c = row * ncols + col;
    let count = counts(owner, ncols, sub, c);
    let (set, tally, d) = (grid.sets@[c]@, grid.tallies@[c]@, grid.dominant@[c]);
    assert(tally_of(tally, count) && dominant_of(d, count) && sorted_set(
        set,
        candidates(walked[c]@, count),
    ));
    assert forall|z: u16| z != NO_ZONE implies #[trigger] count(z) == subcells_of(
        owner,
        ncols,
        sub,
        row,
        col,
        z,
    ).len() by {
        lemma_owned_set(owner, ncols, sub, row, col, z);
    }
    assert(count(NO_ZONE) == 0);
    assert forall|z: u16| #[trigger] set.contains(z) == (walked[c]@.contains(z) || (z != NO_ZONE
        && subcells_of(owner, ncols, sub, row, col, z).len() > 0)) by {
        assert(set.contains(z) == candidates(walked[c]@, count)(z));
        if z != NO_ZONE {
            assert(count(z) == subcells_of(owner, ncols, sub, row, col, z).len());
        }
    }
    assert forall|i: int| 0 <= i < tally.len() implies (#[trigger] tally[i]).0 != NO_ZONE
        && tally[i].1 == subcells_of(owner, ncols, sub, row, col, tally[i].0).len() by {
        assert(tally[i].1 == count(tally[i].0) && count(tally[i].0) > 0);
    }
    assert forall|z: u16|
        z != NO_ZONE && #[trigger] subcells_of(owner, ncols, sub, row, col, z).len() > 0 implies exists|
        i: int,
    | 0 <= i < tally.len() && (#[trigger] tally[i]).0 == z by {
        assert(count(z) > 0);
    }
    assert forall|z: u16| z != NO_ZONE implies if d == NO_ZONE {
        #[trigger] subcells_of(owner, ncols, sub, row, col, z).len() == 0
    } else {
        let (a, b) = (
            subcells_of(owner, ncols, sub, row, col, z).len(),
            subcells_of(owner, ncols, sub, row, col, d).len(),
        );
        b > 0 && (a < b || (a == b && d <= z))
    } by {
        assert(count(z) == subcells_of(owner, ncols, sub, row, col, z).len());
        if d != NO_ZONE {
            assert(count(d) == subcells_of(owner, ncols, sub, row, col, d).len());
        }
    }
}

} // verus!
