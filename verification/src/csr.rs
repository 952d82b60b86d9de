//! The interned CSR of a cell grid: one tag per cell, and each distinct
//! candidate list stored once.

use vstd::prelude::*;
use vstd::relations::total_ordering;

use crate::grid::{CellGrid, NO_ZONE};
use crate::pool::{
    distinct, lemma_pooled, lemma_position_from, lemma_position_is, lemma_position_stays, pooled,
    position,
};

verus! {

/// Candidate-list ordering inside the interned CSR.
#[derive(Clone, Copy, PartialEq, Eq, Structural, Debug)]
pub enum Order {
    /// ascending id: most lists coincide
    IdSorted,
    /// descending global zone area: as deterministic per set as `IdSorted`
    AreaDesc,
    /// this cell's dominant zone first, rest by id: the best early exit
    CellDominantFirst,
}

/// What a cell holds: a zone id (`NO_ZONE` where nothing owns the cell), or
/// the index of a candidate list.
#[derive(Clone, Copy, PartialEq, Eq, Structural, Debug)]
pub enum Entry {
    Zone(u16),
    List(usize),
}

/// The interned CSR.
pub struct Csr {
    /// per cell: a zone id, `0x7FFF` for no zone, or `0x8000 |` a list index
    pub primary: Vec<u16>,
    pub list_offsets: Vec<u16>,
    pub list_ids: Vec<u16>,
    pub uniq_lists: usize,
}

/// Whether `a` comes before or with `b` by descending area, then by id. Areas
/// are bit patterns of non-negative `f64`s, which order as the values do.
pub open spec fn area_order(areas: Seq<u64>) -> spec_fn(u16, u16) -> bool {
    |a: u16, b: u16|
        areas[a as int] > areas[b as int] || (areas[a as int] == areas[b as int] && a <= b)
}

/// A cell's candidates in list order.
pub open spec fn arranged(order: Order, set: Seq<u16>, dominant: u16, areas: Seq<u64>) -> Seq<u16> {
    match order {
        Order::IdSorted => set,
        Order::AreaDesc => set.sort_by(area_order(areas)),
        Order::CellDominantFirst => {
            let at = position(set, dominant);
            if at < set.len() {
                seq![dominant] + set.remove(at)
            } else {
                set
            }
        },
    }
}

/// The candidate lists of the first `n` cells, each once. Only a cell with
/// two or more candidates has a list.
pub open spec fn lists_of(
    sets: Seq<Seq<u16>>,
    dominant: Seq<u16>,
    order: Order,
    areas: Seq<u64>,
    n: int,
) -> Seq<Seq<u16>>
    decreases n,
{
    if n <= 0 {
        Seq::empty()
    } else {
        let lists = lists_of(sets, dominant, order, areas, n - 1);
        if sets[n - 1].len() > 1 {
            pooled(lists, arranged(order, sets[n - 1], dominant[n - 1], areas))
        } else {
            lists
        }
    }
}

/// The entry of cell `c`, given the lists of all cells.
pub open spec fn entry_of(
    sets: Seq<Seq<u16>>,
    dominant: Seq<u16>,
    order: Order,
    areas: Seq<u64>,
    lists: Seq<Seq<u16>>,
    c: int,
) -> Entry {
    if sets[c].len() > 1 {
        Entry::List(position(lists, arranged(order, sets[c], dominant[c], areas)) as usize)
    } else if sets[c].len() == 1 {
        Entry::Zone(sets[c][0])
    } else {
        Entry::Zone(dominant[c])
    }
}

/// Lists as sequences.
pub open spec fn lists_view(lists: Seq<Vec<u16>>) -> Seq<Seq<u16>> {
    Seq::new(lists.len(), |i: int| lists[i]@)
}

/// The lists of a grid.
pub open spec fn grid_lists(grid: CellGrid, order: Order, areas: Seq<u64>) -> Seq<Seq<u16>> {
    lists_of(
        lists_view(grid.sets@),
        grid.dominant@,
        order,
        areas,
        grid.sets@.len() as int,
    )
}

/// The entries of a grid.
pub open spec fn grid_entries(grid: CellGrid, order: Order, areas: Seq<u64>) -> Seq<Entry> {
    Seq::new(
        grid.sets@.len(),
        |c: int|
            entry_of(
                lists_view(grid.sets@),
                grid.dominant@,
                order,
                areas,
                grid_lists(grid, order, areas),
                c,
            ),
    )
}

/// The ids of the first `n` lists in a row.
pub open spec fn ids_of(lists: Seq<Seq<u16>>, n: int) -> Seq<u16>
    decreases n,
{
    if n <= 0 {
        Seq::empty()
    } else {
        ids_of(lists, n - 1) + lists[n - 1]
    }
}

/// The primary tag of an entry. The high bit marks a list index.
pub open spec fn tag_of(e: Entry) -> u16 {
    match e {
        Entry::Zone(z) => if z == NO_ZONE {
            0x7FFF
        } else {
            z
        },
        Entry::List(i) => if i < 0x8000 {
            (0x8000 + i) as u16
        } else {
            i as u16
        },
    }
}

/// Whether the lists fit the CSR's u16 tables.
pub open spec fn tables_fit(lists: Seq<Seq<u16>>) -> bool {
    lists.len() <= 0x1_0000 && ids_of(lists, lists.len() as int).len() <= 0xFFFF
}

/// Whether the areas cover every candidate of every cell.
pub open spec fn areas_cover(grid: CellGrid, areas: Seq<u64>) -> bool {
    forall|c: int, i: int|
        0 <= c < grid.sets@.len() && 0 <= i < grid.sets@[c]@.len() ==> (
        #[trigger] grid.sets@[c]@[i]) < areas.len()
}

proof fn lemma_area_order(areas: Seq<u64>)
    ensures
        total_ordering(area_order(areas)),
{
}

/// Sorts candidates by descending area, then by id.
fn sort_by_area(set: &Vec<u16>, areas: &[u64]) -> (out: Vec<u16>)
    requires
        forall|i: int| 0 <= i < set@.len() ==> (#[trigger] set@[i]) < areas@.len(),
    ensures
        out@ == set@.sort_by(area_order(areas@)),
{
    let ghost leq = area_order(areas@);
    let mut out: Vec<u16> = Vec::new();
    let mut i: usize = 0;
    assert(set@.take(0) =~= out@);
    while i < set.len()
        invariant
            i <= set@.len(),
            leq == area_order(areas@),
            forall|k: int| 0 <= k < set@.len() ==> (#[trigger] set@[k]) < areas@.len(),
            forall|k: int| 0 <= k < out@.len() ==> (#[trigger] out@[k]) < areas@.len(),
            out@.to_multiset() =~= set@.take(i as int).to_multiset(),
            vstd::relations::sorted_by(out@, leq),
        decreases set@.len() - i,
    {
        let z = set[i];
        let mut k: usize = 0;
        while k < out.len() && (areas[out[k] as usize] > areas[z as usize] || (areas[out[k] as usize]
            == areas[z as usize] && out[k] <= z))
            invariant
                k <= out@.len(),
                leq == area_order(areas@),
                z < areas@.len(),
                forall|j: int| 0 <= j < out@.len() ==> (#[trigger] out@[j]) < areas@.len(),
                forall|j: int| 0 <= j < k ==> leq(#[trigger] out@[j], z),
            decreases out@.len() - k,
        {
            k = k + 1;
        }
        let ghost o0 = out@;
        out.insert(k, z);
        proof {
            assert forall|a: int, b: int| 0 <= a < b < out@.len() implies leq(
                #[trigger] out@[a],
                #[trigger] out@[b],
            ) by {
                let a0 = if a < k { a } else { a - 1 };
                let b0 = if b < k { b } else { b - 1 };
                if a != k && b != k {
                    assert(leq(o0[a0], o0[b0]));
                } else if b == k {
                    assert(leq(o0[a], z));
                } else {
                    assert(leq(z, o0[k as int]));
                    if b0 > k {
                        assert(leq(o0[k as int], o0[b0]));
                    }
                }
            }
            vstd::seq_lib::to_multiset_insert(o0, k as int, z);
            assert(set@.take(i as int + 1) =~= set@.take(i as int).push(z));
            broadcast use vstd::seq_lib::group_to_multiset_ensures;

        }
        i = i + 1;
    }
    proof {
        assert(set@.take(set@.len() as int) =~= set@);
        lemma_area_order(areas@);
        set@.lemma_sort_by_ensures(leq);
        vstd::seq_lib::lemma_sorted_unique(out@, set@.sort_by(leq), leq);
    }
    out
}

/// A cell's candidates in list order.
fn arrange(order: Order, set: &Vec<u16>, dominant: u16, areas: &[u64]) -> (out: Vec<u16>)
    requires
        order == Order::AreaDesc ==> forall|i: int|
            0 <= i < set@.len() ==> (#[trigger] set@[i]) < areas@.len(),
    ensures
        out@ == arranged(order, set@, dominant, areas@),
{
    match order {
        Order::IdSorted => vstd::slice::slice_to_vec(set.as_slice()),
        Order::AreaDesc => sort_by_area(set, areas),
        Order::CellDominantFirst => {
            let mut at: usize = 0;
            while at < set.len() && set[at] != dominant
                invariant
                    at <= set@.len(),
                    forall|j: int| 0 <= j < at ==> set@[j] != dominant,
                decreases set@.len() - at,
            {
                at = at + 1;
            }
            proof {
                lemma_position_is(set@, dominant, at as int);
            }
            let mut out = vstd::slice::slice_to_vec(set.as_slice());
            if at < set.len() {
                let first = out.remove(at);
                out.insert(0, first);
                assert(out@ =~= seq![dominant] + set@.remove(at as int));
            }
            out
        },
    }
}

/// Whether two lists are equal.
fn same_list(a: &Vec<u16>, b: &Vec<u16>) -> (same: bool)
    ensures
        same == (a@ == b@),
{
    if a.len() != b.len() {
        return false;
    }
    let mut i: usize = 0;
    while i < a.len()
        invariant
            i <= a@.len(),
            a@.len() == b@.len(),
            forall|j: int| 0 <= j < i ==> a@[j] == b@[j],
        decreases a@.len() - i,
    {
        if a[i] != b[i] {
            return false;
        }
        i = i + 1;
    }
    assert(a@ =~= b@);
    true
}

/// The index of a list in the pool, adding it where it is new.
fn intern(lists: &mut Vec<Vec<u16>>, list: Vec<u16>) -> (at: usize)
    ensures
        lists_view(final(lists)@) == pooled(lists_view(old(lists)@), list@),
        at == position(lists_view(old(lists)@), list@),
{
    let ghost l0 = lists_view(lists@);
    let mut at: usize = 0;
    while at < lists.len()
        invariant_except_break
            forall|j: int| 0 <= j < at ==> l0[j] != list@,
        invariant
            at <= lists@.len(),
            l0 == lists_view(lists@),
            forall|j: int| 0 <= j < at ==> l0[j] != list@,
        ensures
            at < lists@.len() ==> l0[at as int] == list@,
        decreases lists@.len() - at,
    {
        let same = same_list(&lists[at], &list);
        assert(l0[at as int] == lists@[at as int]@);
        if same {
            break;
        }
        at = at + 1;
    }
    proof {
        lemma_position_is(l0, list@, at as int);
    }
    if at == lists.len() {
        let ghost added = list@;
        lists.push(list);
        assert(lists_view(lists@) =~= l0.push(added));
    }
    at
}

proof fn lemma_lists_grow(
    sets: Seq<Seq<u16>>,
    dominant: Seq<u16>,
    order: Order,
    areas: Seq<u64>,
    m: int,
    n: int,
)
    requires
        0 <= m <= n,
    ensures
        distinct(lists_of(sets, dominant, order, areas, n)),
        lists_of(sets, dominant, order, areas, m).len() <= lists_of(
            sets,
            dominant,
            order,
            areas,
            n,
        ).len(),
        forall|i: int|
            0 <= i < lists_of(sets, dominant, order, areas, m).len() ==> lists_of(
                sets,
                dominant,
                order,
                areas,
                n,
            )[i] == lists_of(sets, dominant, order, areas, m)[i],
    decreases n,
{
    if m < n {
        lemma_lists_grow(sets, dominant, order, areas, m, n - 1);
        lemma_pooled(
            lists_of(sets, dominant, order, areas, n - 1),
            arranged(order, sets[n - 1], dominant[n - 1], areas),
        );
    } else if n > 0 {
        lemma_lists_grow(sets, dominant, order, areas, n - 1, n - 1);
        lemma_pooled(
            lists_of(sets, dominant, order, areas, n - 1),
            arranged(order, sets[n - 1], dominant[n - 1], areas),
        );
    }
}

/// The entries and the distinct candidate lists of a grid. `areas` is read by
/// `AreaDesc` alone.
pub fn intern_lists(grid: &CellGrid, order: Order, areas: &[u64]) -> (out: (
    Vec<Entry>,
    Vec<Vec<u16>>,
))
    requires
        grid.dominant@.len() == grid.sets@.len(),
        order == Order::AreaDesc ==> areas_cover(*grid, areas@),
    ensures
        out.0@ == grid_entries(*grid, order, areas@),
        lists_view(out.1@) == grid_lists(*grid, order, areas@),
{
    let ghost sets = lists_view(grid.sets@);
    let ghost dom = grid.dominant@;
    let ghost whole = grid_lists(*grid, order, areas@);
    let mut entries: Vec<Entry> = Vec::new();
    let mut lists: Vec<Vec<u16>> = Vec::new();
    let mut c: usize = 0;
    assert(lists_view(lists@) =~= Seq::<Seq<u16>>::empty());
    while c < grid.sets.len()
        invariant
            c <= grid.sets@.len(),
            sets == lists_view(grid.sets@),
            dom == grid.dominant@,
            dom.len() == sets.len(),
            order == Order::AreaDesc ==> areas_cover(*grid, areas@),
            whole == lists_of(sets, dom, order, areas@, sets.len() as int),
            lists_view(lists@) == lists_of(sets, dom, order, areas@, c as int),
            entries@.len() == c,
            forall|i: int|
                0 <= i < c ==> #[trigger] entries@[i] == entry_of(
                    sets,
                    dom,
                    order,
                    areas@,
                    whole,
                    i,
                ),
        decreases grid.sets@.len() - c,
    {
        let set = &grid.sets[c];
        assert(sets[c as int] == set@);
        if set.len() > 1 {
            let list = arrange(order, set, grid.dominant[c], areas);
            let ghost prior = lists_view(lists@);
            let ghost added = list@;
            let at = intern(&mut lists, list);
            proof {
                lemma_lists_grow(sets, dom, order, areas@, c as int + 1, sets.len() as int);
                lemma_pooled(prior, added);
                lemma_position_stays(pooled(prior, added), whole, added);
            }
            entries.push(Entry::List(at));
        } else if set.len() == 1 {
            entries.push(Entry::Zone(set[0]));
        } else {
            entries.push(Entry::Zone(grid.dominant[c]));
        }
        c = c + 1;
    }
    assert(entries@ =~= grid_entries(*grid, order, areas@));
    (entries, lists)
}

/// The CSR of entries and lists.
pub fn csr_of(entries: &Vec<Entry>, lists: &Vec<Vec<u16>>) -> (csr: Csr)
    requires
        tables_fit(lists_view(lists@)),
        forall|c: int|
            0 <= c < entries@.len() ==> (#[trigger] entries@[c] matches Entry::List(i) ==> i
                < lists@.len()),
    ensures
        csr.primary@ == Seq::new(entries@.len(), |c: int| tag_of(entries@[c])),
        csr.list_ids@ == ids_of(lists_view(lists@), lists@.len() as int),
        csr.list_offsets@ == Seq::new(
            lists@.len() + 1,
            |i: int| ids_of(lists_view(lists@), i).len() as u16,
        ),
        csr.uniq_lists == lists@.len(),
{
    let ghost lv = lists_view(lists@);
    let mut primary: Vec<u16> = Vec::new();
    let mut c: usize = 0;
    while c < entries.len()
        invariant
            c <= entries@.len(),
            lists@.len() <= 0x1_0000,
            forall|i: int|
                0 <= i < entries@.len() ==> (#[trigger] entries@[i] matches Entry::List(k) ==> k
                    < lists@.len()),
            primary@ == Seq::new(c as nat, |i: int| tag_of(entries@[i])),
        decreases entries@.len() - c,
    {
        let tag = match entries[c] {
            Entry::Zone(z) => if z == NO_ZONE {
                0x7FFF
            } else {
                z
            },
            Entry::List(i) => if i < 0x8000 {
                0x8000 + i as u16
            } else {
                i as u16
            },
        };
        primary.push(tag);
        assert(primary@ =~= Seq::new(c as nat + 1, |i: int| tag_of(entries@[i])));
        c = c + 1;
    }
    let mut list_ids: Vec<u16> = Vec::new();
    let mut list_offsets: Vec<u16> = Vec::new();
    list_offsets.push(0);
    assert(list_offsets@ =~= Seq::new(1, |i: int| ids_of(lv, i).len() as u16));
    let mut i: usize = 0;
    while i < lists.len()
        invariant
            i <= lists@.len(),
            lv == lists_view(lists@),
            ids_of(lv, lv.len() as int).len() <= 0xFFFF,
            list_ids@ == ids_of(lv, i as int),
            list_offsets@ == Seq::new(i as nat + 1, |k: int| ids_of(lv, k).len() as u16),
        decreases lists@.len() - i,
    {
        let list = &lists[i];
        assert(lv[i as int] == list@);
        let mut k: usize = 0;
        while k < list.len()
            invariant
                k <= list@.len(),
                list_ids@ == ids_of(lv, i as int) + list@.take(k as int),
            decreases list@.len() - k,
        {
            list_ids.push(list[k]);
            assert(list@.take(k as int + 1) =~= list@.take(k as int).push(list@[k as int]));
            assert(list_ids@ =~= ids_of(lv, i as int) + list@.take(k as int + 1));
            k = k + 1;
        }
        proof {
            assert(list@.take(list@.len() as int) =~= list@);
            lemma_ids_grow(lv, i as int + 1, lv.len() as int);
        }
        list_offsets.push(list_ids.len() as u16);
        assert(list_offsets@ =~= Seq::new(i as nat + 2, |k: int| ids_of(lv, k).len() as u16));
        i = i + 1;
    }
    Csr { primary, list_offsets, list_ids, uniq_lists: lists.len() }
}

/// More lists' ids begin with fewer lists' ids.
pub proof fn lemma_ids_grow(lists: Seq<Seq<u16>>, m: int, n: int)
    requires
        0 <= m <= n <= lists.len(),
    ensures
        ids_of(lists, m).len() <= ids_of(lists, n).len(),
        ids_of(lists, m) == ids_of(lists, n).take(ids_of(lists, m).len() as int),
    decreases n - m,
{
    if m < n {
        lemma_ids_grow(lists, m, n - 1);
        assert(ids_of(lists, n).take(ids_of(lists, m).len() as int) =~= ids_of(lists, n - 1).take(
            ids_of(lists, m).len() as int,
        ));
    } else {
        assert(ids_of(lists, n).take(ids_of(lists, n).len() as int) =~= ids_of(lists, n));
    }
}

/// Whether a CSR is that of a grid.
pub open spec fn csr_is(csr: Csr, entries: Seq<Entry>, lists: Seq<Seq<u16>>) -> bool {
    &&& csr.primary@ == Seq::new(entries.len(), |c: int| tag_of(entries[c]))
    &&& csr.list_ids@ == ids_of(lists, lists.len() as int)
    &&& csr.list_offsets@ == Seq::new(lists.len() + 1, |i: int| ids_of(lists, i).len() as u16)
    &&& csr.uniq_lists == lists.len()
}

/// Builds the interned CSR of a grid, one entry per cell.
pub fn intern_csr(grid: &CellGrid, order: Order, areas: &[u64]) -> (csr: Csr)
    requires
        grid.sets@.len() == grid.ncols * grid.nrows,
        grid.dominant@.len() == grid.sets@.len(),
        order == Order::AreaDesc ==> areas_cover(*grid, areas@),
        tables_fit(grid_lists(*grid, order, areas@)),
    ensures
        csr_is(csr, grid_entries(*grid, order, areas@), grid_lists(*grid, order, areas@)),
{
    let (entries, lists) = intern_lists(grid, order, areas);
    proof {
        lemma_entries_valid(*grid, order, areas@);
        assert(lists_view(lists@).len() == lists@.len());
    }
    csr_of(&entries, &lists)
}

/// Every list entry of a grid names one of its lists, and that list is the
/// cell's candidates in order.
pub proof fn lemma_entries_valid(grid: CellGrid, order: Order, areas: Seq<u64>)
    ensures
        distinct(grid_lists(grid, order, areas)),
        forall|c: int|
            0 <= c < grid.sets@.len() && grid_lists(grid, order, areas).len() <= usize::MAX ==> (
            #[trigger] grid_entries(grid, order, areas)[c] matches Entry::List(i) ==> i
                < grid_lists(grid, order, areas).len() && grid_lists(grid, order, areas)[i as int]
                == arranged(order, grid.sets@[c]@, grid.dominant@[c], areas)),
{
    let sets = lists_view(grid.sets@);
    let dom = grid.dominant@;
    let whole = grid_lists(grid, order, areas);
    let n = grid.sets@.len() as int;
    lemma_lists_grow(sets, dom, order, areas, n, n);
    assert forall|c: int| 0 <= c < grid.sets@.len() && whole.len() <= usize::MAX implies (
    #[trigger] grid_entries(grid, order, areas)[c] matches Entry::List(i) ==> i < whole.len()
        && whole[i as int] == arranged(order, grid.sets@[c]@, grid.dominant@[c], areas)) by {
        if sets[c].len() > 1 {
            let list = arranged(order, sets[c], dom[c], areas);
            let prior = lists_of(sets, dom, order, areas, c);
            lemma_lists_grow(sets, dom, order, areas, c + 1, n);
            lemma_pooled(prior, list);
            lemma_position_stays(pooled(prior, list), whole, list);
        }
    }
}

/// The CSR answers every cell: a border cell's list index selects exactly its
/// candidates in list order, dominant zone first where the order says so and
/// a candidate dominates.
pub proof fn lemma_csr_resolves(grid: CellGrid, order: Order, areas: Seq<u64>, csr: Csr, c: int)
    requires
        0 <= c < grid.sets@.len(),
        grid.sets@[c]@.len() > 1,
        grid_lists(grid, order, areas).len() < 0x7FFF,
        tables_fit(grid_lists(grid, order, areas)),
        csr_is(csr, grid_entries(grid, order, areas), grid_lists(grid, order, areas)),
    ensures
        csr.primary@[c] >= 0x8000,
        ({
            let li = csr.primary@[c] - 0x8000;
            let list = csr.list_ids@.subrange(
                csr.list_offsets@[li] as int,
                csr.list_offsets@[li + 1] as int,
            );
            &&& 0 <= li < csr.uniq_lists
            &&& list == arranged(order, grid.sets@[c]@, grid.dominant@[c], areas)
            &&& order == Order::CellDominantFirst && grid.sets@[c]@.contains(grid.dominant@[c])
                ==> list[0] == grid.dominant@[c]
        }),
{
    lemma_entries_valid(grid, order, areas);
    let lists = grid_lists(grid, order, areas);
    let e = grid_entries(grid, order, areas)[c];
    assert(lists_view(grid.sets@)[c] == grid.sets@[c]@);
    let i = position(lists, arranged(order, grid.sets@[c]@, grid.dominant@[c], areas)) as usize;
    assert(e == Entry::List(i));
    assert(lists[i as int] == arranged(order, grid.sets@[c]@, grid.dominant@[c], areas));
    lemma_ids_grow(lists, i as int, lists.len() as int);
    lemma_ids_grow(lists, i as int + 1, lists.len() as int);
    let a = ids_of(lists, i as int);
    let b = ids_of(lists, i as int + 1);
    assert(csr.list_ids@.subrange(a.len() as int, b.len() as int) =~= lists[i as int]) by {
        assert(b == a + lists[i as int]);
        assert(csr.list_ids@.take(b.len() as int) == b);
        assert forall|k: int| 0 <= k < lists[i as int].len() implies csr.list_ids@[a.len() + k]
            == lists[i as int][k] by {
            assert(csr.list_ids@.take(b.len() as int)[a.len() + k] == b[a.len() + k]);
        }
    }
    if grid.sets@[c]@.contains(grid.dominant@[c]) {
        let set = grid.sets@[c]@;
        lemma_position_from(set, grid.dominant@[c], 0);
        let k = choose|k: int| 0 <= k < set.len() && set[k] == grid.dominant@[c];
        assert(position(set, grid.dominant@[c]) <= k);
    }
}

/// No order loses a candidate or lists one twice.
pub proof fn lemma_lists_keep_every_candidate(
    order: Order,
    set: Seq<u16>,
    dominant: u16,
    areas: Seq<u64>,
)
    ensures
        arranged(order, set, dominant, areas).to_multiset() == set.to_multiset(),
        arranged(order, set, dominant, areas).len() == set.len(),
        forall|z: u16| #[trigger]
            arranged(order, set, dominant, areas).contains(z) == set.contains(z),
{
    broadcast use vstd::seq_lib::group_to_multiset_ensures;

    let list = arranged(order, set, dominant, areas);
    match order {
        Order::IdSorted => {},
        Order::AreaDesc => {
            lemma_area_order(areas);
            set.lemma_sort_by_ensures(area_order(areas));
        },
        Order::CellDominantFirst => {
            let at = position(set, dominant);
            lemma_position_from(set, dominant, 0);
            if at < set.len() {
                let rest = set.remove(at);
                vstd::seq_lib::to_multiset_insert(rest, 0, dominant);
                assert(rest.insert(0, dominant) =~= list);
                assert(rest.insert(at, dominant) =~= set);
                vstd::seq_lib::to_multiset_insert(rest, at, dominant);
            }
        },
    }
    assert(list.to_multiset() =~= set.to_multiset());
    assert(list.to_multiset().len() == set.to_multiset().len());
    assert forall|z: u16| #[trigger] list.contains(z) == set.contains(z) by {
        assert(list.contains(z) == (list.to_multiset().count(z) > 0));
        assert(set.contains(z) == (set.to_multiset().count(z) > 0));
    }
}

/// How each order lists candidates that come in by id: by id, by area from the
/// largest with ids breaking ties, or with the dominant zone at the head and the
/// rest by id.
pub proof fn lemma_lists_are_in_order(
    order: Order,
    set: Seq<u16>,
    dominant: u16,
    areas: Seq<u64>,
)
    requires
        forall|i: int, j: int| 0 <= i < j < set.len() ==> (#[trigger] set[i]) < (#[trigger] set[j]),
    ensures
        ({
            let list = arranged(order, set, dominant, areas);
            let headed = order == Order::CellDominantFirst && set.contains(dominant);
            &&& headed ==> list[0] == dominant
            &&& order != Order::AreaDesc ==> forall|i: int, j: int|
                (if headed {
                    1int
                } else {
                    0
                }) <= i < j < list.len() ==> (#[trigger] list[i]) < (#[trigger] list[j])
            &&& order == Order::AreaDesc ==> forall|i: int, j: int|
                0 <= i < j < list.len() ==> areas[#[trigger] list[i] as int]
                    > areas[#[trigger] list[j] as int] || (areas[list[i] as int]
                    == areas[list[j] as int] && list[i] < list[j])
        }),
{
    let list = arranged(order, set, dominant, areas);
    match order {
        Order::IdSorted => {},
        Order::AreaDesc => {
            let leq = area_order(areas);
            lemma_area_order(areas);
            set.lemma_sort_by_ensures(leq);
            assert(set.no_duplicates());
            set.lemma_multiset_has_no_duplicates();
            assert forall|x: u16| list.to_multiset().contains(x) implies list.to_multiset().count(x)
                == 1 by {
                assert(set.to_multiset().contains(x));
            }
            list.lemma_multiset_has_no_duplicates_conv();
            assert forall|i: int, j: int| 0 <= i < j < list.len() implies areas[
                #[trigger] list[i] as int] > areas[#[trigger] list[j] as int] || (
            areas[list[i] as int] == areas[list[j] as int] && list[i] < list[j]) by {
                assert(leq(list[i], list[j]));
                assert(list[i] != list[j]);
            }
        },
        Order::CellDominantFirst => {
            let at = position(set, dominant);
            lemma_position_from(set, dominant, 0);
            if set.contains(dominant) {
                let k = choose|k: int| 0 <= k < set.len() && set[k] == dominant;
                assert(at <= k);
                assert forall|i: int, j: int| 1 <= i < j < list.len() implies (#[trigger] list[i])
                    < (#[trigger] list[j]) by {
                    let (a, b) = (
                        if i - 1 < at { i - 1 } else { i },
                        if j - 1 < at { j - 1 } else { j },
                    );
                    assert(list[i] == set[a] && list[j] == set[b]);
                }
            } else {
                assert(at == set.len()) by {
                    if at < set.len() {
                        assert(set.contains(set[at]));
                    }
                }
            }
        },
    }
}

/// What a CSR holds of a cell. One with several candidates has a list of exactly
/// those, each once; one with a single candidate holds its id; one without holds
/// the zone that owns it, or the mark of none.
pub proof fn lemma_csr_holds_every_candidate(
    grid: CellGrid,
    order: Order,
    areas: Seq<u64>,
    csr: Csr,
    c: int,
)
    requires
        0 <= c < grid.sets@.len(),
        grid_lists(grid, order, areas).len() < 0x7FFF,
        tables_fit(grid_lists(grid, order, areas)),
        csr_is(csr, grid_entries(grid, order, areas), grid_lists(grid, order, areas)),
    ensures
        csr.primary@.len() == grid.sets@.len(),
        ({
            let (set, tag) = (grid.sets@[c]@, csr.primary@[c]);
            if set.len() > 1 {
                let at = tag - 0x8000;
                let list = csr.list_ids@.subrange(
                    csr.list_offsets@[at] as int,
                    csr.list_offsets@[at + 1] as int,
                );
                &&& tag >= 0x8000
                &&& at + 1 < csr.list_offsets@.len()
                &&& csr.list_offsets@[at] <= csr.list_offsets@[at + 1] <= csr.list_ids@.len()
                &&& list.to_multiset() == set.to_multiset()
                &&& forall|z: u16| #[trigger] list.contains(z) == set.contains(z)
                &&& order == Order::CellDominantFirst && set.contains(grid.dominant@[c])
                    ==> list[0] == grid.dominant@[c]
            } else {
                let zone = if set.len() == 1 {
                    set[0]
                } else {
                    grid.dominant@[c]
                };
                tag == if zone == 0xFFFF {
                    0x7FFF
                } else {
                    zone
                }
            }
        }),
{
    let set = grid.sets@[c]@;
    assert(lists_view(grid.sets@)[c] == set);
    assert(csr.primary@[c] == tag_of(grid_entries(grid, order, areas)[c]));
    if set.len() > 1 {
        lemma_csr_resolves(grid, order, areas, csr, c);
        lemma_lists_keep_every_candidate(order, set, grid.dominant@[c], areas);
        let lists = grid_lists(grid, order, areas);
        let at = csr.primary@[c] - 0x8000;
        lemma_ids_grow(lists, at, lists.len() as int);
        lemma_ids_grow(lists, at + 1, lists.len() as int);
        lemma_ids_grow(lists, at, at + 1);
    }
}

impl Csr {
    /// The byte size of the tables.
    pub fn bytes(&self) -> (n: usize)
        requires
            self.primary@.len() * 2 + self.list_offsets@.len() * 2 + self.list_ids@.len() * 2
                <= usize::MAX,
        ensures
            n == self.primary@.len() * 2 + self.list_offsets@.len() * 2 + self.list_ids@.len() * 2,
    {
        self.primary.len() * 2 + self.list_offsets.len() * 2 + self.list_ids.len() * 2
    }
}

} // verus!
