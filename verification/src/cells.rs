//! What a reader makes of an asset's bytes, cell by cell: which positions it
//! takes, which feature or candidate a cell names, and where names stand.

use vstd::prelude::*;

use crate::common::{Codec, GeomEncoding};
use crate::error::{Error, ErrorView};
use crate::finder::{
    answer, coarse_answer, container_layout, first_claim, load_spec, magnitude, probe_cell,
    tzid_text, Probe, DEGREES_180, DEGREES_90,
};
use crate::format::{
    cell_at, cell_ok, cells_ok, list_id, list_ids_ok, list_offset, list_offsets_ok, list_room,
    parent_at, parents_ok, string_offset, strings_ok, tables_ok, PayloadLayout,
};
use crate::full_rings::full_counts_agree;
use crate::text::text_of;

verus! {

/// A coordinate is in range where the number its bits stand for, 53 significant
/// bits scaled by the exponent, is no more than 180 or 90 on either side of zero;
/// what is no number never is.
pub proof fn lemma_range_in_degrees(bits: u64)
    ensures
        ({
            let (e, m) = (bits as int / 0x10_0000_0000_0000 % 2048, bits as int
                % 0x10_0000_0000_0000);
            &&& magnitude(bits) <= DEGREES_180 <==> e < 1030 || (e == 1030 && 0x10_0000_0000_0000
                + m <= 180 * 0x2000_0000_0000)
            &&& magnitude(bits) <= DEGREES_90 <==> e < 1029 || (e == 1029 && 0x10_0000_0000_0000
                + m <= 90 * 0x4000_0000_0000)
        }),
{
}

/// Two bytes as a number, the least significant first.
pub open spec fn two_bytes(b: Seq<u8>, i: int) -> int {
    b[i] + 256 * b[i + 1]
}

/// Whether the candidate at `k` of a list is the first whose polygon claims the
/// point.
pub open spec fn claims_first(
    b: Seq<u8>,
    layout: PayloadLayout,
    claims: spec_fn(int) -> bool,
    from: int,
    to: int,
    k: int,
) -> bool {
    &&& from <= k < to
    &&& claims(two_bytes(b, layout.list_ids + 2 * k))
    &&& forall|j: int| from <= j < k ==> !claims(#[trigger] two_bytes(b, layout.list_ids + 2 * j))
}

/// The first claim is the first claim.
proof fn lemma_first_claim(
    b: Seq<u8>,
    layout: PayloadLayout,
    claims: spec_fn(int) -> bool,
    from: int,
    to: int,
)
    ensures
        match first_claim(b, layout, claims, from, to) {
            Some(k) => claims_first(b, layout, claims, from, to, k),
            None => forall|j: int|
                from <= j < to ==> !claims(#[trigger] two_bytes(b, layout.list_ids + 2 * j)),
        },
    decreases to - from,
{
    if from < to {
        assert(list_id(b, layout, from) == two_bytes(b, layout.list_ids + 2 * from));
        if !claims(list_id(b, layout, from)) {
            lemma_first_claim(b, layout, claims, from + 1, to);
        }
    }
}

/// How a point on the grid is answered, from the bytes of the payload. A cell
/// below 32767 names its feature. A cell from 32768 on has candidates, and the
/// first whose polygon claims the point answers, the first of all where none does
/// or where only the grid is asked. 32767 answers with nothing.
pub proof fn lemma_cells_answer(
    b: Seq<u8>,
    layout: PayloadLayout,
    claims: spec_fn(int) -> bool,
    probe: Probe,
)
    requires
        0 <= probe.row < layout.nrows,
        0 <= probe.col < layout.ncols,
        layout.geom != GeomEncoding::Coarse,
    ensures
        ({
            let cell = two_bytes(b, layout.primary + 2 * (probe.row * layout.ncols + probe.col));
            let list = cell - 32768;
            let from = two_bytes(b, layout.list_offsets + 2 * list);
            let to = two_bytes(b, layout.list_offsets + 2 * (list + 1));
            let name_of = |k: int|
                tzid_text(
                    b,
                    layout,
                    two_bytes(b, layout.parent + 2 * two_bytes(b, layout.list_ids + 2 * k)),
                );
            &&& cell < 32767 ==> answer(b, layout, claims, probe) == tzid_text(b, layout, cell)
                && coarse_answer(b, layout, probe) == tzid_text(b, layout, cell)
            &&& cell == 32767 ==> answer(b, layout, claims, probe) is None && coarse_answer(
                b,
                layout,
                probe,
            ) is None
            &&& cell >= 32768 ==> coarse_answer(b, layout, probe) == name_of(from)
            &&& cell >= 32768 ==> forall|k: int| #[trigger]
                claims_first(b, layout, claims, from, to, k) ==> answer(b, layout, claims, probe)
                    == name_of(k)
            &&& cell >= 32768 && from < to && (forall|j: int|
                from <= j < to ==> !claims(#[trigger] two_bytes(b, layout.list_ids + 2 * j)))
                ==> answer(b, layout, claims, probe) == name_of(from)
        }),
{
    let cell = two_bytes(b, layout.primary + 2 * (probe.row * layout.ncols + probe.col));
    assert(probe_cell(b, layout, probe) == cell);
    let list = cell - 32768;
    let from = two_bytes(b, layout.list_offsets + 2 * list);
    let to = two_bytes(b, layout.list_offsets + 2 * (list + 1));
    if cell >= 32768 {
        assert(from == list_offset(b, layout, list) && to == list_offset(b, layout, list + 1));
        lemma_first_claim(b, layout, claims, from, to);
        assert forall|k: int| #[trigger] claims_first(b, layout, claims, from, to, k) implies answer(
            b,
            layout,
            claims,
            probe,
        ) == tzid_text(
            b,
            layout,
            two_bytes(b, layout.parent + 2 * two_bytes(b, layout.list_ids + 2 * k)),
        ) by {
            match first_claim(b, layout, claims, from, to) {
                Some(at) => {
                    if at < k {
                        assert(!claims(two_bytes(b, layout.list_ids + 2 * at)));
                    } else if k < at {
                        assert(!claims(two_bytes(b, layout.list_ids + 2 * k)));
                    }
                },
                None => {
                    assert(!claims(two_bytes(b, layout.list_ids + 2 * k)));
                },
            }
        }
        if from < to && (forall|j: int|
            from <= j < to ==> !claims(#[trigger] two_bytes(b, layout.list_ids + 2 * j))) {
            match first_claim(b, layout, claims, from, to) {
                Some(at) => {
                    assert(!claims(two_bytes(b, layout.list_ids + 2 * at)));
                },
                None => {},
            }
        }
    }
}

/// A feature's name is the text between two fenceposts behind all of them, and an
/// empty one is none.
pub proof fn lemma_names_stand_between_fenceposts(b: Seq<u8>, layout: PayloadLayout, feature: int)
    requires
        feature >= 0,
    ensures
        ({
            let bytes = b.subrange(
                layout.pool + two_bytes(b, 2 * feature),
                layout.pool + two_bytes(b, 2 * feature + 2),
            );
            &&& tzid_text(b, layout, feature) matches Some(name) ==> name.len() > 0 && text_of(bytes)
                == Some(name)
            &&& tzid_text(b, layout, feature) is None ==> text_of(bytes) is None || text_of(bytes)
                == Some(Seq::<char>::empty())
        }),
{
    let bytes = b.subrange(
        layout.pool + string_offset(b, feature),
        layout.pool + string_offset(b, feature + 1),
    );
    match text_of(bytes) {
        Some(text) => {
            if text.len() == 0 {
                assert(text =~= Seq::<char>::empty());
            }
        },
        None => {},
    }
}

/// Neighbours in order are all in order.
proof fn lemma_in_order(f: spec_fn(int) -> int, n: int, i: int, j: int)
    requires
        forall|k: int| 0 <= k < n ==> #[trigger] f(k) <= f(k + 1),
        0 <= i <= j <= n,
    ensures
        f(i) <= f(j),
    decreases j - i,
{
    if i < j {
        lemma_in_order(f, n, i, j - 1);
        assert(f(j - 1) <= f(j - 1 + 1));
    }
}

/// The fenceposts of the names.
pub open spec fn name_posts(b: Seq<u8>) -> spec_fn(int) -> int {
    |i: int| two_bytes(b, 2 * i)
}

/// The fenceposts of the candidate lists.
pub open spec fn list_posts(b: Seq<u8>, layout: PayloadLayout) -> spec_fn(int) -> int {
    |i: int| two_bytes(b, layout.list_offsets + 2 * i)
}

/// Whether posts rise from the first to post `n`.
pub open spec fn posts_rise(post: spec_fn(int) -> int, n: int) -> bool {
    forall|i: int| 0 <= i < n ==> #[trigger] post(i) <= post(i + 1)
}

/// The tables of a payload are accepted exactly where the fenceposts of its names
/// rise and end within it, every polygon belongs to a feature, the fenceposts of
/// its lists rise and end in front of the release, every candidate is a polygon,
/// and every cell names a feature, a list or nothing.
pub proof fn lemma_accepted_tables(b: Seq<u8>, layout: PayloadLayout)
    requires
        layout.ncols > 0,
        layout.nrows > 0,
    ensures
        tables_ok(b, layout) <==> {
            let last = two_bytes(b, layout.list_offsets + 2 * layout.uniq);
            &&& posts_rise(name_posts(b), layout.n_features as int)
            &&& layout.pool + two_bytes(b, 2 * layout.n_features) <= layout.sections_len
            &&& forall|i: int|
                0 <= i < layout.eager_polys ==> #[trigger] two_bytes(b, layout.parent + 2 * i)
                    < layout.n_features
            &&& posts_rise(list_posts(b, layout), layout.uniq as int)
            &&& last == 0 || layout.list_ids + 2 * last <= layout.release_off
            &&& forall|i: int|
                0 <= i < last ==> #[trigger] two_bytes(b, layout.list_ids + 2 * i)
                    < layout.eager_polys
            &&& forall|i: int|
                0 <= i < layout.ncols * layout.nrows ==> names_something(
                    layout,
                    #[trigger] two_bytes(b, layout.primary + 2 * i),
                )
        },
{
    let (n, u) = (layout.n_features as int, layout.uniq as int);
    let (names, lists) = (name_posts(b), list_posts(b, layout));
    let last = two_bytes(b, layout.list_offsets + 2 * u);
    assert(strings_ok(b, layout, n + 1) <==> posts_rise(names, n) && layout.pool + two_bytes(
        b,
        2 * n,
    ) <= layout.sections_len) by {
        lemma_strings(b, layout);
    }
    assert(list_offsets_ok(b, layout, u + 1) <==> posts_rise(lists, u) && last <= list_room(layout))
        by {
        lemma_lists(b, layout);
    }
    assert(last >= 0);
    assert(list_offset(b, layout, u) == last);
    assert(last <= list_room(layout) <==> last == 0 || layout.list_ids + 2 * last
        <= layout.release_off);
    assert(parents_ok(b, layout, layout.eager_polys as int) <==> forall|i: int|
        0 <= i < layout.eager_polys ==> #[trigger] two_bytes(b, layout.parent + 2 * i)
            < layout.n_features) by {
        assert forall|i: int| parent_at(b, layout, i) == #[trigger] two_bytes(
            b,
            layout.parent + 2 * i,
        ) by {}
        if parents_ok(b, layout, layout.eager_polys as int) {
            assert forall|i: int| 0 <= i < layout.eager_polys implies #[trigger] two_bytes(
                b,
                layout.parent + 2 * i,
            ) < layout.n_features by {
                assert(parent_at(b, layout, i) < layout.n_features);
            }
        } else {
            let i = choose|i: int|
                0 <= i < layout.eager_polys && !(#[trigger] parent_at(b, layout, i)
                    < layout.n_features);
            assert(two_bytes(b, layout.parent + 2 * i) >= layout.n_features);
        }
    }
    assert(list_ids_ok(b, layout, last) <==> forall|i: int|
        0 <= i < last ==> #[trigger] two_bytes(b, layout.list_ids + 2 * i) < layout.eager_polys) by {
        if list_ids_ok(b, layout, last) {
            assert forall|i: int| 0 <= i < last implies #[trigger] two_bytes(
                b,
                layout.list_ids + 2 * i,
            ) < layout.eager_polys by {
                assert(list_id(b, layout, i) < layout.eager_polys);
            }
        } else {
            let i = choose|i: int|
                0 <= i < last && !(#[trigger] list_id(b, layout, i) < layout.eager_polys);
            assert(two_bytes(b, layout.list_ids + 2 * i) >= layout.eager_polys);
        }
    }
    lemma_cells(b, layout);
}

/// The names' fenceposts, either way.
proof fn lemma_strings(b: Seq<u8>, layout: PayloadLayout)
    ensures
        strings_ok(b, layout, layout.n_features + 1) <==> posts_rise(
            name_posts(b),
            layout.n_features as int,
        ) && layout.pool + two_bytes(b, 2 * layout.n_features) <= layout.sections_len,
{
    let n = layout.n_features as int;
    let post = name_posts(b);
    assert forall|i: int| #[trigger] string_offset(b, i) == post(i) by {}
    if strings_ok(b, layout, n + 1) {
        assert forall|i: int| 0 <= i < n implies #[trigger] post(i) <= post(i + 1) by {
            assert(string_offset(b, i) <= string_offset(b, i + 1));
        }
        assert(layout.pool + string_offset(b, n) <= layout.sections_len);
    }
    if posts_rise(post, n) && layout.pool + two_bytes(b, 2 * n) <= layout.sections_len {
        assert forall|i: int, j: int| 0 <= i <= j < n + 1 implies #[trigger] string_offset(b, i)
            <= #[trigger] string_offset(b, j) by {
            lemma_in_order(post, n, i, j);
        }
        assert forall|i: int| 0 <= i < n + 1 implies layout.pool + #[trigger] string_offset(b, i)
            <= layout.sections_len by {
            lemma_in_order(post, n, i, n);
        }
    }
}

/// The lists' fenceposts, either way.
proof fn lemma_lists(b: Seq<u8>, layout: PayloadLayout)
    ensures
        list_offsets_ok(b, layout, layout.uniq + 1) <==> posts_rise(
            list_posts(b, layout),
            layout.uniq as int,
        ) && two_bytes(b, layout.list_offsets + 2 * layout.uniq) <= list_room(layout),
{
    let n = layout.uniq as int;
    let post = list_posts(b, layout);
    assert forall|i: int| #[trigger] list_offset(b, layout, i) == post(i) by {}
    if list_offsets_ok(b, layout, n + 1) {
        assert forall|i: int| 0 <= i < n implies #[trigger] post(i) <= post(i + 1) by {
            assert(list_offset(b, layout, i) <= list_offset(b, layout, i + 1));
        }
        assert(list_offset(b, layout, n) <= list_room(layout));
    }
    if posts_rise(post, n) && two_bytes(b, layout.list_offsets + 2 * n) <= list_room(layout) {
        assert forall|i: int, j: int| 0 <= i <= j < n + 1 implies #[trigger] list_offset(
            b,
            layout,
            i,
        ) <= #[trigger] list_offset(b, layout, j) by {
            lemma_in_order(post, n, i, j);
        }
        assert forall|i: int| 0 <= i < n + 1 implies #[trigger] list_offset(b, layout, i)
            <= list_room(layout) by {
            lemma_in_order(post, n, i, n);
        }
    }
}

/// Whether a cell names a feature, a list, or nothing.
pub open spec fn names_something(layout: PayloadLayout, cell: int) -> bool {
    if cell < 32767 {
        cell < layout.n_features
    } else {
        cell == 32767 || cell - 32768 < layout.uniq
    }
}

/// What a cell may hold, either way.
proof fn lemma_cells(b: Seq<u8>, layout: PayloadLayout)
    ensures
        cells_ok(b, layout, layout.ncols * layout.nrows) <==> forall|i: int|
            0 <= i < layout.ncols * layout.nrows ==> names_something(
                layout,
                #[trigger] two_bytes(b, layout.primary + 2 * i),
            ),
{
    let total = layout.ncols * layout.nrows;
    if cells_ok(b, layout, total) {
        assert forall|i: int| 0 <= i < total implies names_something(
            layout,
            #[trigger] two_bytes(b, layout.primary + 2 * i),
        ) by {
            assert(cell_ok(layout, cell_at(b, layout, i) as u16));
        }
    } else {
        let i = choose|i: int|
            0 <= i < total && !cell_ok(layout, #[trigger] cell_at(b, layout, i) as u16);
        assert(!names_something(layout, two_bytes(b, layout.primary + 2 * i)));
    }
}

/// An uncompressed container holds its payload behind 72 bytes. It loads as that
/// payload where the bytes reach as far as the header says, the ring counts agree
/// and the tables are accepted; else it is refused, for the first of these that
/// fails.
pub proof fn lemma_stored_payloads(b: Seq<u8>, layout: PayloadLayout)
    requires
        container_layout(b) == Ok::<PayloadLayout, Error>(layout),
        layout.codec == Codec::Uncompressed,
    ensures
        ({
            let end = 72 + layout.sections_len;
            let blob = b.subrange(72, end);
            &&& b.len() >= 72
            &&& b.len() < end ==> load_spec(b) == Err::<(Seq<u8>, PayloadLayout), ErrorView>(
                ErrorView::Plain(Error::Truncated),
            )
            &&& b.len() >= end && !full_counts_agree(blob, layout) ==> load_spec(b) == Err::<
                (Seq<u8>, PayloadLayout),
                ErrorView,
            >(ErrorView::Plain(Error::FullRingsCountsDisagree))
            &&& b.len() >= end && full_counts_agree(blob, layout) && !tables_ok(blob, layout)
                ==> load_spec(b) == Err::<(Seq<u8>, PayloadLayout), ErrorView>(
                ErrorView::Plain(Error::TableOutOfRange),
            )
            &&& b.len() >= end && full_counts_agree(blob, layout) && tables_ok(blob, layout)
                ==> load_spec(b) == Ok::<(Seq<u8>, PayloadLayout), ErrorView>((blob, layout))
        }),
{
    let end = 72 + layout.sections_len;
    assert(b.len() >= 72) by {
        let rest = b.skip(8);
        assert(rest.len() >= 64);
    }
    if b.len() >= end {
        assert(b.skip(72).take(layout.sections_len as int) =~= b.subrange(72, end));
    }
}

/// The ring counts of an image agree where its last ring ends with its last
/// vertex; without rings, or in any other encoding, nothing is asked.
pub proof fn lemma_ring_counts(b: Seq<u8>, layout: PayloadLayout)
    ensures
        full_counts_agree(b, layout) <==> layout.geom != GeomEncoding::FullRings
            || layout.eager_rings == 0 || ({
            let at = layout.full_ring_ends + 4 * (layout.eager_rings - 1);
            b[at] + 256 * (b[at + 1] + 256 * (b[at + 2] + 256 * b[at + 3])) == layout.eager_coords
        }),
{
}

} // verus!
