//! The vertices that a simplifier's keep mask selects.

use crate::topology::Bits;
use vstd::prelude::*;

verus! {

/// The indices below `n` that a mask keeps, in order.
pub open spec fn kept_indices(keep: Seq<bool>, n: int) -> Seq<int>
    decreases n,
{
    if n <= 0 {
        Seq::empty()
    } else if keep[n - 1] {
        kept_indices(keep, n - 1).push(n - 1)
    } else {
        kept_indices(keep, n - 1)
    }
}

/// The points that a mask keeps, in order.
pub open spec fn kept_points(points: Seq<Bits>, keep: Seq<bool>) -> Seq<Bits> {
    kept_indices(keep, keep.len() as int).map_values(|i: int| points[i])
}

/// The points that a mask keeps, in order.
pub fn select(points: &[Bits], keep: &[bool]) -> (kept: Vec<Bits>)
    requires
        points@.len() == keep@.len(),
    ensures
        kept@ == kept_points(points@, keep@),
{
    let mut kept: Vec<Bits> = Vec::new();
    let mut i: usize = 0;
    assert(kept@ =~= kept_indices(keep@, 0).map_values(|i: int| points@[i]));
    while i < keep.len()
        invariant
            i <= keep@.len(),
            points@.len() == keep@.len(),
            kept@ == kept_indices(keep@, i as int).map_values(|i: int| points@[i]),
        decreases keep@.len() - i,
    {
        if keep[i] {
            kept.push(points[i]);
        }
        assert(kept@ =~= kept_indices(keep@, i as int + 1).map_values(|i: int| points@[i]));
        i = i + 1;
    }
    kept
}

/// Kept indices ascend, are kept, and leave none out.
proof fn lemma_kept_indices(keep: Seq<bool>, n: int)
    requires
        0 <= n <= keep.len(),
    ensures
        forall|v: int|
            0 <= v < kept_indices(keep, n).len() ==> 0 <= #[trigger] kept_indices(keep, n)[v] < n
                && keep[kept_indices(keep, n)[v]],
        forall|v: int, w: int|
            0 <= v < w < kept_indices(keep, n).len() ==> #[trigger] kept_indices(keep, n)[v]
                < #[trigger] kept_indices(keep, n)[w],
    decreases n,
{
    if n > 0 {
        lemma_kept_indices(keep, n - 1);
        let (few, more) = (kept_indices(keep, n - 1), kept_indices(keep, n));
        assert forall|v: int| 0 <= v < more.len() implies 0 <= #[trigger] more[v] < n
            && keep[more[v]] by {
            if v < few.len() {
                assert(more[v] == few[v]);
            }
        }
        assert forall|v: int, w: int| 0 <= v < w < more.len() implies #[trigger] more[v]
            < #[trigger] more[w] by {
            assert(more[v] == few[v]);
            if w < few.len() {
                assert(more[w] == few[w]);
            }
        }
    }
}

/// Whether `at` lists, in order, where each kept point stands among the points.
pub open spec fn embeds(kept: Seq<Bits>, points: Seq<Bits>, at: Seq<int>) -> bool {
    &&& at.len() == kept.len()
    &&& forall|v: int| 0 <= v < at.len() ==> 0 <= #[trigger] at[v] < points.len() && points[at[v]]
        == kept[v]
    &&& forall|v: int, w: int| 0 <= v < w < at.len() ==> (#[trigger] at[v]) < (#[trigger] at[w])
}

/// Whatever a mask keeps is a subsequence of the points it was applied to.
pub proof fn lemma_selection_embeds(points: Seq<Bits>, keep: Seq<bool>)
    requires
        points.len() == keep.len(),
    ensures
        embeds(kept_points(points, keep), points, kept_indices(keep, keep.len() as int)),
{
    lemma_kept_indices(keep, keep.len() as int);
}

/// A mask that keeps both ends keeps at least two points, and those ends.
pub proof fn lemma_ends_are_kept(points: Seq<Bits>, keep: Seq<bool>)
    requires
        points.len() == keep.len(),
        keep.len() >= 2,
        keep[0],
        keep[keep.len() - 1],
    ensures
        kept_points(points, keep).len() >= 2,
        kept_points(points, keep)[0] == points[0],
        kept_points(points, keep).last() == points.last(),
{
    lemma_first_kept(keep, keep.len() - 1);
}

/// The first index stays first.
proof fn lemma_first_kept(keep: Seq<bool>, n: int)
    requires
        1 <= n <= keep.len(),
        keep[0],
    ensures
        kept_indices(keep, n).len() >= 1,
        kept_indices(keep, n)[0] == 0,
    decreases n,
{
    if n > 1 {
        lemma_first_kept(keep, n - 1);
    } else {
        assert(kept_indices(keep, 0) =~= Seq::empty());
    }
}

/// Every kept index is listed.
proof fn lemma_kept_listed(keep: Seq<bool>, n: int, i: int)
    requires
        0 <= i < n <= keep.len(),
        keep[i],
    ensures
        kept_indices(keep, n).contains(i),
    decreases n,
{
    let more = kept_indices(keep, n);
    if i == n - 1 {
        assert(more[more.len() - 1] == i);
    } else {
        lemma_kept_listed(keep, n - 1, i);
        let few = kept_indices(keep, n - 1);
        let v = choose|v: int| 0 <= v < few.len() && few[v] == i;
        assert(more[v] == i);
    }
}

/// Whether a line is drawn through some of the points of another, in their order:
/// through both ends, and through the points at the indices `at`.
pub open spec fn drawn_through(line: Seq<Bits>, points: Seq<Bits>, at: Seq<int>) -> bool {
    &&& at.len() == line.len()
    &&& at.len() >= 2
    &&& at[0] == 0
    &&& at[at.len() - 1] == points.len() - 1
    &&& forall|v: int| 0 <= v < at.len() ==> 0 <= #[trigger] at[v] < points.len() && line[v]
        == points[at[v]]
    &&& forall|v: int, w: int| 0 <= v < w < at.len() ==> (#[trigger] at[v]) < (#[trigger] at[w])
}

/// A selection holds exactly the points that the mask keeps: one for each index
/// that is kept, at its place in the order, and no other.
pub proof fn lemma_selection_is_exact(points: Seq<Bits>, keep: Seq<bool>)
    requires
        points.len() == keep.len(),
    ensures
        ({
            let at = kept_indices(keep, keep.len() as int);
            &&& embeds(kept_points(points, keep), points, at)
            &&& forall|i: int|
                0 <= i < keep.len() ==> #[trigger] keep[i] == at.contains(i)
        }),
{
    let n = keep.len() as int;
    lemma_selection_embeds(points, keep);
    let at = kept_indices(keep, n);
    lemma_kept_indices(keep, n);
    assert forall|i: int| 0 <= i < n implies #[trigger] keep[i] == at.contains(i) by {
        if keep[i] {
            lemma_kept_listed(keep, n, i);
        }
        if at.contains(i) {
            let v = choose|v: int| 0 <= v < at.len() && at[v] == i;
            assert(keep[at[v]]);
        }
    }
}

/// A mask that keeps both ends draws the line through the points it keeps, and
/// between two that follow each other it keeps none.
pub proof fn lemma_selection_is_drawn(points: Seq<Bits>, keep: Seq<bool>)
    requires
        points.len() == keep.len(),
        keep.len() >= 2,
        keep[0],
        keep[keep.len() - 1],
    ensures
        ({
            let at = kept_indices(keep, keep.len() as int);
            &&& drawn_through(kept_points(points, keep), points, at)
            &&& forall|v: int| 0 <= v < at.len() ==> keep[#[trigger] at[v]]
            &&& forall|v: int, i: int|
                0 <= v < at.len() - 1 && #[trigger] at[v] < i < at[v + 1] ==> !#[trigger] keep[i]
        }),
{
    let n = keep.len() as int;
    let at = kept_indices(keep, n);
    lemma_selection_is_exact(points, keep);
    lemma_kept_indices(keep, n);
    lemma_first_kept(keep, n - 1);
    lemma_first_kept(keep, n);
    assert(at == kept_indices(keep, n - 1).push(n - 1));
    assert forall|v: int, i: int|
        0 <= v < at.len() - 1 && #[trigger] at[v] < i < at[v + 1] implies !#[trigger] keep[i] by {
        if keep[i] {
            assert(at.contains(i));
            let w = choose|w: int| 0 <= w < at.len() && at[w] == i;
            if w <= v {
                assert(w == v || at[w] < at[v]);
            } else {
                assert(w == v + 1 || at[v + 1] < at[w]);
            }
        }
    }
}

/// A mask that keeps everything selects everything.
pub proof fn lemma_all_selected(points: Seq<Bits>, keep: Seq<bool>)
    requires
        points.len() == keep.len(),
        forall|i: int| 0 <= i < keep.len() ==> #[trigger] keep[i],
    ensures
        kept_points(points, keep) == points,
{
    lemma_all_indices(keep, keep.len() as int);
    assert(kept_points(points, keep) =~= points);
}

proof fn lemma_all_indices(keep: Seq<bool>, n: int)
    requires
        0 <= n <= keep.len(),
        forall|i: int| 0 <= i < keep.len() ==> #[trigger] keep[i],
    ensures
        kept_indices(keep, n) == Seq::new(n as nat, |i: int| i),
    decreases n,
{
    if n > 0 {
        lemma_all_indices(keep, n - 1);
        assert(keep[n - 1]);
    }
    assert(kept_indices(keep, n) =~= Seq::new(n as nat, |i: int| i));
}

} // verus!
