//! Stitching shared arcs into rings: consecutive arcs share their junction
//! vertex, and a ring's last vertex repeats its first; both duplicates are
//! stored once.

use vstd::prelude::*;

verus! {

/// An arc in the direction a reference walks it.
pub open spec fn oriented<T>(arc: Seq<T>, reversed: bool) -> Seq<T> {
    if reversed { arc.reverse() } else { arc }
}

/// The vertices after one more arc. The junction vertex is stored once where
/// the arc starts at the last vertex stored.
pub open spec fn append_spec<T>(coords: Seq<T>, arc: Seq<T>) -> Seq<T> {
    if coords.len() > 0 && arc.len() > 0 && coords.last() == arc[0] {
        coords + arc.skip(1)
    } else {
        coords + arc
    }
}

/// Drops the duplicated ring-closure vertex of the ring that begins at
/// `start`.
pub open spec fn close_ring<T>(coords: Seq<T>, start: int) -> Seq<T> {
    if coords.len() > start + 1 && coords.last() == coords[start] {
        coords.drop_last()
    } else {
        coords
    }
}

/// The vertices of a ring's first `n` references, before closing. A reference
/// is an arc id shifted left by one, the low bit set when the ring walks the
/// arc backwards.
pub open spec fn stitched<T>(refs: Seq<u32>, arcs: Seq<Seq<T>>, n: int) -> Seq<T>
    decreases n,
{
    if n <= 0 {
        Seq::empty()
    } else {
        append_spec(
            stitched(refs, arcs, n - 1),
            oriented(arcs[(refs[n - 1] / 2) as int], refs[n - 1] % 2 == 1),
        )
    }
}

/// The vertices of a ring, open: no vertex repeats at the closure.
pub open spec fn ring_of<T>(refs: Seq<u32>, arcs: Seq<Seq<T>>) -> Seq<T> {
    close_ring(stitched(refs, arcs, refs.len() as int), 0)
}

/// Whether each of the first `n` references but the first walks an arc that
/// begins where the ones before it end.
pub open spec fn joined<T>(refs: Seq<u32>, arcs: Seq<Seq<T>>, n: int) -> bool
    decreases n,
{
    n > 1 ==> {
        let head = stitched(refs, arcs, n - 1);
        let walk = oriented(arcs[(refs[n - 1] / 2) as int], refs[n - 1] % 2 == 1);
        &&& joined(refs, arcs, n - 1)
        &&& head.len() > 0 && walk.len() > 0
        &&& head.last() == walk[0]
    }
}

/// Stitching looks only at the arcs a ring references.
pub proof fn lemma_stitched_same<T>(
    refs: Seq<u32>,
    arcs: Seq<Seq<T>>,
    new_refs: Seq<u32>,
    new_arcs: Seq<Seq<T>>,
    n: int,
)
    requires
        0 <= n <= refs.len(),
        refs.len() == new_refs.len(),
        forall|i: int|
            0 <= i < refs.len() ==> arcs[(#[trigger] refs[i] / 2) as int] == new_arcs[(new_refs[i]
                / 2) as int] && refs[i] % 2 == new_refs[i] % 2,
    ensures
        stitched(refs, arcs, n) == stitched(new_refs, new_arcs, n),
    decreases n,
{
    if n > 0 {
        lemma_stitched_same(refs, arcs, new_refs, new_arcs, n - 1);
        assert(arcs[(refs[n - 1] / 2) as int] == new_arcs[(new_refs[n - 1] / 2) as int]);
    }
}

} // verus!
