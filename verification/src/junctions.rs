//! Where rings are cut into arcs: at the vertices where borders part, and nowhere
//! else.

use vstd::prelude::*;

use crate::owners::{edge_of, has_edge, owner_set, owns, ring_edge};
use crate::stitch::oriented;
use crate::topo::{
    arcs_of, cuts_of, is_cut, lemma_cuts, lemma_neighbours, lemma_no_single_cut,
    lemma_piece_stored, lemma_ref_walks, pieces, ref_of, refs_are, span,
};
use crate::walks::{closed_walk, lemma_stored_least, start_from};

verus! {

/// The vertex behind vertex `i` of `n` around a ring.
pub open spec fn next(i: int, n: int) -> int {
    if i + 1 == n {
        0
    } else {
        i + 1
    }
}

/// The vertex before vertex `i` of `n` around a ring.
pub open spec fn previous(i: int, n: int) -> int {
    if i == 0 {
        n - 1
    } else {
        i - 1
    }
}

/// Whether a ring steps from one of two vertices to the other at vertex `i`.
pub open spec fn steps_at(ring: Seq<u32>, a: u32, b: u32, i: int) -> bool {
    let behind = ring[next(i, ring.len() as int)];
    0 <= i < ring.len() && ((ring[i] == a && behind == b) || (ring[i] == b && behind == a))
}

/// Whether a ring runs along the border between two vertices, whichever way.
pub open spec fn runs_along(ring: Seq<u32>, a: u32, b: u32) -> bool {
    exists|i: int| #[trigger] steps_at(ring, a, b, i)
}

/// Whether borders part at vertex `i` of ring `r`: some ring runs along one of the
/// ring's two edges there, and not along the other.
pub open spec fn borders_part(rings: Seq<Seq<u32>>, r: int, i: int) -> bool {
    let ring = rings[r];
    let n = ring.len() as int;
    exists|q: int|
        0 <= q < rings.len() && runs_along(#[trigger] rings[q], ring[previous(i, n)], ring[i])
            != runs_along(rings[q], ring[i], ring[next(i, n)])
}

/// Owning an edge is running along it.
proof fn lemma_owns(rings: Seq<Seq<u32>>, q: int, a: u32, b: u32)
    requires
        0 <= q < rings.len(),
    ensures
        owns(rings, q, edge_of(a, b)) == runs_along(rings[q], a, b),
{
    let ring = rings[q];
    let n = ring.len() as int;
    let e = edge_of(a, b);
    if has_edge(ring, e, n) {
        let i = choose|i: int| 0 <= i < n && #[trigger] ring_edge(ring, i) == e;
        lemma_neighbours(i, n);
        assert(steps_at(ring, a, b, i));
    }
    if runs_along(ring, a, b) {
        let i = choose|i: int| #[trigger] steps_at(ring, a, b, i);
        lemma_neighbours(i, n);
        assert(ring_edge(ring, i) == e);
    }
}

/// A junction is a vertex where borders part.
pub proof fn lemma_cuts_are_where_borders_part(rings: Seq<Seq<u32>>, r: int, i: int)
    requires
        0 <= r < rings.len(),
        0 <= i < rings[r].len(),
    ensures
        is_cut(rings, r, i) == borders_part(rings, r, i),
{
    let ring = rings[r];
    let n = ring.len() as int;
    lemma_neighbours(i, n);
    let (p, v, x) = (ring[previous(i, n)], ring[i], ring[next(i, n)]);
    let (before, after) = (owner_set(rings, edge_of(p, v)), owner_set(rings, edge_of(v, x)));
    assert forall|q: int| 0 <= q < rings.len() implies before.contains(q) == runs_along(
        #[trigger] rings[q],
        p,
        v,
    ) && after.contains(q) == runs_along(rings[q], v, x) by {
        lemma_owns(rings, q, p, v);
        lemma_owns(rings, q, v, x);
    }
    if borders_part(rings, r, i) {
        let q = choose|q: int|
            0 <= q < rings.len() && runs_along(#[trigger] rings[q], p, v) != runs_along(
                rings[q],
                v,
                x,
            );
        assert(before.contains(q) != after.contains(q));
    } else {
        assert forall|q: int| before.contains(q) == after.contains(q) by {
            if 0 <= q < rings.len() {
                assert(runs_along(rings[q], p, v) == runs_along(rings[q], v, x));
            }
        }
        assert(before =~= after);
    }
}

/// Whether a walk runs along ring `r` from vertex `s` on, borders part at both its
/// ends and nowhere between them, or nowhere around the ring and it is the whole
/// of it.
pub open spec fn runs_between(rings: Seq<Seq<u32>>, r: int, w: Seq<u32>, s: int) -> bool {
    let ring = rings[r];
    let n = ring.len() as int;
    let last = w.len() - 1;
    &&& 0 <= s < n
    &&& 1 <= last <= n
    &&& forall|k: int| 0 <= k <= last ==> #[trigger] w[k] == ring[(s + k) % n]
    &&& forall|k: int| 0 < k < last ==> !#[trigger] borders_part(rings, r, (s + k) % n)
    &&& {
        ||| borders_part(rings, r, s) && borders_part(rings, r, (s + last) % n)
        ||| last == n && forall|i: int| 0 <= i < n ==> !#[trigger] borders_part(rings, r, i)
    }
}

/// Whether a walk runs along ring `r` from some vertex on, between two where
/// borders part or around it.
pub open spec fn runs_somewhere(rings: Seq<Seq<u32>>, r: int, w: Seq<u32>) -> bool {
    exists|s: int| #[trigger] runs_between(rings, r, w, s)
}

/// Every reference of a ring names an arc that runs along it from one vertex where
/// borders part to the next, or around it where they part nowhere.
pub proof fn lemma_arcs_run_between_junctions(
    rings: Seq<Seq<u32>>,
    r: int,
    refs: Seq<u32>,
    j: int,
)
    requires
        0 <= r < rings.len(),
        refs_are(rings, arcs_of(rings), r, refs),
        0 <= j < refs.len(),
    ensures
        refs[j] / 2 < arcs_of(rings).len(),
        runs_somewhere(
            rings,
            r,
            oriented(arcs_of(rings)[(refs[j] / 2) as int], refs[j] % 2 == 1),
        ),
{
    let ring = rings[r];
    let n = ring.len() as int;
    let arcs = arcs_of(rings);
    let cuts = cuts_of(rings, r, n);
    let w = pieces(rings, r)[j];
    assert(refs[j] == ref_of(arcs, w));
    lemma_piece_stored(rings, r, j);
    lemma_ref_walks(arcs, w, refs[j]);
    lemma_cuts(rings, r, n);
    assert forall|i: int| 0 <= i < n implies is_cut(rings, r, i) == #[trigger] borders_part(
        rings,
        r,
        i,
    ) by {
        lemma_cuts_are_where_borders_part(rings, r, i);
    }
    if cuts.len() == 0 {
        lemma_stored_least(ring);
        let s = start_from(ring, 0);
        assert(w == closed_walk(ring));
        assert forall|i: int| 0 <= i < n implies !#[trigger] borders_part(rings, r, i) by {
            if is_cut(rings, r, i) {
                assert(cuts.contains(i));
            }
        }
        assert forall|k: int| 0 < k < n implies !#[trigger] borders_part(rings, r, (s + k) % n) by {
            vstd::arithmetic::div_mod::lemma_mod_bound(s + k, n);
        }
        assert(runs_between(rings, r, w, s));
    } else {
        lemma_no_single_cut(rings, r);
        lemma_between_cuts(rings, r, j);
        assert(runs_between(rings, r, w, cuts[j]));
    }
}

/// A piece runs from one junction to the next.
proof fn lemma_between_cuts(rings: Seq<Seq<u32>>, r: int, j: int)
    requires
        0 <= r < rings.len(),
        cuts_of(rings, r, rings[r].len() as int).len() >= 2,
        0 <= j < cuts_of(rings, r, rings[r].len() as int).len(),
    ensures
        runs_between(
            rings,
            r,
            pieces(rings, r)[j],
            cuts_of(rings, r, rings[r].len() as int)[j],
        ),
{
    let ring = rings[r];
    let n = ring.len() as int;
    let cuts = cuts_of(rings, r, n);
    let m = cuts.len() as int;
    lemma_cuts(rings, r, n);
    lemma_neighbours(j, m);
    let s = cuts[j];
    let e = cuts[next(j, m)];
    let w = pieces(rings, r)[j];
    assert(n > 0);
    assert(w == span(ring, s, e));
    let last = if j + 1 < m {
        e - s
    } else {
        e - s + n
    };
    assert((e - s) % n == last && 0 < last < n) by {
        if j + 1 < m {
            assert(cuts[j] < cuts[j + 1]);
            vstd::arithmetic::div_mod::lemma_small_mod((e - s) as nat, n as nat);
        } else {
            assert(cuts[0] < cuts[j]);
            vstd::arithmetic::div_mod::lemma_mod_add_multiples_vanish(e - s, n);
            vstd::arithmetic::div_mod::lemma_small_mod((e - s + n) as nat, n as nat);
            assert((n + (e - s)) % n == (e - s) % n);
        }
    }
    assert((s + last) % n == e) by {
        if j + 1 < m {
            vstd::arithmetic::div_mod::lemma_small_mod(e as nat, n as nat);
        } else {
            vstd::arithmetic::div_mod::lemma_mod_add_multiples_vanish(e, n);
            vstd::arithmetic::div_mod::lemma_small_mod(e as nat, n as nat);
            assert(s + last == n + e);
        }
    }
    lemma_cuts_are_where_borders_part(rings, r, s);
    lemma_cuts_are_where_borders_part(rings, r, e);
    assert forall|k: int| 0 < k < last implies !#[trigger] borders_part(rings, r, (s + k) % n) by {
        let i = (s + k) % n;
        let at = if s + k < n {
            s + k
        } else {
            s + k - n
        };
        if s + k < n {
            vstd::arithmetic::div_mod::lemma_small_mod((s + k) as nat, n as nat);
        } else {
            vstd::arithmetic::div_mod::lemma_mod_add_multiples_vanish(s + k - n, n);
            vstd::arithmetic::div_mod::lemma_small_mod((s + k - n) as nat, n as nat);
            assert(n + (s + k - n) == s + k);
        }
        assert(i == at);
        lemma_cuts_are_where_borders_part(rings, r, i);
        if is_cut(rings, r, i) {
            assert(cuts.contains(i));
            let t = choose|t: int| 0 <= t < m && cuts[t] == i;
            if s + k < n {
                assert(t > j) by {
                    if t < j {
                        assert(cuts[t] < cuts[j]);
                    }
                }
                if j + 1 < m && t > j + 1 {
                    assert(cuts[j + 1] < cuts[t]);
                }
            } else {
                if t > 0 {
                    assert(cuts[0] < cuts[t]);
                }
            }
        }
    }
}

/// The vertices of a ring where borders part.
pub open spec fn partings(rings: Seq<Seq<u32>>, r: int) -> Set<int> {
    Set::new(|i: int| 0 <= i < rings[r].len() && borders_part(rings, r, i))
}

/// The junctions among the first `n` vertices.
spec fn cuts_upto(rings: Seq<Seq<u32>>, r: int, n: int) -> Set<int> {
    Set::new(|i: int| 0 <= i < n && is_cut(rings, r, i))
}

proof fn lemma_cuts_counted(rings: Seq<Seq<u32>>, r: int, n: int)
    requires
        0 <= n,
    ensures
        cuts_upto(rings, r, n).finite(),
        cuts_upto(rings, r, n).len() == cuts_of(rings, r, n).len(),
    decreases n,
{
    let all = cuts_upto(rings, r, n);
    if n == 0 {
        assert(all =~= Set::empty());
    } else {
        lemma_cuts_counted(rings, r, n - 1);
        let less = cuts_upto(rings, r, n - 1);
        if is_cut(rings, r, n - 1) {
            assert(all =~= less.insert(n - 1));
        } else {
            assert(all =~= less);
        }
    }
}

/// A ring has one reference for each of its vertices where borders part, and one
/// where there is none; a ring without vertices has none.
pub proof fn lemma_references_count_partings(rings: Seq<Seq<u32>>, r: int, refs: Seq<u32>)
    requires
        0 <= r < rings.len(),
        refs_are(rings, arcs_of(rings), r, refs),
    ensures
        partings(rings, r).finite(),
        rings[r].len() == 0 ==> refs.len() == 0,
        rings[r].len() > 0 && partings(rings, r).len() == 0 ==> refs.len() == 1,
        partings(rings, r).len() > 0 ==> refs.len() == partings(rings, r).len(),
{
    let n = rings[r].len() as int;
    lemma_cuts_counted(rings, r, n);
    assert(partings(rings, r) =~= cuts_upto(rings, r, n)) by {
        assert forall|i: int| 0 <= i < n implies is_cut(rings, r, i) == #[trigger] borders_part(
            rings,
            r,
            i,
        ) by {
            lemma_cuts_are_where_borders_part(rings, r, i);
        }
    }
}

} // verus!
