//! What dropping collapsed rings leaves: every polygon whose exterior encloses an
//! area, with every hole that does, in their order and with their vertices.

use vstd::prelude::*;

use crate::clean::{
    arcs_view, clean_spec, lemma_open_run, lemma_ring_run, ring_run, tally_none, tally_total,
    unclosed, Vertex,
};
use crate::meeting::{flat, lemma_searched, searched};
use crate::sift::{
    compacted, lemma_surviving_rings_keep_their_vertices, poly_survives, refs_view, ring_ok, sift,
    sift_feature, sift_poly, sifted, structure_view, used_by,
};
use crate::snapped::{
    cleaned, cleaned_stats, countable, feature_rings, lemma_drops, lemma_verts_grow, snaps,
    total_polys, total_rings, total_verts, Snapped,
};
use crate::stitch::ring_of;
use crate::validate::{feature_has, left_over, owner_of, standing};

verus! {

/// Whether a polygon is worth keeping: it has an exterior that is.
pub open spec fn has_exterior(ok: spec_fn(int) -> bool) -> spec_fn(Seq<int>) -> bool {
    |poly: Seq<int>| poly.len() > 0 && ok(poly[0])
}

/// One more element is kept where it belongs.
proof fn lemma_filter_step<A>(s: Seq<A>, n: int, pred: spec_fn(A) -> bool)
    requires
        0 < n <= s.len(),
    ensures
        s.take(n).filter(pred) == if pred(s[n - 1]) {
            s.take(n - 1).filter(pred).push(s[n - 1])
        } else {
            s.take(n - 1).filter(pred)
        },
{
    reveal(Seq::filter);
    assert(s.take(n).drop_last() =~= s.take(n - 1));
}

/// What sifting a polygon with a standing exterior keeps.
proof fn lemma_poly(ok: spec_fn(int) -> bool, poly: Seq<int>, kept: Seq<int>, n: int)
    requires
        0 <= n <= poly.len(),
        poly.len() > 0,
        ok(poly[0]),
    ensures
        ({
            let (k, ids, dropped) = sift_poly(ok, poly, kept, n);
            let rings = poly.take(n).filter(ok);
            &&& k == kept + rings
            &&& ids == Seq::new(rings.len(), |i: int| kept.len() + i)
            &&& rings.len() + dropped == n
        }),
    decreases n,
{
    let (k, ids, dropped) = sift_poly(ok, poly, kept, n);
    let rings = poly.take(n).filter(ok);
    if n == 0 {
        reveal(Seq::filter);
        assert(k =~= kept + rings);
        assert(ids =~= Seq::new(rings.len(), |i: int| kept.len() + i));
    } else {
        lemma_poly(ok, poly, kept, n - 1);
        lemma_filter_step(poly, n, ok);
        assert(k =~= kept + rings);
        assert(ids =~= Seq::new(rings.len(), |i: int| kept.len() + i));
    }
}

/// Whether new ring numbers stand for these old ones.
pub open spec fn stands_for(kept: Seq<int>, ids: Seq<int>, rings: Seq<int>) -> bool {
    &&& ids.len() == rings.len()
    &&& forall|i: int|
        0 <= i < ids.len() ==> 0 <= #[trigger] ids[i] < kept.len() && kept[ids[i]] == rings[i]
}

/// What sifting a feature keeps.
proof fn lemma_feature(ok: spec_fn(int) -> bool, polys: Seq<Seq<int>>, kept: Seq<int>, n: int)
    requires
        0 <= n <= polys.len(),
    ensures
        ({
            let (k, out, pd, rd) = sift_feature(ok, polys, kept, n);
            let left = polys.take(n).filter(has_exterior(ok));
            &&& k.len() >= kept.len()
            &&& k.take(kept.len() as int) == kept
            &&& out.len() == left.len()
            &&& forall|q: int|
                0 <= q < out.len() ==> stands_for(k, #[trigger] out[q], left[q].filter(ok))
            &&& out.len() + pd == n
            &&& k.len() - kept.len() + rd == feature_rings(polys, n)
        }),
    decreases n,
{
    let (k, out, pd, rd) = sift_feature(ok, polys, kept, n);
    let keeps = has_exterior(ok);
    let left = polys.take(n).filter(keeps);
    if n == 0 {
        reveal(Seq::filter);
        assert(k.take(kept.len() as int) =~= kept);
    } else {
        lemma_feature(ok, polys, kept, n - 1);
        lemma_filter_step(polys, n, keeps);
        let (k0, out0, pd0, rd0) = sift_feature(ok, polys, kept, n - 1);
        let left0 = polys.take(n - 1).filter(keeps);
        let poly = polys[n - 1];
        assert(poly_survives(ok, poly) == keeps(poly));
        if keeps(poly) {
            let m = poly.len() as int;
            lemma_poly(ok, poly, k0, m);
            assert(poly.take(m) =~= poly);
            let rings = poly.filter(ok);
            assert(k == k0 + rings);
            assert(k.take(kept.len() as int) =~= k0.take(kept.len() as int));
            assert forall|q: int| 0 <= q < out.len() implies stands_for(
                k,
                #[trigger] out[q],
                left[q].filter(ok),
            ) by {
                if q < out0.len() {
                    assert(out[q] == out0[q] && left[q] == left0[q]);
                    assert(stands_for(k0, out0[q], left0[q].filter(ok)));
                } else {
                    assert(left[q] == poly);
                }
            }
        }
    }
}

/// What sifting features keeps.
proof fn lemma_features(ok: spec_fn(int) -> bool, structure: Seq<Seq<Seq<int>>>, n: int)
    requires
        0 <= n <= structure.len(),
    ensures
        ({
            let s = sift(ok, structure, n);
            &&& s.features.len() == n
            &&& forall|f: int|
                0 <= f < n ==> (#[trigger] s.features[f]).len() == structure[f].filter(
                    has_exterior(ok),
                ).len()
            &&& forall|f: int, q: int|
                0 <= f < n && 0 <= q < s.features[f].len() ==> stands_for(
                    s.kept,
                    #[trigger] s.features[f][q],
                    structure[f].filter(has_exterior(ok))[q].filter(ok),
                )
            &&& total_polys(s.features, n) + s.polys_dropped == total_polys(structure, n)
            &&& s.kept.len() + s.rings_dropped == total_rings(structure, n)
        }),
    decreases n,
{
    if n > 0 {
        lemma_features(ok, structure, n - 1);
        let s = sift(ok, structure, n);
        let prior = sift(ok, structure, n - 1);
        let polys = structure[n - 1];
        lemma_feature(ok, polys, prior.kept, polys.len() as int);
        assert(polys.take(polys.len() as int) =~= polys);
        lemma_totals_prefix(s.features, prior.features, n - 1);
        assert forall|f: int| 0 <= f < n implies (#[trigger] s.features[f]).len()
            == structure[f].filter(has_exterior(ok)).len() by {
            if f < n - 1 {
                assert(s.features[f] == prior.features[f]);
            }
        }
        assert forall|f: int, q: int| 0 <= f < n && 0 <= q < s.features[f].len() implies stands_for(
            s.kept,
            #[trigger] s.features[f][q],
            structure[f].filter(has_exterior(ok))[q].filter(ok),
        ) by {
            if f < n - 1 {
                assert(s.features[f] == prior.features[f]);
                let ids = prior.features[f][q];
                assert(stands_for(
                    prior.kept,
                    ids,
                    structure[f].filter(has_exterior(ok))[q].filter(ok),
                ));
                assert forall|i: int| 0 <= i < ids.len() implies s.kept[#[trigger] ids[i]]
                    == prior.kept[ids[i]] by {
                    assert(s.kept.take(prior.kept.len() as int)[ids[i]] == prior.kept[ids[i]]);
                }
            }
        }
    }
}

proof fn lemma_totals_prefix(a: Seq<Seq<Seq<int>>>, b: Seq<Seq<Seq<int>>>, n: int)
    requires
        0 <= n <= a.len(),
        n <= b.len(),
        forall|f: int| 0 <= f < n ==> a[f] == b[f],
    ensures
        total_polys(a, n) == total_polys(b, n),
    decreases n,
{
    if n > 0 {
        lemma_totals_prefix(a, b, n - 1);
    }
}

/// Whether a ring of a topology encloses an area.
pub open spec fn encloses(ring_refs: Seq<Seq<u32>>, arcs: Seq<Seq<Vertex>>) -> spec_fn(int) -> bool {
    |r: int| !flat(ring_of(ring_refs[r], arcs))
}

/// What a cleaned topology holds. Of each feature it has the polygons whose
/// exterior encloses an area after cleaning, in their order and none twice, and of
/// each polygon the rings that do, with the vertices they had. What is missing is
/// counted.
pub proof fn lemma_what_survives(
    t: Snapped,
    ring_refs: Seq<Seq<u32>>,
    structure: Seq<Seq<Seq<int>>>,
    arcs: Seq<Seq<Vertex>>,
    closed: Seq<bool>,
    f: int,
)
    requires
        snaps(t, ring_refs, structure, arcs, closed),
        0 <= f < structure.len(),
        countable(structure, arcs),
        forall|r: int, j: int|
            0 <= r < ring_refs.len() && 0 <= j < ring_refs[r].len() ==> (
            #[trigger] ring_refs[r][j] / 2) < arcs.len(),
        forall|f: int, p: int, i: int|
            0 <= f < structure.len() && 0 <= p < structure[f].len() && 0 <= i
                < structure[f][p].len() ==> 0 <= #[trigger] structure[f][p][i] < ring_refs.len(),
    ensures
        ({
            let cleaned_arcs = cleaned(arcs, closed);
            let ok = encloses(ring_refs, cleaned_arcs);
            let polys = structure[f].filter(has_exterior(ok));
            &&& t.structure@.len() == structure.len()
            &&& t.structure@[f]@.len() == polys.len()
            &&& forall|q: int|
                0 <= q < polys.len() ==> (#[trigger] t.structure@[f]@[q])@.len()
                    == polys[q].filter(ok).len()
            &&& forall|q: int, i: int|
                0 <= q < polys.len() && 0 <= i < polys[q].filter(ok).len() ==> {
                    let id = #[trigger] t.structure@[f]@[q]@[i];
                    &&& id < t.ring_refs@.len()
                    &&& ring_of(t.ring_refs@[id as int]@, arcs_view(t.arcs@)) == ring_of(
                        ring_refs[polys[q].filter(ok)[i]],
                        cleaned_arcs,
                    )
                }
            &&& t.clean.polys_dropped + total_polys(
                structure_view(t.structure@),
                structure.len() as int,
            ) == total_polys(structure, structure.len() as int)
            &&& t.clean.rings_dropped + t.ring_refs@.len() == total_rings(
                structure,
                structure.len() as int,
            )
            &&& t.clean.arcs_dropped + t.arcs@.len() == arcs.len()
        }),
{
    let cleaned_arcs = cleaned(arcs, closed);
    let ok = encloses(ring_refs, cleaned_arcs);
    let n = structure.len() as int;
    assert(ring_ok(ring_refs, cleaned_arcs) =~= ok) by {
        let same = ring_ok(ring_refs, cleaned_arcs);
        assert forall|r: int| #[trigger] same(r) == ok(r) by {
            lemma_searched(ring_of(ring_refs[r], cleaned_arcs));
        }
    }
    let s = sifted(ring_refs, structure, cleaned_arcs);
    lemma_features(ok, structure, n);
    lemma_drops(ok, structure, n);
    lemma_no_drops_counted(arcs, closed, arcs.len() as int);
    lemma_compacted_len(used_by(ring_refs, s.kept), cleaned_arcs, arcs.len() as int);
    assert(arcs_view(t.arcs@).len() == t.arcs@.len());
    let keeps = has_exterior(ok);
    let polys = structure[f].filter(keeps);
    let tv = structure_view(t.structure@);
    assert(tv == s.features);
    assert(tv[f].len() == t.structure@[f]@.len());
    assert(t.ring_refs@.len() == refs_view(t.ring_refs@).len());
    assert forall|q: int| 0 <= q < polys.len() implies (#[trigger] t.structure@[f]@[q])@.len()
        == polys[q].filter(ok).len() by {
        assert(tv[f][q] == s.features[f][q]);
        assert(stands_for(s.kept, s.features[f][q], polys[q].filter(ok)));
        assert(tv[f][q].len() == t.structure@[f]@[q]@.len());
    }
    assert forall|q: int, i: int|
        0 <= q < polys.len() && 0 <= i < polys[q].filter(ok).len() implies {
        let id = #[trigger] t.structure@[f]@[q]@[i];
        &&& id < t.ring_refs@.len()
        &&& ring_of(t.ring_refs@[id as int]@, arcs_view(t.arcs@)) == ring_of(
            ring_refs[polys[q].filter(ok)[i]],
            cleaned_arcs,
        )
    } by {
        let ids = s.features[f][q];
        assert(stands_for(s.kept, ids, polys[q].filter(ok)));
        let id = t.structure@[f]@[q]@[i];
        assert(tv[f][q][i] == id as int);
        assert(ids[i] == id as int);
        lemma_surviving_rings_keep_their_vertices(ring_refs, structure, cleaned_arcs, id as int);
        assert(refs_view(t.ring_refs@)[id as int] == t.ring_refs@[id as int]@);
    }
}

/// No arcs are added.
proof fn lemma_compacted_len(used: spec_fn(int) -> bool, arcs: Seq<Seq<Vertex>>, n: int)
    requires
        n >= 0,
    ensures
        compacted(used, arcs, n).len() <= n,
    decreases n,
{
    if n > 0 {
        lemma_compacted_len(used, arcs, n - 1);
    }
}

/// Cleaning arcs drops no rings, polygons or arcs.
proof fn lemma_no_drops_counted(arcs: Seq<Seq<Vertex>>, closed: Seq<bool>, n: int)
    ensures
        cleaned_stats(arcs, closed, n).polys_dropped == 0,
        cleaned_stats(arcs, closed, n).rings_dropped == 0,
        cleaned_stats(arcs, closed, n).arcs_dropped == 0,
    decreases n,
{
    if n > 0 {
        lemma_no_drops_counted(arcs, closed, n - 1);
    }
}

/// Every ring a feature adds to the list stands in one of its polygons.
proof fn lemma_feature_lists(ok: spec_fn(int) -> bool, polys: Seq<Seq<int>>, kept: Seq<int>, n: int, r: int)
    requires
        0 <= n <= polys.len(),
        kept.len() <= r < sift_feature(ok, polys, kept, n).0.len(),
    ensures
        feature_has(sift_feature(ok, polys, kept, n).1, r),
    decreases n,
{
    let (k, out, _, _) = sift_feature(ok, polys, kept, n);
    if n > 0 {
        let (k0, out0, _, _) = sift_feature(ok, polys, kept, n - 1);
        let poly = polys[n - 1];
        if poly_survives(ok, poly) {
            let m = poly.len() as int;
            lemma_poly(ok, poly, k0, m);
            if r < k0.len() {
                lemma_feature_lists(ok, polys, kept, n - 1, r);
                let (q, i) = choose|q: int, i: int|
                    0 <= q < out0.len() && 0 <= i < out0[q].len() && #[trigger] out0[q][i] == r;
                assert(out[q][i] == r);
            } else {
                let last = out.len() - 1;
                assert(out[last][r - k0.len()] == r);
            }
        } else {
            lemma_feature_lists(ok, polys, kept, n - 1, r);
        }
    }
}

/// Every ring left stands in one of the features.
proof fn lemma_features_list(ok: spec_fn(int) -> bool, structure: Seq<Seq<Seq<int>>>, n: int, r: int)
    requires
        0 <= n <= structure.len(),
        0 <= r < sift(ok, structure, n).kept.len(),
    ensures
        exists|f: int| 0 <= f < n && #[trigger] feature_has(sift(ok, structure, n).features[f], r),
    decreases n,
{
    if n > 0 {
        let s = sift(ok, structure, n);
        let prior = sift(ok, structure, n - 1);
        lemma_features(ok, structure, n - 1);
        let polys = structure[n - 1];
        if r < prior.kept.len() {
            lemma_features_list(ok, structure, n - 1, r);
            let f = choose|f: int| 0 <= f < n - 1 && #[trigger] feature_has(prior.features[f], r);
            assert(s.features[f] == prior.features[f]);
            assert(feature_has(s.features[f], r));
        } else {
            lemma_feature_lists(ok, polys, prior.kept, polys.len() as int, r);
            assert(feature_has(s.features[n - 1], r));
        }
    }
}

/// The owner has the ring, where any feature does, and none behind it has.
proof fn lemma_owner(structure: Seq<Seq<Seq<int>>>, r: int, n: int, f: int)
    requires
        0 <= f < n <= structure.len(),
        n <= usize::MAX,
        feature_has(structure[f], r),
    ensures
        f <= owner_of(structure, r, n) < n,
        feature_has(structure[owner_of(structure, r, n) as int], r),
    decreases n,
{
    if !feature_has(structure[n - 1], r) {
        lemma_owner(structure, r, n - 1, f);
    }
}

/// What a filter keeps was there and passes.
proof fn lemma_kept_by_filter<A>(s: Seq<A>, pred: spec_fn(A) -> bool, i: int)
    requires
        0 <= i < s.filter(pred).len(),
    ensures
        s.contains(s.filter(pred)[i]),
        pred(s.filter(pred)[i]),
{
    let kept = s.filter(pred);
    assert(kept.contains(kept[i]));
    s.lemma_filter_contains_rev(pred, kept[i]);
    s.lemma_filter_pred(pred, i);
    assert(pred(kept[i]));
}

/// A ring that is searched for problems encloses an area or crosses itself, and
/// the feature it is reported under lists it in a polygon whose exterior does
/// too.
pub proof fn lemma_problems_stand_under_their_feature(
    structure: Seq<Seq<Seq<int>>>,
    rings: Seq<Seq<Vertex>>,
    r: int,
)
    requires
        0 <= r < left_over(structure, rings).kept.len(),
        structure.len() <= usize::MAX,
    ensures
        ({
            let s = left_over(structure, rings);
            let f = owner_of(s.features, r, s.features.len() as int) as int;
            &&& 0 <= f < structure.len()
            &&& exists|p: int, i: int|
                0 <= p < structure[f].len() && 0 <= i < structure[f][p].len()
                    && #[trigger] structure[f][p][i] == s.kept[r] && searched(
                    rings[structure[f][p][0]],
                )
            &&& searched(rings[s.kept[r]])
        }),
{
    let ok = standing(rings);
    let n = structure.len() as int;
    let s = left_over(structure, rings);
    lemma_features(ok, structure, n);
    lemma_features_list(ok, structure, n, r);
    let g = choose|g: int| 0 <= g < n && #[trigger] feature_has(s.features[g], r);
    lemma_owner(s.features, r, n, g);
    let f = owner_of(s.features, r, n) as int;
    let (q, j) = choose|q: int, j: int|
        0 <= q < s.features[f].len() && 0 <= j < s.features[f][q].len()
            && #[trigger] s.features[f][q][j] == r;
    let keeps = has_exterior(ok);
    let polys = structure[f].filter(keeps);
    let left = polys[q].filter(ok);
    assert(stands_for(s.kept, s.features[f][q], left));
    assert(s.kept[r] == left[j]);
    lemma_kept_by_filter(structure[f], keeps, q);
    lemma_kept_by_filter(polys[q], ok, j);
    let p = choose|p: int| 0 <= p < structure[f].len() && structure[f][p] == polys[q];
    let i = choose|i: int| 0 <= i < polys[q].len() && polys[q][i] == left[j];
    assert(structure[f][p][i] == s.kept[r]);
    lemma_searched(rings[s.kept[r]]);
    lemma_searched(rings[structure[f][p][0]]);
}

/// How many vertices an arc has, the one that closes it left out.
pub open spec fn points(a: Seq<Vertex>, closed: bool) -> nat {
    if closed && a.len() > 1 && a[0] == a[a.len() - 1] {
        (a.len() - 1) as nat
    } else {
        a.len()
    }
}

/// How many vertices the first `n` arcs have, those that close one left out.
pub open spec fn all_points(arcs: Seq<Seq<Vertex>>, closed: Seq<bool>, n: int) -> nat
    decreases n,
{
    if n <= 0 {
        0
    } else {
        all_points(arcs, closed, n - 1) + points(arcs[n - 1], closed[n - 1])
    }
}

/// Every vertex that cleaning removes from an arc is counted, once.
proof fn lemma_arc_removals(a: Seq<Vertex>, closed: bool)
    requires
        a.len() > 0,
    ensures
        tally_total(clean_spec(a, closed).1) + points(clean_spec(a, closed).0, closed) == points(
            a,
            closed,
        ),
        tally_total(clean_spec(a, closed).1) <= a.len(),
{
    if closed {
        let ring = unclosed(a);
        lemma_ring_run(ring, tally_none());
        let (b, _) = ring_run(ring, tally_none());
        if b.len() > 1 {
            assert(b.push(b[0]).len() - 1 == b.len());
        }
    } else {
        lemma_open_run(a, 1, tally_none());
    }
}

/// Every vertex that is missing after cleaning is counted as a repeat, a spike or
/// a pass-through, once.
pub proof fn lemma_removals_are_counted(arcs: Seq<Seq<Vertex>>, closed: Seq<bool>, n: int)
    requires
        0 <= n <= arcs.len(),
        total_verts(arcs, arcs.len() as int) <= u32::MAX,
        forall|i: int| 0 <= i < arcs.len() ==> (#[trigger] arcs[i]).len() > 0,
    ensures
        ({
            let st = cleaned_stats(arcs, closed, n);
            st.dups + st.spikes + st.collinear + all_points(cleaned(arcs, closed), closed, n)
                == all_points(arcs, closed, n)
        }),
    decreases n,
{
    if n > 0 {
        lemma_removals_are_counted(arcs, closed, n - 1);
        lemma_arc_removals(arcs[n - 1], closed[n - 1]);
        lemma_points_bounded(arcs, closed, n);
        lemma_verts_grow(arcs, n, arcs.len() as int);
    }
}

/// There are no more points than vertices.
proof fn lemma_points_bounded(arcs: Seq<Seq<Vertex>>, closed: Seq<bool>, n: int)
    ensures
        all_points(arcs, closed, n) <= total_verts(arcs, n),
    decreases n,
{
    if n > 0 {
        lemma_points_bounded(arcs, closed, n - 1);
    }
}

} // verus!
