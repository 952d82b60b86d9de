//! Dropping the rings that quantization collapsed: a degenerate hole vanishes
//! alone, a degenerate exterior takes its holes with it, and arcs no
//! surviving ring references are removed with their ids compacted.

use vstd::prelude::*;

use crate::clean::{
    arcs_view, degenerate, refs_valid, ring_coords_q, ring_degenerate, CleanStats, Vertex,
};
use crate::stitch::{lemma_stitched_same, ring_of};

verus! {

/// A polygon's ring indices.
pub open spec fn poly_view(poly: Seq<usize>) -> Seq<int> {
    Seq::new(poly.len(), |i: int| poly[i] as int)
}

/// A feature's polygons.
pub open spec fn feature_view(polys: Seq<Vec<usize>>) -> Seq<Seq<int>> {
    Seq::new(polys.len(), |i: int| poly_view(polys[i]@))
}

/// The features' polygons: `structure[feature][poly][ring]` is a ring index.
pub open spec fn structure_view(structure: Seq<Vec<Vec<usize>>>) -> Seq<Seq<Seq<int>>> {
    Seq::new(structure.len(), |i: int| feature_view(structure[i]@))
}

/// The references of each ring.
pub open spec fn refs_view(ring_refs: Seq<Vec<u32>>) -> Seq<Seq<u32>> {
    Seq::new(ring_refs.len(), |i: int| ring_refs[i]@)
}

/// What a sift has kept so far: the old index of each surviving ring, the
/// polygons of the features, and the counts dropped.
#[verifier::ext_equal]
pub struct Sift {
    pub kept: Seq<int>,
    pub features: Seq<Seq<Seq<int>>>,
    pub polys_dropped: nat,
    pub rings_dropped: nat,
}

/// The rings of one polygon after the first `n`: the survivors so far, the
/// polygon's new ring indices, and the count dropped. The first ring is the
/// exterior and survives; a hole survives unless it collapsed.
pub open spec fn sift_poly(ok: spec_fn(int) -> bool, poly: Seq<int>, kept: Seq<int>, n: int) -> (
    Seq<int>,
    Seq<int>,
    nat,
)
    decreases n,
{
    if n <= 0 {
        (kept, Seq::empty(), 0)
    } else {
        let (k, ids, dropped) = sift_poly(ok, poly, kept, n - 1);
        if n - 1 > 0 && !ok(poly[n - 1]) {
            (k, ids, dropped + 1)
        } else {
            (k.push(poly[n - 1]), ids.push(k.len() as int), dropped)
        }
    }
}

/// Whether a polygon survives: it has an exterior, and that did not collapse.
pub open spec fn poly_survives(ok: spec_fn(int) -> bool, poly: Seq<int>) -> bool {
    poly.len() > 0 && ok(poly[0])
}

/// The polygons of one feature after the first `n`: survivors, the feature's
/// polygons, and the counts of polygons and rings dropped.
pub open spec fn sift_feature(
    ok: spec_fn(int) -> bool,
    polys: Seq<Seq<int>>,
    kept: Seq<int>,
    n: int,
) -> (Seq<int>, Seq<Seq<int>>, nat, nat)
    decreases n,
{
    if n <= 0 {
        (kept, Seq::empty(), 0, 0)
    } else {
        let (k, out, pd, rd) = sift_feature(ok, polys, kept, n - 1);
        let poly = polys[n - 1];
        if poly_survives(ok, poly) {
            let (k2, ids, dropped) = sift_poly(ok, poly, k, poly.len() as int);
            (k2, out.push(ids), pd, rd + dropped)
        } else {
            (k, out, pd + 1, rd + poly.len())
        }
    }
}

/// The features after the first `n`.
pub open spec fn sift(ok: spec_fn(int) -> bool, structure: Seq<Seq<Seq<int>>>, n: int) -> Sift
    decreases n,
{
    if n <= 0 {
        Sift { kept: Seq::empty(), features: Seq::empty(), polys_dropped: 0, rings_dropped: 0 }
    } else {
        let prior = sift(ok, structure, n - 1);
        let polys = structure[n - 1];
        let (k, out, pd, rd) = sift_feature(ok, polys, prior.kept, polys.len() as int);
        Sift {
            kept: k,
            features: prior.features.push(out),
            polys_dropped: prior.polys_dropped + pd,
            rings_dropped: prior.rings_dropped + rd,
        }
    }
}

/// Whether a ring did not collapse.
pub open spec fn ring_ok(ring_refs: Seq<Seq<u32>>, arcs: Seq<Seq<Vertex>>) -> spec_fn(int) -> bool {
    |r: int| !degenerate(ring_of(ring_refs[r], arcs))
}

/// The sift of a whole topology.
pub open spec fn sifted(
    ring_refs: Seq<Seq<u32>>,
    structure: Seq<Seq<Seq<int>>>,
    arcs: Seq<Seq<Vertex>>,
) -> Sift {
    sift(ring_ok(ring_refs, arcs), structure, structure.len() as int)
}

/// Whether some surviving ring references arc `id`.
pub open spec fn arc_used(ring_refs: Seq<Seq<u32>>, kept: Seq<int>, id: int) -> bool {
    exists|k: int, j: int|
        0 <= k < kept.len() && 0 <= j < ring_refs[kept[k]].len()
            && (#[trigger] ring_refs[kept[k]][j] / 2) as int == id
}

/// How many of the first `n` arcs are used.
pub open spec fn rank(used: spec_fn(int) -> bool, n: int) -> nat
    decreases n,
{
    if n <= 0 {
        0
    } else {
        rank(used, n - 1) + if used(n - 1) { 1nat } else { 0nat }
    }
}

/// The used ones among the first `n` arcs, in order.
pub open spec fn compacted<T>(used: spec_fn(int) -> bool, arcs: Seq<T>, n: int) -> Seq<T>
    decreases n,
{
    if n <= 0 {
        Seq::empty()
    } else if used(n - 1) {
        compacted(used, arcs, n - 1).push(arcs[n - 1])
    } else {
        compacted(used, arcs, n - 1)
    }
}

/// A reference after compaction: the arc's rank among the used ones, with the
/// same direction.
pub open spec fn remapped(used: spec_fn(int) -> bool, r: u32) -> u32 {
    (2 * rank(used, (r / 2) as int) + r % 2) as u32
}

/// The references of the surviving rings after compaction.
pub open spec fn remapped_refs(
    used: spec_fn(int) -> bool,
    ring_refs: Seq<Seq<u32>>,
    kept: Seq<int>,
) -> Seq<Seq<u32>> {
    Seq::new(
        kept.len(),
        |k: int|
            Seq::new(ring_refs[kept[k]].len(), |j: int| remapped(used, ring_refs[kept[k]][j])),
    )
}

/// The arcs the surviving rings use.
pub open spec fn used_by(ring_refs: Seq<Seq<u32>>, kept: Seq<int>) -> spec_fn(int) -> bool {
    |id: int| arc_used(ring_refs, kept, id)
}

/// The counters after a drop.
pub open spec fn drop_counted(st: CleanStats, s: Sift, arcs_dropped: int) -> CleanStats {
    CleanStats {
        polys_dropped: (st.polys_dropped + s.polys_dropped) as u32,
        rings_dropped: (st.rings_dropped + s.rings_dropped) as u32,
        arcs_dropped: (st.arcs_dropped + arcs_dropped) as u32,
        ..st
    }
}

/// Whether the structure's ring indices name rings, and every ring's
/// references name arcs.
pub open spec fn topology_valid(
    ring_refs: Seq<Vec<u32>>,
    structure: Seq<Vec<Vec<usize>>>,
    arcs: Seq<Vec<Vertex>>,
) -> bool {
    &&& forall|r: int| 0 <= r < ring_refs.len() ==> refs_valid((#[trigger] ring_refs[r])@, arcs)
    &&& forall|f: int, p: int, k: int|
        0 <= f < structure.len() && 0 <= p < structure[f]@.len() && 0 <= k
            < structure[f]@[p]@.len() ==> (#[trigger] structure[f]@[p]@[k]) < ring_refs.len()
}

proof fn lemma_sift_feature_grows(
    ok: spec_fn(int) -> bool,
    polys: Seq<Seq<int>>,
    kept: Seq<int>,
    m: int,
    n: int,
)
    requires
        m <= n,
    ensures
        sift_feature(ok, polys, kept, m).2 <= sift_feature(ok, polys, kept, n).2,
        sift_feature(ok, polys, kept, m).3 <= sift_feature(ok, polys, kept, n).3,
    decreases n - m,
{
    if m < n {
        lemma_sift_feature_grows(ok, polys, kept, m, n - 1);
    }
}

proof fn lemma_sift_grows(ok: spec_fn(int) -> bool, structure: Seq<Seq<Seq<int>>>, m: int, n: int)
    requires
        m <= n,
    ensures
        sift(ok, structure, m).polys_dropped <= sift(ok, structure, n).polys_dropped,
        sift(ok, structure, m).rings_dropped <= sift(ok, structure, n).rings_dropped,
    decreases n - m,
{
    if m < n {
        lemma_sift_grows(ok, structure, m, n - 1);
    }
}

proof fn lemma_sift_poly_dropped(ok: spec_fn(int) -> bool, poly: Seq<int>, kept: Seq<int>, n: int)
    ensures
        sift_poly(ok, poly, kept, n).2 <= if n < 0 { 0 } else { n },
    decreases n,
{
    if n > 0 {
        lemma_sift_poly_dropped(ok, poly, kept, n - 1);
    }
}

/// Which rings did not collapse.
fn rings_ok(ring_refs: &[Vec<u32>], arcs: &[Vec<Vertex>]) -> (ok: Vec<bool>)
    requires
        forall|r: int|
            0 <= r < ring_refs@.len() ==> refs_valid((#[trigger] ring_refs@[r])@, arcs@),
    ensures
        ok@.len() == ring_refs@.len(),
        forall|r: int|
            0 <= r < ok@.len() ==> #[trigger] ok@[r] == ring_ok(
                refs_view(ring_refs@),
                arcs_view(arcs@),
            )(r),
{
    let mut ok: Vec<bool> = Vec::new();
    let mut r: usize = 0;
    while r < ring_refs.len()
        invariant
            r <= ring_refs@.len(),
            ok@.len() == r,
            forall|k: int|
                0 <= k < ring_refs@.len() ==> refs_valid((#[trigger] ring_refs@[k])@, arcs@),
            forall|k: int|
                0 <= k < r ==> #[trigger] ok@[k] == ring_ok(
                    refs_view(ring_refs@),
                    arcs_view(arcs@),
                )(k),
        decreases ring_refs@.len() - r,
    {
        assert(refs_valid(ring_refs@[r as int]@, arcs@));
        let coords = ring_coords_q(ring_refs[r].as_slice(), arcs);
        let collapsed = ring_degenerate(coords.as_slice());
        assert(refs_view(ring_refs@)[r as int] == ring_refs@[r as int]@);
        ok.push(!collapsed);
        r = r + 1;
    }
    ok
}

/// The surviving rings of a surviving polygon: appends their old indices to
/// `kept` and gives their new ones, with the count dropped.
fn sift_poly_rings(
    ok: &Vec<bool>,
    poly: &Vec<usize>,
    kept: &mut Vec<usize>,
    pred: Ghost<spec_fn(int) -> bool>,
) -> (out: (Vec<usize>, usize))
    requires
        forall|k: int| 0 <= k < poly@.len() ==> (#[trigger] poly@[k]) < ok@.len(),
        forall|r: int| 0 <= r < ok@.len() ==> #[trigger] ok@[r] == pred@(r),
    ensures
        (poly_view(final(kept)@), poly_view(out.0@), out.1 as nat) == sift_poly(
            pred@,
            poly_view(poly@),
            poly_view(old(kept)@),
            poly@.len() as int,
        ),
{
    let ghost start = poly_view(kept@);
    let mut ids: Vec<usize> = Vec::new();
    let mut dropped: usize = 0;
    let mut k: usize = 0;
    assert(poly_view(ids@) =~= Seq::<int>::empty());
    while k < poly.len()
        invariant
            k <= poly@.len(),
            forall|j: int| 0 <= j < poly@.len() ==> (#[trigger] poly@[j]) < ok@.len(),
            forall|r: int| 0 <= r < ok@.len() ==> #[trigger] ok@[r] == pred@(r),
            (poly_view(kept@), poly_view(ids@), dropped as nat) == sift_poly(
                pred@,
                poly_view(poly@),
                start,
                k as int,
            ),
        decreases poly@.len() - k,
    {
        let ri = poly[k];
        assert(poly_view(poly@)[k as int] == ri as int);
        proof {
            lemma_sift_poly_dropped(pred@, poly_view(poly@), start, k as int);
        }
        let ghost kept_before = kept@;
        let ghost ids_before = ids@;
        if k > 0 && !ok[ri] {
            dropped = dropped + 1;
        } else {
            let id = kept.len();
            ids.push(id);
            kept.push(ri);
            assert(poly_view(kept@) =~= poly_view(kept_before).push(ri as int));
            assert(poly_view(ids@) =~= poly_view(ids_before).push(id as int));
        }
        k = k + 1;
    }
    (ids, dropped)
}

/// The surviving polygons of one feature.
fn sift_feature_polys(
    ok: &Vec<bool>,
    polys: &Vec<Vec<usize>>,
    kept: &mut Vec<usize>,
    st: &mut CleanStats,
    pred: Ghost<spec_fn(int) -> bool>,
) -> (out: Vec<Vec<usize>>)
    requires
        forall|p: int, k: int|
            0 <= p < polys@.len() && 0 <= k < polys@[p]@.len() ==> (#[trigger] polys@[p]@[k])
                < ok@.len(),
        forall|r: int| 0 <= r < ok@.len() ==> #[trigger] ok@[r] == pred@(r),
        ({
            let s = sift_feature(
                pred@,
                feature_view(polys@),
                poly_view(old(kept)@),
                polys@.len() as int,
            );
            &&& old(st).polys_dropped + s.2 <= u32::MAX
            &&& old(st).rings_dropped + s.3 <= u32::MAX
        }),
    ensures
        ({
            let s = sift_feature(
                pred@,
                feature_view(polys@),
                poly_view(old(kept)@),
                polys@.len() as int,
            );
            &&& poly_view(final(kept)@) == s.0
            &&& feature_view(out@) == s.1
            &&& *final(st) == (CleanStats {
                polys_dropped: (old(st).polys_dropped + s.2) as u32,
                rings_dropped: (old(st).rings_dropped + s.3) as u32,
                ..*old(st)
            })
        }),
{
    let ghost start = poly_view(kept@);
    let ghost whole = sift_feature(pred@, feature_view(polys@), start, polys@.len() as int);
    let mut out: Vec<Vec<usize>> = Vec::new();
    let mut p: usize = 0;
    assert(feature_view(out@) =~= Seq::<Seq<int>>::empty());
    while p < polys.len()
        invariant
            p <= polys@.len(),
            forall|q: int, k: int|
                0 <= q < polys@.len() && 0 <= k < polys@[q]@.len() ==> (#[trigger] polys@[q]@[k])
                    < ok@.len(),
            forall|r: int| 0 <= r < ok@.len() ==> #[trigger] ok@[r] == pred@(r),
            whole == sift_feature(pred@, feature_view(polys@), start, polys@.len() as int),
            old(st).polys_dropped + whole.2 <= u32::MAX,
            old(st).rings_dropped + whole.3 <= u32::MAX,
            ({
                let s = sift_feature(pred@, feature_view(polys@), start, p as int);
                &&& poly_view(kept@) == s.0
                &&& feature_view(out@) == s.1
                &&& *st == (CleanStats {
                    polys_dropped: (old(st).polys_dropped + s.2) as u32,
                    rings_dropped: (old(st).rings_dropped + s.3) as u32,
                    ..*old(st)
                })
            }),
        decreases polys@.len() - p,
    {
        let poly = &polys[p];
        let ghost pv = poly_view(poly@);
        assert(feature_view(polys@)[p as int] == pv);
        proof {
            lemma_sift_feature_grows(
                pred@,
                feature_view(polys@),
                start,
                p as int + 1,
                polys@.len() as int,
            );
            lemma_sift_feature_grows(pred@, feature_view(polys@), start, p as int, p as int + 1);
        }
        let survives = poly.len() > 0 && ok[poly[0]];
        assert(survives == poly_survives(pred@, pv));
        if survives {
            let ghost out_before = out@;
            let (ids, dropped) = sift_poly_rings(ok, poly, kept, pred);
            st.rings_dropped = st.rings_dropped + dropped as u32;
            out.push(ids);
            assert(feature_view(out@) =~= feature_view(out_before).push(poly_view(ids@)));
        } else {
            st.polys_dropped = st.polys_dropped + 1;
            st.rings_dropped = st.rings_dropped + poly.len() as u32;
        }
        p = p + 1;
    }
    out
}

/// Whether one of the first `m` surviving rings references arc `id`.
spec fn used_before(ring_refs: Seq<Seq<u32>>, kept: Seq<int>, m: int, id: int) -> bool {
    arc_used(ring_refs, kept.take(m), id)
}

/// Whether one of the first `n` references is to arc `id`.
spec fn refs_use(refs: Seq<u32>, n: int, id: int) -> bool {
    exists|j: int| 0 <= j < n && (#[trigger] refs[j] / 2) as int == id
}

proof fn lemma_used_step(ring_refs: Seq<Seq<u32>>, kept: Seq<int>, m: int, id: int)
    requires
        0 <= m < kept.len(),
    ensures
        used_before(ring_refs, kept, m + 1, id) == (used_before(ring_refs, kept, m, id) || refs_use(
            ring_refs[kept[m]],
            ring_refs[kept[m]].len() as int,
            id,
        )),
{
    let a = kept.take(m);
    let b = kept.take(m + 1);
    if arc_used(ring_refs, b, id) {
        let (k, j) = choose|k: int, j: int|
            0 <= k < b.len() && 0 <= j < ring_refs[b[k]].len() && (#[trigger] ring_refs[b[k]][j]
                / 2) as int == id;
        if k < m {
            assert(a[k] == b[k]);
            assert((ring_refs[a[k]][j] / 2) as int == id);
        } else {
            assert(b[k] == kept[m]);
            assert((ring_refs[kept[m]][j] / 2) as int == id);
        }
    }
    if arc_used(ring_refs, a, id) {
        let (k, j) = choose|k: int, j: int|
            0 <= k < a.len() && 0 <= j < ring_refs[a[k]].len() && (#[trigger] ring_refs[a[k]][j]
                / 2) as int == id;
        assert(a[k] == b[k]);
        assert((ring_refs[b[k]][j] / 2) as int == id);
    }
    if refs_use(ring_refs[kept[m]], ring_refs[kept[m]].len() as int, id) {
        let j = choose|j: int|
            0 <= j < ring_refs[kept[m]].len() && (#[trigger] ring_refs[kept[m]][j] / 2) as int
                == id;
        assert(b[m] == kept[m]);
        assert((ring_refs[b[m]][j] / 2) as int == id);
    }
}

/// Marks the arcs one ring references.
fn mark_refs(used: &mut Vec<bool>, refs: &Vec<u32>)
    requires
        forall|j: int| 0 <= j < refs@.len() ==> (#[trigger] refs@[j] / 2) < old(used)@.len(),
    ensures
        final(used)@.len() == old(used)@.len(),
        forall|id: int|
            0 <= id < old(used)@.len() ==> #[trigger] final(used)@[id] == (old(used)@[id]
                || refs_use(refs@, refs@.len() as int, id)),
{
    let mut j: usize = 0;
    while j < refs.len()
        invariant
            j <= refs@.len(),
            used@.len() == old(used)@.len(),
            forall|k: int| 0 <= k < refs@.len() ==> (#[trigger] refs@[k] / 2) < old(used)@.len(),
            forall|id: int|
                0 <= id < used@.len() ==> #[trigger] used@[id] == (old(used)@[id] || refs_use(
                    refs@,
                    j as int,
                    id,
                )),
        decreases refs@.len() - j,
    {
        let a = (refs[j] / 2) as usize;
        let ghost before = used@;
        used.set(a, true);
        assert forall|id: int| 0 <= id < used@.len() implies #[trigger] used@[id] == (old(used)@[id]
            || refs_use(refs@, j as int + 1, id)) by {
            assert(before[id] == (old(used)@[id] || refs_use(refs@, j as int, id)));
            if id == a as int {
                assert((refs@[j as int] / 2) as int == id);
            } else if refs_use(refs@, j as int + 1, id) {
                let k = choose|k: int| 0 <= k < j + 1 && (#[trigger] refs@[k] / 2) as int == id;
                assert(k != j);
                assert((refs@[k] / 2) as int == id);
            } else if refs_use(refs@, j as int, id) {
                let k = choose|k: int| 0 <= k < j && (#[trigger] refs@[k] / 2) as int == id;
                assert((refs@[k] / 2) as int == id);
            }
        }
        j = j + 1;
    }
}

/// Which of `n_arcs` arcs the surviving rings use.
fn used_arcs(ring_refs: &[Vec<u32>], kept: &Vec<usize>, n_arcs: usize) -> (used: Vec<bool>)
    requires
        forall|k: int| 0 <= k < kept@.len() ==> (#[trigger] kept@[k]) < ring_refs@.len(),
        forall|r: int, j: int|
            0 <= r < ring_refs@.len() && 0 <= j < ring_refs@[r]@.len() ==> (
            #[trigger] ring_refs@[r]@[j] / 2) < n_arcs,
    ensures
        used@.len() == n_arcs,
        forall|id: int|
            0 <= id < n_arcs ==> #[trigger] used@[id] == used_by(
                refs_view(ring_refs@),
                poly_view(kept@),
            )(id),
{
    let mut used: Vec<bool> = Vec::new();
    while used.len() < n_arcs
        invariant
            used@.len() <= n_arcs,
            forall|id: int| 0 <= id < used@.len() ==> !#[trigger] used@[id],
        decreases n_arcs - used@.len(),
    {
        used.push(false);
    }
    let ghost rv = refs_view(ring_refs@);
    let ghost kv = poly_view(kept@);
    let mut k: usize = 0;
    while k < kept.len()
        invariant
            k <= kept@.len(),
            rv == refs_view(ring_refs@),
            kv == poly_view(kept@),
            used@.len() == n_arcs,
            forall|i: int| 0 <= i < kept@.len() ==> (#[trigger] kept@[i]) < ring_refs@.len(),
            forall|r: int, j: int|
                0 <= r < ring_refs@.len() && 0 <= j < ring_refs@[r]@.len() ==> (
                #[trigger] ring_refs@[r]@[j] / 2) < n_arcs,
            forall|id: int|
                0 <= id < n_arcs ==> #[trigger] used@[id] == used_before(rv, kv, k as int, id),
        decreases kept@.len() - k,
    {
        let ghost before = used@;
        mark_refs(&mut used, &ring_refs[kept[k]]);
        assert(rv[kv[k as int]] == ring_refs@[kept@[k as int] as int]@);
        assert forall|id: int| 0 <= id < n_arcs implies #[trigger] used@[id] == used_before(
            rv,
            kv,
            k as int + 1,
            id,
        ) by {
            lemma_used_step(rv, kv, k as int, id);
            assert(before[id] == used_before(rv, kv, k as int, id));
        }
        k = k + 1;
    }
    assert(kv.take(kv.len() as int) =~= kv);
    used
}

proof fn lemma_rank_bound(used: spec_fn(int) -> bool, n: int)
    requires
        n >= 0,
    ensures
        rank(used, n) <= n,
    decreases n,
{
    if n > 0 {
        lemma_rank_bound(used, n - 1);
    }
}

proof fn lemma_unused_grows(used: spec_fn(int) -> bool, m: int, n: int)
    requires
        0 <= m <= n,
    ensures
        m - rank(used, m) <= n - rank(used, n),
    decreases n - m,
{
    if m < n {
        lemma_unused_grows(used, m, n - 1);
    }
}

proof fn lemma_compacted<T>(used: spec_fn(int) -> bool, arcs: Seq<T>, n: int, i: int)
    requires
        0 <= i < n <= arcs.len(),
        used(i),
    ensures
        rank(used, i) < compacted(used, arcs, n).len(),
        compacted(used, arcs, n)[rank(used, i) as int] == arcs[i],
    decreases n,
{
    lemma_compacted_len(used, arcs, n - 1);
    if i < n - 1 {
        lemma_compacted(used, arcs, n - 1, i);
    }
}

proof fn lemma_compacted_len<T>(used: spec_fn(int) -> bool, arcs: Seq<T>, n: int)
    ensures
        compacted(used, arcs, n).len() == rank(used, n),
    decreases n,
{
    if n > 0 {
        lemma_compacted_len(used, arcs, n - 1);
    }
}

/// A ring's references after compaction.
fn remap_refs(
    remap: &Vec<u32>,
    refs: &Vec<u32>,
    used: Ghost<spec_fn(int) -> bool>,
) -> (out: Vec<u32>)
    requires
        forall|j: int|
            0 <= j < refs@.len() ==> {
                &&& (#[trigger] refs@[j] / 2) < remap@.len()
                &&& used@((refs@[j] / 2) as int)
            },
        forall|id: int|
            0 <= id < remap@.len() && used@(id) ==> #[trigger] remap@[id] == rank(used@, id),
    ensures
        out@ == Seq::new(refs@.len(), |j: int| remapped(used@, refs@[j])),
{
    let mut out: Vec<u32> = Vec::new();
    let mut j: usize = 0;
    while j < refs.len()
        invariant
            j <= refs@.len(),
            out@.len() == j,
            forall|k: int|
                0 <= k < refs@.len() ==> {
                    &&& (#[trigger] refs@[k] / 2) < remap@.len()
                    &&& used@((refs@[k] / 2) as int)
                },
            forall|id: int|
                0 <= id < remap@.len() && used@(id) ==> #[trigger] remap@[id] == rank(used@, id),
            forall|k: int| 0 <= k < j ==> #[trigger] out@[k] == remapped(used@, refs@[k]),
        decreases refs@.len() - j,
    {
        let r = refs[j];
        assert((refs@[j as int] / 2) < remap@.len());
        let id = remap[(r / 2) as usize];
        proof {
            lemma_rank_bound(used@, (r / 2) as int);
        }
        out.push(2 * id + r % 2);
        j = j + 1;
    }
    out
}

/// Whether every ring index of a polygon's, a feature's or all features' new
/// numbering is below `bound`.
spec fn feature_below(polys: Seq<Seq<int>>, bound: int) -> bool {
    forall|p: int| 0 <= p < polys.len() ==> ids_below(#[trigger] polys[p], bound)
}

proof fn lemma_sift_poly_ids(ok: spec_fn(int) -> bool, poly: Seq<int>, kept: Seq<int>, n: int)
    ensures
        kept.len() <= sift_poly(ok, poly, kept, n).0.len(),
        ids_below(
            sift_poly(ok, poly, kept, n).1,
            sift_poly(ok, poly, kept, n).0.len() as int,
        ),
    decreases n,
{
    if n > 0 {
        lemma_sift_poly_ids(ok, poly, kept, n - 1);
    }
}

proof fn lemma_sift_feature_ids(
    ok: spec_fn(int) -> bool,
    polys: Seq<Seq<int>>,
    kept: Seq<int>,
    n: int,
)
    ensures
        kept.len() <= sift_feature(ok, polys, kept, n).0.len(),
        feature_below(
            sift_feature(ok, polys, kept, n).1,
            sift_feature(ok, polys, kept, n).0.len() as int,
        ),
    decreases n,
{
    if n > 0 {
        lemma_sift_feature_ids(ok, polys, kept, n - 1);
        let k = sift_feature(ok, polys, kept, n - 1).0;
        lemma_sift_poly_ids(ok, polys[n - 1], k, polys[n - 1].len() as int);
        let before = sift_feature(ok, polys, kept, n - 1).1;
        let after = sift_feature(ok, polys, kept, n).1;
        let bound = sift_feature(ok, polys, kept, n).0.len() as int;
        assert forall|p: int| 0 <= p < after.len() implies ids_below(#[trigger] after[p], bound) by {
            if p < before.len() {
                assert(ids_below(before[p], k.len() as int));
                assert(after[p] == before[p]);
            }
        }
    }
}

proof fn lemma_sift_ids(ok: spec_fn(int) -> bool, structure: Seq<Seq<Seq<int>>>, n: int)
    requires
        n >= 0,
    ensures
        sift(ok, structure, n).features.len() == n,
        forall|f: int|
            0 <= f < n ==> feature_below(
                #[trigger] sift(ok, structure, n).features[f],
                sift(ok, structure, n).kept.len() as int,
            ),
    decreases n,
{
    if n > 0 {
        lemma_sift_ids(ok, structure, n - 1);
        let prior = sift(ok, structure, n - 1);
        let now = sift(ok, structure, n);
        lemma_sift_feature_ids(
            ok,
            structure[n - 1],
            prior.kept,
            structure[n - 1].len() as int,
        );
        assert forall|f: int| 0 <= f < n implies feature_below(
            #[trigger] now.features[f],
            now.kept.len() as int,
        ) by {
            if f < n - 1 {
                assert(now.features[f] == prior.features[f]);
                assert(feature_below(prior.features[f], prior.kept.len() as int));
                assert forall|p: int| 0 <= p < now.features[f].len() implies ids_below(
                    #[trigger] now.features[f][p],
                    now.kept.len() as int,
                ) by {
                    assert(ids_below(prior.features[f][p], prior.kept.len() as int));
                }
            }
        }
    }
}

proof fn lemma_dropped_valid(
    ring_refs: Seq<Vec<u32>>,
    structure: Seq<Vec<Vec<usize>>>,
    kept: Seq<int>,
    arcs: Seq<Seq<Vertex>>,
    new_refs: Seq<Vec<u32>>,
    new_structure: Seq<Vec<Vec<usize>>>,
    new_arcs: Seq<Vec<Vertex>>,
)
    requires
        forall|r: int, j: int|
            0 <= r < ring_refs.len() && 0 <= j < ring_refs[r]@.len() ==> (
            #[trigger] ring_refs[r]@[j] / 2) < arcs.len(),
        forall|r: int|
            0 <= r < ring_refs.len() && (#[trigger] ring_refs[r])@.len() > 0 ==> arcs[(
            ring_refs[r]@[0] / 2) as int].len() > 0,
        ids_below(kept, ring_refs.len() as int),
        kept == sifted(refs_view(ring_refs), structure_view(structure), arcs).kept,
        refs_view(new_refs) == remapped_refs(
            used_by(refs_view(ring_refs), kept),
            refs_view(ring_refs),
            kept,
        ),
        structure_view(new_structure) == sifted(
            refs_view(ring_refs),
            structure_view(structure),
            arcs,
        ).features,
        arcs_view(new_arcs) == compacted(
            used_by(refs_view(ring_refs), kept),
            arcs,
            arcs.len() as int,
        ),
    ensures
        topology_valid(new_refs, new_structure, new_arcs),
{
    let rv = refs_view(ring_refs);
    let used = used_by(rv, kept);
    assert forall|r: int| 0 <= r < new_refs.len() implies refs_valid(
        (#[trigger] new_refs[r])@,
        new_arcs,
    ) by {
        assert(refs_view(new_refs)[r] == new_refs[r]@);
        assert(refs_view(new_refs).len() == kept.len());
        assert(0 <= kept[r] < ring_refs.len());
        let old_refs = rv[kept[r]];
        assert(old_refs == ring_refs[kept[r]]@);
        assert forall|j: int| 0 <= j < new_refs[r]@.len() implies (#[trigger] new_refs[r]@[j] / 2)
            < new_arcs.len() by {
            assert(new_refs[r]@[j] == remapped(used, old_refs[j]));
            let id = (old_refs[j] / 2) as int;
            assert((ring_refs[kept[r]]@[j] / 2) < arcs.len());
            assert((rv[kept[r]][j] / 2) as int == id);
            assert(used(id));
            lemma_rank_bound(used, id);
            lemma_compacted(used, arcs, arcs.len() as int, id);
            assert(arcs_view(new_arcs).len() == new_arcs.len());
        }
        if new_refs[r]@.len() > 0 {
            let id = (old_refs[0] / 2) as int;
            assert((ring_refs[kept[r]]@[0] / 2) < arcs.len());
            assert((rv[kept[r]][0] / 2) as int == id);
            assert(used(id));
            lemma_rank_bound(used, id);
            lemma_compacted(used, arcs, arcs.len() as int, id);
            assert(new_refs[r]@[0] == remapped(used, old_refs[0]));
            assert(arcs_view(new_arcs)[rank(used, id) as int] == new_arcs[rank(used, id) as int]@);
        }
    }
    let sv = structure_view(structure);
    let ok = ring_ok(rv, arcs);
    lemma_sift_ids(ok, sv, sv.len() as int);
    let nv = structure_view(new_structure);
    assert forall|f: int, p: int, k: int|
        0 <= f < new_structure.len() && 0 <= p < new_structure[f]@.len() && 0 <= k
            < new_structure[f]@[p]@.len() implies (#[trigger] new_structure[f]@[p]@[k])
        < new_refs.len() by {
        assert(nv[f] == feature_view(new_structure[f]@));
        assert(nv[f][p] == poly_view(new_structure[f]@[p]@));
        assert(feature_below(nv[f], kept.len() as int));
        assert(ids_below(nv[f][p], kept.len() as int));
        assert(nv[f][p][k] == new_structure[f]@[p]@[k] as int);
        assert(refs_view(new_refs).len() == kept.len());
    }
}

/// Lists the surviving rings anew, in structure order: their old indices, and
/// the structure over the new ones.
pub(crate) fn sift_rings(
    structure: &[Vec<Vec<usize>>],
    ok: &Vec<bool>,
    st: &mut CleanStats,
    pred: Ghost<spec_fn(int) -> bool>,
) -> (out: (Vec<usize>, Vec<Vec<Vec<usize>>>))
    requires
        forall|f: int, p: int, k: int|
            0 <= f < structure@.len() && 0 <= p < structure@[f]@.len() && 0 <= k
                < structure@[f]@[p]@.len() ==> (#[trigger] structure@[f]@[p]@[k]) < ok@.len(),
        forall|r: int| 0 <= r < ok@.len() ==> #[trigger] ok@[r] == pred@(r),
        ({
            let s = sift(pred@, structure_view(structure@), structure@.len() as int);
            &&& old(st).polys_dropped + s.polys_dropped <= u32::MAX
            &&& old(st).rings_dropped + s.rings_dropped <= u32::MAX
        }),
    ensures
        ({
            let s = sift(pred@, structure_view(structure@), structure@.len() as int);
            &&& poly_view(out.0@) == s.kept
            &&& structure_view(out.1@) == s.features
            &&& *final(st) == drop_counted(*old(st), s, 0)
        }),
        forall|k: int| 0 <= k < out.0@.len() ==> (#[trigger] out.0@[k]) < ok@.len(),
        forall|f: int, p: int, k: int|
            0 <= f < out.1@.len() && 0 <= p < out.1@[f]@.len() && 0 <= k < out.1@[f]@[p]@.len()
                ==> (#[trigger] out.1@[f]@[p]@[k]) < out.0@.len(),
{
    let ghost sv = structure_view(structure@);
    let ghost whole = sift(pred@, sv, sv.len() as int);
    let ghost st0 = *st;
    let mut kept: Vec<usize> = Vec::new();
    let mut new_structure: Vec<Vec<Vec<usize>>> = Vec::new();
    let mut f: usize = 0;
    assert(poly_view(kept@) =~= Seq::<int>::empty());
    assert(structure_view(new_structure@) =~= Seq::<Seq<Seq<int>>>::empty());
    while f < structure.len()
        invariant
            f <= structure@.len(),
            forall|f: int, p: int, k: int|
                0 <= f < structure@.len() && 0 <= p < structure@[f]@.len() && 0 <= k
                    < structure@[f]@[p]@.len() ==> (#[trigger] structure@[f]@[p]@[k]) < ok@.len(),
            forall|r: int| 0 <= r < ok@.len() ==> #[trigger] ok@[r] == pred@(r),
            sv == structure_view(structure@),
            whole == sift(pred@, sv, sv.len() as int),
            st0.polys_dropped + whole.polys_dropped <= u32::MAX,
            st0.rings_dropped + whole.rings_dropped <= u32::MAX,
            ({
                let s = sift(pred@, sv, f as int);
                &&& poly_view(kept@) == s.kept
                &&& structure_view(new_structure@) == s.features
                &&& *st == drop_counted(st0, s, 0)
            }),
            forall|k: int| 0 <= k < kept@.len() ==> (#[trigger] kept@[k]) < ok@.len(),
        decreases structure@.len() - f,
    {
        assert(sv[f as int] == feature_view(structure@[f as int]@));
        proof {
            lemma_sift_grows(pred@, sv, f as int + 1, sv.len() as int);
            lemma_sift_grows(pred@, sv, f as int, f as int + 1);
        }
        let ghost before = new_structure@;
        let ghost kept_before = kept@;
        let out = sift_feature_polys(ok, &structure[f], &mut kept, st, pred);
        proof {
            assert(ids_below(poly_view(kept_before), ok@.len() as int));
            lemma_feature_keeps(
                pred@,
                sv[f as int],
                poly_view(kept_before),
                sv[f as int].len() as int,
                ok@.len() as int,
            );
            assert forall|k: int| 0 <= k < kept@.len() implies (#[trigger] kept@[k])
                < ok@.len() by {
                assert(poly_view(kept@)[k] == kept@[k] as int);
            }
        }
        new_structure.push(out);
        assert(structure_view(new_structure@) =~= structure_view(before).push(
            feature_view(out@),
        ));
        f = f + 1;
    }
    proof {
        lemma_sift_ids(pred@, sv, sv.len() as int);
        let nv = structure_view(new_structure@);
        assert forall|f: int, p: int, k: int|
            0 <= f < new_structure@.len() && 0 <= p < new_structure@[f]@.len() && 0 <= k
                < new_structure@[f]@[p]@.len() implies (#[trigger] new_structure@[f]@[p]@[k])
            < kept@.len() by {
            assert(nv[f] == feature_view(new_structure@[f]@));
            assert(nv[f][p] == poly_view(new_structure@[f]@[p]@));
            assert(feature_below(nv[f], kept@.len() as int));
            assert(ids_below(nv[f][p], kept@.len() as int));
            assert(nv[f][p][k] == new_structure@[f]@[p]@[k] as int);
        }
    }
    (kept, new_structure)
}

/// Drops the rings that collapsed to zero area. A hole goes alone; an
/// exterior takes its holes with it. Rings are renumbered in structure order,
/// and arcs no surviving ring references are removed with their ids
/// compacted.
pub fn drop_degenerate_rings(
    ring_refs: &[Vec<u32>],
    structure: &[Vec<Vec<usize>>],
    arcs: Vec<Vec<Vertex>>,
    st: &mut CleanStats,
) -> (out: (Vec<Vec<u32>>, Vec<Vec<Vec<usize>>>, Vec<Vec<Vertex>>))
    requires
        topology_valid(ring_refs@, structure@, arcs@),
        ({
            let s = sifted(refs_view(ring_refs@), structure_view(structure@), arcs_view(arcs@));
            let used = used_by(refs_view(ring_refs@), s.kept);
            &&& old(st).polys_dropped + s.polys_dropped <= u32::MAX
            &&& old(st).rings_dropped + s.rings_dropped <= u32::MAX
            &&& old(st).arcs_dropped + arcs@.len() - rank(used, arcs@.len() as int) <= u32::MAX
        }),
    ensures
        topology_valid(out.0@, out.1@, out.2@),
        ({
            let s = sifted(refs_view(ring_refs@), structure_view(structure@), arcs_view(arcs@));
            let used = used_by(refs_view(ring_refs@), s.kept);
            &&& refs_view(out.0@) == remapped_refs(used, refs_view(ring_refs@), s.kept)
            &&& structure_view(out.1@) == s.features
            &&& arcs_view(out.2@) == compacted(used, arcs_view(arcs@), arcs@.len() as int)
            &&& *final(st) == drop_counted(*old(st), s, arcs@.len() - out.2@.len())
        }),
{
    let ghost rv = refs_view(ring_refs@);
    let ghost sv = structure_view(structure@);
    let ghost av = arcs_view(arcs@);
    let ghost pred = ring_ok(rv, av);
    let ghost whole = sifted(rv, sv, av);
    let ok = rings_ok(ring_refs, arcs.as_slice());
    let (kept, new_structure) = sift_rings(structure, &ok, st, Ghost(pred));
    let ghost kv = poly_view(kept@);
    let ghost used_pred = used_by(rv, kv);
    let n_arcs = arcs.len();
    let ghost arcs0 = arcs@;
    assert forall|r: int, j: int|
        0 <= r < ring_refs@.len() && 0 <= j < ring_refs@[r]@.len() implies (
    #[trigger] ring_refs@[r]@[j] / 2) < n_arcs by {
        assert(refs_valid(ring_refs@[r]@, arcs@));
    }
    let used = used_arcs(ring_refs, &kept, n_arcs);
    let mut remap: Vec<u32> = Vec::new();
    let mut new_arcs: Vec<Vec<Vertex>> = Vec::new();
    let mut arcs = arcs;
    let ghost st1 = *st;
    let mut i: usize = 0;
    assert(arcs_view(new_arcs@) =~= Seq::<Seq<Vertex>>::empty());
    while i < n_arcs
        invariant
            i <= n_arcs,
            n_arcs == used@.len(),
            arcs@.len() == n_arcs,
            av.len() == n_arcs,
            forall|id: int| i <= id < n_arcs ==> (#[trigger] arcs@[id])@ == av[id],
            forall|id: int| 0 <= id < n_arcs ==> #[trigger] used@[id] == used_pred(id),
            remap@.len() == i,
            forall|id: int|
                0 <= id < i && used_pred(id) && rank(used_pred, id) <= u32::MAX
                    ==> #[trigger] remap@[id] == rank(used_pred, id),
            arcs_view(new_arcs@) == compacted(used_pred, av, i as int),
            new_arcs@.len() == rank(used_pred, i as int) <= i,
            st1.arcs_dropped + n_arcs - rank(used_pred, n_arcs as int) <= u32::MAX,
            *st == (CleanStats {
                arcs_dropped: (st1.arcs_dropped + (i - new_arcs@.len())) as u32,
                ..st1
            }),
        decreases n_arcs - i,
    {
        assert(used@[i as int] == used_pred(i as int));
        proof {
            lemma_unused_grows(used_pred, i as int + 1, n_arcs as int);
        }
        if used[i] {
            remap.push(new_arcs.len() as u32);
            let mut arc: Vec<Vertex> = Vec::new();
            std::mem::swap(&mut arc, &mut arcs[i]);
            let ghost before = new_arcs@;
            new_arcs.push(arc);
            assert(arcs_view(new_arcs@) =~= arcs_view(before).push(av[i as int]));
        } else {
            remap.push(u32::MAX);
            st.arcs_dropped = st.arcs_dropped + 1;
        }
        i = i + 1;
    }
    let mut new_refs: Vec<Vec<u32>> = Vec::new();
    let mut k: usize = 0;
    while k < kept.len()
        invariant
            k <= kept@.len(),
            kv == poly_view(kept@),
            rv == refs_view(ring_refs@),
            used_pred == used_by(rv, kv),
            remap@.len() == n_arcs,
            new_refs@.len() == k,
            forall|j: int| 0 <= j < kept@.len() ==> (#[trigger] kept@[j]) < ring_refs@.len(),
            forall|r: int, j: int|
                0 <= r < ring_refs@.len() && 0 <= j < ring_refs@[r]@.len() ==> (
                #[trigger] ring_refs@[r]@[j] / 2) < n_arcs,
            forall|id: int|
                0 <= id < n_arcs && used_pred(id) && rank(used_pred, id) <= u32::MAX
                    ==> #[trigger] remap@[id] == rank(used_pred, id),
            forall|j: int|
                0 <= j < k ==> (#[trigger] new_refs@[j])@ == remapped_refs(used_pred, rv, kv)[j],
        decreases kept@.len() - k,
    {
        let refs = &ring_refs[kept[k]];
        assert(rv[kv[k as int]] == refs@);
        assert forall|j: int| 0 <= j < refs@.len() implies {
            &&& (#[trigger] refs@[j] / 2) < remap@.len()
            &&& used_pred((refs@[j] / 2) as int)
        } by {
            assert((ring_refs@[kept@[k as int] as int]@[j] / 2) < n_arcs);
            assert((rv[kv[k as int]][j] / 2) as int == (refs@[j] / 2) as int);
        }
        assert forall|id: int| 0 <= id < remap@.len() && used_pred(id) implies #[trigger] remap@[id]
            == rank(used_pred, id) by {
            lemma_rank_bound(used_pred, id);
            let (m, j) = choose|m: int, j: int|
                0 <= m < kv.len() && 0 <= j < rv[kv[m]].len() && (#[trigger] rv[kv[m]][j] / 2)
                    as int == id;
            assert((rv[kv[m]][j] / 2) as int == id);
        }
        new_refs.push(remap_refs(&remap, refs, Ghost(used_pred)));
        k = k + 1;
    }
    proof {
        lemma_compacted_len(used_pred, av, n_arcs as int);
        assert(refs_view(new_refs@) =~= remapped_refs(used_pred, rv, kv));
        assert forall|r: int|
            0 <= r < ring_refs@.len() && (#[trigger] ring_refs@[r])@.len() > 0 implies av[(
        ring_refs@[r]@[0] / 2) as int].len() > 0 by {
            assert((ring_refs@[r]@[0] / 2) < n_arcs);
            assert(refs_valid(ring_refs@[r]@, arcs0));
        }
        lemma_dropped_valid(
            ring_refs@,
            structure@,
            whole.kept,
            av,
            new_refs@,
            new_structure@,
            new_arcs@,
        );
    }
    (new_refs, new_structure, new_arcs)
}

/// Whether every index names one of `bound` rings.
spec fn ids_below(ids: Seq<int>, bound: int) -> bool {
    forall|k: int| 0 <= k < ids.len() ==> 0 <= #[trigger] ids[k] < bound
}

proof fn lemma_poly_keeps(
    ok: spec_fn(int) -> bool,
    poly: Seq<int>,
    kept: Seq<int>,
    n: int,
    bound: int,
)
    requires
        n <= poly.len(),
        ids_below(poly, bound),
        ids_below(kept, bound),
    ensures
        ids_below(sift_poly(ok, poly, kept, n).0, bound),
    decreases n,
{
    if n > 0 {
        lemma_poly_keeps(ok, poly, kept, n - 1, bound);
        assert(0 <= poly[n - 1] < bound);
    }
}

proof fn lemma_feature_keeps(
    ok: spec_fn(int) -> bool,
    polys: Seq<Seq<int>>,
    kept: Seq<int>,
    n: int,
    bound: int,
)
    requires
        n <= polys.len(),
        forall|p: int, k: int|
            0 <= p < polys.len() && 0 <= k < polys[p].len() ==> 0 <= #[trigger] polys[p][k] < bound,
        ids_below(kept, bound),
    ensures
        ids_below(sift_feature(ok, polys, kept, n).0, bound),
    decreases n,
{
    if n > 0 {
        lemma_feature_keeps(ok, polys, kept, n - 1, bound);
        let poly = polys[n - 1];
        assert(ids_below(poly, bound)) by {
            assert forall|k: int| 0 <= k < poly.len() implies 0 <= #[trigger] poly[k] < bound by {
                assert(polys[n - 1][k] == poly[k]);
            }
        }
        if poly_survives(ok, poly) {
            let k = sift_feature(ok, polys, kept, n - 1).0;
            lemma_poly_keeps(ok, poly, k, poly.len() as int, bound);
        }
    }
}

spec fn all_ok(ok: spec_fn(int) -> bool, ids: Seq<int>) -> bool {
    forall|k: int| 0 <= k < ids.len() ==> ok(#[trigger] ids[k])
}

proof fn lemma_kept_ok(ok: spec_fn(int) -> bool, structure: Seq<Seq<Seq<int>>>, n: int)
    requires
        n <= structure.len(),
    ensures
        all_ok(ok, sift(ok, structure, n).kept),
    decreases n,
{
    if n > 0 {
        lemma_kept_ok(ok, structure, n - 1);
        lemma_feature_ok(
            ok,
            structure[n - 1],
            sift(ok, structure, n - 1).kept,
            structure[n - 1].len() as int,
        );
    }
}

proof fn lemma_feature_ok(
    ok: spec_fn(int) -> bool,
    polys: Seq<Seq<int>>,
    kept: Seq<int>,
    n: int,
)
    requires
        all_ok(ok, kept),
    ensures
        all_ok(ok, sift_feature(ok, polys, kept, n).0),
    decreases n,
{
    if n > 0 {
        lemma_feature_ok(ok, polys, kept, n - 1);
        let poly = polys[n - 1];
        if poly_survives(ok, poly) {
            lemma_poly_ok(ok, poly, sift_feature(ok, polys, kept, n - 1).0, poly.len() as int);
        }
    }
}

proof fn lemma_poly_ok(ok: spec_fn(int) -> bool, poly: Seq<int>, kept: Seq<int>, n: int)
    requires
        all_ok(ok, kept),
        poly_survives(ok, poly),
    ensures
        all_ok(ok, sift_poly(ok, poly, kept, n).0),
    decreases n,
{
    if n > 0 {
        lemma_poly_ok(ok, poly, kept, n - 1);
    }
}

proof fn lemma_kept_below(ok: spec_fn(int) -> bool, structure: Seq<Seq<Seq<int>>>, n: int, bound: int)
    requires
        n <= structure.len(),
        forall|f: int, p: int, k: int|
            0 <= f < structure.len() && 0 <= p < structure[f].len() && 0 <= k
                < structure[f][p].len() ==> 0 <= #[trigger] structure[f][p][k] < bound,
    ensures
        ids_below(sift(ok, structure, n).kept, bound),
    decreases n,
{
    if n > 0 {
        lemma_kept_below(ok, structure, n - 1, bound);
        lemma_feature_keeps(
            ok,
            structure[n - 1],
            sift(ok, structure, n - 1).kept,
            structure[n - 1].len() as int,
            bound,
        );
    }
}

/// Dropping collapsed rings leaves every feature in place, and a surviving
/// ring keeps the exact vertices it had and encloses an area: the compacted
/// arcs and the renumbered references stitch to the same ring.
pub proof fn lemma_surviving_rings_keep_their_vertices(
    ring_refs: Seq<Seq<u32>>,
    structure: Seq<Seq<Seq<int>>>,
    arcs: Seq<Seq<Vertex>>,
    k: int,
)
    requires
        forall|r: int, j: int|
            0 <= r < ring_refs.len() && 0 <= j < ring_refs[r].len() ==> (
            #[trigger] ring_refs[r][j] / 2) < arcs.len(),
        forall|f: int, p: int, i: int|
            0 <= f < structure.len() && 0 <= p < structure[f].len() && 0 <= i
                < structure[f][p].len() ==> 0 <= #[trigger] structure[f][p][i] < ring_refs.len(),
        0 <= k < sifted(ring_refs, structure, arcs).kept.len(),
    ensures
        sifted(ring_refs, structure, arcs).features.len() == structure.len(),
        ({
            let kept = sifted(ring_refs, structure, arcs).kept;
            let used = used_by(ring_refs, kept);
            let new_refs = remapped_refs(used, ring_refs, kept);
            let new_arcs = compacted(used, arcs, arcs.len() as int);
            &&& 0 <= kept[k] < ring_refs.len()
            &&& ring_of(new_refs[k], new_arcs) == ring_of(ring_refs[kept[k]], arcs)
            &&& !degenerate(ring_of(new_refs[k], new_arcs))
        }),
{
    let ok = ring_ok(ring_refs, arcs);
    let kept = sifted(ring_refs, structure, arcs).kept;
    let used = used_by(ring_refs, kept);
    let new_refs = remapped_refs(used, ring_refs, kept);
    let new_arcs = compacted(used, arcs, arcs.len() as int);
    lemma_sift_ids(ok, structure, structure.len() as int);
    lemma_kept_ok(ok, structure, structure.len() as int);
    lemma_kept_below(ok, structure, structure.len() as int, ring_refs.len() as int);
    let a = ring_refs[kept[k]];
    let b = new_refs[k];
    assert forall|j: int| 0 <= j < a.len() implies arcs[(#[trigger] a[j] / 2) as int]
        == new_arcs[(b[j] / 2) as int] && a[j] % 2 == b[j] % 2 by {
        let id = (a[j] / 2) as int;
        assert((ring_refs[kept[k]][j] / 2) as int == id);
        assert(used(id));
        lemma_rank_bound(used, id);
        lemma_compacted(used, arcs, arcs.len() as int, id);
        assert(b[j] == remapped(used, a[j]));
    }
    lemma_stitched_same(a, arcs, b, new_arcs, a.len() as int);
    assert(ok(kept[k]));
}

proof fn lemma_compacted_source<T>(used: spec_fn(int) -> bool, arcs: Seq<T>, n: int, a: int) -> (i:
    int)
    requires
        0 <= a < compacted(used, arcs, n).len(),
    ensures
        0 <= i < n,
        used(i),
        rank(used, i) == a,
    decreases n,
{
    lemma_compacted_len(used, arcs, n);
    lemma_compacted_len(used, arcs, n - 1);
    if n <= 0 {
        0
    } else if used(n - 1) && a == rank(used, n - 1) {
        n - 1
    } else {
        lemma_compacted_source(used, arcs, n - 1, a)
    }
}

/// No arc is kept for nothing: a surviving ring references every arc left.
pub proof fn lemma_kept_arcs_are_used(
    ring_refs: Seq<Seq<u32>>,
    structure: Seq<Seq<Seq<int>>>,
    arcs: Seq<Seq<Vertex>>,
    a: int,
)
    requires
        0 <= a < compacted(
            used_by(ring_refs, sifted(ring_refs, structure, arcs).kept),
            arcs,
            arcs.len() as int,
        ).len(),
    ensures
        ({
            let kept = sifted(ring_refs, structure, arcs).kept;
            let new_refs = remapped_refs(used_by(ring_refs, kept), ring_refs, kept);
            exists|k: int, j: int|
                0 <= k < new_refs.len() && 0 <= j < new_refs[k].len() && (
                #[trigger] new_refs[k][j] / 2) as int == a
        }),
{
    let kept = sifted(ring_refs, structure, arcs).kept;
    let used = used_by(ring_refs, kept);
    let new_refs = remapped_refs(used, ring_refs, kept);
    let id = lemma_compacted_source(used, arcs, arcs.len() as int, a);
    let (k, j) = choose|k: int, j: int|
        0 <= k < kept.len() && 0 <= j < ring_refs[kept[k]].len() && (
        #[trigger] ring_refs[kept[k]][j] / 2) as int == id;
    lemma_rank_bound(used, id);
    let r = ring_refs[kept[k]][j];
    assert(new_refs[k][j] == remapped(used, r));
    assert((new_refs[k][j] / 2) as int == a);
}

} // verus!
