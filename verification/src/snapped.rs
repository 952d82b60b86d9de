//! A topology on the quantization grid: snapped arcs cleaned, collapsed rings
//! dropped.

use vstd::prelude::*;

use crate::clean::{
    arcs_view, clean_arc, clean_spec, counted, no_stats, refs_valid, tally_none, tally_total,
    CleanStats, Vertex,
};
use crate::sift::{
    compacted, drop_counted, drop_degenerate_rings, feature_view, poly_survives, poly_view,
    refs_view, remapped_refs, sift, sift_feature, sift_poly, sifted, structure_view, topology_valid,
    used_by,
};

verus! {

/// A cleaned topology on the quantization grid.
pub struct Snapped {
    pub arcs: Vec<Vec<Vertex>>,
    /// per ring: arc references (`id << 1 | reversed`)
    pub ring_refs: Vec<Vec<u32>>,
    /// feature → polygon → ring indices into `ring_refs`
    pub structure: Vec<Vec<Vec<usize>>>,
    /// what the cleanup removed
    pub clean: CleanStats,
}

impl Snapped {
    /// Whether references name arcs and the structure names rings.
    pub open spec fn wf(self) -> bool {
        topology_valid(self.ring_refs@, self.structure@, self.arcs@)
    }
}

/// The vertices of the first `n` arcs, counted.
pub open spec fn total_verts(arcs: Seq<Seq<Vertex>>, n: int) -> nat
    decreases n,
{
    if n <= 0 {
        0
    } else {
        total_verts(arcs, n - 1) + arcs[n - 1].len()
    }
}

/// The ring indices of the first `n` polygons, counted.
pub open spec fn feature_rings(polys: Seq<Seq<int>>, n: int) -> nat
    decreases n,
{
    if n <= 0 {
        0
    } else {
        feature_rings(polys, n - 1) + polys[n - 1].len()
    }
}

/// The polygons of the first `n` features, counted.
pub open spec fn total_polys(structure: Seq<Seq<Seq<int>>>, n: int) -> nat
    decreases n,
{
    if n <= 0 {
        0
    } else {
        total_polys(structure, n - 1) + structure[n - 1].len()
    }
}

/// The ring indices of the first `n` features, counted.
pub open spec fn total_rings(structure: Seq<Seq<Seq<int>>>, n: int) -> nat
    decreases n,
{
    if n <= 0 {
        0
    } else {
        total_rings(structure, n - 1) + feature_rings(
            structure[n - 1],
            structure[n - 1].len() as int,
        )
    }
}

/// Whether the counts of a topology fit the 32-bit counters.
pub open spec fn countable(structure: Seq<Seq<Seq<int>>>, arcs: Seq<Seq<Vertex>>) -> bool {
    &&& total_verts(arcs, arcs.len() as int) <= u32::MAX
    &&& total_polys(structure, structure.len() as int) <= u32::MAX
    &&& total_rings(structure, structure.len() as int) <= u32::MAX
    &&& arcs.len() <= u32::MAX
}

/// The arcs after cleaning each on its own.
pub open spec fn cleaned(arcs: Seq<Seq<Vertex>>, closed: Seq<bool>) -> Seq<Seq<Vertex>> {
    Seq::new(arcs.len(), |i: int| clean_spec(arcs[i], closed[i]).0)
}

/// What cleaning the first `n` arcs counts.
pub open spec fn cleaned_stats(arcs: Seq<Seq<Vertex>>, closed: Seq<bool>, n: int) -> CleanStats
    decreases n,
{
    if n <= 0 {
        no_stats()
    } else {
        counted(cleaned_stats(arcs, closed, n - 1), clean_spec(arcs[n - 1], closed[n - 1]).1)
    }
}

/// Whether a snapped topology is the cleanup of these arcs, rings and
/// features: arcs cleaned, then collapsed rings dropped.
pub open spec fn snaps(
    t: Snapped,
    ring_refs: Seq<Seq<u32>>,
    structure: Seq<Seq<Seq<int>>>,
    arcs: Seq<Seq<Vertex>>,
    closed: Seq<bool>,
) -> bool {
    let clean_arcs = cleaned(arcs, closed);
    let s = sifted(ring_refs, structure, clean_arcs);
    let used = used_by(ring_refs, s.kept);
    &&& refs_view(t.ring_refs@) == remapped_refs(used, ring_refs, s.kept)
    &&& structure_view(t.structure@) == s.features
    &&& arcs_view(t.arcs@) == compacted(used, clean_arcs, arcs.len() as int)
    &&& t.clean == drop_counted(
        cleaned_stats(arcs, closed, arcs.len() as int),
        s,
        arcs.len() - t.arcs@.len(),
    )
}

proof fn lemma_feature_drops(ok: spec_fn(int) -> bool, polys: Seq<Seq<int>>, kept: Seq<int>, n: int)
    requires
        0 <= n <= polys.len(),
    ensures
        sift_feature(ok, polys, kept, n).2 <= n,
        sift_feature(ok, polys, kept, n).3 <= feature_rings(polys, n),
    decreases n,
{
    if n > 0 {
        lemma_feature_drops(ok, polys, kept, n - 1);
        let poly = polys[n - 1];
        if poly_survives(ok, poly) {
            lemma_poly_drops(
                ok,
                poly,
                sift_feature(ok, polys, kept, n - 1).0,
                poly.len() as int,
            );
        }
    }
}

proof fn lemma_poly_drops(ok: spec_fn(int) -> bool, poly: Seq<int>, kept: Seq<int>, n: int)
    requires
        n >= 0,
    ensures
        sift_poly(ok, poly, kept, n).2 <= n,
    decreases n,
{
    if n > 0 {
        lemma_poly_drops(ok, poly, kept, n - 1);
    }
}

/// A sift drops no more than there is.
pub proof fn lemma_drops(ok: spec_fn(int) -> bool, structure: Seq<Seq<Seq<int>>>, n: int)
    requires
        0 <= n <= structure.len(),
    ensures
        sift(ok, structure, n).polys_dropped <= total_polys(structure, n),
        sift(ok, structure, n).rings_dropped <= total_rings(structure, n),
    decreases n,
{
    if n > 0 {
        lemma_drops(ok, structure, n - 1);
        lemma_feature_drops(
            ok,
            structure[n - 1],
            sift(ok, structure, n - 1).kept,
            structure[n - 1].len() as int,
        );
    }
}

/// More arcs have no fewer vertices.
pub proof fn lemma_verts_grow(arcs: Seq<Seq<Vertex>>, m: int, n: int)
    requires
        0 <= m <= n <= arcs.len(),
    ensures
        total_verts(arcs, m) <= total_verts(arcs, n),
    decreases n - m,
{
    if m < n {
        lemma_verts_grow(arcs, m, n - 1);
    }
}

proof fn lemma_clean_tally(a: Seq<Vertex>, closed: bool)
    ensures
        tally_total(clean_spec(a, closed).1) <= a.len(),
{
    if closed {
        crate::clean::lemma_ring_run(crate::clean::unclosed(a), tally_none());
    } else if a.len() >= 1 {
        crate::clean::lemma_open_run(a, 1, tally_none());
    }
}

/// Whether the counts of a topology fit the 32-bit counters.
pub fn fits_counters(structure: &[Vec<Vec<usize>>], arcs: &[Vec<Vertex>]) -> (fits: bool)
    ensures
        fits == countable(structure_view(structure@), arcs_view(arcs@)),
{
    let ghost sv = structure_view(structure@);
    let ghost av = arcs_view(arcs@);
    if arcs.len() as u64 > 0xFFFF_FFFF {
        return false;
    }
    let mut verts: u64 = 0;
    let mut i: usize = 0;
    while i < arcs.len()
        invariant
            i <= arcs@.len(),
            av == arcs_view(arcs@),
            verts == total_verts(av, i as int),
            verts <= u32::MAX,
        decreases arcs@.len() - i,
    {
        assert(av[i as int] == arcs@[i as int]@);
        let n = arcs[i].len() as u64;
        if n > 0xFFFF_FFFF - verts {
            proof {
                lemma_verts_grow(av, i as int + 1, av.len() as int);
            }
            return false;
        }
        verts = verts + n;
        i = i + 1;
    }
    let mut polys: u64 = 0;
    let mut rings: u64 = 0;
    let mut f: usize = 0;
    while f < structure.len()
        invariant
            f <= structure@.len(),
            sv == structure_view(structure@),
            polys == total_polys(sv, f as int),
            polys <= u32::MAX,
            rings == total_rings(sv, f as int),
            rings <= u32::MAX,
        decreases structure@.len() - f,
    {
        let feature = &structure[f];
        let ghost fv = feature_view(feature@);
        assert(sv[f as int] == fv);
        let n = feature.len() as u64;
        if n > 0xFFFF_FFFF - polys {
            proof {
                lemma_totals_grow(sv, f as int + 1, sv.len() as int);
            }
            return false;
        }
        polys = polys + n;
        let ghost rings0 = rings;
        let mut p: usize = 0;
        while p < feature.len()
            invariant
                p <= feature@.len(),
                f < structure@.len(),
                sv == structure_view(structure@),
                feature == structure@[f as int],
                fv == feature_view(feature@),
                sv[f as int] == fv,
                rings0 == total_rings(sv, f as int),
                rings == rings0 + feature_rings(fv, p as int),
                rings <= u32::MAX,
            decreases feature@.len() - p,
        {
            assert(fv[p as int] == poly_view(feature@[p as int]@));
            let n = feature[p].len() as u64;
            if n > 0xFFFF_FFFF - rings {
                proof {
                    lemma_feature_rings_grow(fv, p as int + 1, fv.len() as int);
                    lemma_totals_grow(sv, f as int + 1, sv.len() as int);
                }
                return false;
            }
            rings = rings + n;
            p = p + 1;
        }
        f = f + 1;
    }
    true
}

proof fn lemma_feature_rings_grow(polys: Seq<Seq<int>>, m: int, n: int)
    requires
        0 <= m <= n <= polys.len(),
    ensures
        feature_rings(polys, m) <= feature_rings(polys, n),
    decreases n - m,
{
    if m < n {
        lemma_feature_rings_grow(polys, m, n - 1);
    }
}

proof fn lemma_totals_grow(structure: Seq<Seq<Seq<int>>>, m: int, n: int)
    requires
        0 <= m <= n <= structure.len(),
    ensures
        total_polys(structure, m) <= total_polys(structure, n),
        total_rings(structure, m) <= total_rings(structure, n),
    decreases n - m,
{
    if m < n {
        lemma_totals_grow(structure, m, n - 1);
    }
}

/// Whether a ring's references name arcs, and its first names a non-empty one.
fn ring_is_valid(refs: &Vec<u32>, arcs: &[Vec<Vertex>]) -> (valid: bool)
    ensures
        valid == refs_valid(refs@, arcs@),
{
    let mut i: usize = 0;
    while i < refs.len()
        invariant
            i <= refs@.len(),
            forall|j: int| 0 <= j < i ==> (#[trigger] refs@[j] / 2) < arcs@.len(),
        decreases refs@.len() - i,
    {
        if (refs[i] / 2) as usize >= arcs.len() {
            assert(!((refs@[i as int] / 2) < arcs@.len()));
            return false;
        }
        i = i + 1;
    }
    refs.len() == 0 || arcs[(refs[0] / 2) as usize].len() > 0
}

/// Whether references name arcs and the structure names rings.
pub fn is_valid_topology(
    ring_refs: &[Vec<u32>],
    structure: &[Vec<Vec<usize>>],
    arcs: &[Vec<Vertex>],
) -> (valid: bool)
    ensures
        valid == topology_valid(ring_refs@, structure@, arcs@),
{
    let mut r: usize = 0;
    while r < ring_refs.len()
        invariant
            r <= ring_refs@.len(),
            forall|k: int| 0 <= k < r ==> refs_valid((#[trigger] ring_refs@[k])@, arcs@),
        decreases ring_refs@.len() - r,
    {
        let valid = ring_is_valid(&ring_refs[r], arcs);
        if !valid {
            assert(!refs_valid(ring_refs@[r as int]@, arcs@));
            return false;
        }
        r = r + 1;
    }
    let mut f: usize = 0;
    while f < structure.len()
        invariant
            f <= structure@.len(),
            forall|i: int, p: int, k: int|
                0 <= i < f && 0 <= p < structure@[i]@.len() && 0 <= k < structure@[i]@[p]@.len()
                    ==> (#[trigger] structure@[i]@[p]@[k]) < ring_refs@.len(),
        decreases structure@.len() - f,
    {
        let mut p: usize = 0;
        while p < structure[f].len()
            invariant
                f < structure@.len(),
                p <= structure@[f as int]@.len(),
                forall|q: int, k: int|
                    0 <= q < p && 0 <= k < structure@[f as int]@[q]@.len() ==> (
                    #[trigger] structure@[f as int]@[q]@[k]) < ring_refs@.len(),
            decreases structure@[f as int]@.len() - p,
        {
            let poly = &structure[f][p];
            let mut k: usize = 0;
            while k < poly.len()
                invariant
                    f < structure@.len(),
                    p < structure@[f as int]@.len(),
                    poly == structure@[f as int]@[p as int],
                    k <= poly@.len(),
                    forall|j: int|
                        0 <= j < k ==> (#[trigger] structure@[f as int]@[p as int]@[j])
                            < ring_refs@.len(),
                decreases poly@.len() - k,
            {
                if poly[k] >= ring_refs.len() {
                    assert(structure@[f as int]@[p as int]@[k as int] >= ring_refs@.len());
                    return false;
                }
                k = k + 1;
            }
            p = p + 1;
        }
        f = f + 1;
    }
    true
}

/// Cleans snapped arcs, each once, and counts what went. `closed` tells which
/// were closed before snapping.
pub fn clean_arcs(arcs: Vec<Vec<Vertex>>, closed: &[bool]) -> (left: (Vec<Vec<Vertex>>, CleanStats))
    requires
        closed@.len() == arcs@.len(),
        total_verts(arcs_view(arcs@), arcs@.len() as int) <= u32::MAX,
    ensures
        arcs_view(left.0@) == cleaned(arcs_view(arcs@), closed@),
        left.1 == cleaned_stats(arcs_view(arcs@), closed@, arcs@.len() as int),
        left.1.dups + left.1.spikes + left.1.collinear <= total_verts(
            arcs_view(arcs@),
            arcs@.len() as int,
        ),
        left.1.rings_dropped == 0 && left.1.polys_dropped == 0 && left.1.arcs_dropped == 0,
        forall|refs: Seq<u32>| refs_valid(refs, arcs@) ==> #[trigger] refs_valid(refs, left.0@),
{
    let ghost av = arcs_view(arcs@);
    let ghost arcs0 = arcs@;
    let ghost target = cleaned(av, closed@);
    let mut st = CleanStats::default();
    let mut arcs = arcs;
    let n = arcs.len();
    let mut i: usize = 0;
    while i < n
        invariant
            i <= n,
            n == arcs@.len(),
            n == closed@.len(),
            n == av.len(),
            av == arcs_view(arcs0),
            target == cleaned(av, closed@),
            total_verts(av, av.len() as int) <= u32::MAX,
            forall|j: int| 0 <= j < i ==> (#[trigger] arcs@[j])@ == target[j],
            forall|j: int| i <= j < n ==> (#[trigger] arcs@[j])@ == av[j],
            forall|j: int| 0 <= j < i && arcs0[j]@.len() > 0 ==> (#[trigger] arcs@[j])@.len() > 0,
            st == cleaned_stats(av, closed@, i as int),
            st.dups + st.spikes + st.collinear <= total_verts(av, i as int),
            st.rings_dropped == 0 && st.polys_dropped == 0 && st.arcs_dropped == 0,
        decreases n - i,
    {
        proof {
            lemma_verts_grow(av, i as int + 1, av.len() as int);
            lemma_clean_tally(av[i as int], closed@[i as int]);
            assert(arcs@[i as int]@ == av[i as int]);
            assert(arcs0[i as int]@ == av[i as int]);
        }
        clean_arc(&mut arcs[i], closed[i], &mut st);
        i = i + 1;
    }
    proof {
        assert(arcs_view(arcs@) =~= target);
        assert forall|refs: Seq<u32>| refs_valid(refs, arcs0) implies #[trigger] refs_valid(
            refs,
            arcs@,
        ) by {
            if refs.len() > 0 {
                let id = (refs[0] / 2) as int;
                assert(arcs0[id]@.len() > 0);
                assert(arcs@[id]@.len() > 0);
            }
        }
    }
    (arcs, st)
}

/// Cleans snapped arcs, each shared arc once, and drops the rings that
/// collapsed. `closed` tells which arcs were closed before snapping.
pub fn clean_topology(
    ring_refs: &[Vec<u32>],
    structure: &[Vec<Vec<usize>>],
    arcs: Vec<Vec<Vertex>>,
    closed: &[bool],
) -> (t: Snapped)
    requires
        topology_valid(ring_refs@, structure@, arcs@),
        closed@.len() == arcs@.len(),
        countable(structure_view(structure@), arcs_view(arcs@)),
    ensures
        t.wf(),
        snaps(
            t,
            refs_view(ring_refs@),
            structure_view(structure@),
            arcs_view(arcs@),
            closed@,
        ),
{
    let ghost av = arcs_view(arcs@);
    let ghost sv = structure_view(structure@);
    let (arcs, mut st) = clean_arcs(arcs, closed);
    proof {
        assert(arcs@.len() == arcs_view(arcs@).len());
        assert(av.len() == cleaned(av, closed@).len());
        let ok = crate::sift::ring_ok(refs_view(ring_refs@), cleaned(av, closed@));
        lemma_drops(ok, sv, sv.len() as int);
    }
    let (refs, features, left) = drop_degenerate_rings(ring_refs, structure, arcs, &mut st);
    Snapped { arcs: left, ring_refs: refs, structure: features, clean: st }
}

} // verus!
