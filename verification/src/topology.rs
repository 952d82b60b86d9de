//! The topology of features: vertices numbered, rings cut into shared arcs.

use std::collections::HashMap;

use vstd::prelude::*;
use vstd::std_specs::hash::group_hash_axioms;

use crate::owners::rings_view;
use crate::pool::{
    distinct, lemma_pool_grows, lemma_pool_of, lemma_pool_prefix, lemma_pooled, lemma_position_is,
    lemma_position_stays, pool_of, pooled, position,
};
use crate::sift::structure_view;
use crate::stitch::{append_spec, joined, oriented, ring_of, stitched};
use crate::topo::{
    arcs_of, cut_rings, first_vertex, lemma_arcs_below, lemma_refs_reassemble, refs_are, ring_verts,
    vertices_below,
};
use crate::walks::rotated;

verus! {

/// A point: the bit patterns of its longitude and latitude.
pub type Bits = (u64, u64);

/// One closed ring: no duplicated closing vertex.
pub type Ring = Vec<Bits>;

/// Exterior ring first, then the holes.
pub type Poly = Vec<Ring>;

/// The shared-arc topology, before simplification and serialization.
pub struct Topology {
    pub arc_coords: Vec<Vec<Bits>>,
    /// per ring: signed arc refs (`id << 1 | reversed`)
    pub ring_refs: Vec<Vec<u32>>,
    /// feature → polygon → ring indices into `ring_refs`
    pub structure: Vec<Vec<Vec<usize>>>,
}

/// A polygon's rings.
pub open spec fn poly_rings(poly: Seq<Vec<Bits>>) -> Seq<Seq<Bits>> {
    Seq::new(poly.len(), |i: int| poly[i]@)
}

/// The rings of a feature's first `n` polygons in a row.
pub open spec fn feature_rings(polys: Seq<Vec<Vec<Bits>>>, n: int) -> Seq<Seq<Bits>>
    decreases n,
{
    if n <= 0 {
        Seq::empty()
    } else {
        feature_rings(polys, n - 1) + poly_rings(polys[n - 1]@)
    }
}

/// The rings of the first `n` features in a row.
pub open spec fn all_rings(feats: Seq<Vec<Vec<Vec<Bits>>>>, n: int) -> Seq<Seq<Bits>>
    decreases n,
{
    if n <= 0 {
        Seq::empty()
    } else {
        all_rings(feats, n - 1) + feature_rings(feats[n - 1]@, feats[n - 1]@.len() as int)
    }
}

/// The points of the first `n` rings in a row.
pub open spec fn all_points(rings: Seq<Seq<Bits>>, n: int) -> Seq<Bits>
    decreases n,
{
    if n <= 0 {
        Seq::empty()
    } else {
        all_points(rings, n - 1) + rings[n - 1]
    }
}

/// The distinct points in order of first appearance: point `i` is vertex `i`.
pub open spec fn vertices_of(rings: Seq<Seq<Bits>>) -> Seq<Bits> {
    pool_of(all_points(rings, rings.len() as int), all_points(rings, rings.len() as int).len() as int)
}

/// A ring as vertex ids.
pub open spec fn numbered(ring: Seq<Bits>, vertices: Seq<Bits>) -> Seq<u32> {
    Seq::new(ring.len(), |i: int| position(vertices, ring[i]) as u32)
}

/// The rings as vertex ids.
pub open spec fn numbered_rings(rings: Seq<Seq<Bits>>) -> Seq<Seq<u32>> {
    Seq::new(rings.len(), |r: int| numbered(rings[r], vertices_of(rings)))
}

/// The points of a walk.
pub open spec fn located(walk: Seq<u32>, vertices: Seq<Bits>) -> Seq<Bits> {
    Seq::new(walk.len(), |k: int| vertices[walk[k] as int])
}

/// Consecutive ring indices from `base` on.
pub open spec fn indices(base: int, n: int) -> Seq<int> {
    Seq::new(n as nat, |k: int| base + k)
}

/// The ring indices of a feature whose rings start at `base`.
pub open spec fn feature_indices(polys: Seq<Vec<Vec<Bits>>>, base: int) -> Seq<Seq<int>> {
    Seq::new(
        polys.len(),
        |p: int| indices(base + feature_rings(polys, p).len(), polys[p]@.len() as int),
    )
}

/// The ring indices of the first `n` features.
pub open spec fn structure_of(feats: Seq<Vec<Vec<Vec<Bits>>>>, n: int) -> Seq<Seq<Seq<int>>> {
    Seq::new(
        n as nat,
        |f: int| feature_indices(feats[f]@, all_rings(feats, f).len() as int),
    )
}

/// Whether a topology is that of these features.
pub open spec fn topology_is(t: Topology, feats: Seq<Vec<Vec<Vec<Bits>>>>) -> bool {
    let rings = all_rings(feats, feats.len() as int);
    let ids = numbered_rings(rings);
    let arcs = arcs_of(ids);
    &&& structure_view(t.structure@) == structure_of(feats, feats.len() as int)
    &&& t.ring_refs@.len() == rings.len()
    &&& forall|r: int|
        0 <= r < rings.len() ==> refs_are(ids, arcs, r, (#[trigger] t.ring_refs@[r])@)
    &&& t.arc_coords@.len() == arcs.len()
    &&& forall|a: int|
        0 <= a < arcs.len() ==> (#[trigger] t.arc_coords@[a])@ == located(
            arcs[a],
            vertices_of(rings),
        )
}

/// Whether the features' points and rings can be numbered.
pub open spec fn numberable(feats: Seq<Vec<Vec<Vec<Bits>>>>) -> bool {
    let rings = all_rings(feats, feats.len() as int);
    rings.len() <= u32::MAX && all_points(rings, rings.len() as int).len() < 0x8000_0000
}

/// A point as one number.
spec fn point_key(p: Bits) -> u128 {
    (p.0 as int * 0x1_0000_0000_0000_0000 + p.1 as int) as u128
}

proof fn lemma_point_key(p: Bits, q: Bits)
    ensures
        p.0 as int * 0x1_0000_0000_0000_0000 + p.1 as int <= u128::MAX,
        point_key(p) == point_key(q) ==> p == q,
{
}

/// Numbers points in order of first appearance.
struct Numbering {
    ids: HashMap<u128, u32>,
    points: Vec<Bits>,
}

impl Numbering {
    spec fn wf(self) -> bool {
        &&& self.points@.len() <= 0x8000_0000
        &&& distinct(self.points@)
        &&& forall|i: int|
            0 <= i < self.points@.len() ==> self.ids@.dom().contains(
                point_key(#[trigger] self.points@[i]),
            ) && self.ids@[point_key(self.points@[i])] == i
        &&& forall|k: u128| #[trigger]
            self.ids@.dom().contains(k) ==> self.ids@[k] < self.points@.len() && point_key(
                self.points@[self.ids@[k] as int],
            ) == k
    }

    /// The id of a point.
    fn number(&mut self, p: Bits) -> (id: u32)
        requires
            old(self).wf(),
            old(self).points@.len() < 0x8000_0000,
        ensures
            final(self).wf(),
            final(self).points@ == pooled(old(self).points@, p),
            id == position(old(self).points@, p),
    {
        broadcast use group_hash_axioms;

        let ghost before = *self;
        let key: u128 = p.0 as u128 * 0x1_0000_0000_0000_0000 + p.1 as u128;
        assert(key == point_key(p));
        let found: Option<u32> = match self.ids.get(&key) {
            Some(id) => Some(*id),
            None => None,
        };
        match found {
            Some(id) => {
                proof {
                    lemma_point_key(self.points@[id as int], p);
                    assert forall|j: int| 0 <= j < id implies self.points@[j] != p by {
                        assert(self.points@[j] != self.points@[id as int]);
                    }
                    lemma_position_is(self.points@, p, id as int);
                }
                id
            },
            None => {
                let id = self.points.len() as u32;
                proof {
                    assert forall|j: int| 0 <= j < self.points@.len() implies self.points@[j]
                        != p by {
                        if self.points@[j] == p {
                            assert(self.ids@.dom().contains(point_key(self.points@[j])));
                        }
                    }
                    lemma_position_is(self.points@, p, self.points@.len() as int);
                    lemma_pooled(self.points@, p);
                }
                self.points.push(p);
                self.ids.insert(key, id);
                proof {
                    assert forall|i: int| 0 <= i < self.points@.len() implies self.ids@.dom().contains(
                        point_key(#[trigger] self.points@[i]),
                    ) && self.ids@[point_key(self.points@[i])] == i by {
                        lemma_point_key(self.points@[i], p);
                        if i < before.points@.len() {
                            assert(self.points@[i] == before.points@[i]);
                            assert(before.points@[i] != p);
                        }
                    }
                    assert forall|k: u128| #[trigger] self.ids@.dom().contains(k) implies self.ids@[k]
                        < self.points@.len() && point_key(self.points@[self.ids@[k] as int])
                        == k by {
                        if k != key {
                            assert(before.ids@.dom().contains(k));
                            assert(before.ids@[k] < before.points@.len());
                        }
                    }
                }
                id
            },
        }
    }

    /// The ids of a ring's points, which stand behind `done` in `all`.
    fn number_ring(&mut self, ring: &Vec<Bits>, done: Ghost<Seq<Bits>>, all: Ghost<Seq<Bits>>) -> (
        ids: Vec<u32>)
        requires
            old(self).wf(),
            old(self).points@ == pool_of(done@, done@.len() as int),
            done@.len() + ring@.len() <= all@.len(),
            forall|i: int| 0 <= i < done@.len() ==> all@[i] == done@[i],
            forall|i: int| 0 <= i < ring@.len() ==> all@[done@.len() + i] == #[trigger] ring@[i],
            all@.len() < 0x8000_0000,
        ensures
            final(self).wf(),
            final(self).points@ == pool_of(done@ + ring@, (done@ + ring@).len() as int),
            ids@ == numbered(ring@, pool_of(all@, all@.len() as int)),
    {
        let ghost vertices = pool_of(all@, all@.len() as int);
        let ghost whole = done@ + ring@;
        let n = ring.len();
        let mut ids: Vec<u32> = Vec::new();
        let mut i: usize = 0;
        proof {
            lemma_pool_prefix(whole, done@, done@.len() as int);
        }
        while i < n
            invariant
                i <= n,
                n == ring@.len(),
                whole == done@ + ring@,
                vertices == pool_of(all@, all@.len() as int),
                done@.len() + ring@.len() <= all@.len(),
                all@.len() < 0x8000_0000,
                forall|k: int| 0 <= k < whole.len() ==> all@[k] == whole[k],
                self.wf(),
                self.points@ == pool_of(whole, done@.len() + i),
                ids@.len() == i,
                forall|k: int|
                    0 <= k < i ==> #[trigger] ids@[k] == position(vertices, ring@[k]) as u32,
            decreases n - i,
        {
            let p = ring[i];
            let ghost prior = self.points@;
            let ghost m = done@.len() + i;
            proof {
                lemma_pool_of(whole, m as int);
                assert(whole[m as int] == p);
            }
            let id = self.number(p);
            proof {
                lemma_pooled(prior, p);
                assert(self.points@ == pool_of(whole, m + 1));
                lemma_pool_prefix(all@, whole, m + 1);
                lemma_pool_grows(all@, m + 1, all@.len() as int);
                lemma_position_stays(self.points@, vertices, p);
            }
            ids.push(id);
            i = i + 1;
        }
        assert(ids@ =~= numbered(ring@, vertices));
        ids
    }
}

/// Whether `part` stands at `at` in `rings`.
spec fn stands_at(rings: Seq<Seq<Bits>>, at: int, part: Seq<Seq<Bits>>) -> bool {
    &&& 0 <= at
    &&& at + part.len() <= rings.len()
    &&& forall|i: int| 0 <= i < part.len() ==> rings[at + i] == #[trigger] part[i]
}

proof fn lemma_points_grow(rings: Seq<Seq<Bits>>, m: int, n: int)
    requires
        0 <= m <= n <= rings.len(),
    ensures
        all_points(rings, m).len() <= all_points(rings, n).len(),
        forall|i: int|
            0 <= i < all_points(rings, m).len() ==> all_points(rings, n)[i] == all_points(
                rings,
                m,
            )[i],
    decreases n - m,
{
    if m < n {
        lemma_points_grow(rings, m, n - 1);
    }
}

/// Whether the first rings are numbered.
spec fn numbered_upto(ids: Seq<Vec<u32>>, numbering: Numbering, rings: Seq<Seq<Bits>>) -> bool {
    &&& numbering.wf()
    &&& ids.len() <= rings.len()
    &&& numbering.points@ == pool_of(
        all_points(rings, ids.len() as int),
        all_points(rings, ids.len() as int).len() as int,
    )
    &&& forall|r: int|
        0 <= r < ids.len() ==> (#[trigger] ids[r])@ == numbered(rings[r], vertices_of(rings))
}

/// Numbers a polygon's rings and gives their indices.
fn number_poly(
    poly: &Vec<Vec<Bits>>,
    ids: &mut Vec<Vec<u32>>,
    numbering: &mut Numbering,
    rings: Ghost<Seq<Seq<Bits>>>,
) -> (at: Vec<usize>)
    requires
        numbered_upto(old(ids)@, *old(numbering), rings@),
        stands_at(rings@, old(ids)@.len() as int, poly_rings(poly@)),
        all_points(rings@, rings@.len() as int).len() < 0x8000_0000,
    ensures
        numbered_upto(final(ids)@, *final(numbering), rings@),
        final(ids)@.len() == old(ids)@.len() + poly@.len(),
        crate::sift::poly_view(at@) == indices(old(ids)@.len() as int, poly@.len() as int),
{
    let ghost base = ids@.len();
    let ghost all = all_points(rings@, rings@.len() as int);
    let mut at: Vec<usize> = Vec::new();
    let mut k: usize = 0;
    while k < poly.len()
        invariant
            k <= poly@.len(),
            ids@.len() == base + k,
            stands_at(rings@, base as int, poly_rings(poly@)),
            numbered_upto(ids@, *numbering, rings@),
            all == all_points(rings@, rings@.len() as int),
            all.len() < 0x8000_0000,
            at@.len() == k,
            forall|i: int| 0 <= i < k ==> #[trigger] at@[i] == base + i,
        decreases poly@.len() - k,
    {
        let r = ids.len();
        let ghost done = all_points(rings@, r as int);
        proof {
            assert(poly_rings(poly@)[k as int] == poly@[k as int]@);
            assert(rings@[r as int] == poly@[k as int]@);
            lemma_points_grow(rings@, r as int + 1, rings@.len() as int);
            lemma_points_grow(rings@, r as int, rings@.len() as int);
            let next = all_points(rings@, r as int + 1);
            assert forall|i: int| 0 <= i < poly@[k as int]@.len() implies all[done.len() + i]
                == #[trigger] poly@[k as int]@[i] by {
                assert(next[done.len() + i] == poly@[k as int]@[i]);
            }
        }
        let ring_ids = numbering.number_ring(&poly[k], Ghost(done), Ghost(all));
        at.push(r);
        ids.push(ring_ids);
        k = k + 1;
    }
    assert(crate::sift::poly_view(at@) =~= indices(base as int, poly@.len() as int));
    at
}

proof fn lemma_feature_stands(
    rings: Seq<Seq<Bits>>,
    at: int,
    polys: Seq<Vec<Vec<Bits>>>,
    n: int,
    p: int,
)
    requires
        0 <= p < n <= polys.len(),
        stands_at(rings, at, feature_rings(polys, n)),
    ensures
        stands_at(rings, at + feature_rings(polys, p).len(), poly_rings(polys[p]@)),
    decreases n,
{
    let a = feature_rings(polys, n - 1);
    let b = poly_rings(polys[n - 1]@);
    let whole = feature_rings(polys, n);
    assert(whole == a + b);
    if p == n - 1 {
        assert forall|i: int| 0 <= i < b.len() implies rings[at + a.len() + i]
            == #[trigger] b[i] by {
            assert(whole[a.len() + i] == b[i]);
            assert(rings[at + (a.len() + i)] == whole[a.len() + i]);
        }
    } else {
        assert forall|i: int| 0 <= i < a.len() implies rings[at + i] == #[trigger] a[i] by {
            assert(whole[i] == a[i]);
        }
        lemma_feature_stands(rings, at, polys, n - 1, p);
    }
}

proof fn lemma_features_stand(feats: Seq<Vec<Vec<Vec<Bits>>>>, n: int, f: int)
    requires
        0 <= f < n <= feats.len(),
    ensures
        stands_at(
            all_rings(feats, n),
            all_rings(feats, f).len() as int,
            feature_rings(feats[f]@, feats[f]@.len() as int),
        ),
    decreases n,
{
    let a = all_rings(feats, n - 1);
    let b = feature_rings(feats[n - 1]@, feats[n - 1]@.len() as int);
    let whole = all_rings(feats, n);
    assert(whole == a + b);
    if f < n - 1 {
        lemma_features_stand(feats, n - 1, f);
        let part = feature_rings(feats[f]@, feats[f]@.len() as int);
        let at = all_rings(feats, f).len() as int;
        assert forall|i: int| 0 <= i < part.len() implies whole[at + i] == #[trigger] part[i] by {
            assert(a[at + i] == part[i]);
        }
    }
}

/// A feature's ring stands among all rings where the structure says.
pub proof fn lemma_ring_index(feats: Seq<Vec<Vec<Vec<Bits>>>>, f: int, p: int, k: int)
    requires
        0 <= f < feats.len(),
        0 <= p < feats[f]@.len(),
        0 <= k < feats[f]@[p]@.len(),
    ensures
        ({
            let r = structure_of(feats, feats.len() as int)[f][p][k];
            let rings = all_rings(feats, feats.len() as int);
            0 <= r < rings.len() && rings[r] == feats[f]@[p]@[k]@
        }),
{
    let n = feats.len() as int;
    lemma_features_stand(feats, n, f);
    let base = all_rings(feats, f).len() as int;
    lemma_feature_stands(all_rings(feats, n), base, feats[f]@, feats[f]@.len() as int, p);
    let poly = poly_rings(feats[f]@[p]@);
    assert(poly[k] == feats[f]@[p]@[k]@);
}

/// Numbers a feature's rings and gives their indices.
fn number_feature(
    polys: &Vec<Vec<Vec<Bits>>>,
    ids: &mut Vec<Vec<u32>>,
    numbering: &mut Numbering,
    rings: Ghost<Seq<Seq<Bits>>>,
) -> (at: Vec<Vec<usize>>)
    requires
        numbered_upto(old(ids)@, *old(numbering), rings@),
        stands_at(
            rings@,
            old(ids)@.len() as int,
            feature_rings(polys@, polys@.len() as int),
        ),
        all_points(rings@, rings@.len() as int).len() < 0x8000_0000,
    ensures
        numbered_upto(final(ids)@, *final(numbering), rings@),
        final(ids)@.len() == old(ids)@.len() + feature_rings(polys@, polys@.len() as int).len(),
        crate::sift::feature_view(at@) == feature_indices(polys@, old(ids)@.len() as int),
{
    let ghost base = ids@.len();
    let mut at: Vec<Vec<usize>> = Vec::new();
    let mut p: usize = 0;
    while p < polys.len()
        invariant
            p <= polys@.len(),
            ids@.len() == base + feature_rings(polys@, p as int).len(),
            stands_at(rings@, base as int, feature_rings(polys@, polys@.len() as int)),
            numbered_upto(ids@, *numbering, rings@),
            all_points(rings@, rings@.len() as int).len() < 0x8000_0000,
            at@.len() == p,
            forall|i: int|
                0 <= i < p ==> crate::sift::poly_view((#[trigger] at@[i])@) == feature_indices(
                    polys@,
                    base as int,
                )[i],
        decreases polys@.len() - p,
    {
        proof {
            lemma_feature_stands(
                rings@,
                base as int,
                polys@,
                polys@.len() as int,
                p as int,
            );
        }
        at.push(number_poly(&polys[p], ids, numbering, rings));
        p = p + 1;
    }
    assert(crate::sift::feature_view(at@) =~= feature_indices(polys@, base as int));
    at
}

proof fn lemma_point_index(rings: Seq<Seq<Bits>>, n: int, r: int, i: int) -> (k: int)
    requires
        0 <= r < n <= rings.len(),
        0 <= i < rings[r].len(),
    ensures
        0 <= k < all_points(rings, n).len(),
        all_points(rings, n)[k] == rings[r][i],
    decreases n,
{
    if r == n - 1 {
        all_points(rings, n - 1).len() + i
    } else {
        lemma_point_index(rings, n - 1, r, i)
    }
}

/// Every point of a ring is the vertex its id names.
proof fn lemma_ids_valid(rings: Seq<Seq<Bits>>)
    requires
        all_points(rings, rings.len() as int).len() <= u32::MAX,
    ensures
        distinct(vertices_of(rings)),
        vertices_of(rings).len() <= u32::MAX,
        forall|r: int, i: int|
            0 <= r < rings.len() && 0 <= i < rings[r].len() ==> {
                &&& (#[trigger] numbered_rings(rings)[r][i]) < vertices_of(rings).len()
                &&& vertices_of(rings)[numbered_rings(rings)[r][i] as int] == rings[r][i]
            },
        forall|r: int|
            0 <= r < rings.len() ==> vertices_below(
                #[trigger] numbered_rings(rings)[r],
                vertices_of(rings).len() as int,
            ),
{
    let all = all_points(rings, rings.len() as int);
    let ids = numbered_rings(rings);
    lemma_pool_of(all, all.len() as int);
    assert forall|r: int, i: int| 0 <= r < rings.len() && 0 <= i < rings[r].len() implies {
        &&& (#[trigger] ids[r][i]) < vertices_of(rings).len()
        &&& vertices_of(rings)[ids[r][i] as int] == rings[r][i]
    } by {
        let k = lemma_point_index(rings, rings.len() as int, r, i);
        assert(all[k] == rings[r][i]);
    }
    assert forall|r: int| 0 <= r < rings.len() implies vertices_below(
        #[trigger] ids[r],
        vertices_of(rings).len() as int,
    ) by {
        assert forall|i: int| 0 <= i < ids[r].len() implies (#[trigger] ids[r][i])
            < vertices_of(rings).len() by {
            assert(rings[r].len() == ids[r].len());
        }
    }
}

proof fn lemma_numbered_verts(rings: Seq<Seq<Bits>>, n: int)
    requires
        0 <= n <= rings.len(),
    ensures
        ring_verts(numbered_rings(rings), n) == all_points(rings, n).len(),
    decreases n,
{
    if n > 0 {
        lemma_numbered_verts(rings, n - 1);
    }
}

proof fn lemma_feature_points(polys: Seq<Vec<Vec<Bits>>>, n: int)
    requires
        0 <= n <= polys.len(),
    ensures
        point_count(feature_rings(polys, n)) == feature_point_count(polys, n),
    decreases n,
{
    if n > 0 {
        lemma_feature_points(polys, n - 1);
        lemma_count_concat(feature_rings(polys, n - 1), poly_rings(polys[n - 1]@));
    } else {
        assert(feature_rings(polys, n) =~= Seq::<Seq<Bits>>::empty());
    }
}

/// The points of rings, counted.
spec fn point_count(rings: Seq<Seq<Bits>>) -> nat {
    all_points(rings, rings.len() as int).len()
}

spec fn feature_point_count(polys: Seq<Vec<Vec<Bits>>>, n: int) -> nat
    decreases n,
{
    if n <= 0 {
        0
    } else {
        feature_point_count(polys, n - 1) + point_count(poly_rings(polys[n - 1]@))
    }
}

proof fn lemma_points_prefix(a: Seq<Seq<Bits>>, b: Seq<Seq<Bits>>, n: int)
    requires
        n <= a.len(),
        n <= b.len(),
        forall|i: int| 0 <= i < n ==> a[i] == b[i],
    ensures
        all_points(a, n) == all_points(b, n),
    decreases n,
{
    if n > 0 {
        lemma_points_prefix(a, b, n - 1);
    }
}

proof fn lemma_count_from(a: Seq<Seq<Bits>>, b: Seq<Seq<Bits>>, n: int)
    requires
        0 <= n <= b.len(),
    ensures
        all_points(a + b, a.len() + n).len() == point_count(a) + all_points(b, n).len(),
    decreases n,
{
    if n > 0 {
        lemma_count_from(a, b, n - 1);
        assert((a + b)[a.len() + n - 1] == b[n - 1]);
    } else {
        lemma_points_prefix(a + b, a, a.len() as int);
    }
}

proof fn lemma_count_concat(a: Seq<Seq<Bits>>, b: Seq<Seq<Bits>>)
    ensures
        point_count(a + b) == point_count(a) + point_count(b),
{
    lemma_count_from(a, b, b.len() as int);
}

/// Counts on, up to a limit.
fn count_up(n: u64, more: usize, limit: u64) -> (sum: Option<u64>)
    requires
        n <= limit,
    ensures
        sum == if n + more <= limit {
            Some((n + more) as u64)
        } else {
            None
        },
{
    if more as u64 > limit - n {
        None
    } else {
        Some(n + more as u64)
    }
}

proof fn lemma_counts_grow(feats: Seq<Vec<Vec<Vec<Bits>>>>, m: int, n: int)
    requires
        0 <= m <= n <= feats.len(),
    ensures
        all_rings(feats, m).len() <= all_rings(feats, n).len(),
        point_count(all_rings(feats, m)) <= point_count(all_rings(feats, n)),
    decreases n - m,
{
    if m < n {
        lemma_counts_grow(feats, m, n - 1);
        lemma_count_concat(
            all_rings(feats, n - 1),
            feature_rings(feats[n - 1]@, feats[n - 1]@.len() as int),
        );
    }
}

proof fn lemma_feature_counts_grow(polys: Seq<Vec<Vec<Bits>>>, m: int, n: int)
    requires
        0 <= m <= n <= polys.len(),
    ensures
        feature_rings(polys, m).len() <= feature_rings(polys, n).len(),
        feature_point_count(polys, m) <= feature_point_count(polys, n),
    decreases n - m,
{
    if m < n {
        lemma_feature_counts_grow(polys, m, n - 1);
    }
}

/// Whether the features' points and rings can be numbered.
pub fn can_number(feats: &[Vec<Vec<Vec<Bits>>>]) -> (fits: bool)
    ensures
        fits == numberable(feats@),
{
    let ghost total = all_rings(feats@, feats@.len() as int);
    let mut rings: u64 = 0;
    let mut points: u64 = 0;
    let mut f: usize = 0;
    while f < feats.len()
        invariant
            f <= feats@.len(),
            total == all_rings(feats@, feats@.len() as int),
            rings == all_rings(feats@, f as int).len(),
            rings <= u32::MAX,
            points == point_count(all_rings(feats@, f as int)),
            points < 0x8000_0000,
        decreases feats@.len() - f,
    {
        let polys = &feats[f];
        let ghost before = all_rings(feats@, f as int);
        let ghost own = feature_rings(polys@, polys@.len() as int);
        proof {
            lemma_counts_grow(feats@, f as int + 1, feats@.len() as int);
            lemma_count_concat(before, own);
            lemma_feature_points(polys@, polys@.len() as int);
        }
        let mut p: usize = 0;
        while p < polys.len()
            invariant
                f < feats@.len(),
                polys == feats@[f as int],
                p <= polys@.len(),
                total == all_rings(feats@, feats@.len() as int),
                before == all_rings(feats@, f as int),
                own == feature_rings(polys@, polys@.len() as int),
                before.len() + own.len() <= total.len(),
                point_count(own) == feature_point_count(polys@, polys@.len() as int),
                point_count(before) + point_count(own) <= point_count(total),
                rings == before.len() + feature_rings(polys@, p as int).len(),
                rings <= u32::MAX,
                points == point_count(before) + feature_point_count(polys@, p as int),
                points < 0x8000_0000,
            decreases polys@.len() - p,
        {
            let poly = &polys[p];
            let ghost pr = poly_rings(poly@);
            proof {
                lemma_feature_counts_grow(polys@, p as int + 1, polys@.len() as int);
            }
            match count_up(rings, poly.len(), 0xFFFF_FFFF) {
                Some(n) => {
                    rings = n;
                },
                None => {
                    return false;
                },
            }
            let ghost points0 = points;
            let mut k: usize = 0;
            while k < poly.len()
                invariant
                    p < polys@.len(),
                    poly == polys@[p as int],
                    k <= poly@.len(),
                    pr == poly_rings(poly@),
                    points0 == point_count(before) + feature_point_count(polys@, p as int),
                    points == points0 + all_points(pr, k as int).len(),
                    points < 0x8000_0000,
                    feature_point_count(polys@, p as int + 1) <= feature_point_count(
                        polys@,
                        polys@.len() as int,
                    ),
                    point_count(own) == feature_point_count(polys@, polys@.len() as int),
                    point_count(before) + point_count(own) <= point_count(total),
                    total == all_rings(feats@, feats@.len() as int),
                decreases poly@.len() - k,
            {
                assert(pr[k as int] == poly@[k as int]@);
                match count_up(points, poly[k].len(), 0x7FFF_FFFF) {
                    Some(n) => {
                        points = n;
                    },
                    None => {
                        proof {
                            lemma_points_grow(pr, k as int + 1, pr.len() as int);
                        }
                        return false;
                    },
                }
                k = k + 1;
            }
            p = p + 1;
        }
        f = f + 1;
    }
    true
}

/// Builds the topology of features: bit-exact vertices are shared, rings are
/// cut into arcs at junctions, and each arc is stored once.
pub fn build_topology(feats: &[Vec<Vec<Vec<Bits>>>]) -> (t: Topology)
    requires
        numberable(feats@),
    ensures
        topology_is(t, feats@),
{
    broadcast use group_hash_axioms;

    let ghost rings = all_rings(feats@, feats@.len() as int);
    let mut numbering = Numbering { ids: HashMap::new(), points: Vec::new() };
    let mut ids: Vec<Vec<u32>> = Vec::new();
    let mut structure: Vec<Vec<Vec<usize>>> = Vec::new();
    let mut f: usize = 0;
    assert(numbering.points@ =~= pool_of(all_points(rings, 0), 0));
    while f < feats.len()
        invariant
            f <= feats@.len(),
            rings == all_rings(feats@, feats@.len() as int),
            all_points(rings, rings.len() as int).len() < 0x8000_0000,
            ids@.len() == all_rings(feats@, f as int).len(),
            numbered_upto(ids@, numbering, rings),
            structure@.len() == f,
            forall|i: int|
                0 <= i < f ==> crate::sift::feature_view((#[trigger] structure@[i])@)
                    == structure_of(feats@, feats@.len() as int)[i],
        decreases feats@.len() - f,
    {
        proof {
            lemma_features_stand(feats@, feats@.len() as int, f as int);
        }
        structure.push(number_feature(&feats[f], &mut ids, &mut numbering, Ghost(rings)));
        f = f + 1;
    }
    proof {
        assert(structure_view(structure@) =~= structure_of(feats@, feats@.len() as int));
        assert(rings_view(ids@) =~= numbered_rings(rings));
        lemma_numbered_verts(rings, rings.len() as int);
    }
    let (arcs, ring_refs) = cut_rings(&ids);
    let ghost arc_ids = arcs_of(numbered_rings(rings));
    let vertices = numbering.points;
    proof {
        lemma_ids_valid(rings);
        lemma_arcs_below(numbered_rings(rings), vertices@.len() as int);
        assert forall|i: int, k: int| 0 <= i < arc_ids.len() && 0 <= k < arc_ids[i].len() implies (
        #[trigger] arc_ids[i][k]) < vertices@.len() by {
            assert(vertices_below(arc_ids[i], vertices@.len() as int));
        }
    }
    let mut arc_coords: Vec<Vec<Bits>> = Vec::new();
    let mut a: usize = 0;
    while a < arcs.len()
        invariant
            a <= arcs@.len(),
            rings_view(arcs@) == arc_ids,
            vertices@ == vertices_of(rings),
            forall|i: int, k: int|
                0 <= i < arc_ids.len() && 0 <= k < arc_ids[i].len() ==> (
                #[trigger] arc_ids[i][k]) < vertices@.len(),
            arc_coords@.len() == a,
            forall|i: int|
                0 <= i < a ==> (#[trigger] arc_coords@[i])@ == located(arc_ids[i], vertices@),
        decreases arcs@.len() - a,
    {
        assert(arc_ids[a as int] == arcs@[a as int]@);
        assert forall|k: int| 0 <= k < arcs@[a as int]@.len() implies (
        #[trigger] arcs@[a as int]@[k]) < vertices@.len() by {
            assert(arc_ids[a as int][k] < vertices@.len());
        }
        arc_coords.push(locate(&arcs[a], &vertices));
        a = a + 1;
    }
    Topology { arc_coords, ring_refs, structure }
}

/// The points of a walk.
fn locate(walk: &Vec<u32>, vertices: &Vec<Bits>) -> (out: Vec<Bits>)
    requires
        forall|k: int| 0 <= k < walk@.len() ==> (#[trigger] walk@[k]) < vertices@.len(),
    ensures
        out@ == located(walk@, vertices@),
{
    let mut out: Vec<Bits> = Vec::new();
    let mut k: usize = 0;
    while k < walk.len()
        invariant
            k <= walk@.len(),
            out@.len() == k,
            forall|j: int| 0 <= j < walk@.len() ==> (#[trigger] walk@[j]) < vertices@.len(),
            forall|j: int| 0 <= j < k ==> #[trigger] out@[j] == vertices@[walk@[j] as int],
        decreases walk@.len() - k,
    {
        out.push(vertices[walk[k] as usize]);
        k = k + 1;
    }
    assert(out@ =~= located(walk@, vertices@));
    out
}

proof fn lemma_stitch_located(
    refs: Seq<u32>,
    arcs: Seq<Seq<u32>>,
    coords: Seq<Seq<Bits>>,
    vertices: Seq<Bits>,
    n: int,
)
    requires
        0 <= n <= refs.len(),
        distinct(vertices),
        coords.len() == arcs.len(),
        forall|i: int| 0 <= i < refs.len() ==> (#[trigger] refs[i] / 2) < arcs.len(),
        forall|a: int| 0 <= a < arcs.len() ==> #[trigger] coords[a] == located(arcs[a], vertices),
        forall|a: int|
            0 <= a < arcs.len() ==> vertices_below(#[trigger] arcs[a], vertices.len() as int),
    ensures
        stitched(refs, coords, n) == located(stitched(refs, arcs, n), vertices),
        vertices_below(stitched(refs, arcs, n), vertices.len() as int),
        joined(refs, arcs, n) ==> joined(refs, coords, n),
    decreases n,
{
    if n <= 0 {
        assert(stitched(refs, coords, n) =~= located(stitched(refs, arcs, n), vertices));
    } else {
        lemma_stitch_located(refs, arcs, coords, vertices, n - 1);
        let id = (refs[n - 1] / 2) as int;
        let rev = refs[n - 1] % 2 == 1;
        let head = stitched(refs, arcs, n - 1);
        let walk = oriented(arcs[id], rev);
        assert(vertices_below(arcs[id], vertices.len() as int));
        assert(vertices_below(walk, vertices.len() as int)) by {
            assert forall|k: int| 0 <= k < walk.len() implies (#[trigger] walk[k])
                < vertices.len() by {
                if rev {
                    assert(walk[k] == arcs[id][arcs[id].len() - 1 - k]);
                }
            }
        }
        let points = oriented(coords[id], rev);
        assert(points =~= located(walk, vertices));
        if head.len() > 0 && walk.len() > 0 {
            let x = head.last();
            let y = walk[0];
            assert(x < vertices.len() && y < vertices.len());
            if x != y {
                if x < y {
                    assert(vertices[x as int] != vertices[y as int]);
                } else {
                    assert(vertices[y as int] != vertices[x as int]);
                }
            }
        }
        assert(append_spec(located(head, vertices), points) =~= located(
            append_spec(head, walk),
            vertices,
        ));
    }
}

/// A topology reassembles to its features: each ring's arcs stitch to exactly
/// the ring's points, in its own direction, from the vertex its references
/// start at; each arc begins where those before it end, and the last ends where
/// the first begins.
pub proof fn lemma_rings_reassemble(t: Topology, feats: Seq<Vec<Vec<Vec<Bits>>>>, r: int)
    requires
        numberable(feats),
        topology_is(t, feats),
        0 <= r < all_rings(feats, feats.len() as int).len(),
    ensures
        ({
            let ring = all_rings(feats, feats.len() as int)[r];
            let coords = Seq::new(t.arc_coords@.len(), |a: int| t.arc_coords@[a]@);
            exists|k: int|
                (ring.len() > 0 ==> 0 <= k < ring.len()) && ring_of(t.ring_refs@[r]@, coords)
                    == #[trigger] rotated(ring, k)
        }),
        ({
            let refs = t.ring_refs@[r]@;
            let coords = Seq::new(t.arc_coords@.len(), |a: int| t.arc_coords@[a]@);
            let path = stitched(refs, coords, refs.len() as int);
            &&& joined(refs, coords, refs.len() as int)
            &&& path.len() > 0 ==> path.len() > 1 && path.last() == path[0]
        }),
{
    let rings = all_rings(feats, feats.len() as int);
    let ids = numbered_rings(rings);
    let arcs = arcs_of(ids);
    let vertices = vertices_of(rings);
    let refs = t.ring_refs@[r]@;
    let coords = Seq::new(t.arc_coords@.len(), |a: int| t.arc_coords@[a]@);
    assert(refs_are(ids, arcs, r, refs));
    lemma_ids_valid(rings);
    lemma_arcs_below(ids, vertices.len() as int);
    lemma_refs_reassemble(ids, r, refs);
    crate::topo::lemma_refs_name_arcs(ids, r, refs);
    assert forall|a: int| 0 <= a < arcs.len() implies #[trigger] coords[a] == located(
        arcs[a],
        vertices,
    ) by {
        assert(t.arc_coords@[a]@ == located(arcs[a], vertices));
    }
    lemma_stitch_located(refs, arcs, coords, vertices, refs.len() as int);
    let path = stitched(refs, arcs, refs.len() as int);
    let k = first_vertex(ids, r);
    let ring = rings[r];
    if path.len() > 1 {
        let x = path.last();
        let y = path[0];
        assert(x < vertices.len() && y < vertices.len());
        if x != y {
            if x < y {
                assert(vertices[x as int] != vertices[y as int]);
            } else {
                assert(vertices[y as int] != vertices[x as int]);
            }
        }
    }
    assert(ring_of(refs, coords) =~= located(ring_of(refs, arcs), vertices));
    assert(located(rotated(ids[r], k), vertices) =~= rotated(ring, k)) by {
        assert forall|i: int| 0 <= i < ring.len() implies located(rotated(ids[r], k), vertices)[i]
            == rotated(ring, k)[i] by {
            let n = ring.len() as int;
            vstd::arithmetic::div_mod::lemma_mod_bound(i + k, n);
            let m = (i + k) % n;
            assert(ids[r].len() == n);
            assert(vertices[ids[r][m] as int] == ring[m]);
        }
    }
}

} // verus!
