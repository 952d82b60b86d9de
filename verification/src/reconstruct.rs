//! Feature geometry back from a topology: each ring's arcs, possibly moved
//! since they were cut, stitched in order.

use crate::stitch::{joined, oriented, ring_of, stitched};
use crate::topology::{
    all_rings, lemma_ring_index, lemma_rings_reassemble, numberable, topology_is, Bits, Topology,
};
use crate::walks::rotated;
use vstd::prelude::*;

verus! {

/// The arcs' points.
pub open spec fn coords_view(arcs: Seq<Vec<Bits>>) -> Seq<Seq<Bits>> {
    Seq::new(arcs.len(), |a: int| arcs[a]@)
}

/// Whether every reference of a topology names one of `n` arcs, and every ring
/// index one of its rings.
pub open spec fn names_all(t: Topology, n: int) -> bool {
    &&& forall|r: int, i: int|
        #![trigger t.ring_refs@[r]@[i]]
        0 <= r < t.ring_refs@.len() && 0 <= i < t.ring_refs@[r]@.len() ==> (t.ring_refs@[r]@[i]
            / 2) < n
    &&& forall|f: int, p: int, k: int|
        #![trigger t.structure@[f]@[p]@[k]]
        0 <= f < t.structure@.len() && 0 <= p < t.structure@[f]@.len() && 0 <= k
            < t.structure@[f]@[p]@.len() ==> t.structure@[f]@[p]@[k] < t.ring_refs@.len()
}

/// A ring without the repetition of its first point at its end.
pub open spec fn opened(ring: Seq<Bits>) -> Seq<Bits> {
    if ring.len() > 1 && same_place(ring[0], ring.last()) {
        ring.drop_last()
    } else {
        ring
    }
}

/// Whether two points compare equal as numbers: both zeros are one number, and
/// NaN equals nothing.
pub open spec fn same_place(a: Bits, b: Bits) -> bool {
    same_number(a.0, b.0) && same_number(a.1, b.1)
}

/// Whether the bits of two doubles compare equal as numbers.
pub open spec fn same_number(a: u64, b: u64) -> bool {
    if crate::finder::magnitude(a) > 0x7FF0_0000_0000_0000 {
        false
    } else if crate::finder::magnitude(a) == 0 {
        crate::finder::magnitude(b) == 0
    } else {
        a == b
    }
}

/// The bits of a double without its sign.
fn magnitude_of(bits: u64) -> (m: u64)
    ensures
        m == crate::finder::magnitude(bits),
{
    if bits >= 0x8000_0000_0000_0000 {
        bits - 0x8000_0000_0000_0000
    } else {
        bits
    }
}

/// Whether the bits of two doubles compare equal as numbers.
fn numbers_equal(a: u64, b: u64) -> (same: bool)
    ensures
        same == same_number(a, b),
{
    if magnitude_of(a) > 0x7FF0_0000_0000_0000 {
        false
    } else if magnitude_of(a) == 0 {
        magnitude_of(b) == 0
    } else {
        a == b
    }
}

/// Whether two points compare equal as numbers.
pub fn places_equal(a: Bits, b: Bits) -> (same: bool)
    ensures
        same == same_place(a, b),
{
    numbers_equal(a.0, b.0) && numbers_equal(a.1, b.1)
}

/// The points after one more arc, which starts at the last point stored where
/// the two compare equal.
pub open spec fn extended(points: Seq<Bits>, arc: Seq<Bits>) -> Seq<Bits> {
    if points.len() > 0 && arc.len() > 0 && same_place(points.last(), arc[0]) {
        points + arc.skip(1)
    } else {
        points + arc
    }
}

/// The points of a ring's first `n` references, before closing.
pub open spec fn walked(refs: Seq<u32>, arcs: Seq<Seq<Bits>>, n: int) -> Seq<Bits>
    decreases n,
{
    if n <= 0 {
        Seq::empty()
    } else {
        extended(
            walked(refs, arcs, n - 1),
            oriented(arcs[(refs[n - 1] / 2) as int], refs[n - 1] % 2 == 1),
        )
    }
}

/// The points of a ring, open.
pub open spec fn ring_points_of(refs: Seq<u32>, arcs: Seq<Seq<Bits>>) -> Seq<Bits> {
    opened(walked(refs, arcs, refs.len() as int))
}

/// Whether polygons hold the stitched rings of the indices given.
pub open spec fn feature_is(
    t: Topology,
    coords: Seq<Seq<Bits>>,
    at: Seq<Vec<usize>>,
    polys: Seq<Vec<Vec<Bits>>>,
) -> bool {
    &&& polys.len() == at.len()
    &&& forall|p: int|
        0 <= p < at.len() ==> poly_is(t, coords, at[p]@, (#[trigger] polys[p])@)
}

/// Whether a polygon holds the stitched rings of the indices given.
pub open spec fn poly_is(
    t: Topology,
    coords: Seq<Seq<Bits>>,
    at: Seq<usize>,
    rings: Seq<Vec<Bits>>,
) -> bool {
    &&& rings.len() == at.len()
    &&& forall|k: int|
        0 <= k < at.len() ==> (#[trigger] rings[k])@ == ring_points_of(
            t.ring_refs@[at[k] as int]@,
            coords,
        )
}

/// Whether features are a topology's structure with every ring stitched from
/// the arcs given.
pub open spec fn features_are(
    t: Topology,
    coords: Seq<Seq<Bits>>,
    feats: Seq<Vec<Vec<Vec<Bits>>>>,
) -> bool {
    &&& feats.len() == t.structure@.len()
    &&& forall|f: int|
        0 <= f < feats.len() ==> feature_is(
            t,
            coords,
            t.structure@[f]@,
            (#[trigger] feats[f])@,
        )
}

/// One ring's points, stitched from its arcs.
fn ring_points(refs: &Vec<u32>, arcs: &[Vec<Bits>]) -> (coords: Vec<Bits>)
    requires
        forall|i: int| 0 <= i < refs@.len() ==> (#[trigger] refs@[i] / 2) < arcs@.len(),
    ensures
        coords@ == ring_points_of(refs@, coords_view(arcs@)),
{
    let ghost view = coords_view(arcs@);
    let mut coords: Vec<Bits> = Vec::new();
    let mut i: usize = 0;
    while i < refs.len()
        invariant
            i <= refs@.len(),
            forall|i: int| 0 <= i < refs@.len() ==> (#[trigger] refs@[i] / 2) < arcs@.len(),
            view == coords_view(arcs@),
            coords@ == walked(refs@, view, i as int),
        decreases refs@.len() - i,
    {
        let r: u32 = refs[i];
        let arc = &arcs[(r / 2) as usize];
        let reversed: bool = r % 2 == 1;
        let n: usize = arc.len();
        let ghost walk = oriented(arc@, reversed);
        assert(view[(r / 2) as int] == arc@);
        let skip: usize = if coords.len() > 0 && n > 0 && places_equal(
            coords[coords.len() - 1],
            if reversed {
                arc[n - 1]
            } else {
                arc[0]
            },
        ) {
            1
        } else {
            0
        };
        let ghost before = coords@;
        let mut k: usize = skip;
        while k < n
            invariant
                skip <= k <= n,
                n == arc@.len(),
                walk == oriented(arc@, reversed),
                coords@ =~= before + walk.subrange(skip as int, k as int),
            decreases n - k,
        {
            let v: Bits = if reversed {
                arc[n - 1 - k]
            } else {
                arc[k]
            };
            assert(walk[k as int] == v);
            coords.push(v);
            k = k + 1;
        }
        assert(walk.subrange(skip as int, n as int) =~= if skip == 1 {
            walk.skip(1)
        } else {
            walk
        });
        assert(coords@ =~= extended(before, walk));
        i = i + 1;
    }
    let n: usize = coords.len();
    if n > 1 && places_equal(coords[0], coords[n - 1]) {
        let ghost whole = coords@;
        coords.pop();
        assert(coords@ =~= whole.drop_last());
    }
    coords
}

impl Topology {
    /// Whether every reference and ring index is in range for `n` arcs.
    pub fn is_consistent(&self, n: usize) -> (consistent: bool)
        ensures
            consistent == names_all(*self, n as int),
    {
        let mut r: usize = 0;
        while r < self.ring_refs.len()
            invariant
                r <= self.ring_refs@.len(),
                forall|q: int, i: int|
                    #![trigger self.ring_refs@[q]@[i]]
                    0 <= q < r && 0 <= i < self.ring_refs@[q]@.len() ==> (self.ring_refs@[q]@[i]
                        / 2) < n,
            decreases self.ring_refs@.len() - r,
        {
            let refs = &self.ring_refs[r];
            let mut i: usize = 0;
            while i < refs.len()
                invariant
                    r < self.ring_refs@.len(),
                    refs == self.ring_refs@[r as int],
                    i <= refs@.len(),
                    forall|k: int| 0 <= k < i ==> (#[trigger] refs@[k] / 2) < n,
                decreases refs@.len() - i,
            {
                if (refs[i] / 2) as usize >= n {
                    assert(self.ring_refs@[r as int]@[i as int] / 2 >= n);
                    return false;
                }
                i = i + 1;
            }
            r = r + 1;
        }
        let mut f: usize = 0;
        while f < self.structure.len()
            invariant
                f <= self.structure@.len(),
                forall|q: int, i: int|
                    #![trigger self.ring_refs@[q]@[i]]
                    0 <= q < self.ring_refs@.len() && 0 <= i < self.ring_refs@[q]@.len() ==> (
                    self.ring_refs@[q]@[i] / 2) < n,
                forall|g: int, p: int, k: int|
                    #![trigger self.structure@[g]@[p]@[k]]
                    0 <= g < f && 0 <= p < self.structure@[g]@.len() && 0 <= k
                        < self.structure@[g]@[p]@.len() ==> self.structure@[g]@[p]@[k]
                        < self.ring_refs@.len(),
            decreases self.structure@.len() - f,
        {
            let polys = &self.structure[f];
            let mut p: usize = 0;
            while p < polys.len()
                invariant
                    f < self.structure@.len(),
                    polys == self.structure@[f as int],
                    p <= polys@.len(),
                    forall|q: int, k: int|
                        #![trigger polys@[q]@[k]]
                        0 <= q < p && 0 <= k < polys@[q]@.len() ==> polys@[q]@[k]
                            < self.ring_refs@.len(),
                decreases polys@.len() - p,
            {
                let rings = &polys[p];
                let mut k: usize = 0;
                while k < rings.len()
                    invariant
                        f < self.structure@.len(),
                        p < self.structure@[f as int]@.len(),
                        rings == self.structure@[f as int]@[p as int],
                        k <= rings@.len(),
                        forall|j: int| 0 <= j < k ==> #[trigger] rings@[j] < self.ring_refs@.len(),
                    decreases rings@.len() - k,
                {
                    if rings[k] >= self.ring_refs.len() {
                        assert(self.structure@[f as int]@[p as int]@[k as int]
                            >= self.ring_refs@.len());
                        return false;
                    }
                    k = k + 1;
                }
                p = p + 1;
            }
            f = f + 1;
        }
        true
    }

    /// Feature geometry from arcs that may have moved since they were cut.
    pub fn reconstruct(&self, arcs: &[Vec<Bits>]) -> (feats: Vec<Vec<Vec<Vec<Bits>>>>)
        requires
            names_all(*self, arcs@.len() as int),
        ensures
            features_are(*self, coords_view(arcs@), feats@),
    {
        let ghost coords = coords_view(arcs@);
        let mut feats: Vec<Vec<Vec<Vec<Bits>>>> = Vec::new();
        let mut f: usize = 0;
        while f < self.structure.len()
            invariant
                f <= self.structure@.len(),
                coords == coords_view(arcs@),
                names_all(*self, arcs@.len() as int),
                feats@.len() == f,
                forall|g: int|
                    0 <= g < f ==> feature_is(
                        *self,
                        coords,
                        self.structure@[g]@,
                        (#[trigger] feats@[g])@,
                    ),
            decreases self.structure@.len() - f,
        {
            let at = &self.structure[f];
            let mut polys: Vec<Vec<Vec<Bits>>> = Vec::new();
            let mut p: usize = 0;
            while p < at.len()
                invariant
                    f < self.structure@.len(),
                    at == self.structure@[f as int],
                    p <= at@.len(),
                    coords == coords_view(arcs@),
                    names_all(*self, arcs@.len() as int),
                    polys@.len() == p,
                    forall|q: int|
                        0 <= q < p ==> poly_is(*self, coords, at@[q]@, (#[trigger] polys@[q])@),
                decreases at@.len() - p,
            {
                let rings_at = &at[p];
                let mut rings: Vec<Vec<Bits>> = Vec::new();
                let mut k: usize = 0;
                while k < rings_at.len()
                    invariant
                        f < self.structure@.len(),
                        p < at@.len(),
                        at == self.structure@[f as int],
                        rings_at == at@[p as int],
                        k <= rings_at@.len(),
                        coords == coords_view(arcs@),
                        names_all(*self, arcs@.len() as int),
                        rings@.len() == k,
                        forall|j: int|
                            0 <= j < k ==> (#[trigger] rings@[j])@ == ring_points_of(
                                self.ring_refs@[rings_at@[j] as int]@,
                                coords,
                            ),
                    decreases rings_at@.len() - k,
                {
                    let r: usize = rings_at[k];
                    assert(self.structure@[f as int]@[p as int]@[k as int] == r);
                    assert forall|i: int| 0 <= i < self.ring_refs@[r as int]@.len() implies (
                    #[trigger] self.ring_refs@[r as int]@[i] / 2) < arcs@.len() by {}
                    rings.push(ring_points(&self.ring_refs[r], arcs));
                    k = k + 1;
                }
                polys.push(rings);
                p = p + 1;
            }
            feats.push(polys);
            f = f + 1;
        }
        feats
    }
}

/// Where arcs join at points with the same bits, comparing numbers stitches what
/// comparing bits does, unless a point is not a number.
proof fn lemma_walked_joined(refs: Seq<u32>, arcs: Seq<Seq<Bits>>, n: int)
    requires
        0 <= n <= refs.len(),
        joined(refs, arcs, n),
        forall|i: int|
            0 <= i < stitched(refs, arcs, n).len() ==> is_place(
                #[trigger] stitched(refs, arcs, n)[i],
            ),
    ensures
        walked(refs, arcs, n) == stitched(refs, arcs, n),
    decreases n,
{
    if n > 0 {
        let head = stitched(refs, arcs, n - 1);
        let whole = stitched(refs, arcs, n);
        assert forall|i: int| 0 <= i < head.len() implies is_place(#[trigger] head[i]) by {
            assert(head[i] == whole[i]);
        }
        lemma_walked_joined(refs, arcs, n - 1);
        if n > 1 {
            assert(is_place(head[head.len() - 1]));
        }
    }
}

/// Whether both coordinates are numbers.
pub open spec fn is_place(p: Bits) -> bool {
    same_place(p, p)
}

/// Cutting features into arcs and stitching the arcs again gives every ring
/// back, from some vertex of it on. A coordinate that is not a number equals
/// nothing, so its vertex would not join.
pub proof fn lemma_features_restored(
    t: Topology,
    feats: Seq<Vec<Vec<Vec<Bits>>>>,
    again: Seq<Vec<Vec<Vec<Bits>>>>,
    f: int,
    p: int,
    k: int,
)
    requires
        numberable(feats),
        topology_is(t, feats),
        features_are(t, coords_view(t.arc_coords@), again),
        0 <= f < feats.len(),
        0 <= p < feats[f]@.len(),
        0 <= k < feats[f]@[p]@.len(),
        forall|i: int|
            0 <= i < feats[f]@[p]@[k]@.len() ==> is_place(#[trigger] feats[f]@[p]@[k]@[i]),
    ensures
        again.len() == feats.len(),
        again[f]@.len() == feats[f]@.len(),
        again[f]@[p]@.len() == feats[f]@[p]@.len(),
        ({
            let ring = feats[f]@[p]@[k]@;
            exists|j: int|
                (ring.len() > 0 ==> 0 <= j < ring.len()) && again[f]@[p]@[k]@ == #[trigger] rotated(
                    ring,
                    j,
                )
        }),
{
    let n = feats.len() as int;
    let at = crate::sift::structure_view(t.structure@);
    assert(at == crate::topology::structure_of(feats, n));
    assert(at.len() == feats.len());
    assert(at[f] == crate::topology::feature_indices(feats[f]@, all_rings(feats, f).len() as int));
    assert(at[f].len() == feats[f]@.len());
    assert(at[f] == crate::sift::feature_view(t.structure@[f]@));
    assert(at[f][p] == crate::sift::poly_view(t.structure@[f]@[p]@));
    assert(at[f][p].len() == feats[f]@[p]@.len());
    let r = at[f][p][k];
    assert(r == t.structure@[f]@[p]@[k]);
    lemma_ring_index(feats, f, p, k);
    lemma_rings_reassemble(t, feats, r);
    assert(feature_is(t, coords_view(t.arc_coords@), t.structure@[f]@, again[f]@));
    assert(poly_is(t, coords_view(t.arc_coords@), t.structure@[f]@[p]@, again[f]@[p]@));
    let coords = coords_view(t.arc_coords@);
    assert(coords =~= Seq::new(t.arc_coords@.len(), |a: int| t.arc_coords@[a]@));
    let ring = feats[f]@[p]@[k]@;
    let refs = t.ring_refs@[r]@;
    let path = stitched(refs, coords, refs.len() as int);
    let j = choose|j: int|
        (ring.len() > 0 ==> 0 <= j < ring.len()) && ring_of(refs, coords) == #[trigger] rotated(
            ring,
            j,
        );
    assert forall|i: int| 0 <= i < path.len() implies is_place(#[trigger] path[i]) by {
        assert forall|m: int| 0 <= m < path.len() - 1 implies is_place(#[trigger] path[m]) by {
            let turned = rotated(ring, j);
            assert(turned == path.drop_last());
            assert(turned.len() == ring.len());
            let at = (m + j) % (ring.len() as int);
            vstd::arithmetic::div_mod::lemma_mod_bound(m + j, ring.len() as int);
            assert(turned[m] == ring[at]);
            assert(is_place(feats[f]@[p]@[k]@[at]));
        }
        assert(is_place(path[0]));
    }
    lemma_walked_joined(refs, coords, refs.len() as int);
    assert(opened(path) == ring_of(refs, coords));
}

/// Drops the closing point of a source ring.
pub fn strip_close(ring: Vec<Bits>) -> (open: Vec<Bits>)
    ensures
        open@ == opened(ring@),
{
    let mut ring = ring;
    let n: usize = ring.len();
    if n > 1 && places_equal(ring[0], ring[n - 1]) {
        let ghost whole = ring@;
        ring.pop();
        assert(ring@ =~= whole.drop_last());
    }
    ring
}

/// Doubles compare equal where their bits are the same, or both are a zero of
/// either sign, and neither is no number.
pub proof fn lemma_equal_numbers(a: u64, b: u64)
    ensures
        ({
            let (e, m) = (a as int / 0x10_0000_0000_0000 % 2048, a as int % 0x10_0000_0000_0000);
            let zero = |x: u64| x == 0 || x == 0x8000_0000_0000_0000;
            same_number(a, b) <==> !(e == 2047 && m != 0) && (a == b || (zero(a) && zero(b)))
        }),
        same_number(a, b) == same_number(b, a),
{
}

/// A ring loses its last point where that is its first again, and nothing else.
pub proof fn lemma_opening_drops_the_repeat(ring: Seq<Bits>)
    ensures
        ring.len() >= 2 && same_place(ring[0], ring[ring.len() - 1]) ==> opened(ring) == ring.take(
            ring.len() - 1,
        ),
        !(ring.len() >= 2 && same_place(ring[0], ring[ring.len() - 1])) ==> opened(ring) == ring,
{
    if ring.len() >= 2 {
        assert(ring.drop_last() =~= ring.take(ring.len() - 1));
    }
}

} // verus!
