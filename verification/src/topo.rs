//! Shared-arc topology: rings cut into arcs at junctions, each arc stored
//! once, every ring a list of signed arc references.
//!
//! A junction is a vertex where the set of rings that own the border changes.
//! Points are pairs of `f64` bit patterns: vertices are shared where they are
//! bit-exact.

use std::collections::HashMap;

use vstd::prelude::*;
use vstd::std_specs::hash::group_hash_axioms;

use crate::lex::{lex_le, walk_le, same_walk};
use crate::owners::{edge_of, owner_set, rings_view, EdgeOwners};
use crate::pool::{
    distinct, lemma_pool_grows, lemma_pool_of, lemma_pool_prefix, lemma_pool_source, lemma_pooled,
    lemma_position_is, lemma_position_stays, pool_of, pooled, position,
};
use crate::stitch::{append_spec, joined, oriented, ring_of, stitched};
use crate::walks::{
    canon, canonical_walk, closed_walk, lemma_next, lemma_same_cycle_stored_alike,
    lemma_stored_least, reversed, rotated, same_cycle, start_from,
};

verus! {

/// Whether vertex `i` of ring `r` is a junction: the rings that own the edge
/// into it are not those that own the edge out of it.
pub open spec fn is_cut(rings: Seq<Seq<u32>>, r: int, i: int) -> bool {
    let ring = rings[r];
    let n = ring.len() as int;
    let before = edge_of(ring[(i + n - 1) % n], ring[i]);
    let after = edge_of(ring[i], ring[(i + 1) % n]);
    owner_set(rings, before) != owner_set(rings, after)
}

/// The junctions among the first `n` vertices of ring `r`, in order.
pub open spec fn cuts_of(rings: Seq<Seq<u32>>, r: int, n: int) -> Seq<int>
    decreases n,
{
    if n <= 0 {
        Seq::empty()
    } else if is_cut(rings, r, n - 1) {
        cuts_of(rings, r, n - 1).push(n - 1)
    } else {
        cuts_of(rings, r, n - 1)
    }
}

/// The vertices of a ring from `s` around to `e`, both included.
pub open spec fn span(ring: Seq<u32>, s: int, e: int) -> Seq<u32> {
    let n = ring.len() as int;
    Seq::new(((e - s) % n + 1) as nat, |k: int| ring[(s + k) % n])
}

/// The walks ring `r` is cut into: from junction to junction, or the whole
/// ring where it has none.
pub open spec fn pieces(rings: Seq<Seq<u32>>, r: int) -> Seq<Seq<u32>> {
    let ring = rings[r];
    let cuts = cuts_of(rings, r, ring.len() as int);
    if ring.len() == 0 {
        Seq::empty()
    } else if cuts.len() == 0 {
        seq![closed_walk(ring)]
    } else {
        Seq::new(
            cuts.len(),
            |j: int| span(ring, cuts[j], cuts[(j + 1) % (cuts.len() as int)]),
        )
    }
}

/// The stored forms of the pieces of the first `n` rings, in order.
pub open spec fn stored_pieces(rings: Seq<Seq<u32>>, n: int) -> Seq<Seq<u32>>
    decreases n,
{
    if n <= 0 {
        Seq::empty()
    } else {
        stored_pieces(rings, n - 1) + canons(pieces(rings, n - 1))
    }
}

/// The stored forms of walks.
pub open spec fn canons(walks: Seq<Seq<u32>>) -> Seq<Seq<u32>> {
    Seq::new(walks.len(), |j: int| canon(walks[j]))
}

/// The arcs of the first `n` rings: each stored form once, in order of first
/// appearance.
pub open spec fn arcs_upto(rings: Seq<Seq<u32>>, n: int) -> Seq<Seq<u32>> {
    pool_of(stored_pieces(rings, n), stored_pieces(rings, n).len() as int)
}

/// The arcs of all rings.
pub open spec fn arcs_of(rings: Seq<Seq<u32>>) -> Seq<Seq<u32>> {
    arcs_upto(rings, rings.len() as int)
}

/// The reference to a walk: its stored form's arc id shifted left by one, the
/// low bit set where the walk runs against the stored form.
pub open spec fn ref_of(arcs: Seq<Seq<u32>>, w: Seq<u32>) -> int {
    2 * position(arcs, canon(w)) + if lex_le(w, w.reverse()) {
        0int
    } else {
        1int
    }
}

/// Whether these are the references of ring `r`.
pub open spec fn refs_are(rings: Seq<Seq<u32>>, arcs: Seq<Seq<u32>>, r: int, refs: Seq<u32>) -> bool {
    &&& refs.len() == pieces(rings, r).len()
    &&& forall|j: int|
        0 <= j < refs.len() ==> #[trigger] refs[j] == ref_of(arcs, pieces(rings, r)[j])
}

pub proof fn lemma_cuts(rings: Seq<Seq<u32>>, r: int, n: int)
    requires
        0 <= n,
    ensures
        cuts_of(rings, r, n).len() <= n,
        forall|j: int|
            0 <= j < cuts_of(rings, r, n).len() ==> 0 <= #[trigger] cuts_of(rings, r, n)[j] < n,
        forall|i: int, j: int|
            0 <= i < j < cuts_of(rings, r, n).len() ==> (#[trigger] cuts_of(rings, r, n)[i]) < (
            #[trigger] cuts_of(rings, r, n)[j]),
        forall|i: int|
            0 <= i < n && is_cut(rings, r, i) ==> #[trigger] cuts_of(rings, r, n).contains(i),
        forall|j: int|
            0 <= j < cuts_of(rings, r, n).len() ==> is_cut(rings, r, #[trigger] cuts_of(
                rings,
                r,
                n,
            )[j]),
    decreases n,
{
    if n > 0 {
        lemma_cuts(rings, r, n - 1);
        let a = cuts_of(rings, r, n - 1);
        let b = cuts_of(rings, r, n);
        assert forall|i: int| 0 <= i < n && is_cut(rings, r, i) implies #[trigger] b.contains(i) by {
            if i < n - 1 {
                assert(a.contains(i));
                let j = choose|j: int| 0 <= j < a.len() && a[j] == i;
                assert(b[j] == i);
            } else {
                assert(b[b.len() - 1] == i);
            }
        }
    }
}

/// Finds the junctions of ring `r`.
fn find_cuts(ring: &Vec<u32>, owners: &EdgeOwners, rings: Ghost<Seq<Seq<u32>>>, r: Ghost<int>) -> (
    cuts: Vec<usize>)
    requires
        owners.indexes(rings@),
        0 <= r@ < rings@.len(),
        rings@[r@] == ring@,
    ensures
        cuts@.len() == cuts_of(rings@, r@, ring@.len() as int).len(),
        forall|j: int|
            0 <= j < cuts@.len() ==> #[trigger] cuts@[j] == cuts_of(
                rings@,
                r@,
                ring@.len() as int,
            )[j],
{
    let n = ring.len();
    let mut cuts: Vec<usize> = Vec::new();
    let mut i: usize = 0;
    while i < n
        invariant
            i <= n,
            n == ring@.len(),
            owners.indexes(rings@),
            0 <= r@ < rings@.len(),
            rings@[r@] == ring@,
            cuts@.len() == cuts_of(rings@, r@, i as int).len(),
            forall|j: int|
                0 <= j < cuts@.len() ==> #[trigger] cuts@[j] == cuts_of(rings@, r@, i as int)[j],
        decreases n - i,
    {
        let prev = if i == 0 {
            n - 1
        } else {
            i - 1
        };
        let next = if i + 1 == n {
            0
        } else {
            i + 1
        };
        proof {
            let m = n as int;
            if i == 0 {
                vstd::arithmetic::div_mod::lemma_small_mod((m - 1) as nat, m as nat);
            } else {
                vstd::arithmetic::div_mod::lemma_mod_add_multiples_vanish(i - 1, m);
                vstd::arithmetic::div_mod::lemma_small_mod((i - 1) as nat, m as nat);
                assert(i + m - 1 == m + (i - 1));
            }
            lemma_next(i as int, m);
            vstd::arithmetic::div_mod::lemma_small_mod(i as nat, m as nat);
            assert(prev as int == (i + m - 1) % m);
            assert(next as int == (i + 1) % m);
        }
        let same = owners.same_owners(ring[prev], ring[i], ring[i], ring[next], rings);
        if !same {
            cuts.push(i);
        }
        i = i + 1;
    }
    cuts
}

/// Copies the vertices of a ring from `s` around to `e`.
fn copy_span(ring: &Vec<u32>, s: usize, e: usize) -> (a: Vec<u32>)
    requires
        s < ring@.len(),
        e < ring@.len(),
    ensures
        a@ == span(ring@, s as int, e as int),
{
    let n = ring.len();
    let len = if e >= s {
        e - s
    } else {
        e + (n - s)
    };
    proof {
        let m = n as int;
        if e >= s {
            vstd::arithmetic::div_mod::lemma_small_mod((e - s) as nat, m as nat);
        } else {
            vstd::arithmetic::div_mod::lemma_mod_add_multiples_vanish(e - s, m);
            vstd::arithmetic::div_mod::lemma_small_mod((e - s + m) as nat, m as nat);
            assert((m + (e - s)) % m == (e - s) % m);
        }
        vstd::arithmetic::div_mod::lemma_small_mod(s as nat, m as nat);
    }
    let mut a: Vec<u32> = Vec::new();
    let mut at: usize = s;
    let mut k: usize = 0;
    while k <= len
        invariant
            n == ring@.len(),
            s < n,
            len < n,
            k <= len + 1,
            at < n,
            at as int == (s + k) % (n as int),
            a@.len() == k,
            forall|j: int| 0 <= j < k ==> #[trigger] a@[j] == ring@[(s + j) % (n as int)],
        decreases len + 1 - k,
    {
        a.push(ring[at]);
        proof {
            lemma_next(s + k, n as int);
        }
        at = if at + 1 == n {
            0
        } else {
            at + 1
        };
        k = k + 1;
    }
    assert(a@ =~= span(ring@, s as int, e as int));
    a
}

/// A number walks are looked up by: their first two vertices.
spec fn walk_key(w: Seq<u32>) -> u64 {
    let first: int = if w.len() > 0 { w[0] as int } else { 0 };
    let second: int = if w.len() > 1 { w[1] as int } else { 0 };
    (first * 0x1_0000_0000 + second) as u64
}

fn key_of(w: &Vec<u32>) -> (key: u64)
    ensures
        key == walk_key(w@),
{
    let first: u64 = if w.len() > 0 {
        w[0] as u64
    } else {
        0
    };
    let second: u64 = if w.len() > 1 {
        w[1] as u64
    } else {
        0
    };
    first * 0x1_0000_0000 + second
}

/// Arcs stored once each, found by their first two vertices.
struct ArcPool {
    slots: HashMap<u64, usize>,
    buckets: Vec<Vec<u32>>,
    arcs: Vec<Vec<u32>>,
}

impl ArcPool {
    /// Whether arc `i` is in the bucket it is looked up by.
    spec fn filed(self, i: int) -> bool {
        let k = walk_key(self.arcs@[i]@);
        self.slots@.dom().contains(k) && self.buckets@[self.slots@[k] as int]@.contains(i as u32)
    }

    /// Whether every arc is found and stored once.
    spec fn wf(self) -> bool {
        &&& self.arcs@.len() <= 0x8000_0000
        &&& distinct(rings_view(self.arcs@))
        &&& forall|k: u64| #[trigger]
            self.slots@.dom().contains(k) ==> self.slots@[k] < self.buckets@.len()
        &&& forall|s: int, j: int|
            0 <= s < self.buckets@.len() && 0 <= j < self.buckets@[s]@.len() ==> (
            #[trigger] self.buckets@[s]@[j]) < self.arcs@.len()
        &&& forall|i: int| 0 <= i < self.arcs@.len() ==> #[trigger] self.filed(i)
    }

    /// The id of a stored form, adding it where it is new.
    fn add(&mut self, w: Vec<u32>) -> (id: u32)
        requires
            old(self).wf(),
            old(self).arcs@.len() < 0x8000_0000,
        ensures
            final(self).wf(),
            rings_view(final(self).arcs@) == pooled(rings_view(old(self).arcs@), w@),
            id == position(rings_view(old(self).arcs@), w@),
            id < final(self).arcs@.len(),
    {
        broadcast use group_hash_axioms;

        let ghost before = *self;
        let ghost av = rings_view(self.arcs@);
        let key = key_of(&w);
        let slot: Option<usize> = match self.slots.get(&key) {
            Some(s) => Some(*s),
            None => None,
        };
        let s = match slot {
            Some(s) => s,
            None => {
                let s = self.buckets.len();
                self.buckets.push(Vec::new());
                self.slots.insert(key, s);
                proof {
                    assert forall|i: int| 0 <= i < self.arcs@.len() implies #[trigger] self.filed(
                        i,
                    ) by {
                        assert(before.filed(i));
                    }
                    assert forall|t: int, j: int|
                        0 <= t < self.buckets@.len() && 0 <= j < self.buckets@[t]@.len() implies (
                    #[trigger] self.buckets@[t]@[j]) < self.arcs@.len() by {
                        assert(t < before.buckets@.len());
                        assert(before.buckets@[t]@[j] < before.arcs@.len());
                    }
                }
                s
            },
        };
        let ghost mid = *self;
        assert(mid.wf());
        let n = self.buckets[s].len();
        let mut j: usize = 0;
        while j < n
            invariant
                j <= n,
                n == self.buckets@[s as int]@.len(),
                s < self.buckets@.len(),
                *self == mid,
                mid.wf(),
                av == rings_view(mid.arcs@),
                av == rings_view(old(self).arcs@),
                forall|i: int| 0 <= i < j ==> av[#[trigger] mid.buckets@[s as int]@[i] as int] != w@,
            decreases n - j,
        {
            let id = self.buckets[s][j];
            assert(mid.buckets@[s as int]@[j as int] < mid.arcs@.len());
            assert(av[id as int] == mid.arcs@[id as int]@);
            if same_walk(&self.arcs[id as usize], &w) {
                proof {
                    assert forall|i: int| 0 <= i < id implies av[i] != w@ by {
                        assert(av[i] != av[id as int]);
                    }
                    lemma_position_is(av, w@, id as int);
                }
                return id;
            }
            j = j + 1;
        }
        proof {
            assert forall|i: int| 0 <= i < av.len() implies av[i] != w@ by {
                if av[i] == w@ {
                    assert(mid.filed(i));
                    assert(mid.arcs@[i]@ == w@);
                    let bucket = mid.buckets@[s as int]@;
                    assert(bucket.contains(i as u32));
                    let k = choose|k: int| 0 <= k < bucket.len() && bucket[k] == i as u32;
                    assert(av[mid.buckets@[s as int]@[k] as int] != w@);
                }
            }
            lemma_position_is(av, w@, av.len() as int);
        }
        let id = self.arcs.len() as u32;
        let ghost added = w@;
        self.buckets[s].push(id);
        self.arcs.push(w);
        proof {
            assert(rings_view(self.arcs@) =~= av.push(added));
            lemma_pooled(av, added);
            assert forall|t: int, k: int|
                0 <= t < self.buckets@.len() && 0 <= k < self.buckets@[t]@.len() implies (
            #[trigger] self.buckets@[t]@[k]) < self.arcs@.len() by {
                if t != s {
                    assert(mid.buckets@[t]@[k] < mid.arcs@.len());
                } else if k < n {
                    assert(mid.buckets@[t]@[k] < mid.arcs@.len());
                }
            }
            assert forall|i: int| 0 <= i < self.arcs@.len() implies #[trigger] self.filed(i) by {
                if i < av.len() {
                    assert(mid.filed(i));
                    assert(self.arcs@[i] == mid.arcs@[i]);
                    let k = walk_key(self.arcs@[i]@);
                    let t = mid.slots@[k] as int;
                    let b0 = mid.buckets@[t]@;
                    let b1 = self.buckets@[t]@;
                    let m = choose|m: int| 0 <= m < b0.len() && b0[m] == i as u32;
                    assert(b1[m] == i as u32);
                } else {
                    assert(self.buckets@[s as int]@[n as int] == i as u32);
                }
            }
        }
        id
    }

    /// The reference to a walk, storing it where it is new.
    fn intern(&mut self, w: Vec<u32>) -> (r: u32)
        requires
            old(self).wf(),
            old(self).arcs@.len() < 0x8000_0000,
        ensures
            final(self).wf(),
            rings_view(final(self).arcs@) == pooled(rings_view(old(self).arcs@), canon(w@)),
            r == ref_of(rings_view(final(self).arcs@), w@),
    {
        let ghost av = rings_view(self.arcs@);
        let ghost walk = w@;
        let rev = reversed(&w);
        let forward = walk_le(&w, &rev);
        let id = if forward {
            self.add(w)
        } else {
            self.add(rev)
        };
        proof {
            lemma_pooled(av, canon(walk));
        }
        if forward {
            2 * id
        } else {
            2 * id + 1
        }
    }
}

proof fn lemma_pool_push<T>(s: Seq<T>, x: T)
    ensures
        pool_of(s.push(x), s.len() as int + 1) == pooled(pool_of(s, s.len() as int), x),
{
    lemma_pool_prefix(s.push(x), s, s.len() as int);
}

/// The pieces of ring `r`, copied.
fn cut_ring(ring: &Vec<u32>, owners: &EdgeOwners, rings: Ghost<Seq<Seq<u32>>>, r: Ghost<int>) -> (
    out: Vec<Vec<u32>>)
    requires
        owners.indexes(rings@),
        0 <= r@ < rings@.len(),
        rings@[r@] == ring@,
    ensures
        rings_view(out@) == pieces(rings@, r@),
        out@.len() <= ring@.len(),
{
    let n = ring.len();
    let mut out: Vec<Vec<u32>> = Vec::new();
    if n == 0 {
        assert(rings_view(out@) =~= pieces(rings@, r@));
        return out;
    }
    let cuts = find_cuts(ring, owners, rings, r);
    let ghost spec_cuts = cuts_of(rings@, r@, n as int);
    proof {
        lemma_cuts(rings@, r@, n as int);
    }
    let m = cuts.len();
    if m == 0 {
        out.push(canonical_walk(ring));
        assert(rings_view(out@) =~= pieces(rings@, r@));
        return out;
    }
    let mut j: usize = 0;
    while j < m
        invariant
            j <= m,
            m == cuts@.len(),
            0 < n,
            n == ring@.len(),
            spec_cuts.len() == m,
            forall|i: int| 0 <= i < m ==> #[trigger] cuts@[i] == spec_cuts[i],
            forall|i: int| 0 <= i < m ==> 0 <= #[trigger] spec_cuts[i] < n,
            out@.len() == j,
            forall|i: int|
                0 <= i < j ==> (#[trigger] out@[i])@ == span(
                    ring@,
                    spec_cuts[i],
                    spec_cuts[(i + 1) % (m as int)],
                ),
        decreases m - j,
    {
        let k = if j + 1 == m {
            0
        } else {
            j + 1
        };
        proof {
            lemma_next(j as int, m as int);
            vstd::arithmetic::div_mod::lemma_small_mod(j as nat, m as nat);
            assert(spec_cuts[j as int] < n && spec_cuts[k as int] < n);
        }
        out.push(copy_span(ring, cuts[j], cuts[k]));
        j = j + 1;
    }
    assert(rings_view(out@) =~= pieces(rings@, r@));
    out
}

/// The vertices of the first `n` rings, counted.
pub open spec fn ring_verts(rings: Seq<Seq<u32>>, n: int) -> nat
    decreases n,
{
    if n <= 0 {
        0
    } else {
        ring_verts(rings, n - 1) + rings[n - 1].len()
    }
}

proof fn lemma_ring_verts_grow(rings: Seq<Seq<u32>>, m: int, n: int)
    requires
        0 <= m <= n <= rings.len(),
    ensures
        ring_verts(rings, m) <= ring_verts(rings, n),
    decreases n - m,
{
    if m < n {
        lemma_ring_verts_grow(rings, m, n - 1);
    }
}

/// Cuts all rings into arcs at their junctions and stores each arc once.
pub fn cut_rings(rings: &Vec<Vec<u32>>) -> (out: (Vec<Vec<u32>>, Vec<Vec<u32>>))
    requires
        rings@.len() <= u32::MAX,
        ring_verts(rings_view(rings@), rings@.len() as int) < 0x8000_0000,
    ensures
        rings_view(out.0@) == arcs_of(rings_view(rings@)),
        out.1@.len() == rings@.len(),
        forall|r: int|
            0 <= r < rings@.len() ==> refs_are(
                rings_view(rings@),
                arcs_of(rings_view(rings@)),
                r,
                (#[trigger] out.1@[r])@,
            ),
{
    broadcast use group_hash_axioms;

    let ghost rv = rings_view(rings@);
    let ghost all = stored_pieces(rv, rv.len() as int);
    let owners = EdgeOwners::of(rings);
    let mut pool = ArcPool { slots: HashMap::new(), buckets: Vec::new(), arcs: Vec::new() };
    let mut ring_refs: Vec<Vec<u32>> = Vec::new();
    let mut r: usize = 0;
    assert(rings_view(pool.arcs@) =~= arcs_upto(rv, 0));
    while r < rings.len()
        invariant
            r <= rings@.len(),
            rv == rings_view(rings@),
            owners.indexes(rv),
            all == stored_pieces(rv, rv.len() as int),
            ring_verts(rv, rv.len() as int) < 0x8000_0000,
            pool.wf(),
            rings_view(pool.arcs@) == arcs_upto(rv, r as int),
            pool.arcs@.len() <= ring_verts(rv, r as int),
            ring_refs@.len() == r,
            forall|k: int|
                0 <= k < r ==> refs_are(
                    rv,
                    arcs_of(rv),
                    k,
                    (#[trigger] ring_refs@[k])@,
                ),
        decreases rings@.len() - r,
    {
        let ring = &rings[r];
        assert(rv[r as int] == ring@);
        let walks = cut_ring(ring, &owners, Ghost(rv), Ghost(r as int));
        proof {
            lemma_ring_verts_grow(rv, r as int + 1, rv.len() as int);
        }
        let refs = intern_all(&mut pool, walks, Ghost(rv), Ghost(r as int));
        ring_refs.push(refs);
        r = r + 1;
    }
    (pool.arcs, ring_refs)
}

proof fn lemma_stored_prefix(rings: Seq<Seq<u32>>, m: int, n: int)
    requires
        0 <= m <= n <= rings.len(),
    ensures
        stored_pieces(rings, m).len() <= stored_pieces(rings, n).len(),
        forall|i: int|
            0 <= i < stored_pieces(rings, m).len() ==> stored_pieces(rings, n)[i] == stored_pieces(
                rings,
                m,
            )[i],
    decreases n - m,
{
    if m < n {
        lemma_stored_prefix(rings, m, n - 1);
    }
}

/// Stores the pieces of ring `r` and gives their references.
fn intern_all(
    pool: &mut ArcPool,
    walks: Vec<Vec<u32>>,
    rings: Ghost<Seq<Seq<u32>>>,
    r: Ghost<int>,
) -> (refs: Vec<u32>)
    requires
        old(pool).wf(),
        0 <= r@ < rings@.len(),
        rings_view(walks@) == pieces(rings@, r@),
        rings_view(old(pool).arcs@) == arcs_upto(rings@, r@),
        old(pool).arcs@.len() + walks@.len() < 0x8000_0000,
    ensures
        final(pool).wf(),
        rings_view(final(pool).arcs@) == arcs_upto(rings@, r@ + 1),
        final(pool).arcs@.len() <= old(pool).arcs@.len() + walks@.len(),
        refs_are(rings@, arcs_of(rings@), r@, refs@),
{
    let ghost whole = arcs_of(rings@);
    let ghost stored = stored_pieces(rings@, r@);
    let ghost more = canons(pieces(rings@, r@));
    let ghost count0 = pool.arcs@.len();
    let mut walks = walks;
    let ghost walks0 = rings_view(walks@);
    let m = walks.len();
    let mut refs: Vec<u32> = Vec::new();
    let mut j: usize = 0;
    proof {
        assert(stored + more.take(0) =~= stored);
    }
    while j < m
        invariant
            j <= m,
            m == walks@.len(),
            walks0.len() == m,
            walks0 == pieces(rings@, r@),
            0 <= r@ < rings@.len(),
            whole == arcs_of(rings@),
            stored == stored_pieces(rings@, r@),
            more == canons(walks0),
            forall|i: int| j <= i < m ==> (#[trigger] walks@[i])@ == walks0[i],
            pool.wf(),
            pool.arcs@.len() <= count0 + j,
            count0 + m < 0x8000_0000,
            rings_view(pool.arcs@) == pool_of(stored + more.take(j as int), stored.len() + j),
            refs@.len() == j,
            forall|i: int| 0 <= i < j ==> #[trigger] refs@[i] == ref_of(whole, walks0[i]),
        decreases m - j,
    {
        let mut w: Vec<u32> = Vec::new();
        std::mem::swap(&mut w, &mut walks[j]);
        assert(w@ == walks0[j as int]);
        let ghost walk = w@;
        let ghost prior = rings_view(pool.arcs@);
        let x = pool.intern(w);
        proof {
            let seen = stored + more.take(j as int);
            assert(more[j as int] == canon(walk));
            assert(stored + more.take(j as int + 1) =~= seen.push(canon(walk)));
            lemma_pool_push(seen, canon(walk));
            lemma_pooled(prior, canon(walk));
            // the walk's position stays as more rings are cut
            let now = rings_view(pool.arcs@);
            let all = stored_pieces(rings@, rings@.len() as int);
            let upto = stored + more;
            assert(upto == stored_pieces(rings@, r@ + 1));
            lemma_stored_prefix(rings@, r@ + 1, rings@.len() as int);
            let k = stored.len() + j + 1;
            assert forall|i: int| 0 <= i < k implies all[i] == (stored + more.take(
                j as int + 1,
            ))[i] by {
                assert(all[i] == upto[i]);
            }
            lemma_pool_prefix(all, stored + more.take(j as int + 1), k as int);
            lemma_pool_grows(all, k as int, all.len() as int);
            lemma_position_stays(now, whole, canon(walk));
        }
        refs.push(x);
        j = j + 1;
    }
    proof {
        assert(more.take(m as int) =~= more);
    }
    refs
}

/// The owners of the edge out of vertex `i`.
spec fn owners_after(rings: Seq<Seq<u32>>, r: int, i: int) -> Set<int> {
    let ring = rings[r];
    owner_set(rings, edge_of(ring[i], ring[(i + 1) % (ring.len() as int)]))
}

proof fn lemma_owners_run(rings: Seq<Seq<u32>>, r: int, c: int, k: int)
    requires
        0 <= r < rings.len(),
        0 <= c < rings[r].len(),
        0 <= k < rings[r].len(),
        forall|i: int|
            0 <= i < rings[r].len() && i != c ==> !is_cut(rings, r, i),
    ensures
        owners_after(rings, r, (c + k) % (rings[r].len() as int)) == owners_after(rings, r, c),
    decreases k,
{
    let n = rings[r].len() as int;
    vstd::arithmetic::div_mod::lemma_small_mod(c as nat, n as nat);
    if k > 0 {
        lemma_owners_run(rings, r, c, k - 1);
        let i = (c + k) % n;
        lemma_next(c + k - 1, n);
        let p = (c + k - 1) % n;
        assert(i != c) by {
            if i == c {
                vstd::arithmetic::div_mod::lemma_fundamental_div_mod(c + k, n);
                let q = (c + k) / n;
                assert(q == 0 || q >= 1 || q <= -1);
                assert(false) by (nonlinear_arith)
                    requires
                        c + k == n * q + c,
                        0 < k < n,
                ;
            }
        }
        assert(!is_cut(rings, r, i));
        assert((i + n - 1) % n == p) by {
            if i == 0 {
                vstd::arithmetic::div_mod::lemma_small_mod((n - 1) as nat, n as nat);
            } else {
                vstd::arithmetic::div_mod::lemma_mod_add_multiples_vanish(i - 1, n);
                vstd::arithmetic::div_mod::lemma_small_mod((i - 1) as nat, n as nat);
                assert(i + n - 1 == n + (i - 1));
            }
        }
        assert((p + 1) % n == i) by {
            vstd::arithmetic::div_mod::lemma_add_mod_noop(c + k - 1, 1, n);
            lemma_next(p, n);
            vstd::arithmetic::div_mod::lemma_small_mod(p as nat, n as nat);
        }
    }
}

/// The owners cannot change just once around a ring.
pub proof fn lemma_no_single_cut(rings: Seq<Seq<u32>>, r: int)
    requires
        0 <= r < rings.len(),
    ensures
        cuts_of(rings, r, rings[r].len() as int).len() != 1,
{
    let n = rings[r].len() as int;
    let cuts = cuts_of(rings, r, n);
    lemma_cuts(rings, r, n);
    if cuts.len() == 1 {
        let c = cuts[0];
        assert(0 <= c < n && is_cut(rings, r, c));
        assert forall|i: int| 0 <= i < n && i != c implies !is_cut(rings, r, i) by {
            if is_cut(rings, r, i) {
                assert(cuts.contains(i));
            }
        }
        lemma_owners_run(rings, r, c, n - 1);
        let p = (c + n - 1) % n;
        assert((p + 1) % n == c) by {
            lemma_next(c + n - 1, n);
            vstd::arithmetic::div_mod::lemma_mod_add_multiples_vanish(c, n);
            vstd::arithmetic::div_mod::lemma_small_mod(c as nat, n as nat);
            assert(c + n - 1 + 1 == n + c);
            vstd::arithmetic::div_mod::lemma_add_mod_noop(c + n - 1, 1, n);
            lemma_next(p, n);
            vstd::arithmetic::div_mod::lemma_small_mod(p as nat, n as nat);
        }
        assert(false);
    }
}

/// A walk is its stored form in the direction its reference says.
pub proof fn lemma_ref_walks(arcs: Seq<Seq<u32>>, w: Seq<u32>, r: u32)
    requires
        r == ref_of(arcs, w),
        0 <= position(arcs, canon(w)) < arcs.len(),
        arcs[position(arcs, canon(w))] == canon(w),
    ensures
        oriented(arcs[(r / 2) as int], r % 2 == 1) == w,
{
    assert(w.reverse().reverse() =~= w);
}

/// Every piece of every ring is found among the arcs.
pub proof fn lemma_piece_stored(rings: Seq<Seq<u32>>, r: int, j: int)
    requires
        0 <= r < rings.len(),
        0 <= j < pieces(rings, r).len(),
    ensures
        ({
            let arcs = arcs_of(rings);
            let c = canon(pieces(rings, r)[j]);
            &&& 0 <= position(arcs, c) < arcs.len()
            &&& arcs[position(arcs, c)] == c
        }),
{
    let all = stored_pieces(rings, rings.len() as int);
    let upto = stored_pieces(rings, r + 1);
    lemma_stored_prefix(rings, r + 1, rings.len() as int);
    let i = stored_pieces(rings, r).len() + j;
    assert(upto[i as int] == canons(pieces(rings, r))[j]);
    assert(all[i as int] == upto[i as int]);
    lemma_pool_of(all, all.len() as int);
    assert(all[i as int] == canon(pieces(rings, r)[j]));
}

/// Every reference of a ring names an arc.
pub proof fn lemma_refs_name_arcs(rings: Seq<Seq<u32>>, r: int, refs: Seq<u32>)
    requires
        0 <= r < rings.len(),
        refs_are(rings, arcs_of(rings), r, refs),
    ensures
        forall|j: int| 0 <= j < refs.len() ==> (#[trigger] refs[j] / 2) < arcs_of(rings).len(),
{
    assert forall|j: int| 0 <= j < refs.len() implies (#[trigger] refs[j] / 2) < arcs_of(
        rings,
    ).len() by {
        lemma_piece_stored(rings, r, j);
        assert(refs[j] == ref_of(arcs_of(rings), pieces(rings, r)[j]));
    }
}

/// The first `len` vertices of a ring from `c` on, wrapping.
spec fn run_from(ring: Seq<u32>, c: int, len: int) -> Seq<u32> {
    Seq::new(len as nat, |k: int| ring[(c + k) % (ring.len() as int)])
}

/// How far junction `j` lies behind the first; `m` junctions make a full turn.
spec fn turned(cuts: Seq<int>, n: int, j: int) -> int {
    if j >= cuts.len() {
        n
    } else {
        cuts[j] - cuts[0]
    }
}

proof fn lemma_stitch_run(rings: Seq<Seq<u32>>, r: int, refs: Seq<u32>, j: int)
    requires
        0 <= r < rings.len(),
        rings[r].len() > 0,
        refs_are(rings, arcs_of(rings), r, refs),
        cuts_of(rings, r, rings[r].len() as int).len() >= 2,
        1 <= j <= refs.len(),
    ensures
        ({
            let ring = rings[r];
            let n = ring.len() as int;
            let cuts = cuts_of(rings, r, n);
            stitched(refs, arcs_of(rings), j) == run_from(ring, cuts[0], turned(cuts, n, j) + 1)
        }),
        joined(refs, arcs_of(rings), j),
    decreases j,
{
    let ring = rings[r];
    let n = ring.len() as int;
    let cuts = cuts_of(rings, r, n);
    let m = cuts.len() as int;
    let arcs = arcs_of(rings);
    lemma_cuts(rings, r, n);
    let i = j - 1;
    let piece = pieces(rings, r)[i];
    assert(refs[i] == ref_of(arcs, piece));
    lemma_piece_stored(rings, r, i);
    lemma_ref_walks(arcs, piece, refs[i]);
    let c0 = cuts[0];
    let s = cuts[i];
    lemma_next(i, m);
    vstd::arithmetic::div_mod::lemma_small_mod(i as nat, m as nat);
    let e = cuts[(i + 1) % m];
    let a = turned(cuts, n, i);
    let b = turned(cuts, n, j);
    assert(0 <= c0 <= s < n);
    // the piece runs from the turn at i to the turn at j
    assert((e - s) % n == b - a) by {
        if i + 1 < m {
            assert(cuts[i] < cuts[i + 1]);
            vstd::arithmetic::div_mod::lemma_small_mod((e - s) as nat, n as nat);
        } else {
            assert(e == c0);
            assert(cuts[0] < cuts[i]);
            vstd::arithmetic::div_mod::lemma_mod_add_multiples_vanish(e - s, n);
            vstd::arithmetic::div_mod::lemma_small_mod((e - s + n) as nat, n as nat);
            assert((n + (e - s)) % n == (e - s) % n);
        }
    }
    assert(b > a);
    let want = run_from(ring, c0, b + 1);
    let before = run_from(ring, c0, a + 1);
    assert forall|k: int| 0 <= k <= b - a implies piece[k] == #[trigger] want[a + k] by {
        assert(s + k == c0 + (a + k));
    }
    if j == 1 {
        assert(a == 0);
        reveal_with_fuel(stitched, 2);
        assert(stitched(refs, arcs, 1) =~= want);
    } else {
        lemma_stitch_run(rings, r, refs, j - 1);
        let head = stitched(refs, arcs, j - 1);
        assert(head == before);
        assert(head.last() == want[a]);
        assert(piece[0] == want[a + 0]);
        assert(append_spec(head, piece) =~= want) by {
            assert forall|k: int| 0 <= k <= b implies (head + piece.skip(1))[k] == want[k] by {
                if k > a {
                    assert(piece.skip(1)[k - a - 1] == piece[k - a]);
                    assert(piece[k - a] == want[a + (k - a)]);
                }
            }
        }
    }
}

/// The vertex a ring's references start at.
pub open spec fn first_vertex(rings: Seq<Seq<u32>>, r: int) -> int {
    let n = rings[r].len() as int;
    let cuts = cuts_of(rings, r, n);
    if cuts.len() == 0 {
        start_from(rings[r], 0)
    } else {
        cuts[0]
    }
}

/// A ring's references stitch back to the ring: the same vertices in the same
/// direction, from the vertex its references start at.
pub proof fn lemma_refs_reassemble(rings: Seq<Seq<u32>>, r: int, refs: Seq<u32>)
    requires
        0 <= r < rings.len(),
        refs_are(rings, arcs_of(rings), r, refs),
    ensures
        rings[r].len() > 0 ==> 0 <= first_vertex(rings, r) < rings[r].len(),
        ring_of(refs, arcs_of(rings)) == rotated(rings[r], first_vertex(rings, r)),
        joined(refs, arcs_of(rings), refs.len() as int),
        ({
            let path = stitched(refs, arcs_of(rings), refs.len() as int);
            path.len() > 0 ==> path.len() > 1 && path.last() == path[0]
        }),
{
    let ring = rings[r];
    let n = ring.len() as int;
    let arcs = arcs_of(rings);
    let cuts = cuts_of(rings, r, n);
    lemma_cuts(rings, r, n);
    if n == 0 {
        assert(ring_of(refs, arcs) =~= rotated(ring, first_vertex(rings, r)));
    } else if cuts.len() == 0 {
        let s = start_from(ring, 0);
        lemma_stored_least(ring);
        let w = closed_walk(ring);
        assert(pieces(rings, r)[0] == w);
        assert(refs[0] == ref_of(arcs, w));
        lemma_piece_stored(rings, r, 0);
        lemma_ref_walks(arcs, w, refs[0]);
        reveal_with_fuel(stitched, 2);
        assert(stitched(refs, arcs, 1) =~= w);
        assert(w[0] == ring[s] && w[n] == ring[s]) by {
            crate::walks::lemma_walk_back(ring, s);
            vstd::arithmetic::div_mod::lemma_mod_add_multiples_vanish(s, n);
            vstd::arithmetic::div_mod::lemma_small_mod(s as nat, n as nat);
        }
        assert(ring_of(refs, arcs) =~= rotated(ring, s)) by {
            assert forall|i: int| 0 <= i < n implies w.drop_last()[i] == rotated(ring, s)[i] by {
                assert(s + i == i + s);
            }
        }
    } else {
        lemma_no_single_cut(rings, r);
        let m = cuts.len() as int;
        assert(refs.len() == m);
        lemma_stitch_run(rings, r, refs, m);
        let c = cuts[0];
        let path = run_from(ring, c, n + 1);
        assert(stitched(refs, arcs, m) == path);
        assert(path[0] == ring[c] && path[n] == ring[c]) by {
            vstd::arithmetic::div_mod::lemma_mod_add_multiples_vanish(c, n);
            vstd::arithmetic::div_mod::lemma_small_mod(c as nat, n as nat);
        }
        assert(ring_of(refs, arcs) =~= rotated(ring, c)) by {
            assert forall|i: int| 0 <= i < n implies path.drop_last()[i] == rotated(ring, c)[i] by {
                assert(c + i == i + c);
            }
        }
    }
}

/// The wrapped vertices before and behind vertex `i`.
pub proof fn lemma_neighbours(i: int, n: int)
    requires
        0 <= i < n,
    ensures
        (i + n - 1) % n == if i == 0 { n - 1 } else { i - 1 },
        (i + 1) % n == if i + 1 == n { 0 } else { i + 1 },
{
    lemma_next(i, n);
    vstd::arithmetic::div_mod::lemma_small_mod(i as nat, n as nat);
    if i == 0 {
        vstd::arithmetic::div_mod::lemma_small_mod((n - 1) as nat, n as nat);
    } else {
        vstd::arithmetic::div_mod::lemma_mod_add_multiples_vanish(i - 1, n);
        vstd::arithmetic::div_mod::lemma_small_mod((i - 1) as nat, n as nat);
        assert(i + n - 1 == n + (i - 1));
    }
}

/// The neighbours of a vertex stay its neighbours from another start.
proof fn lemma_rotated_neighbours<T>(ring: Seq<T>, k: int, i: int) -> (x: int)
    requires
        0 <= k < ring.len(),
        0 <= i < ring.len(),
    ensures
        0 <= x < ring.len(),
        ({
            let n = ring.len() as int;
            let b = rotated(ring, k);
            &&& b[i] == ring[x]
            &&& b[(i + n - 1) % n] == ring[(x + n - 1) % n]
            &&& b[(i + 1) % n] == ring[(x + 1) % n]
        }),
{
    let n = ring.len() as int;
    let x = (i + k) % n;
    vstd::arithmetic::div_mod::lemma_mod_bound(i + k, n);
    lemma_neighbours(i, n);
    lemma_neighbours(x, n);
    vstd::arithmetic::div_mod::lemma_add_mod_noop_right(k, i + n - 1, n);
    vstd::arithmetic::div_mod::lemma_add_mod_noop_right(n - 1, i + k, n);
    vstd::arithmetic::div_mod::lemma_add_mod_noop_right(k, i + 1, n);
    vstd::arithmetic::div_mod::lemma_add_mod_noop_right(1, i + k, n);
    assert(((i + n - 1) % n + k) % n == (i + n - 1 + k) % n);
    assert((x + n - 1) % n == (i + k + n - 1) % n);
    assert(i + n - 1 + k == i + k + n - 1);
    assert(((i + 1) % n + k) % n == (i + 1 + k) % n);
    assert((x + 1) % n == (i + k + 1) % n);
    assert(i + 1 + k == i + k + 1);
    x
}

/// Rings of the same cycle have their junctions at the same vertices.
proof fn lemma_shared_junctions(rings: Seq<Seq<u32>>, a: int, b: int)
    requires
        0 <= a < rings.len(),
        0 <= b < rings.len(),
        same_cycle(rings[a], rings[b]),
        cuts_of(rings, a, rings[a].len() as int).len() == 0,
    ensures
        cuts_of(rings, b, rings[b].len() as int).len() == 0,
{
    let n = rings[a].len() as int;
    let k = choose|k: int|
        0 <= k < rings[a].len() && (rings[b] == #[trigger] rotated(rings[a], k) || rings[b]
            == rotated(rings[a], k).reverse());
    assert(rings[b].len() == n);
    lemma_cuts(rings, a, n);
    lemma_cuts(rings, b, n);
    let r = rotated(rings[a], k);
    let cuts = cuts_of(rings, b, n);
    if cuts.len() > 0 {
        let i = cuts[0];
        assert(is_cut(rings, b, i));
        lemma_neighbours(i, n);
        if rings[b] == r {
            let x = lemma_rotated_neighbours(rings[a], k, i);
            assert(is_cut(rings, a, x));
            assert(cuts_of(rings, a, n).contains(x));
        } else {
            let m = n - 1 - i;
            lemma_neighbours(m, n);
            let x = lemma_rotated_neighbours(rings[a], k, m);
            let ring = rings[b];
            assert(ring[i] == r[m]);
            assert(ring[(i + n - 1) % n] == r[(m + 1) % n]);
            assert(ring[(i + 1) % n] == r[(m + n - 1) % n]);
            assert(is_cut(rings, a, x));
            assert(cuts_of(rings, a, n).contains(x));
        }
    }
}

/// Rings that run through the same vertices around, without junctions, are one
/// arc, whatever vertex each starts at and whichever way it winds.
pub proof fn lemma_shared_ring_stored_once(
    rings: Seq<Seq<u32>>,
    a: int,
    b: int,
    a_refs: Seq<u32>,
    b_refs: Seq<u32>,
)
    requires
        0 <= a < rings.len(),
        0 <= b < rings.len(),
        rings[a].len() > 0,
        same_cycle(rings[a], rings[b]),
        cuts_of(rings, a, rings[a].len() as int).len() == 0,
        refs_are(rings, arcs_of(rings), a, a_refs),
        refs_are(rings, arcs_of(rings), b, b_refs),
    ensures
        a_refs.len() == 1,
        b_refs.len() == 1,
        a_refs[0] / 2 == b_refs[0] / 2,
{
    lemma_same_cycle_stored_alike(rings[a], rings[b]);
    lemma_shared_junctions(rings, a, b);
    let arcs = arcs_of(rings);
    assert(rings[b].len() == rings[a].len());
    assert(pieces(rings, a)[0] == closed_walk(rings[a]));
    assert(pieces(rings, b)[0] == closed_walk(rings[b]));
    assert(a_refs[0] == ref_of(arcs, closed_walk(rings[a])));
    assert(b_refs[0] == ref_of(arcs, closed_walk(rings[b])));
}

/// No arc is stored twice, in one direction or the other.
pub proof fn lemma_arcs_stored_once(rings: Seq<Seq<u32>>, i: int, j: int)
    requires
        0 <= i < arcs_of(rings).len(),
        0 <= j < arcs_of(rings).len(),
        arcs_of(rings)[i] == arcs_of(rings)[j] || arcs_of(rings)[i] == arcs_of(
            rings,
        )[j].reverse(),
    ensures
        i == j,
{
    let all = stored_pieces(rings, rings.len() as int);
    let arcs = arcs_of(rings);
    lemma_pool_of(all, all.len() as int);
    lemma_pool_source(all, all.len() as int, i);
    lemma_pool_source(all, all.len() as int, j);
    lemma_stored_canonical(rings, rings.len() as int);
    let x = arcs[i];
    let y = arcs[j];
    assert(lex_le(x, x.reverse()) && lex_le(y, y.reverse()));
    if x == y.reverse() {
        assert(x.reverse() =~= y);
        crate::lex::lemma_lex_antisymmetric(x, y);
    }
    if i < j {
        assert(arcs[i] != arcs[j]);
    } else if j < i {
        assert(arcs[j] != arcs[i]);
    }
}

proof fn lemma_stored_canonical(rings: Seq<Seq<u32>>, n: int)
    requires
        0 <= n <= rings.len(),
    ensures
        forall|k: int|
            0 <= k < stored_pieces(rings, n).len() ==> lex_le(
                #[trigger] stored_pieces(rings, n)[k],
                stored_pieces(rings, n)[k].reverse(),
            ),
    decreases n,
{
    if n > 0 {
        lemma_stored_canonical(rings, n - 1);
        let before = stored_pieces(rings, n - 1);
        let after = stored_pieces(rings, n);
        let walks = pieces(rings, n - 1);
        assert forall|k: int| 0 <= k < after.len() implies lex_le(
            #[trigger] after[k],
            after[k].reverse(),
        ) by {
            if k < before.len() {
                assert(after[k] == before[k]);
            } else {
                let w = walks[k - before.len()];
                assert(after[k] == canon(w));
                crate::lex::lemma_lex_total(w, w.reverse());
                assert(w.reverse().reverse() =~= w);
            }
        }
    }
}

/// Whether every vertex id is below `bound`.
pub open spec fn vertices_below(walk: Seq<u32>, bound: int) -> bool {
    forall|k: int| 0 <= k < walk.len() ==> (#[trigger] walk[k]) < bound
}

proof fn lemma_pieces_below(rings: Seq<Seq<u32>>, r: int, j: int, bound: int)
    requires
        0 <= r < rings.len(),
        vertices_below(rings[r], bound),
        0 <= j < pieces(rings, r).len(),
    ensures
        vertices_below(canon(pieces(rings, r)[j]), bound),
{
    let ring = rings[r];
    let n = ring.len() as int;
    let piece = pieces(rings, r)[j];
    let cuts = cuts_of(rings, r, n);
    lemma_cuts(rings, r, n);
    assert(vertices_below(piece, bound)) by {
        assert forall|k: int| 0 <= k < piece.len() implies (#[trigger] piece[k]) < bound by {
            if cuts.len() == 0 {
                let s = start_from(ring, 0);
                vstd::arithmetic::div_mod::lemma_mod_bound(s + k, n);
                assert(piece[k] == ring[(s + k) % n]);
            } else {
                vstd::arithmetic::div_mod::lemma_mod_bound(cuts[j] + k, n);
                assert(piece[k] == ring[(cuts[j] + k) % n]);
            }
        }
    }
    let back = piece.reverse();
    assert(vertices_below(back, bound)) by {
        assert forall|k: int| 0 <= k < back.len() implies (#[trigger] back[k]) < bound by {
            assert(back[k] == piece[piece.len() - 1 - k]);
        }
    }
}

proof fn lemma_stored_below(rings: Seq<Seq<u32>>, n: int, bound: int)
    requires
        0 <= n <= rings.len(),
        forall|r: int| 0 <= r < rings.len() ==> vertices_below(#[trigger] rings[r], bound),
    ensures
        forall|i: int|
            0 <= i < stored_pieces(rings, n).len() ==> vertices_below(
                #[trigger] stored_pieces(rings, n)[i],
                bound,
            ),
    decreases n,
{
    if n > 0 {
        lemma_stored_below(rings, n - 1, bound);
        let before = stored_pieces(rings, n - 1);
        let after = stored_pieces(rings, n);
        assert forall|i: int| 0 <= i < after.len() implies vertices_below(
            #[trigger] after[i],
            bound,
        ) by {
            if i < before.len() {
                assert(after[i] == before[i]);
            } else {
                assert(vertices_below(rings[n - 1], bound));
                lemma_pieces_below(rings, n - 1, i - before.len(), bound);
            }
        }
    }
}

/// Arcs run through the vertices of the rings they were cut from.
pub proof fn lemma_arcs_below(rings: Seq<Seq<u32>>, bound: int)
    requires
        forall|r: int| 0 <= r < rings.len() ==> vertices_below(#[trigger] rings[r], bound),
    ensures
        forall|a: int|
            0 <= a < arcs_of(rings).len() ==> vertices_below(#[trigger] arcs_of(rings)[a], bound),
{
    let all = stored_pieces(rings, rings.len() as int);
    lemma_stored_below(rings, rings.len() as int, bound);
    assert forall|a: int| 0 <= a < arcs_of(rings).len() implies vertices_below(
        #[trigger] arcs_of(rings)[a],
        bound,
    ) by {
        lemma_pool_source(all, all.len() as int, a);
        let k = choose|k: int| 0 <= k < all.len() && #[trigger] all[k] == arcs_of(rings)[a];
        assert(vertices_below(all[k], bound));
    }
}

} // verus!
