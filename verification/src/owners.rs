//! Which rings own each undirected edge.

use std::collections::HashMap;

use vstd::prelude::*;
use vstd::std_specs::hash::group_hash_axioms;

verus! {

/// An undirected edge: its smaller vertex id first.
pub open spec fn edge_of(a: u32, b: u32) -> (u32, u32) {
    if a < b {
        (a, b)
    } else {
        (b, a)
    }
}

/// Edge `i` of a closed ring, from vertex `i` to the next.
pub open spec fn ring_edge(ring: Seq<u32>, i: int) -> (u32, u32) {
    edge_of(ring[i], ring[(i + 1) % (ring.len() as int)])
}

/// Whether one of a ring's first `n` edges is `e`.
pub open spec fn has_edge(ring: Seq<u32>, e: (u32, u32), n: int) -> bool {
    exists|i: int| 0 <= i < n && #[trigger] ring_edge(ring, i) == e
}

/// Whether ring `r` owns the edge `e`.
pub open spec fn owns(rings: Seq<Seq<u32>>, r: int, e: (u32, u32)) -> bool {
    0 <= r < rings.len() && has_edge(rings[r], e, rings[r].len() as int)
}

/// The rings that own an edge.
pub open spec fn owner_set(rings: Seq<Seq<u32>>, e: (u32, u32)) -> Set<int> {
    Set::new(|r: int| owns(rings, r, e))
}

/// An edge as one number.
spec fn packed(e: (u32, u32)) -> u64 {
    (e.0 as int * 0x1_0000_0000 + e.1 as int) as u64
}

proof fn lemma_packed(e: (u32, u32), f: (u32, u32))
    ensures
        e.0 as int * 0x1_0000_0000 + e.1 as int <= u64::MAX,
        packed(e) == packed(f) ==> e == f,
{
}

/// An index from edges to the rings that own them.
pub struct EdgeOwners {
    slots: HashMap<u64, usize>,
    lists: Vec<Vec<u32>>,
}

/// Whether a list ascends strictly.
spec fn ascends(list: Seq<u32>) -> bool {
    forall|i: int, j: int| 0 <= i < j < list.len() ==> (#[trigger] list[i]) < (#[trigger] list[j])
}

proof fn lemma_same_members(a: Seq<u32>, b: Seq<u32>)
    requires
        ascends(a),
        ascends(b),
        forall|x: u32| #[trigger] a.contains(x) == b.contains(x),
    ensures
        a == b,
    decreases a.len(),
{
    if a.len() == 0 {
        if b.len() > 0 {
            assert(b.contains(b[0]));
            assert(a.contains(b[0]));
        }
        assert(a =~= b);
    } else {
        assert(a.contains(a[0]));
        assert(b.contains(a[0]));
        let a1 = a.drop_last();
        let b1 = b.drop_last();
        let x = a.last();
        let y = b.last();
        assert(x == y) by {
            assert(a.contains(x));
            assert(b.contains(x));
            let j = choose|j: int| 0 <= j < b.len() && b[j] == x;
            assert(b.contains(y));
            assert(a.contains(y));
            let i = choose|i: int| 0 <= i < a.len() && a[i] == y;
            if j < b.len() - 1 {
                assert(b[j] < b[b.len() - 1]);
                if i < a.len() - 1 {
                    assert(a[i] < a[a.len() - 1]);
                }
            }
        }
        assert forall|z: u32| #[trigger] a1.contains(z) == b1.contains(z) by {
            if a1.contains(z) {
                let i = choose|i: int| 0 <= i < a1.len() && a1[i] == z;
                assert(a[i] == z && a[i] < a[a.len() - 1]);
                assert(a.contains(z));
                assert(b.contains(z));
                let j = choose|j: int| 0 <= j < b.len() && b[j] == z;
                assert(b1[j] == z);
            }
            if b1.contains(z) {
                let j = choose|j: int| 0 <= j < b1.len() && b1[j] == z;
                assert(b[j] == z && b[j] < b[b.len() - 1]);
                assert(b.contains(z));
                assert(a.contains(z));
                let i = choose|i: int| 0 <= i < a.len() && a[i] == z;
                assert(a1[i] == z);
            }
        }
        lemma_same_members(a1, b1);
        assert(a =~= a1.push(x));
        assert(b =~= b1.push(y));
    }
}

impl EdgeOwners {
    /// The list stored for an edge.
    spec fn listed(self, e: (u32, u32)) -> Seq<u32> {
        if self.slots@.dom().contains(packed(e)) {
            self.lists@[self.slots@[packed(e)] as int]@
        } else {
            Seq::empty()
        }
    }

    /// Whether every edge has a list of its own.
    spec fn separate(self) -> bool {
        &&& forall|k: u64| #[trigger]
            self.slots@.dom().contains(k) ==> self.slots@[k] < self.lists@.len()
        &&& forall|k: u64, l: u64|
            self.slots@.dom().contains(k) && self.slots@.dom().contains(l) && k != l
                ==> #[trigger] self.slots@[k] != #[trigger] self.slots@[l]
    }

    /// Whether the index holds the edges of the rings before `r` and the first
    /// `n` edges of ring `r`.
    spec fn covers(self, rings: Seq<Seq<u32>>, r: int, n: int) -> bool {
        forall|e: (u32, u32)|
            {
                &&& ascends(#[trigger] self.listed(e))
                &&& forall|x: u32| #[trigger]
                    self.listed(e).contains(x) == ((x < r && owns(rings, x as int, e)) || (x == r
                        && r < rings.len() && has_edge(rings[r], e, n)))
            }
    }

    /// Whether the index lists exactly the owners of every edge.
    pub closed spec fn indexes(self, rings: Seq<Seq<u32>>) -> bool {
        &&& self.separate()
        &&& rings.len() <= u32::MAX
        &&& self.covers(rings, rings.len() as int, 0)
    }

    /// Records that ring `r` has an edge.
    fn record(&mut self, a: u32, b: u32, r: u32)
        requires
            old(self).separate(),
            forall|e: (u32, u32)|
                {
                    &&& ascends(#[trigger] old(self).listed(e))
                    &&& forall|x: u32| #[trigger] old(self).listed(e).contains(x) ==> x <= r
                },
        ensures
            final(self).separate(),
            forall|e: (u32, u32)|
                {
                    &&& ascends(#[trigger] final(self).listed(e))
                    &&& forall|x: u32| #[trigger]
                        final(self).listed(e).contains(x) == (old(self).listed(e).contains(x) || (e
                            == edge_of(a, b) && x == r))
                },
    {
        broadcast use group_hash_axioms;

        let ghost before = *self;
        let ghost e0 = edge_of(a, b);
        let (lo, hi) = if a < b {
            (a, b)
        } else {
            (b, a)
        };
        let key: u64 = lo as u64 * 0x1_0000_0000 + hi as u64;
        proof {
            assert(key == packed(e0));
        }
        let slot: Option<usize> = match self.slots.get(&key) {
            Some(s) => Some(*s),
            None => None,
        };
        let s = match slot {
            Some(s) => s,
            None => {
                let s = self.lists.len();
                self.lists.push(Vec::new());
                self.slots.insert(key, s);
                s
            },
        };
        let ghost mid = *self;
        proof {
            assert forall|e: (u32, u32)| #[trigger] mid.listed(e) == before.listed(e) by {
                lemma_packed(e, e0);
            }
            assert(mid.separate());
            assert(mid.lists@[s as int]@ == mid.listed(e0));
        }
        let n = self.lists[s].len();
        if n > 0 && self.lists[s][n - 1] == r {
            proof {
                assert(self.listed(e0).contains(r)) by {
                    assert(self.listed(e0)[n - 1] == r);
                }
            }
        } else {
            self.lists[s].push(r);
            proof {
                let was = before.listed(e0);
                let now = self.listed(e0);
                assert(now == was.push(r));
                assert(!was.contains(r)) by {
                    if was.contains(r) {
                        let i = choose|i: int| 0 <= i < was.len() && was[i] == r;
                        if i < n - 1 {
                            assert(was[i] < was[n - 1]);
                            assert(was.contains(was[n - 1]));
                        }
                    }
                }
                assert forall|i: int, j: int| 0 <= i < j < now.len() implies (#[trigger] now[i])
                    < (#[trigger] now[j]) by {
                    if j == n {
                        assert(was.contains(was[i]));
                    }
                }
                assert forall|x: u32| #[trigger] now.contains(x) == (was.contains(x) || x == r) by {
                    if was.contains(x) {
                        let i = choose|i: int| 0 <= i < was.len() && was[i] == x;
                        assert(now[i] == x);
                    }
                    if x == r {
                        assert(now[n as int] == r);
                    }
                    if now.contains(x) && x != r {
                        let i = choose|i: int| 0 <= i < now.len() && now[i] == x;
                        assert(was[i] == x);
                    }
                }
                assert forall|e: (u32, u32)| e != e0 implies #[trigger] self.listed(e)
                    == before.listed(e) by {
                    lemma_packed(e, e0);
                    assert(mid.listed(e) == before.listed(e));
                }
            }
        }
    }

    /// Indexes the edges of all rings.
    pub fn of(rings: &Vec<Vec<u32>>) -> (owners: EdgeOwners)
        requires
            rings@.len() <= u32::MAX,
        ensures
            owners.indexes(rings_view(rings@)),
    {
        broadcast use group_hash_axioms;

        let ghost rv = rings_view(rings@);
        let mut owners = EdgeOwners { slots: HashMap::new(), lists: Vec::new() };
        let mut r: usize = 0;
        while r < rings.len()
            invariant
                r <= rings@.len() <= u32::MAX,
                rv == rings_view(rings@),
                owners.separate(),
                owners.covers(rv, r as int, 0),
            decreases rings@.len() - r,
        {
            let ring = &rings[r];
            let n = ring.len();
            assert(rv[r as int] == ring@);
            let mut i: usize = 0;
            while i < n
                invariant
                    i <= n,
                    n == ring@.len(),
                    r < rings@.len() <= u32::MAX,
                    rv == rings_view(rings@),
                    rv[r as int] == ring@,
                    owners.separate(),
                    owners.covers(rv, r as int, i as int),
                decreases n - i,
            {
                let next = if i + 1 == n {
                    0
                } else {
                    i + 1
                };
                assert(next as int == (i + 1) % (n as int)) by {
                    if i + 1 < n {
                        vstd::arithmetic::div_mod::lemma_small_mod((i + 1) as nat, n as nat);
                    } else {
                        vstd::arithmetic::div_mod::lemma_mod_self_0(n as int);
                    }
                }
                let ghost before = owners;
                assert(ring_edge(ring@, i as int) == edge_of(ring@[i as int], ring@[next as int]));
                owners.record(ring[i], ring[next], r as u32);
                proof {
                    assert forall|e: (u32, u32)|
                        {
                            &&& ascends(#[trigger] owners.listed(e))
                            &&& forall|x: u32| #[trigger]
                                owners.listed(e).contains(x) == ((x < r && owns(rv, x as int, e))
                                    || (x == r && r < rv.len() && has_edge(
                                    rv[r as int],
                                    e,
                                    i as int + 1,
                                )))
                        } by {
                        assert(ascends(before.listed(e)));
                        assert(has_edge(ring@, e, i as int + 1) == (has_edge(ring@, e, i as int)
                            || ring_edge(ring@, i as int) == e)) by {
                            if has_edge(ring@, e, i as int + 1) {
                                let k = choose|k: int|
                                    0 <= k < i + 1 && #[trigger] ring_edge(ring@, k) == e;
                                if k < i {
                                    assert(ring_edge(ring@, k) == e);
                                }
                            }
                            if has_edge(ring@, e, i as int) {
                                let k = choose|k: int|
                                    0 <= k < i && #[trigger] ring_edge(ring@, k) == e;
                                assert(ring_edge(ring@, k) == e);
                            }
                        }
                        assert forall|x: u32| #[trigger]
                            owners.listed(e).contains(x) == ((x < r && owns(rv, x as int, e)) || (x
                                == r && r < rv.len() && has_edge(
                                rv[r as int],
                                e,
                                i as int + 1,
                            ))) by {
                            assert(owners.listed(e).contains(x) == (before.listed(e).contains(x)
                                || (e == ring_edge(ring@, i as int) && x == r as u32)));
                        }
                    }
                }
                i = i + 1;
            }
            proof {
                assert forall|e: (u32, u32)|
                    {
                        &&& ascends(#[trigger] owners.listed(e))
                        &&& forall|x: u32| #[trigger]
                            owners.listed(e).contains(x) == ((x < r + 1 && owns(
                                rv,
                                x as int,
                                e,
                            )) || (x == r + 1 && r + 1 < rv.len() && has_edge(
                                rv[r as int + 1],
                                e,
                                0,
                            )))
                    } by {
                    assert(ascends(owners.listed(e)));
                    assert forall|x: u32| #[trigger]
                        owners.listed(e).contains(x) == ((x < r + 1 && owns(rv, x as int, e)) || (x
                            == r + 1 && r + 1 < rv.len() && has_edge(
                            rv[r as int + 1],
                            e,
                            0,
                        ))) by {
                        if x == r {
                            assert(owns(rv, x as int, e) == has_edge(
                                rv[r as int],
                                e,
                                rv[r as int].len() as int,
                            ));
                        }
                    }
                }
            }
            r = r + 1;
        }
        owners
    }

    /// Whether two edges have the same owners.
    pub fn same_owners(
        &self,
        a: u32,
        b: u32,
        c: u32,
        d: u32,
        rings: Ghost<Seq<Seq<u32>>>,
    ) -> (same: bool)
        requires
            self.indexes(rings@),
        ensures
            same == (owner_set(rings@, edge_of(a, b)) == owner_set(rings@, edge_of(c, d))),
    {
        let x = self.list(a, b);
        let y = self.list(c, d);
        let same = equal_lists(x, y);
        proof {
            let e = edge_of(a, b);
            let f = edge_of(c, d);
            let n = rings@.len();
            assert(ascends(self.listed(e)) && ascends(self.listed(f)));
            if same {
                assert(owner_set(rings@, e) =~= owner_set(rings@, f)) by {
                    assert forall|r: int| owns(rings@, r, e) == owns(rings@, r, f) by {
                        if 0 <= r < n {
                            let x = r as u32;
                            assert(self.listed(e).contains(x) == owns(rings@, x as int, e));
                            assert(self.listed(f).contains(x) == owns(rings@, x as int, f));
                        }
                    }
                }
            }
            if owner_set(rings@, e) == owner_set(rings@, f) {
                assert forall|x: u32| #[trigger] self.listed(e).contains(x) == self.listed(
                    f,
                ).contains(x) by {
                    assert(owner_set(rings@, e).contains(x as int) == owner_set(
                        rings@,
                        f,
                    ).contains(x as int));
                    assert(self.listed(f).contains(x) == ((x < n && owns(rings@, x as int, f)) || (
                    x == n && n < n && has_edge(rings@[n as int], f, 0))));
                }
                lemma_same_members(self.listed(e), self.listed(f));
            }
        }
        same
    }

    /// The owners of an edge.
    fn list(&self, a: u32, b: u32) -> (list: Option<&Vec<u32>>)
        requires
            self.separate(),
        ensures
            match list {
                Some(l) => l@ == self.listed(edge_of(a, b)),
                None => self.listed(edge_of(a, b)) == Seq::<u32>::empty(),
            },
    {
        broadcast use group_hash_axioms;

        let (lo, hi) = if a < b {
            (a, b)
        } else {
            (b, a)
        };
        let key: u64 = lo as u64 * 0x1_0000_0000 + hi as u64;
        assert(key == packed(edge_of(a, b)));
        match self.slots.get(&key) {
            Some(s) => Some(&self.lists[*s]),
            None => None,
        }
    }
}

fn equal_lists(a: Option<&Vec<u32>>, b: Option<&Vec<u32>>) -> (same: bool)
    ensures
        same == (list_or_empty(a) == list_or_empty(b)),
{
    match (a, b) {
        (Some(x), Some(y)) => crate::lex::same_walk(x, y),
        (Some(x), None) => {
            let same = x.len() == 0;
            assert(same ==> x@ =~= Seq::<u32>::empty());
            same
        },
        (None, Some(y)) => {
            let same = y.len() == 0;
            assert(same ==> y@ =~= Seq::<u32>::empty());
            same
        },
        (None, None) => true,
    }
}

spec fn list_or_empty(a: Option<&Vec<u32>>) -> Seq<u32> {
    match a {
        Some(list) => list@,
        None => Seq::empty(),
    }
}

/// Rings as sequences.
pub open spec fn rings_view(rings: Seq<Vec<u32>>) -> Seq<Seq<u32>> {
    Seq::new(rings.len(), |i: int| rings[i]@)
}

} // verus!
