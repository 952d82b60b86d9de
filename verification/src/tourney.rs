//! A tournament over a fixed number of places: each place holds a key or
//! none, and the place with the least key is always at hand. Equal keys yield
//! to the lower place.

use vstd::prelude::*;

verus! {

/// A tree of the winners of neighbouring places. Entry `n + i` is place `i`
/// with its key, an entry below `n` the winner of the two entries under it;
/// an absent place loses against every other.
pub struct Tourney {
    n: usize,
    tree: Vec<(u64, usize)>,
}

/// Whether one entry is no worse than another: the lower key, then the lower
/// place.
pub open spec fn no_worse(a: (u64, usize), b: (u64, usize)) -> bool {
    a.0 < b.0 || (a.0 == b.0 && a.1 <= b.1)
}

/// The better of two entries.
pub open spec fn better(a: (u64, usize), b: (u64, usize)) -> (u64, usize) {
    if no_worse(a, b) {
        a
    } else {
        b
    }
}

/// The entry of a place without a key.
pub open spec fn absent() -> (u64, usize) {
    (u64::MAX, usize::MAX)
}

/// Whether a place has the least key of all.
pub open spec fn least_at(keys: Seq<Option<u64>>, i: int) -> bool {
    &&& 0 <= i < keys.len()
    &&& keys[i] is Some
    &&& forall|j: int|
        0 <= j < keys.len() && (#[trigger] keys[j]) is Some ==> keys[i]->0 < keys[j]->0 || (
        keys[i]->0 == keys[j]->0 && i <= j)
}

/// The better of two entries.
fn pick(a: (u64, usize), b: (u64, usize)) -> (winner: (u64, usize))
    ensures
        winner == better(a, b),
{
    if a.0 < b.0 || (a.0 == b.0 && a.1 <= b.1) {
        a
    } else {
        b
    }
}

impl Tourney {
    /// Whether an inner entry is the winner of the two under it.
    spec fn settled(self, k: int) -> bool {
        self.tree@[k] == better(self.tree@[2 * k], self.tree@[2 * k + 1])
    }

    /// Whether entry `n + i` is that of place `i`.
    spec fn seated(self, i: int) -> bool {
        self.tree@[self.n + i] == absent() || self.tree@[self.n + i].1 == i
    }

    /// The tree has an entry for every place and every pair, all of them up to
    /// date.
    pub closed spec fn wf(self) -> bool {
        &&& 1 <= self.n <= usize::MAX / 2
        &&& self.tree@.len() == 2 * self.n
        &&& forall|i: int| 0 <= i < self.n ==> #[trigger] self.seated(i)
        &&& forall|k: int| 1 <= k < self.n ==> #[trigger] self.settled(k)
    }

    /// The key of each place.
    pub closed spec fn keys(self) -> Seq<Option<u64>> {
        Seq::new(
            self.n as nat,
            |i: int|
                if self.tree@[self.n + i].1 == usize::MAX {
                    None
                } else {
                    Some(self.tree@[self.n + i].0)
                },
        )
    }

    /// A tournament of `n` places without keys.
    pub fn new(n: usize) -> (t: Tourney)
        requires
            1 <= n <= usize::MAX / 2,
        ensures
            t.wf(),
            t.keys().len() == n,
            forall|i: int| 0 <= i < n ==> (#[trigger] t.keys()[i]) is None,
    {
        let mut tree: Vec<(u64, usize)> = Vec::new();
        while tree.len() < 2 * n
            invariant
                n <= usize::MAX / 2,
                tree@.len() <= 2 * n,
                forall|k: int| 0 <= k < tree@.len() ==> #[trigger] tree@[k] == absent(),
            decreases 2 * n - tree@.len(),
        {
            tree.push((u64::MAX, usize::MAX));
        }
        Tourney { n, tree }
    }

    /// Gives a place a key, or takes it away.
    pub fn set(&mut self, i: usize, key: Option<u64>)
        requires
            old(self).wf(),
            i < old(self).keys().len(),
        ensures
            final(self).wf(),
            final(self).keys() == old(self).keys().update(i as int, key),
    {
        let ghost before = self.keys();
        let n: usize = self.n;
        let leaf: (u64, usize) = match key {
            Some(key) => (key, i),
            None => (u64::MAX, usize::MAX),
        };
        let ghost seated_before = *self;
        self.tree.set(n + i, leaf);
        let mut k: usize = (n + i) / 2;
        proof {
            assert forall|j: int| 0 <= j < n implies #[trigger] self.seated(j) by {
                assert(seated_before.seated(j));
            }
            assert forall|q: int| 1 <= q < n && q != k implies #[trigger] self.settled(q) by {
                assert(seated_before.settled(q));
            }
            assert(self.keys() =~= before.update(i as int, key));
        }
        while k >= 1
            invariant
                n == self.n,
                1 <= n <= usize::MAX / 2,
                self.tree@.len() == 2 * n,
                k < n,
                forall|j: int| 0 <= j < n ==> #[trigger] self.seated(j),
                forall|q: int| 1 <= q < n && q != k ==> #[trigger] self.settled(q),
                self.keys() == before.update(i as int, key),
            decreases k,
        {
            let ghost at = *self;
            let winner: (u64, usize) = pick(self.tree[2 * k], self.tree[2 * k + 1]);
            self.tree.set(k, winner);
            proof {
                assert forall|j: int| 0 <= j < n implies #[trigger] self.seated(j) by {
                    assert(at.seated(j));
                }
                assert forall|q: int| 1 <= q < n && q != k / 2 implies #[trigger] self.settled(q) by {
                    if q != k {
                        assert(at.settled(q));
                    }
                }
                assert(self.keys() =~= at.keys());
            }
            k = k / 2;
        }
    }

    /// The root is no worse than any entry.
    proof fn lemma_root_wins(self, p: int)
        requires
            self.wf(),
            1 <= p < 2 * self.n,
        ensures
            no_worse(self.tree@[1], self.tree@[p]),
        decreases p,
    {
        if p > 1 {
            let q = p / 2;
            assert(self.settled(q));
            self.lemma_root_wins(q);
        }
    }

    /// A winner is the entry of some place.
    proof fn lemma_winner_is_seated(self, k: int) -> (i: int)
        requires
            self.wf(),
            1 <= k < 2 * self.n,
        ensures
            0 <= i < self.n,
            self.tree@[self.n + i] == self.tree@[k],
        decreases 2 * self.n - k,
    {
        if k >= self.n {
            k - self.n
        } else {
            assert(self.settled(k));
            if self.tree@[k] == self.tree@[2 * k] {
                self.lemma_winner_is_seated(2 * k)
            } else {
                self.lemma_winner_is_seated(2 * k + 1)
            }
        }
    }

    /// The place with the least key and that key, `None` if no place has one.
    pub fn least(&self) -> (place: Option<(usize, u64)>)
        requires
            self.wf(),
        ensures
            match place {
                Some((i, key)) => least_at(self.keys(), i as int) && self.keys()[i as int] == Some(
                    key,
                ),
                None => forall|i: int|
                    0 <= i < self.keys().len() ==> (#[trigger] self.keys()[i]) is None,
            },
    {
        let winner: (u64, usize) = self.tree[1];
        proof {
            assert forall|j: int| 0 <= j < self.n implies no_worse(
                winner,
                self.tree@[#[trigger] (self.n + j)],
            ) by {
                self.lemma_root_wins(self.n + j);
            }
            let w = self.lemma_winner_is_seated(1);
            assert(self.seated(w));
            assert forall|j: int| 0 <= j < self.n && (#[trigger] self.keys()[j]) is Some implies (
            winner.0 < self.keys()[j]->0 || (winner.0 == self.keys()[j]->0 && winner.1 <= j)) by {
                assert(self.seated(j));
                assert(no_worse(winner, self.tree@[self.n + j]));
            }
            if winner.1 == usize::MAX {
                assert forall|i: int| 0 <= i < self.keys().len() implies (
                #[trigger] self.keys()[i]) is None by {
                    assert(self.seated(i));
                }
            } else {
                assert(self.keys()[w] == Some(winner.0));
            }
        }
        if winner.1 == usize::MAX {
            None
        } else {
            Some((winner.1, winner.0))
        }
    }
}

} // verus!
