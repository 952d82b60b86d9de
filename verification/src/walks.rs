//! Closed walks around a ring, and the one that stands for the ring whatever
//! vertex it starts at and whichever way it winds.

use vstd::prelude::*;

use crate::lex::{
    lemma_lex_antisymmetric, lemma_lex_reflexive, lemma_lex_total, lemma_lex_transitive, lex_le,
    walk_le,
};

verus! {

/// The closed walk from vertex `s` in the ring's own direction.
pub open spec fn forward_walk(ring: Seq<u32>, s: int) -> Seq<u32> {
    Seq::new(ring.len() + 1, |k: int| ring[(s + k) % (ring.len() as int)])
}

/// The closed walk from vertex `s` against the ring's direction.
pub open spec fn backward_walk(ring: Seq<u32>, s: int) -> Seq<u32> {
    Seq::new(ring.len() + 1, |k: int| ring[(s + ring.len() - k) % (ring.len() as int)])
}

/// Whether no closed walk around the ring comes before `w`.
pub open spec fn is_least(ring: Seq<u32>, w: Seq<u32>) -> bool {
    forall|s: int|
        0 <= s < ring.len() ==> lex_le(w, #[trigger] forward_walk(ring, s)) && lex_le(
            w,
            backward_walk(ring, s),
        )
}

/// Whether a least walk starts at vertex `s`.
pub open spec fn least_at(ring: Seq<u32>, s: int) -> bool {
    is_least(ring, forward_walk(ring, s)) || is_least(ring, backward_walk(ring, s))
}

/// The first vertex from `s` on where a least walk starts.
pub open spec fn start_from(ring: Seq<u32>, s: int) -> int
    decreases ring.len() - s,
{
    if s < 0 || s >= ring.len() {
        0
    } else if least_at(ring, s) {
        s
    } else {
        start_from(ring, s + 1)
    }
}

/// The walk a ring without junctions is stored as: in its own direction, from
/// the first vertex where a least walk starts.
pub open spec fn closed_walk(ring: Seq<u32>) -> Seq<u32> {
    forward_walk(ring, start_from(ring, 0))
}

proof fn lemma_mod_step(s: int, n: int)
    requires
        0 <= s < n,
    ensures
        (s + 0) % n == s,
        (s + n) % n == s,
{
    vstd::arithmetic::div_mod::lemma_small_mod(s as nat, n as nat);
    vstd::arithmetic::div_mod::lemma_mod_add_multiples_vanish(s, n);
}

/// A walk back is the reverse of the walk out.
pub proof fn lemma_walk_back(ring: Seq<u32>, s: int)
    requires
        0 <= s < ring.len(),
    ensures
        backward_walk(ring, s) == forward_walk(ring, s).reverse(),
        forward_walk(ring, s)[0] == ring[s],
        backward_walk(ring, s)[0] == ring[s],
{
    let n = ring.len() as int;
    lemma_mod_step(s, n);
    let f = forward_walk(ring, s);
    assert(backward_walk(ring, s) =~= f.reverse()) by {
        assert forall|k: int| 0 <= k <= n implies backward_walk(ring, s)[k] == f.reverse()[k] by {
            assert(f.reverse()[k] == f[n - k]);
        }
    }
}

/// Walks the ring forward from `s`.
fn walk_forward(ring: &Vec<u32>, s: usize) -> (w: Vec<u32>)
    requires
        s < ring@.len(),
    ensures
        w@ == forward_walk(ring@, s as int),
{
    let n = ring.len();
    let mut w: Vec<u32> = Vec::new();
    let mut at: usize = s;
    let mut k: usize = 0;
    proof {
        lemma_mod_step(s as int, n as int);
    }
    while k < n
        invariant
            k <= n,
            n == ring@.len(),
            s < n,
            at < n,
            at as int == (s + k) % (n as int),
            w@.len() == k,
            forall|j: int| 0 <= j < k ==> #[trigger] w@[j] == ring@[(s + j) % (n as int)],
        decreases n - k,
    {
        w.push(ring[at]);
        proof {
            lemma_next(s + k, n as int);
        }
        at = if at + 1 == n {
            0
        } else {
            at + 1
        };
        k = k + 1;
    }
    w.push(ring[at]);
    assert(w@ =~= forward_walk(ring@, s as int));
    w
}

/// The vertex behind a wrapped one.
pub proof fn lemma_next(i: int, n: int)
    requires
        0 < n,
        0 <= i,
    ensures
        (i + 1) % n == if i % n + 1 == n {
            0
        } else {
            i % n + 1
        },
        0 <= i % n < n,
{
    vstd::arithmetic::div_mod::lemma_mod_bound(i, n);
    vstd::arithmetic::div_mod::lemma_add_mod_noop(i, 1, n);
    if n == 1 {
        assert((i + 1) % 1 == 0) by (nonlinear_arith);
        assert(i % 1 == 0) by (nonlinear_arith);
    } else {
        vstd::arithmetic::div_mod::lemma_small_mod(1, n as nat);
        if i % n + 1 == n {
            vstd::arithmetic::div_mod::lemma_mod_self_0(n);
        } else {
            vstd::arithmetic::div_mod::lemma_small_mod((i % n + 1) as nat, n as nat);
        }
    }
}

/// A walk in the other direction.
pub fn reversed(w: &Vec<u32>) -> (r: Vec<u32>)
    ensures
        r@ == w@.reverse(),
{
    let mut r: Vec<u32> = Vec::new();
    let mut i: usize = w.len();
    while i > 0
        invariant
            i <= w@.len(),
            r@.len() == w@.len() - i,
            forall|j: int| 0 <= j < r@.len() ==> #[trigger] r@[j] == w@[w@.len() - 1 - j],
        decreases i,
    {
        i = i - 1;
        r.push(w[i]);
    }
    assert(r@ =~= w@.reverse());
    r
}

/// Whether a walk comes before or with the walks that start at the first `n`
/// vertices.
spec fn least_before(ring: Seq<u32>, w: Seq<u32>, n: int) -> bool {
    forall|s: int|
        0 <= s < n ==> lex_le(w, #[trigger] forward_walk(ring, s)) && lex_le(
            w,
            backward_walk(ring, s),
        )
}

/// Whether neither walk from vertex `s` is `w`.
spec fn not_walk(ring: Seq<u32>, w: Seq<u32>, s: int) -> bool {
    forward_walk(ring, s) != w && backward_walk(ring, s) != w
}

proof fn lemma_start(ring: Seq<u32>, s: int, k: int)
    requires
        0 <= s <= k < ring.len(),
        least_at(ring, k),
        forall|j: int| s <= j < k ==> !least_at(ring, j),
    ensures
        start_from(ring, s) == k,
    decreases k - s,
{
    if s < k {
        assert(!least_at(ring, s));
        lemma_start(ring, s + 1, k);
    }
}

proof fn lemma_least_before(ring: Seq<u32>, w: Seq<u32>, v: Seq<u32>, n: int)
    requires
        least_before(ring, w, n),
        lex_le(v, w),
    ensures
        least_before(ring, v, n),
{
    assert forall|s: int| 0 <= s < n implies lex_le(v, #[trigger] forward_walk(ring, s)) && lex_le(
        v,
        backward_walk(ring, s),
    ) by {
        lemma_lex_transitive(v, w, forward_walk(ring, s));
        lemma_lex_transitive(v, w, backward_walk(ring, s));
    }
}

/// The walk a ring without junctions is stored as.
///
/// The same ring shared by two features (an island's outline is the hole of
/// the zone around it) must be stored once, regardless of where each feature
/// starts it and which way it winds. What both have in common is the
/// lexicographically smallest closed walk over both directions; a pinched
/// ring can pass its smallest vertex twice, so every start counts.
pub fn canonical_walk(ring: &Vec<u32>) -> (w: Vec<u32>)
    requires
        ring@.len() > 0,
    ensures
        w@ == closed_walk(ring@),
{
    let n = ring.len();
    let mut start: usize = 0;
    let mut i: usize = 1;
    while i < n
        invariant
            1 <= i <= n,
            n == ring@.len(),
            start < i,
            forall|j: int| 0 <= j < i ==> ring@[start as int] <= #[trigger] ring@[j],
            forall|j: int| 0 <= j < start ==> ring@[start as int] < #[trigger] ring@[j],
        decreases n - i,
    {
        if ring[i] < ring[start] {
            start = i;
        }
        i = i + 1;
    }
    let least = ring[start];
    let mut best = walk_forward(ring, start);
    let back = reversed(&best);
    proof {
        lemma_walk_back(ring@, start as int);
        lemma_lex_total(best@, back@);
        lemma_lex_reflexive(best@);
        lemma_lex_reflexive(back@);
    }
    if !walk_le(&best, &back) {
        best = back;
    }
    let mut s: usize = start + 1;
    proof {
        assert(least_before(ring@, best@, s as int)) by {
            assert forall|j: int| 0 <= j < s implies lex_le(
                best@,
                #[trigger] forward_walk(ring@, j),
            ) && lex_le(best@, backward_walk(ring@, j)) by {
                lemma_walk_back(ring@, j);
                if j < start {
                    assert(best@[0] < forward_walk(ring@, j)[0]);
                    assert(best@[0] < backward_walk(ring@, j)[0]);
                }
            }
        }
        assert forall|j: int| 0 <= j < start implies #[trigger] not_walk(ring@, best@, j) by {
            lemma_walk_back(ring@, j);
            assert(ring@[start as int] < ring@[j]);
        }
    }
    while s < n
        invariant
            1 <= s <= n,
            n == ring@.len(),
            start < s,
            best@.len() == n + 1,
            best@[0] == least,
            forall|j: int| 0 <= j < n ==> least <= #[trigger] ring@[j],
            best@ == forward_walk(ring@, start as int) || best@ == backward_walk(
                ring@,
                start as int,
            ),
            least_before(ring@, best@, s as int),
            forall|j: int| 0 <= j < start ==> #[trigger] not_walk(ring@, best@, j),
        decreases n - s,
    {
        if ring[s] != least {
            proof {
                assert(least < ring@[s as int]);
                assert forall|j: int| 0 <= j < s + 1 implies lex_le(
                    best@,
                    #[trigger] forward_walk(ring@, j),
                ) && lex_le(best@, backward_walk(ring@, j)) by {
                    lemma_walk_back(ring@, j);
                    if j == s {
                        assert(best@[0] < forward_walk(ring@, j)[0]);
                        assert(best@[0] < backward_walk(ring@, j)[0]);
                    }
                }
            }
            s = s + 1;
            continue;
        }
        let ghost old_best = best@;
        let fwd = walk_forward(ring, s);
        let bwd = reversed(&fwd);
        proof {
            lemma_walk_back(ring@, s as int);
            lemma_lex_total(best@, fwd@);
            lemma_lex_total(fwd@, bwd@);
            lemma_lex_total(best@, bwd@);
            lemma_lex_reflexive(fwd@);
            lemma_lex_reflexive(bwd@);
            lemma_lex_reflexive(best@);
        }
        let ghost fw = fwd@;
        let ghost bw = bwd@;
        if !walk_le(&best, &fwd) {
            best = fwd;
            start = s;
        }
        let ghost mid = best@;
        proof {
            lemma_lex_total(mid, bw);
            lemma_lex_reflexive(mid);
        }
        if !walk_le(&best, &bwd) {
            best = bwd;
            start = s;
        }
        proof {
            assert(lex_le(mid, old_best));
            assert(lex_le(best@, mid));
            lemma_lex_transitive(best@, mid, old_best);
            lemma_least_before(ring@, old_best, best@, s as int);
            assert(lex_le(mid, fw));
            lemma_lex_transitive(best@, mid, fw);
            assert(lex_le(best@, bw));
            assert(forward_walk(ring@, s as int) == fw);
            assert(least_before(ring@, best@, s as int + 1)) by {
                assert forall|j: int| 0 <= j < s + 1 implies lex_le(
                    best@,
                    #[trigger] forward_walk(ring@, j),
                ) && lex_le(best@, backward_walk(ring@, j)) by {}
            }
            if start == s {
                assert forall|j: int| 0 <= j < start implies #[trigger] not_walk(
                    ring@,
                    best@,
                    j,
                ) by {
                    // an earlier walk equal to the new best would have come
                    // before or with the old one
                    assert(lex_le(old_best, forward_walk(ring@, j)));
                    assert(lex_le(old_best, backward_walk(ring@, j)));
                    assert(!lex_le(old_best, best@)) by {
                        if lex_le(old_best, best@) {
                            lemma_lex_transitive(old_best, best@, mid);
                        }
                    }
                }
            }
        }
        s = s + 1;
    }
    proof {
        assert(is_least(ring@, best@));
        assert(least_at(ring@, start as int));
        assert forall|j: int| 0 <= j < start implies !least_at(ring@, j) by {
            let f = forward_walk(ring@, j);
            let b = backward_walk(ring@, j);
            assert(not_walk(ring@, best@, j));
            assert(lex_le(best@, f) && lex_le(best@, b));
            let fs = forward_walk(ring@, start as int);
            if is_least(ring@, f) {
                assert(lex_le(f, fs) && lex_le(f, backward_walk(ring@, start as int)));
                lemma_lex_antisymmetric(f, best@);
            }
            if is_least(ring@, b) {
                assert(lex_le(b, fs) && lex_le(b, backward_walk(ring@, start as int)));
                lemma_lex_antisymmetric(b, best@);
            }
        }
        lemma_start(ring@, 0, start as int);
    }
    walk_forward(ring, start)
}

/// A ring from another start.
pub open spec fn rotated<T>(ring: Seq<T>, k: int) -> Seq<T> {
    Seq::new(ring.len(), |i: int| ring[(i + k) % (ring.len() as int)])
}

/// Whether two rings run through the same vertices around, possibly from
/// another start and possibly the other way.
pub open spec fn same_cycle(a: Seq<u32>, b: Seq<u32>) -> bool {
    exists|k: int|
        0 <= k < a.len() && (b == #[trigger] rotated(a, k) || b == rotated(a, k).reverse())
}

/// A walk as it is stored: the smaller of its two directions.
pub open spec fn canon(w: Seq<u32>) -> Seq<u32> {
    if lex_le(w, w.reverse()) {
        w
    } else {
        w.reverse()
    }
}

/// Whether `w` is a closed walk around the ring from vertex `s`.
pub open spec fn walk_at(ring: Seq<u32>, w: Seq<u32>, s: int) -> bool {
    0 <= s < ring.len() && (w == forward_walk(ring, s) || w == backward_walk(ring, s))
}

proof fn lemma_least_upto(ring: Seq<u32>, n: int) -> (s: int)
    requires
        1 <= n <= ring.len(),
    ensures
        0 <= s < n,
        least_before(ring, forward_walk(ring, s), n) || least_before(
            ring,
            backward_walk(ring, s),
            n,
        ),
    decreases n,
{
    let f = forward_walk(ring, n - 1);
    let b = backward_walk(ring, n - 1);
    lemma_lex_total(f, b);
    lemma_lex_reflexive(f);
    lemma_lex_reflexive(b);
    let c = if lex_le(f, b) { f } else { b };
    if n == 1 {
        assert(least_before(ring, c, 1));
        0
    } else {
        let s = lemma_least_upto(ring, n - 1);
        let w = if least_before(ring, forward_walk(ring, s), n - 1) {
            forward_walk(ring, s)
        } else {
            backward_walk(ring, s)
        };
        lemma_lex_total(w, c);
        if lex_le(w, c) {
            lemma_lex_transitive(w, c, f);
            lemma_lex_transitive(w, c, b);
            assert(least_before(ring, w, n)) by {
                assert forall|j: int| 0 <= j < n implies lex_le(w, #[trigger] forward_walk(ring, j))
                    && lex_le(w, backward_walk(ring, j)) by {}
            }
            s
        } else {
            lemma_least_before(ring, w, c, n - 1);
            assert(least_before(ring, c, n)) by {
                assert forall|j: int| 0 <= j < n implies lex_le(c, #[trigger] forward_walk(ring, j))
                    && lex_le(c, backward_walk(ring, j)) by {}
            }
            n - 1
        }
    }
}

proof fn lemma_start_found(ring: Seq<u32>, s: int, k: int)
    requires
        0 <= s <= k < ring.len(),
        least_at(ring, k),
    ensures
        0 <= start_from(ring, s) < ring.len(),
        least_at(ring, start_from(ring, s)),
    decreases k - s,
{
    if !least_at(ring, s) {
        lemma_start_found(ring, s + 1, k);
    }
}

/// The stored form of a closed ring is its least closed walk.
pub proof fn lemma_stored_least(ring: Seq<u32>)
    requires
        ring.len() > 0,
    ensures
        0 <= start_from(ring, 0) < ring.len(),
        is_least(ring, canon(closed_walk(ring))),
        walk_at(ring, canon(closed_walk(ring)), start_from(ring, 0)),
{
    let n = ring.len() as int;
    let k = lemma_least_upto(ring, n);
    assert(least_at(ring, k));
    lemma_start_found(ring, 0, k);
    let s = start_from(ring, 0);
    lemma_walk_back(ring, s);
    let f = forward_walk(ring, s);
    let b = backward_walk(ring, s);
    assert(f.reverse() == b);
    if is_least(ring, f) {
        assert(lex_le(f, b));
    } else {
        assert(is_least(ring, b));
        assert(lex_le(b, f));
        if lex_le(f, b) {
            lemma_lex_antisymmetric(f, b);
        }
    }
}

proof fn lemma_mod_shift(a: int, k: int, n: int)
    requires
        0 < n,
    ensures
        (a % n + k) % n == (a + k) % n,
        (k + a % n) % n == (k + a) % n,
{
    vstd::arithmetic::div_mod::lemma_add_mod_noop_right(k, a, n);
}

/// Every walk around a ring is a walk around any ring of the same cycle.
proof fn lemma_walks_shared(a: Seq<u32>, b: Seq<u32>, k: int, s: int) -> (t: int)
    requires
        0 <= k < a.len(),
        0 <= s < a.len(),
        b == rotated(a, k) || b == rotated(a, k).reverse(),
    ensures
        0 <= t < b.len(),
        b.len() == a.len(),
        ({
            ||| forward_walk(a, s) == forward_walk(b, t) && backward_walk(a, s) == backward_walk(
                b,
                t,
            )
            ||| forward_walk(a, s) == backward_walk(b, t) && backward_walk(a, s) == forward_walk(
                b,
                t,
            )
        }),
{
    let n = a.len() as int;
    let r = rotated(a, k);
    let u = (s - k + n) % n;
    vstd::arithmetic::div_mod::lemma_mod_bound(s - k + n, n);
    // the walk from s around a is the walk from u around r
    assert forall|j: int| 0 <= j <= n implies forward_walk(a, s)[j] == #[trigger] forward_walk(
        r,
        u,
    )[j] by {
        lemma_rotated_index(s, k, n, j);
    }
    assert(forward_walk(a, s) =~= forward_walk(r, u));
    lemma_walk_back(a, s);
    lemma_walk_back(r, u);
    if b == r {
        u
    } else {
        // vertex u of r is vertex n - 1 - u of its reverse
        let t = n - 1 - u;
        assert forall|j: int| 0 <= j <= n implies backward_walk(b, t)[j] == #[trigger] forward_walk(
            r,
            u,
        )[j] by {
            lemma_reversed_index(u, n, j);
            let i = (t + n - j) % n;
            assert(b[i] == r[n - 1 - i]);
        }
        assert(backward_walk(b, t) =~= forward_walk(r, u));
        lemma_walk_back(b, t);
        assert(forward_walk(b, t).reverse().reverse() =~= forward_walk(b, t));
        t
    }
}

proof fn lemma_rotated_index(s: int, k: int, n: int, j: int)
    requires
        0 <= s < n,
        0 <= k < n,
        0 <= j <= n,
    ensures
        0 <= ((s - k + n) % n + j) % n < n,
        (((s - k + n) % n + j) % n + k) % n == (s + j) % n,
{
    let u = (s - k + n) % n;
    vstd::arithmetic::div_mod::lemma_mod_bound(u + j, n);
    lemma_mod_shift(s - k + n, j, n);
    lemma_mod_shift(u + j, k, n);
    lemma_mod_shift(s - k + n, j + k, n);
    assert(u + j + k == u + (j + k));
    assert((s - k + n) + (j + k) == s + j + n);
    vstd::arithmetic::div_mod::lemma_mod_add_multiples_vanish(s + j, n);
    assert((u + (j + k)) % n == (s + j + n) % n);
    assert(((u + j) % n + k) % n == (u + j + k) % n);
}

proof fn lemma_reversed_index(u: int, n: int, j: int)
    requires
        0 <= u < n,
        0 <= j <= n,
    ensures
        0 <= (n - 1 - u + n - j) % n < n,
        n - 1 - (n - 1 - u + n - j) % n == (u + j) % n,
{
    let x = n - 1 - u + n - j;
    vstd::arithmetic::div_mod::lemma_mod_bound(x, n);
    vstd::arithmetic::div_mod::lemma_mod_bound(u + j, n);
    // x + (u + j) == 2n - 1
    let y = (u + j) % n;
    vstd::arithmetic::div_mod::lemma_fundamental_div_mod(u + j, n);
    vstd::arithmetic::div_mod::lemma_fundamental_div_mod(x, n);
    let p = (u + j) / n;
    let q = x / n;
    assert((x % n + y) + n * (p + q) == 2 * n - 1) by (nonlinear_arith)
        requires
            x == n * q + x % n,
            u + j == n * p + y,
            x + (u + j) == 2 * n - 1,
    ;
    assert(p + q == 1) by (nonlinear_arith)
        requires
            (x % n + y) + n * (p + q) == 2 * n - 1,
            0 <= x % n < n,
            0 <= y < n,
            0 < n,
    ;
    assert(n * (p + q) == n) by (nonlinear_arith)
        requires
            p + q == 1,
    ;
}

/// A ring without junctions is stored alike whatever vertex it starts at and
/// whichever way it winds: an island's outline and the hole around it become
/// one arc.
pub proof fn lemma_same_cycle_stored_alike(a: Seq<u32>, b: Seq<u32>)
    requires
        a.len() > 0,
        same_cycle(a, b),
    ensures
        canon(closed_walk(a)) == canon(closed_walk(b)),
{
    let k = choose|k: int|
        0 <= k < a.len() && (b == #[trigger] rotated(a, k) || b == rotated(a, k).reverse());
    let n = a.len() as int;
    assert(b.len() == n);
    lemma_stored_least(a);
    lemma_stored_least(b);
    let u = canon(closed_walk(a));
    let v = canon(closed_walk(b));
    let s = start_from(a, 0);
    let t = lemma_walks_shared(a, b, k, s);
    assert(lex_le(v, forward_walk(b, t)) && lex_le(v, backward_walk(b, t)));
    assert(lex_le(v, u));
    // and back: vertex start of b is some vertex of a
    let w = start_from(b, 0);
    let i = lemma_walk_source(a, b, k, w);
    assert(lex_le(u, forward_walk(a, i)) && lex_le(u, backward_walk(a, i)));
    assert(lex_le(u, v));
    lemma_lex_antisymmetric(u, v);
}

proof fn lemma_walk_source(a: Seq<u32>, b: Seq<u32>, k: int, w: int) -> (i: int)
    requires
        0 <= k < a.len(),
        b == rotated(a, k) || b == rotated(a, k).reverse(),
        0 <= w < b.len(),
    ensures
        0 <= i < a.len(),
        ({
            ||| forward_walk(a, i) == forward_walk(b, w) && backward_walk(a, i) == backward_walk(
                b,
                w,
            )
            ||| forward_walk(a, i) == backward_walk(b, w) && backward_walk(a, i) == forward_walk(
                b,
                w,
            )
        }),
{
    let n = a.len() as int;
    let r = rotated(a, k);
    assert(b.len() == n);
    let m = if b == r { w } else { n - 1 - w };
    let i = (m + k) % n;
    vstd::arithmetic::div_mod::lemma_mod_bound(m + k, n);
    // the shared walk of i starts at w
    let u = (i - k + n) % n;
    lemma_mod_shift(m + k, n - k, n);
    assert(i - k + n == i + (n - k));
    assert((m + k) + (n - k) == m + n);
    vstd::arithmetic::div_mod::lemma_mod_add_multiples_vanish(m, n);
    vstd::arithmetic::div_mod::lemma_small_mod(m as nat, n as nat);
    assert(u == m);
    assert forall|j: int| 0 <= j <= n implies forward_walk(a, i)[j] == #[trigger] forward_walk(
        r,
        u,
    )[j] by {
        lemma_rotated_index(i, k, n, j);
    }
    assert(forward_walk(a, i) =~= forward_walk(r, u));
    lemma_walk_back(a, i);
    lemma_walk_back(r, u);
    if b != r {
        assert forall|j: int| 0 <= j <= n implies backward_walk(b, w)[j] == #[trigger] forward_walk(
            r,
            u,
        )[j] by {
            lemma_reversed_index(u, n, j);
            let p = (w + n - j) % n;
            assert(b[p] == r[n - 1 - p]);
        }
        assert(backward_walk(b, w) =~= forward_walk(r, u));
        lemma_walk_back(b, w);
        assert(forward_walk(b, w).reverse().reverse() =~= forward_walk(b, w));
    }
    i
}

} // verus!
