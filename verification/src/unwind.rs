//! What cleaning does to a path, vertex by vertex: one artifact at a time goes, each
//! of them an artifact where it stands when it goes, and each is counted as what it
//! is.

use vstd::prelude::*;

use crate::clean::{
    clean_spec, lemma_bend_means, one_more, open_bend, open_run, ring_bend, ring_next, ring_pass,
    ring_passes, ring_prev, ring_run, tally_add, tally_none, turns, unclosed, Bend, Tally, Vertex,
};

verus! {

/// The vertex before vertex `i`, around a ring or along a path.
pub open spec fn comes_from(a: Seq<Vertex>, i: int) -> Vertex {
    if i == 0 {
        a[a.len() - 1]
    } else {
        a[i - 1]
    }
}

/// The vertex behind vertex `i` around a ring; at the end of a path, that itself.
pub open spec fn goes_to(a: Seq<Vertex>, i: int, ring: bool) -> Vertex {
    if i + 1 < a.len() {
        a[i + 1]
    } else if ring {
        a[0]
    } else {
        a[i]
    }
}

/// Whether vertex `i` may go, and what is counted then: it is no turn. Of a path
/// that is no ring the first vertex stays, and the last goes only where it repeats
/// the one before.
pub open spec fn may_drop(a: Seq<Vertex>, i: int, ring: bool, t: Tally, u: Tally) -> bool {
    let (p, r) = (comes_from(a, i), goes_to(a, i, ring));
    &&& 0 <= i < a.len()
    &&& !turns(p, a[i], r)
    &&& !ring ==> i > 0
    &&& !ring && i + 1 == a.len() ==> a[i] == a[i - 1]
    &&& one_more(t, u, p, a[i], r)
}

/// Whether `n` vertices of `a` may go one after the other so that `b` is left, and
/// the count rises from `t` to `u` meanwhile.
pub open spec fn unwinds(a: Seq<Vertex>, t: Tally, b: Seq<Vertex>, u: Tally, ring: bool, n: nat) -> bool
    decreases n,
{
    if n == 0 {
        a == b && t == u
    } else {
        exists|i: int, v: Tally| #[trigger]
            may_drop(a, i, ring, t, v) && unwinds(a.remove(i), v, b, u, ring, (n - 1) as nat)
    }
}

/// One vertex goes, then others.
proof fn lemma_drop(
    a: Seq<Vertex>,
    i: int,
    t: Tally,
    v: Tally,
    b: Seq<Vertex>,
    u: Tally,
    ring: bool,
)
    requires
        may_drop(a, i, ring, t, v),
        b.len() <= a.len() - 1,
        unwinds(a.remove(i), v, b, u, ring, (a.len() - 1 - b.len()) as nat),
    ensures
        unwinds(a, t, b, u, ring, (a.len() - b.len()) as nat),
{
    assert(may_drop(a, i, ring, t, v));
    assert((a.len() - b.len() - 1) as nat == (a.len() - 1 - b.len()) as nat);
}

/// What goes one after the other may go on.
proof fn lemma_then(
    a: Seq<Vertex>,
    t: Tally,
    b: Seq<Vertex>,
    u: Tally,
    c: Seq<Vertex>,
    w: Tally,
    ring: bool,
    n: nat,
    m: nat,
)
    requires
        unwinds(a, t, b, u, ring, n),
        unwinds(b, u, c, w, ring, m),
    ensures
        unwinds(a, t, c, w, ring, n + m),
    decreases n,
{
    if n > 0 {
        let (i, v) = choose|i: int, v: Tally| #[trigger]
            may_drop(a, i, ring, t, v) && unwinds(a.remove(i), v, b, u, ring, (n - 1) as nat);
        lemma_then(a.remove(i), v, b, u, c, w, ring, (n - 1) as nat, m);
        assert((n + m - 1) as nat == (n - 1) as nat + m);
        assert(may_drop(a, i, ring, t, v));
    }
}

/// A path unwinds to what cleaning leaves of it.
proof fn lemma_open(a: Seq<Vertex>, i: int, t: Tally)
    requires
        1 <= i,
    ensures
        open_run(a, i, t).0.len() <= a.len(),
        unwinds(
            a,
            t,
            open_run(a, i, t).0,
            open_run(a, i, t).1,
            false,
            (a.len() - open_run(a, i, t).0.len()) as nat,
        ),
    decreases 2 * a.len() - i,
{
    if i < a.len() {
        if open_bend(a, i) != Bend::Keep {
            let v = tally_add(t, open_bend(a, i));
            let j = if i <= 1 {
                1
            } else {
                i - 1
            };
            lemma_open(a.remove(i), j, v);
            lemma_bend_means(comes_from(a, i), a[i], goes_to(a, i, false));
            assert(may_drop(a, i, false, t, v));
            let (b, u) = open_run(a, i, t);
            lemma_drop(a, i, t, v, b, u, false);
        } else if i + 1 < a.len() {
            lemma_open(a, i + 1, t);
        }
    }
}

/// A ring unwinds to what a pass leaves of it.
proof fn lemma_pass(a: Seq<Vertex>, i: int, t: Tally, changed: bool)
    requires
        0 <= i,
    ensures
        ring_pass(a, i, t, changed).0.len() <= a.len(),
        unwinds(
            a,
            t,
            ring_pass(a, i, t, changed).0,
            ring_pass(a, i, t, changed).1,
            true,
            (a.len() - ring_pass(a, i, t, changed).0.len()) as nat,
        ),
    decreases a.len() - i,
{
    if a.len() >= 3 && i < a.len() {
        if ring_bend(a, i) == Bend::Keep {
            lemma_pass(a, i + 1, t, changed);
        } else {
            let v = tally_add(t, ring_bend(a, i));
            lemma_pass(a.remove(i), i, v, true);
            assert(comes_from(a, i) == ring_prev(a, i) && goes_to(a, i, true) == ring_next(a, i));
            lemma_bend_means(ring_prev(a, i), a[i], ring_next(a, i));
            assert(may_drop(a, i, true, t, v));
            let (b, u, _) = ring_pass(a, i, t, changed);
            lemma_drop(a, i, t, v, b, u, true);
        }
    }
}

/// A ring unwinds to what passes leave of it.
proof fn lemma_passes(a: Seq<Vertex>, t: Tally)
    ensures
        ring_passes(a, t).0.len() <= a.len(),
        unwinds(
            a,
            t,
            ring_passes(a, t).0,
            ring_passes(a, t).1,
            true,
            (a.len() - ring_passes(a, t).0.len()) as nat,
        ),
    decreases a.len(),
{
    lemma_pass(a, 0, t, false);
    let (b, u, changed) = ring_pass(a, 0, t, false);
    if changed && b.len() >= 3 && b.len() < a.len() {
        lemma_passes(b, u);
        let (c, w) = ring_passes(b, u);
        lemma_then(
            a,
            t,
            b,
            u,
            c,
            w,
            true,
            (a.len() - b.len()) as nat,
            (b.len() - c.len()) as nat,
        );
    }
}

/// A ring unwinds to what cleaning leaves of it.
proof fn lemma_ring(a: Seq<Vertex>, t: Tally)
    ensures
        ring_run(a, t).0.len() <= a.len(),
        unwinds(
            a,
            t,
            ring_run(a, t).0,
            ring_run(a, t).1,
            true,
            (a.len() - ring_run(a, t).0.len()) as nat,
        ),
{
    lemma_passes(a, t);
    let (b, u) = ring_passes(a, t);
    if b.len() == 2 && b[0] == b[1] {
        let w = tally_add(u, Bend::Duplicate);
        let c = b.drop_last();
        assert(b.remove(1) =~= c);
        lemma_bend_means(b[0], b[1], b[0]);
        assert(may_drop(b, 1, true, u, w));
        assert(unwinds(b.remove(1), w, c, w, true, 0));
        lemma_drop(b, 1, u, w, c, w, true);
        lemma_then(a, t, b, u, c, w, true, (a.len() - b.len()) as nat, 1);
    }
}

/// A ring's vertices, the one that closes it left out.
pub open spec fn around(a: Seq<Vertex>) -> Seq<Vertex> {
    if a.len() > 1 && a[0] == a[a.len() - 1] {
        a.take(a.len() - 1)
    } else {
        a
    }
}

/// What cleaning leaves of an arc is what is left when artifacts go one after the
/// other, and its tally counts each of them as what it is. An arc that is closed is
/// closed again.
pub proof fn lemma_artifacts_go_one_by_one(a: Seq<Vertex>, closed: bool)
    ensures
        !closed ==> {
            let (b, t) = clean_spec(a, false);
            &&& b.len() <= a.len()
            &&& unwinds(a, tally_none(), b, t, false, (a.len() - b.len()) as nat)
        },
        closed ==> {
            let (b, t) = clean_spec(a, true);
            &&& b.len() > 1 ==> b[0] == b[b.len() - 1]
            &&& around(b).len() <= around(a).len()
            &&& unwinds(
                around(a),
                tally_none(),
                around(b),
                t,
                true,
                (around(a).len() - around(b).len()) as nat,
            )
        },
{
    if closed {
        let ring = unclosed(a);
        assert(ring =~= around(a));
        lemma_ring(ring, tally_none());
        let (c, t) = ring_run(ring, tally_none());
        let b = clean_spec(a, true).0;
        if c.len() > 1 {
            assert(b == c.push(c[0]));
            assert(around(b) =~= c);
        } else {
            assert(around(b) =~= c);
        }
    } else {
        lemma_open(a, 1, tally_none());
    }
}

} // verus!
