//! Pools that store each distinct value once, in order of first appearance.

use vstd::prelude::*;

verus! {

/// The first index at or behind `i` where `x` stands, or the length.
pub open spec fn position_from<T>(s: Seq<T>, x: T, i: int) -> int
    decreases s.len() - i,
{
    if i < 0 || i >= s.len() {
        s.len() as int
    } else if s[i] == x {
        i
    } else {
        position_from(s, x, i + 1)
    }
}

/// The first index where `x` stands, or the length where it does not occur.
pub open spec fn position<T>(s: Seq<T>, x: T) -> int {
    position_from(s, x, 0)
}

/// A pool with `x` in it: unchanged where it holds `x` already.
pub open spec fn pooled<T>(pool: Seq<T>, x: T) -> Seq<T> {
    if position(pool, x) < pool.len() {
        pool
    } else {
        pool.push(x)
    }
}

/// The pool of a sequence's first `n` values.
pub open spec fn pool_of<T>(s: Seq<T>, n: int) -> Seq<T>
    decreases n,
{
    if n <= 0 {
        Seq::empty()
    } else {
        pooled(pool_of(s, n - 1), s[n - 1])
    }
}

/// Whether a pool stores nothing twice.
pub open spec fn distinct<T>(pool: Seq<T>) -> bool {
    forall|i: int, j: int| 0 <= i < j < pool.len() ==> #[trigger] pool[i] != #[trigger] pool[j]
}

/// What `position_from` finds.
pub proof fn lemma_position_from<T>(s: Seq<T>, x: T, i: int)
    requires
        0 <= i <= s.len(),
    ensures
        i <= position_from(s, x, i) <= s.len(),
        position_from(s, x, i) < s.len() ==> s[position_from(s, x, i)] == x,
        forall|j: int| i <= j < position_from(s, x, i) ==> s[j] != x,
    decreases s.len() - i,
{
    if i < s.len() && s[i] != x {
        lemma_position_from(s, x, i + 1);
    }
}

/// A position found by search is the first one.
pub proof fn lemma_position_is<T>(s: Seq<T>, x: T, k: int)
    requires
        0 <= k <= s.len(),
        forall|j: int| 0 <= j < k ==> s[j] != x,
        k < s.len() ==> s[k] == x,
    ensures
        position(s, x) == k,
{
    lemma_position_from(s, x, 0);
    let p = position(s, x);
    if p < k {
        assert(s[p] != x);
    }
    if k < p {
        assert(s[k] != x);
    }
}

/// A pooled value is found in the pool, and every earlier position stays.
pub proof fn lemma_pooled<T>(pool: Seq<T>, x: T)
    ensures
        pool.len() <= pooled(pool, x).len() <= pool.len() + 1,
        pooled(pool, x).take(pool.len() as int) == pool,
        forall|i: int| 0 <= i < pool.len() ==> pooled(pool, x)[i] == pool[i],
        position(pooled(pool, x), x) == position(pool, x),
        0 <= position(pool, x) < pooled(pool, x).len(),
        pooled(pool, x)[position(pool, x)] == x,
        distinct(pool) ==> distinct(pooled(pool, x)),
{
    lemma_position_from(pool, x, 0);
    let q = pooled(pool, x);
    assert(q.take(pool.len() as int) =~= pool);
    let k = position(pool, x);
    assert forall|j: int| 0 <= j < k implies q[j] != x by {
        assert(pool[j] != x);
    }
    lemma_position_is(q, x, k);
}

/// A value's position in a pool stays as the pool grows.
pub proof fn lemma_position_stays<T>(pool: Seq<T>, longer: Seq<T>, x: T)
    requires
        pool.len() <= longer.len(),
        forall|i: int| 0 <= i < pool.len() ==> longer[i] == pool[i],
        position(pool, x) < pool.len(),
    ensures
        position(longer, x) == position(pool, x),
{
    lemma_position_from(pool, x, 0);
    let k = position(pool, x);
    assert(longer[k] == pool[k]);
    assert forall|j: int| 0 <= j < k implies longer[j] != x by {
        assert(longer[j] == pool[j]);
        assert(pool[j] != x);
    }
    lemma_position_is(longer, x, k);
}

/// A sequence's pool holds each of its values once: each is found, and
/// nothing else is stored.
pub proof fn lemma_pool_of<T>(s: Seq<T>, n: int)
    requires
        0 <= n <= s.len(),
    ensures
        distinct(pool_of(s, n)),
        pool_of(s, n).len() <= n,
        forall|i: int|
            #![trigger s[i]]
            0 <= i < n ==> 0 <= position(pool_of(s, n), s[i]) < pool_of(s, n).len() && pool_of(
                s,
                n,
            )[position(pool_of(s, n), s[i])] == s[i],
    decreases n,
{
    if n > 0 {
        lemma_pool_of(s, n - 1);
        let p = pool_of(s, n - 1);
        lemma_pooled(p, s[n - 1]);
        assert forall|i: int|
            #![trigger s[i]]
            0 <= i < n implies 0 <= position(pool_of(s, n), s[i]) < pool_of(s, n).len() && pool_of(
            s,
            n,
        )[position(pool_of(s, n), s[i])] == s[i] by {
            if i < n - 1 {
                lemma_position_stays(p, pool_of(s, n), s[i]);
            }
        }
    }
}

/// A pool depends on the values pooled alone.
pub proof fn lemma_pool_prefix<T>(a: Seq<T>, b: Seq<T>, n: int)
    requires
        n <= a.len(),
        n <= b.len(),
        forall|i: int| 0 <= i < n ==> a[i] == b[i],
    ensures
        pool_of(a, n) == pool_of(b, n),
    decreases n,
{
    if n > 0 {
        lemma_pool_prefix(a, b, n - 1);
    }
}

/// A pool only grows.
pub proof fn lemma_pool_grows<T>(s: Seq<T>, m: int, n: int)
    requires
        0 <= m <= n <= s.len(),
    ensures
        pool_of(s, m).len() <= pool_of(s, n).len(),
        forall|i: int| 0 <= i < pool_of(s, m).len() ==> pool_of(s, n)[i] == pool_of(s, m)[i],
    decreases n - m,
{
    if m < n {
        lemma_pool_grows(s, m, n - 1);
        lemma_pooled(pool_of(s, n - 1), s[n - 1]);
    }
}

/// A pool stores nothing but pooled values.
pub proof fn lemma_pool_source<T>(s: Seq<T>, n: int, i: int)
    requires
        0 <= n <= s.len(),
        0 <= i < pool_of(s, n).len(),
    ensures
        exists|k: int| 0 <= k < n && #[trigger] s[k] == pool_of(s, n)[i],
    decreases n,
{
    if n > 0 {
        let p = pool_of(s, n - 1);
        lemma_pooled(p, s[n - 1]);
        if i < p.len() {
            lemma_pool_source(s, n - 1, i);
            let k = choose|k: int| 0 <= k < n - 1 && #[trigger] s[k] == p[i];
            assert(s[k] == pool_of(s, n)[i]);
        } else {
            assert(s[n - 1] == pool_of(s, n)[i]);
        }
    }
}

} // verus!
