//! Lexicographic order on vertex-id walks.

use vstd::prelude::*;

verus! {

/// Whether `a` comes before or with `b` from index `i` on, both agreeing
/// before it.
pub open spec fn lex_from(a: Seq<u32>, b: Seq<u32>, i: int) -> bool
    decreases a.len() - i,
{
    if i < 0 || i >= a.len() {
        true
    } else if i >= b.len() {
        false
    } else {
        a[i] < b[i] || (a[i] == b[i] && lex_from(a, b, i + 1))
    }
}

/// Whether `a` comes before or with `b`.
pub open spec fn lex_le(a: Seq<u32>, b: Seq<u32>) -> bool {
    lex_from(a, b, 0)
}

proof fn lemma_total_from(a: Seq<u32>, b: Seq<u32>, i: int)
    requires
        0 <= i,
    ensures
        lex_from(a, b, i) || lex_from(b, a, i),
    decreases a.len() - i,
{
    if i < a.len() && i < b.len() {
        lemma_total_from(a, b, i + 1);
    }
}

proof fn lemma_antisymmetric_from(a: Seq<u32>, b: Seq<u32>, i: int)
    requires
        0 <= i,
        i <= a.len(),
        i <= b.len(),
        forall|j: int| 0 <= j < i ==> a[j] == b[j],
        lex_from(a, b, i),
        lex_from(b, a, i),
    ensures
        a == b,
    decreases a.len() - i,
{
    if i < a.len() && i < b.len() {
        lemma_antisymmetric_from(a, b, i + 1);
    } else {
        assert(a =~= b);
    }
}

proof fn lemma_transitive_from(a: Seq<u32>, b: Seq<u32>, c: Seq<u32>, i: int)
    requires
        0 <= i,
        lex_from(a, b, i),
        lex_from(b, c, i),
    ensures
        lex_from(a, c, i),
    decreases a.len() - i,
{
    if i < a.len() && i < b.len() && i < c.len() && a[i] == b[i] && b[i] == c[i] {
        lemma_transitive_from(a, b, c, i + 1);
    }
}

/// Of two walks one comes before or with the other.
pub proof fn lemma_lex_total(a: Seq<u32>, b: Seq<u32>)
    ensures
        lex_le(a, b) || lex_le(b, a),
{
    lemma_total_from(a, b, 0);
}

/// Walks that come before or with each other are equal.
pub proof fn lemma_lex_antisymmetric(a: Seq<u32>, b: Seq<u32>)
    requires
        lex_le(a, b),
        lex_le(b, a),
    ensures
        a == b,
{
    lemma_antisymmetric_from(a, b, 0);
}

/// The order is transitive.
pub proof fn lemma_lex_transitive(a: Seq<u32>, b: Seq<u32>, c: Seq<u32>)
    requires
        lex_le(a, b),
        lex_le(b, c),
    ensures
        lex_le(a, c),
{
    lemma_transitive_from(a, b, c, 0);
}

/// A walk comes with itself.
pub proof fn lemma_lex_reflexive(a: Seq<u32>)
    ensures
        lex_le(a, a),
{
    lemma_total_from(a, a, 0);
}

/// Whether `a` comes before or with `b`.
pub fn walk_le(a: &Vec<u32>, b: &Vec<u32>) -> (le: bool)
    ensures
        le == lex_le(a@, b@),
{
    let mut i: usize = 0;
    while i < a.len()
        invariant
            i <= a@.len(),
            lex_le(a@, b@) == lex_from(a@, b@, i as int),
        decreases a@.len() - i,
    {
        if i >= b.len() {
            return false;
        }
        if a[i] != b[i] {
            return a[i] < b[i];
        }
        i = i + 1;
    }
    true
}

/// Whether two walks are equal.
pub fn same_walk(a: &Vec<u32>, b: &Vec<u32>) -> (same: bool)
    ensures
        same == (a@ == b@),
{
    if a.len() != b.len() {
        return false;
    }
    let mut i: usize = 0;
    while i < a.len()
        invariant
            i <= a@.len(),
            a@.len() == b@.len(),
            forall|j: int| 0 <= j < i ==> a@[j] == b@[j],
        decreases a@.len() - i,
    {
        if a[i] != b[i] {
            return false;
        }
        i = i + 1;
    }
    assert(a@ =~= b@);
    true
}

} // verus!
