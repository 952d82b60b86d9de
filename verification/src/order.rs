//! Indices ordered by key.

use vstd::multiset::Multiset;
use vstd::prelude::*;

verus! {

/// Whether keys ascend along the indices.
pub open spec fn ordered(keys: Seq<i32>, idx: Seq<usize>) -> bool {
    forall|a: int, b: int|
        0 <= a < b < idx.len() ==> keys[(#[trigger] idx[a]) as int] <= keys[(#[trigger] idx[b]) as int]
}

/// Whether every index names a key.
pub open spec fn in_range(keys: Seq<i32>, idx: Seq<usize>) -> bool {
    forall|a: int| 0 <= a < idx.len() ==> (#[trigger] idx[a]) < keys.len()
}

proof fn lemma_range_of_multiset(keys: Seq<i32>, a: Seq<usize>, b: Seq<usize>)
    requires
        in_range(keys, a),
        a.to_multiset() == b.to_multiset(),
    ensures
        in_range(keys, b),
{
    broadcast use vstd::seq_lib::group_to_multiset_ensures;

    assert forall|i: int| 0 <= i < b.len() implies (#[trigger] b[i]) < keys.len() by {
        assert(b.to_multiset().count(b[i]) > 0) by {
            assert(b.contains(b[i]));
        }
        assert(a.to_multiset().count(b[i]) > 0);
        assert(a.contains(b[i]));
        let j = choose|j: int| 0 <= j < a.len() && a[j] == b[i];
        assert(a[j] < keys.len());
    }
}

/// Merges two ordered runs.
fn merge(keys: &[i32], a: &Vec<usize>, b: &Vec<usize>) -> (out: Vec<usize>)
    requires
        in_range(keys@, a@),
        in_range(keys@, b@),
        ordered(keys@, a@),
        ordered(keys@, b@),
    ensures
        ordered(keys@, out@),
        out@.to_multiset() == a@.to_multiset().add(b@.to_multiset()),
        out@.len() == a@.len() + b@.len(),
{
    broadcast use vstd::seq_lib::group_to_multiset_ensures;

    let mut out: Vec<usize> = Vec::new();
    let mut i: usize = 0;
    let mut j: usize = 0;
    proof {
        assert(a@.take(0).to_multiset() =~= Multiset::<usize>::empty());
        assert(b@.take(0).to_multiset() =~= Multiset::<usize>::empty());
        assert(out@.to_multiset() =~= a@.take(0).to_multiset().add(b@.take(0).to_multiset()));
    }
    while i < a.len() || j < b.len()
        invariant
            i <= a@.len(),
            j <= b@.len(),
            in_range(keys@, a@),
            in_range(keys@, b@),
            ordered(keys@, a@),
            ordered(keys@, b@),
            ordered(keys@, out@),
            out@.len() == i + j,
            out@.to_multiset() =~= a@.take(i as int).to_multiset().add(
                b@.take(j as int).to_multiset(),
            ),
            forall|x: int, y: int|
                0 <= x < out@.len() && i <= y < a@.len() ==> keys@[(#[trigger] out@[x]) as int]
                    <= keys@[(#[trigger] a@[y]) as int],
            forall|x: int, y: int|
                0 <= x < out@.len() && j <= y < b@.len() ==> keys@[(#[trigger] out@[x]) as int]
                    <= keys@[(#[trigger] b@[y]) as int],
        decreases a@.len() + b@.len() - i - j,
    {
        broadcast use vstd::seq_lib::group_to_multiset_ensures;

        let from_a = j >= b.len() || (i < a.len() && keys[a[i]] <= keys[b[j]]);
        let ghost before = out@;
        if from_a {
            out.push(a[i]);
            proof {
                assert(a@.take(i as int + 1) =~= a@.take(i as int).push(a@[i as int]));
                assert forall|x: int, y: int|
                    0 <= x < out@.len() && j <= y < b@.len() implies keys@[(
                #[trigger] out@[x]) as int] <= keys@[(#[trigger] b@[y]) as int] by {
                    if x == before.len() {
                        if j < y {
                            assert(keys@[b@[j as int] as int] <= keys@[b@[y] as int]);
                        }
                    }
                }
            }
            i = i + 1;
        } else {
            out.push(b[j]);
            proof {
                assert(b@.take(j as int + 1) =~= b@.take(j as int).push(b@[j as int]));
                assert forall|x: int, y: int|
                    0 <= x < out@.len() && i <= y < a@.len() implies keys@[(
                #[trigger] out@[x]) as int] <= keys@[(#[trigger] a@[y]) as int] by {
                    if x == before.len() {
                        if i < y {
                            assert(keys@[a@[i as int] as int] <= keys@[a@[y] as int]);
                        }
                    }
                }
            }
            j = j + 1;
        }
    }
    proof {
        assert(a@.take(a@.len() as int) =~= a@);
        assert(b@.take(b@.len() as int) =~= b@);
    }
    out
}

/// The indices `from..to` ordered by key.
fn sort_range(keys: &[i32], from: usize, to: usize) -> (out: Vec<usize>)
    requires
        from <= to <= keys@.len(),
    ensures
        ordered(keys@, out@),
        out@.len() == to - from,
        out@.to_multiset() == Seq::new((to - from) as nat, |k: int| (from + k) as usize).to_multiset(),
    decreases to - from,
{
    broadcast use vstd::seq_lib::group_to_multiset_ensures;

    let ghost want = Seq::new((to - from) as nat, |k: int| (from + k) as usize);
    if to - from <= 1 {
        let mut out: Vec<usize> = Vec::new();
        if from < to {
            out.push(from);
        }
        assert(out@ =~= want);
        return out;
    }
    let mid = from + (to - from) / 2;
    let a = sort_range(keys, from, mid);
    let b = sort_range(keys, mid, to);
    proof {
        let wa = Seq::new((mid - from) as nat, |k: int| (from + k) as usize);
        let wb = Seq::new((to - mid) as nat, |k: int| (mid + k) as usize);
        assert(wa + wb =~= want);
        vstd::seq_lib::lemma_multiset_commutative(wa, wb);
        lemma_range_of_multiset(keys@, wa, a@);
        lemma_range_of_multiset(keys@, wb, b@);
    }
    merge(keys, &a, &b)
}

/// All indices of `keys`, ordered by key. Every index occurs exactly once.
pub fn sort_indices(keys: &[i32]) -> (idx: Vec<usize>)
    ensures
        idx@.len() == keys@.len(),
        in_range(keys@, idx@),
        ordered(keys@, idx@),
        idx@.no_duplicates(),
        forall|i: usize| i < keys@.len() ==> #[trigger] idx@.contains(i),
{
    broadcast use vstd::seq_lib::group_to_multiset_ensures;

    let n = keys.len();
    let idx = sort_range(keys, 0, n);
    proof {
        let want = Seq::new(n as nat, |k: int| (0 + k) as usize);
        assert(want.no_duplicates()) by {
            assert forall|i: int, j: int| 0 <= i < want.len() && 0 <= j < want.len() && i
                != j implies want[i] != want[j] by {}
        }
        assert(in_range(keys@, want));
        lemma_range_of_multiset(keys@, want, idx@);
        want.lemma_multiset_has_no_duplicates();
        idx@.lemma_multiset_has_no_duplicates_conv();
        assert forall|i: usize| i < keys@.len() implies #[trigger] idx@.contains(i) by {
            assert(want[i as int] == i);
            assert(want.contains(i));
            assert(want.to_multiset().count(i) > 0);
            assert(idx@.to_multiset().count(i) > 0);
        }
    }
    idx
}

} // verus!
