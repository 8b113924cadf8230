//! Longest ships first.

use vstd::prelude::*;
use vstd::relations::{sorted_by, total_ordering};
use vstd::seq_lib::{group_to_multiset_ensures, lemma_sorted_unique};

verus! {

/// The given numbers, the largest first.
pub open spec fn descending(s: Seq<usize>) -> Seq<usize> {
    s.sort_by(|a: usize, b: usize| a >= b)
}

/// A sequence is `descending(s)` exactly when it holds the numbers of `s`, the
/// largest first.
pub proof fn lemma_descending(s: Seq<usize>, t: Seq<usize>)
    ensures
        t == descending(s) <==> t.to_multiset() == s.to_multiset() && forall|i: int, j: int|
            0 <= i < j < t.len() ==> t[i] >= t[j],
{
    let geq = |a: usize, b: usize| a >= b;
    assert(total_ordering(geq));
    s.lemma_sort_by_ensures(geq);
    if t.to_multiset() == s.to_multiset() && forall|i: int, j: int|
        0 <= i < j < t.len() ==> t[i] >= t[j] {
        assert(sorted_by(t, geq));
        lemma_sorted_unique(t, s.sort_by(geq), geq);
    }
    if t == descending(s) {
        assert forall|i: int, j: int| 0 <= i < j < t.len() implies t[i] >= t[j] by {
            assert(geq(t[i], t[j]));
        }
    }
}

/// Sorts the given numbers, the largest first.
pub fn longest_first(v: &[usize]) -> (r: Vec<usize>)
    ensures
        r@ == descending(v@),
        r@.len() == v@.len(),
{
    broadcast use group_to_multiset_ensures;

    let mut out: Vec<usize> = Vec::with_capacity(v.len());
    let mut k: usize = 0;
    assert(v@.take(0) =~= out@);
    while k < v.len()
        invariant
            k <= v@.len(),
            out@.len() == k,
            out@.to_multiset() == v@.take(k as int).to_multiset(),
            forall|i: int, j: int| 0 <= i < j < out@.len() ==> out@[i] >= out@[j],
        decreases v@.len() - k,
    {
        broadcast use group_to_multiset_ensures;

        let x = v[k];
        let mut pos: usize = 0;
        while pos < out.len() && out[pos] >= x
            invariant
                pos <= out@.len(),
                forall|i: int| 0 <= i < pos ==> out@[i] >= x,
            decreases out@.len() - pos,
        {
            pos += 1;
        }
        let ghost before = out@;
        out.insert(pos, x);
        proof {
            assert(v@.take(k + 1) =~= v@.take(k as int).push(x));
            assert(out@ == before.insert(pos as int, x));
            assert forall|i: int, j: int| 0 <= i < j < out@.len() implies out@[i] >= out@[j] by {
                let a = if i < pos {
                    before[i]
                } else if i == pos {
                    x
                } else {
                    before[i - 1]
                };
                let b = if j < pos {
                    before[j]
                } else if j == pos {
                    x
                } else {
                    before[j - 1]
                };
                assert(out@[i] == a && out@[j] == b);
                if i == pos {
                    assert(before[pos as int] < x);
                }
            }
        }
        k += 1;
    }
    proof {
        assert(v@.take(k as int) =~= v@);
        lemma_descending(v@, out@);
    }
    out
}

} // verus!
