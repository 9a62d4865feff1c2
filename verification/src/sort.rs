//! Sorting offsets from the largest down.

use vstd::prelude::*;
use vstd::relations::*;

verus! {

/// The same numbers, from the largest down.
pub open spec fn descending(s: Seq<usize>) -> Seq<usize> {
    s.sort_by(|a: usize, b: usize| a >= b)
}

/// Sorting keeps the numbers and leaves no larger one behind a smaller one.
pub proof fn lemma_descending(s: Seq<usize>)
    ensures
        descending(s).to_multiset() == s.to_multiset(),
        descending(s).len() == s.len(),
        forall|i: int, j: int|
            0 <= i < j < s.len() ==> #[trigger] descending(s)[i] >= #[trigger] descending(s)[j],
        forall|i: int| 0 <= i < s.len() ==> s.contains(#[trigger] descending(s)[i]),
{
    let leq = |a: usize, b: usize| a >= b;
    let d = descending(s);
    s.lemma_sort_by_ensures(leq);
    s.to_multiset_ensures();
    d.to_multiset_ensures();
    assert forall|i: int, j: int| 0 <= i < j < s.len() implies #[trigger] d[i] >= #[trigger] d[j] by {
        assert(leq(d[i], d[j]));
    }
    assert forall|i: int| 0 <= i < s.len() implies s.contains(#[trigger] d[i]) by {
        assert(d.contains(d[i]));
    }
}

/// Sorts numbers from the largest down.
pub fn sort_descending(v: &Vec<usize>) -> (r: Vec<usize>)
    ensures
        r@ == descending(v@),
{
    let mut out: Vec<usize> = Vec::new();
    let mut n: usize = 0;
    let ghost leq = |a: usize, b: usize| a >= b;
    assert(out@ =~= v@.subrange(0, 0));
    while n < v.len()
        invariant
            n <= v@.len(),
            leq == (|a: usize, b: usize| a >= b),
            out@.to_multiset() == v@.subrange(0, n as int).to_multiset(),
            sorted_by(out@, leq),
        decreases v@.len() - n,
    {
        let x: usize = v[n];
        let mut k: usize = 0;
        while k < out.len() && out[k] >= x
            invariant
                k <= out@.len(),
                forall|j: int| 0 <= j < k ==> out@[j] >= x,
            decreases out@.len() - k,
        {
            k = k + 1;
        }
        let ghost before = out@;
        assert forall|j: int| k <= j < before.len() implies x >= before[j] by {
            if k < j {
                assert(leq(before[k as int], before[j]));
            }
        }
        out.insert(k, x);
        proof {
            before.to_multiset_ensures();
            before.insert_ensures(k as int, x);
            assert(out@ == before.insert(k as int, x));
            assert(out@.to_multiset() =~= before.to_multiset().insert(x)) by {
                vstd::seq_lib::to_multiset_insert(before, k as int, x);
            }
            let part = v@.subrange(0, n as int);
            assert(v@.subrange(0, n + 1) =~= part.push(x));
            part.to_multiset_ensures();
            assert forall|i: int, j: int| 0 <= i < j < out@.len() implies #[trigger] leq(
                out@[i],
                out@[j],
            ) by {
                let bi = if i < k {
                    i
                } else {
                    i - 1
                };
                let bj = if j < k {
                    j
                } else {
                    j - 1
                };
                if i != k && j != k {
                    assert(out@[i] == before[bi]);
                    assert(out@[j] == before[bj]);
                    assert(leq(before[bi], before[bj]));
                } else if i == k {
                    assert(out@[j] == before[j - 1]);
                } else {
                    assert(out@[i] == before[i]);
                }
            }
        }
        n = n + 1;
    }
    proof {
        assert(v@.subrange(0, n as int) =~= v@);
        v@.lemma_sort_by_ensures(leq);
        vstd::seq_lib::lemma_sorted_unique(out@, descending(v@), leq);
    }
    out
}

} // verus!
