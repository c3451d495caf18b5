//! Heapsort.

use vstd::prelude::*;

use crate::sorting::heap::{is_heap, lemma_heap_root_max, sink};
use crate::sorting::{
    exchange, lemma_multiset_bound, lemma_multiset_frame_subrange, sorted, sorted_between,
};

verus! {

/// Sort `v` using heapsort: order the vector into a max-heap, then repeatedly
/// swap the root behind the shrinking heap prefix.
pub fn sort(v: &mut Vec<i64>)
    requires
        old(v)@.len() < usize::MAX / 2,
    ensures
        sorted(final(v)@),
        final(v)@.to_multiset() == old(v)@.to_multiset(),
        final(v)@.len() == old(v)@.len(),
{
    let n = v.len();
    let mut k = n / 2;
    while k > 0
        invariant
            n == v@.len(),
            n < usize::MAX / 2,
            k <= n,
            v@.to_multiset() == old(v)@.to_multiset(),
            forall|j: int|
                #![trigger v@[j]]
                1 <= j < n && (j - 1) / 2 >= k ==> v@[(j - 1) / 2] >= v@[j],
        decreases k,
    {
        k = k - 1;
        sink(v, k, n);
    }
    proof {
        assert(is_heap(v@, n as int));
    }
    let mut hi = n;
    while hi > 1
        invariant
            n == v@.len(),
            n < usize::MAX / 2,
            1 <= hi <= n || (n == 0 && hi == 0),
            is_heap(v@, hi as int),
            sorted_between(v@, hi as int, n as int),
            forall|a: int, b: int|
                #![trigger v@[a], v@[b]]
                0 <= a < hi && hi <= b < n ==> v@[a] <= v@[b],
            v@.to_multiset() == old(v)@.to_multiset(),
        decreases hi,
    {
        let ghost pre = v@;
        hi = hi - 1;
        proof {
            assert forall|a: int| #![trigger pre[a]] 0 <= a < hi + 1 implies pre[a] <= pre[0] by {
                lemma_heap_root_max(pre, hi + 1, a);
            }
        }
        exchange(v, 0, hi);
        let ghost mid = v@;
        proof {
            assert forall|j: int|
                #![trigger mid[j]]
                1 <= j < hi && (j - 1) / 2 > 0 implies mid[(j - 1) / 2] >= mid[j] by {
                assert(mid[j] == pre[j]);
                assert(mid[(j - 1) / 2] == pre[(j - 1) / 2]);
            }
        }
        sink(v, 0, hi);
        proof {
            lemma_multiset_frame_subrange(mid, v@, 0, hi as int);
            assert forall|a: int| #![trigger mid.subrange(0, hi as int)[a]]
                0 <= a < hi implies mid.subrange(0, hi as int)[a] <= v@[hi as int] by {
                assert(mid.subrange(0, hi as int)[a] == mid[a]);
                if a == 0 {
                    assert(mid[0] == pre[hi as int]);
                } else {
                    assert(mid[a] == pre[a]);
                }
            }
            lemma_multiset_bound(
                mid.subrange(0, hi as int),
                v@.subrange(0, hi as int),
                v@[hi as int],
            );
            assert forall|a: int, b: int|
                #![trigger v@[a], v@[b]]
                0 <= a < hi && hi <= b < n implies v@[a] <= v@[b] by {
                assert(v@.subrange(0, hi as int)[a] == v@[a]);
                assert(v@[a] <= v@[hi as int]);
                if b > hi {
                    assert(mid[b] == pre[b]);
                    assert(v@[hi as int] == pre[0]);
                    assert(pre[0] <= pre[b]);
                }
            }
        }
    }
}

} // verus!
