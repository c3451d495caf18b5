//! Quicksort.

use vstd::prelude::*;

use crate::sorting::{
    exchange, lemma_multiset_bound, lemma_multiset_frame_subrange, lemma_multiset_lower_bound,
    sorted, sorted_between,
};

verus! {

/// Sort `v` using a straightforward implementation of quicksort.
pub fn sort(v: &mut Vec<i64>)
    ensures
        sorted(final(v)@),
        final(v)@.to_multiset() == old(v)@.to_multiset(),
        final(v)@.len() == old(v)@.len(),
{
    let n = v.len();
    sort_part(v, 0, n);
}

fn sort_part(v: &mut Vec<i64>, lo: usize, hi: usize)
    requires
        lo <= hi <= old(v)@.len(),
    ensures
        final(v)@.len() == old(v)@.len(),
        sorted_between(final(v)@, lo as int, hi as int),
        final(v)@.to_multiset() == old(v)@.to_multiset(),
        forall|j: int|
            #![trigger final(v)@[j]]
            0 <= j < final(v)@.len() && !(lo <= j < hi) ==> final(v)@[j] == old(v)@[j],
    decreases hi - lo,
{
    if hi - lo < 2 {
        return ;
    }
    let j = partition(v, lo, hi);
    let ghost v1 = v@;
    sort_part(v, lo, j);
    let ghost v2 = v@;
    sort_part(v, j + 1, hi);
    proof {
        let p = v1[j as int];
        assert(v2[j as int] == p);
        assert(final(v)@[j as int] == p);
        // the bounds established by partition survive both recursive sorts,
        // because each permutes its own range
        lemma_multiset_frame_subrange(v1, v2, lo as int, j as int);
        assert(forall|a: int|
            #![trigger v1.subrange(lo as int, j as int)[a]]
            0 <= a < j - lo ==> v1.subrange(lo as int, j as int)[a] <= p);
        lemma_multiset_bound(v1.subrange(lo as int, j as int), v2.subrange(lo as int, j as int), p);
        assert forall|a: int| #![trigger v2[a]] lo <= a < j implies v2[a] <= p by {
            assert(v2.subrange(lo as int, j as int)[a - lo] == v2[a]);
        }
        lemma_multiset_frame_subrange(v2, final(v)@, j + 1, hi as int);
        assert(forall|b: int|
            #![trigger v2.subrange(j + 1, hi as int)[b]]
            0 <= b < hi - j - 1 ==> v2.subrange(j + 1, hi as int)[b] >= p);
        lemma_multiset_lower_bound(
            v2.subrange(j + 1, hi as int),
            final(v)@.subrange(j + 1, hi as int),
            p,
        );
        assert forall|b: int| #![trigger final(v)@[b]] j < b < hi implies final(v)@[b] >= p by {
            assert(final(v)@.subrange(j + 1, hi as int)[b - j - 1] == final(v)@[b]);
        }
        assert forall|x: int, y: int|
            #![trigger final(v)@[x], final(v)@[y]]
            lo <= x <= y < hi implies final(v)@[x] <= final(v)@[y] by {
            if x < j && y >= j {
                assert(final(v)@[x] == v2[x]);
                assert(final(v)@[x] <= p);
                if y > j {
                    assert(final(v)@[y] >= p);
                }
            } else if x == j && y > j {
                assert(final(v)@[y] >= p);
            } else if x < j && y < j {
                assert(final(v)@[x] == v2[x] && final(v)@[y] == v2[y]);
            }
        }
    }
}

/// Partition `v[lo..hi]` around its first element; elements at most the
/// pivot end up before it, elements at least the pivot after it.
pub fn partition(v: &mut Vec<i64>, lo: usize, hi: usize) -> (r: usize)
    requires
        lo + 2 <= hi,
        hi <= old(v)@.len(),
    ensures
        lo <= r < hi,
        final(v)@.len() == old(v)@.len(),
        final(v)@.to_multiset() == old(v)@.to_multiset(),
        forall|t: int|
            #![trigger final(v)@[t]]
            0 <= t < final(v)@.len() && !(lo <= t < hi) ==> final(v)@[t] == old(v)@[t],
        forall|a: int| #![trigger final(v)@[a]] lo <= a < r ==> final(v)@[a] <= final(v)@[r as int],
        forall|b: int| #![trigger final(v)@[b]] r < b < hi ==> final(v)@[b] >= final(v)@[r as int],
{
    let mut i = lo;
    let mut j = hi;
    let x = v[lo];
    loop
        invariant_except_break
            i < j,
            lo <= i < hi,
            lo < j <= hi,
            j == hi ==> i == lo,
            forall|a: int| #![trigger v@[a]] lo < a <= i ==> v@[a] <= x,
            forall|b: int| #![trigger v@[b]] j <= b < hi ==> v@[b] >= x,
        invariant
            lo + 2 <= hi <= v@.len(),
            v@.len() == old(v)@.len(),
            v@.to_multiset() == old(v)@.to_multiset(),
            forall|t: int|
                #![trigger v@[t]]
                0 <= t < v@.len() && !(lo <= t < hi) ==> v@[t] == old(v)@[t],
            v@[lo as int] == x,
        ensures
            v@.len() == old(v)@.len(),
            v@.to_multiset() == old(v)@.to_multiset(),
            forall|t: int|
                #![trigger v@[t]]
                0 <= t < v@.len() && !(lo <= t < hi) ==> v@[t] == old(v)@[t],
            v@[lo as int] == x,
            lo <= j < hi,
            v@[j as int] <= x,
            forall|a: int| #![trigger v@[a]] lo < a < j ==> v@[a] <= x,
            forall|b: int| #![trigger v@[b]] j < b < hi ==> v@[b] >= x,
        decreases j - i,
    {
        let ghost i_head = i as int;
        let ghost j_head = j as int;
        i = i + 1;
        while i < hi - 1 && v[i] < x
            invariant
                lo < i <= hi - 1,
                hi <= v@.len(),
                v@[lo as int] == x,
                forall|a: int| #![trigger v@[a]] lo < a < i ==> v@[a] <= x,
                i_head < i,
                forall|a: int| #![trigger v@[a]] lo < a <= i_head ==> v@[a] <= x,
            decreases hi - i,
        {
            i = i + 1;
        }
        j = j - 1;
        while j > lo && v[j] > x
            invariant
                lo <= j < j_head,
                j < hi <= v@.len(),
                v@[lo as int] == x,
                forall|b: int| #![trigger v@[b]] j < b < hi ==> v@[b] >= x,
            decreases j,
        {
            j = j - 1;
        }
        if i >= j {
            proof {
                assert(v@[j as int] <= x);
                assert forall|a: int| #![trigger v@[a]] lo < a < j implies v@[a] <= x by {
                    assert(a < i);
                }
                assert(j < hi);
            }
            break ;
        }
        proof {
            assert(v@[i as int] >= x) by {
                if i == hi - 1 {
                    assert(j <= hi - 1);
                    assert(false);
                }
            }
            assert(v@[j as int] <= x);
        }
        exchange(v, i, j);
    }
    exchange(v, lo, j);
    proof {
        assert(final(v)@[j as int] == x);
        let ghost fv = final(v)@;
        assert forall|a: int| #![trigger fv[a]] lo <= a < j implies fv[a] <= fv[j as int] by {
            if a == lo {
            } else {
                assert(fv[a] == v@[a]);
            }
        }
    }
    j
}

} // verus!
