//! Binary-heap primitives: `swim` restores the max-heap order upward from a
//! node, `sink` restores it downward.

use vstd::prelude::*;

use crate::sorting::exchange;

verus! {

/// The prefix `[0, n)` of `s` is a max-heap: every node is at most its
/// parent at `(j - 1) / 2`.
pub open spec fn is_heap(s: Seq<i64>, n: int) -> bool {
    forall|j: int| #![trigger s[j]] 1 <= j < n ==> s[(j - 1) / 2] >= s[j]
}

/// In a max-heap the root bounds every element.
pub proof fn lemma_heap_root_max(s: Seq<i64>, n: int, j: int)
    requires
        is_heap(s, n),
        0 <= j < n <= s.len(),
    ensures
        s[j] <= s[0],
    decreases j,
{
    if j > 0 {
        assert(s[(j - 1) / 2] >= s[j]);
        lemma_heap_root_max(s, n, (j - 1) / 2);
    }
}

/// Moves the element at `i` up toward the root until the heap order holds.
/// On entry the heap order may fail only at `i` itself, and the grandparent
/// of `i` must already bound the children of `i`.
pub fn swim(v: &mut Vec<i64>, i: usize)
    requires
        i < old(v)@.len(),
        forall|j: int|
            #![trigger old(v)@[j]]
            1 <= j < old(v)@.len() && j != i ==> old(v)@[(j - 1) / 2] >= old(v)@[j],
        i > 0 ==> forall|c: int|
            #![trigger old(v)@[c]]
            1 <= c < old(v)@.len() && (c - 1) / 2 == i ==> old(v)@[(i as int - 1) / 2] >= old(
                v,
            )@[c],
    ensures
        final(v)@.len() == old(v)@.len(),
        final(v)@.to_multiset() == old(v)@.to_multiset(),
        is_heap(final(v)@, final(v)@.len() as int),
{
    let mut i = i;
    while i > 0 && v[i] >= v[(i - 1) / 2]
        invariant
            i < v@.len(),
            v@.len() == old(v)@.len(),
            v@.to_multiset() == old(v)@.to_multiset(),
            forall|j: int|
                #![trigger v@[j]]
                1 <= j < v@.len() && j != i ==> v@[(j - 1) / 2] >= v@[j],
            i > 0 ==> forall|c: int|
                #![trigger v@[c]]
                1 <= c < v@.len() && (c - 1) / 2 == i ==> v@[(i as int - 1) / 2] >= v@[c],
        decreases i,
    {
        let parent = (i - 1) / 2;
        exchange(v, i, parent);
        i = parent;
    }
}

/// Moves the element at `i` down within the heap prefix `[0, n)` until the
/// heap order holds.  On entry the heap order must hold for every pair whose
/// parent lies strictly below `i`; on exit it holds for every pair whose
/// parent is at or below `i`, and nothing outside `[i, n)` moves.
pub fn sink(v: &mut Vec<i64>, i: usize, n: usize)
    requires
        n <= old(v)@.len(),
        n < usize::MAX / 2,
        i <= n,
        forall|j: int|
            #![trigger old(v)@[j]]
            1 <= j < n && (j - 1) / 2 > i ==> old(v)@[(j - 1) / 2] >= old(v)@[j],
    ensures
        final(v)@.len() == old(v)@.len(),
        final(v)@.to_multiset() == old(v)@.to_multiset(),
        forall|j: int|
            #![trigger final(v)@[j]]
            0 <= j < final(v)@.len() && !(i <= j < n) ==> final(v)@[j] == old(v)@[j],
        forall|j: int|
            #![trigger final(v)@[j]]
            1 <= j < n && (j - 1) / 2 >= i ==> final(v)@[(j - 1) / 2] >= final(v)@[j],
{
    let ghost i0 = i as int;
    let mut i = i;
    loop
        invariant
            n <= v@.len(),
            n < usize::MAX / 2,
            v@.len() == old(v)@.len(),
            v@.to_multiset() == old(v)@.to_multiset(),
            i0 <= i,
            forall|j: int|
                #![trigger v@[j]]
                0 <= j < v@.len() && !(i0 <= j < n) ==> v@[j] == old(v)@[j],
            forall|j: int|
                #![trigger v@[j]]
                1 <= j < n && (j - 1) / 2 >= i0 && (j - 1) / 2 != i ==> v@[(j - 1) / 2] >= v@[j],
            i > i0 ==> forall|c: int|
                #![trigger v@[c]]
                1 <= c < n && (c - 1) / 2 == i ==> v@[(i as int - 1) / 2] >= v@[c],
            i <= n,
        ensures
            v@.len() == old(v)@.len(),
            v@.to_multiset() == old(v)@.to_multiset(),
            forall|j: int|
                #![trigger v@[j]]
                0 <= j < v@.len() && !(i0 <= j < n) ==> v@[j] == old(v)@[j],
            forall|j: int|
                #![trigger v@[j]]
                1 <= j < n && (j - 1) / 2 >= i0 ==> v@[(j - 1) / 2] >= v@[j],
        decreases n - i,
    {
        let child = 2 * i + 1;
        if child >= n {
            break ;
        }
        let mut c = child;
        if child + 1 < n && v[child + 1] > v[child] {
            c = child + 1;
        }
        if v[i] > v[c] {
            break ;
        }
        exchange(v, i, c);
        i = c;
    }
}

} // verus!
