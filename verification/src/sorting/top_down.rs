//! Top-down merge sort.

use vstd::prelude::*;

use crate::sorting::merge::merge;
use crate::sorting::{sorted, sorted_between};

verus! {

/// Sort `v` using a top-down merge sort.
pub fn sort(v: &mut Vec<i64>)
    ensures
        sorted(final(v)@),
        final(v)@.to_multiset() == old(v)@.to_multiset(),
        final(v)@.len() == old(v)@.len(),
{
    let n = v.len();
    let mut aux = v.clone();
    proof {
        assert(aux@.len() == v@.len());
    }
    sort_part(v, &mut aux, 0, n);
}

// Sort `v[lo..hi]`, using `aux` for temporary storage.
fn sort_part(v: &mut Vec<i64>, aux: &mut Vec<i64>, lo: usize, hi: usize)
    requires
        lo <= hi <= old(v)@.len(),
        old(aux)@.len() == old(v)@.len(),
    ensures
        final(v)@.len() == old(v)@.len(),
        final(aux)@.len() == old(aux)@.len(),
        sorted_between(final(v)@, lo as int, hi as int),
        final(v)@.to_multiset() == old(v)@.to_multiset(),
        forall|j: int|
            #![trigger final(v)@[j]]
            0 <= j < final(v)@.len() && !(lo <= j < hi) ==> final(v)@[j] == old(v)@[j],
    decreases hi - lo,
{
    if hi - lo < 2 {
        return ;
    }
    let mid = lo + (hi - lo) / 2;
    sort_part(v, aux, lo, mid);
    sort_part(v, aux, mid, hi);
    merge(v, aux, lo, mid, hi);
}

} // verus!
