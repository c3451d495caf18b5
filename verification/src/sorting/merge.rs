//! The merge step shared by the merge sorts.

use vstd::prelude::*;

use crate::sorting::sorted_between;

verus! {

broadcast use vstd::seq_lib::group_to_multiset_ensures;

/// Merge the sorted runs `v[lo..mid]` and `v[mid..hi]` into one sorted run,
/// using `aux` for temporary storage.
pub fn merge(v: &mut Vec<i64>, aux: &mut Vec<i64>, lo: usize, mid: usize, hi: usize)
    requires
        lo <= mid <= hi <= old(v)@.len(),
        old(aux)@.len() == old(v)@.len(),
        sorted_between(old(v)@, lo as int, mid as int),
        sorted_between(old(v)@, mid as int, hi as int),
    ensures
        final(v)@.len() == old(v)@.len(),
        final(aux)@.len() == old(aux)@.len(),
        sorted_between(final(v)@, lo as int, hi as int),
        final(v)@.to_multiset() == old(v)@.to_multiset(),
        forall|j: int|
            #![trigger final(v)@[j]]
            0 <= j < final(v)@.len() && !(lo <= j < hi) ==> final(v)@[j] == old(v)@[j],
{
    let mut k = lo;
    while k < hi
        invariant
            lo <= k <= hi <= v@.len(),
            aux@.len() == v@.len(),
            v@ == old(v)@,
            forall|t: int| #![trigger aux@[t]] lo <= t < k ==> aux@[t] == v@[t],
        decreases hi - k,
    {
        aux[k] = v[k];
        k = k + 1;
    }
    let mut i = lo;
    let mut j = mid;
    let mut k = lo;
    while k < hi
        invariant
            lo <= mid <= hi <= v@.len(),
            aux@.len() == v@.len(),
            lo <= i <= mid,
            mid <= j <= hi,
            k - lo == (i - lo) + (j - mid),
            forall|t: int| #![trigger aux@[t]] lo <= t < hi ==> aux@[t] == old(v)@[t],
            sorted_between(old(v)@, lo as int, mid as int),
            sorted_between(old(v)@, mid as int, hi as int),
            forall|t: int|
                #![trigger v@[t]]
                0 <= t < v@.len() && !(lo <= t < k) ==> v@[t] == old(v)@[t],
            sorted_between(v@, lo as int, k as int),
            k > lo && i < mid ==> v@[k - 1] <= aux@[i as int],
            k > lo && j < hi ==> v@[k - 1] <= aux@[j as int],
            v@.subrange(lo as int, k as int).to_multiset() == aux@.subrange(
                lo as int,
                i as int,
            ).to_multiset().add(aux@.subrange(mid as int, j as int).to_multiset()),
        decreases hi - k,
    {
        let ghost vk = v@;
        let ghost ii = i as int;
        let ghost jj = j as int;
        let take_right = if i >= mid {
            true
        } else if j >= hi {
            false
        } else {
            aux[j] < aux[i]
        };
        if take_right {
            v[k] = aux[j];
            j = j + 1;
        } else {
            v[k] = aux[i];
            i = i + 1;
        }
        proof {
            assert(v@.subrange(lo as int, k as int) =~= vk.subrange(lo as int, k as int));
            assert(v@.subrange(lo as int, k as int + 1) =~= vk.subrange(lo as int, k as int).push(
                v@[k as int],
            ));
            if take_right {
                assert(aux@.subrange(mid as int, jj + 1) =~= aux@.subrange(mid as int, jj).push(
                    aux@[jj],
                ));
                assert(v@.subrange(lo as int, k as int + 1).to_multiset() =~= aux@.subrange(
                    lo as int,
                    i as int,
                ).to_multiset().add(aux@.subrange(mid as int, j as int).to_multiset()));
            } else {
                assert(aux@.subrange(lo as int, ii + 1) =~= aux@.subrange(lo as int, ii).push(
                    aux@[ii],
                ));
                assert(v@.subrange(lo as int, k as int + 1).to_multiset() =~= aux@.subrange(
                    lo as int,
                    i as int,
                ).to_multiset().add(aux@.subrange(mid as int, j as int).to_multiset()));
            }
        }
        k = k + 1;
    }
    proof {
        assert(i == mid && j == hi);
        assert(aux@.subrange(lo as int, mid as int) =~= old(v)@.subrange(lo as int, mid as int));
        assert(aux@.subrange(mid as int, hi as int) =~= old(v)@.subrange(mid as int, hi as int));
        vstd::seq_lib::lemma_multiset_commutative(
            old(v)@.subrange(lo as int, mid as int),
            old(v)@.subrange(mid as int, hi as int),
        );
        assert(old(v)@.subrange(lo as int, mid as int) + old(v)@.subrange(mid as int, hi as int)
            =~= old(v)@.subrange(lo as int, hi as int));
        assert(v@.subrange(lo as int, hi as int).to_multiset() == old(v)@.subrange(
            lo as int,
            hi as int,
        ).to_multiset());
        crate::sorting::lemma_multiset_frame_reverse(old(v)@, v@, lo as int, hi as int);
    }
}

} // verus!
