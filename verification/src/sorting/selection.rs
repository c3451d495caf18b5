//! Selection sort.

use vstd::prelude::*;

use crate::sorting::{exchange, sorted, sorted_between};

verus! {

/// Sort `v` using selection sort.
pub fn sort(v: &mut Vec<i64>)
    ensures
        sorted(final(v)@),
        final(v)@.to_multiset() == old(v)@.to_multiset(),
        final(v)@.len() == old(v)@.len(),
{
    let n = v.len();
    let mut i: usize = 0;
    while i < n
        invariant
            n == v@.len(),
            i <= n,
            sorted_between(v@, 0, i as int),
            forall|a: int, b: int|
                #![trigger v@[a], v@[b]]
                0 <= a < i && i <= b < n ==> v@[a] <= v@[b],
            v@.to_multiset() == old(v)@.to_multiset(),
        decreases n - i,
    {
        let mut min = i;
        let mut j = i + 1;
        while j < n
            invariant
                n == v@.len(),
                i < n,
                i <= min < n,
                i < j <= n,
                forall|x: int| #![trigger v@[x]] i <= x < j ==> v@[min as int] <= v@[x],
            decreases n - j,
        {
            if v[j] < v[min] {
                min = j;
            }
            j = j + 1;
        }
        exchange(v, i, min);
        i = i + 1;
    }
}

} // verus!
