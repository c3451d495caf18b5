//! Insertion sort.

use vstd::prelude::*;

use crate::sorting::{exchange, sorted, sorted_between};

verus! {

/// Sort `v` using insertion sort.
pub fn sort(v: &mut Vec<i64>)
    ensures
        sorted(final(v)@),
        final(v)@.to_multiset() == old(v)@.to_multiset(),
        final(v)@.len() == old(v)@.len(),
{
    let n = v.len();
    let mut i: usize = 1;
    while i < n
        invariant
            n == v@.len(),
            1 <= i,
            i <= n || n == 0,
            sorted_between(v@, 0, i as int),
            v@.to_multiset() == old(v)@.to_multiset(),
        decreases n - i,
    {
        let mut j = i;
        while j > 0 && v[j] < v[j - 1]
            invariant
                n == v@.len(),
                i < n,
                j <= i,
                v@.to_multiset() == old(v)@.to_multiset(),
                forall|x: int, y: int|
                    #![trigger v@[x], v@[y]]
                    0 <= x <= y <= i && x != j && y != j ==> v@[x] <= v@[y],
                forall|y: int| #![trigger v@[y]] j < y <= i ==> v@[j as int] < v@[y],
            decreases j,
        {
            exchange(v, j, j - 1);
            j = j - 1;
        }
        proof {
            assert forall|x: int, y: int|
                #![trigger v@[x], v@[y]]
                0 <= x <= y <= i implies v@[x] <= v@[y] by {
                if x == j as int && y > x {
                    assert(v@[j as int] < v@[y]);
                } else if y == j as int && x < y {
                    assert(j > 0);
                    assert(v@[j as int] >= v@[j - 1]);
                    assert(v@[x] <= v@[j - 1]);
                }
            }
        }
        i = i + 1;
    }
    proof {
        if n == 0 {
            assert(sorted_between(v@, 0, 0));
        }
    }
}

} // verus!
