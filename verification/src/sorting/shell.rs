//! Shell sort, with the 3x+1 gap sequence; its final pass has gap one and
//! leaves the vector sorted.

use vstd::prelude::*;

use crate::sorting::{exchange, sorted, sorted_between};

verus! {

/// A gap from the 3x+1 increment sequence 1, 4, 13, 40, ...
pub open spec fn shell_gap(h: int) -> bool
    decreases h,
{
    if h < 1 {
        false
    } else if h == 1 {
        true
    } else {
        (h - 1) % 3 == 0 && shell_gap((h - 1) / 3)
    }
}

/// Sort `v` using shell sort.
pub fn sort(v: &mut Vec<i64>)
    ensures
        sorted(final(v)@),
        final(v)@.to_multiset() == old(v)@.to_multiset(),
        final(v)@.len() == old(v)@.len(),
{
    let n = v.len();
    let mut h: usize = 1;
    while h < n / 3
        invariant
            n == v@.len(),
            1 <= h,
            shell_gap(h as int),
        decreases n - h,
    {
        h = 3 * h + 1;
        proof {
            vstd::arithmetic::div_mod::lemma_fundamental_div_mod_converse(
                h as int - 1,
                3,
                (h as int - 1) / 3,
                0,
            );
        }
    }
    while h >= 1
        invariant
            n == v@.len(),
            v@.to_multiset() == old(v)@.to_multiset(),
            shell_gap(h as int) || h == 0,
            h == 0 ==> sorted_between(v@, 0, n as int),
        decreases h,
    {
        gap_pass(v, h);
        proof {
            if h > 1 {
                assert((h as int - 1) % 3 == 0 && shell_gap((h as int - 1) / 3));
                vstd::arithmetic::div_mod::lemma_fundamental_div_mod_converse(
                    h as int,
                    3,
                    (h as int - 1) / 3,
                    1,
                );
                assert(h as int / 3 == (h as int - 1) / 3);
            }
        }
        h = h / 3;
    }
    proof {
        if n == 0 {
            assert(sorted_between(v@, 0, 0));
        }
    }
}

// One insertion pass with gap `h`: every element is moved back over larger
// elements `h` apart.  With gap one this is insertion sort, so it sorts.
fn gap_pass(v: &mut Vec<i64>, h: usize)
    requires
        h >= 1,
    ensures
        final(v)@.len() == old(v)@.len(),
        final(v)@.to_multiset() == old(v)@.to_multiset(),
        h == 1 ==> sorted_between(final(v)@, 0, final(v)@.len() as int),
    {
    let n = v.len();
    let mut i = h;
    while i < n
        invariant
            n == v@.len(),
            h >= 1,
            h <= i,
            v@.to_multiset() == old(v)@.to_multiset(),
            h == 1 ==> sorted_between(v@, 0, i as int),
        decreases n - i,
    {
        let mut j = i;
        while j >= h && v[j] < v[j - h]
            invariant
                n == v@.len(),
                h >= 1,
                i < n,
                j <= i,
                v@.to_multiset() == old(v)@.to_multiset(),
                h == 1 ==> forall|x: int, y: int|
                    #![trigger v@[x], v@[y]]
                    0 <= x <= y <= i && x != j && y != j ==> v@[x] <= v@[y],
                h == 1 ==> forall|y: int| #![trigger v@[y]] j < y <= i ==> v@[j as int] < v@[y],
            decreases j,
        {
            exchange(v, j, j - h);
            j = j - h;
        }
        proof {
            if h == 1 {
                assert forall|x: int, y: int|
                    #![trigger v@[x], v@[y]]
                    0 <= x <= y <= i implies v@[x] <= v@[y] by {
                    if x == j as int && y > x {
                        assert(v@[j as int] < v@[y]);
                    } else if y == j as int && x < y {
                        assert(j >= 1);
                        assert(v@[j as int] >= v@[j - 1]);
                        assert(v@[x] <= v@[j - 1]);
                    }
                }
            }
        }
        i = i + 1;
    }
}

} // verus!
