//! Sorting: several classic in-place sorts over integer vectors, each proved
//! to leave the vector sorted and to permute its contents.

use vstd::prelude::*;

pub mod bottom_up;
pub mod heap;
pub mod heapsort;
pub mod insertion;
pub mod merge;
pub mod pq;
pub mod quick;
pub mod selection;
pub mod shell;
pub mod top_down;

verus! {

broadcast use vstd::seq_lib::group_to_multiset_ensures;

/// The elements of `s` with indices in `[lo, hi)` are in ascending order.
pub open spec fn sorted_between(s: Seq<i64>, lo: int, hi: int) -> bool {
    forall|x: int, y: int|
        #![trigger s[x], s[y]]
        lo <= x <= y < hi ==> s[x] <= s[y]
}

/// The whole sequence is in ascending order.
pub open spec fn sorted(s: Seq<i64>) -> bool {
    sorted_between(s, 0, s.len() as int)
}

/// Ascending adjacent pairs make the whole range ascending.
pub proof fn lemma_sorted_from_adjacent(s: Seq<i64>, lo: int, hi: int)
    requires
        0 <= lo,
        hi <= s.len(),
        forall|x: int| #![trigger s[x]] lo < x < hi ==> s[x - 1] <= s[x],
    ensures
        sorted_between(s, lo, hi),
{
    assert forall|x: int, y: int|
        #![trigger s[x], s[y]]
        lo <= x <= y < hi implies s[x] <= s[y] by {
        lemma_le_chain(s, lo, hi, x, y);
    }
}

proof fn lemma_le_chain(s: Seq<i64>, lo: int, hi: int, x: int, y: int)
    requires
        0 <= lo <= x <= y < hi <= s.len(),
        forall|z: int| #![trigger s[z]] lo < z < hi ==> s[z - 1] <= s[z],
    ensures
        s[x] <= s[y],
    decreases y - x,
{
    if x < y {
        lemma_le_chain(s, lo, hi, x, y - 1);
    }
}

/// Swapping two elements permutes a sequence.
pub proof fn lemma_swap_multiset(s: Seq<i64>, a: int, b: int)
    requires
        0 <= a < s.len(),
        0 <= b < s.len(),
    ensures
        s.update(a, s[b]).update(b, s[a]).to_multiset() == s.to_multiset(),
{
    let s1 = s.update(a, s[b]);
    let s2 = s1.update(b, s[a]);
    assert(s1[b] == s[b]);
    assert(s.to_multiset().contains(s[a]));
    assert(s1.to_multiset().contains(s1[b]));
    assert(s2.to_multiset() =~= s.to_multiset());
}

/// Exchanges the elements at positions `a` and `b`.
pub fn exchange(v: &mut Vec<i64>, a: usize, b: usize)
    requires
        a < old(v)@.len(),
        b < old(v)@.len(),
    ensures
        final(v)@ == old(v)@.update(a as int, old(v)@[b as int]).update(b as int, old(v)@[a as int]),
        final(v)@.len() == old(v)@.len(),
        final(v)@.to_multiset() == old(v)@.to_multiset(),
{
    let x = v[a];
    let y = v[b];
    v[a] = y;
    v[b] = x;
    proof {
        lemma_swap_multiset(old(v)@, a as int, b as int);
    }
}

/// Sequences that agree outside `[lo, hi)` and permute each other also
/// permute each other's `[lo, hi)` range.
pub proof fn lemma_multiset_frame_subrange(s1: Seq<i64>, s2: Seq<i64>, lo: int, hi: int)
    requires
        s1.len() == s2.len(),
        0 <= lo <= hi <= s1.len(),
        s1.to_multiset() == s2.to_multiset(),
        forall|j: int| #![trigger s1[j]] 0 <= j < s1.len() && !(lo <= j < hi) ==> s1[j] == s2[j],
    ensures
        s1.subrange(lo, hi).to_multiset() == s2.subrange(lo, hi).to_multiset(),
{
    let n = s1.len() as int;
    assert(s1 =~= s1.subrange(0, lo) + s1.subrange(lo, hi) + s1.subrange(hi, n));
    assert(s2 =~= s2.subrange(0, lo) + s2.subrange(lo, hi) + s2.subrange(hi, n));
    assert(s1.subrange(0, lo) =~= s2.subrange(0, lo));
    assert(s1.subrange(hi, n) =~= s2.subrange(hi, n));
    vstd::seq_lib::lemma_multiset_commutative(s1.subrange(0, lo) + s1.subrange(lo, hi), s1.subrange(hi, n));
    vstd::seq_lib::lemma_multiset_commutative(s1.subrange(0, lo), s1.subrange(lo, hi));
    vstd::seq_lib::lemma_multiset_commutative(s2.subrange(0, lo) + s2.subrange(lo, hi), s2.subrange(hi, n));
    vstd::seq_lib::lemma_multiset_commutative(s2.subrange(0, lo), s2.subrange(lo, hi));
    let pre = s1.subrange(0, lo).to_multiset();
    let post = s1.subrange(hi, n).to_multiset();
    let m1 = s1.subrange(lo, hi).to_multiset();
    let m2 = s2.subrange(lo, hi).to_multiset();
    assert(pre.add(m1).add(post) == pre.add(m2).add(post));
    assert(m1 =~= m2) by {
        assert forall|e: i64| true implies m1.count(e) == m2.count(e) by {
            assert(pre.add(m1).add(post).count(e) == pre.count(e) + m1.count(e) + post.count(e));
            assert(pre.add(m2).add(post).count(e) == pre.count(e) + m2.count(e) + post.count(e));
        }
    }
}

/// Sequences that agree outside `[lo, hi)` and whose `[lo, hi)` ranges
/// permute each other permute each other as wholes.
pub proof fn lemma_multiset_frame_reverse(s1: Seq<i64>, s2: Seq<i64>, lo: int, hi: int)
    requires
        s1.len() == s2.len(),
        0 <= lo <= hi <= s1.len(),
        s1.subrange(lo, hi).to_multiset() == s2.subrange(lo, hi).to_multiset(),
        forall|j: int| #![trigger s2[j]] 0 <= j < s1.len() && !(lo <= j < hi) ==> s1[j] == s2[j],
    ensures
        s1.to_multiset() == s2.to_multiset(),
{
    let n = s1.len() as int;
    assert(s1 =~= s1.subrange(0, lo) + s1.subrange(lo, hi) + s1.subrange(hi, n));
    assert(s2 =~= s2.subrange(0, lo) + s2.subrange(lo, hi) + s2.subrange(hi, n));
    assert(s1.subrange(0, lo) =~= s2.subrange(0, lo));
    assert(s1.subrange(hi, n) =~= s2.subrange(hi, n));
    vstd::seq_lib::lemma_multiset_commutative(
        s1.subrange(0, lo) + s1.subrange(lo, hi),
        s1.subrange(hi, n),
    );
    vstd::seq_lib::lemma_multiset_commutative(s1.subrange(0, lo), s1.subrange(lo, hi));
    vstd::seq_lib::lemma_multiset_commutative(
        s2.subrange(0, lo) + s2.subrange(lo, hi),
        s2.subrange(hi, n),
    );
    vstd::seq_lib::lemma_multiset_commutative(s2.subrange(0, lo), s2.subrange(lo, hi));
    assert(s1.to_multiset() =~= s2.to_multiset());
}

/// A bound on every element of one sequence carries to any permutation of it.
pub proof fn lemma_multiset_bound(s1: Seq<i64>, s2: Seq<i64>, b: i64)
    requires
        s1.to_multiset() == s2.to_multiset(),
        forall|j: int| #![trigger s1[j]] 0 <= j < s1.len() ==> s1[j] <= b,
    ensures
        forall|j: int| #![trigger s2[j]] 0 <= j < s2.len() ==> s2[j] <= b,
{
    assert forall|j: int| #![trigger s2[j]] 0 <= j < s2.len() implies s2[j] <= b by {
        assert(s2.to_multiset().contains(s2[j]));
        assert(s1.to_multiset().contains(s2[j]));
        assert(s1.contains(s2[j]));
        let w = choose|w: int| 0 <= w < s1.len() && s1[w] == s2[j];
        assert(s1[w] <= b);
    }
}

/// A lower bound on every element of one sequence carries to any permutation
/// of it.
pub proof fn lemma_multiset_lower_bound(s1: Seq<i64>, s2: Seq<i64>, b: i64)
    requires
        s1.to_multiset() == s2.to_multiset(),
        forall|j: int| #![trigger s1[j]] 0 <= j < s1.len() ==> s1[j] >= b,
    ensures
        forall|j: int| #![trigger s2[j]] 0 <= j < s2.len() ==> s2[j] >= b,
{
    assert forall|j: int| #![trigger s2[j]] 0 <= j < s2.len() implies s2[j] >= b by {
        assert(s2.to_multiset().contains(s2[j]));
        assert(s1.to_multiset().contains(s2[j]));
        assert(s1.contains(s2[j]));
        let w = choose|w: int| 0 <= w < s1.len() && s1[w] == s2[j];
        assert(s1[w] >= b);
    }
}

/// True if `v` is sorted in ascending order.
pub fn is_sorted(v: &Vec<i64>) -> (r: bool)
    ensures
        r == sorted(v@),
{
    let n = v.len();
    let mut i: usize = 1;
    while i < n
        invariant
            n == v@.len(),
            1 <= i,
            i <= n || n == 0,
            forall|x: int| #![trigger v@[x]] 0 < x < i ==> v@[x - 1] <= v@[x],
        decreases n - i,
    {
        if v[i] < v[i - 1] {
            return false;
        }
        i = i + 1;
    }
    proof {
        lemma_sorted_from_adjacent(v@, 0, n as int);
    }
    true
}

} // verus!
