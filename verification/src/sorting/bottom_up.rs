//! Bottom-up merge sort.

use vstd::prelude::*;

use crate::sorting::merge::merge;
use crate::sorting::{sorted, sorted_between};

verus! {

/// The end of block `b` of width `sz` in a sequence of length `n`.
pub open spec fn block_end(n: int, sz: int, b: int) -> int {
    if b * sz + sz <= n {
        b * sz + sz
    } else {
        n
    }
}

/// Block `b` of width `sz` is sorted.
pub open spec fn block_sorted(s: Seq<i64>, sz: int, b: int) -> bool {
    sorted_between(s, b * sz, block_end(s.len() as int, sz, b))
}

/// Every aligned block of width `sz` is sorted.
pub open spec fn blocks_sorted(s: Seq<i64>, sz: int) -> bool {
    forall|b: int| 0 <= b ==> #[trigger] block_sorted(s, sz, b)
}

/// Sort `v` using a bottom-up merge sort.
pub fn sort(v: &mut Vec<i64>)
    requires
        old(v)@.len() < usize::MAX / 2,
    ensures
        sorted(final(v)@),
        final(v)@.to_multiset() == old(v)@.to_multiset(),
        final(v)@.len() == old(v)@.len(),
{
    let n = v.len();
    let mut aux = v.clone();
    proof {
        assert(aux@.len() == v@.len());
        assert forall|b: int| 0 <= b implies #[trigger] block_sorted(v@, 1, b) by {
            assert(b * 1 == b);
        }
    }
    let mut sz: usize = 1;
    while sz < n
        invariant
            n == v@.len(),
            n < usize::MAX / 2,
            aux@.len() == n,
            1 <= sz,
            v@.to_multiset() == old(v)@.to_multiset(),
            blocks_sorted(v@, sz as int),
        decreases 2 * n - sz,
    {
        let ghost szi = sz as int;
        let mut lo: usize = 0;
        let ghost mut bi: int = 0;
        while lo < n - sz
            invariant
                n == v@.len(),
                n < usize::MAX / 2,
                aux@.len() == n,
                1 <= sz < n,
                szi == sz as int,
                v@.to_multiset() == old(v)@.to_multiset(),
                bi >= 0,
                lo == bi * (2 * szi),
                forall|b: int|
                    0 <= b < bi ==> #[trigger] block_sorted(v@, 2 * szi, b),
                forall|b: int|
                    0 <= b && b * szi >= lo ==> #[trigger] block_sorted(v@, szi, b),
            decreases n + 2 * sz - lo,
        {
            let hi = if lo + 2 * sz < n {
                lo + 2 * sz
            } else {
                n
            };
            proof {
                assert((2 * bi) * szi == lo && (2 * bi + 1) * szi == lo + szi) by (nonlinear_arith)
                    requires
                        lo == bi * (2 * szi),
                ;
                assert(block_sorted(v@, szi, 2 * bi));
                assert(block_sorted(v@, szi, 2 * bi + 1));
                assert(block_end(n as int, szi, 2 * bi) == lo + szi);
                assert(sorted_between(v@, lo as int, lo + szi));
                assert(block_end(n as int, szi, 2 * bi + 1) == if lo + 2 * szi <= n {
                    lo + 2 * szi
                } else {
                    n as int
                });
                assert(sorted_between(v@, lo + szi, hi as int));
            }
            let ghost before = v@;
            merge(v, &mut aux, lo, lo + sz, hi);
            proof {
                assert forall|b: int| 0 <= b < bi + 1 implies #[trigger] block_sorted(
                    v@,
                    2 * szi,
                    b,
                ) by {
                    if b < bi {
                        assert((b + 1) * (2 * szi) <= bi * (2 * szi) && b * (2 * szi) >= 0 && (b
                            + 1) * (2 * szi) == b * (2 * szi) + 2 * szi) by (nonlinear_arith)
                            requires
                                0 <= b < bi,
                                szi >= 1,
                        ;
                        assert(block_sorted(before, 2 * szi, b));
                        assert forall|t: int|
                            #![trigger v@[t]]
                            b * (2 * szi) <= t < block_end(n as int, 2 * szi, b) implies v@[t]
                            == before[t] by {
                            assert(t < lo);
                        }
                    } else {
                        assert(b * (2 * szi) == lo && b * (2 * szi) + 2 * szi == lo + 2
                            * szi) by (nonlinear_arith)
                            requires
                                b == bi,
                                lo == bi * (2 * szi),
                        ;
                        assert(sorted_between(v@, lo as int, hi as int));
                    }
                }
                assert forall|b: int|
                    0 <= b && b * szi >= lo + 2 * szi implies #[trigger] block_sorted(
                    v@,
                    szi,
                    b,
                ) by {
                    assert(block_sorted(before, szi, b));
                    assert forall|t: int|
                        #![trigger v@[t]]
                        b * szi <= t < block_end(n as int, szi, b) implies v@[t] == before[t] by {
                        assert(t >= hi);
                    }
                }
                bi = bi + 1;
                assert(lo + 2 * szi == bi * (2 * szi)) by (nonlinear_arith)
                    requires
                        lo == (bi - 1) * (2 * szi),
                ;
            }
            lo = lo + 2 * sz;
        }
        proof {
            assert forall|b: int| 0 <= b implies #[trigger] block_sorted(v@, 2 * szi, b) by {
                if b < bi {
                } else {
                    assert(b * (2 * szi) >= bi * (2 * szi)) by (nonlinear_arith)
                        requires
                            b >= bi,
                            szi >= 1,
                    ;
                    if lo < n {
                        if b == bi {
                            assert((2 * b) * szi == lo) by (nonlinear_arith)
                                requires
                                    lo == bi * (2 * szi),
                                    b == bi,
                            ;
                            assert(block_sorted(v@, szi, 2 * b));
                            assert(block_end(n as int, szi, 2 * b) == n) by {
                                assert(lo >= n - sz);
                            }
                            assert(block_end(n as int, 2 * szi, b) == n);
                        } else {
                            assert(b * (2 * szi) >= (bi + 1) * (2 * szi)) by (nonlinear_arith)
                                requires
                                    b >= bi + 1,
                                    szi >= 1,
                            ;
                            assert((bi + 1) * (2 * szi) == lo + 2 * szi) by (nonlinear_arith)
                                requires
                                    lo == bi * (2 * szi),
                            ;
                            assert(b * (2 * szi) >= n);
                        }
                    } else {
                        assert(b * (2 * szi) >= lo) by (nonlinear_arith)
                            requires
                                b >= bi,
                                lo == bi * (2 * szi),
                                szi >= 1,
                        ;
                    }
                }
            }
        }
        sz = sz + sz;
    }
    proof {
        if n > 0 {
            assert(block_sorted(v@, sz as int, 0));
            assert(0 * sz as int == 0);
            assert(block_end(n as int, sz as int, 0) == n);
            assert(sorted_between(v@, 0, n as int));
        } else {
            assert(sorted_between(v@, 0, 0));
        }
    }
}

} // verus!
