//! A total order on string keys: lexicographic comparison of the character
//! sequences, by code point.

use vstd::prelude::*;
use vstd::string::StrSliceExecFns;

verus! {

/// Strict lexicographic order on character sequences.
pub open spec fn lex_lt(a: Seq<char>, b: Seq<char>) -> bool
    decreases a.len(),
{
    if b.len() == 0 {
        false
    } else if a.len() == 0 {
        true
    } else if a[0] != b[0] {
        a[0] < b[0]
    } else {
        lex_lt(a.drop_first(), b.drop_first())
    }
}

/// The order is irreflexive and asymmetric: of `lex_lt(a, b)` and
/// `lex_lt(b, a)`, at most one holds, and never for equal sequences.
pub proof fn lemma_lex_asymmetric(a: Seq<char>, b: Seq<char>)
    ensures
        !(lex_lt(a, b) && lex_lt(b, a)),
    decreases a.len(),
{
    if a.len() > 0 && b.len() > 0 && a[0] == b[0] {
        lemma_lex_asymmetric(a.drop_first(), b.drop_first());
    }
}

/// The order is connected: distinct sequences compare one way or the other.
pub proof fn lemma_lex_connected(a: Seq<char>, b: Seq<char>)
    ensures
        !lex_lt(a, b) && !lex_lt(b, a) ==> a == b,
    decreases a.len(),
{
    if a.len() > 0 && b.len() > 0 && a[0] == b[0] {
        lemma_lex_connected(a.drop_first(), b.drop_first());
        if !lex_lt(a, b) && !lex_lt(b, a) {
            assert(a.drop_first() == b.drop_first());
            assert(a =~= b) by {
                assert(forall|i: int|
                    1 <= i < a.len() ==> a[i] == a.drop_first()[i - 1] && b[i] == b.drop_first()[i
                        - 1]);
            }
        }
    } else {
        if !lex_lt(a, b) && !lex_lt(b, a) {
            if b.len() == 0 && a.len() > 0 {
                assert(lex_lt(b, a));
            } else if a.len() == 0 && b.len() > 0 {
                assert(lex_lt(a, b));
            } else if a.len() > 0 && b.len() > 0 {
                assert(a[0] == b[0]);
            }
            assert(a =~= b);
        }
    }
}

/// The order is transitive.
pub proof fn lemma_lex_transitive(a: Seq<char>, b: Seq<char>, c: Seq<char>)
    requires
        lex_lt(a, b),
        lex_lt(b, c),
    ensures
        lex_lt(a, c),
    decreases a.len(),
{
    if a.len() > 0 && b.len() > 0 && c.len() > 0 && a[0] == b[0] && b[0] == c[0] {
        lemma_lex_transitive(a.drop_first(), b.drop_first(), c.drop_first());
    }
}

/// Dropping an equal prefix of length `i` does not change how two sequences
/// compare.
pub proof fn lemma_lex_skip(a: Seq<char>, b: Seq<char>, i: int)
    requires
        0 <= i <= a.len(),
        i <= b.len(),
        forall|j: int| 0 <= j < i ==> a[j] == b[j],
    ensures
        lex_lt(a, b) == lex_lt(a.skip(i), b.skip(i)),
    decreases i,
{
    if i == 0 {
        assert(a.skip(0) =~= a);
        assert(b.skip(0) =~= b);
    } else {
        assert(a.len() > 0 && b.len() > 0 && a[0] == b[0]);
        assert(forall|j: int|
            0 <= j < i - 1 ==> a.drop_first()[j] == a[j + 1] && b.drop_first()[j] == b[j + 1]);
        lemma_lex_skip(a.drop_first(), b.drop_first(), i - 1);
        assert(a.drop_first().skip(i - 1) =~= a.skip(i));
        assert(b.drop_first().skip(i - 1) =~= b.skip(i));
    }
}

/// How two keys compare.
pub enum KeyOrder {
    Less,
    Equal,
    Greater,
}

/// Three-way lexicographic comparison of two keys.
pub fn compare_keys(a: &String, b: &String) -> (r: KeyOrder)
    ensures
        (r is Less) == lex_lt(a@, b@),
        (r is Greater) == lex_lt(b@, a@),
        (r is Equal) == (a@ == b@),
{
    let an = a.as_str().unicode_len();
    let bn = b.as_str().unicode_len();
    let n = if an < bn {
        an
    } else {
        bn
    };
    let mut i: usize = 0;
    while i < n
        invariant
            n <= a@.len(),
            n <= b@.len(),
            an == a@.len(),
            bn == b@.len(),
            n == if an < bn {
                an
            } else {
                bn
            },
            i <= n,
            forall|j: int| 0 <= j < i ==> a@[j] == b@[j],
        decreases n - i,
    {
        let ca = a.as_str().get_char(i);
        let cb = b.as_str().get_char(i);
        if ca < cb {
            proof {
                lemma_lex_skip(a@, b@, i as int);
                lemma_lex_skip(b@, a@, i as int);
                assert(a@.skip(i as int)[0] == ca && b@.skip(i as int)[0] == cb);
                assert(lex_lt(a@.skip(i as int), b@.skip(i as int)));
                assert(!lex_lt(b@.skip(i as int), a@.skip(i as int)));
                lemma_lex_asymmetric(a@, b@);
            }
            return KeyOrder::Less;
        }
        if ca > cb {
            proof {
                lemma_lex_skip(a@, b@, i as int);
                lemma_lex_skip(b@, a@, i as int);
                assert(a@.skip(i as int)[0] == ca && b@.skip(i as int)[0] == cb);
                assert(lex_lt(b@.skip(i as int), a@.skip(i as int)));
                assert(!lex_lt(a@.skip(i as int), b@.skip(i as int)));
            }
            return KeyOrder::Greater;
        }
        proof {
            assert(a@[i as int] == ca && b@[i as int] == cb);
        }
        i = i + 1;
    }
    proof {
        lemma_lex_skip(a@, b@, n as int);
        lemma_lex_skip(b@, a@, n as int);
    }
    if an == bn {
        proof {
            assert(a@ =~= b@);
        }
        KeyOrder::Equal
    } else if an < bn {
        proof {
            assert(a@.skip(n as int).len() == 0 && b@.skip(n as int).len() > 0);
            assert(lex_lt(a@, b@));
            assert(!lex_lt(b@, a@));
            assert(a@ != b@) by {
                assert(a@.len() != b@.len());
            }
        }
        KeyOrder::Less
    } else {
        proof {
            assert(b@.skip(n as int).len() == 0 && a@.skip(n as int).len() > 0);
            assert(lex_lt(b@, a@));
            assert(!lex_lt(a@, b@));
            assert(a@ != b@) by {
                assert(a@.len() != b@.len());
            }
        }
        KeyOrder::Greater
    }
}

} // verus!
