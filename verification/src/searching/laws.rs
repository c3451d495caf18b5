//! Laws that hold across the symbol-table backends.

use vstd::prelude::*;

use crate::searching::{binary, hashtable, sequential, spec_get};

verus! {

/// Contract equivalence: the three backends with equal content answer every
/// query alike.  Together with each backend's contracts — `put` makes the
/// content `old@.insert(k, v)`, `delete` makes it `old@.remove(k)`, and
/// `get`, `contains` and `size` are functions of the content alone — this
/// gives that replaying one sequence of operations against all three
/// backends returns identical results at every step.
pub proof fn lemma_backend_agreement(
    s: sequential::SymbolTable,
    o: binary::SymbolTable,
    h: hashtable::SymbolTable,
    k: Seq<char>,
)
    requires
        s.wf(),
        o.wf(),
        h.wf(),
        s@ == o@,
        o@ == h@,
    ensures
        spec_get(s@, k) == spec_get(o@, k),
        spec_get(o@, k) == spec_get(h@, k),
        s@.contains_key(k) == o@.contains_key(k),
        o@.contains_key(k) == h@.contains_key(k),
        s@.dom().len() == o@.dom().len(),
        o@.dom().len() == h@.dom().len(),
{
}

/// Idempotent delete: removing an absent key leaves the content — and with
/// it the size and every lookup — unchanged.
pub proof fn lemma_delete_absent_identity(m: Map<Seq<char>, i64>, k: Seq<char>)
    requires
        !m.contains_key(k),
    ensures
        m.remove(k) == m,
{
    assert(m.remove(k) =~= m);
}

/// Put overwrite: a second put of the same key wins, the lookup afterwards
/// returns the second value, and the size is the same after either put.
pub proof fn lemma_put_overwrite(m: Map<Seq<char>, i64>, k: Seq<char>, v1: i64, v2: i64)
    ensures
        m.insert(k, v1).insert(k, v2) == m.insert(k, v2),
        spec_get(m.insert(k, v1).insert(k, v2), k) == Some(v2),
        m.insert(k, v1).dom().len() == m.insert(k, v2).dom().len(),
{
    assert(m.insert(k, v1).insert(k, v2) =~= m.insert(k, v2));
    assert(m.insert(k, v1).dom() =~= m.insert(k, v2).dom());
}

} // verus!
