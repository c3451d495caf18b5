//! Symbol tables: associative maps from string keys to integer values, each
//! backend exposing the same contract over the same abstract model.
//!
//! The abstract content of every backend is a `Map<Seq<char>, i64>`: the view
//! of each table, through which all contracts are stated.

use vstd::prelude::*;

pub mod binary;
pub mod hashtable;
pub mod keys;
pub mod laws;
pub mod sequential;

verus! {

/// What a lookup returns on the abstract map: the value under `k`, if any.
pub open spec fn spec_get(m: Map<Seq<char>, i64>, k: Seq<char>) -> Option<i64> {
    if m.contains_key(k) {
        Some(m[k])
    } else {
        None
    }
}

/// The map described by a sequence of (key, value) entries, later entries
/// overriding earlier ones.
pub open spec fn entries_map(s: Seq<(Seq<char>, i64)>) -> Map<Seq<char>, i64>
    decreases s.len(),
{
    if s.len() == 0 {
        Map::empty()
    } else {
        entries_map(s.drop_last()).insert(s.last().0, s.last().1)
    }
}

/// No two entries share a key.
pub open spec fn distinct_keys(s: Seq<(Seq<char>, i64)>) -> bool {
    forall|i: int, j: int|
        #![trigger s[i].0, s[j].0]
        0 <= i < j < s.len() ==> s[i].0 != s[j].0
}

/// The entry map has a finite domain, and a key is in it exactly when some
/// entry holds it.
pub proof fn lemma_entries_map_dom(s: Seq<(Seq<char>, i64)>)
    ensures
        entries_map(s).dom().finite(),
        forall|k: Seq<char>|
            #[trigger] entries_map(s).contains_key(k) <==> exists|i: int|
                0 <= i < s.len() && s[i].0 == k,
    decreases s.len(),
{
    if s.len() == 0 {
    } else {
        lemma_entries_map_dom(s.drop_last());
        assert forall|k: Seq<char>| #[trigger]
            entries_map(s).contains_key(k) implies exists|i: int|
            0 <= i < s.len() && s[i].0 == k by {
            if k == s.last().0 {
                assert(s[s.len() - 1].0 == k);
            } else {
                let i = choose|i: int| 0 <= i < s.drop_last().len() && s.drop_last()[i].0 == k;
                assert(s[i].0 == k);
            }
        }
        assert forall|k: Seq<char>| (exists|i: int|
            0 <= i < s.len() && s[i].0 == k) implies #[trigger]
            entries_map(s).contains_key(k) by {
            let i = choose|i: int| 0 <= i < s.len() && s[i].0 == k;
            if i < s.len() - 1 {
                assert(s.drop_last()[i].0 == k);
            }
        }
    }
}

/// With distinct keys, the entry at index `i` is what the map holds under its
/// key.
pub proof fn lemma_entries_map_index(s: Seq<(Seq<char>, i64)>, i: int)
    requires
        distinct_keys(s),
        0 <= i < s.len(),
    ensures
        entries_map(s).contains_key(s[i].0),
        entries_map(s)[s[i].0] == s[i].1,
    decreases s.len(),
{
    if i == s.len() - 1 {
    } else {
        assert(distinct_keys(s.drop_last()));
        lemma_entries_map_index(s.drop_last(), i);
        assert(s[i].0 != s.last().0);
    }
}

/// With distinct keys, the map has exactly one key per entry.
pub proof fn lemma_entries_map_len(s: Seq<(Seq<char>, i64)>)
    requires
        distinct_keys(s),
    ensures
        entries_map(s).dom().len() == s.len(),
    decreases s.len(),
{
    lemma_entries_map_dom(s);
    if s.len() == 0 {
        assert(entries_map(s).dom() =~= Set::<Seq<char>>::empty());
    } else {
        let prefix = s.drop_last();
        assert(distinct_keys(prefix));
        lemma_entries_map_len(prefix);
        lemma_entries_map_dom(prefix);
        assert(!entries_map(prefix).contains_key(s.last().0)) by {
            if entries_map(prefix).contains_key(s.last().0) {
                let i = choose|i: int| 0 <= i < prefix.len() && prefix[i].0 == s.last().0;
                assert(s[i].0 == s[s.len() - 1].0);
            }
        }
        assert(entries_map(s).dom() =~= entries_map(prefix).dom().insert(s.last().0));
        vstd::set::axiom_set_insert_len(entries_map(prefix).dom(), s.last().0);
    }
}

/// Appending a fresh entry inserts its binding.
pub proof fn lemma_entries_map_push(s: Seq<(Seq<char>, i64)>, k: Seq<char>, v: i64)
    ensures
        entries_map(s.push((k, v))) == entries_map(s).insert(k, v),
{
    assert(s.push((k, v)).drop_last() =~= s);
    assert(s.push((k, v)).last() == (k, v));
}

/// Overwriting the value at index `i` updates that entry's binding.
pub proof fn lemma_entries_map_update(s: Seq<(Seq<char>, i64)>, i: int, v: i64)
    requires
        distinct_keys(s),
        0 <= i < s.len(),
    ensures
        entries_map(s.update(i, (s[i].0, v))) == entries_map(s).insert(s[i].0, v),
    decreases s.len(),
{
    let t = s.update(i, (s[i].0, v));
    if i == s.len() - 1 {
        assert(t.drop_last() =~= s.drop_last());
        assert(t.last() == (s[i].0, v));
    } else {
        assert(distinct_keys(s.drop_last()));
        lemma_entries_map_update(s.drop_last(), i, v);
        assert(t.drop_last() =~= s.drop_last().update(i, (s[i].0, v)));
        assert(t.last() == s.last());
        assert(s[i].0 != s.last().0);
        assert(entries_map(t) =~= entries_map(s).insert(s[i].0, v));
    }
}

/// Removing the entry at index `i` removes its binding.
pub proof fn lemma_entries_map_remove(s: Seq<(Seq<char>, i64)>, i: int)
    requires
        distinct_keys(s),
        0 <= i < s.len(),
    ensures
        entries_map(s.remove(i)) == entries_map(s).remove(s[i].0),
    decreases s.len(),
{
    if i == s.len() - 1 {
        assert(s.remove(i) =~= s.drop_last());
        lemma_entries_map_dom(s.drop_last());
        assert(!entries_map(s.drop_last()).contains_key(s.last().0)) by {
            if entries_map(s.drop_last()).contains_key(s.last().0) {
                let j = choose|j: int|
                    0 <= j < s.drop_last().len() && s.drop_last()[j].0 == s.last().0;
                assert(s[j].0 == s[s.len() - 1].0);
            }
        }
        assert(entries_map(s.remove(i)) =~= entries_map(s).remove(s[i].0));
    } else {
        assert(distinct_keys(s.drop_last()));
        lemma_entries_map_remove(s.drop_last(), i);
        assert(s.remove(i).drop_last() =~= s.drop_last().remove(i));
        assert(s.remove(i).last() == s.last());
        assert(s[i].0 != s.last().0);
        assert(entries_map(s.remove(i)) =~= entries_map(s).remove(s[i].0));
    }
}

/// Inserting a fresh entry at index `i` inserts its binding.
pub proof fn lemma_entries_map_insert_at(s: Seq<(Seq<char>, i64)>, i: int, k: Seq<char>, v: i64)
    requires
        0 <= i <= s.len(),
        forall|j: int| 0 <= j < s.len() ==> #[trigger] s[j].0 != k,
    ensures
        entries_map(s.insert(i, (k, v))) == entries_map(s).insert(k, v),
    decreases s.len(),
{
    let t = s.insert(i, (k, v));
    if i == s.len() {
        assert(t =~= s.push((k, v)));
        lemma_entries_map_push(s, k, v);
    } else {
        lemma_entries_map_insert_at(s.drop_last(), i, k, v);
        assert(t.drop_last() =~= s.drop_last().insert(i, (k, v)));
        assert(t.last() == s.last());
        assert(s[s.len() - 1].0 != k);
        assert(entries_map(t) =~= entries_map(s).insert(k, v));
    }
}

/// The views of a sequence of owned entries.
pub open spec fn entry_views(s: Seq<(String, i64)>) -> Seq<(Seq<char>, i64)> {
    s.map_values(|p: (String, i64)| (p.0@, p.1))
}

} // verus!
