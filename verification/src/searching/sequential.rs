//! Sequential search: a symbol table backed by an unordered sequence of
//! (key, value) pairs, scanned linearly by every operation.

use vstd::prelude::*;

use crate::searching::{
    distinct_keys, entries_map, entry_views, lemma_entries_map_dom, lemma_entries_map_index,
    lemma_entries_map_len, lemma_entries_map_push, lemma_entries_map_remove,
    lemma_entries_map_update, spec_get,
};

verus! {

/// A symbol table implementation based on an unordered array.
pub struct SymbolTable {
    vec: Vec<(String, i64)>,
}

impl View for SymbolTable {
    type V = Map<Seq<char>, i64>;

    closed spec fn view(&self) -> Map<Seq<char>, i64> {
        entries_map(entry_views(self.vec@))
    }
}

impl SymbolTable {
    /// The backing sequence holds each key at most once.
    pub closed spec fn wf(self) -> bool {
        distinct_keys(entry_views(self.vec@))
    }

    /// Constructs a new, empty symbol table.
    pub fn new() -> (r: SymbolTable)
        ensures
            r.wf(),
            r@ == Map::<Seq<char>, i64>::empty(),
    {
        let r = SymbolTable { vec: Vec::new() };
        proof {
            assert(entry_views(r.vec@) =~= Seq::<(Seq<char>, i64)>::empty());
        }
        r
    }

    /// Adds a key-value pair to the symbol table. If there is already an
    /// element with the same key, its value is updated.
    pub fn put(&mut self, key: String, value: i64)
        requires
            old(self).wf(),
        ensures
            final(self).wf(),
            final(self)@ == old(self)@.insert(key@, value),
    {
        let n = self.vec.len();
        for i in 0..n
            invariant
                n == self.vec@.len(),
                self.wf(),
                self == old(self),
                forall|j: int| 0 <= j < i ==> #[trigger] self.vec@[j].0@ != key@,
        {
            if self.vec[i].0 == key {
                proof {
                    let views = entry_views(self.vec@);
                    lemma_entries_map_update(views, i as int, value);
                    assert(entry_views(self.vec@.update(i as int, (key, value))) =~= views.update(
                        i as int,
                        (key@, value),
                    ));
                    assert(views.update(i as int, (key@, value)) =~= views.update(
                        i as int,
                        (views[i as int].0, value),
                    ));
                    assert(distinct_keys(views.update(i as int, (views[i as int].0, value))));
                }
                self.vec[i] = (key, value);
                return ;
            }
        }
        proof {
            let views = entry_views(self.vec@);
            lemma_entries_map_push(views, key@, value);
            assert(entry_views(self.vec@.push((key, value))) =~= views.push((key@, value)));
            assert(distinct_keys(views.push((key@, value))));
        }
        self.vec.push((key, value));
    }

    /// Gets the value associated with the given key, or `None`.
    pub fn get(&self, key: &String) -> (r: Option<i64>)
        requires
            self.wf(),
        ensures
            r == spec_get(self@, key@),
    {
        let n = self.vec.len();
        for i in 0..n
            invariant
                n == self.vec@.len(),
                self.wf(),
                forall|j: int| 0 <= j < i ==> #[trigger] self.vec@[j].0@ != key@,
        {
            if self.vec[i].0 == *key {
                proof {
                    lemma_entries_map_index(entry_views(self.vec@), i as int);
                }
                return Some(self.vec[i].1);
            }
        }
        proof {
            lemma_entries_map_dom(entry_views(self.vec@));
        }
        None
    }

    /// Removes the entry with the given key; absent keys are left alone.
    pub fn delete(&mut self, key: &String)
        requires
            old(self).wf(),
        ensures
            final(self).wf(),
            final(self)@ == old(self)@.remove(key@),
    {
        let n = self.vec.len();
        for i in 0..n
            invariant
                n == self.vec@.len(),
                self.wf(),
                self == old(self),
                forall|j: int| 0 <= j < i ==> #[trigger] self.vec@[j].0@ != key@,
        {
            if self.vec[i].0 == *key {
                proof {
                    let views = entry_views(self.vec@);
                    lemma_entries_map_remove(views, i as int);
                    assert(entry_views(self.vec@.remove(i as int)) =~= views.remove(i as int));
                    assert(distinct_keys(views.remove(i as int)));
                }
                self.vec.remove(i);
                return ;
            }
        }
        proof {
            lemma_entries_map_dom(entry_views(self.vec@));
            assert(self@.remove(key@) =~= self@);
        }
    }

    /// True if the symbol table contains the given key.
    pub fn contains(&self, key: &String) -> (r: bool)
        requires
            self.wf(),
        ensures
            r == self@.contains_key(key@),
    {
        let n = self.vec.len();
        for i in 0..n
            invariant
                n == self.vec@.len(),
                self.wf(),
                forall|j: int| 0 <= j < i ==> #[trigger] self.vec@[j].0@ != key@,
        {
            if self.vec[i].0 == *key {
                proof {
                    lemma_entries_map_index(entry_views(self.vec@), i as int);
                }
                return true;
            }
        }
        proof {
            lemma_entries_map_dom(entry_views(self.vec@));
        }
        false
    }

    /// True if the symbol table is empty.
    pub fn is_empty(&self) -> (r: bool)
        requires
            self.wf(),
        ensures
            r == (self@.dom().len() == 0),
    {
        proof {
            lemma_entries_map_len(entry_views(self.vec@));
        }
        self.vec.is_empty()
    }

    /// Returns the number of entries in the symbol table.
    pub fn size(&self) -> (r: usize)
        requires
            self.wf(),
        ensures
            r == self@.dom().len(),
    {
        proof {
            lemma_entries_map_len(entry_views(self.vec@));
        }
        self.vec.len()
    }
}

} // verus!
