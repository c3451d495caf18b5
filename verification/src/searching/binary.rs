//! Binary search: a symbol table backed by a sequence of (key, value) pairs
//! kept strictly sorted by key, located in O(log n) comparisons by `rank`.

use vstd::prelude::*;

use crate::searching::keys::{
    compare_keys, lemma_lex_asymmetric, lex_lt, KeyOrder,
};
use crate::searching::{
    distinct_keys, entries_map, entry_views, lemma_entries_map_dom, lemma_entries_map_index,
    lemma_entries_map_insert_at, lemma_entries_map_len, lemma_entries_map_remove,
    lemma_entries_map_update, spec_get,
};

verus! {

/// A symbol table implementation based on an ordered array.
pub struct SymbolTable {
    vec: Vec<(String, i64)>,
}

impl View for SymbolTable {
    type V = Map<Seq<char>, i64>;

    closed spec fn view(&self) -> Map<Seq<char>, i64> {
        entries_map(entry_views(self.vec@))
    }
}

impl SymbolTable {
    /// The key stored at index `i`.
    pub closed spec fn key_at(self, i: int) -> Seq<char> {
        self.vec@[i].0@
    }

    /// The number of stored entries.
    pub closed spec fn spec_len(self) -> nat {
        self.vec@.len()
    }

    /// The backing sequence is strictly ascending by key.
    pub closed spec fn wf(self) -> bool {
        forall|i: int, j: int|
            0 <= i < j < self.spec_len() ==> lex_lt(#[trigger] self.key_at(i), #[trigger] self.key_at(j))
    }

    proof fn lemma_wf_distinct(self)
        requires
            self.wf(),
        ensures
            distinct_keys(entry_views(self.vec@)),
    {
        assert forall|i: int, j: int|
            0 <= i < j < self.vec@.len() implies #[trigger] entry_views(self.vec@)[i].0
            != #[trigger] entry_views(self.vec@)[j].0 by {
            lemma_lex_asymmetric(self.key_at(i), self.key_at(j));
        }
    }

    /// Constructs a new, empty symbol table.
    pub fn new() -> (r: SymbolTable)
        ensures
            r.wf(),
            r@ == Map::<Seq<char>, i64>::empty(),
    {
        let r = SymbolTable { vec: Vec::new() };
        proof {
            assert(entry_views(r.vec@) =~= Seq::<(Seq<char>, i64)>::empty());
        }
        r
    }

    /// Searches for `key` in the table. Returns the number of keys that are
    /// smaller, and whether `key` itself is present.
    fn rank(&self, key: &String) -> (r: (usize, bool))
        requires
            self.wf(),
        ensures
            r.0 <= self.spec_len(),
            r.1 ==> r.0 < self.spec_len() && self.key_at(r.0 as int) == key@,
            !r.1 ==> forall|i: int|
                0 <= i < self.spec_len() ==> (if i < r.0 {
                    lex_lt(#[trigger] self.key_at(i), key@)
                } else {
                    lex_lt(key@, self.key_at(i))
                }),
    {
        let n = self.vec.len();
        let mut lo: usize = 0;
        let mut hi: usize = n;
        while lo < hi
            invariant
                self.wf(),
                n == self.spec_len(),
                lo <= hi <= n,
                forall|i: int| 0 <= i < lo ==> lex_lt(#[trigger] self.key_at(i), key@),
                forall|i: int| hi <= i < n ==> lex_lt(key@, #[trigger] self.key_at(i)),
            decreases hi - lo,
        {
            let mid = lo + (hi - lo) / 2;
            match compare_keys(key, &self.vec[mid].0) {
                KeyOrder::Less => {
                    proof {
                        assert forall|i: int| mid <= i < n implies lex_lt(
                            key@,
                            #[trigger] self.key_at(i),
                        ) by {
                            if i > mid {
                                crate::searching::keys::lemma_lex_transitive(
                                    key@,
                                    self.key_at(mid as int),
                                    self.key_at(i),
                                );
                            }
                        }
                    }
                    hi = mid;
                },
                KeyOrder::Equal => {
                    return (mid, true);
                },
                KeyOrder::Greater => {
                    proof {
                        assert forall|i: int| 0 <= i <= mid implies lex_lt(
                            #[trigger] self.key_at(i),
                            key@,
                        ) by {
                            if i < mid {
                                crate::searching::keys::lemma_lex_transitive(
                                    self.key_at(i),
                                    self.key_at(mid as int),
                                    key@,
                                );
                            }
                        }
                    }
                    lo = mid + 1;
                },
            }
        }
        (lo, false)
    }

    /// Adds a key-value pair to the symbol table. If there is already an
    /// element with the same key, its value is updated.
    pub fn put(&mut self, key: String, value: i64)
        requires
            old(self).wf(),
        ensures
            final(self).wf(),
            final(self)@ == old(self)@.insert(key@, value),
    {
        let (i, present) = self.rank(&key);
        if present {
            proof {
                self.lemma_wf_distinct();
                let views = entry_views(self.vec@);
                lemma_entries_map_update(views, i as int, value);
                assert(entry_views(self.vec@.update(i as int, (key, value))) =~= views.update(
                    i as int,
                    (key@, value),
                ));
                assert(views.update(i as int, (key@, value)) =~= views.update(
                    i as int,
                    (views[i as int].0, value),
                ));
            }
            self.vec[i] = (key, value);
            proof {
                assert(forall|a: int|
                    0 <= a < self.spec_len() ==> #[trigger] self.key_at(a) == old(self).key_at(a));
            }
        } else {
            proof {
                self.lemma_wf_distinct();
                let views = entry_views(self.vec@);
                assert forall|j: int| 0 <= j < views.len() implies #[trigger] views[j].0
                    != key@ by {
                    lemma_lex_asymmetric(self.key_at(j), key@);
                }
                lemma_entries_map_insert_at(views, i as int, key@, value);
                assert(entry_views(self.vec@.insert(i as int, (key, value))) =~= views.insert(
                    i as int,
                    (key@, value),
                ));
            }
            self.vec.insert(i, (key, value));
            proof {
                old(self).vec@.insert_ensures(i as int, (key, value));
                assert forall|a: int, b: int|
                    0 <= a < b < self.spec_len() implies lex_lt(
                    #[trigger] self.key_at(a),
                    #[trigger] self.key_at(b),
                ) by {
                    let olds = old(self).vec@;
                    if b < i {
                        assert(self.vec@[a] == olds[a]);
                        assert(self.vec@[b] == olds[b]);
                        assert(lex_lt(old(self).key_at(a), old(self).key_at(b)));
                    } else if b == i {
                        assert(self.vec@[a] == olds[a]);
                        assert(self.vec@[b] == (key, value));
                        assert(lex_lt(old(self).key_at(a), key@));
                    } else {
                        assert(self.vec@[b] == olds[b - 1]);
                        assert(lex_lt(key@, old(self).key_at(b - 1)));
                        if a < i {
                            assert(self.vec@[a] == olds[a]);
                            assert(lex_lt(old(self).key_at(a), key@));
                            crate::searching::keys::lemma_lex_transitive(
                                old(self).key_at(a),
                                key@,
                                old(self).key_at(b - 1),
                            );
                        } else if a == i {
                            assert(self.vec@[a] == (key, value));
                        } else {
                            assert(self.vec@[a] == olds[a - 1]);
                            assert(lex_lt(old(self).key_at(a - 1), old(self).key_at(b - 1)));
                        }
                    }
                }
            }
        }
    }

    /// Gets the value associated with the given key, or `None`.
    pub fn get(&self, key: &String) -> (r: Option<i64>)
        requires
            self.wf(),
        ensures
            r == spec_get(self@, key@),
    {
        let (i, present) = self.rank(key);
        proof {
            self.lemma_wf_distinct();
            if present {
                lemma_entries_map_index(entry_views(self.vec@), i as int);
            } else {
                lemma_entries_map_dom(entry_views(self.vec@));
                assert forall|j: int| 0 <= j < self.spec_len() implies #[trigger] entry_views(
                    self.vec@,
                )[j].0 != key@ by {
                    lemma_lex_asymmetric(self.key_at(j), key@);
                }
            }
        }
        if present {
            Some(self.vec[i].1)
        } else {
            None
        }
    }

    /// Removes the entry with the given key; absent keys are left alone.
    pub fn delete(&mut self, key: &String)
        requires
            old(self).wf(),
        ensures
            final(self).wf(),
            final(self)@ == old(self)@.remove(key@),
    {
        let (i, present) = self.rank(key);
        if present {
            proof {
                self.lemma_wf_distinct();
                let views = entry_views(self.vec@);
                lemma_entries_map_remove(views, i as int);
                assert(entry_views(self.vec@.remove(i as int)) =~= views.remove(i as int));
            }
            self.vec.remove(i);
            proof {
                old(self).vec@.remove_ensures(i as int);
                assert forall|a: int, b: int|
                    0 <= a < b < self.spec_len() implies lex_lt(
                    #[trigger] self.key_at(a),
                    #[trigger] self.key_at(b),
                ) by {
                    let olds = old(self).vec@;
                    let a2: int = if a < i {
                        a
                    } else {
                        a + 1
                    };
                    let b2: int = if b < i {
                        b
                    } else {
                        b + 1
                    };
                    assert(self.vec@[a] == olds[a2]);
                    assert(self.vec@[b] == olds[b2]);
                    assert(lex_lt(old(self).key_at(a2), old(self).key_at(b2)));
                }
            }
        } else {
            proof {
                self.lemma_wf_distinct();
                lemma_entries_map_dom(entry_views(self.vec@));
                assert forall|j: int| 0 <= j < self.spec_len() implies #[trigger] entry_views(
                    self.vec@,
                )[j].0 != key@ by {
                    lemma_lex_asymmetric(self.key_at(j), key@);
                }
                assert(self@.remove(key@) =~= self@);
            }
        }
    }

    /// True if the symbol table contains the given key.
    pub fn contains(&self, key: &String) -> (r: bool)
        requires
            self.wf(),
        ensures
            r == self@.contains_key(key@),
    {
        let (i, present) = self.rank(key);
        proof {
            self.lemma_wf_distinct();
            lemma_entries_map_dom(entry_views(self.vec@));
            if present {
                assert(entry_views(self.vec@)[i as int].0 == key@);
            } else {
                assert forall|j: int| 0 <= j < self.spec_len() implies #[trigger] entry_views(
                    self.vec@,
                )[j].0 != key@ by {
                    lemma_lex_asymmetric(self.key_at(j), key@);
                }
            }
        }
        present
    }

    /// True if the symbol table is empty.
    pub fn is_empty(&self) -> (r: bool)
        requires
            self.wf(),
        ensures
            r == (self@.dom().len() == 0),
    {
        proof {
            self.lemma_wf_distinct();
            lemma_entries_map_len(entry_views(self.vec@));
        }
        self.vec.is_empty()
    }

    /// Returns the number of entries in the symbol table.
    pub fn size(&self) -> (r: usize)
        requires
            self.wf(),
        ensures
            r == self@.dom().len(),
    {
        proof {
            self.lemma_wf_distinct();
            lemma_entries_map_len(entry_views(self.vec@));
        }
        self.vec.len()
    }
}

} // verus!
