//! Heap priority queue: a max-priority queue whose content is a multiset.

use vstd::prelude::*;
use vstd::multiset::Multiset;

use crate::sorting::exchange;
use crate::sorting::heap::{is_heap, lemma_heap_root_max, sink, swim};

verus! {

broadcast use vstd::seq_lib::group_to_multiset_ensures;

/// A max-priority queue backed by a binary heap.
pub struct MaxPQ {
    items: Vec<i64>,
}

impl View for MaxPQ {
    type V = Multiset<i64>;

    closed spec fn view(&self) -> Multiset<i64> {
        self.items@.to_multiset()
    }
}

impl MaxPQ {
    /// The backing vector is heap-ordered.
    pub closed spec fn wf(self) -> bool {
        is_heap(self.items@, self.items@.len() as int)
    }

    /// Constructs a new, empty priority queue.
    pub fn new() -> (r: MaxPQ)
        ensures
            r.wf(),
            r@ == Multiset::<i64>::empty(),
    {
        let r = MaxPQ { items: Vec::new() };
        proof {
            assert(r.items@.to_multiset() =~= Multiset::<i64>::empty());
        }
        r
    }

    /// Adds a value to the queue.
    pub fn insert(&mut self, value: i64)
        requires
            old(self).wf(),
            old(self)@.len() < usize::MAX / 2,
        ensures
            final(self).wf(),
            final(self)@ == old(self)@.insert(value),
    {
        let n = self.items.len();
        self.items.push(value);
        proof {
            assert forall|c: int|
                #![trigger self.items@[c]]
                1 <= c < self.items@.len() && (c - 1) / 2 == n implies self.items@[(n as int - 1)
                / 2] >= self.items@[c] by {
                assert(c >= 2 * n + 1);
            }
        }
        swim(&mut self.items, n);
    }

    /// Removes and returns the largest value, or `None` on an empty queue.
    pub fn pop_max(&mut self) -> (r: Option<i64>)
        requires
            old(self).wf(),
            old(self)@.len() < usize::MAX / 2,
        ensures
            final(self).wf(),
            old(self)@.len() == 0 ==> r is None && final(self)@ == old(self)@,
            old(self)@.len() > 0 ==> r is Some && old(self)@.count(r->0) > 0 && final(self)@ == old(
                self,
            )@.remove(r->0) && (forall|x: i64| old(self)@.count(x) > 0 ==> x <= r->0),
    {
        if self.items.len() == 0 {
            return None;
        }
        let ghost orig = self.items@;
        let n = self.items.len() - 1;
        proof {
            assert forall|x: i64| orig.to_multiset().count(x) > 0 implies x <= orig[0] by {
                assert(orig.to_multiset().contains(x));
                assert(orig.contains(x));
                let w = choose|w: int| 0 <= w < orig.len() && orig[w] == x;
                lemma_heap_root_max(orig, orig.len() as int, w);
            }
        }
        exchange(&mut self.items, 0, n);
        let result = self.items.pop();
        proof {
            let swapped = orig.update(0, orig[n as int]).update(n as int, orig[0]);
            assert(swapped.drop_last() =~= swapped.remove(n as int));
            assert(swapped.to_multiset() == orig.to_multiset());
            assert(self.items@.to_multiset() == orig.to_multiset().remove(orig[0]));
            assert forall|j: int|
                #![trigger self.items@[j]]
                1 <= j < self.items@.len() && (j - 1) / 2 > 0 implies self.items@[(j - 1) / 2]
                >= self.items@[j] by {
                assert(self.items@[j] == orig[j]);
                assert(self.items@[(j - 1) / 2] == orig[(j - 1) / 2]);
            }
        }
        let len2 = self.items.len();
        sink(&mut self.items, 0, len2);
        result
    }

    /// True if the queue is empty.
    pub fn is_empty(&self) -> (r: bool)
        ensures
            r == (self@.len() == 0),
    {
        self.items.len() == 0
    }

    /// Returns the number of values in the queue.
    pub fn size(&self) -> (r: usize)
        ensures
            r == self@.len(),
    {
        self.items.len()
    }
}

} // verus!
