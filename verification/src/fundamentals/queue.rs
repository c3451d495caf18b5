//! FIFO queue, backed by a growable array with the front at index zero.

use vstd::prelude::*;

verus! {

/// A first-in, first-out queue; its content is the sequence of elements from
/// front to back.
pub struct Queue<T> {
    items: Vec<T>,
}

impl<T> View for Queue<T> {
    type V = Seq<T>;

    closed spec fn view(&self) -> Seq<T> {
        self.items@
    }
}

impl<T> Queue<T> {
    /// Constructs a new, empty `Queue<T>`.
    pub fn new() -> (r: Queue<T>)
        ensures
            r@ == Seq::<T>::empty(),
    {
        Queue { items: Vec::new() }
    }

    /// Returns `true` if the queue contains no elements.
    pub fn is_empty(&self) -> (r: bool)
        ensures
            r == (self@.len() == 0),
    {
        self.items.len() == 0
    }

    /// Returns the number of elements in the queue.
    pub fn len(&self) -> (r: usize)
        ensures
            r == self@.len(),
    {
        self.items.len()
    }

    /// Adds an element to the end of the queue.
    pub fn enqueue(&mut self, value: T)
        ensures
            final(self)@ == old(self)@.push(value),
    {
        self.items.push(value);
    }

    /// Removes the element at the front of the queue and returns it.
    pub fn dequeue(&mut self) -> (r: Option<T>)
        ensures
            old(self)@.len() == 0 ==> r is None && final(self)@ == old(self)@,
            old(self)@.len() > 0 ==> r == Some(old(self)@.first()) && final(self)@ == old(
                self,
            )@.drop_first(),
    {
        if self.items.len() == 0 {
            None
        } else {
            let value = self.items.remove(0);
            proof {
                assert(old(self)@.remove(0) =~= old(self)@.drop_first());
            }
            Some(value)
        }
    }
}

} // verus!
