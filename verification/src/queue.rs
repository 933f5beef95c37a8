//! The plain strict FIFO queue: the textbook collaborator recommended over
//! the segmented queue when no relaxation is wanted, with its surface
//! specified exactly over the sequence of values it holds.

use vstd::prelude::*;

verus! {

/// A strict first-in-first-out queue of opaque payloads.
pub struct Queue<T> {
    items: Vec<T>,
}

impl<T> Queue<T> {
    /// The held values, front first.
    pub closed spec fn view(self) -> Seq<T> {
        self.items@
    }

    /// A fresh queue holding nothing.
    pub fn new() -> (r: Self)
        ensures
            r.view() == Seq::<T>::empty(),
    {
        Queue { items: Vec::new() }
    }

    /// Appends a value at the back.
    pub fn enqueue(&mut self, value: T)
        ensures
            final(self).view() == old(self).view().push(value),
    {
        self.items.push(value);
    }

    /// Takes the value at the front, or reports the queue empty.
    pub fn dequeue(&mut self) -> (r: Option<T>)
        ensures
            old(self).view().len() == 0 ==> r is None && final(self).view() == old(self).view(),
            old(self).view().len() > 0 ==> r == Some(old(self).view().first())
                && final(self).view() == old(self).view().drop_first(),
    {
        if self.items.len() == 0 {
            None
        } else {
            let v = self.items.remove(0);
            proof {
                assert(self.items@ =~= old(self).items@.drop_first());
            }
            Some(v)
        }
    }
}

} // verus!
