//! The plain stack: the textbook last-in-first-out collaborator of the
//! containers, with its surface specified exactly over the sequence of
//! values it holds.

use vstd::prelude::*;

verus! {

/// A last-in-first-out stack of opaque payloads.
pub struct Stack<T> {
    items: Vec<T>,
}

impl<T> Stack<T> {
    /// The held values, bottom first.
    pub closed spec fn view(self) -> Seq<T> {
        self.items@
    }

    /// A fresh stack holding nothing.
    pub fn new() -> (r: Self)
        ensures
            r.view() == Seq::<T>::empty(),
    {
        Stack { items: Vec::new() }
    }

    /// Pushes a value on top.
    pub fn push(&mut self, value: T)
        ensures
            final(self).view() == old(self).view().push(value),
    {
        self.items.push(value);
    }

    /// Pops the most recently pushed value, or reports the stack empty.
    pub fn pop(&mut self) -> (r: Option<T>)
        ensures
            old(self).view().len() == 0 ==> r is None && final(self).view() == old(self).view(),
            old(self).view().len() > 0 ==> r == Some(old(self).view().last()) && final(self).view()
                == old(self).view().drop_last(),
    {
        self.items.pop()
    }
}

} // verus!
