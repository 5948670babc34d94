//! A last-in, first-out container backed by a growable array.
use vstd::prelude::*;

verus! {

/// A LIFO stack. Its model is the sequence of its elements, bottom first,
/// so the top of the stack is the last element of the view.
pub struct Stack<T> {
    elements: Vec<T>,
}

impl<T> View for Stack<T> {
    type V = Seq<T>;

    closed spec fn view(&self) -> Seq<T> {
        self.elements@
    }
}

impl<T> Stack<T> {
    /// Creates an empty stack.
    pub fn new() -> (s: Self)
        ensures
            s@ == Seq::<T>::empty(),
    {
        Stack { elements: Vec::new() }
    }

    /// Places `item` on top of the stack.
    pub fn push(&mut self, item: T)
        ensures
            final(self)@ == old(self)@.push(item),
    {
        self.elements.push(item);
    }

    /// Removes the top item and returns it, or returns `None` on an empty
    /// stack, which is then left as it was.
    pub fn pop(&mut self) -> (r: Option<T>)
        ensures
            old(self)@.len() == 0 ==> r is None && final(self)@ == old(self)@,
            old(self)@.len() > 0 ==> r == Some(old(self)@.last())
                && final(self)@ == old(self)@.drop_last(),
    {
        self.elements.pop()
    }

    /// Returns the top item without removing it, or `None` on an empty stack.
    pub fn peek(&self) -> (r: Option<&T>)
        ensures
            self@.len() == 0 ==> r is None,
            self@.len() > 0 ==> r == Some(&self@.last()),
    {
        self.elements.last()
    }
}

} // verus!
