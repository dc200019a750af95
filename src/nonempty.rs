//! A vector that always holds at least one element.
use vstd::prelude::*;

verus! {

/// A non-empty `Vec<A>`: a first element and the rest.
pub struct NonEmptyVec<A> {
    pub head: A,
    pub tail: Vec<A>,
}

impl<A> View for NonEmptyVec<A> {
    type V = Seq<A>;

    open spec fn view(&self) -> Seq<A> {
        seq![self.head] + self.tail@
    }
}

impl<A> NonEmptyVec<A> {
    pub fn new(a: A, tail: Vec<A>) -> (r: NonEmptyVec<A>)
        ensures
            r@ == seq![a] + tail@,
    {
        NonEmptyVec { head: a, tail: tail }
    }

    pub fn singleton(a: A) -> (r: NonEmptyVec<A>)
        ensures
            r@ == seq![a],
    {
        let r = NonEmptyVec { head: a, tail: Vec::new() };
        assert(r@ =~= seq![a]);
        r
    }

    /// Appends an element at the end.
    pub fn push(&mut self, value: A)
        ensures
            final(self)@ == old(self)@.push(value),
    {
        self.tail.push(value);
        assert(self@ =~= old(self)@.push(value));
    }

    /// Number of elements, never zero.
    pub fn len(&self) -> (r: usize)
        requires
            self.tail@.len() < usize::MAX,
        ensures
            r == self@.len(),
            r >= 1,
    {
        1 + self.tail.len()
    }

    /// The element at `index`: the first one at 0, then those of the rest.
    pub fn index(&self, index: usize) -> (r: &A)
        requires
            index < self@.len(),
        ensures
            *r == self@[index as int],
    {
        if index == 0 {
            &self.head
        } else {
            &self.tail[index - 1]
        }
    }

    /// Replaces the element at `index`.
    pub fn set(&mut self, index: usize, value: A)
        requires
            index < old(self)@.len(),
        ensures
            final(self)@ == old(self)@.update(index as int, value),
    {
        if index == 0 {
            self.head = value;
        } else {
            self.tail.set(index - 1, value);
        }
        assert(self@ =~= old(self)@.update(index as int, value));
    }
}

} // verus!
