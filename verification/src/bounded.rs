use vstd::prelude::*;

verus! {

/// Outcome of a search that was allowed at most a fixed number of steps.
pub enum BoundedOption<T> {
    /// A given item was found, in the recorded number of steps.
    Found(usize, T),
    /// The search space was fully explored, in the recorded number of steps,
    /// without finding a further item.
    Exhausted(usize),
    /// The step budget was used up before the search was resolved.
    OutOfResource,
}

impl<T> BoundedOption<T> {
    /// Extract the found item.  Asking for the item of an outcome that did
    /// not find one is a programmer error, excluded by the precondition.
    pub fn unwrap(&self) -> (r: &T)
        requires
            self is Found,
        ensures
            r == self->Found_1,
    {
        match self {
            BoundedOption::Found(_, item) => item,
            _ => vstd::pervasive::unreached(),
        }
    }
}

/// An iterator that limits the amount of work done looking for the next
/// item.  `inv` is the well-formedness condition under which the iterator
/// may be stepped; every step preserves it.
pub trait BoundedIterator {
    /// Item returned by the iterator.
    type Item;

    /// Well-formedness of the iterator's state.
    spec fn inv(&self) -> bool;

    /// Attempt to find the next item, expending at most `n` steps looking
    /// for it.  If the limit is reached first, `OutOfResource` is returned
    /// and the state remains valid for a later attempt.
    fn next_for(&mut self, n: usize) -> (r: BoundedOption<Self::Item>)
        requires
            old(self).inv(),
        ensures
            final(self).inv(),
    ;
}

} // verus!
