//! A fixed-capacity list: an ordered sequence with a hard maximum size, used
//! wherever a bounded small set of candidate actions or children must be
//! collected. Pushing beyond the capacity is an invariant violation, so it is
//! ruled out by precondition rather than recovered from.

use vstd::prelude::*;

verus! {

/// The hard capacity of a `StaticList`: an upper bound on the actions or
/// children collected at once within this domain.
pub const STATIC_SIZE: usize = 25;

pub struct StaticList<T> {
    mem: Vec<T>,
}

impl<T> View for StaticList<T> {
    type V = Seq<T>;

    closed spec fn view(&self) -> Seq<T> {
        self.mem@
    }
}

impl<T> StaticList<T> {
    pub fn new() -> (r: Self)
        ensures
            r@ == Seq::<T>::empty(),
    {
        Self { mem: Vec::new() }
    }

    /// Appends an element. The list must be under its capacity.
    pub fn push(&mut self, item: T)
        requires
            old(self)@.len() < STATIC_SIZE,
        ensures
            final(self)@ == old(self)@.push(item),
    {
        self.mem.push(item);
    }

    pub fn len(&self) -> (r: usize)
        ensures
            r == self@.len(),
    {
        self.mem.len()
    }

    /// Resets the length to zero.
    pub fn clear(&mut self)
        ensures
            final(self)@ == Seq::<T>::empty(),
    {
        self.mem.clear();
    }
}

impl<T: Copy> StaticList<T> {
    /// The element at `index`, which must be within the current length.
    pub fn get(&self, index: usize) -> (r: T)
        requires
            index < self@.len(),
        ensures
            r == self@[index as int],
    {
        self.mem[index]
    }
}

} // verus!
