use vstd::prelude::*;

verus! {

/// A set of values that keeps them in order.
pub trait SortedSet<T> {
    /// The number of values in the set.
    fn size(&self) -> usize;

    /// Adds `x` and says whether the set has changed.
    fn add(&mut self, x: T) -> bool;

    /// Takes the value equal to `x` out of the set, where there is one.
    fn remove(&mut self, x: T) -> Option<T>;

    /// The value of the set that is equal to `x`, where there is one.
    fn find(&self, x: T) -> Option<T>;
}

} // verus!
