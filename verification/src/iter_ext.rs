//! The selection as a method of every iterator.
use crate::heap::pushed_all;
use crate::max_values::MaxValues;
use crate::order::total_preorder;
use crate::selection::keeps_largest;
use vstd::prelude::*;
use vstd::std_specs::iter::IteratorSpec;

verus! {

/// Adds [`MaxValuesIterExt::max_values`] to every iterator.
pub trait MaxValuesIterExt: Iterator {
    /// Returns an iterator over the `N` largest items of this iterator, in
    /// the order of the slots they were kept in: what pushing every item
    /// into an empty [`MaxValues`] keeps. This iterator has to come to an
    /// end.
    fn max_values<const N: usize>(self) -> (r: std::vec::IntoIter<Self::Item>) where
        Self: Sized,
        Self::Item: Ord,
        requires
            self.obeys_prophetic_iter_laws(),
            self.decrease() is Some,
        ensures
            r.decrease() is Some,
            r.remaining().len() == (if self.remaining().len() < N {
                self.remaining().len()
            } else {
                N as nat
            }),
            r.remaining().to_multiset().subset_of(self.remaining().to_multiset()),
            total_preorder::<Self::Item>() ==> r.remaining() == pushed_all(
                Seq::<Self::Item>::empty(),
                self.remaining(),
                N as nat,
            ),
            total_preorder::<Self::Item>() ==> keeps_largest(
                r.remaining().to_multiset(),
                self.remaining().to_multiset(),
                N as nat,
            ),
    {
        MaxValues::<Self::Item, N>::from_iter(self).into_iter()
    }
}

impl<I: Iterator> MaxValuesIterExt for I {}

} // verus!
