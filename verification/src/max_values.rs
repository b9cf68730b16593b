//! The container of the largest values offered so far.
use crate::heap::is_heap;
use crate::heap::pushed_all;
use crate::order::total_preorder;
use crate::selection::keeps_largest;
use crate::selection::lemma_selection_of_sequence;
use vstd::prelude::*;
use vstd::seq_lib::group_to_multiset_ensures;
use vstd::std_specs::iter::IteratorSpec;

verus! {

/// Keeps the `N` largest of the values pushed into it, in a binary min-heap
/// of at most `N` slots: the least of the kept values is in the first slot.
///
/// The slots are allocated once, when the container is made. The values are
/// handed out in the order of their slots, which is not sorted, and never
/// for change in place.
#[derive(Debug)]
pub struct MaxValues<T: Ord, const N: usize> {
    pub(crate) data: Vec<T>,
}

impl<T: Ord, const N: usize> View for MaxValues<T, N> {
    type V = Seq<T>;

    /// The kept values, in the order of their slots.
    open(crate) spec fn view(&self) -> Seq<T> {
        self.data@
    }
}

impl<T: Ord, const N: usize> MaxValues<T, N> {
    /// At most `N` values are kept, and they form a heap wherever the
    /// comparisons of `T` are a total preorder.
    pub open spec fn wf(&self) -> bool {
        &&& self@.len() <= N
        &&& total_preorder::<T>() ==> is_heap(self@)
    }

    /// Creates an empty container.
    pub fn new() -> (r: Self)
        ensures
            r.wf(),
            r@ == Seq::<T>::empty(),
    {
        MaxValues { data: Vec::with_capacity(N) }
    }

    /// Gives up the container for the values it keeps, in the order of
    /// their slots. Fewer than `N` values were pushed where it holds fewer.
    pub fn to_values(self) -> (r: Vec<T>)
        ensures
            r@ == self@,
    {
        self.data
    }

    /// The values kept, in the order of their slots. There is no mutable
    /// counterpart: changing a value in place could break the heap.
    pub fn as_values(&self) -> (r: &Vec<T>)
        ensures
            r@ == self@,
    {
        &self.data
    }

    /// An iterator over the values kept, in the order of their slots.
    pub fn iter(&self) -> (r: core::slice::Iter<'_, T>)
        ensures
            r.remaining() == self@.as_ref(),
            r.decrease() is Some,
    {
        proof {
            broadcast use vstd::std_specs::slice::axiom_spec_slice_iter;
        }
        self.data.as_slice().iter()
    }

    /// Builds a container by pushing every item of `iter` in turn.
    ///
    /// The result is what the pushes give one after another, so it holds a
    /// choice of the `N` largest items, or all of them where the iterator
    /// yields fewer. The iterator has to come to an end.
    pub fn from_iter<I: Iterator<Item = T>>(iter: I) -> (r: Self)
        requires
            iter.obeys_prophetic_iter_laws(),
            iter.decrease() is Some,
        ensures
            r.wf(),
            r@.len() == (if iter.remaining().len() < N {
                iter.remaining().len()
            } else {
                N as nat
            }),
            r@.to_multiset().subset_of(iter.remaining().to_multiset()),
            total_preorder::<T>() ==> r@ == pushed_all(
                Seq::<T>::empty(),
                iter.remaining(),
                N as nat,
            ),
            total_preorder::<T>() ==> keeps_largest(
                r@.to_multiset(),
                iter.remaining().to_multiset(),
                N as nat,
            ),
    {
        let mut values = MaxValues::new();
        let mut rest = iter;
        let ghost mut taken = Seq::<T>::empty();
        loop
            invariant
                values.wf(),
                rest.obeys_prophetic_iter_laws(),
                rest.decrease() is Some,
                taken + rest.remaining() == iter.remaining(),
                values@.len() == (if taken.len() < N {
                    taken.len()
                } else {
                    N as nat
                }),
                values@.to_multiset().subset_of(taken.to_multiset()),
                total_preorder::<T>() ==> values@ == pushed_all(Seq::<T>::empty(), taken, N as nat),
            ensures
                taken == iter.remaining(),
            decreases rest.decrease()->0,
        {
            match rest.next() {
                Some(x) => {
                    proof {
                        broadcast use group_to_multiset_ensures;

                        assert(taken.push(x).drop_last() == taken);
                        taken = taken.push(x);
                    }
                    values.push(x);
                },
                None => {
                    break;
                },
            }
        }
        proof {
            if total_preorder::<T>() {
                lemma_selection_of_sequence(taken, N as nat);
            }
        }
        values
    }
}

impl<T: Ord + Clone, const N: usize> Clone for MaxValues<T, N> {
    /// A container of as many slots, each holding a clone of the value in
    /// the same slot of this one.
    fn clone(&self) -> (r: Self)
        ensures
            r@.len() == self@.len(),
            forall|i: int| 0 <= i < self@.len() ==> cloned(self@[i], #[trigger] r@[i]),
    {
        let mut data = Vec::with_capacity(N);
        data.extend_from_slice(self.data.as_slice());
        MaxValues { data }
    }
}

impl<T: Ord, const N: usize> Default for MaxValues<T, N> {
    /// An empty container.
    fn default() -> (r: Self)
        ensures
            r.wf(),
            r@ == Seq::<T>::empty(),
    {
        Self::new()
    }
}

impl<T: Ord, const N: usize> AsRef<[T]> for MaxValues<T, N> {
    /// The values kept, in the order of their slots.
    fn as_ref(&self) -> (r: &[T])
        ensures
            r@ == self@,
    {
        self.data.as_slice()
    }
}

impl<T: Ord, const N: usize> IntoIterator for MaxValues<T, N> {
    type IntoIter = std::vec::IntoIter<T>;

    type Item = T;

    /// Gives up the container for an iterator over the values it keeps, in
    /// the order of their slots.
    fn into_iter(self) -> (r: std::vec::IntoIter<T>)
        ensures
            r.remaining() == self@,
            r.decrease() is Some,
    {
        self.data.into_iter()
    }
}

} // verus!
