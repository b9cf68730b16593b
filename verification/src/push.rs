//! Offering a value, and the two walks that restore the heap.
use crate::heap::lemma_pushed_heap;
use crate::heap::lemma_pushed_values;
use crate::heap::lemma_replaced_root_values;
use crate::heap::lemma_swapped_same_values;
use crate::heap::lesser_child;
use crate::heap::pushed;
use crate::heap::sift_down;
use crate::heap::sift_up;
use crate::heap::swapped;
use crate::max_values::MaxValues;
use crate::order::le;
use crate::order::total_preorder;
use crate::selection::keeps_largest;
use crate::selection::lemma_pushed_keeps_largest;
use vstd::multiset::Multiset;
use vstd::prelude::*;
use vstd::seq_lib::group_to_multiset_ensures;

verus! {

/// Exchanges the values of two slots.
fn swap_slots<T>(data: &mut Vec<T>, i: usize, j: usize)
    requires
        i < j < old(data)@.len(),
    ensures
        final(data)@ == swapped(old(data)@, i as int, j as int),
{
    let (lo, hi) = data.as_mut_slice().split_at_mut(j);
    core::mem::swap(&mut lo[i], &mut hi[0]);
}

impl<T: Ord, const N: usize> MaxValues<T, N> {
    /// Offers `value` to the container.
    ///
    /// While fewer than `N` values are kept, the value is kept too. Once `N`
    /// are kept, a value that is not greater than the least of them is
    /// dropped and the container stays exactly as it was; a greater one
    /// takes the place of the least, which is the value in the first slot.
    /// With `N == 0` every value is dropped.
    ///
    /// Whatever the comparisons of `T` do, the container then holds the
    /// values it held with the new one added, or put in place of the first
    /// slot's, or dropped. Where they are a total preorder, the slots are
    /// those of [`pushed`], they form a heap again, which `wf` says, and a
    /// container that held the `N` largest of some values holds the `N`
    /// largest of those and the new one.
    pub fn push(&mut self, value: T)
        requires
            old(self).wf(),
        ensures
            final(self).wf(),
            final(self)@.len() == (if old(self)@.len() < N {
                old(self)@.len() + 1
            } else {
                old(self)@.len()
            }),
            old(self)@.len() < N ==> final(self)@.to_multiset() == old(self)@.to_multiset().insert(
                value,
            ),
            old(self)@.len() == N ==> final(self)@ == old(self)@ || final(self)@.to_multiset()
                == old(self)@.to_multiset().remove(old(self)@[0]).insert(value),
            N == 0 ==> final(self)@ == old(self)@,
            total_preorder::<T>() ==> final(self)@ == pushed(old(self)@, value, N as nat),
            total_preorder::<T>() && 0 < N == old(self)@.len() ==> (if le(value, old(self)@[0]) {
                final(self)@ == old(self)@
            } else {
                final(self)@.to_multiset() == old(self)@.to_multiset().remove(
                    old(self)@[0],
                ).insert(value)
            }),
            total_preorder::<T>() ==> forall|offered: Multiset<T>| #[trigger]
                keeps_largest(old(self)@.to_multiset(), offered, N as nat) ==> keeps_largest(
                    final(self)@.to_multiset(),
                    offered.insert(value),
                    N as nat,
                ),
    {
        if self.data.len() < N {
            self.push_back(value);
        } else if N > 0 {
            self.push_forward(value);
        }
        proof {
            if total_preorder::<T>() {
                lemma_pushed_heap(old(self)@, value, N as nat);
                lemma_pushed_values(old(self)@, value, N as nat);
                assert forall|offered: Multiset<T>| #[trigger]
                    keeps_largest(old(self)@.to_multiset(), offered, N as nat) implies keeps_largest(
                    final(self)@.to_multiset(),
                    offered.insert(value),
                    N as nat,
                ) by {
                    lemma_pushed_keeps_largest(old(self)@, offered, value, N as nat);
                }
            }
        }
    }

    /// Appends `value` and lets it walk towards the root.
    fn push_back(&mut self, value: T)
        ensures
            final(self)@.len() == old(self)@.len() + 1,
            final(self)@.to_multiset() == old(self)@.to_multiset().insert(value),
            total_preorder::<T>() ==> final(self)@ == sift_up(
                old(self)@.push(value),
                old(self)@.len() as int,
            ),
    {
        self.data.push(value);
        assert(self.data@.to_multiset() == old(self)@.to_multiset().insert(value)) by {
            broadcast use group_to_multiset_ensures;

        }
        let mut index: usize = self.data.len() - 1;
        while index > 0 && self.data[(index - 1) / 2] > self.data[index]
            invariant
                index < self.data@.len(),
                self.data@.len() == old(self)@.len() + 1,
                self.data@.to_multiset() == old(self)@.to_multiset().insert(value),
                total_preorder::<T>() ==> sift_up(self.data@, index as int) == sift_up(
                    old(self)@.push(value),
                    old(self)@.len() as int,
                ),
            decreases index,
        {
            let above: usize = (index - 1) / 2;
            proof {
                lemma_swapped_same_values(self.data@, above as int, index as int);
            }
            swap_slots(&mut self.data, above, index);
            index = above;
        }
    }

    /// Puts `value` in the root's place, unless it is not greater than the
    /// root, and lets it walk towards the leaves.
    fn push_forward(&mut self, value: T)
        requires
            old(self)@.len() > 0,
        ensures
            final(self)@.len() == old(self)@.len(),
            final(self)@ == old(self)@ || final(self)@.to_multiset()
                == old(self)@.to_multiset().remove(old(self)@[0]).insert(value),
            total_preorder::<T>() ==> final(self)@ == (if le(value, old(self)@[0]) {
                old(self)@
            } else {
                sift_down(old(self)@.update(0, value), 0)
            }),
    {
        if value <= self.data[0] {
            return;
        }
        self.data[0] = value;
        proof {
            lemma_replaced_root_values(old(self)@, value);
        }
        let len: usize = self.data.len();
        let mut index: usize = 0;
        while index < len / 2
            invariant
                len == self.data@.len(),
                len == old(self)@.len(),
                self.data@.to_multiset() == old(self)@.to_multiset().remove(old(self)@[0]).insert(
                    value,
                ),
                total_preorder::<T>() ==> sift_down(self.data@, index as int) == sift_down(
                    old(self)@.update(0, value),
                    0,
                ),
            ensures
                total_preorder::<T>() ==> self.data@ == sift_down(old(self)@.update(0, value), 0),
            decreases len - index,
        {
            let left: usize = 2 * index + 1;
            let right: usize = left + 1;
            let mut child: usize = left;
            if right < len && self.data[left] > self.data[right] {
                child = right;
            }
            assert(total_preorder::<T>() ==> child == lesser_child(self.data@, index as int));
            if self.data[index] > self.data[child] {
                proof {
                    lemma_swapped_same_values(self.data@, index as int, child as int);
                }
                swap_slots(&mut self.data, index, child);
                index = child;
            } else {
                break;
            }
        }
    }
}

} // verus!
