//! The binary min-heap that the retained values are stored in, as a model
//! over sequences: what a heap is, and what the two restoring walks and one
//! acceptance make of a sequence.
use crate::order::le;
use crate::order::total_preorder;
use vstd::prelude::*;
use vstd::seq_lib::group_to_multiset_ensures;

verus! {

/// Index of the parent of slot `i` (for `i > 0`).
pub open spec fn parent(i: int) -> int {
    (i - 1) / 2
}

/// `s` with the values of slots `i` and `j` exchanged.
pub open spec fn swapped<T>(s: Seq<T>, i: int, j: int) -> Seq<T> {
    s.update(i, s[j]).update(j, s[i])
}

/// Every slot but the root holds a value that its parent's value is not
/// greater than.
pub open spec fn is_heap<T: Ord>(s: Seq<T>) -> bool {
    forall|i: int| 0 < i < s.len() ==> le(s[parent(i)], #[trigger] s[i])
}

/// The walk towards the root: while the value in slot `i` is less than its
/// parent's, the two are exchanged and the walk goes on from the parent.
pub open spec fn sift_up<T: Ord>(s: Seq<T>, i: int) -> Seq<T>
    decreases i,
{
    if 0 < i < s.len() && !le(s[parent(i)], s[i]) {
        sift_up(swapped(s, parent(i), i), parent(i))
    } else {
        s
    }
}

/// The child of slot `i` to compare with: the right one where it exists and
/// is less than the left one, else the left one.
pub open spec fn lesser_child<T: Ord>(s: Seq<T>, i: int) -> int {
    if 2 * i + 2 < s.len() && !le(s[2 * i + 1], s[2 * i + 2]) {
        2 * i + 2
    } else {
        2 * i + 1
    }
}

/// The walk towards the leaves: while slot `i` has a child and its lesser
/// child holds less than slot `i`, the two are exchanged and the walk goes on
/// from that child.
pub open spec fn sift_down<T: Ord>(s: Seq<T>, i: int) -> Seq<T>
    decreases s.len() - i,
{
    if 0 <= i && 2 * i + 1 < s.len() && !le(s[i], s[lesser_child(s, i)]) {
        sift_down(swapped(s, i, lesser_child(s, i)), lesser_child(s, i))
    } else {
        s
    }
}

/// The storage after `value` has been offered to a container of capacity
/// `cap` that held `s`.
///
/// Below capacity the value is appended and walks up. At capacity it is
/// dropped if the capacity is zero or if it is not greater than the root;
/// otherwise it takes the root's place and walks down.
pub open spec fn pushed<T: Ord>(s: Seq<T>, value: T, cap: nat) -> Seq<T> {
    if s.len() < cap {
        sift_up(s.push(value), s.len() as int)
    } else if cap == 0 || le(value, s[0]) {
        s
    } else {
        sift_down(s.update(0, value), 0)
    }
}

/// The storage after each of `values` has been offered in turn, starting
/// from `s`.
pub open spec fn pushed_all<T: Ord>(s: Seq<T>, values: Seq<T>, cap: nat) -> Seq<T>
    decreases values.len(),
{
    if values.len() == 0 {
        s
    } else {
        pushed(pushed_all(s, values.drop_last(), cap), values.last(), cap)
    }
}

/// `s` is a heap except that slot `k` may hold less than its parent.
spec fn heap_but_above<T: Ord>(s: Seq<T>, k: int) -> bool {
    &&& forall|i: int| 0 < i < s.len() && i != k ==> le(s[parent(i)], #[trigger] s[i])
    &&& forall|i: int|
        0 < i < s.len() && parent(i) == k && k > 0 ==> le(s[parent(k)], #[trigger] s[i])
}

/// `s` is a heap except that slot `k` may hold more than its children.
spec fn heap_but_below<T: Ord>(s: Seq<T>, k: int) -> bool {
    &&& forall|i: int| 0 < i < s.len() && parent(i) != k ==> le(s[parent(i)], #[trigger] s[i])
    &&& forall|i: int|
        0 < i < s.len() && parent(i) == k && k > 0 ==> le(s[parent(k)], #[trigger] s[i])
}

/// Exchanging two slots keeps the length and the values held.
pub proof fn lemma_swapped_same_values<T>(s: Seq<T>, i: int, j: int)
    requires
        0 <= i < s.len(),
        0 <= j < s.len(),
    ensures
        swapped(s, i, j).len() == s.len(),
        swapped(s, i, j).to_multiset() == s.to_multiset(),
{
    broadcast use group_to_multiset_ensures;

}

/// Putting a value in the root's place takes the root's value out of the
/// values held and puts the new one in.
pub proof fn lemma_replaced_root_values<T>(s: Seq<T>, value: T)
    requires
        s.len() > 0,
    ensures
        s.update(0, value).to_multiset() == s.to_multiset().remove(s[0]).insert(value),
{
    broadcast use group_to_multiset_ensures;

    assert(s.to_multiset().insert(value).remove(s[0]) =~= s.to_multiset().remove(s[0]).insert(
        value,
    ));
}

/// The walk towards the root keeps the length and the values held.
pub proof fn lemma_sift_up_same_values<T: Ord>(s: Seq<T>, i: int)
    ensures
        sift_up(s, i).len() == s.len(),
        sift_up(s, i).to_multiset() == s.to_multiset(),
    decreases i,
{
    if 0 < i < s.len() && !le(s[parent(i)], s[i]) {
        lemma_swapped_same_values(s, parent(i), i);
        lemma_sift_up_same_values(swapped(s, parent(i), i), parent(i));
    }
}

/// The walk towards the leaves keeps the length and the values held.
pub proof fn lemma_sift_down_same_values<T: Ord>(s: Seq<T>, i: int)
    ensures
        sift_down(s, i).len() == s.len(),
        sift_down(s, i).to_multiset() == s.to_multiset(),
    decreases s.len() - i,
{
    if 0 <= i && 2 * i + 1 < s.len() && !le(s[i], s[lesser_child(s, i)]) {
        let c = lesser_child(s, i);
        lemma_swapped_same_values(s, i, c);
        lemma_sift_down_same_values(swapped(s, i, c), c);
    }
}

/// The walk towards the root mends a heap whose only fault is that slot `k`
/// may hold less than its parent.
proof fn lemma_sift_up_heap<T: Ord>(s: Seq<T>, k: int)
    requires
        total_preorder::<T>(),
        0 <= k < s.len(),
        heap_but_above(s, k),
    ensures
        is_heap(sift_up(s, k)),
    decreases k,
{
    if 0 < k && !le(s[parent(k)], s[k]) {
        // After the exchange the parent's slot is the only one that may
        // hold less than the slot above it.
        let t = swapped(s, parent(k), k);
        assert(heap_but_above(t, parent(k)));
        lemma_sift_up_heap(t, parent(k));
    }
}

/// The walk towards the leaves mends a heap whose only fault is that slot
/// `k` may hold more than its children.
proof fn lemma_sift_down_heap<T: Ord>(s: Seq<T>, k: int)
    requires
        total_preorder::<T>(),
        0 <= k,
        heap_but_below(s, k),
    ensures
        is_heap(sift_down(s, k)),
    decreases s.len() - k,
{
    if 2 * k + 1 < s.len() && !le(s[k], s[lesser_child(s, k)]) {
        // After the exchange the child's slot is the only one that may
        // hold more than the slots below it.
        let c = lesser_child(s, k);
        let t = swapped(s, k, c);
        assert(heap_but_below(t, c));
        lemma_sift_down_heap(t, c);
    }
}

/// In a heap no value is less than the root's.
pub proof fn lemma_heap_root_least<T: Ord>(s: Seq<T>, i: int)
    requires
        total_preorder::<T>(),
        is_heap(s),
        0 <= i < s.len(),
    ensures
        le(s[0], s[i]),
    decreases i,
{
    if i > 0 {
        lemma_heap_root_least(s, parent(i));
    }
}

/// Offering a value to a heap leaves a heap.
pub proof fn lemma_pushed_heap<T: Ord>(s: Seq<T>, value: T, cap: nat)
    requires
        total_preorder::<T>(),
        is_heap(s),
    ensures
        is_heap(pushed(s, value, cap)),
{
    if s.len() < cap {
        assert(heap_but_above(s.push(value), s.len() as int));
        lemma_sift_up_heap(s.push(value), s.len() as int);
    } else if !(cap == 0 || le(value, s[0])) {
        assert(heap_but_below(s.update(0, value), 0));
        lemma_sift_down_heap(s.update(0, value), 0);
    }
}

/// What an acceptance keeps: below capacity every value held and the new
/// one; at capacity the same values, or the new value in place of the
/// root's.
pub proof fn lemma_pushed_values<T: Ord>(s: Seq<T>, value: T, cap: nat)
    ensures
        pushed(s, value, cap).len() == (if s.len() < cap {
            s.len() + 1
        } else {
            s.len()
        }),
        pushed(s, value, cap).to_multiset() == (if s.len() < cap {
            s.to_multiset().insert(value)
        } else if cap == 0 || le(value, s[0]) {
            s.to_multiset()
        } else {
            s.to_multiset().remove(s[0]).insert(value)
        }),
{
    broadcast use group_to_multiset_ensures;

    if s.len() < cap {
        lemma_sift_up_same_values(s.push(value), s.len() as int);
    } else if cap == 0 || le(value, s[0]) {
    } else {
        lemma_sift_down_same_values(s.update(0, value), 0);
        lemma_replaced_root_values(s, value);
    }
}

} // verus!
