//! What holds of the values kept, however they were offered: they are a
//! choice of the largest of the values offered, as many as the capacity
//! admits, and the same whether the values came singly or in batches.
use crate::heap::is_heap;
use crate::heap::lemma_heap_root_least;
use crate::heap::lemma_pushed_heap;
use crate::heap::lemma_pushed_values;
use crate::heap::pushed;
use crate::heap::pushed_all;
use crate::order::le;
use crate::order::total_preorder;
use vstd::multiset::Multiset;
use vstd::prelude::*;
use vstd::seq_lib::group_to_multiset_ensures;

verus! {

/// `kept` is a choice of the `cap` largest of the values `offered`: it is
/// taken from them, it holds `cap` of them or all where there are fewer, and
/// no value left out is greater than a value kept. Among values that compare
/// equal the choice is free.
pub open spec fn keeps_largest<T: Ord>(kept: Multiset<T>, offered: Multiset<T>, cap: nat) -> bool {
    &&& kept.subset_of(offered)
    &&& kept.len() == (if offered.len() < cap {
        offered.len()
    } else {
        cap
    })
    &&& forall|x: T, y: T| #[trigger]
        kept.contains(x) && #[trigger] offered.sub(kept).contains(y) ==> le(y, x)
}

/// One acceptance keeps the choice: where a heap held the largest of the
/// values offered before, it holds the largest of those and the new value
/// after.
pub proof fn lemma_pushed_keeps_largest<T: Ord>(
    s: Seq<T>,
    offered: Multiset<T>,
    value: T,
    cap: nat,
)
    requires
        total_preorder::<T>(),
        is_heap(s),
        keeps_largest(s.to_multiset(), offered, cap),
    ensures
        keeps_largest(pushed(s, value, cap).to_multiset(), offered.insert(value), cap),
{
    broadcast use group_to_multiset_ensures;
    broadcast use vstd::multiset::group_multiset_axioms;

    let kept = s.to_multiset();
    let after = pushed(s, value, cap).to_multiset();
    let all = offered.insert(value);
    lemma_pushed_values(s, value, cap);
    // No value kept is less than the root's.
    assert forall|x: T| kept.contains(x) implies le(s[0], x) by {
        let j = choose|j: int| 0 <= j < s.len() && s[j] == x;
        lemma_heap_root_least(s, j);
    }
    if s.len() < cap {
        // Nothing had been left out, and nothing is now.
        assert(offered.sub(kept).len() == 0);
        assert forall|y: T| all.sub(after).count(y) == 0 by {
            assert(offered.sub(kept).count(y) == 0);
        }
    } else if cap == 0 || le(value, s[0]) {
        // The new value is left out; it is not greater than the root's.
        assert forall|x: T, y: T| #[trigger]
            after.contains(x) && #[trigger] all.sub(after).contains(y) implies le(y, x) by {
            assert(offered.sub(kept).contains(y) || y == value);
        }
    } else {
        // The root's value is left out for the new one, which is greater.
        assert(kept.contains(s[0]));
        assert forall|x: T, y: T| #[trigger]
            after.contains(x) && #[trigger] all.sub(after).contains(y) implies le(y, x) by {
            assert(kept.contains(x) || x == value);
            assert(offered.sub(kept).contains(y) || y == s[0]);
        }
    }
}

/// Offering values one after another to a heap that holds the largest of the
/// values offered before leaves a heap that holds the largest of them all.
pub proof fn lemma_pushed_all_keeps_largest<T: Ord>(
    s: Seq<T>,
    offered: Multiset<T>,
    values: Seq<T>,
    cap: nat,
)
    requires
        total_preorder::<T>(),
        is_heap(s),
        keeps_largest(s.to_multiset(), offered, cap),
    ensures
        is_heap(pushed_all(s, values, cap)),
        keeps_largest(
            pushed_all(s, values, cap).to_multiset(),
            offered.add(values.to_multiset()),
            cap,
        ),
    decreases values.len(),
{
    broadcast use group_to_multiset_ensures;

    if values.len() == 0 {
        assert(offered.add(values.to_multiset()) =~= offered);
    } else {
        let before = values.drop_last();
        let held = pushed_all(s, before, cap);
        lemma_pushed_all_keeps_largest(s, offered, before, cap);
        lemma_pushed_heap(held, values.last(), cap);
        lemma_pushed_keeps_largest(held, offered.add(before.to_multiset()), values.last(), cap);
        assert(before.push(values.last()) == values);
        assert(offered.add(before.to_multiset()).insert(values.last()) =~= offered.add(
            values.to_multiset(),
        ));
    }
}

/// The values kept of a sequence offered to an empty container are a choice
/// of its `cap` largest, and they lie in a heap.
pub proof fn lemma_selection_of_sequence<T: Ord>(values: Seq<T>, cap: nat)
    requires
        total_preorder::<T>(),
    ensures
        is_heap(pushed_all(Seq::<T>::empty(), values, cap)),
        keeps_largest(
            pushed_all(Seq::<T>::empty(), values, cap).to_multiset(),
            values.to_multiset(),
            cap,
        ),
{
    broadcast use group_to_multiset_ensures;

    lemma_pushed_all_keeps_largest(Seq::<T>::empty(), Multiset::<T>::empty(), values, cap);
    assert(Multiset::<T>::empty().add(values.to_multiset()) =~= values.to_multiset());
}

/// As many values are kept as were offered, up to the capacity.
pub proof fn lemma_pushed_all_len<T: Ord>(s: Seq<T>, values: Seq<T>, cap: nat)
    requires
        s.len() <= cap,
    ensures
        pushed_all(s, values, cap).len() == (if s.len() + values.len() < cap {
            s.len() + values.len()
        } else {
            cap
        }),
    decreases values.len(),
{
    if values.len() > 0 {
        lemma_pushed_all_len(s, values.drop_last(), cap);
        lemma_pushed_values(pushed_all(s, values.drop_last(), cap), values.last(), cap);
    }
}

/// Offering a sequence in two batches gives what offering it in one gives.
pub proof fn lemma_pushed_all_in_batches<T: Ord>(
    s: Seq<T>,
    first: Seq<T>,
    second: Seq<T>,
    cap: nat,
)
    ensures
        pushed_all(s, first + second, cap) == pushed_all(pushed_all(s, first, cap), second, cap),
    decreases second.len(),
{
    if second.len() == 0 {
        assert(first + second == first);
    } else {
        lemma_pushed_all_in_batches(s, first, second.drop_last(), cap);
        assert((first + second).drop_last() == first + second.drop_last());
    }
}

/// Offering a sequence gives what pushing its values one by one gives: the
/// last push is applied to what the values before it left.
pub proof fn lemma_pushed_all_is_repeated_push<T: Ord>(
    s: Seq<T>,
    values: Seq<T>,
    value: T,
    cap: nat,
)
    ensures
        pushed_all(s, values.push(value), cap) == pushed(pushed_all(s, values, cap), value, cap),
        pushed_all(s, Seq::<T>::empty(), cap) == s,
{
    assert(values.push(value).drop_last() == values);
}

} // verus!
