//! The ordering that the selection is made by.
//!
//! Values are compared with the operators `>` and `<=` of their type. What
//! the library promises of the values it keeps holds for a type whose
//! comparisons form a total preorder: any two values are comparable, and
//! "not greater than" is transitive. Values that compare equal need not be
//! identical. The integer types are such types, and so is every type that
//! obeys the comparison laws of `vstd`:
//! [`lemma_lawful_order_is_total_preorder`] shows it.
use vstd::prelude::*;
use vstd::laws_cmp::obeys_cmp;
use vstd::laws_cmp::obeys_cmp_ord;
use vstd::laws_cmp::obeys_cmp_partial_ord;
use vstd::laws_cmp::obeys_partial_cmp_spec_properties;
use vstd::laws_eq::obeys_eq_spec_properties;
use vstd::std_specs::cmp::PartialOrdIs;
use vstd::std_specs::cmp::PartialOrdSpec;

verus! {

/// `a` is not greater than `b` in the natural ordering of `T`.
pub open spec fn le<T: Ord>(a: T, b: T) -> bool {
    a.is_le(&b)
}

/// The comparisons of `T` are consistent and form a total preorder:
/// the operators compute the specified ordering, any two values are
/// comparable, and `le` is total and transitive.
pub open spec fn total_preorder<T: Ord>() -> bool {
    &&& T::obeys_partial_cmp_spec()
    &&& forall|a: T, b: T| (#[trigger] a.partial_cmp_spec(&b)) is Some
    &&& forall|a: T, b: T| #[trigger] le(a, b) || le(b, a)
    &&& forall|a: T, b: T, c: T| #[trigger] le(a, b) && #[trigger] le(b, c) ==> le(a, c)
}

/// A type that obeys the comparison laws of `vstd` is totally preordered.
pub proof fn lemma_lawful_order_is_total_preorder<T: Ord>()
    requires
        obeys_cmp::<T>(),
    ensures
        total_preorder::<T>(),
{
    reveal(obeys_eq_spec_properties);
    reveal(obeys_partial_cmp_spec_properties);
    reveal(obeys_cmp_partial_ord);
    reveal(obeys_cmp_ord);
}

} // verus!
