//! Bounded selection of the largest values of a sequence.
//!
//! A [`MaxValues<T, N>`] is offered values one at a time and keeps the `N`
//! largest of them, in a binary min-heap of `N` slots: a value costs one walk
//! through the heap, and the sequence is never held as a whole.
//!
//! - [`order`] says what is asked of the comparisons of `T`;
//! - [`heap`] is the model of the heap and of one acceptance, over sequences;
//! - [`selection`] states that the values kept are the largest of those
//!   offered, however they were offered;
//! - [`max_values`] and [`push`] hold the container and its operations;
//! - [`iter_ext`] offers the selection as a method of every iterator.
pub mod heap;
pub mod iter_ext;
pub mod max_values;
pub mod order;
pub mod push;
pub mod selection;

pub use iter_ext::MaxValuesIterExt;
pub use max_values::MaxValues;
