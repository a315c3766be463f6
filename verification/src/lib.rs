//! Ordered containers addressable both by value and by position.
//!
//! [`set::HISet`] keeps each value at most once; [`bag::HIBag`] keeps
//! duplicates. Both hold their elements in one flat sequence in ascending
//! comparison order, so positional reads agree with sorted iteration, and
//! two containers holding the same values are equal however the values
//! arrived.

pub mod order;

pub mod set;

pub mod bag;
