//! Assertions that a value renders as an exact text, checked fragment by
//! fragment as the rendering produces it.
//!
//! `model` states what a comparison is over sequences of characters, `comparator`
//! holds the executable comparator proved against it, and `laws` proves the
//! properties that make the comparison trustworthy: exact matches pass however
//! the output is cut into fragments, and each kind of failure reports where it
//! happened.

pub mod comparator;
pub mod laws;
pub mod model;

pub use comparator::{AssertFormat, FormatError};
