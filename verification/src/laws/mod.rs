//! What the library promises, in plain arithmetic.
//!
//! Each law here says what a result is in terms of the inputs alone: digits,
//! remainders, counts and comparisons.

pub mod numbers;
pub mod output;
pub mod search;
pub mod starts;
pub mod table;
