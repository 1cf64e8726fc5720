//! A single-feature linear-regression library with verified numerics.
//!
//! All quantities are exact fixed-point numbers: an `i64` counts millionths
//! (micro-units), so the stored value `v` stands for the real number
//! `v / 1_000_000`. Every division truncates toward zero, and every
//! operation either returns its exact fixed-point result or reports that
//! the result left the representable range.

pub mod dataset;
pub mod fixed;
pub mod gradient;
pub mod model;
pub mod parse;
pub mod stats;


use vstd::prelude::*;

verus! {

/// How a numeric routine can fail.
///
/// `EmptyInput` takes the place of the `NaN` a division by a zero count
/// would give; `NumericDegenerate` takes the place of overflow to
/// infinity or of a division by a zero spread.
#[derive(Clone, Copy, Debug, PartialEq, Eq, Structural)]
pub enum Error {
    /// The operation needs at least one sample and was given none.
    EmptyInput,
    /// The exact result left the representable fixed-point range,
    /// or a zero spread made the requested scaling undefined.
    NumericDegenerate,
}

} // verus!
