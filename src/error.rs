use vstd::prelude::*;

verus! {

/// Why a search for an intermediate fraction did not produce one.
#[derive(Clone, Copy, Debug, PartialEq, Eq, Structural)]
pub enum FractionError {
    /// The input line is not four whitespace-separated unsigned integers.
    MalformedInput,
    /// A denominator is zero, or the lower fraction is not strictly below the upper one.
    InvalidInput,
    /// The answer exists but its numerator or denominator does not fit in a `u32`.
    SearchExhausted,
}

} // verus!
