use vstd::prelude::*;

verus! {

/// Relies on rand::random_range over the half-open range `0..n`: it panics on
/// an empty range (excluded by the precondition) and otherwise samples a value
/// of the range, so the result is below `n`. Nothing more is assumed of a
/// random value.
#[verifier::external_body]
pub(crate) fn random_below(n: usize) -> (r: usize)
    requires
        n > 0,
    ensures
        r < n,
{
    rand::random_range(0..n)
}

} // verus!
