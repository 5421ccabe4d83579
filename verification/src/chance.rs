use vstd::prelude::*;

verus! {

/// Calls `rand::random_range(0..bound)` on the thread's random number generator. What it
/// returns depends on chance, so all that is claimed is that it lies below `bound`;
/// `random_range` panics on an empty range, which `requires` leaves out.
#[verifier::external_body]
pub(crate) fn random_below(bound: u8) -> (drawn: u8)
    requires
        bound > 0,
    ensures
        drawn < bound,
{
    rand::random_range(0..bound)
}

} // verus!
