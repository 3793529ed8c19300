use vstd::prelude::*;

verus! {

/// Relies on `rand::random_range` over `0..bound`: it panics only on an
/// empty range and returns a value drawn from the range, so the result is
/// below `bound`. Nothing is assumed about which value comes back.
#[verifier::external_body]
pub(crate) fn random_below(bound: usize) -> (r: usize)
    requires
        bound >= 1,
    ensures
        r < bound,
{
    rand::random_range(0..bound)
}

} // verus!
