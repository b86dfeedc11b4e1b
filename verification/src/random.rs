use vstd::prelude::*;
use rand::Rng;

verus! {

/// Draws a number in `[low, high)` from the thread-local generator:
/// `rand::thread_rng().gen_range(low..high)` (rand 0.8). The value depends
/// on the generator's state, so only its range is stated; `gen_range`
/// panics on an empty range, which `requires` rules out.
#[verifier::external_body]
pub(crate) fn random_in_range(low: usize, high: usize) -> (r: usize)
    requires
        low < high,
    ensures
        low <= r < high,
{
    rand::thread_rng().gen_range(low..high)
}

} // verus!
