use vstd::prelude::*;

use rand::Rng;

verus! {

/// Relies on rand's `thread_rng` and `Rng::gen_range(low, high)`: a value
/// drawn from `low..high`; `gen_range` panics unless `low < high`.
#[verifier::external_body]
pub(crate) fn random_in(low: usize, high: usize) -> (r: usize)
    requires
        low < high,
    ensures
        low <= r < high,
{
    rand::thread_rng().gen_range(low, high)
}

} // verus!
