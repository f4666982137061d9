use vstd::prelude::*;
use rand::Rng;

verus! {

/// The seedable random number generator that drives the simulation.
#[verifier::external_type_specification]
#[verifier::external_body]
pub struct ExStdRng(rand::rngs::StdRng);

/// Draws a uniformly distributed index from `low..high` with
/// `rand::Rng::gen_range`. The crate documents that the result lies in the
/// half-open range and that an empty range panics, hence the `requires`;
/// which value comes out depends on the generator's hidden state and is not stated.
#[verifier::external_body]
pub(crate) fn random_index(rng: &mut rand::rngs::StdRng, low: usize, high: usize) -> (r: usize)
    requires
        low < high,
    ensures
        low <= r < high,
{
    rng.gen_range(low..high)
}

} // verus!
