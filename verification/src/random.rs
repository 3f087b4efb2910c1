use rand::rngs::StdRng;
use rand::Rng;
use vstd::prelude::*;

verus! {

#[verifier::external_type_specification]
#[verifier::external_body]
pub struct ExStdRng(StdRng);

/// Calls `rand::Rng::random_range` on `rng` with the half-open range
/// `low..high` of `i32`. The contract claims only what the crate documents
/// and its source shows: the range must not be empty (else it panics), and
/// the value drawn lies in it. Which value comes out depends on the
/// generator's hidden state and is left unsaid, as is the generator's new state.
#[verifier::external_body]
pub(crate) fn random_i32_below(rng: &mut StdRng, low: i32, high: i32) -> (r: i32)
    requires
        low < high,
    ensures
        low <= r < high,
{
    rng.random_range(low..high)
}

/// Calls `rand::Rng::random_range` on `rng` with the inclusive range
/// `low..=high` of `u16`. The contract claims that the range must not be
/// empty (else it panics) and that the value drawn lies in it; which value
/// comes out, and the generator's new state, are left unsaid.
#[verifier::external_body]
pub(crate) fn random_u16_through(rng: &mut StdRng, low: u16, high: u16) -> (r: u16)
    requires
        low <= high,
    ensures
        low <= r <= high,
{
    rng.random_range(low..=high)
}

} // verus!
