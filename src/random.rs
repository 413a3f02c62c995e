//! The seedable random number generator that drives the traversal.
use vstd::prelude::*;

verus! {

#[verifier::external_type_specification]
#[verifier::external_body]
pub struct ExRng(fastrand::Rng);

/// Relies on fastrand::Rng::with_seed: a generator whose sequence is fixed by `seed`.
#[verifier::external_body]
pub(crate) fn seeded_rng(seed: u64) -> (r: fastrand::Rng) {
    fastrand::Rng::with_seed(seed)
}

/// Relies on fastrand::Rng::new: a generator seeded from the thread-local generator.
#[verifier::external_body]
pub(crate) fn fresh_rng() -> (r: fastrand::Rng) {
    fastrand::Rng::new()
}

/// Relies on fastrand::Rng::usize over `..bound`: a draw in `0..bound`
/// (it panics on an empty range, which `requires` leaves out).
#[verifier::external_body]
pub(crate) fn draw_below(rng: &mut fastrand::Rng, bound: usize) -> (r: usize)
    requires
        bound > 0,
    ensures
        r < bound,
{
    rng.usize(..bound)
}

} // verus!
