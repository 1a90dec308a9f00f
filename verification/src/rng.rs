use vstd::prelude::*;

verus! {

#[verifier::external_type_specification]
#[verifier::external_body]
pub struct ExStdRng(rand::rngs::StdRng);

/// Relies on rand's `SeedableRng::seed_from_u64` for `StdRng`: builds a
/// deterministic pseudo-random generator from a 64-bit seed.
#[verifier::external_body]
pub(crate) fn seeded_rng(seed: u64) -> rand::rngs::StdRng {
    rand::SeedableRng::seed_from_u64(seed)
}

/// Relies on rand's `Rng::gen_range` over `0..n`: returns a uniformly
/// drawn value of the range, and panics only when the range is empty,
/// which the precondition rules out.  Which value comes back is chance;
/// only the range is promised.
#[verifier::external_body]
pub(crate) fn rand_below(rng: &mut rand::rngs::StdRng, n: usize) -> (r: usize)
    requires
        n >= 1,
    ensures
        r < n,
{
    rand::Rng::gen_range(rng, 0..n)
}

} // verus!
