//! The random source used by every generation component.
//!
//! Randomness comes from the `rand` crate's standard generator. Each item
//! here is trusted: its contract states only what `rand`'s source and
//! documentation show, and nothing about which values come out, so every
//! caller is verified for every outcome of a draw.

use vstd::prelude::*;

use rand::Rng;
use rand::SeedableRng;
use rand::seq::SliceRandom;

use crate::board::Pos;

verus! {

/// Relies on `rand::rngs::StdRng`: the standard pseudo-random generator,
/// held as an opaque value.
#[verifier::external_type_specification]
#[verifier::external_body]
pub struct ExStdRng(rand::rngs::StdRng);

/// Relies on `rand::SeedableRng::seed_from_u64`: builds a generator whose
/// draws are determined by the seed. Nothing about the state is visible to
/// specifications.
#[verifier::external_body]
pub(crate) fn rng_from_seed(seed: u64) -> rand::rngs::StdRng {
    rand::rngs::StdRng::seed_from_u64(seed)
}

/// Relies on `rand::SeedableRng::from_entropy`: builds a generator seeded
/// from the operating system's entropy source. The callee aborts if that
/// source fails; no precondition can exclude an environment condition.
#[verifier::external_body]
pub(crate) fn rng_from_entropy() -> rand::rngs::StdRng {
    rand::rngs::StdRng::from_entropy()
}

/// Relies on `rand::Rng::gen_range`: for a non-empty half-open range the
/// draw is uniform in `low..high`; an empty range would panic, so it is
/// excluded here.
#[verifier::external_body]
pub(crate) fn gen_range(rng: &mut rand::rngs::StdRng, low: usize, high: usize) -> (r: usize)
    requires
        low < high,
    ensures
        low <= r < high,
{
    rng.gen_range(low..high)
}

/// Relies on `rand::seq::SliceRandom::shuffle`: a Fisher-Yates shuffle that
/// permutes the slice in place by swaps, so the length and the multiset of
/// elements are unchanged.
#[verifier::external_body]
pub(crate) fn shuffle(rng: &mut rand::rngs::StdRng, v: &mut Vec<Pos>)
    ensures
        final(v)@.len() == old(v)@.len(),
        final(v)@.to_multiset() == old(v)@.to_multiset(),
{
    v.as_mut_slice().shuffle(rng)
}

} // verus!
