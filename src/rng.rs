//! The random source: rand's small, fast generator, owned by one player.
use vstd::prelude::*;
use rand::rngs::SmallRng;
use rand::seq::SliceRandom;
use rand::{Rng, SeedableRng};
use crate::gameplay::MoveDir;

verus! {

#[verifier::external_type_specification]
#[verifier::external_body]
pub struct ExSmallRng(SmallRng);

/// Relies on rand's `Rng::gen_range(low, high)`: it returns a value in
/// `low..high`, and panics when `low >= high`, which `requires` rules out.
#[verifier::external_body]
pub(crate) fn below(rng: &mut SmallRng, n: u32) -> (r: u32)
    requires
        0 < n,
    ensures
        r < n,
{
    rng.gen_range(0, n)
}

/// Relies on rand's `SeedableRng::seed_from_u64`: a generator whose whole
/// sequence is fixed by `seed`.
#[verifier::external_body]
pub(crate) fn seeded(seed: u64) -> SmallRng {
    SmallRng::seed_from_u64(seed)
}

/// Relies on rand's `SliceRandom::choose`: a uniformly chosen element of the
/// slice, `None` only for an empty slice, which `requires` rules out.
#[verifier::external_body]
pub(crate) fn pick(rng: &mut SmallRng, options: &Vec<MoveDir>) -> (r: MoveDir)
    requires
        options.len() > 0,
    ensures
        options@.contains(r),
{
    *options.choose(rng).unwrap()
}

} // verus!
