//! The two sources of chance the simulation draws on. Nothing in this file is
//! proved: each function states what its outside call is documented to do.

use vstd::prelude::*;

verus! {

/// The generator type of `oorandom`. Its state is opaque here.
#[verifier::external_type_specification]
#[verifier::external_body]
pub struct ExRand32(oorandom::Rand32);

/// Calls `oorandom::Rand32::rand_range` on `0..bound`. The range must not be
/// empty. The call advances the generator and returns a number that lies in
/// the range; nothing else is claimed of it.
#[verifier::external_body]
pub(crate) fn rand_below(rng: &mut oorandom::Rand32, bound: u32) -> (n: u32)
    requires
        bound > 0,
    ensures
        n < bound,
{
    rng.rand_range(0..bound)
}

/// Calls `uuid::Uuid::new_v4` and returns the identifier as the 128-bit number
/// that `Uuid::as_u128` gives. The value comes from the operating system's
/// random source, so nothing is claimed of it. The call fails only if the
/// system cannot supply random bytes.
#[verifier::external_body]
pub(crate) fn fresh_id() -> (id: u128) {
    uuid::Uuid::new_v4().as_u128()
}

} // verus!
