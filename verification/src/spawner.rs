//! The seeded random stream that spawning draws from.

use vstd::prelude::*;
use bevy_turborand::RngComponent;

verus! {

/// Declares `bevy_turborand::RngComponent`, a seeded generator, as a type
/// whose inside the proofs never look at.
#[verifier::external_type_specification]
#[verifier::external_body]
pub struct ExRngComponent(bevy_turborand::RngComponent);

/// The seed that the world's generator starts from.
pub const WORLD_SEED: u64 = 1024;

/// The one stream that every spawn decision draws from, so that a run with
/// the same seed makes the same draws in the same order.
pub struct SpawnGenerator {
    pub rng: RngComponent,
}

/// Calls `DelegatedRng::usize` of `bevy_turborand` on the half-open range
/// `lower..upper`. For a range that is not empty the generator returns a
/// member of it; on an empty one it panics, so those are left out. Nothing is
/// claimed about which member comes back or about the stream afterwards.
#[verifier::external_body]
pub(crate) fn draw_usize(rng: &mut RngComponent, lower: usize, upper: usize) -> (value: usize)
    requires
        lower < upper,
    ensures
        lower <= value < upper,
{
    bevy_turborand::DelegatedRng::usize(rng, lower..upper)
}

} // verus!
