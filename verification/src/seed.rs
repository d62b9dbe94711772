use vstd::prelude::*;

verus! {

/// Seed of the terrain noise; 0 draws a new one on every start.
pub const TERRAIN_SEED: u64 = 0;

/// Seed of the generator that rolls the fire; 0 draws a new one on every start.
pub const FIRE_SEED: u64 = 0;

/// Calls `rand::random::<u64>()`, which draws from the thread-local generator
/// that the operating system seeds. Nothing is stated of the value: any `u64`
/// may come back.
#[verifier::external_body]
fn random_u64() -> (r: u64) {
    rand::random::<u64>()
}

/// The seed to use given a configured seed and a drawn one: the configured
/// seed when it is not 0, else the drawn one.
pub fn seed_from(configured: u64, drawn: u64) -> (seed: u64)
    ensures
        seed == (if configured > 0 {
            configured
        } else {
            drawn
        }),
{
    if configured > 0 {
        configured
    } else {
        drawn
    }
}

/// The seed to use: the configured one when it is not 0, else a fresh random one.
pub fn choose_seed(configured: u64) -> (seed: u64)
    ensures
        configured > 0 ==> seed == configured,
{
    if configured > 0 {
        configured
    } else {
        seed_from(configured, random_u64())
    }
}

} // verus!
