//! The sequence generator: a Park-Miller multiplicative congruential step
//! over an explicit 32-bit state.

use vstd::prelude::*;

verus! {

/// Multiplier of the congruential step.
pub const LCG_MULTIPLIER: u64 = 48271;

/// Modulus of the congruential step, the Mersenne prime `2^31 - 1`.
pub const LCG_MODULUS: u64 = 0x7fff_ffff;

/// The state that follows `state`: `state * 48271 mod (2^31 - 1)`.
pub open spec fn lcg_advance(state: u32) -> u32 {
    ((state as int * 48271) % 0x7fff_ffff) as u32
}

/// The number drawn from the state `state` for the bound `modulo`: the
/// state that follows it, reduced by `modulo`.
pub open spec fn lcg_draw(state: u32, modulo: u32) -> int
    recommends
        modulo > 0,
{
    lcg_advance(state) as int % modulo as int
}

/// Advances `state` by one step and returns the new state reduced by
/// `modulo`. The reduction is a plain remainder, so the result lies in
/// `0..modulo`.
pub fn lcg_next(state: &mut u32, modulo: u32) -> (drawn: u32)
    requires
        modulo > 0,
    ensures
        *final(state) == lcg_advance(*old(state)),
        drawn == lcg_draw(*old(state), modulo),
        drawn < modulo,
{
    let product: u64 = (*state as u64) * LCG_MULTIPLIER;
    let next: u64 = product % LCG_MODULUS;
    *state = next as u32;
    *state % modulo
}

} // verus!
