//! Randomness abstractions for deterministic protocol behavior.

use vstd::prelude::*;

verus! {

/// Source of pseudo-random values used by the protocol.
///
/// The protocol core accepts randomness through this trait so tests and
/// simulations can be deterministic. `draws` says which values a source may
/// return and which state it may move to; a source that says nothing allows
/// every draw.
pub trait RandomSource: Sized {
    /// Drawing from `self` may return `value` and leave `after`.
    open spec fn draws(&self, value: u64, after: Self) -> bool {
        true
    }

    /// Returns the next pseudo-random `u64`.
    fn next_u64(&mut self) -> (v: u64)
        ensures
            old(self).draws(v, *final(self)),
    ;

    /// Returns a pseudo-random index in `0..len`: a drawn value modulo `len`.
    ///
    /// Returns `None` when `len` is zero, without drawing.
    fn index(&mut self, len: usize) -> (r: Option<usize>)
        ensures
            len == 0 ==> r is None && *final(self) == *old(self),
            len > 0 ==> exists|v: u64|
                #[trigger] old(self).draws(v, *final(self)) && r == Some(((v as usize) % len) as usize),
    {
        if len == 0 {
            return None;
        }
        let v = self.next_u64();
        Some((v as usize) % len)
    }
}

/// A tiny deterministic random source for tests and simulations.
///
/// This is a linear congruential generator: it is not cryptographically secure
/// and only makes protocol behavior reproducible.
#[derive(Clone, Copy, Debug)]
pub struct DeterministicRng {
    state: u64,
}

/// The state that follows `state` (multiplier from Numerical Recipes, increment 1).
#[verifier::opaque]
pub open spec fn lcg_step(state: u64) -> u64 {
    state.wrapping_mul(6_364_136_223_846_793_005).wrapping_add(1)
}

impl DeterministicRng {
    /// The generator's current state.
    pub closed spec fn spec_state(self) -> u64 {
        self.state
    }

    /// A generator is determined by its state.
    pub proof fn lemma_state_determines(a: DeterministicRng, b: DeterministicRng)
        ensures
            (a.spec_state() == b.spec_state()) <==> (a == b),
    {
    }

    /// A draw returns the next state of the recurrence and moves to it.
    pub proof fn lemma_draws(a: DeterministicRng, value: u64, after: DeterministicRng)
        ensures
            a.draws(value, after) <==> value == lcg_step(a.spec_state()) && after.spec_state() == value,
    {
    }

    /// Creates a deterministic RNG from a seed.
    pub fn new(seed: u64) -> (rng: Self)
        ensures
            rng.spec_state() == seed,
    {
        DeterministicRng { state: seed }
    }
}

impl RandomSource for DeterministicRng {
    closed spec fn draws(&self, value: u64, after: Self) -> bool {
        value == lcg_step(self.state) && after.state == value
    }

    fn next_u64(&mut self) -> (v: u64)
        ensures
            v == lcg_step(old(self).spec_state()),
            final(self).spec_state() == v,
    {
        proof {
            reveal(lcg_step);
        }
        self.state = self.state.wrapping_mul(6_364_136_223_846_793_005).wrapping_add(1);
        self.state
    }
}

} // verus!
