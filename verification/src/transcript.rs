//! The Fiat-Shamir transcript: a deterministic challenge generator that both
//! the prover and the verifier drive through an identical sequence of absorb
//! and draw calls. Every state transition is pinned to a specification
//! function, so "deterministic given identical absorbed history" is a theorem
//! about these contracts rather than an assumption.

use vstd::prelude::*;
use crate::field::Fe;
use crate::field::FP;

verus! {

/// The transcript state after absorbing one word.
pub open spec fn absorb_spec(st: u64, x: u64) -> u64 {
    ((st * 6364136223846793005 + x + 1) % (FP as int)) as u64
}

/// The challenge a draw emits from a given state.
pub open spec fn draw_value_spec(st: u64) -> Fe {
    Fe { value: ((st as int) % (FP as int)) as u64 }
}

/// The state a draw leaves behind.
pub open spec fn draw_state_spec(st: u64) -> u64 {
    absorb_spec(st, 11400714819323198485)
}

/// The state after `q` successive draws.
pub open spec fn draws_state_spec(st: u64, q: nat) -> u64
    decreases q,
{
    if q == 0 {
        st
    } else {
        draw_state_spec(draws_state_spec(st, (q - 1) as nat))
    }
}

/// A Fiat-Shamir transcript; the whole state is one machine word.
pub struct Transcript {
    pub state: u64,
}

impl Transcript {
    /// A fresh transcript over the given seed.
    pub fn new(seed: u64) -> (r: Transcript)
        ensures
            r.state == seed,
    {
        Transcript { state: seed }
    }

    /// Absorbs one prover message word.
    pub fn absorb(&mut self, x: u64)
        ensures
            final(self).state == absorb_spec(old(self).state, x),
    {
        proof {
            assert(self.state as int * 6364136223846793005int
                <= (u64::MAX as int) * 6364136223846793005int)
                by (nonlinear_arith)
                requires self.state <= u64::MAX,
            ;
        }
        let acc: u128 = self.state as u128 * 6364136223846793005u128 + x as u128 + 1;
        self.state = (acc % (FP as u128)) as u64;
    }

    /// Emits one challenge field element and advances the state.
    pub fn draw(&mut self) -> (r: Fe)
        ensures
            r == draw_value_spec(old(self).state),
            final(self).state == draw_state_spec(old(self).state),
            r.wf(),
    {
        let value = self.state % FP;
        self.absorb(11400714819323198485);
        Fe { value }
    }
}

} // verus!
