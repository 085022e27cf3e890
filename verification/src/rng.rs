//! A small seeded pseudo-random generator (SplitMix64), so that index
//! construction is reproducible from a configuration's seed.
use vstd::prelude::*;
use vstd::wrapping::u64_specs::{wrapping_add, wrapping_mul};

verus! {

pub const GOLDEN_GAMMA: u64 = 0x9E37_79B9_7F4A_7C15;

pub const MIX_ONE: u64 = 0xBF58_476D_1CE4_E5B9;

pub const MIX_TWO: u64 = 0x94D0_49BB_1331_11EB;

/// The state after one draw.
pub open spec fn advance(state: u64) -> u64 {
    wrapping_add(state, GOLDEN_GAMMA)
}

/// The output of a draw, given the state after it.
pub open spec fn mix(z: u64) -> u64 {
    let a = wrapping_mul(z ^ (z >> 30u64), MIX_ONE);
    let b = wrapping_mul(a ^ (a >> 27u64), MIX_TWO);
    b ^ (b >> 31u64)
}

/// The output of the draw made from `state`.
pub open spec fn draw(state: u64) -> u64 {
    mix(advance(state))
}

/// A coin flip made from `state` shows heads.
pub open spec fn heads(state: u64) -> bool {
    draw(state) & 1u64 == 1u64
}

/// A reproducible generator: the same seed gives the same draws.
pub struct DeterministicRng {
    state: u64,
}

impl View for DeterministicRng {
    type V = u64;

    /// The generator's state.
    closed spec fn view(&self) -> u64 {
        self.state
    }
}

impl DeterministicRng {
    pub fn new(seed: u64) -> (rng: Self)
        ensures
            rng@ == seed,
    {
        DeterministicRng { state: seed }
    }

    pub fn next_u64(&mut self) -> (x: u64)
        ensures
            final(self)@ == advance(old(self)@),
            x == draw(old(self)@),
    {
        self.state = self.state.wrapping_add(GOLDEN_GAMMA);
        let z = self.state;
        let a = (z ^ (z >> 30u64)).wrapping_mul(MIX_ONE);
        let b = (a ^ (a >> 27u64)).wrapping_mul(MIX_TWO);
        b ^ (b >> 31u64)
    }

    /// Heads or tails, from the lowest bit of a draw.
    pub fn coin_flip(&mut self) -> (heads_up: bool)
        ensures
            final(self)@ == advance(old(self)@),
            heads_up == heads(old(self)@),
    {
        let x = self.next_u64();
        x & 1u64 == 1u64
    }

    /// A number below `bound`, from a draw taken modulo `bound`.
    pub fn index(&mut self, bound: usize) -> (i: usize)
        requires
            bound > 0,
        ensures
            final(self)@ == advance(old(self)@),
            i < bound,
            i as int == draw(old(self)@) as int % bound as int,
    {
        let x = self.next_u64();
        let b = bound as u64;
        (x % b) as usize
    }
}

} // verus!
