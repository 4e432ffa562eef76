//! A tiny, seedable `xorshift64` pseudo-random number generator.
//!
//! Seeding is deterministic: the same seed always produces the same stream.
//! The seed is first mixed by the SplitMix64 finalizer and the low bit forced
//! on, so the internal state is never zero (a zero state would stay stuck).
use vstd::prelude::*;

verus! {

/// One step of SplitMix64's finalizer applied to `seed + golden ratio`,
/// with the low bit forced on: the initial state for `seed`.
pub open spec fn seed_state(seed: u64) -> u64 {
    let z0 = seed.wrapping_add(0x9E37_79B9_7F4A_7C15u64);
    let z1 = (z0 ^ (z0 >> 30u64)).wrapping_mul(0xBF58_476D_1CE4_E5B9u64);
    let z2 = (z1 ^ (z1 >> 27u64)).wrapping_mul(0x94D0_49BB_1331_11EBu64);
    (z2 ^ (z2 >> 31u64)) | 1u64
}

/// One `xorshift64` step: the state (and output) that follows `x`.
pub open spec fn xorshift(x: u64) -> u64 {
    let a = x ^ (x << 13u64);
    let b = a ^ (a >> 7u64);
    b ^ (b << 17u64)
}

/// The stream of a generator whose state is `state`: the `k`-th value it
/// draws, counting from zero.
pub open spec fn stream(state: u64, k: nat) -> u64
    decreases k,
{
    if k == 0 {
        xorshift(state)
    } else {
        stream(xorshift(state), (k - 1) as nat)
    }
}

/// A seedable `xorshift64` pseudo-random number generator.
pub struct Rng {
    state: u64,
}

impl Rng {
    /// The generator's internal state.
    pub closed spec fn state(&self) -> u64 {
        self.state
    }

    /// The generator never holds the zero state.
    #[verifier::type_invariant]
    closed spec fn never_zero(self) -> bool {
        self.state != 0
    }

    /// Create a generator from `seed`.
    pub fn new(seed: u64) -> (r: Self)
        ensures
            r.state() == seed_state(seed),
            r.state() != 0,
    {
        let mut z = seed.wrapping_add(0x9E37_79B9_7F4A_7C15);
        z = (z ^ (z >> 30)).wrapping_mul(0xBF58_476D_1CE4_E5B9);
        z = (z ^ (z >> 27)).wrapping_mul(0x94D0_49BB_1331_11EB);
        let state = (z ^ (z >> 31)) | 1;
        assert(state & 1 == 1 ==> state != 0) by (bit_vector);
        assert(state & 1 == 1) by (bit_vector)
            requires state == (z ^ (z >> 31u64)) | 1u64;
        Rng { state }
    }

    /// Draw the next raw 64-bit value from the stream. The value drawn is
    /// the generator's new state.
    pub fn next_u64(&mut self) -> (v: u64)
        ensures
            v == xorshift(old(self).state()),
            final(self).state() == v,
            v != 0,
    {
        proof { use_type_invariant(&*self); }
        let mut x = self.state;
        proof { lemma_xorshift_nonzero(x); }
        x ^= x << 13;
        x ^= x >> 7;
        x ^= x << 17;
        self.state = x;
        x
    }
}

/// `xorshift` maps a nonzero state to a nonzero state.
pub proof fn lemma_xorshift_nonzero(x: u64)
    requires
        x != 0,
    ensures
        xorshift(x) != 0,
{
    let a = x ^ (x << 13u64);
    let b = a ^ (a >> 7u64);
    assert(x != 0 ==> (x ^ (x << 13u64)) != 0) by (bit_vector);
    assert(a != 0 ==> (a ^ (a >> 7u64)) != 0) by (bit_vector);
    assert(b != 0 ==> (b ^ (b << 17u64)) != 0) by (bit_vector);
}

} // verus!
