//! A small, fast, seedable pseudo-random generator (SplitMix64).
//!
//! Dependency-free and deterministic for a given seed, so simulated
//! telemetry is reproducible.

use vstd::prelude::*;

verus! {

pub const GOLDEN_GAMMA: u64 = 0x9E37_79B9_7F4A_7C15;

/// The state after one SplitMix64 step.
pub open spec fn spec_advance(state: u64) -> u64 {
    state.wrapping_add(GOLDEN_GAMMA)
}

/// The output SplitMix64 derives from an advanced state.
pub open spec fn spec_mix(state: u64) -> u64 {
    let z1 = (state ^ (state >> 30u64)).wrapping_mul(0xBF58_476D_1CE4_E5B9);
    let z2 = (z1 ^ (z1 >> 27u64)).wrapping_mul(0x94D0_49BB_1331_11EB);
    z2 ^ (z2 >> 31u64)
}

/// Byte `j` of `x` in little-endian order.
pub open spec fn le_byte(x: u64, j: int) -> u8 {
    ((x >> ((8 * j) as u64)) & 0xffu64) as u8
}

/// A SplitMix64 pseudo-random generator.
#[derive(Debug, Clone)]
pub struct Rng {
    state: u64,
}

impl Rng {
    /// The generator's state.
    pub closed spec fn state(&self) -> u64 {
        self.state
    }

    /// Seed the generator.
    pub fn new(seed: u64) -> (r: Rng)
        ensures
            r.state() == seed,
    {
        Rng { state: seed }
    }

    /// The next raw 64-bit value.
    pub fn next_u64(&mut self) -> (v: u64)
        ensures
            final(self).state() == spec_advance(old(self).state()),
            v == spec_mix(final(self).state()),
    {
        self.state = self.state.wrapping_add(GOLDEN_GAMMA);
        let mut z = self.state;
        z = (z ^ (z >> 30)).wrapping_mul(0xBF58_476D_1CE4_E5B9);
        z = (z ^ (z >> 27)).wrapping_mul(0x94D0_49BB_1331_11EB);
        z ^ (z >> 31)
    }

    /// An integer in `[low, high)`: the next draw reduced modulo the range's
    /// width, which is uniform up to the bias of that reduction (below
    /// `(high - low) / 2^64` per value). Returns `low` if the range is empty
    /// (without drawing).
    pub fn range(&mut self, low: u64, high: u64) -> (v: u64)
        ensures
            high <= low ==> v == low && final(self).state() == old(self).state(),
            high > low ==> {
                &&& final(self).state() == spec_advance(old(self).state())
                &&& v == low + spec_mix(final(self).state()) % ((high - low) as u64)
                &&& low <= v < high
            },
    {
        if high <= low {
            return low;
        }
        low + self.next_u64() % (high - low)
    }

    /// A random 16-byte array (for trace identifiers): the little-endian
    /// bytes of two successive draws.
    pub fn bytes16(&mut self) -> (out: [u8; 16])
        ensures
            final(self).state() == spec_advance(spec_advance(old(self).state())),
            forall|j: int|
                0 <= j < 8 ==> out@[j] == le_byte(spec_mix(spec_advance(old(self).state())), j),
            forall|j: int|
                8 <= j < 16 ==> out@[j] == le_byte(
                    spec_mix(spec_advance(spec_advance(old(self).state()))),
                    j - 8,
                ),
    {
        let mut out = [0u8; 16];
        let first = self.next_u64();
        let second = self.next_u64();
        let mut j: usize = 0;
        while j < 8
            invariant
                j <= 8,
                out@.len() == 16,
                forall|k: int| 0 <= k < j ==> out@[k] == le_byte(first, k),
                forall|k: int| 0 <= k < j ==> out@[k + 8] == le_byte(second, k),
            decreases 8 - j,
        {
            out[j] = ((first >> (8 * j as u64)) & 0xff) as u8;
            out[j + 8] = ((second >> (8 * j as u64)) & 0xff) as u8;
            j = j + 1;
        }
        out
    }

    /// A random 8-byte array (for span identifiers): the little-endian bytes
    /// of one draw.
    pub fn bytes8(&mut self) -> (out: [u8; 8])
        ensures
            final(self).state() == spec_advance(old(self).state()),
            forall|j: int| 0 <= j < 8 ==> out@[j] == le_byte(spec_mix(final(self).state()), j),
    {
        let mut out = [0u8; 8];
        let value = self.next_u64();
        let mut j: usize = 0;
        while j < 8
            invariant
                j <= 8,
                out@.len() == 8,
                forall|k: int| 0 <= k < j ==> out@[k] == le_byte(value, k),
            decreases 8 - j,
        {
            out[j] = ((value >> (8 * j as u64)) & 0xff) as u8;
            j = j + 1;
        }
        out
    }
}

/// The generator's state after `k` draws from `state`.
pub open spec fn state_after(state: u64, k: nat) -> u64
    decreases k,
{
    if k == 0 {
        state
    } else {
        spec_advance(state_after(state, (k - 1) as nat))
    }
}

/// The `k`-th draw (counting from 1) of a generator in `state`.
pub open spec fn kth_draw(state: u64, k: nat) -> u64 {
    spec_mix(state_after(state, k))
}

/// The closed form of SplitMix64: after `k` draws the state is the seed plus
/// `k` golden-ratio steps, modulo `2^64`, so the `k`-th draw of a generator
/// seeded with `seed` is the mix of that state. Generators seeded alike draw
/// alike.
pub proof fn lemma_kth_draw(seed: u64, k: nat)
    ensures
        state_after(seed, k) == (seed + k * GOLDEN_GAMMA) % 0x1_0000_0000_0000_0000,
        k >= 1 ==> kth_draw(seed, k) == spec_mix(
            ((seed + k * GOLDEN_GAMMA) % 0x1_0000_0000_0000_0000) as u64,
        ),
    decreases k,
{
    if k > 0 {
        lemma_kth_draw(seed, (k - 1) as nat);
        let prev = state_after(seed, (k - 1) as nat);
        let m: int = 0x1_0000_0000_0000_0000;
        let a: int = seed + (k - 1) * GOLDEN_GAMMA;
        assert(prev == a % m);
        assert(spec_advance(prev) == (prev + GOLDEN_GAMMA) % m);
        vstd::arithmetic::div_mod::lemma_add_mod_noop(a, GOLDEN_GAMMA as int, m);
        vstd::arithmetic::div_mod::lemma_mod_twice(GOLDEN_GAMMA as int, m);
        vstd::arithmetic::div_mod::lemma_small_mod(GOLDEN_GAMMA as nat, m as nat);
        assert(a + GOLDEN_GAMMA == seed + k * GOLDEN_GAMMA) by (nonlinear_arith)
            requires
                a == seed + (k - 1) * GOLDEN_GAMMA,
        ;
    }
}

} // verus!
