//! Deterministic PCG32 generator plus the `SplitMix64` seed mixer. Not
//! cryptographic.

use vstd::prelude::*;
use vstd::wrapping::u64_specs;

verus! {

/// Multiplier of the PCG32 linear congruential step.
pub const PCG32_MULT: u64 = 6_364_136_223_846_793_005u64;

/// The `SplitMix64` finaliser over wrapping `u64` arithmetic.
pub open spec fn spec_splitmix64(seed: u64) -> u64 {
    let z0 = u64_specs::wrapping_add(seed, 0x9E37_79B9_7F4A_7C15u64);
    let z1 = u64_specs::wrapping_mul(z0 ^ (z0 >> 30u64), 0xBF58_476D_1CE4_E5B9u64);
    let z2 = u64_specs::wrapping_mul(z1 ^ (z1 >> 27u64), 0x94D0_49BB_1331_11EBu64);
    z2 ^ (z2 >> 31u64)
}

/// `SplitMix64` finaliser.
pub fn splitmix64(seed: u64) -> (r: u64)
    ensures
        r == spec_splitmix64(seed),
{
    let mut z = seed.wrapping_add(0x9E37_79B9_7F4A_7C15);
    z = (z ^ (z >> 30)).wrapping_mul(0xBF58_476D_1CE4_E5B9);
    z = (z ^ (z >> 27)).wrapping_mul(0x94D0_49BB_1331_11EB);
    z ^ (z >> 31)
}

/// Rotate a `u32` right by `rot` bits (`rot` taken modulo 32).
pub open spec fn spec_rotr32(x: u32, rot: u32) -> u32 {
    let r = rot % 32;
    if r == 0 {
        x
    } else {
        ((x >> r) | (x << ((32 - r) as u32))) as u32
    }
}

/// The state after one PCG32 step.
pub open spec fn spec_pcg_step(state: u64, inc: u64) -> u64 {
    u64_specs::wrapping_add(u64_specs::wrapping_mul(state, PCG32_MULT), inc)
}

/// The XSH-RR output computed from the state before a step.
pub open spec fn spec_pcg_output(old: u64) -> u32 {
    spec_rotr32((((old >> 18u64) ^ old) >> 27u64) as u32, (old >> 59u64) as u32)
}

/// PCG32 XSH-RR 64/32.
#[derive(Debug, Clone, Copy, PartialEq, Eq)]
pub struct Pcg32 {
    state: u64,
    inc: u64,
}

impl Pcg32 {
    /// Internal LCG state.
    pub closed spec fn state(self) -> u64 {
        self.state
    }

    /// Stream increment; always odd.
    pub closed spec fn inc(self) -> u64 {
        self.inc
    }

    /// The generator a seed produces: increment from the mixed seed, one
    /// step, the seed added to the state, and one more step.
    pub open spec fn spec_seeded(seed: u64) -> (u64, u64) {
        let inc = spec_splitmix64(seed ^ 0xda3e_39cb_94b9_5bdbu64) | 1u64;
        let s1 = spec_pcg_step(0, inc);
        let s2 = u64_specs::wrapping_add(s1, spec_splitmix64(seed));
        (spec_pcg_step(s2, inc), inc)
    }

    /// Seed a deterministic stream from one `u64`.
    pub fn seeded(seed: u64) -> (rng: Self)
        ensures
            (rng.state(), rng.inc()) == Self::spec_seeded(seed),
    {
        let inc = splitmix64(seed ^ 0xda3e_39cb_94b9_5bdb) | 1;
        let mut rng = Self { state: 0, inc };
        let _ = rng.next_u32();
        rng.state = rng.state.wrapping_add(splitmix64(seed));
        let _ = rng.next_u32();
        rng
    }

    /// Next 32-bit output.
    pub fn next_u32(&mut self) -> (out: u32)
        ensures
            out == spec_pcg_output(old(self).state()),
            final(self).state() == spec_pcg_step(old(self).state(), old(self).inc()),
            final(self).inc() == old(self).inc(),
    {
        let old = self.state;
        self.state = old.wrapping_mul(PCG32_MULT).wrapping_add(self.inc);
        let xorshifted = (((old >> 18) ^ old) >> 27) as u32;
        let rot = (old >> 59) as u32;
        rotr32(xorshifted, rot)
    }
}

/// Rotate right; the rotation count is taken modulo 32 as `u32::rotate_right` does.
fn rotr32(x: u32, rot: u32) -> (r: u32)
    ensures
        r == spec_rotr32(x, rot),
{
    let r = rot % 32;
    if r == 0 {
        x
    } else {
        (x >> r) | (x << (32 - r))
    }
}

} // verus!
