//! Deterministic, dependency-free bit mixing: the SplitMix64 finalizer and
//! the SplitMix64 generator built on it.

use vstd::prelude::*;

verus! {

/// The SplitMix64 increment (the 64-bit golden-ratio constant).
pub const GOLDEN_GAMMA: u64 = 0x9E37_79B9_7F4A_7C15;

/// First SplitMix64 multiplier.
pub const MIX_MUL_1: u64 = 0xBF58_476D_1CE4_E5B9;

/// Second SplitMix64 multiplier.
pub const MIX_MUL_2: u64 = 0x94D0_49BB_1331_11EB;

/// The SplitMix64 output function applied to `z` after adding the golden
/// increment (all arithmetic modulo 2^64).
pub open spec fn mix64_spec(z: u64) -> u64 {
    let a = z.wrapping_add(GOLDEN_GAMMA);
    let b = (a ^ (a >> 30u64)).wrapping_mul(MIX_MUL_1);
    let c = (b ^ (b >> 27u64)).wrapping_mul(MIX_MUL_2);
    c ^ (c >> 31u64)
}

/// SplitMix64 mix of a single word.
pub fn mix64(z: u64) -> (r: u64)
    ensures
        r == mix64_spec(z),
{
    let a = z.wrapping_add(GOLDEN_GAMMA);
    let b = (a ^ (a >> 30u64)).wrapping_mul(MIX_MUL_1);
    let c = (b ^ (b >> 27u64)).wrapping_mul(MIX_MUL_2);
    c ^ (c >> 31u64)
}


/// The 53 high bits of `mix64(seed ^ mix64(tag))`: the integer that a
/// deterministic unit sample in `[-1, 1)` is scaled from (divided by 2^53).
pub fn seed_bits(seed: u64, tag: u64) -> (r: u64)
    ensures
        r == mix64_spec(seed ^ mix64_spec(tag)) >> 11u64,
        r < 0x20_0000_0000_0000u64,
{
    let m = mix64(seed ^ mix64(tag));
    assert(m >> 11u64 < 0x20_0000_0000_0000u64) by (bit_vector);
    m >> 11u64
}

/// A SplitMix64 generator: a 64-bit state advanced by the golden increment.
pub struct SplitMix64 {
    state: u64,
}

impl View for SplitMix64 {
    type V = u64;

    open spec fn view(&self) -> u64 {
        self.spec_state()
    }
}

impl SplitMix64 {
    /// The generator's current state.
    pub closed spec fn spec_state(&self) -> u64 {
        self.state
    }

    /// A generator whose state is `seed`.
    pub fn new(seed: u64) -> (r: Self)
        ensures
            r@ == seed,
    {
        SplitMix64 { state: seed }
    }

    /// Advance the state by the golden increment and return the mix of the
    /// old state (equivalently, the SplitMix64 output of the new state).
    pub fn next_u64(&mut self) -> (r: u64)
        ensures
            final(self)@ == old(self)@.wrapping_add(GOLDEN_GAMMA),
            r == mix64_spec(old(self)@),
    {
        let old_state = self.state;
        self.state = self.state.wrapping_add(GOLDEN_GAMMA);
        let mut z = self.state;
        z = (z ^ (z >> 30u64)).wrapping_mul(MIX_MUL_1);
        z = (z ^ (z >> 27u64)).wrapping_mul(MIX_MUL_2);
        let r = z ^ (z >> 31u64);
        assert(r == mix64_spec(old_state));
        r
    }
}

/// The state reached from `seed` after `n` draws.
pub open spec fn advanced(seed: u64, n: nat) -> u64
    decreases n,
{
    if n == 0 {
        seed
    } else {
        advanced(seed, (n - 1) as nat).wrapping_add(GOLDEN_GAMMA)
    }
}

/// Law: after `n` draws the state of a generator seeded with `seed` is
/// `seed + n * GOLDEN_GAMMA` modulo 2^64, so the `n`-th draw (counting from
/// zero) is `mix64(seed + n * GOLDEN_GAMMA)`: the generator and `mix64` agree.
pub proof fn lemma_splitmix_stream(seed: u64, n: nat)
    ensures
        advanced(seed, n) as int == (seed + n * GOLDEN_GAMMA) % 0x1_0000_0000_0000_0000int,
        mix64_spec(advanced(seed, n)) == mix64_spec(
            ((seed + n * GOLDEN_GAMMA) % 0x1_0000_0000_0000_0000int) as u64,
        ),
    decreases n,
{
    let m = 0x1_0000_0000_0000_0000int;
    if n > 0 {
        lemma_splitmix_stream(seed, (n - 1) as nat);
        let prev = advanced(seed, (n - 1) as nat);
        let a = seed + (n - 1) * GOLDEN_GAMMA;
        assert(seed + n * GOLDEN_GAMMA == a + GOLDEN_GAMMA) by (nonlinear_arith)
            requires a == seed + (n - 1) * GOLDEN_GAMMA, n > 0;
        assert(prev as int == a % m);
        vstd::arithmetic::div_mod::lemma_add_mod_noop(a, GOLDEN_GAMMA as int, m);
        vstd::arithmetic::div_mod::lemma_small_mod(GOLDEN_GAMMA as nat, m as nat);
        vstd::arithmetic::div_mod::lemma_mod_bound(a + GOLDEN_GAMMA, m);
        vstd::arithmetic::div_mod::lemma_mod_bound(a, m);
        if prev + GOLDEN_GAMMA >= m {
            vstd::arithmetic::div_mod::lemma_mod_sub_multiples_vanish(prev + GOLDEN_GAMMA, m);
            vstd::arithmetic::div_mod::lemma_small_mod((prev + GOLDEN_GAMMA - m) as nat, m as nat);
        } else {
            vstd::arithmetic::div_mod::lemma_small_mod((prev + GOLDEN_GAMMA) as nat, m as nat);
        }
    }
}

} // verus!
