//! SplitMix64 pseudorandom number generator.
//!
//! Algorithm from Steele, Lea and Flood, "Fast splittable pseudorandom number
//! generators", OOPSLA 2014, following Sebastiano Vigna's reference
//! implementation. Each output depends only on the seed and on how many
//! outputs came before it.
use vstd::prelude::*;
use vstd::arithmetic::div_mod::*;
use vstd::arithmetic::mul::*;
use vstd::arithmetic::power2::{pow2, lemma2_to64};
use crate::redc::lemma_pow2_divides_odd_product;

verus! {

/// The increment of the state per output, the golden gamma.
pub const GOLDEN_GAMMA: u64 = 0x9e37_79b9_7f4a_7c15;

/// The output function: a mix of the state.
pub open spec fn mix(z: u64) -> u64 {
    let z1 = (z ^ (z >> 30)).wrapping_mul(0xbf58_476d_1ce4_e5b9);
    let z2 = (z1 ^ (z1 >> 27)).wrapping_mul(0x94d0_49bb_1331_11eb);
    z2 ^ (z2 >> 31)
}

/// The state after `k` outputs from `seed`.
pub open spec fn state_after(seed: u64, k: nat) -> u64 {
    ((seed + k * GOLDEN_GAMMA) % 0x1_0000_0000_0000_0000) as u64
}

/// The `k`-th output (counting from zero) of a generator seeded with `seed`.
pub open spec fn nth_output(seed: u64, k: nat) -> u64 {
    mix(state_after(seed, k + 1))
}

/// SplitMix64 generator. Not suitable for cryptographic use.
pub struct SplitMix64(u64);

impl SplitMix64 {
    /// The current state.
    pub closed spec fn state(&self) -> u64 {
        self.0
    }

    pub fn new(seed: u64) -> (r: Self)
        ensures
            r.state() == seed,
    {
        Self(seed)
    }

    pub fn next_u64(&mut self) -> (r: u64)
        ensures
            final(self).state() == old(self).state().wrapping_add(GOLDEN_GAMMA),
            r == mix(final(self).state()),
    {
        self.0 = self.0.wrapping_add(GOLDEN_GAMMA);
        let mut z = self.0;
        z = (z ^ (z >> 30)).wrapping_mul(0xbf58_476d_1ce4_e5b9);
        z = (z ^ (z >> 27)).wrapping_mul(0x94d0_49bb_1331_11eb);
        z ^ (z >> 31)
    }
}

/// A generator is reproducible: after `k` outputs from `seed` its state is
/// `seed + k * gamma (mod 2^64)`, so the next output is the `k`-th output of
/// `seed`, whatever else was drawn elsewhere.
pub proof fn lemma_next_after(seed: u64, k: nat)
    ensures
        state_after(seed, k).wrapping_add(GOLDEN_GAMMA) == state_after(seed, k + 1),
        mix(state_after(seed, k).wrapping_add(GOLDEN_GAMMA)) == nth_output(seed, k),
{
    let m = 0x1_0000_0000_0000_0000int;
    let a = seed + k * GOLDEN_GAMMA;
    let s = a % m;
    assert(seed + (k + 1) * GOLDEN_GAMMA == a + GOLDEN_GAMMA) by (nonlinear_arith)
        requires
            a == seed + k * GOLDEN_GAMMA,
    ;
    lemma_add_mod_noop(a, GOLDEN_GAMMA as int, m);
    lemma_small_mod(GOLDEN_GAMMA as nat, m as nat);
    lemma_mod_twice(a, m);
    if s + GOLDEN_GAMMA >= m {
        lemma_mod_multiples_vanish(-1, s + GOLDEN_GAMMA, m);
        lemma_small_mod((s + GOLDEN_GAMMA - m) as nat, m as nat);
    } else {
        lemma_small_mod((s + GOLDEN_GAMMA) as nat, m as nat);
    }
}

/// Drawing `k` outputs from `seed` leaves the state a generator seeded with
/// `seed + k * gamma (mod 2^64)` starts from, so that generator's first
/// output is the `k`-th output of `seed`.
pub proof fn lemma_resume(seed: u64, k: nat)
    ensures
        ({
            let s2 = seed.wrapping_add(((k % 0x1_0000_0000_0000_0000) as u64).wrapping_mul(GOLDEN_GAMMA));
            &&& state_after(seed, k) == s2
            &&& state_after(s2, 0) == s2
            &&& nth_output(seed, k) == nth_output(s2, 0)
        }),
{
    let m = 0x1_0000_0000_0000_0000int;
    let km = (k % (m as nat)) as u64;
    let prod = km.wrapping_mul(GOLDEN_GAMMA);
    let s2 = seed.wrapping_add(prod);
    assert(prod as int == (km as int * GOLDEN_GAMMA as int) % m);
    lemma_mul_mod_noop_left(k as int, GOLDEN_GAMMA as int, m);
    assert(prod as int == (k * GOLDEN_GAMMA) % m);
    // seed + prod, less m when it overflows
    lemma_add_mod_noop(seed as int, (k * GOLDEN_GAMMA) as int, m);
    lemma_small_mod(seed as nat, m as nat);
    if seed + prod > u64::MAX {
        lemma_mod_multiples_vanish(-1, seed + prod, m);
        lemma_small_mod((seed + prod - m) as nat, m as nat);
    } else {
        lemma_small_mod((seed + prod) as nat, m as nat);
    }
    assert(state_after(seed, k) == s2);
    lemma_state_after_zero(s2);
    lemma_next_after(seed, k);
    lemma_next_after(s2, 0);
}

/// Multiplying by an odd constant modulo `2^64` loses nothing.
proof fn lemma_odd_mul_injective(a: u64, b: u64, c: u64)
    requires
        c % 2 == 1,
        a.wrapping_mul(c) == b.wrapping_mul(c),
    ensures
        a == b,
{
    let m = 0x1_0000_0000_0000_0000int;
    lemma2_to64();
    if a != b {
        let (hi, lo) = if a > b { (a, b) } else { (b, a) };
        let d = hi - lo;
        assert(hi as int * c - lo as int * c == d * c) by (nonlinear_arith)
            requires
                d == hi - lo,
        ;
        lemma_mod_equivalence(hi as int * c, lo as int * c, m);
        lemma_pow2_divides_odd_product(64, d, c as int);
        lemma_small_mod(d as nat, m as nat);
    }
}

/// The output function is a bijection on words: each of its steps, an
/// xor with a right shift and a multiplication by an odd constant, can be
/// undone. So distinct states give distinct outputs.
pub proof fn lemma_mix_injective(a: u64, b: u64)
    requires
        mix(a) == mix(b),
    ensures
        a == b,
{
    let a1 = a ^ (a >> 30);
    let b1 = b ^ (b >> 30);
    let a2 = a1.wrapping_mul(0xbf58_476d_1ce4_e5b9);
    let b2 = b1.wrapping_mul(0xbf58_476d_1ce4_e5b9);
    let a3 = a2 ^ (a2 >> 27);
    let b3 = b2 ^ (b2 >> 27);
    let a4 = a3.wrapping_mul(0x94d0_49bb_1331_11eb);
    let b4 = b3.wrapping_mul(0x94d0_49bb_1331_11eb);
    assert(a4 ^ (a4 >> 31) == b4 ^ (b4 >> 31));
    assert(a4 == b4) by (bit_vector)
        requires
            a4 ^ (a4 >> 31) == b4 ^ (b4 >> 31),
    ;
    lemma_odd_mul_injective(a3, b3, 0x94d0_49bb_1331_11eb);
    assert(a2 == b2) by (bit_vector)
        requires
            a2 ^ (a2 >> 27) == b2 ^ (b2 >> 27),
    ;
    lemma_odd_mul_injective(a1, b1, 0xbf58_476d_1ce4_e5b9);
    assert(a == b) by (bit_vector)
        requires
            a ^ (a >> 30) == b ^ (b >> 30),
    ;
}

/// Any `2^64` successive outputs of one generator are pairwise distinct: the
/// state moves by the odd gamma each time, so it repeats only after `2^64`
/// steps, and the output function is a bijection.
pub proof fn lemma_outputs_distinct(seed: u64, j: nat, k: nat)
    requires
        j < k,
        k - j < 0x1_0000_0000_0000_0000,
    ensures
        nth_output(seed, j) != nth_output(seed, k),
{
    let m = 0x1_0000_0000_0000_0000int;
    let sj = seed + (j + 1) * GOLDEN_GAMMA;
    let sk = seed + (k + 1) * GOLDEN_GAMMA;
    if nth_output(seed, j) == nth_output(seed, k) {
        lemma_mix_injective(state_after(seed, j + 1), state_after(seed, k + 1));
        assert(sk % m == sj % m);
        let d = k - j;
        assert(sk - sj == d * GOLDEN_GAMMA) by (nonlinear_arith)
            requires
                sj == seed + (j + 1) * GOLDEN_GAMMA,
                sk == seed + (k + 1) * GOLDEN_GAMMA,
                d == k - j,
        ;
        lemma_mod_equivalence(sk, sj, m);
        lemma2_to64();
        lemma_pow2_divides_odd_product(64, d, GOLDEN_GAMMA as int);
        lemma_small_mod(d as nat, m as nat);
    }
}

/// The generator seeded with `seed` starts from state `seed`.
pub proof fn lemma_state_after_zero(seed: u64)
    ensures
        state_after(seed, 0) == seed,
{
    lemma_small_mod(seed as nat, 0x1_0000_0000_0000_0000nat);
}

} // verus!
