//! Pollard's rho and perfect-power detection over `dashu-int`: the walk runs
//! in a `dashu-int` Montgomery ring, whose values are handed in and out as
//! residues.
use dashu_base::BitTest as _;
use dashu_int::{monty::MontgomeryRepr, UBig};
use num_integer::Integer;
use num_traits::ToPrimitive as _;
use vstd::prelude::*;
use vstd::arithmetic::power::pow;
use vstd::arithmetic::power2::{pow2, lemma_pow2_strictly_increases, lemma_pow2_pos};
use crate::natural::{Natural, bytes_value};
use crate::walk::ring_splits_at;
use crate::convert::{BitTest, Narrow, byte_or_zero, lemma_bytes_from_chunk};
use crate::arith::{
    gcd, lemma_gcd_proper_divisor, is_least_power, no_power_below, not_a_perfect_power,
    has_small_factor, lemma_root_unique, lemma_composite_exponent, lemma_small_value_no_power,
    lemma_composite_factor, lemma_extend_no_power,
};

verus! {

#[verifier::external_type_specification]
#[verifier::external_body]
pub struct ExMontgomeryRepr(MontgomeryRepr);

/// A `dashu-int` Montgomery ring for an odd modulus above one, together with
/// the modulus it was made from.
///
/// The fields are private and `new` is the only constructor, so `ring` is
/// always the ring of `n`. The ring itself is opaque to the proofs: the
/// contracts of the arithmetic methods, which state their results modulo
/// `n`, rest on that tie, which no clause can state.
pub(crate) struct MontyRing {
    ring: MontgomeryRepr,
    n: Natural,
}

/// The Montgomery ring of `n`, from `MontgomeryRepr::new`, which panics unless
/// `n` is odd and above one.
#[verifier::external_body]
fn monty_repr(n: &Natural) -> MontgomeryRepr
    requires
        n@ % 2 == 1,
        n@ > 1,
{
    MontgomeryRepr::new(UBig::from_le_bytes(&n.bytes))
}

impl MontyRing {
    /// The modulus.
    pub(crate) closed spec fn modulus(&self) -> nat {
        self.n@
    }

    /// The ring modulo the odd `n`, which must be larger than one.
    pub(crate) fn new(n: &Natural) -> (r: Self)
        requires
            n@ % 2 == 1,
            n@ > 1,
        ensures
            r.modulus() == n@,
    {
        let ring = monty_repr(n);
        MontyRing { ring, n: n.copy() }
    }

    /// `x mod n`: `x` enters the ring through `MontgomeryRepr::reduce` and
    /// leaves it through `Montgomery::residue`. The ring was made from `n`
    /// (`new` is the only constructor), so the residue is taken modulo `n`.
    #[verifier::external_body]
    pub(crate) fn reduce(&self, x: &Natural) -> (r: Natural)
        ensures
            r@ == x@ % self.modulus(),
    {
        let v = self.ring.reduce(UBig::from_le_bytes(&x.bytes));
        Natural { bytes: v.residue().to_le_bytes().into_vec() }
    }

    /// `a * b mod n`, by `Montgomery`'s `*` on the reduced operands.
    #[verifier::external_body]
    pub(crate) fn mul(&self, a: &Natural, b: &Natural) -> (r: Natural)
        ensures
            r@ == (a@ * b@) % self.modulus(),
    {
        let x = self.ring.reduce(UBig::from_le_bytes(&a.bytes));
        let y = self.ring.reduce(UBig::from_le_bytes(&b.bytes));
        Natural { bytes: (&x * &y).residue().to_le_bytes().into_vec() }
    }

    /// `a - b mod n`, by `Montgomery`'s `-` on the reduced operands.
    #[verifier::external_body]
    pub(crate) fn sub(&self, a: &Natural, b: &Natural) -> (r: Natural)
        ensures
            r@ == (a@ - b@) % (self.modulus() as int),
    {
        let x = self.ring.reduce(UBig::from_le_bytes(&a.bytes));
        let y = self.ring.reduce(UBig::from_le_bytes(&b.bytes));
        Natural { bytes: (&x - &y).residue().to_le_bytes().into_vec() }
    }

    /// `a + b mod n`, by `Montgomery`'s `+` on the reduced operands.
    #[verifier::external_body]
    pub(crate) fn add(&self, a: &Natural, b: &Natural) -> (r: Natural)
        ensures
            r@ == (a@ + b@) % self.modulus(),
    {
        let x = self.ring.reduce(UBig::from_le_bytes(&a.bytes));
        let y = self.ring.reduce(UBig::from_le_bytes(&b.bytes));
        Natural { bytes: (&x + &y).residue().to_le_bytes().into_vec() }
    }

    /// `a^2 mod n`, by `Montgomery::sqr` on the reduced operand.
    #[verifier::external_body]
    pub(crate) fn sqr(&self, a: &Natural) -> (r: Natural)
        ensures
            r@ == (a@ * a@) % self.modulus(),
    {
        let x = self.ring.reduce(UBig::from_le_bytes(&a.bytes));
        Natural { bytes: x.sqr().residue().to_le_bytes().into_vec() }
    }
}

/// The greatest common divisor, from `num_integer::Integer::gcd` on `UBig`,
/// which panics when both are zero.
#[verifier::external_body]
fn ubig_gcd(a: &Natural, b: &Natural) -> (r: Natural)
    requires
        a@ > 0 || b@ > 0,
    ensures
        r@ == gcd(a@, b@),
{
    let g = UBig::from_le_bytes(&a.bytes).gcd(&UBig::from_le_bytes(&b.bytes));
    Natural { bytes: g.to_le_bytes().into_vec() }
}

/// Whether `x` is one, from `UBig::is_one`.
#[verifier::external_body]
fn ubig_is_one(x: &Natural) -> (r: bool)
    ensures
        r == (x@ == 1),
{
    UBig::from_le_bytes(&x.bytes).is_one()
}

/// Whether `a` and `b` are the same number, from `UBig`'s `==`.
#[verifier::external_body]
fn ubig_eq(a: &Natural, b: &Natural) -> (r: bool)
    ensures
        r == (a@ == b@),
{
    UBig::from_le_bytes(&a.bytes) == UBig::from_le_bytes(&b.bytes)
}

/// The number of bits of `x`, from `dashu_base::BitTest::bit_len`: the least
/// `b` with `x < 2^b`.
#[verifier::external_body]
fn ubig_bit_len(x: &Natural) -> (r: usize)
    ensures
        x@ < pow2(r as nat),
        r == 0 || pow2((r - 1) as nat) <= x@,
{
    UBig::from_le_bytes(&x.bytes).bit_len()
}

/// The truncated `n`-th root of a positive `x`, from `UBig::nth_root`, which
/// panics for `n == 0`. Zero is left out: for `n >= 3` that function answers
/// one for it, by its shortcut for numbers of at most `n` bits.
#[verifier::external_body]
fn ubig_nth_root(x: &Natural, n: usize) -> (r: Natural)
    requires
        n >= 1,
        x@ > 0,
    ensures
        pow(r@ as int, n as nat) <= x@ < pow(r@ as int + 1, n as nat),
{
    Natural { bytes: UBig::from_le_bytes(&x.bytes).nth_root(n).to_le_bytes().into_vec() }
}

/// `x^e`, from `UBig::pow`.
#[verifier::external_body]
fn ubig_pow(x: &Natural, e: usize) -> (r: Natural)
    ensures
        r@ == pow(x@ as int, e as nat),
{
    Natural { bytes: UBig::from_le_bytes(&x.bytes).pow(e).to_le_bytes().into_vec() }
}

/// One step `x -> x^2 + c` of the walk modulo `n`.
pub open spec fn rho_next(n: nat, x: nat, c: nat) -> nat {
    (x * x + c) % n
}

/// One round of the walk modulo `n` on the state
/// `(tortoise, hare, product, c, steps)`. Walkers that have met restart at 2
/// under the next constant; the product takes on the difference of the
/// walkers unless that would make it zero; the tortoise takes one step and
/// the hare two; the step count runs modulo the batch size 128.
pub open spec fn rho_round(n: nat, s: (nat, nat, nat, nat, nat)) -> (nat, nat, nat, nat, nat) {
    let (t0, h0, prod, c0, steps) = s;
    let t = if t0 == h0 { 2nat % n } else { t0 };
    let h = if t0 == h0 { 2nat % n } else { h0 };
    let c = if t0 == h0 { c0 + 1 } else { c0 };
    let next = ((prod * (t - h)) % (n as int)) as nat;
    let prod1 = if next != 0 { next } else { prod };
    let steps1 = if steps + 1 == 128 { 0 } else { steps + 1 };
    (rho_next(n, t, c), rho_next(n, rho_next(n, h, c), c), prod1, c, steps1)
}

/// What the walk from state `s` finds within `rounds` more rounds: at the
/// first end of a batch where the product's gcd with `n` is not one, that
/// gcd.
pub open spec fn rho_from(n: nat, s: (nat, nat, nat, nat, nat), rounds: nat) -> Option<nat>
    decreases rounds,
{
    if rounds == 0 {
        None
    } else {
        let s1 = rho_round(n, s);
        if s1.4 == 0 && gcd(s1.2, n) != 1 {
            Some(gcd(s1.2, n))
        } else {
            rho_from(n, s1, (rounds - 1) as nat)
        }
    }
}

/// What Pollard's rho finds for `n`: both walkers start at 2 and the product
/// at 1, with constant 1 and at most `u64::MAX - 1` rounds.
pub open spec fn rho_outcome(n: nat) -> Option<nat> {
    rho_from(n, (2nat % n, 2nat % n, 1, 1, 0), (u64::MAX - 1) as nat)
}

/// Pollard's rho with cycle detection by a tortoise and a hare, over the
/// `dashu-int` Montgomery ring of `n`.
///
/// Both walkers start at 2; their differences accumulate into a product whose
/// gcd with `n` is taken once per batch of 128 steps. A difference that
/// vanishes leaves the product as it was, so the product stays a residue in
/// `(0, n)` and a gcd that is not one is a proper divisor. When the walkers
/// meet, the polynomial constant `c` of `x -> x^2 + c` moves on.
///
/// The search is not bounded by anything the algorithm knows of; it gives up
/// only after `u64::MAX - 1` steps, reporting `None`.
pub fn rho(n: &Natural) -> (r: Option<Natural>)
    requires
        n@ % 2 == 1,
        n@ > 1,
    ensures
        match rho_outcome(n@) {
            Some(d) => r matches Some(x) && x@ == d,
            None => r is None,
        },
        r matches Some(d) ==> 1 < d@ < n@ && n@ % d@ == 0,
        r is None ==> forall|k: nat| 1 <= k <= u64::MAX - 1 ==> !#[trigger] ring_splits_at(n@, k),
{
    let ring = MontyRing::new(n);
    let one = ring.reduce(&Natural::from_u64(1));
    let start = ring.reduce(&Natural::from_u64(2));
    let zero = ring.reduce(&Natural::from_u64(0));
    proof {
        vstd::arithmetic::div_mod::lemma_small_mod(1, n@);
        vstd::arithmetic::div_mod::lemma_small_mod(0, n@);
    }
    let mut tortoise = start.copy();
    let mut hare = start.copy();
    let mut prod = one;
    let mut c: u64 = 1;
    let mut add = ring.reduce(&Natural::from_u64(c));
    let mut steps: usize = 0;
    let mut rounds: u64 = 0;
    let ghost nn = n@;
    let ghost bound: nat = (u64::MAX - 1) as nat;
    let ghost mut st: (nat, nat, nat, nat, nat) = (start@, start@, 1, 1, 0);
    proof {
        crate::walk::lemma_ring_walk_step(nn, 0);
    }
    while rounds < u64::MAX - 1
        invariant
            ring.modulus() == n@,
            nn == n@,
            n@ > 1,
            zero@ == 0,
            start@ == 2nat % nn,
            add@ == c as nat % nn,
            0 < prod@ < n@,
            1 <= c <= rounds + 1,
            steps < 128,
            bound == u64::MAX - 1,
            rounds <= bound,
            st == (tortoise@, hare@, prod@, c as nat, steps as nat),
            rho_outcome(nn) == rho_from(nn, st, (bound - rounds) as nat),
            st == crate::walk::ring_walk(nn, rounds as nat),
            forall|k: nat| 1 <= k <= rounds ==> !#[trigger] ring_splits_at(nn, k),
        decreases u64::MAX - rounds,
    {
        let ghost st0 = st;
        let ghost s1 = rho_round(nn, st0);
        proof {
            crate::walk::lemma_ring_walk_step(nn, rounds as nat);
        }
        if ubig_eq(&tortoise, &hare) {
            // The sequence cycled without splitting n: start over under the
            // next polynomial, keeping what prod holds.
            c = c + 1;
            add = ring.reduce(&Natural::from_u64(c));
            tortoise = start.copy();
            hare = start.copy();
        }
        let ghost t_val = tortoise@;
        let ghost h_val = hare@;
        let next = ring.mul(&prod, &ring.sub(&tortoise, &hare));
        proof {
            vstd::arithmetic::div_mod::lemma_mul_mod_noop_right(
                prod@ as int,
                t_val - h_val,
                nn as int,
            );
        }
        if !ubig_eq(&next, &zero) {
            prod = next;
        }
        // The tortoise takes one step, the hare two.
        tortoise = ring.add(&ring.sqr(&tortoise), &add);
        proof {
            vstd::arithmetic::div_mod::lemma_add_mod_noop(
                (t_val * t_val) as int,
                c as int,
                nn as int,
            );
        }
        let ghost h_mid = rho_next(nn, h_val, c as nat);
        proof {
            vstd::arithmetic::div_mod::lemma_add_mod_noop(
                (h_val * h_val) as int,
                c as int,
                nn as int,
            );
            vstd::arithmetic::div_mod::lemma_add_mod_noop(
                (h_mid * h_mid) as int,
                c as int,
                nn as int,
            );
        }
        hare = ring.add(&ring.sqr(&ring.add(&ring.sqr(&hare), &add)), &add);
        steps = steps + 1;
        if steps == 128 {
            steps = 0;
            let g = ubig_gcd(&prod, n);
            if !ubig_is_one(&g) {
                proof {
                    lemma_gcd_proper_divisor(prod@, n@);
                    assert(s1.4 == 0);
                }
                return Some(g);
            }
        }
        proof {
            st = (tortoise@, hare@, prod@, c as nat, steps as nat);
            assert(st == s1);
            assert(!ring_splits_at(nn, (rounds + 1) as nat));
        }
        rounds = rounds + 1;
    }
    None
}

/// If `x` is a perfect power, its root and the least prime exponent.
///
/// Pollard's rho needs about `sqrt(p)` iterations to split `p^k`, which is
/// hopeless for a large `p`, so these are peeled off beforehand. A perfect
/// power is a perfect power for a prime exponent too, so composite exponents
/// are skipped.
pub fn perfect_power(x: &Natural) -> (r: Option<(Natural, u32)>)
    requires
        x@ < pow2(u32::MAX as nat),
    ensures
        match r {
            Some((root, e)) => is_least_power(x@, root@, e as nat),
            None => not_a_perfect_power(x@),
        },
{
    let bit_len = ubig_bit_len(x);
    proof {
        if bit_len > u32::MAX {
            lemma_pow2_strictly_increases(u32::MAX as nat, (bit_len - 1) as nat);
        }
    }
    let bits = bit_len as u32;
    let mut e: u64 = 2;
    while e <= bits as u64
        invariant
            2 <= e <= bits as u64 + 2,
            bits <= u32::MAX,
            x@ < pow2(bits as nat),
            bits == 0 || pow2((bits - 1) as nat) <= x@,
            no_power_below(x@, e as nat),
        decreases bits as u64 + 2 - e,
    {
        proof {
            lemma_pow2_pos((bits - 1) as nat);
        }
        if has_small_factor(e) {
            proof {
                lemma_composite_factor(e as nat);
                let d = choose|d: nat| 2 <= d < e && #[trigger] (e as nat % d) == 0;
                lemma_composite_exponent(x@, e as nat, d);
                lemma_extend_no_power(x@, e as nat);
            }
            e = e + 1;
            continue;
        }
        let root = ubig_nth_root(x, e as usize);
        if ubig_is_one(&root) {
            proof {
                lemma_small_value_no_power(x@, e as nat);
            }
            return None;
        }
        if ubig_eq(&ubig_pow(&root, e as usize), x) {
            proof {
                if root@ == 0 {
                    vstd::arithmetic::power::lemma0_pow(e as nat);
                }
            }
            return Some((root, e as u32));
        }
        proof {
            assert forall|s: nat| s >= 2 implies #[trigger] pow(s as int, e as nat) != x@ by {
                if pow(s as int, e as nat) == x@ {
                    lemma_root_unique(x@, e as nat, root@, s);
                }
            }
            lemma_extend_no_power(x@, e as nat);
        }
        e = e + 1;
    }
    proof {
        vstd::arithmetic::power::lemma_pow_positive(2, bits as nat);
        lemma_small_value_no_power(x@, bits as nat);
    }
    None
}

/// A non-trivial divisor of the odd composite `n`, or the factorization of a
/// perfect power as `(root, exponent)`.
pub enum Split {
    Divisor(Natural),
    Power(Natural, u32),
}

/// Split the odd `n`: a perfect power into its root and least prime
/// exponent, anything else by Pollard's rho. `None` only when rho gave up.
pub fn divisor(n: &Natural) -> (r: Option<Split>)
    requires
        n@ % 2 == 1,
        n@ > 1,
        n@ < pow2(u32::MAX as nat),
    ensures
        match r {
            Some(Split::Power(root, e)) => is_least_power(n@, root@, e as nat),
            Some(Split::Divisor(d)) => {
                &&& 1 < d@ < n@
                &&& n@ % d@ == 0
                &&& not_a_perfect_power(n@)
                &&& rho_outcome(n@) matches Some(e) && e == d@
            },
            None => {
                &&& not_a_perfect_power(n@)
                &&& rho_outcome(n@) is None
                &&& forall|k: nat| 1 <= k <= u64::MAX - 1 ==> !#[trigger] ring_splits_at(n@, k)
            },
        },
{
    match perfect_power(n) {
        Some((root, exp)) => Some(Split::Power(root, exp)),
        None => match rho(n) {
            Some(d) => Some(Split::Divisor(d)),
            None => None,
        },
    }
}

/// `x` as a `u64` when it fits, from `num_traits::ToPrimitive::to_u64` on
/// `UBig`.
#[verifier::external_body]
fn ubig_to_u64(x: &Natural) -> (r: Option<u64>)
    ensures
        r is Some <==> x@ <= u64::MAX,
        r matches Some(v) ==> v == x@,
{
    UBig::from_le_bytes(&x.bytes).to_u64()
}

/// Widen an arbitrary integer into a [`Natural`], bit by bit.
pub fn to_ubig<T: BitTest>(x: &T) -> (r: Natural)
    requires
        x.bit_value() < pow2((usize::MAX - 7) as nat),
    ensures
        r@ == x.bit_value(),
{
    Natural::from_bits(x)
}

/// Narrow a [`Natural`] back into the caller's integer type, which must hold
/// it: directly when it fits a `u64`, else 32-bit digit by digit from the top
/// of its little-endian bytes, the top digit padded with zero bytes.
pub fn from_ubig<T: Narrow>(x: &Natural) -> (r: T)
    requires
        T::holds(x@),
    ensures
        r.narrow_value() == x@,
{
    // fast path: the value fits a u64
    if let Some(v) = ubig_to_u64(x) {
        return T::from_u64(v).unwrap();
    }
    proof {
        T::lemma_holds_down(x@, 0x1_0000_0000);
        assert((1u128 << 32) == 0x1_0000_0000) by (bit_vector);
    }
    let shift = T::from_u128(1u128 << 32).unwrap();
    let bytes = &x.bytes;
    let len = bytes.len();
    let mut k = len / 4 + if len % 4 != 0 { 1 } else { 0 };
    let mut acc = T::zero();
    proof {
        let top = if 4 * k <= len { 4 * k } else { len as int };
        assert(top == len);
        assert(bytes@.subrange(len as int, len as int).len() == 0);
        assert(bytes_value(bytes@.subrange(len as int, len as int)) == 0);
    }
    while k > 0
        invariant
            4 * k <= len + 3,
            len == bytes@.len(),
            x@ == bytes_value(bytes@),
            T::holds(x@),
            shift.narrow_value() == 0x1_0000_0000,
            acc.narrow_value() == bytes_value(
                bytes@.subrange(if 4 * k <= len { 4 * k } else { len as int }, len as int),
            ),
        decreases k,
    {
        k = k - 1;
        let start = 4 * k;
        let b0: u32 = if start < len { bytes[start] as u32 } else { 0 };
        let b1: u32 = if start + 1 < len { bytes[start + 1] as u32 } else { 0 };
        let b2: u32 = if start + 2 < len { bytes[start + 2] as u32 } else { 0 };
        let b3: u32 = if start + 3 < len { bytes[start + 3] as u32 } else { 0 };
        let digit = b0 + b1 * 0x100 + b2 * 0x1_0000 + b3 * 0x100_0000;
        proof {
            lemma_bytes_from_chunk(bytes@, start as int);
            assert(b0 == byte_or_zero(bytes@, start as int));
            assert(b1 == byte_or_zero(bytes@, start + 1));
            assert(b2 == byte_or_zero(bytes@, start + 2));
            assert(b3 == byte_or_zero(bytes@, start + 3));
            let here = bytes_value(bytes@.subrange(start as int, len as int));
            crate::convert::lemma_bytes_suffix_le(bytes@, start as int);
            T::lemma_holds_down(x@, here);
            T::lemma_holds_down(x@, acc.narrow_value() * 0x1_0000_0000);
            T::lemma_holds_down(x@, digit as nat);
            vstd::arithmetic::mul::lemma_mul_is_commutative(acc.narrow_value() as int, 0x1_0000_0000);
        }
        let d = T::from_u32(digit).unwrap();
        acc = acc.times(&shift).plus(&d);
    }
    proof {
        assert(bytes@.subrange(0, len as int) =~= bytes@);
    }
    acc
}

} // verus!
