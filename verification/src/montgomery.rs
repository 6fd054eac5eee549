//! Montgomery arithmetic modulo an odd number held as little-endian 64-bit
//! limbs, and Pollard's rho over it.
use num_bigint::BigUint;
use num_integer::Integer;
use num_traits::One;
use vstd::prelude::*;
use vstd::arithmetic::div_mod::*;
use vstd::arithmetic::mul::*;
use crate::redc::{
    redc, lemma_redc_quotient_is, lemma_redc_props, lemma_word_pow_is_pow2,
    lemma_odd_divides_pow2_multiple,
};
use crate::natural::{Natural, byte_pow, bytes_value, push_limb, lemma_byte_pow_word};
use crate::convert::{BitTest, Narrow, digits32_value, horner32};
use crate::walk::limb_splits_at;
use crate::arith::{
    gcd, lemma_gcd_proper_divisor, is_least_power, no_power_below, not_a_perfect_power,
    has_small_factor, lemma_root_unique, lemma_composite_exponent, lemma_small_value_no_power,
    lemma_composite_factor, lemma_extend_no_power,
};
use vstd::arithmetic::power::pow;
use vstd::arithmetic::power2::{pow2, lemma_pow2_strictly_increases};
use crate::limbs::{
    word, word_pow, limbs_value, prefix_value, lemma_word_pow_pos, lemma_word_pow_succ,
    lemma_prefix_step, lemma_prefix_full, lemma_prefix_zero, lemma_prefix_update,
    lemma_prefix_agree, lemma_limbs_value_bound, lemma_prefix_bound, lemma_prefix_compare,
    lemma_u128_split, lemma_word_pow_adds, lemma_mul_lt, lemma_prefix_is_mod,
    lemma_zero_extension, lemma_parity_low_limb, lemma_limbs_split, lemma_word_pow_mono,
};

verus! {

proof fn lemma_mod_of_mod_word(a: int, p: int)
    requires
        p > 0,
        (word() as int) % p == 0,
    ensures
        (a % (word() as int)) % p == a % p,
{
    let w = (word() as int) / p;
    lemma_fundamental_div_mod((word() as int), p);
    assert((word() as int) == p * w);
    assert(w > 0) by (nonlinear_arith)
        requires
            (word() as int) == p * w,
            p > 0,
    ;
    lemma_mod_mod(a, p, w);
}

proof fn lemma_binv_seed(x: u64)
    requires
        x % 2 == 1,
    ensures
        (x as int * x as int) % 8 == 1,
{
    assert(x & 1 == 1) by (bit_vector)
        requires
            x % 2 == 1,
    ;
    assert(((x * x) as u64) & 7 == 1) by (bit_vector)
        requires
            x & 1 == 1,
    ;
    assert(((x * x) as u64) as int == (x as int * x as int) % (word() as int)) by (bit_vector);
    assert((((x * x) as u64) & 7) as int == ((x * x) as u64) as int % 8) by (bit_vector);
    lemma_mod_of_mod_word(x as int * x as int, 8);
}

proof fn lemma_binv_step(x: u64, y: u64, p: int, p2: int)
    requires
        p > 0,
        p2 > 1,
        (word() as int) % p == 0,
        (word() as int) % p2 == 0,
        (p * p) % p2 == 0,
        (x as int * y as int) % p == 1,
    ensures
        (x as int * y.wrapping_mul(2u64.wrapping_sub(x.wrapping_mul(y))) as int) % p2 == 1,
{
    let m = (word() as int);
    let xi = x as int;
    let yi = y as int;
    let e = x.wrapping_mul(y) as int;
    assert(e == (xi * yi) % m);
    let t = 2u64.wrapping_sub(x.wrapping_mul(y)) as int;
    let y1 = y.wrapping_mul(2u64.wrapping_sub(x.wrapping_mul(y))) as int;
    assert(y1 == (yi * t) % m);
    assert(t == 2 - e || t == 2 - e + m);
    // x * y1 == x * y * t (mod p2)
    lemma_mod_of_mod_word(yi * t, p2);
    lemma_mul_mod_noop_right(xi, y1, p2);
    lemma_mul_mod_noop_right(xi, yi * t, p2);
    assert((xi * y1) % p2 == (xi * (yi * t)) % p2);
    lemma_mul_is_associative(xi, yi, t);
    // x * y == e (mod p2), t == 2 - e (mod p2)
    lemma_mod_of_mod_word(xi * yi, p2);
    let w2 = m / p2;
    lemma_fundamental_div_mod(m, p2);
    assert(t % p2 == (2 - e) % p2) by {
        if t != 2 - e {
            lemma_mod_multiples_vanish(w2, 2 - e, p2);
        }
    }
    lemma_mul_mod_noop(xi * yi, t, p2);
    lemma_mul_mod_noop(e, 2 - e, p2);
    assert((xi * y1) % p2 == (e * (2 - e)) % p2);
    // e == 1 (mod p)
    lemma_mod_of_mod_word(xi * yi, p);
    assert(e % p == 1);
    let s = e / p;
    lemma_fundamental_div_mod(e, p);
    assert(e == p * s + 1);
    assert(e * (2 - e) == 1 - (p * p) * (s * s)) by (nonlinear_arith)
        requires
            e == p * s + 1,
    ;
    let w = (p * p) / p2;
    lemma_fundamental_div_mod(p * p, p2);
    assert(1 - (p * p) * (s * s) == p2 * (-(w * (s * s))) + 1) by (nonlinear_arith)
        requires
            p * p == p2 * w,
    ;
    lemma_mod_multiples_vanish(-(w * (s * s)), 1, p2);
    lemma_small_mod(1, p2 as nat);
}

/// The inverse of an odd word modulo 2^64, by Newton's iteration.
///
/// An odd `x` is its own inverse modulo 8, and each step doubles the number
/// of correct low bits: 3, 6, 12, 24, 48, then all 64.
pub fn binv(x: u64) -> (y: u64)
    requires
        x % 2 == 1,
    ensures
        (x as int * y as int) % (word() as int) == 1,
{
    let mut y = x;
    let ghost mut p: int = 8;
    proof {
        lemma_binv_seed(x);
    }
    let mut i: u32 = 0;
    while i < 5
        invariant
            i <= 5,
            p == if i == 0 { 8int } else if i == 1 { 64int } else if i == 2 { 4096int } else if i == 3 {
                0x100_0000int
            } else if i == 4 {
                0x1_0000_0000_0000int
            } else {
                (word() as int)
            },
            (x as int * y as int) % p == 1,
        decreases 5 - i,
    {
        let ghost p2: int = if i < 4 { p * p } else { (word() as int) };
        proof {
            assert((p * p) % p2 == 0) by {
                if i < 4 {
                    lemma_mod_self_0(p * p);
                } else {
                    assert(p * p == (word() as int) * 0x1_0000_0000);
                    lemma_mod_multiples_basic(0x1_0000_0000, (word() as int));
                    lemma_mul_is_commutative(0x1_0000_0000, (word() as int));
                }
            }
            lemma_binv_step(x, y, p, p2);
        }
        y = y.wrapping_mul(2u64.wrapping_sub(x.wrapping_mul(y)));
        proof {
            p = p2;
        }
        i = i + 1;
    }
    y
}



/// Montgomery arithmetic modulo an odd `n`, held as little-endian 64-bit limbs.
///
/// Values are residues held in as many limbs as `n`; [`Montgomery::mulredc`]
/// computes `lhs * rhs * R^-1 mod n` rather than `lhs * rhs mod n`, where
/// `R = 2^(64 * limbs)`.
pub struct Montgomery {
    n: Vec<u64>,
    /// `-n^-1 mod 2^64`
    n0inv: u64,
}

impl Montgomery {
    /// The modulus.
    pub closed spec fn modulus(&self) -> nat {
        limbs_value(self.n@)
    }

    /// The number of limbs of the modulus, and of every value.
    pub closed spec fn limb_count(&self) -> nat {
        self.n@.len()
    }

    /// The Montgomery radix `R = 2^(64 * limb_count)`.
    pub open spec fn radix(&self) -> nat {
        word_pow(self.limb_count())
    }

    /// The modulus is odd, larger than one, and `n0inv` is `-n^-1 mod 2^64`.
    pub closed spec fn wf(&self) -> bool {
        &&& self.n@.len() >= 1
        &&& self.n@.last() != 0
        &&& self.n@[0] % 2 == 1
        &&& limbs_value(self.n@) > 1
        &&& (self.n@[0] as int * self.n0inv as int + 1) % (word() as int) == 0
    }

    /// What holds of every well-formed context.
    pub proof fn lemma_wf(&self)
        requires
            self.wf(),
        ensures
            self.limb_count() >= 1,
            self.modulus() % 2 == 1,
            1 < self.modulus() < self.radix(),
    {
        lemma_limbs_value_bound(self.n@);
        lemma_odd_low_limb(self.n@);
    }

    pub fn len(&self) -> (r: usize)
        ensures
            r == self.limb_count(),
    {
        self.n.len()
    }

    /// Whether `x`, extended with `high` as its most significant limb, is `>= n`.
    pub fn geq(&self, x: &[u64], high: u64) -> (r: bool)
        requires
            self.wf(),
            x@.len() == self.limb_count(),
        ensures
            r == (limbs_value(x@) + high as nat * self.radix() >= self.modulus()),
    {
        let len = self.n.len();
        proof {
            lemma_limbs_value_bound(self.n@);
        }
        if high != 0 {
            proof {
                lemma_mul_increases(high as int, self.radix() as int);
            }
            return true;
        }
        assert(high as nat * self.radix() == 0);
        let mut i = len;
        while i > 0
            invariant
                i <= len,
                len == self.n@.len(),
                x@.len() == len,
                high == 0,
                forall|m: int| i <= m < len ==> x@[m] == self.n@[m],
            decreases i,
        {
            i = i - 1;
            if x[i] != self.n[i] {
                proof {
                    lemma_prefix_full(x@);
                    lemma_prefix_full(self.n@);
                    if x@[i as int] > self.n@[i as int] {
                        lemma_prefix_compare(x@, self.n@, i as int, len as int);
                    } else {
                        lemma_prefix_compare(self.n@, x@, i as int, len as int);
                    }
                    assert(high as nat * self.radix() == 0);
                }
                return x[i] > self.n[i];
            }
        }
        proof {
            assert(x@ =~= self.n@);
        }
        true
    }

    /// `x -= n`, dropping the borrow out of the most significant limb.
    pub fn sub_n(&self, x: &mut Vec<u64>)
        requires
            self.wf(),
            old(x)@.len() == self.limb_count(),
        ensures
            final(x)@.len() == self.limb_count(),
            limbs_value(final(x)@) == if limbs_value(old(x)@) >= self.modulus() {
                limbs_value(old(x)@) - self.modulus()
            } else {
                limbs_value(old(x)@) + self.radix() - self.modulus()
            },
    {
        let len = self.n.len();
        let ghost x0 = x@;
        let mut borrow: u64 = 0;
        let mut j: usize = 0;
        proof {
            lemma_prefix_zero(x@);
            lemma_prefix_zero(self.n@);
            lemma_prefix_zero(x0);
        }
        while j < len
            invariant
                j <= len,
                len == self.n@.len(),
                x@.len() == len,
                x0.len() == len,
                borrow <= 1,
                forall|k: int| j <= k < len ==> x@[k] == x0[k],
                prefix_value(x@, j as int) + prefix_value(self.n@, j as int) == prefix_value(
                    x0,
                    j as int,
                ) + borrow as nat * word_pow(j as nat),
            decreases len - j,
        {
            let a = x[j];
            let b = self.n[j];
            let b1 = a < b;
            let d = a.wrapping_sub(b);
            let b2 = d < borrow;
            let d2 = d.wrapping_sub(borrow);
            let bout: u64 = if b1 || b2 { 1 } else { 0 };
            proof {
                assert(d2 as int + b as int + borrow as int == a as int + bout as int * word());
                lemma_prefix_step(x@.update(j as int, d2), j as int);
                lemma_prefix_update(x@, j as int, j as int, d2);
                lemma_prefix_step(self.n@, j as int);
                lemma_prefix_step(x0, j as int);
                lemma_word_pow_succ(j as nat);
                lemma_limb_step(
                    prefix_value(x@, j as int) as int,
                    prefix_value(self.n@, j as int) as int,
                    prefix_value(x0, j as int) as int,
                    word_pow(j as nat) as int,
                    d2 as int,
                    b as int,
                    a as int,
                    borrow as int,
                    bout as int,
                );
            }
            x[j] = d2;
            borrow = bout;
            j = j + 1;
        }
        proof {
            lemma_prefix_full(x@);
            lemma_prefix_full(self.n@);
            lemma_prefix_full(x0);
            lemma_limbs_value_bound(x@);
            let r = word_pow(len as nat);
            assert(limbs_value(x@) + self.modulus() == limbs_value(x0) + borrow as nat * r);
            if borrow == 0 {
                assert(borrow as nat * r == 0);
            } else {
                assert(borrow as nat * r == r);
            }
        }
    }
}


impl Montgomery {
    /// The value after the final conditional subtraction of `n` from a sum `s`
    /// held in as many limbs as `n` plus a carry.
    pub open spec fn reduce_once(&self, s: int) -> int {
        if s >= self.modulus() {
            (s - self.modulus()) % (self.radix() as int)
        } else {
            s
        }
    }

    proof fn lemma_reduce_once(&self, lo: nat, carry: nat, s: int, x1: nat)
        requires
            self.wf(),
            lo < self.radix(),
            carry <= 1,
            s == lo + carry * self.radix(),
            (lo + carry * self.radix() >= self.modulus()) ==> x1 == if lo >= self.modulus() {
                lo - self.modulus()
            } else {
                lo + self.radix() - self.modulus()
            },
            (lo + carry * self.radix() < self.modulus()) ==> x1 == lo,
        ensures
            x1 == self.reduce_once(s),
    {
        self.lemma_wf();
        let n = self.modulus() as int;
        let r = self.radix() as int;
        if s >= n {
            if carry == 0 {
                lemma_small_mod((s - n) as nat, r as nat);
            } else if lo >= n {
                lemma_mod_multiples_vanish(1, lo - n, r);
                lemma_small_mod((lo - n) as nat, r as nat);
            } else {
                lemma_small_mod((lo + r - n) as nat, r as nat);
            }
        } else {
            assert(carry == 0);
        }
    }

    /// For inputs below the modulus the single subtraction reduces fully.
    pub proof fn lemma_reduce_once_reduced(&self, s: int)
        requires
            self.wf(),
            0 <= s < 2 * self.modulus(),
        ensures
            self.reduce_once(s) == s % (self.modulus() as int),
    {
        self.lemma_wf();
        let n = self.modulus() as int;
        if s >= n {
            lemma_small_mod((s - n) as nat, self.radix());
            lemma_mod_multiples_vanish(1, s - n, n);
            lemma_small_mod((s - n) as nat, n as nat);
        } else {
            lemma_small_mod(s as nat, n as nat);
        }
    }

    /// `x = x + c mod n`, for `c` smaller than `n`.
    pub fn addc(&self, x: &mut Vec<u64>, c: u64)
        requires
            self.wf(),
            old(x)@.len() == self.limb_count(),
        ensures
            final(x)@.len() == self.limb_count(),
            limbs_value(final(x)@) == self.reduce_once(limbs_value(old(x)@) + c),
            limbs_value(old(x)@) < self.modulus() && c < self.modulus() ==> limbs_value(final(x)@)
                == (limbs_value(old(x)@) + c) % (self.modulus() as int),
    {
        let len = self.n.len();
        let ghost x0 = x@;
        let mut carry: u128 = c as u128;
        let mut j: usize = 0;
        proof {
            lemma_prefix_zero(x@);
            lemma_prefix_zero(x0);
            assert(word_pow(0) == 1);
        }
        while j < len
            invariant
                j <= len,
                len == self.n@.len(),
                x@.len() == len,
                x0.len() == len,
                carry < word(),
                forall|k: int| j <= k < len ==> x@[k] == x0[k],
                prefix_value(x@, j as int) + carry as nat * word_pow(j as nat) == prefix_value(
                    x0,
                    j as int,
                ) + c,
            decreases len - j,
        {
            let cur = x[j] as u128 + carry;
            let lo = cur as u64;
            proof {
                lemma_u128_split(cur);
                lemma_prefix_step(x@.update(j as int, lo), j as int);
                lemma_prefix_update(x@, j as int, j as int, lo);
                lemma_prefix_step(x0, j as int);
                lemma_word_pow_succ(j as nat);
                lemma_carry_step(
                    prefix_value(x@, j as int) as int,
                    prefix_value(x0, j as int) as int,
                    c as int,
                    word_pow(j as nat) as int,
                    lo as int,
                    x0[j as int] as int,
                    0,
                    carry as int,
                    (cur >> 64) as int,
                );
            }
            x[j] = lo;
            carry = cur >> 64;
            j = j + 1;
        }
        proof {
            lemma_prefix_full(x@);
            lemma_prefix_full(x0);
            lemma_limbs_value_bound(x@);
            lemma_limbs_value_bound(x0);
            self.lemma_wf();
            if carry > 1 {
                lemma_mul_inequality(2, carry as int, self.radix() as int);
            }
        }
        let ghost lo_val = limbs_value(x@);
        if self.geq(x.as_slice(), carry as u64) {
            self.sub_n(x);
        }
        proof {
            self.lemma_reduce_once(lo_val, carry as nat, limbs_value(x0) + c, limbs_value(x@));
            if limbs_value(x0) < self.modulus() && c < self.modulus() {
                self.lemma_reduce_once_reduced(limbs_value(x0) + c);
            }
        }
    }

    /// `out = lhs + rhs mod n`.
    pub fn add(&self, lhs: &[u64], rhs: &[u64], out: &mut Vec<u64>)
        requires
            self.wf(),
            lhs@.len() >= self.limb_count(),
            rhs@.len() >= self.limb_count(),
            old(out)@.len() == self.limb_count(),
        ensures
            final(out)@.len() == self.limb_count(),
            limbs_value(final(out)@) == self.reduce_once(
                prefix_value(lhs@, self.limb_count() as int) + prefix_value(
                    rhs@,
                    self.limb_count() as int,
                ) as int,
            ),
            prefix_value(lhs@, self.limb_count() as int) < self.modulus() && prefix_value(
                rhs@,
                self.limb_count() as int,
            ) < self.modulus() ==> limbs_value(final(out)@) == (prefix_value(
                lhs@,
                self.limb_count() as int,
            ) + prefix_value(rhs@, self.limb_count() as int) as int) % (self.modulus() as int),
    {
        let len = self.n.len();
        let mut carry: u128 = 0;
        let mut j: usize = 0;
        proof {
            lemma_prefix_zero(out@);
            lemma_prefix_zero(lhs@);
            lemma_prefix_zero(rhs@);
        }
        while j < len
            invariant
                j <= len,
                len == self.n@.len(),
                out@.len() == len,
                lhs@.len() >= len,
                rhs@.len() >= len,
                carry <= 1,
                prefix_value(out@, j as int) + carry as nat * word_pow(j as nat) == prefix_value(
                    lhs@,
                    j as int,
                ) + prefix_value(rhs@, j as int),
            decreases len - j,
        {
            let cur = lhs[j] as u128 + rhs[j] as u128 + carry;
            let lo = cur as u64;
            proof {
                lemma_u128_split(cur);
                lemma_prefix_step(out@.update(j as int, lo), j as int);
                lemma_prefix_update(out@, j as int, j as int, lo);
                lemma_prefix_step(lhs@, j as int);
                lemma_prefix_step(rhs@, j as int);
                lemma_word_pow_succ(j as nat);
                lemma_carry_step(
                    prefix_value(out@, j as int) as int,
                    prefix_value(lhs@, j as int) as int,
                    prefix_value(rhs@, j as int) as int,
                    word_pow(j as nat) as int,
                    lo as int,
                    lhs@[j as int] as int,
                    rhs@[j as int] as int,
                    carry as int,
                    (cur >> 64) as int,
                );
            }
            out[j] = lo;
            carry = cur >> 64;
            j = j + 1;
        }
        proof {
            lemma_prefix_full(out@);
            lemma_limbs_value_bound(out@);
            self.lemma_wf();
        }
        let ghost lo_val = limbs_value(out@);
        if self.geq(out.as_slice(), carry as u64) {
            self.sub_n(out);
        }
        proof {
            let s = prefix_value(lhs@, len as int) + prefix_value(rhs@, len as int) as int;
            self.lemma_reduce_once(lo_val, carry as nat, s, limbs_value(out@));
            if prefix_value(lhs@, len as int) < self.modulus() && prefix_value(rhs@, len as int)
                < self.modulus() {
                self.lemma_reduce_once_reduced(s);
            }
        }
    }

    /// `out = lhs - rhs mod n`.
    pub fn sub(&self, lhs: &[u64], rhs: &[u64], out: &mut Vec<u64>)
        requires
            self.wf(),
            lhs@.len() >= self.limb_count(),
            rhs@.len() >= self.limb_count(),
            old(out)@.len() == self.limb_count(),
        ensures
            final(out)@.len() == self.limb_count(),
            ({
                let d = prefix_value(lhs@, self.limb_count() as int) - prefix_value(
                    rhs@,
                    self.limb_count() as int,
                );
                limbs_value(final(out)@) == if d >= 0 {
                    d
                } else {
                    (d + self.modulus()) % (self.radix() as int)
                }
            }),
            prefix_value(lhs@, self.limb_count() as int) < self.modulus() && prefix_value(
                rhs@,
                self.limb_count() as int,
            ) < self.modulus() ==> limbs_value(final(out)@) == (prefix_value(
                lhs@,
                self.limb_count() as int,
            ) - prefix_value(rhs@, self.limb_count() as int)) % (self.modulus() as int),
    {
        let len = self.n.len();
        let mut borrow: u64 = 0;
        let mut j: usize = 0;
        proof {
            lemma_prefix_zero(out@);
            lemma_prefix_zero(lhs@);
            lemma_prefix_zero(rhs@);
        }
        while j < len
            invariant
                j <= len,
                len == self.n@.len(),
                out@.len() == len,
                lhs@.len() >= len,
                rhs@.len() >= len,
                borrow <= 1,
                prefix_value(out@, j as int) + prefix_value(rhs@, j as int) == prefix_value(
                    lhs@,
                    j as int,
                ) + borrow as nat * word_pow(j as nat),
            decreases len - j,
        {
            let a = lhs[j];
            let b = rhs[j];
            let b1 = a < b;
            let d = a.wrapping_sub(b);
            let b2 = d < borrow;
            let d2 = d.wrapping_sub(borrow);
            let bout: u64 = if b1 || b2 { 1 } else { 0 };
            proof {
                assert(d2 as int + b as int + borrow as int == a as int + bout as int * word());
                lemma_prefix_step(out@.update(j as int, d2), j as int);
                lemma_prefix_update(out@, j as int, j as int, d2);
                lemma_prefix_step(rhs@, j as int);
                lemma_prefix_step(lhs@, j as int);
                lemma_word_pow_succ(j as nat);
                lemma_limb_step(
                    prefix_value(out@, j as int) as int,
                    prefix_value(rhs@, j as int) as int,
                    prefix_value(lhs@, j as int) as int,
                    word_pow(j as nat) as int,
                    d2 as int,
                    b as int,
                    a as int,
                    borrow as int,
                    bout as int,
                );
            }
            out[j] = d2;
            borrow = bout;
            j = j + 1;
        }
        proof {
            lemma_prefix_full(out@);
            lemma_limbs_value_bound(out@);
            self.lemma_wf();
        }
        let ghost diff_val = limbs_value(out@);
        if borrow != 0 {
            let ghost o0 = out@;
            let mut carry: u128 = 0;
            let mut k: usize = 0;
            proof {
                lemma_prefix_zero(out@);
                lemma_prefix_zero(o0);
                lemma_prefix_zero(self.n@);
            }
            while k < len
                invariant
                    k <= len,
                    len == self.n@.len(),
                    out@.len() == len,
                    o0.len() == len,
                    carry <= 1,
                    forall|m: int| k <= m < len ==> out@[m] == o0[m],
                    prefix_value(out@, k as int) + carry as nat * word_pow(k as nat) == prefix_value(
                        o0,
                        k as int,
                    ) + prefix_value(self.n@, k as int),
                decreases len - k,
            {
                let cur = out[k] as u128 + self.n[k] as u128 + carry;
                let lo = cur as u64;
                proof {
                    lemma_u128_split(cur);
                    lemma_prefix_step(out@.update(k as int, lo), k as int);
                    lemma_prefix_update(out@, k as int, k as int, lo);
                    lemma_prefix_step(o0, k as int);
                    lemma_prefix_step(self.n@, k as int);
                    lemma_word_pow_succ(k as nat);
                    lemma_carry_step(
                        prefix_value(out@, k as int) as int,
                        prefix_value(o0, k as int) as int,
                        prefix_value(self.n@, k as int) as int,
                        word_pow(k as nat) as int,
                        lo as int,
                        o0[k as int] as int,
                        self.n@[k as int] as int,
                        carry as int,
                        (cur >> 64) as int,
                    );
                }
                out[k] = lo;
                carry = cur >> 64;
                k = k + 1;
            }
            proof {
                lemma_prefix_full(out@);
                lemma_prefix_full(o0);
                lemma_prefix_full(self.n@);
                lemma_limbs_value_bound(out@);
                let r = self.radix() as int;
                let d = prefix_value(lhs@, len as int) - prefix_value(rhs@, len as int);
                assert(diff_val == d + r);
                assert(d + self.modulus() == (carry as int - 1) * r + limbs_value(out@)) by (nonlinear_arith)
                    requires
                        limbs_value(out@) + carry as nat * r == diff_val + self.modulus(),
                        diff_val == d + r,
                ;
                lemma_fundamental_div_mod_converse_mod(
                    d + self.modulus(),
                    r,
                    carry as int - 1,
                    limbs_value(out@) as int,
                );
            }
        } else {
            proof {
                assert(diff_val == prefix_value(lhs@, len as int) - prefix_value(rhs@, len as int));
            }
        }
        proof {
            let d = prefix_value(lhs@, len as int) - prefix_value(rhs@, len as int);
            let n = self.modulus() as int;
            if prefix_value(lhs@, len as int) < self.modulus() && prefix_value(rhs@, len as int)
                < self.modulus() {
                if d >= 0 {
                    lemma_small_mod(d as nat, n as nat);
                } else {
                    lemma_small_mod((d + n) as nat, self.radix());
                    lemma_mod_multiples_vanish(1, d, n);
                    lemma_small_mod((d + n) as nat, n as nat);
                }
            }
        }
    }
}


impl Montgomery {
    /// Adding `b` undoes subtracting it and subtracting `b` undoes adding it,
    /// for residues `a` and `b` below the modulus: `add(sub(a, b), b) == a`
    /// and `sub(add(a, b), b) == a`, where both stay residues.
    pub proof fn lemma_add_sub_inverse(&self, a: nat, b: nat)
        requires
            self.wf(),
            a < self.modulus(),
            b < self.modulus(),
        ensures
            ({
                let n = self.modulus() as int;
                let d = (a - b) % n;
                &&& 0 <= d < n
                &&& (d + b) % n == a
            }),
            ({
                let n = self.modulus() as int;
                let s = (a + b) as int % n;
                &&& 0 <= s < n
                &&& (s - b) % n == a
            }),
    {
        self.lemma_wf();
        let n = self.modulus() as int;
        lemma_small_mod(a, n as nat);
        lemma_small_mod(b, n as nat);
        lemma_mod_bound(a - b, n);
        lemma_mod_bound((a + b) as int, n);
        lemma_add_mod_noop(a - b, b as int, n);
        lemma_mod_twice(a - b, n);
        assert((a - b) + b == a);
        lemma_sub_mod_noop((a + b) as int, b as int, n);
        lemma_mod_twice((a + b) as int, n);
        assert((a + b) - b == a);
    }
}

impl Montgomery {
    /// One row of the product: `acc[..len + 2] = acc[..len + 1] + lhs * r`.
    fn mul_row(&self, lhs: &[u64], r: u64, acc: &mut Vec<u64>)
        requires
            self.wf(),
            lhs@.len() >= self.limb_count(),
            old(acc)@.len() >= self.limb_count() + 2,
        ensures
            final(acc)@.len() == old(acc)@.len(),
            prefix_value(final(acc)@, (self.limb_count() + 2) as int) == prefix_value(
                old(acc)@,
                (self.limb_count() + 1) as int,
            ) + prefix_value(lhs@, self.limb_count() as int) * r,
    {
        let len = self.n.len();
        let alen = acc.len();
        let ghost acc0 = acc@;
        let r = r as u128;
        let mut carry: u128 = 0;
        let mut j: usize = 0;
        proof {
            lemma_prefix_zero(acc@);
            lemma_prefix_zero(lhs@);
            assert(word_pow(0) == 1);
        }
        while j < len
            invariant
                j <= len,
                len + 2 <= alen,
                acc@.len() == alen,
                acc0.len() == alen,
                lhs@.len() >= len,
                r < word(),
                carry < word(),
                forall|k: int| j <= k < alen ==> acc@[k] == acc0[k],
                prefix_value(acc@, j as int) + carry as nat * word_pow(j as nat) == prefix_value(
                    acc0,
                    j as int,
                ) + prefix_value(lhs@, j as int) * r,
            decreases len - j,
        {
            proof {
                lemma_mac_bound(acc@[j as int] as int, lhs@[j as int] as int, r as int, carry as int);
            }
            let cur = acc[j] as u128 + lhs[j] as u128 * r + carry;
            let lo = cur as u64;
            proof {
                lemma_u128_split(cur);
                lemma_prefix_step(acc@.update(j as int, lo), j as int);
                lemma_prefix_update(acc@, j as int, j as int, lo);
                lemma_prefix_step(acc0, j as int);
                lemma_prefix_step(lhs@, j as int);
                lemma_word_pow_succ(j as nat);
                lemma_mac_step(
                    prefix_value(acc@, j as int) as int,
                    prefix_value(acc0, j as int) as int,
                    prefix_value(lhs@, j as int) as int,
                    word_pow(j as nat) as int,
                    r as int,
                    lo as int,
                    acc0[j as int] as int,
                    lhs@[j as int] as int,
                    carry as int,
                    (cur >> 64) as int,
                );
            }
            acc[j] = lo;
            carry = cur >> 64;
            j = j + 1;
        }
        let cur = acc[len] as u128 + carry;
        let ghost acc_m = acc@;
        acc[len] = cur as u64;
        acc[len + 1] = (cur >> 64) as u64;
        proof {
            lemma_u128_split(cur);
            assert(cur as nat == acc0[len as int] as nat + carry as nat);
            assert((cur >> 64) < word());
            lemma_prefix_agree(acc@, acc_m, len as int);
            lemma_prefix_step(acc@, len as int);
            lemma_prefix_step(acc@, (len + 1) as int);
            lemma_prefix_step(acc0, len as int);
            lemma_word_pow_succ(len as nat);
            lemma_mac_top(
                prefix_value(acc_m, len as int) as int,
                prefix_value(acc0, len as int) as int,
                prefix_value(lhs@, len as int) as int,
                word_pow(len as nat) as int,
                r as int,
                carry as int,
                acc0[len as int] as int,
                (cur as u64) as int,
                (cur >> 64) as int,
            );
        }
    }

    /// One reduction step: add the multiple `q * n` that clears `acc[0]` and
    /// drop that limb, `acc[..len + 1] = (acc[..len + 2] + q * n) / 2^64`.
    fn redc_row(&self, acc: &mut Vec<u64>) -> (q: u64)
        requires
            self.wf(),
            old(acc)@.len() >= self.limb_count() + 2,
            prefix_value(old(acc)@, (self.limb_count() + 2) as int) + (word() - 1) * self.modulus() < 2
                * self.radix() * word(),
        ensures
            final(acc)@.len() == old(acc)@.len(),
            prefix_value(final(acc)@, (self.limb_count() + 1) as int) * word() == prefix_value(
                old(acc)@,
                (self.limb_count() + 2) as int,
            ) + q * self.modulus(),
    {
        let len = self.n.len();
        let alen = acc.len();
        let ghost acc1 = acc@;
        let ghost nn = self.modulus();
        proof {
            lemma_prefix_full(self.n@);
        }
        let quot64 = acc[0].wrapping_mul(self.n0inv);
        let quot = quot64 as u128;
        proof {
            lemma_quot_cancels(acc1[0], self.n0inv, self.n@[0]);
            lemma_mac_bound(acc1[0] as int, quot as int, self.n@[0] as int, 0);
        }
        let first = acc[0] as u128 + quot * self.n[0] as u128;
        let mut carry = first >> 64;
        proof {
            lemma_u128_split(first);
            lemma_prefix_zero(acc@);
            lemma_prefix_step(acc1, 0);
            lemma_prefix_step(self.n@, 0);
            lemma_prefix_zero(acc1);
            lemma_prefix_zero(self.n@);
            assert(word_pow(0) == 1);
            assert(prefix_value(acc1, 1) == acc1[0] as nat) by {
                lemma_mul_basics(acc1[0] as int);
            }
            assert(prefix_value(self.n@, 1) == self.n@[0] as nat) by {
                lemma_mul_basics(self.n@[0] as int);
            }
            // the low limb of first is zero, so first is its carry times the radix
            assert(first as nat == word() * carry as nat) by {
                assert(first as int == acc1[0] as int + quot64 as int * self.n@[0] as int);
                assert((first as nat) % word() == 0);
            }
            assert(carry as nat * word_pow(0) == carry as nat) by {
                lemma_mul_basics(carry as int);
            }
            assert(word() * (prefix_value(acc@, 0) + carry as nat * word_pow(0)) == prefix_value(
                acc1,
                1,
            ) + quot * prefix_value(self.n@, 1));
        }
        let mut j: usize = 1;
        while j < len
            invariant
                1 <= j <= len,
                len == self.n@.len(),
                len + 2 <= alen,
                acc@.len() == alen,
                acc1.len() == alen,
                quot < word(),
                carry < word(),
                forall|k: int| j - 1 <= k < alen ==> acc@[k] == acc1[k],
                word() * (prefix_value(acc@, j - 1) + carry as nat * word_pow((j - 1) as nat))
                    == prefix_value(acc1, j as int) + quot * prefix_value(self.n@, j as int),
            decreases len - j,
        {
            proof {
                lemma_mac_bound(acc@[j as int] as int, quot as int, self.n@[j as int] as int, carry as int);
            }
            let cur = acc[j] as u128 + quot * self.n[j] as u128 + carry;
            let lo = cur as u64;
            proof {
                lemma_u128_split(cur);
                lemma_prefix_step(acc@.update(j - 1, lo), j - 1);
                lemma_prefix_update(acc@, j - 1, j - 1, lo);
                lemma_prefix_step(acc1, j as int);
                lemma_prefix_step(self.n@, j as int);
                lemma_word_pow_succ((j - 1) as nat);
                lemma_redc_step(
                    prefix_value(acc@, j - 1) as int,
                    prefix_value(acc1, j as int) as int,
                    prefix_value(self.n@, j as int) as int,
                    word_pow((j - 1) as nat) as int,
                    quot as int,
                    lo as int,
                    acc1[j as int] as int,
                    self.n@[j as int] as int,
                    carry as int,
                    (cur >> 64) as int,
                );
            }
            acc[j - 1] = lo;
            carry = cur >> 64;
            j = j + 1;
        }
        let cur = acc[len] as u128 + carry;
        let ghost acc_r = acc@;
        acc[len - 1] = cur as u64;
        let ghost top: int = acc1[len + 1] as int + (cur >> 64) as int;
        let ghost a_new: int = prefix_value(acc_r, len - 1) + (cur as u64) as int * word_pow(
            (len - 1) as nat,
        ) + top * word_pow(len as nat);
        proof {
            lemma_u128_split(cur);
            lemma_word_pow_succ((len - 1) as nat);
            lemma_word_pow_pos((len - 1) as nat);
            lemma_redc_top(
                prefix_value(acc_r, len - 1) as int,
                prefix_value(acc1, len as int) as int,
                nn as int,
                word_pow((len - 1) as nat) as int,
                quot as int,
                carry as int,
                acc1[len as int] as int,
                acc1[(len + 1) as int] as int,
                (cur as u64) as int,
                (cur >> 64) as int,
                a_new,
            );
            lemma_prefix_step(acc1, len as int);
            lemma_prefix_step(acc1, (len + 1) as int);
            lemma_word_pow_succ(len as nat);
            assert(prefix_value(acc1, (len + 2) as int) == prefix_value(acc1, len as int)
                + acc1[len as int] as nat * word_pow(len as nat) + acc1[(len + 1) as int] as nat
                * word_pow((len + 1) as nat));
            assert(a_new * word() == prefix_value(acc1, (len + 2) as int) + quot * nn);
            // the new accumulator is below twice the radix, so its top limb is at most one
            lemma_mul_inequality(quot as int, word() - 1, nn as int);
            assert(a_new * word() < (2 * word_pow(len as nat)) * word()) by {
                lemma_mul_is_associative(2, word_pow(len as nat) as int, word() as int);
            }
            lemma_mul_strict_inequality_converse(a_new, (2 * word_pow(len as nat)) as int, word() as int);
            assert(top * word_pow(len as nat) <= a_new) by {
                lemma_prefix_bound(acc_r, len - 1);
                lemma_mul_nonnegative((cur as u64) as int, word_pow((len - 1) as nat) as int);
            }
            if top >= 2 {
                lemma_mul_inequality(2, top, word_pow(len as nat) as int);
            }
        }
        acc[len] = acc[len + 1] + (cur >> 64) as u64;
        proof {
            lemma_prefix_agree(acc@, acc_r, len - 1);
            lemma_prefix_step(acc@, len - 1);
            lemma_prefix_step(acc@, len as int);
            assert(prefix_value(acc@, (len + 1) as int) == a_new);
        }
        quot64
    }

    /// `out = lhs * rhs * R^-1 mod n`, by the CIOS variant of Montgomery
    /// multiplication. `acc` is scratch space of `n.len() + 2` limbs.
    pub fn mulredc(&self, lhs: &[u64], rhs: &[u64], out: &mut Vec<u64>, acc: &mut Vec<u64>)
        requires
            self.wf(),
            lhs@.len() >= self.limb_count(),
            rhs@.len() >= self.limb_count(),
            old(out)@.len() == self.limb_count(),
            old(acc)@.len() >= self.limb_count() + 2,
        ensures
            final(out)@.len() == self.limb_count(),
            final(acc)@.len() == old(acc)@.len(),
            limbs_value(final(out)@) == redc(
                prefix_value(lhs@, self.limb_count() as int) * prefix_value(
                    rhs@,
                    self.limb_count() as int,
                ),
                self.modulus(),
                self.radix(),
            ),
            (limbs_value(final(out)@) * self.radix()) % self.modulus() == (prefix_value(
                lhs@,
                self.limb_count() as int,
            ) * prefix_value(rhs@, self.limb_count() as int)) % self.modulus(),
            prefix_value(lhs@, self.limb_count() as int) < self.modulus() || prefix_value(
                rhs@,
                self.limb_count() as int,
            ) < self.modulus() ==> limbs_value(final(out)@) < self.modulus(),
    {
        let len = self.n.len();
        let alen = acc.len();
        let ghost nn = self.modulus();
        let ghost lv = prefix_value(lhs@, len as int);
        proof {
            self.lemma_wf();
            lemma_prefix_full(self.n@);
            lemma_prefix_bound(lhs@, len as int);
        }
        let mut z: usize = 0;
        while z < alen
            invariant
                z <= alen,
                acc@.len() == alen,
                forall|k: int| 0 <= k < z ==> acc@[k] == 0,
            decreases alen - z,
        {
            acc[z] = 0;
            z = z + 1;
        }
        let ghost mut qq: nat = 0;
        proof {
            lemma_prefix_zero(rhs@);
            lemma_zero_prefix(acc@, (len + 1) as int);
            assert(word_pow(0) == 1);
        }
        let mut i: usize = 0;
        while i < len
            invariant
                i <= len,
                len == self.limb_count(),
                len + 2 <= alen,
                acc@.len() == alen,
                lhs@.len() >= len,
                rhs@.len() >= len,
                self.wf(),
                nn == self.modulus(),
                lv == prefix_value(lhs@, len as int),
                lv < word_pow(len as nat),
                1 < nn < word_pow(len as nat),
                qq < word_pow(i as nat),
                prefix_value(acc@, (len + 1) as int) * word_pow(i as nat) == lv * prefix_value(
                    rhs@,
                    i as int,
                ) + qq * nn,
            decreases len - i,
        {
            let ghost a_old = prefix_value(acc@, (len + 1) as int);
            let r = rhs[i];
            self.mul_row(lhs, r, acc);
            let ghost a_mid = prefix_value(acc@, (len + 2) as int);
            proof {
                lemma_prefix_bound(rhs@, i as int);
                lemma_word_pow_pos(i as nat);
                lemma_cios_bound(
                    a_old as int,
                    lv as int,
                    r as int,
                    nn as int,
                    prefix_value(rhs@, i as int) as int,
                    qq as int,
                    word_pow(i as nat) as int,
                    word_pow(len as nat) as int,
                    a_mid as int,
                );
            }
            let quot = self.redc_row(acc);
            proof {
                let a_new = prefix_value(acc@, (len + 1) as int);
                lemma_prefix_bound(rhs@, (i + 1) as int);
                lemma_prefix_step(rhs@, i as int);
                lemma_word_pow_succ(i as nat);
                lemma_cios_invariant(
                    a_old as int,
                    a_new as int,
                    lv as int,
                    r as int,
                    quot as int,
                    nn as int,
                    prefix_value(rhs@, i as int) as int,
                    qq as int,
                    word_pow(i as nat) as int,
                    word_pow(len as nat) as int,
                    a_mid as int,
                );
                qq = (qq + quot * word_pow(i as nat)) as nat;
            }
            i = i + 1;
        }
        // A == out + high * R, where A * R == lhs * rhs + Q * n with Q < R.
        let ghost acc_f = acc@;
        let mut k: usize = 0;
        while k < len
            invariant
                k <= len,
                len == self.limb_count(),
                out@.len() == len,
                acc@ == acc_f,
                acc_f.len() >= len + 2,
                forall|m: int| 0 <= m < k ==> out@[m] == acc_f[m],
            decreases len - k,
        {
            out[k] = acc[k];
            k = k + 1;
        }
        let high = acc[len];
        proof {
            lemma_prefix_agree(out@, acc_f, len as int);
            lemma_prefix_full(out@);
            lemma_prefix_step(acc_f, len as int);
            lemma_limbs_value_bound(out@);
            lemma_prefix_bound(rhs@, len as int);
        }
        let ghost lo_val = limbs_value(out@);
        if self.geq(out.as_slice(), high) {
            self.sub_n(out);
        }
        proof {
            self.lemma_mulredc_result(
                lv,
                prefix_value(rhs@, len as int),
                qq,
                prefix_value(acc_f, (len + 1) as int),
                lo_val,
                high,
                limbs_value(out@),
            );
        }
    }

    /// The final conditional subtraction of CIOS yields `redc`.
    proof fn lemma_mulredc_result(
        &self,
        lv: nat,
        rv: nat,
        qq: nat,
        av: nat,
        lo_val: nat,
        high: u64,
        out: nat,
    )
        requires
            self.wf(),
            lv < self.radix(),
            rv < self.radix(),
            qq < self.radix(),
            av * self.radix() == lv * rv + qq * self.modulus(),
            av == lo_val + high as nat * self.radix(),
            lo_val < self.radix(),
            (lo_val + high as nat * self.radix() >= self.modulus()) ==> out == if lo_val
                >= self.modulus() {
                lo_val - self.modulus()
            } else {
                lo_val + self.radix() - self.modulus()
            },
            (lo_val + high as nat * self.radix() < self.modulus()) ==> out == lo_val,
        ensures
            out == redc(lv * rv, self.modulus(), self.radix()),
            (out * self.radix()) % self.modulus() == (lv * rv) % self.modulus(),
            lv < self.modulus() || rv < self.modulus() ==> out < self.modulus(),
    {
        self.lemma_wf();
        let t = lv * rv;
        let rr = self.radix();
        let nn = self.modulus();
        let len = self.limb_count();
        assert(t + qq * nn == av * rr);
        lemma_word_pow_pos(len);
        lemma_mod_multiples_basic(av as int, rr as int);
        lemma_mul_is_commutative(av as int, rr as int);
        lemma_redc_quotient_is(t, nn, len, qq);
        lemma_fundamental_div_mod_converse_div((t + qq * nn) as int, rr as int, av as int, 0);
        // av < lhs + n
        lemma_mul_inequality(rv as int, rr as int, lv as int);
        lemma_mul_is_commutative(rv as int, lv as int);
        lemma_mul_is_commutative(rr as int, lv as int);
        lemma_mul_strict_inequality(qq as int, rr as int, nn as int);
        lemma_mul_is_commutative(rr as int, nn as int);
        assert(av * rr < (lv + nn) * rr) by {
            lemma_mul_is_distributive_add_other_way(rr as int, lv as int, nn as int);
        }
        lemma_mul_strict_inequality_converse(av as int, (lv + nn) as int, rr as int);
        assert(high <= 1) by {
            if high > 1 {
                lemma_mul_inequality(2, high as int, rr as int);
            }
        }
        assert(high as nat * rr == if high == 1 { rr } else { 0 }) by {
            lemma_mul_basics(rr as int);
            if high == 1 {
                assert(high as nat * rr == 1 * rr);
            } else {
                assert(high == 0);
                assert(high as nat * rr == 0 * rr);
            }
        }
        assert(av == (t + qq * nn) / rr);
        if av >= nn {
            if high == 1 {
                assert(lo_val < nn);
            }
        } else {
            assert(high == 0);
        }
        assert(t < rr * rr) by {
            lemma_mul_lt(lv as int, rr as int, rv as int, rr as int);
        }
        lemma_redc_props(t, nn, len);
        if lv < nn || rv < nn {
            assert(t < nn * rr) by {
                if lv < nn {
                    lemma_mul_lt(lv as int, nn as int, rv as int, rr as int);
                } else {
                    lemma_mul_lt(rv as int, nn as int, lv as int, rr as int);
                    lemma_mul_is_commutative(lv as int, rv as int);
                }
            }
        }
    }
}

/// The accumulator after one row of the product leaves room for the
/// reduction step: adding `(2^64 - 1) * n` stays below `2 * R * 2^64`.
proof fn lemma_cios_bound(
    a_old: int,
    l: int,
    r: int,
    n: int,
    rv: int,
    qq: int,
    wi: int,
    wl: int,
    a_mid: int,
)
    requires
        a_old * wi == l * rv + qq * n,
        a_mid == a_old + l * r,
        0 <= l < wl,
        0 <= r < word(),
        0 < n < wl,
        0 <= rv < wi,
        0 <= qq < wi,
        wi > 0,
    ensures
        a_mid + (word() - 1) * n < 2 * wl * word(),
{
    // a_old < l + n
    lemma_mul_inequality(rv, wi, l);
    lemma_mul_is_commutative(rv, l);
    lemma_mul_is_commutative(wi, l);
    lemma_mul_strict_inequality(qq, wi, n);
    lemma_mul_is_commutative(wi, n);
    assert(a_old * wi < (l + n) * wi) by {
        lemma_mul_is_distributive_add_other_way(wi, l, n);
    }
    lemma_mul_strict_inequality_converse(a_old, l + n, wi);
    let b = word() as int;
    lemma_mul_inequality(r, b - 1, l);
    assert(a_mid + (b - 1) * n < (l + n) * b) by (nonlinear_arith)
        requires
            a_old < l + n,
            a_mid == a_old + l * r,
            r * l <= (b - 1) * l,
            l >= 0,
            n > 0,
    ;
    lemma_mul_strict_inequality(l + n, 2 * wl, b);
}

/// The bound that keeps the multiply-accumulate steps inside a `u128`.
proof fn lemma_mac_bound(a: int, b: int, c: int, d: int)
    requires
        0 <= a < word(),
        0 <= b < word(),
        0 <= c < word(),
        0 <= d < word(),
    ensures
        a + b * c + d <= u128::MAX,
        b * c <= u128::MAX,
{
    assert(b * c <= (word() - 1) * (word() - 1)) by {
        lemma_mul_upper_bound(b, word() - 1, c, word() - 1);
    }
}

/// One limb of `acc += lhs * r`, lifted to the prefixes.
proof fn lemma_mac_step(
    pa: int,
    p0: int,
    pl: int,
    w: int,
    r: int,
    lo: int,
    a: int,
    l: int,
    cin: int,
    cout: int,
)
    requires
        pa + cin * w == p0 + pl * r,
        lo + cout * word() == a + l * r + cin,
    ensures
        (pa + lo * w) + cout * (w * word()) == (p0 + a * w) + (pl + l * w) * r,
{
    assert((pa + lo * w) + cout * (w * word()) == (p0 + a * w) + (pl + l * w) * r) by (nonlinear_arith)
        requires
            pa + cin * w == p0 + pl * r,
            lo + cout * word() == a + l * r + cin,
    ;
}

/// The carry out of `acc += lhs * r` lands in the two top limbs.
proof fn lemma_mac_top(
    pm: int,
    p0: int,
    pl: int,
    w: int,
    r: int,
    cin: int,
    a: int,
    lo: int,
    hi: int,
)
    requires
        pm + cin * w == p0 + pl * r,
        lo + hi * word() == a + cin,
    ensures
        pm + lo * w + hi * (w * word()) == (p0 + a * w) + pl * r,
{
    assert(pm + lo * w + hi * (w * word()) == (p0 + a * w) + pl * r) by (nonlinear_arith)
        requires
            pm + cin * w == p0 + pl * r,
            lo + hi * word() == a + cin,
    ;
}

/// `acc[0] * (-n^-1)` is the multiple of `n` that clears the low limb.
proof fn lemma_quot_cancels(a: u64, ninv: u64, n0: u64)
    requires
        (n0 as int * ninv as int + 1) % (word() as int) == 0,
    ensures
        (a as int + a.wrapping_mul(ninv) as int * n0 as int) % (word() as int) == 0,
{
    let b = word() as int;
    let q = a.wrapping_mul(ninv) as int;
    assert(q == (a as int * ninv as int) % b);
    lemma_mul_mod_noop_left(a as int * ninv as int, n0 as int, b);
    lemma_add_mod_noop(a as int, q * n0 as int, b);
    lemma_add_mod_noop(a as int, (a as int * ninv as int) * n0 as int, b);
    assert(a as int + (a as int * ninv as int) * n0 as int == a as int * (n0 as int * ninv as int + 1))
        by (nonlinear_arith);
    lemma_mul_mod_noop_right(a as int, n0 as int * ninv as int + 1, b);
    lemma_mod_of_zero_product(a as int, b);
}

proof fn lemma_mod_of_zero_product(a: int, b: int)
    requires
        b > 0,
    ensures
        (a * 0) % b == 0,
{
    assert(a * 0 == 0);
}

/// One limb of `acc = (acc + quot * n) / 2^64`, lifted to the prefixes.
proof fn lemma_redc_step(
    pa: int,
    p1: int,
    pn: int,
    w: int,
    q: int,
    lo: int,
    a: int,
    nj: int,
    cin: int,
    cout: int,
)
    requires
        word() * (pa + cin * w) == p1 + q * pn,
        lo + cout * word() == a + q * nj + cin,
    ensures
        word() * ((pa + lo * w) + cout * (w * word())) == (p1 + a * (w * word())) + q * (pn + nj * (w
            * word())),
{
    assert(word() * ((pa + lo * w) + cout * (w * word())) == (p1 + a * (w * word())) + q * (pn + nj * (
    w * word()))) by (nonlinear_arith)
        requires
            word() * (pa + cin * w) == p1 + q * pn,
            lo + cout * word() == a + q * nj + cin,
    ;
}

/// The last limb of the reduction: the new accumulator times 2^64 is the old
/// one plus `quot * n`.
proof fn lemma_redc_top(
    pa: int,
    p1: int,
    n: int,
    w: int,
    q: int,
    cin: int,
    a: int,
    e: int,
    lo: int,
    hi: int,
    a_new: int,
)
    requires
        word() * (pa + cin * w) == p1 + q * n,
        lo + hi * word() == a + cin,
        a_new == pa + lo * w + (e + hi) * (w * word()),
    ensures
        a_new * word() == (p1 + a * (w * word()) + e * (w * word() * word())) + q * n,
{
    assert(a_new * word() == (p1 + a * (w * word()) + e * (w * word() * word())) + q * n) by (nonlinear_arith)
        requires
            word() * (pa + cin * w) == p1 + q * n,
            lo + hi * word() == a + cin,
            a_new == pa + lo * w + (e + hi) * (w * word()),
    ;
}

/// The CIOS loop invariant carries over one limb of `rhs`.
proof fn lemma_cios_invariant(
    a_old: int,
    a_new: int,
    l: int,
    r: int,
    q: int,
    n: int,
    rv: int,
    qq: int,
    wi: int,
    wl: int,
    a_mid: int,
)
    requires
        a_old * wi == l * rv + qq * n,
        a_mid == a_old + l * r,
        a_new * word() == a_mid + q * n,
        0 <= l < wl,
        0 <= r < word(),
        0 <= q < word(),
        0 < n < wl,
        0 <= rv < wi,
        0 <= qq < wi,
        wi > 0,
    ensures
        a_new * (wi * word()) == l * (rv + r * wi) + (qq + q * wi) * n,
        qq + q * wi < wi * word(),
        a_new < 2 * wl,
{
    let b = word() as int;
    assert(a_new * (wi * b) == (a_new * b) * wi) by {
        lemma_mul_is_associative(a_new, wi, b);
        lemma_mul_is_associative(a_new, b, wi);
        lemma_mul_is_commutative(wi, b);
    }
    assert((a_old + l * r + q * n) * wi == a_old * wi + (l * r) * wi + (q * n) * wi) by {
        lemma_mul_is_distributive_add_other_way(wi, a_old + l * r, q * n);
        lemma_mul_is_distributive_add_other_way(wi, a_old, l * r);
    }
    assert((l * r) * wi == l * (r * wi)) by {
        lemma_mul_is_associative(l, r, wi);
    }
    assert((q * n) * wi == (q * wi) * n) by {
        lemma_mul_is_associative(q, n, wi);
        lemma_mul_is_associative(q, wi, n);
        lemma_mul_is_commutative(n, wi);
    }
    assert(l * rv + l * (r * wi) == l * (rv + r * wi)) by {
        lemma_mul_is_distributive_add(l, rv, r * wi);
    }
    assert(qq * n + (q * wi) * n == (qq + q * wi) * n) by {
        lemma_mul_is_distributive_add_other_way(n, qq, q * wi);
    }
    assert(qq + q * wi < wi * word()) by (nonlinear_arith)
        requires
            0 <= q < word(),
            0 <= qq < wi,
    ;
    let w2 = wi * word();
    assert(rv + r * wi < w2) by (nonlinear_arith)
        requires
            0 <= r < word(),
            0 <= rv < wi,
            w2 == wi * word(),
    ;
    lemma_mul_lt(l, wl, rv + r * wi, w2);
    lemma_mul_lt(qq + q * wi, w2, n, wl);
    assert(a_new * w2 < (2 * wl) * w2) by (nonlinear_arith)
        requires
            a_new * w2 == l * (rv + r * wi) + (qq + q * wi) * n,
            l * (rv + r * wi) < wl * w2,
            (qq + q * wi) * n < w2 * wl,
    ;
    lemma_mul_strict_inequality_converse(a_new, 2 * wl, w2);
}

/// A sequence of zero limbs stands for zero.
proof fn lemma_zero_prefix(s: Seq<u64>, k: int)
    requires
        0 <= k <= s.len(),
        forall|i: int| 0 <= i < k ==> s[i] == 0,
    ensures
        prefix_value(s, k) == 0,
    decreases k,
{
    if k == 0 {
        lemma_prefix_zero(s);
    } else {
        lemma_zero_prefix(s, k - 1);
        lemma_prefix_step(s, k - 1);
    }
}

/// One limb of an addition with carry, lifted to the prefixes.
proof fn lemma_carry_step(
    po: int,
    pl: int,
    pr: int,
    w: int,
    lo: int,
    a: int,
    b: int,
    cin: int,
    cout: int,
)
    requires
        po + cin * w == pl + pr,
        lo + cout * word() == a + b + cin,
    ensures
        (po + lo * w) + cout * (w * word()) == (pl + a * w) + (pr + b * w),
{
    assert((po + lo * w) + cout * (w * word()) == (pl + a * w) + (pr + b * w)) by (nonlinear_arith)
        requires
            po + cin * w == pl + pr,
            lo + cout * word() == a + b + cin,
    ;
}

/// One limb of a subtraction with borrow, lifted to the prefixes.
proof fn lemma_limb_step(
    px: int,
    pn: int,
    po: int,
    w: int,
    d: int,
    b: int,
    a: int,
    bin: int,
    bout: int,
)
    requires
        px + pn == po + bin * w,
        d + b + bin == a + bout * word(),
    ensures
        (px + d * w) + (pn + b * w) == (po + a * w) + bout * (w * word()),
{
    assert((px + d * w) + (pn + b * w) == (po + a * w) + bout * (w * word())) by (nonlinear_arith)
        requires
            px + pn == po + bin * w,
            d + b + bin == a + bout * word(),
    ;
}

/// A sequence whose lowest limb is odd stands for an odd number.
proof fn lemma_odd_low_limb(s: Seq<u64>)
    requires
        s.len() >= 1,
        s[0] % 2 == 1,
    ensures
        limbs_value(s) % 2 == 1,
    decreases s.len(),
{
    if s.len() == 1 {
        assert(s.drop_last().len() == 0);
        assert(limbs_value(s.drop_last()) == 0);
        assert(word_pow(0) == 1);
        assert(s.last() == s[0]);
        assert(limbs_value(s) == limbs_value(s.drop_last()) + s.last() as nat * word_pow(0));
        assert(limbs_value(s) == s[0] as nat);
    } else {
        let k = (s.len() - 1) as nat;
        assert(s.drop_last()[0] == s[0]);
        lemma_odd_low_limb(s.drop_last());
        lemma_word_pow_succ((k - 1) as nat);
        let w = word_pow((k - 1) as nat);
        assert(word_pow(k) == w * word());
        assert((s.last() as nat * word_pow(k)) % 2 == 0) by {
            assert(s.last() as nat * (w * word()) == 2 * (s.last() as nat * w * 0x8000_0000_0000_0000))
                by (nonlinear_arith);
            lemma_mod_multiples_basic((s.last() as nat * w * 0x8000_0000_0000_0000) as int, 2);
            lemma_mul_is_commutative(2, (s.last() as nat * w * 0x8000_0000_0000_0000) as int);
        }
        lemma_add_mod_noop(limbs_value(s.drop_last()) as int, (s.last() as nat * word_pow(k)) as int, 2);
        assert(limbs_value(s) == limbs_value(s.drop_last()) + s.last() as nat * word_pow(k));
    }
}


/// The little-endian 64-bit digits of `x`, from `BigUint::to_u64_digits`:
/// they stand for `x`, and the top one is not zero (none for zero).
#[verifier::external_body]
fn u64_digits(x: &Natural) -> (d: Vec<u64>)
    ensures
        limbs_value(d@) == x@,
        d@.len() == 0 || d@.last() != 0,
{
    BigUint::from_bytes_le(&x.bytes).to_u64_digits()
}

/// `2^bits`, from `BigUint`'s `<<` applied to one.
#[verifier::external_body]
fn one_shl(bits: usize) -> (r: Natural)
    ensures
        r@ == vstd::arithmetic::power2::pow2(bits as nat),
{
    Natural { bytes: (BigUint::one() << bits).to_bytes_le() }
}

/// `a % m`, from `BigUint`'s `%`, which panics for a zero `m`.
#[verifier::external_body]
fn rem(a: &Natural, m: &Natural) -> (r: Natural)
    requires
        m@ > 0,
    ensures
        r@ == a@ % m@,
{
    Natural { bytes: (BigUint::from_bytes_le(&a.bytes) % BigUint::from_bytes_le(&m.bytes)).to_bytes_le() }
}

/// The greatest common divisor, from `num_integer::Integer::gcd` on `BigUint`.
#[verifier::external_body]
fn big_gcd(a: &Natural, b: &Natural) -> (r: Natural)
    ensures
        r@ == gcd(a@, b@),
{
    Natural {
        bytes: BigUint::from_bytes_le(&a.bytes).gcd(&BigUint::from_bytes_le(&b.bytes)).to_bytes_le(),
    }
}

/// Whether `x` is one, from `num_traits::One::is_one` on `BigUint`.
#[verifier::external_body]
fn big_is_one(x: &Natural) -> (r: bool)
    ensures
        r == (x@ == 1),
{
    BigUint::from_bytes_le(&x.bytes).is_one()
}

/// `x^-1 mod 2^64` negated, for the Montgomery constant.
proof fn lemma_neg_inverse(n0: u64, y: u64)
    requires
        (n0 as int * y as int) % (word() as int) == 1,
    ensures
        (n0 as int * 0u64.wrapping_sub(y) as int + 1) % (word() as int) == 0,
{
    let b = word() as int;
    let z = 0u64.wrapping_sub(y) as int;
    if y == 0 {
        assert(n0 as int * 0 == 0);
        lemma_small_mod(0, b as nat);
    } else {
        assert(z == b - y);
        assert(n0 as int * z + 1 == b * n0 - (n0 as int * y as int) + 1) by (nonlinear_arith)
            requires
                z == b - y,
        ;
        lemma_fundamental_div_mod(n0 as int * y as int, b);
        let k = (n0 as int * y as int) / b;
        assert(n0 as int * z + 1 == b * (n0 - k)) by (nonlinear_arith)
            requires
                n0 as int * z + 1 == b * n0 - (n0 as int * y as int) + 1,
                n0 as int * y as int == b * k + 1,
        ;
        lemma_mod_multiples_basic(n0 - k, b);
        lemma_mul_is_commutative(n0 - k, b);
    }
}

impl Montgomery {
    /// `n` must be odd and larger than one.
    pub fn new(n: &Natural) -> (r: Self)
        requires
            n@ % 2 == 1,
            n@ > 1,
        ensures
            r.wf(),
            r.modulus() == n@,
            r.limb_count() == limb_len(n@),
    {
        let n = u64_digits(n);
        proof {
            if n@.len() == 0 {
                assert(limbs_value(n@) == 0);
            }
            lemma_parity_low_limb(n@);
        }
        let y = binv(n[0]);
        let n0inv = 0u64.wrapping_sub(y);
        proof {
            lemma_neg_inverse(n@[0], y);
        }
        let r = Montgomery { n, n0inv };
        proof {
            lemma_limb_len(&r);
        }
        r
    }
}

/// `x` as exactly `len` little-endian limbs, dropping any above them.
pub fn to_limbs(x: &Natural, len: usize) -> (r: Vec<u64>)
    ensures
        r@.len() == len,
        limbs_value(r@) == x@ % word_pow(len as nat),
{
    let mut limbs = u64_digits(x);
    let ghost d = limbs@;
    limbs.resize(len, 0);
    proof {
        lemma_word_pow_pos(len as nat);
        if len <= d.len() {
            lemma_prefix_is_mod(d, len as int);
        } else {
            assert forall|i: int| d.len() <= i < len implies limbs@[i] == 0 by {
                assert(vstd::pervasive::cloned::<u64>(0, limbs@[i]));
            }
            lemma_zero_extension(d, limbs@);
            lemma_limbs_value_bound(d);
            lemma_word_pow_mono(d.len(), len as nat);
            lemma_small_mod(x@, word_pow(len as nat));
        }
    }
    limbs
}

/// The number that the little-endian limbs `limbs` stand for.
pub fn from_limbs(limbs: &[u64]) -> (r: Natural)
    ensures
        r@ == limbs_value(limbs@),
{
    let mut bytes: Vec<u8> = Vec::new();
    let mut i: usize = 0;
    proof {
        lemma_prefix_zero(limbs@);
    }
    while i < limbs.len()
        invariant
            i <= limbs@.len(),
            bytes@.len() == 8 * i,
            bytes_value(bytes@) == prefix_value(limbs@, i as int),
        decreases limbs@.len() - i,
    {
        proof {
            lemma_prefix_step(limbs@, i as int);
            lemma_byte_pow_word(i as nat);
        }
        push_limb(&mut bytes, limbs[i]);
        i = i + 1;
    }
    proof {
        lemma_prefix_full(limbs@);
    }
    Natural { bytes }
}

/// Whether any limb is not zero, that is whether the limbs stand for a
/// number other than zero.
fn any_nonzero(limbs: &[u64]) -> (r: bool)
    ensures
        r == (limbs_value(limbs@) != 0),
{
    let mut i: usize = 0;
    while i < limbs.len()
        invariant
            i <= limbs@.len(),
            forall|k: int| 0 <= k < i ==> limbs@[k] == 0,
        decreases limbs@.len() - i,
    {
        if limbs[i] != 0 {
            proof {
                lemma_limbs_split(limbs@, (i + 1) as int);
                lemma_prefix_step(limbs@, i as int);
                lemma_word_pow_pos(i as nat);
                lemma_word_pow_pos((i + 1) as nat);
                lemma_mul_increases(limbs@[i as int] as int, word_pow(i as nat) as int);
                lemma_mul_nonnegative(
                    word_pow((i + 1) as nat) as int,
                    limbs_value(limbs@.subrange((i + 1) as int, limbs@.len() as int)) as int,
                );
            }
            return true;
        }
        i = i + 1;
    }
    proof {
        lemma_zero_prefix(limbs@, limbs@.len() as int);
        lemma_prefix_full(limbs@);
    }
    false
}

/// The number of limbs of `n`: the least `k` with `n < word_pow(k)`.
pub open spec fn limb_len(n: nat) -> nat {
    choose|k: nat| n < #[trigger] word_pow(k) && (k == 0 || word_pow((k - 1) as nat) <= n)
}

/// A sum held in `n`'s limbs plus a carry, less `n` once when it reaches
/// `n`, the borrow out of the top limb dropped.
pub open spec fn sub_once(n: nat, r: nat, s: int) -> nat {
    if s >= n {
        ((s - n) % (r as int)) as nat
    } else {
        s as nat
    }
}

/// `a - b`, plus `n` when that is negative, the carry out of the top limb
/// dropped.
pub open spec fn sub_mod(n: nat, r: nat, a: nat, b: nat) -> nat {
    let d = a - b;
    if d >= 0 {
        d as nat
    } else {
        ((d + n) % (r as int)) as nat
    }
}

/// One step `x -> x^2 + c` of the walk: a Montgomery square, then `c` added.
pub open spec fn rho_next(n: nat, r: nat, x: nat, c: nat) -> nat {
    sub_once(n, r, (redc(x * x, n, r) + c) as int)
}

/// One round of the walk on the state `(tortoise, hare, product, c, steps)`.
/// Walkers that have met restart at `start` under the next constant; the
/// product takes on the difference of the walkers unless that would make it
/// zero; the tortoise takes one step and the hare two; the step count runs
/// modulo the batch size 128.
#[verifier::opaque]
pub open spec fn rho_round(
    n: nat,
    r: nat,
    start: nat,
    s: (nat, nat, nat, nat, nat),
) -> (nat, nat, nat, nat, nat) {
    let (t0, h0, prod, c0, steps) = s;
    let t = if t0 == h0 { start } else { t0 };
    let h = if t0 == h0 { start } else { h0 };
    let c = if t0 == h0 { c0 + 1 } else { c0 };
    let next = redc(prod * sub_mod(n, r, t, h), n, r);
    let prod1 = if next != 0 { next } else { prod };
    let steps1 = if steps + 1 == 128 { 0 } else { steps + 1 };
    (rho_next(n, r, t, c), rho_next(n, r, rho_next(n, r, h, c), c), prod1, c, steps1)
}

/// What the walk from state `s` finds within `rounds` more rounds: at the
/// first end of a batch where the product's gcd with `n` is not one, that gcd
/// and the constant of the round.
pub open spec fn rho_from(
    n: nat,
    r: nat,
    start: nat,
    s: (nat, nat, nat, nat, nat),
    rounds: nat,
) -> Option<(nat, nat)>
    decreases rounds,
{
    if rounds == 0 {
        None
    } else {
        let s1 = rho_round(n, r, start, s);
        if s1.4 == 0 && gcd(s1.2, n) != 1 {
            Some((gcd(s1.2, n), s1.3))
        } else {
            rho_from(n, r, start, s1, (rounds - 1) as nat)
        }
    }
}

/// A search with no rounds left finds nothing; otherwise the next round
/// splits, or the search goes on from the state after it.
pub proof fn lemma_rho_from_step(
    n: nat,
    r: nat,
    start: nat,
    s: (nat, nat, nat, nat, nat),
    rounds: nat,
)
    ensures
        rounds == 0 ==> rho_from(n, r, start, s, rounds) is None,
        rounds > 0 ==> rho_from(n, r, start, s, rounds) == ({
            let s1 = rho_round(n, r, start, s);
            if s1.4 == 0 && gcd(s1.2, n) != 1 {
                Some((gcd(s1.2, n), s1.3))
            } else {
                rho_from(n, r, start, s1, (rounds - 1) as nat)
            }
        }),
{
}

/// What Pollard's rho finds for `n` in Montgomery arithmetic with one limb
/// radix per limb of `n`: both walkers start at 2 and the product at 1, in
/// Montgomery form, with constant 1 and at most `u64::MAX - 1` rounds.
pub open spec fn rho_outcome(n: nat) -> Option<(nat, nat)> {
    let r = word_pow(limb_len(n));
    let start = (2 * r) % n;
    rho_from(n, r, start, (start, start, r % n, 1, 0), (u64::MAX - 1) as nat)
}

/// Pollard's rho on `n` starts from both walkers at `2 r mod n`, the product
/// at `r mod n` and the constant 1, for `r` one limb radix per limb of `n`,
/// and runs for at most `u64::MAX - 1` rounds.
pub proof fn lemma_rho_outcome_start(n: nat)
    ensures
        ({
            let r = word_pow(limb_len(n));
            let start = (2 * r) % n;
            rho_outcome(n) == rho_from(n, r, start, (start, start, r % n, 1, 0), (u64::MAX - 1) as nat)
        }),
{
}

/// A well-formed context has one limb per limb of its modulus.
proof fn lemma_limb_len(m: &Montgomery)
    requires
        m.wf(),
    ensures
        limb_len(m.modulus()) == m.limb_count(),
{
    let s = m.n@;
    let len = s.len();
    let v = limbs_value(s);
    let top = (len - 1) as nat;
    lemma_limbs_value_bound(s);
    assert(word_pow(top) <= v) by {
        lemma_word_pow_pos(top);
        lemma_mul_increases(s.last() as int, word_pow(top) as int);
        lemma_mul_is_commutative(s.last() as int, word_pow(top) as int);
    }
    assert(v < word_pow(len) && (len == 0 || word_pow((len - 1) as nat) <= v));
    let k = limb_len(v);
    assert(v < word_pow(k) && (k == 0 || word_pow((k - 1) as nat) <= v));
    if k < len {
        lemma_word_pow_mono(k, top);
    } else if k > len {
        lemma_word_pow_mono(len, (k - 1) as nat);
    }
}

/// Limbs of one length are equal exactly when their numbers are.
proof fn lemma_limbs_eq(s: Seq<u64>, t: Seq<u64>)
    requires
        s.len() == t.len(),
    ensures
        (s == t) <==> (limbs_value(s) == limbs_value(t)),
{
    if limbs_value(s) == limbs_value(t) {
        crate::limbs::lemma_limbs_value_injective(s, t);
    }
}

/// Pollard's rho with Floyd's cycle detection, reporting the divisor found
/// and the polynomial constant `c` of `x -> x^2 + c` that found it.
///
/// Both walkers live in Montgomery form and start at 2; their differences
/// accumulate into a product whose gcd with `n` is taken once per batch of
/// 128 steps. The last non-zero product is kept, so the product stays a
/// residue in `(0, n)` and a gcd that is not one is a proper divisor. When
/// the walkers meet without splitting `n`, `c` moves on and the walk restarts.
///
/// The search is not bounded by anything the algorithm knows of; it gives up
/// only after `u64::MAX - 1` steps, reporting `None`.
pub fn rho(n: &Natural) -> (r: Option<(Natural, u64)>)
    requires
        n@ % 2 == 1,
        n@ > 1,
        n@ < word_pow((usize::MAX / 64) as nat),
    ensures
        match rho_outcome(n@) {
            Some((d, c)) => r matches Some((x, k)) && x@ == d && k == c,
            None => r is None,
        },
        r matches Some((d, c)) ==> 1 < d@ < n@ && n@ % d@ == 0 && c >= 2,
        r is None ==> forall|k: nat| 1 <= k <= u64::MAX - 1 ==> !#[trigger] limb_splits_at(n@, k),
{
    let mont = Montgomery::new(n);
    let len = mont.len();
    let ghost nn = n@;
    let ghost rr = word_pow(len as nat);
    proof {
        mont.lemma_wf();
        lemma_limb_len(&mont);
        // the modulus fills its top limb, so len limbs are below the machine bound
        assert(len <= usize::MAX / 64) by {
            lemma_modulus_limbs(&mont, (usize::MAX / 64) as nat);
        }
    }
    let mut scratch = vec![0u64; len + 2];
    let r_mod_n = rem(&one_shl(64 * len), n);
    let one = to_limbs(&r_mod_n, len);
    proof {
        lemma_word_pow_is_pow2(len as nat);
        lemma_word_pow_pos(len as nat);
        lemma_small_mod(r_mod_n@, word_pow(len as nat));
        lemma_odd_not_dividing_radix(n@, len as nat);
        lemma_prefix_full(one@);
    }
    let mut diff = vec![0u64; len];
    let mut next = vec![0u64; len];
    let mut tortoise = vec![0u64; len];
    mont.add(&one, &one, &mut tortoise);
    let ghost start_val: nat = (2 * rr) % nn;
    proof {
        lemma_add_mod_noop(rr as int, rr as int, nn as int);
        assert(limbs_value(tortoise@) == start_val);
    }
    let start = tortoise.clone();
    let mut hare = tortoise.clone();
    let mut prod = one;
    let mut c: u64 = 1;
    let mut steps: usize = 0;
    let mut rounds: u64 = 0;
    let ghost mut st: (nat, nat, nat, nat, nat) = (start_val, start_val, rr % nn, 1, 0);
    let ghost bound: nat = (u64::MAX - 1) as nat;
    proof {
        crate::walk::lemma_limb_walk_step(nn, rr, 0);
    }
    while rounds < u64::MAX - 1
        invariant
            mont.wf(),
            mont.modulus() == n@,
            mont.limb_count() == len,
            nn == n@,
            rr == word_pow(len as nat),
            limb_len(nn) == len,
            bound == u64::MAX - 1,
            rounds <= bound,
            scratch@.len() == len + 2,
            diff@.len() == len,
            next@.len() == len,
            tortoise@.len() == len,
            hare@.len() == len,
            start@.len() == len,
            prod@.len() == len,
            0 < limbs_value(prod@) < n@,
            1 <= c <= rounds + 1,
            rounds == 0 ==> tortoise@ == hare@,
            rounds > 0 ==> c >= 2,
            steps < 128,
            limbs_value(start@) == start_val,
            start_val == (2 * rr) % nn,
            st == (limbs_value(tortoise@), limbs_value(hare@), limbs_value(prod@), c as nat, steps as nat),
            rho_outcome(nn) == rho_from(nn, rr, start_val, st, (bound - rounds) as nat),
            st == crate::walk::limb_walk(nn, rr, rounds as nat),
            forall|k: nat| 1 <= k <= rounds ==> !#[trigger] limb_splits_at(nn, k),
        decreases u64::MAX - rounds,
    {
        let ghost st0 = st;
        let ghost s1 = rho_round(nn, rr, start_val, st0);
        proof {
            crate::walk::lemma_limb_walk_step(nn, rr, rounds as nat);
            reveal(rho_round);
            lemma_limbs_eq(tortoise@, hare@);
        }
        if tortoise == hare {
            // The sequence cycled without splitting n: start over from the
            // same point under the next polynomial, keeping what prod holds.
            proof {
                assert(tortoise@ =~= hare@);
            }
            c = c + 1;
            tortoise = start.clone();
            hare = start.clone();
        }
        let ghost t_val = limbs_value(tortoise@);
        let ghost h_val = limbs_value(hare@);
        mont.sub(&tortoise, &hare, &mut diff);
        proof {
            lemma_prefix_full(prod@);
            lemma_prefix_full(diff@);
            lemma_prefix_full(tortoise@);
            lemma_prefix_full(hare@);
            assert(limbs_value(diff@) == sub_mod(nn, rr, t_val, h_val));
        }
        mont.mulredc(&prod, &diff, &mut next, &mut scratch);
        if any_nonzero(&next) {
            prod = next.clone();
            proof {
                assert(prod@ =~= next@);
            }
        }
        assert(limbs_value(prod@) == s1.2);
        // The tortoise takes one step, the hare two.
        mont.mulredc(&tortoise, &tortoise, &mut next, &mut scratch);
        core::mem::swap(&mut tortoise, &mut next);
        mont.addc(&mut tortoise, c);
        assert(limbs_value(tortoise@) == s1.0);
        let ghost h0 = limbs_value(hare@);
        let mut k: usize = 0;
        while k < 2
            invariant
                mont.wf(),
                mont.modulus() == nn,
                mont.limb_count() == len,
                rr == word_pow(len as nat),
                scratch@.len() == len + 2,
                next@.len() == len,
                hare@.len() == len,
                k <= 2,
                k == 0 ==> limbs_value(hare@) == h0,
                k == 1 ==> limbs_value(hare@) == rho_next(nn, rr, h0, c as nat),
                k == 2 ==> limbs_value(hare@) == rho_next(
                    nn,
                    rr,
                    rho_next(nn, rr, h0, c as nat),
                    c as nat,
                ),
            decreases 2 - k,
        {
            proof {
                lemma_prefix_full(hare@);
            }
            mont.mulredc(&hare, &hare, &mut next, &mut scratch);
            core::mem::swap(&mut hare, &mut next);
            mont.addc(&mut hare, c);
            k = k + 1;
        }
        assert(limbs_value(hare@) == s1.1);
        steps = steps + 1;
        if steps == 128 {
            steps = 0;
            let g = big_gcd(&from_limbs(&prod), n);
            if !big_is_one(&g) {
                proof {
                    lemma_gcd_proper_divisor(limbs_value(prod@), n@);
                    assert(s1.4 == 0);
                }
                return Some((g, c));
            }
        }
        proof {
            st = (limbs_value(tortoise@), limbs_value(hare@), limbs_value(prod@), c as nat, steps as nat);
            assert(st == s1);
            assert(!limb_splits_at(nn, (rounds + 1) as nat));
        }
        rounds = rounds + 1;
    }
    None
}

/// Pollard's rho, reporting only the divisor.
pub fn pollard_rho(n: &Natural) -> (r: Option<Natural>)
    requires
        n@ % 2 == 1,
        n@ > 1,
        n@ < word_pow((usize::MAX / 64) as nat),
    ensures
        match rho_outcome(n@) {
            Some((d, _)) => r matches Some(x) && x@ == d,
            None => r is None,
        },
        r matches Some(d) ==> 1 < d@ < n@ && n@ % d@ == 0,
        r is None ==> forall|k: nat| 1 <= k <= u64::MAX - 1 ==> !#[trigger] limb_splits_at(n@, k),
{
    match rho(n) {
        Some((d, _)) => Some(d),
        None => None,
    }
}

/// The limb count of a modulus below `word_pow(k)` is at most `k`.
proof fn lemma_modulus_limbs(m: &Montgomery, k: nat)
    requires
        m.wf(),
        m.modulus() < word_pow(k),
    ensures
        m.limb_count() <= k,
{
    let s = m.n@;
    if s.len() > k {
        // the top limb is not zero, so the value reaches word_pow(len - 1)
        let top = (s.len() - 1) as nat;
        lemma_limbs_split(s, top as int);
        assert(s.subrange(top as int, s.len() as int) =~= seq![s.last()]);
        let one = seq![s.last()];
        assert(one.drop_last().len() == 0);
        assert(limbs_value(one) == limbs_value(one.drop_last()) + s.last() as nat * word_pow(0));
        assert(word_pow(0) == 1);
        lemma_mul_basics(s.last() as int);
        lemma_word_pow_pos(top);
        lemma_mul_increases(s.last() as int, word_pow(top) as int);
        lemma_mul_is_commutative(s.last() as int, word_pow(top) as int);
        lemma_word_pow_mono(k, top);
    }
}

/// An odd number above one does not divide a power of the limb radix.
proof fn lemma_odd_not_dividing_radix(n: nat, k: nat)
    requires
        n % 2 == 1,
        n > 1,
    ensures
        word_pow(k) % n != 0,
{
    lemma_word_pow_is_pow2(k);
    if pow2(64 * k) % n == 0 {
        assert(pow2(64 * k) * 1 == pow2(64 * k));
        lemma_odd_divides_pow2_multiple(n, 1, 64 * k);
        lemma_small_mod(1, n);
    }
}


/// The number of bits of `x`, from `BigUint::bits`: the least `b` with
/// `x < 2^b`.
#[verifier::external_body]
fn big_bits(x: &Natural) -> (r: u64)
    ensures
        x@ < pow2(r as nat),
        r == 0 || pow2((r - 1) as nat) <= x@,
{
    BigUint::from_bytes_le(&x.bytes).bits()
}

/// The truncated `n`-th root of `x`, from `BigUint::nth_root`, which panics
/// for `n == 0`.
#[verifier::external_body]
fn big_nth_root(x: &Natural, n: u32) -> (r: Natural)
    requires
        n >= 1,
    ensures
        pow(r@ as int, n as nat) <= x@ < pow(r@ as int + 1, n as nat),
{
    Natural { bytes: BigUint::from_bytes_le(&x.bytes).nth_root(n).to_bytes_le() }
}

/// `x^e`, from `BigUint::pow`.
#[verifier::external_body]
fn big_pow(x: &Natural, e: u32) -> (r: Natural)
    ensures
        r@ == pow(x@ as int, e as nat),
{
    Natural { bytes: BigUint::from_bytes_le(&x.bytes).pow(e).to_bytes_le() }
}

/// Whether `a` and `b` are the same number, from `BigUint`'s `==`.
#[verifier::external_body]
fn big_eq(a: &Natural, b: &Natural) -> (r: bool)
    ensures
        r == (a@ == b@),
{
    BigUint::from_bytes_le(&a.bytes) == BigUint::from_bytes_le(&b.bytes)
}

/// If `x` is a perfect power, its root and the least prime exponent.
///
/// Pollard's rho needs about `sqrt(p)` iterations to split `p^k`, which is
/// hopeless for a large `p`, so these are peeled off beforehand. A perfect
/// power is a perfect power for a prime exponent too, so composite exponents
/// are skipped.
pub fn perfect_power(x: &Natural) -> (r: Option<(Natural, u32)>)
    requires
        x@ < pow2(u32::MAX as nat),
    ensures
        match r {
            Some((root, e)) => is_least_power(x@, root@, e as nat),
            None => not_a_perfect_power(x@),
        },
{
    let bits64 = big_bits(x);
    proof {
        if bits64 > u32::MAX {
            lemma_pow2_strictly_increases(u32::MAX as nat, (bits64 - 1) as nat);
        }
    }
    let bits = bits64 as u32;
    let mut e: u64 = 2;
    while e <= bits as u64
        invariant
            2 <= e <= bits as u64 + 2,
            bits <= u32::MAX,
            x@ < pow2(bits as nat),
            bits == 0 || pow2((bits - 1) as nat) <= x@,
            no_power_below(x@, e as nat),
        decreases bits as u64 + 2 - e,
    {
        proof {
            vstd::arithmetic::power2::lemma_pow2_pos((bits - 1) as nat);
        }
        if has_small_factor(e) {
            proof {
                lemma_composite_factor(e as nat);
                let d = choose|d: nat| 2 <= d < e && #[trigger] (e as nat % d) == 0;
                lemma_composite_exponent(x@, e as nat, d);
                lemma_extend_no_power(x@, e as nat);
            }
            e = e + 1;
            continue;
        }
        let root = big_nth_root(x, e as u32);
        if big_is_one(&root) {
            proof {
                lemma_small_value_no_power(x@, e as nat);
            }
            return None;
        }
        if big_eq(&big_pow(&root, e as u32), x) {
            proof {
                if root@ == 0 {
                    vstd::arithmetic::power::lemma0_pow(e as nat);
                }
            }
            return Some((root, e as u32));
        }
        proof {
            assert forall|s: nat| s >= 2 implies #[trigger] pow(s as int, e as nat) != x@ by {
                if pow(s as int, e as nat) == x@ {
                    lemma_root_unique(x@, e as nat, root@, s);
                }
            }
            lemma_extend_no_power(x@, e as nat);
        }
        e = e + 1;
    }
    proof {
        vstd::arithmetic::power::lemma_pow_positive(2, bits as nat);
        lemma_small_value_no_power(x@, bits as nat);
    }
    None
}

/// A non-trivial divisor of the odd composite `n`, or the factorization of a
/// perfect power as `(root, exponent)`.
pub enum Split {
    Divisor(Natural),
    Power(Natural, u32),
}

/// Split the odd `n`: a perfect power into its root and least prime
/// exponent, anything else by Pollard's rho. `None` only when rho gave up.
pub fn divisor(n: &Natural) -> (r: Option<Split>)
    requires
        n@ % 2 == 1,
        n@ > 1,
        n@ < word_pow((usize::MAX / 64) as nat),
        n@ < pow2(u32::MAX as nat),
    ensures
        match r {
            Some(Split::Power(root, e)) => is_least_power(n@, root@, e as nat),
            Some(Split::Divisor(d)) => {
                &&& 1 < d@ < n@
                &&& n@ % d@ == 0
                &&& not_a_perfect_power(n@)
                &&& rho_outcome(n@) matches Some((e, _)) && e == d@
            },
            None => {
                &&& not_a_perfect_power(n@)
                &&& rho_outcome(n@) is None
                &&& forall|k: nat| 1 <= k <= u64::MAX - 1 ==> !#[trigger] limb_splits_at(n@, k)
            },
        },
{
    match perfect_power(n) {
        Some((root, exp)) => Some(Split::Power(root, exp)),
        None => match pollard_rho(n) {
            Some(d) => Some(Split::Divisor(d)),
            None => None,
        },
    }
}


/// The little-endian 32-bit digits of `x`, from `BigUint::to_u32_digits`.
#[verifier::external_body]
fn u32_digits(x: &Natural) -> (d: Vec<u32>)
    ensures
        digits32_value(d@) == x@,
{
    BigUint::from_bytes_le(&x.bytes).to_u32_digits()
}

/// Widen an arbitrary integer into a [`Natural`], bit by bit.
pub fn to_biguint<T: BitTest>(x: &T) -> (r: Natural)
    requires
        x.bit_value() < pow2((usize::MAX - 7) as nat),
    ensures
        r@ == x.bit_value(),
{
    Natural::from_bits(x)
}

/// Narrow a [`Natural`] back into the caller's integer type, 32-bit digit by
/// digit from the top. The type must hold `2^32` as well as `x`.
pub fn from_biguint<T: Narrow>(x: &Natural) -> (r: T)
    requires
        T::holds(x@),
        T::holds(0x1_0000_0000),
    ensures
        r.narrow_value() == x@,
{
    proof {
        assert((1u64 << 32) == 0x1_0000_0000) by (bit_vector);
    }
    let shift = T::from_u64(1u64 << 32).unwrap();
    let digits = u32_digits(x);
    horner32(digits.as_slice(), &shift)
}

} // verus!
