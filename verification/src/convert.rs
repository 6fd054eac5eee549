//! Moving numbers between the caller's integer types and [`Natural`]: bit by
//! bit into a `Natural`, and digit by digit back into a target type.
use num_bigint::BigUint;
use vstd::prelude::*;
use vstd::arithmetic::div_mod::*;
use vstd::arithmetic::mul::*;
use vstd::arithmetic::power2::{pow2, lemma_pow2_unfold, lemma_pow2_pos, lemma_pow2_adds,
    lemma_pow2_strictly_increases, lemma2_to64};
use vstd::bits::{lemma_u64_shr_is_div, lemma_u128_shr_is_div, lemma_u8_shl_is_mul};
use crate::natural::{
    Natural, bytes_value, byte_pow, lemma_bytes_bound, lemma_bytes_first, lemma_bytes_zero_top,
    lemma_byte_pow_pos,
};
use vstd::bits::lemma_u8_shr_is_div;

verus! {

/// Integers whose binary digits can be read one at a time.
pub trait BitTest {
    /// The number this value stands for.
    spec fn bit_value(&self) -> nat;

    /// The number of binary digits: the least `r` with `value < 2^r`.
    fn bits(&self) -> (r: usize)
        requires
            self.bit_value() < pow2(usize::MAX as nat),
        ensures
            self.bit_value() < pow2(r as nat),
            r == 0 || pow2((r - 1) as nat) <= self.bit_value(),
    ;

    /// Binary digit `i`.
    fn bit(&self, i: usize) -> (b: bool)
        ensures
            b == ((self.bit_value() / pow2(i as nat)) % 2 == 1),
    ;
}

proof fn lemma_shr_bit_u64(x: u64, i: u64)
    requires
        i < 64,
    ensures
        ((x >> i) & 1 == 1) == ((x as nat / pow2(i as nat)) % 2 == 1),
{
    lemma_u64_shr_is_div(x, i);
    let y = x >> i;
    assert((y & 1 == 1) == (y % 2 == 1)) by (bit_vector);
}

proof fn lemma_shr_bit_u128(x: u128, i: u128)
    requires
        i < 128,
    ensures
        ((x >> i) & 1 == 1) == ((x as nat / pow2(i as nat)) % 2 == 1),
{
    lemma_u128_shr_is_div(x, i);
    let y = x >> i;
    assert((y & 1 == 1) == (y % 2 == 1)) by (bit_vector);
}

/// A number below `2^i` has no digit `i`.
proof fn lemma_high_bit_zero(v: nat, i: nat)
    requires
        v < pow2(i),
    ensures
        (v / pow2(i)) % 2 == 0,
{
    lemma_pow2_pos(i);
    lemma_basic_div(v as int, pow2(i) as int);
}

impl BitTest for u64 {
    open spec fn bit_value(&self) -> nat {
        *self as nat
    }

    fn bits(&self) -> (r: usize) {
        let x = *self;
        let mut r: usize = 0;
        proof {
            lemma2_to64();
        }
        while r < 64 && (x >> r) != 0
            invariant
                r <= 64,
                r == 0 || pow2((r - 1) as nat) <= x,
            decreases 64 - r,
        {
            proof {
                lemma_u64_shr_is_div(x, r as u64);
                lemma_pow2_pos(r as nat);
                if x < pow2(r as nat) {
                    lemma_basic_div(x as int, pow2(r as nat) as int);
                }
            }
            r = r + 1;
        }
        proof {
            if r < 64 {
                lemma_u64_shr_is_div(x, r as u64);
                lemma_pow2_pos(r as nat);
                lemma_fundamental_div_mod(x as int, pow2(r as nat) as int);
            }
        }
        r
    }

    fn bit(&self, i: usize) -> (b: bool) {
        if i >= 64 {
            proof {
                lemma2_to64();
                if i > 64 {
                    lemma_pow2_strictly_increases(64, i as nat);
                }
                lemma_high_bit_zero(*self as nat, i as nat);
            }
            false
        } else {
            proof {
                lemma_shr_bit_u64(*self, i as u64);
            }
            (*self >> i) & 1 == 1
        }
    }
}

impl BitTest for u128 {
    open spec fn bit_value(&self) -> nat {
        *self as nat
    }

    fn bits(&self) -> (r: usize) {
        let x = *self;
        let mut r: usize = 0;
        while r < 128 && (x >> r) != 0
            invariant
                r <= 128,
                r == 0 || pow2((r - 1) as nat) <= x,
            decreases 128 - r,
        {
            proof {
                lemma_u128_shr_is_div(x, r as u128);
                lemma_pow2_pos(r as nat);
                if x < pow2(r as nat) {
                    lemma_basic_div(x as int, pow2(r as nat) as int);
                }
            }
            r = r + 1;
        }
        proof {
            if r < 128 {
                lemma_u128_shr_is_div(x, r as u128);
                lemma_pow2_pos(r as nat);
                lemma_fundamental_div_mod(x as int, pow2(r as nat) as int);
            } else {
                lemma_pow2_128();
            }
        }
        r
    }

    fn bit(&self, i: usize) -> (b: bool) {
        if i >= 128 {
            proof {
                lemma_pow2_128();
                if i > 128 {
                    lemma_pow2_strictly_increases(128, i as nat);
                }
                lemma_high_bit_zero(*self as nat, i as nat);
            }
            false
        } else {
            proof {
                lemma_shr_bit_u128(*self, i as u128);
            }
            (*self >> i) & 1 == 1
        }
    }
}

proof fn lemma_pow2_128()
    ensures
        pow2(128) == 0x1_0000_0000_0000_0000_0000_0000_0000_0000nat,
{
    lemma2_to64();
    lemma_pow2_adds(64, 64);
}

/// A byte is eight binary digits.
pub proof fn lemma_byte_pow_pow2(k: nat)
    ensures
        byte_pow(k) == pow2(8 * k),
    decreases k,
{
    lemma2_to64();
    if k > 0 {
        lemma_byte_pow_pow2((k - 1) as nat);
        lemma_pow2_adds(8, 8 * (k - 1) as nat);
        assert(8 + 8 * (k - 1) as nat == 8 * k);
    }
}

/// Raising one byte adds at its place value.
proof fn lemma_bytes_update(s: Seq<u8>, j: int, v: u8)
    requires
        0 <= j < s.len(),
        v >= s[j],
    ensures
        bytes_value(s.update(j, v)) == bytes_value(s) + (v - s[j]) * byte_pow(j as nat),
    decreases s.len(),
{
    let t = s.update(j, v);
    let k = (s.len() - 1) as nat;
    if j == s.len() - 1 {
        assert(t.drop_last() =~= s.drop_last());
        lemma_mul_is_distributive_sub_other_way(byte_pow(k) as int, v as int, s[j] as int);
    } else {
        lemma_bytes_update(s.drop_last(), j, v);
        assert(t.drop_last() =~= s.drop_last().update(j, v));
    }
}

impl Natural {
    /// Widen an integer into a `Natural`, bit by bit.
    pub fn from_bits<T: BitTest>(x: &T) -> (r: Natural)
        requires
            x.bit_value() < pow2((usize::MAX - 7) as nat),
        ensures
            r@ == x.bit_value(),
    {
        proof {
            lemma_pow2_strictly_increases((usize::MAX - 7) as nat, usize::MAX as nat);
        }
        let bits = x.bits();
        proof {
            if bits > usize::MAX - 7 {
                lemma_pow2_strictly_increases((usize::MAX - 7) as nat, (bits - 1) as nat);
            }
        }
        let ghost v = x.bit_value();
        let mut bytes = vec![0u8; (bits + 7) / 8];
        let mut i: usize = 0;
        proof {
            lemma_pow2_pos(0);
            lemma2_to64();
            lemma_zero_bytes(bytes@);
        }
        while i < bits
            invariant
                i <= bits,
                v == x.bit_value(),
                v < pow2(bits as nat),
                bytes@.len() == (bits + 7) / 8,
                bytes_value(bytes@) == v % pow2(i as nat),
                forall|j: int| 0 <= j < bytes@.len() && 8 * j >= i ==> bytes@[j] == 0,
                (i / 8) < bytes@.len() ==> bytes@[(i / 8) as int] < pow2((i % 8) as nat),
            decreases bits - i,
        {
            let ghost old_bytes = bytes@;
            let j = i / 8;
            let s = (i % 8) as u8;
            proof {
                lemma_pow2_pos(i as nat);
                lemma_mod_breakdown(v as int, pow2(i as nat) as int, 2);
                lemma_pow2_unfold((i + 1) as nat);
                lemma_mul_is_commutative(2, pow2(i as nat) as int);
            }
            if x.bit(i) {
                let b = bytes[j];
                proof {
                    lemma_u8_pow2(s as nat);
                    lemma_mul_basics(pow2(s as nat) as int);
                    lemma_u8_shl_is_mul(1, s);
                    assert(b < (1u8 << s));
                    assert((b | (1u8 << s)) == b + (1u8 << s)) by (bit_vector)
                        requires
                            s < 8,
                            b < (1u8 << s),
                    ;
                    assert(b + (1u8 << s) < 256) by (bit_vector)
                        requires
                            s < 8,
                            b < (1u8 << s),
                    ;
                }
                bytes[j] = b | (1u8 << s);
                proof {
                    lemma_bytes_update(old_bytes, j as int, (b + (1u8 << s)) as u8);
                    lemma_byte_pow_pow2(j as nat);
                    lemma_pow2_adds((8 * j) as nat, s as nat);
                    assert(8 * j + s == i);
                    lemma_pow2_unfold((s + 1) as nat);
                    lemma_mul_is_commutative(pow2(s as nat) as int, pow2((8 * j) as nat) as int);
                    assert(bytes_value(bytes@) == bytes_value(old_bytes) + pow2(i as nat));
                    assert((v / pow2(i as nat)) % 2 == 1);
                    lemma_mul_basics(pow2(i as nat) as int);
                    assert(v % pow2((i + 1) as nat) == pow2(i as nat) + v % pow2(i as nat));
                }
            } else {
                proof {
                    lemma_mul_basics(pow2(i as nat) as int);
                    assert((v / pow2(i as nat)) % 2 == 0);
                    assert(v % pow2((i + 1) as nat) == v % pow2(i as nat));
                }
            }
            proof {
                assert forall|k: int| 0 <= k < bytes@.len() && 8 * k >= i + 1 implies bytes@[k] == 0 by {
                    assert(old_bytes[k] == 0);
                }
                if ((i + 1) / 8) < bytes@.len() {
                    if (i + 1) % 8 == 0 {
                        assert(bytes@[((i + 1) / 8) as int] == 0);
                        lemma2_to64();
                    } else {
                        assert((i + 1) / 8 == j);
                        lemma_pow2_unfold((s + 1) as nat);
                        vstd::arithmetic::power2::lemma_pow2_strictly_increases(s as nat, (s + 1) as nat);
                    }
                }
            }
            i = i + 1;
        }
        proof {
            lemma_small_mod(v, pow2(bits as nat));
        }
        Natural { bytes }
    }
}

proof fn lemma_u8_pow2(s: nat)
    requires
        s < 8,
    ensures
        pow2(s) < 256,
        pow2(s + 1) <= 256,
{
    lemma2_to64();
    if s < 7 {
        lemma_pow2_strictly_increases(s, 7);
        lemma_pow2_strictly_increases(s + 1, 8);
    }
}

proof fn lemma_zero_bytes(s: Seq<u8>)
    requires
        forall|j: int| 0 <= j < s.len() ==> s[j] == 0,
    ensures
        bytes_value(s) == 0,
    decreases s.len(),
{
    if s.len() > 0 {
        lemma_zero_bytes(s.drop_last());
        lemma_mul_basics(byte_pow((s.len() - 1) as nat) as int);
    }
}

/// The bytes from index `k` up stand for the number divided by `byte_pow(k)`.
proof fn lemma_bytes_split(s: Seq<u8>, k: int)
    requires
        0 <= k <= s.len(),
    ensures
        bytes_value(s) == bytes_value(s.subrange(0, k)) + byte_pow(k as nat) * bytes_value(
            s.subrange(k, s.len() as int),
        ),
    decreases s.len(),
{
    if k == s.len() {
        assert(s.subrange(0, k) =~= s);
        assert(s.subrange(k, s.len() as int).len() == 0);
        assert(bytes_value(s.subrange(k, s.len() as int)) == 0);
        lemma_mul_basics(byte_pow(k as nat) as int);
    } else {
        let t = s.drop_last();
        let m = s.len() - 1;
        assert(bytes_value(s) == bytes_value(t) + s.last() as nat * byte_pow(m as nat));
        lemma_bytes_split(t, k);
        assert(t.subrange(0, k) =~= s.subrange(0, k));
        let hi = s.subrange(k, s.len() as int);
        assert(hi.drop_last() =~= t.subrange(k, t.len() as int));
        assert(hi.last() == s.last());
        assert(bytes_value(hi) == bytes_value(hi.drop_last()) + s.last() as nat * byte_pow(
            (m - k) as nat,
        ));
        crate::natural::lemma_byte_pow_adds(k as nat, (m - k) as nat);
        lemma_mul_is_distributive_add(
            byte_pow(k as nat) as int,
            bytes_value(hi.drop_last()) as int,
            (s.last() as nat * byte_pow((m - k) as nat)) as int,
        );
        lemma_mul_is_associative(byte_pow(k as nat) as int, s.last() as int, byte_pow((m - k) as nat) as int);
        lemma_mul_is_associative(s.last() as int, byte_pow(k as nat) as int, byte_pow((m - k) as nat) as int);
        lemma_mul_is_commutative(byte_pow(k as nat) as int, s.last() as int);
    }
}

impl BitTest for Natural {
    open spec fn bit_value(&self) -> nat {
        self@
    }

    fn bits(&self) -> (r: usize) {
        let mut k = self.bytes.len();
        while k > 0 && self.bytes[k - 1] == 0
            invariant
                k <= self.bytes@.len(),
                forall|i: int| k <= i < self.bytes@.len() ==> self.bytes@[i] == 0,
            decreases k,
        {
            k = k - 1;
        }
        proof {
            lemma_bytes_zero_top(self.bytes@, k as int);
        }
        if k == 0 {
            proof {
                assert(self.bytes@.subrange(0, 0).len() == 0);
                lemma_pow2_pos(0);
            }
            return 0;
        }
        let b = self.bytes[k - 1];
        let mut t: usize = 0;
        while t < 8 && (b >> t) != 0
            invariant
                t <= 8,
                t == 0 || pow2((t - 1) as nat) <= b,
            decreases 8 - t,
        {
            proof {
                lemma_u8_shr_is_div(b, t as u8);
                lemma_pow2_pos(t as nat);
                if b < pow2(t as nat) {
                    lemma_basic_div(b as int, pow2(t as nat) as int);
                }
            }
            t = t + 1;
        }
        let ghost low = bytes_value(self.bytes@.subrange(0, k - 1));
        let ghost p = byte_pow((k - 1) as nat);
        proof {
            lemma2_to64();
            if t < 8 {
                lemma_u8_shr_is_div(b, t as u8);
                lemma_pow2_pos(t as nat);
                lemma_fundamental_div_mod(b as int, pow2(t as nat) as int);
            }
            assert(b < pow2(t as nat));
            assert(t >= 1) by {
                if t == 0 {
                    assert(b < 1);
                }
            }
            let top = self.bytes@.subrange(0, k as int);
            assert(top.drop_last() =~= self.bytes@.subrange(0, k - 1));
            assert(self@ == low + b as nat * p);
            lemma_bytes_bound(self.bytes@.subrange(0, k - 1));
            lemma_byte_pow_pow2((k - 1) as nat);
            lemma_pow2_adds((8 * (k - 1)) as nat, t as nat);
            lemma_pow2_adds((8 * (k - 1)) as nat, (t - 1) as nat);
            // value < 2^(8(k-1)+t)
            lemma_mul_inequality(b as int + 1, pow2(t as nat) as int, p as int);
            lemma_mul_is_distributive_add_other_way(p as int, b as int, 1);
            lemma_mul_is_commutative(pow2(t as nat) as int, p as int);
            // value >= 2^(8(k-1)+t-1)
            lemma_mul_inequality(pow2((t - 1) as nat) as int, b as int, p as int);
            lemma_mul_is_commutative(pow2((t - 1) as nat) as int, p as int);
            // the bit count fits
            assert(8 * (k - 1) + t - 1 < usize::MAX) by {
                if 8 * (k - 1) + t - 1 >= usize::MAX {
                    if 8 * (k - 1) + t - 1 > usize::MAX {
                        lemma_pow2_strictly_increases(usize::MAX as nat, (8 * (k - 1) + t - 1) as nat);
                    }
                }
            }
        }
        8 * (k - 1) + t
    }

    fn bit(&self, i: usize) -> (b: bool) {
        let j = i / 8;
        let r = (i % 8) as u8;
        let ghost v = self@;
        proof {
            lemma_byte_pow_pow2(j as nat);
            lemma_pow2_adds((8 * j) as nat, r as nat);
            assert(8 * j + r == i);
            lemma_byte_pow_pos(j as nat);
            lemma_pow2_pos(r as nat);
        }
        if j >= self.bytes.len() {
            proof {
                lemma_bytes_bound(self.bytes@);
                crate::natural::lemma_byte_pow_adds(self.bytes@.len(), (j - self.bytes@.len()) as nat);
                lemma_byte_pow_pos((j - self.bytes@.len()) as nat);
                lemma_mul_increases(
                    byte_pow((j - self.bytes@.len()) as nat) as int,
                    byte_pow(self.bytes@.len()) as int,
                );
                lemma_mul_is_commutative(
                    byte_pow((j - self.bytes@.len()) as nat) as int,
                    byte_pow(self.bytes@.len()) as int,
                );
                lemma_mul_increases(pow2(r as nat) as int, byte_pow(j as nat) as int);
                lemma_high_bit_zero(v, i as nat);
            }
            return false;
        }
        let byte = self.bytes[j];
        proof {
            let s = self.bytes@;
            let lowv = bytes_value(s.subrange(0, j as int));
            let hi = s.subrange(j as int, s.len() as int);
            let h = bytes_value(hi);
            lemma_bytes_split(s, j as int);
            lemma_bytes_bound(s.subrange(0, j as int));
            lemma_bytes_first(hi);
            let h2 = bytes_value(hi.drop_first());
            assert(h == byte as nat + 256 * h2);
            let p = byte_pow(j as nat) as int;
            let q = pow2(r as nat) as int;
            // v / 2^i == (v / p) / q
            lemma_div_denominator(v as int, p, q);
            lemma_mul_is_commutative(p, q);
            lemma_mul_is_commutative(h as int, p);
            lemma_fundamental_div_mod_converse_div(v as int, p, h as int, lowv as int);
            // h / q == byte / q + 2^(8-r) * h2
            lemma_pow2_adds(r as nat, (8 - r) as nat);
            lemma2_to64();
            let w = pow2((8 - r) as nat) as int;
            assert(256 == q * w);
            assert(h == byte as int + q * (w * h2)) by {
                lemma_mul_is_associative(q, w, h2 as int);
            }
            assert(h as int / q == byte as int / q + w * h2) by {
                lemma_mul_is_commutative(q, w * h2);
                lemma_fundamental_div_mod(byte as int, q);
                lemma_mul_is_distributive_add_other_way(q, byte as int / q, w * h2);
                lemma_mul_is_commutative(byte as int / q, q);
                assert(h == (byte as int / q + w * h2) * q + byte as int % q);
                lemma_fundamental_div_mod_converse_div(
                    h as int,
                    q,
                    byte as int / q + w * h2,
                    byte as int % q,
                );
                lemma_mul_is_distributive_add_other_way(q, byte as int / q, w * h2);
                lemma_mul_is_commutative(byte as int / q, q);
            }
            // w is even, so it drops out modulo two
            lemma_pow2_unfold((8 - r) as nat);
            let w2 = pow2((7 - r) as nat) as int;
            assert(w * h2 == 2 * (w2 * h2)) by {
                lemma_mul_is_associative(2, w2, h2 as int);
            }
            lemma_mod_multiples_vanish(w2 * h2, byte as int / q, 2);
            lemma_u8_shr_is_div(byte, r);
            let y = byte >> r;
            assert((y & 1 == 1) == (y % 2 == 1)) by (bit_vector);
        }
        (byte >> r) & 1 == 1
    }
}

/// Integer types that a [`Natural`] can be narrowed into, digit by digit.
pub trait Narrow: Sized {
    /// The number this value stands for.
    spec fn narrow_value(&self) -> nat;

    /// Whether the type can hold `v`.
    spec fn holds(v: nat) -> bool;

    /// A type that holds a number holds every smaller one.
    proof fn lemma_holds_down(v: nat, w: nat)
        requires
            Self::holds(v),
            w <= v,
        ensures
            Self::holds(w),
    ;

    fn zero() -> (r: Self)
        ensures
            r.narrow_value() == 0,
    ;

    fn from_u32(v: u32) -> (r: Option<Self>)
        ensures
            r is Some <==> Self::holds(v as nat),
            r matches Some(t) ==> t.narrow_value() == v,
    ;

    fn from_u64(v: u64) -> (r: Option<Self>)
        ensures
            r is Some <==> Self::holds(v as nat),
            r matches Some(t) ==> t.narrow_value() == v,
    ;

    fn from_u128(v: u128) -> (r: Option<Self>)
        ensures
            r is Some <==> Self::holds(v as nat),
            r matches Some(t) ==> t.narrow_value() == v,
    ;

    fn times(&self, other: &Self) -> (r: Self)
        requires
            Self::holds(self.narrow_value() * other.narrow_value()),
        ensures
            r.narrow_value() == self.narrow_value() * other.narrow_value(),
    ;

    fn plus(&self, other: &Self) -> (r: Self)
        requires
            Self::holds(self.narrow_value() + other.narrow_value()),
        ensures
            r.narrow_value() == self.narrow_value() + other.narrow_value(),
    ;
}

impl Narrow for u32 {
    open spec fn narrow_value(&self) -> nat {
        *self as nat
    }

    open spec fn holds(v: nat) -> bool {
        v <= u32::MAX
    }

    proof fn lemma_holds_down(v: nat, w: nat) {
    }

    fn zero() -> (r: Self) {
        0
    }

    fn from_u32(v: u32) -> (r: Option<Self>) {
        Some(v)
    }

    fn from_u64(v: u64) -> (r: Option<Self>) {
        if v <= u32::MAX as u64 {
            Some(v as u32)
        } else {
            None
        }
    }

    fn from_u128(v: u128) -> (r: Option<Self>) {
        if v <= u32::MAX as u128 {
            Some(v as u32)
        } else {
            None
        }
    }

    fn times(&self, other: &Self) -> (r: Self) {
        *self * *other
    }

    fn plus(&self, other: &Self) -> (r: Self) {
        *self + *other
    }
}

impl Narrow for u64 {
    open spec fn narrow_value(&self) -> nat {
        *self as nat
    }

    open spec fn holds(v: nat) -> bool {
        v <= u64::MAX
    }

    proof fn lemma_holds_down(v: nat, w: nat) {
    }

    fn zero() -> (r: Self) {
        0
    }

    fn from_u32(v: u32) -> (r: Option<Self>) {
        Some(v as u64)
    }

    fn from_u64(v: u64) -> (r: Option<Self>) {
        Some(v)
    }

    fn from_u128(v: u128) -> (r: Option<Self>) {
        if v <= u64::MAX as u128 {
            Some(v as u64)
        } else {
            None
        }
    }

    fn times(&self, other: &Self) -> (r: Self) {
        *self * *other
    }

    fn plus(&self, other: &Self) -> (r: Self) {
        *self + *other
    }
}

impl Narrow for u128 {
    open spec fn narrow_value(&self) -> nat {
        *self as nat
    }

    open spec fn holds(v: nat) -> bool {
        v <= u128::MAX
    }

    proof fn lemma_holds_down(v: nat, w: nat) {
    }

    fn zero() -> (r: Self) {
        0
    }

    fn from_u32(v: u32) -> (r: Option<Self>) {
        Some(v as u128)
    }

    fn from_u64(v: u64) -> (r: Option<Self>) {
        Some(v as u128)
    }

    fn from_u128(v: u128) -> (r: Option<Self>) {
        Some(v)
    }

    fn times(&self, other: &Self) -> (r: Self) {
        *self * *other
    }

    fn plus(&self, other: &Self) -> (r: Self) {
        *self + *other
    }
}

/// `a * b`, from `BigUint`'s `*`.
#[verifier::external_body]
fn big_mul(a: &Natural, b: &Natural) -> (r: Natural)
    ensures
        r@ == a@ * b@,
{
    Natural { bytes: (BigUint::from_bytes_le(&a.bytes) * BigUint::from_bytes_le(&b.bytes)).to_bytes_le() }
}

/// `a + b`, from `BigUint`'s `+`.
#[verifier::external_body]
fn big_add(a: &Natural, b: &Natural) -> (r: Natural)
    ensures
        r@ == a@ + b@,
{
    Natural { bytes: (BigUint::from_bytes_le(&a.bytes) + BigUint::from_bytes_le(&b.bytes)).to_bytes_le() }
}

impl Narrow for Natural {
    open spec fn narrow_value(&self) -> nat {
        self@
    }

    open spec fn holds(v: nat) -> bool {
        true
    }

    proof fn lemma_holds_down(v: nat, w: nat) {
    }

    fn zero() -> (r: Self) {
        proof {
            assert(bytes_value(Seq::<u8>::empty()) == 0);
        }
        Natural { bytes: Vec::new() }
    }

    fn from_u32(v: u32) -> (r: Option<Self>) {
        Some(Natural::from_u64(v as u64))
    }

    fn from_u64(v: u64) -> (r: Option<Self>) {
        Some(Natural::from_u64(v))
    }

    fn from_u128(v: u128) -> (r: Option<Self>) {
        let mut bytes: Vec<u8> = Vec::new();
        crate::natural::push_limb(&mut bytes, v as u64);
        crate::natural::push_limb(&mut bytes, (v >> 64) as u64);
        proof {
            assert(bytes_value(Seq::<u8>::empty()) == 0);
            assert(byte_pow(0) == 1);
            lemma_byte_pow_pow2(8);
            lemma2_to64();
            assert(v as nat == (v as u64) as nat + ((v >> 64) as u64) as nat * 0x1_0000_0000_0000_0000)
                by (bit_vector);
            lemma_mul_basics((v as u64) as int);
        }
        Some(Natural { bytes })
    }

    fn times(&self, other: &Self) -> (r: Self) {
        big_mul(self, other)
    }

    fn plus(&self, other: &Self) -> (r: Self) {
        big_add(self, other)
    }
}

/// A `u128` widened into a `Natural` and narrowed back into a `u128` is the
/// same number: both traits read it as itself, and a `u128` holds it.
pub proof fn lemma_widen_narrow_u128(v: u128)
    ensures
        v.bit_value() == v.narrow_value(),
        u128::holds(v.bit_value()),
        u128::holds(0x1_0000_0000),
{
}

/// A `u64` widened and narrowed back is the same number.
pub proof fn lemma_widen_narrow_u64(v: u64)
    ensures
        v.bit_value() == v.narrow_value(),
        u64::holds(v.bit_value()),
        u64::holds(0x1_0000_0000),
{
}

/// A `Natural` widened and narrowed back is the same number.
pub proof fn lemma_widen_narrow_natural(v: Natural)
    ensures
        v.bit_value() == v.narrow_value(),
        v.bit_value() == v@,
        Natural::holds(v.bit_value()),
        Natural::holds(0x1_0000_0000),
{
}


/// The number that the little-endian 32-bit digits `s` stand for.
pub open spec fn digits32_value(s: Seq<u32>) -> nat
    decreases s.len(),
{
    if s.len() == 0 {
        0
    } else {
        s[0] as nat + 0x1_0000_0000 * digits32_value(s.drop_first())
    }
}

/// A number is at least what its digits from index `k` up stand for.
proof fn lemma_digits32_suffix_le(s: Seq<u32>, k: int)
    requires
        0 <= k <= s.len(),
    ensures
        digits32_value(s.subrange(k, s.len() as int)) <= digits32_value(s),
    decreases k,
{
    if k == 0 {
        assert(s.subrange(0, s.len() as int) =~= s);
    } else {
        lemma_digits32_suffix_le(s, k - 1);
        let prev = s.subrange(k - 1, s.len() as int);
        assert(prev.drop_first() =~= s.subrange(k, s.len() as int));
    }
}

/// Horner's rule from the top digit: `acc = acc * 2^32 + digit`.
pub fn horner32<T: Narrow>(digits: &[u32], shift: &T) -> (r: T)
    requires
        shift.narrow_value() == 0x1_0000_0000,
        T::holds(digits32_value(digits@)),
    ensures
        r.narrow_value() == digits32_value(digits@),
{
    let mut acc = T::zero();
    let mut i = digits.len();
    proof {
        assert(digits@.subrange(i as int, i as int).len() == 0);
    }
    while i > 0
        invariant
            i <= digits@.len(),
            shift.narrow_value() == 0x1_0000_0000,
            T::holds(digits32_value(digits@)),
            acc.narrow_value() == digits32_value(digits@.subrange(i as int, digits@.len() as int)),
        decreases i,
    {
        i = i - 1;
        let ghost tail = digits@.subrange((i + 1) as int, digits@.len() as int);
        let ghost here = digits@.subrange(i as int, digits@.len() as int);
        proof {
            assert(here.drop_first() =~= tail);
            assert(here[0] == digits@[i as int]);
            assert(digits32_value(here) == digits@[i as int] as nat + 0x1_0000_0000 * digits32_value(tail));
            lemma_digits32_suffix_le(digits@, i as int);
            T::lemma_holds_down(digits32_value(digits@), digits32_value(here));
            T::lemma_holds_down(digits32_value(digits@), acc.narrow_value() * 0x1_0000_0000);
            lemma_mul_is_commutative(acc.narrow_value() as int, 0x1_0000_0000);
            T::lemma_holds_down(digits32_value(digits@), digits@[i as int] as nat);
        }
        let digit = T::from_u32(digits[i]).unwrap();
        acc = acc.times(shift).plus(&digit);
    }
    proof {
        assert(digits@.subrange(0, digits@.len() as int) =~= digits@);
    }
    acc
}

/// Byte `i` of `s`, zero past the end.
pub open spec fn byte_or_zero(s: Seq<u8>, i: int) -> nat {
    if 0 <= i < s.len() {
        s[i] as nat
    } else {
        0
    }
}

/// The bytes from `a` up, as their lowest byte and the rest shifted down.
proof fn lemma_bytes_from_step(s: Seq<u8>, a: int)
    requires
        0 <= a <= s.len(),
    ensures
        bytes_value(s.subrange(a, s.len() as int)) == byte_or_zero(s, a) + 256 * bytes_value(
            s.subrange(if a + 1 <= s.len() { a + 1 } else { s.len() as int }, s.len() as int),
        ),
{
    let t = s.subrange(a, s.len() as int);
    if a == s.len() {
        assert(t.len() == 0);
        assert(bytes_value(t) == 0);
    } else {
        lemma_bytes_first(t);
        assert(t.drop_first() =~= s.subrange(a + 1, s.len() as int));
    }
}

/// The bytes from `a` up, as a little-endian 32-bit digit and the rest
/// shifted down by four bytes.
pub proof fn lemma_bytes_from_chunk(s: Seq<u8>, a: int)
    requires
        0 <= a <= s.len(),
    ensures
        bytes_value(s.subrange(a, s.len() as int)) == byte_or_zero(s, a) + 0x100 * byte_or_zero(s, a + 1)
            + 0x1_0000 * byte_or_zero(s, a + 2) + 0x100_0000 * byte_or_zero(s, a + 3) + 0x1_0000_0000
            * bytes_value(
            s.subrange(if a + 4 <= s.len() { a + 4 } else { s.len() as int }, s.len() as int),
        ),
{
    let l = s.len() as int;
    let a1 = if a + 1 <= l { a + 1 } else { l };
    let a2 = if a1 + 1 <= l { a1 + 1 } else { l };
    let a3 = if a2 + 1 <= l { a2 + 1 } else { l };
    let a4 = if a3 + 1 <= l { a3 + 1 } else { l };
    lemma_bytes_from_step(s, a);
    lemma_bytes_from_step(s, a1);
    lemma_bytes_from_step(s, a2);
    lemma_bytes_from_step(s, a3);
    assert(byte_or_zero(s, a1) == byte_or_zero(s, a + 1));
    assert(byte_or_zero(s, a2) == byte_or_zero(s, a + 2));
    assert(byte_or_zero(s, a3) == byte_or_zero(s, a + 3));
    assert(a4 == if a + 4 <= l { a + 4 } else { l });
}

/// A number is at least what its bytes from index `a` up stand for.
pub proof fn lemma_bytes_suffix_le(s: Seq<u8>, a: int)
    requires
        0 <= a <= s.len(),
    ensures
        bytes_value(s.subrange(a, s.len() as int)) <= bytes_value(s),
{
    lemma_bytes_split(s, a);
    crate::natural::lemma_byte_pow_pos(a as nat);
    let h = bytes_value(s.subrange(a, s.len() as int));
    if h > 0 {
        lemma_mul_increases(byte_pow(a as nat) as int, h as int);
        lemma_mul_is_commutative(byte_pow(a as nat) as int, h as int);
    }
}

} // verus!
