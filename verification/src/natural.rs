//! Natural numbers of any size, held as little-endian bytes.
use vstd::prelude::*;
use vstd::arithmetic::mul::*;
use crate::limbs::{word, word_pow, lemma_word_pow_succ};

verus! {

/// A natural number of any size, as little-endian bytes. Zero bytes at the
/// top are allowed and do not change the number.
pub struct Natural {
    pub bytes: Vec<u8>,
}

/// `256` raised to the power `k`.
pub open spec fn byte_pow(k: nat) -> nat
    decreases k,
{
    if k == 0 {
        1
    } else {
        256 * byte_pow((k - 1) as nat)
    }
}

/// The number that the little-endian bytes `s` stand for.
pub open spec fn bytes_value(s: Seq<u8>) -> nat
    decreases s.len(),
{
    if s.len() == 0 {
        0
    } else {
        bytes_value(s.drop_last()) + s.last() as nat * byte_pow((s.len() - 1) as nat)
    }
}

impl View for Natural {
    type V = nat;

    open spec fn view(&self) -> nat {
        bytes_value(self.bytes@)
    }
}

pub proof fn lemma_bytes_push(s: Seq<u8>, b: u8)
    ensures
        bytes_value(s.push(b)) == bytes_value(s) + b as nat * byte_pow(s.len()),
{
    assert(s.push(b).drop_last() =~= s);
}

pub proof fn lemma_byte_pow_adds(a: nat, b: nat)
    ensures
        byte_pow(a + b) == byte_pow(a) * byte_pow(b),
    decreases b,
{
    if b == 0 {
        assert(byte_pow(a) * 1 == byte_pow(a));
    } else {
        lemma_byte_pow_adds(a, (b - 1) as nat);
        assert(byte_pow(a + b) == 256 * byte_pow((a + b - 1) as nat));
        lemma_mul_is_associative(256, byte_pow(a) as int, byte_pow((b - 1) as nat) as int);
        lemma_mul_is_associative(byte_pow(a) as int, 256, byte_pow((b - 1) as nat) as int);
        lemma_mul_is_commutative(256, byte_pow(a) as int);
    }
}

/// Eight bytes make a limb.
pub proof fn lemma_byte_pow_word(i: nat)
    ensures
        byte_pow(8 * i) == word_pow(i),
    decreases i,
{
    if i > 0 {
        lemma_byte_pow_word((i - 1) as nat);
        lemma_byte_pow_adds(8 * (i - 1) as nat, 8);
        assert(8 * (i - 1) as nat + 8 == 8 * i);
        assert(byte_pow(8) == word()) by {
            reveal_with_fuel(byte_pow, 9);
        }
        lemma_word_pow_succ((i - 1) as nat);
    }
}

pub proof fn lemma_byte_pow_pos(k: nat)
    ensures
        byte_pow(k) > 0,
    decreases k,
{
    if k > 0 {
        lemma_byte_pow_pos((k - 1) as nat);
    }
}

/// `k` bytes stand for a number below `byte_pow(k)`.
pub proof fn lemma_bytes_bound(s: Seq<u8>)
    ensures
        bytes_value(s) < byte_pow(s.len()),
    decreases s.len(),
{
    if s.len() > 0 {
        let k = (s.len() - 1) as nat;
        lemma_bytes_bound(s.drop_last());
        lemma_byte_pow_pos(k);
        lemma_mul_inequality(s.last() as int, 255, byte_pow(k) as int);
    }
}

/// The lowest byte, and the rest shifted down by one byte.
pub proof fn lemma_bytes_first(s: Seq<u8>)
    requires
        s.len() >= 1,
    ensures
        bytes_value(s) == s[0] as nat + 256 * bytes_value(s.drop_first()),
    decreases s.len(),
{
    if s.len() == 1 {
        assert(s.drop_last().len() == 0);
        assert(s.drop_first().len() == 0);
        assert(bytes_value(s) == bytes_value(s.drop_last()) + s.last() as nat * byte_pow(0));
        lemma_mul_basics(s[0] as int);
    } else {
        let t = s.drop_last();
        lemma_bytes_first(t);
        assert(t.drop_first() =~= s.drop_first().drop_last());
        let k = (s.len() - 2) as nat;
        assert(s.drop_first().last() == s.last());
        assert(bytes_value(s.drop_first()) == bytes_value(t.drop_first()) + s.last() as nat
            * byte_pow(k));
        assert(bytes_value(s) == bytes_value(t) + s.last() as nat * byte_pow(k + 1));
        assert(byte_pow(k + 1) == 256 * byte_pow(k));
        assert(s.last() as nat * (256 * byte_pow(k)) == 256 * (s.last() as nat * byte_pow(k))) by {
            lemma_mul_is_associative(s.last() as int, 256, byte_pow(k) as int);
            lemma_mul_is_associative(256, s.last() as int, byte_pow(k) as int);
            lemma_mul_is_commutative(s.last() as int, 256);
        }
        lemma_mul_is_distributive_add(
            256,
            bytes_value(t.drop_first()) as int,
            (s.last() as nat * byte_pow(k)) as int,
        );
    }
}

/// Zero bytes on top do not change the number.
pub proof fn lemma_bytes_zero_top(s: Seq<u8>, k: int)
    requires
        0 <= k <= s.len(),
        forall|i: int| k <= i < s.len() ==> s[i] == 0,
    ensures
        bytes_value(s) == bytes_value(s.subrange(0, k)),
    decreases s.len(),
{
    if k == s.len() {
        assert(s.subrange(0, k) =~= s);
    } else {
        lemma_bytes_zero_top(s.drop_last(), k);
        assert(s.drop_last().subrange(0, k) =~= s.subrange(0, k));
        assert(s.last() == 0);
        lemma_mul_basics(byte_pow((s.len() - 1) as nat) as int);
    }
}

impl Natural {
    /// The same bytes, in a vector of their own.
    pub fn copy(&self) -> (r: Natural)
        ensures
            r.bytes@ == self.bytes@,
            r@ == self@,
    {
        let bytes = self.bytes.clone();
        proof {
            assert(bytes@ =~= self.bytes@);
        }
        Natural { bytes }
    }

    /// The number `v`.
    pub fn from_u64(v: u64) -> (r: Natural)
        ensures
            r@ == v,
    {
        let mut bytes: Vec<u8> = Vec::new();
        push_limb(&mut bytes, v);
        proof {
            assert(bytes_value(Seq::<u8>::empty()) == 0);
            assert(byte_pow(0) == 1);
            lemma_mul_basics(v as int);
        }
        Natural { bytes }
    }
}

proof fn lemma_dist_step(acc: int, x: int, c: int, p: int)
    ensures
        (acc + c * x) * p == acc * p + x * (p * c),
{
    assert((acc + c * x) * p == acc * p + x * (p * c)) by (nonlinear_arith);
}

/// Append the eight little-endian bytes of `v`.
pub fn push_limb(bytes: &mut Vec<u8>, v: u64)
    ensures
        final(bytes)@.len() == old(bytes)@.len() + 8,
        bytes_value(final(bytes)@) == bytes_value(old(bytes)@) + v as nat * byte_pow(
            old(bytes)@.len(),
        ),
{
    let ghost s0 = bytes@;
    let b0 = v as u8;
    let b1 = (v >> 8) as u8;
    let b2 = (v >> 16) as u8;
    let b3 = (v >> 24) as u8;
    let b4 = (v >> 32) as u8;
    let b5 = (v >> 40) as u8;
    let b6 = (v >> 48) as u8;
    let b7 = (v >> 56) as u8;
    proof {
        assert(v as int == b0 as int + 0x100 * b1 as int + 0x1_0000 * b2 as int + 0x100_0000 * b3 as int
            + 0x1_0000_0000 * b4 as int + 0x100_0000_0000 * b5 as int + 0x1_0000_0000_0000 * b6 as int
            + 0x100_0000_0000_0000 * b7 as int) by (bit_vector)
            requires
                b0 == v as u8,
                b1 == (v >> 8) as u8,
                b2 == (v >> 16) as u8,
                b3 == (v >> 24) as u8,
                b4 == (v >> 32) as u8,
                b5 == (v >> 40) as u8,
                b6 == (v >> 48) as u8,
                b7 == (v >> 56) as u8,
        ;
    }
    bytes.push(b0);
    bytes.push(b1);
    bytes.push(b2);
    bytes.push(b3);
    bytes.push(b4);
    bytes.push(b5);
    bytes.push(b6);
    bytes.push(b7);
    proof {
        let n = s0.len();
        let s1 = s0.push(b0);
        let s2 = s1.push(b1);
        let s3 = s2.push(b2);
        let s4 = s3.push(b3);
        let s5 = s4.push(b4);
        let s6 = s5.push(b5);
        let s7 = s6.push(b6);
        let s8 = s7.push(b7);
        assert(bytes@ == s8);
        lemma_bytes_push(s0, b0);
        lemma_bytes_push(s1, b1);
        lemma_bytes_push(s2, b2);
        lemma_bytes_push(s3, b3);
        lemma_bytes_push(s4, b4);
        lemma_bytes_push(s5, b5);
        lemma_bytes_push(s6, b6);
        lemma_bytes_push(s7, b7);
        let p = byte_pow(n) as int;
        assert(byte_pow(1) == 0x100) by {
            reveal_with_fuel(byte_pow, 9);
        }
        assert(byte_pow(2) == 0x1_0000) by {
            reveal_with_fuel(byte_pow, 9);
        }
        assert(byte_pow(3) == 0x100_0000) by {
            reveal_with_fuel(byte_pow, 9);
        }
        assert(byte_pow(4) == 0x1_0000_0000) by {
            reveal_with_fuel(byte_pow, 9);
        }
        assert(byte_pow(5) == 0x100_0000_0000) by {
            reveal_with_fuel(byte_pow, 9);
        }
        assert(byte_pow(6) == 0x1_0000_0000_0000) by {
            reveal_with_fuel(byte_pow, 9);
        }
        assert(byte_pow(7) == 0x100_0000_0000_0000) by {
            reveal_with_fuel(byte_pow, 9);
        }
        lemma_byte_pow_adds(n, 1);
        lemma_byte_pow_adds(n, 2);
        lemma_byte_pow_adds(n, 3);
        lemma_byte_pow_adds(n, 4);
        lemma_byte_pow_adds(n, 5);
        lemma_byte_pow_adds(n, 6);
        lemma_byte_pow_adds(n, 7);
        let a1 = b0 as int;
        let a2 = a1 + 0x100 * b1 as int;
        let a3 = a2 + 0x1_0000 * b2 as int;
        let a4 = a3 + 0x100_0000 * b3 as int;
        let a5 = a4 + 0x1_0000_0000 * b4 as int;
        let a6 = a5 + 0x100_0000_0000 * b5 as int;
        let a7 = a6 + 0x1_0000_0000_0000 * b6 as int;
        let a8 = a7 + 0x100_0000_0000_0000 * b7 as int;
        lemma_mul_basics(p);
        lemma_dist_step(a1, b1 as int, 0x100, p);
        lemma_dist_step(a2, b2 as int, 0x1_0000, p);
        lemma_dist_step(a3, b3 as int, 0x100_0000, p);
        lemma_dist_step(a4, b4 as int, 0x1_0000_0000, p);
        lemma_dist_step(a5, b5 as int, 0x100_0000_0000, p);
        lemma_dist_step(a6, b6 as int, 0x1_0000_0000_0000, p);
        lemma_dist_step(a7, b7 as int, 0x100_0000_0000_0000, p);
        assert(a8 == v as int);
    }
}

} // verus!
