//! Little-endian sequences of 64-bit limbs and the numbers they stand for.
use vstd::prelude::*;
use vstd::arithmetic::div_mod::*;
use vstd::arithmetic::mul::*;

verus! {

/// The radix of a limb, 2^64.
pub open spec fn word() -> nat {
    0x1_0000_0000_0000_0000nat
}

/// `word()` raised to the power `k`.
pub open spec fn word_pow(k: nat) -> nat
    decreases k,
{
    if k == 0 {
        1
    } else {
        word() * word_pow((k - 1) as nat)
    }
}

/// The number that the little-endian limbs `s` stand for.
pub open spec fn limbs_value(s: Seq<u64>) -> nat
    decreases s.len(),
{
    if s.len() == 0 {
        0
    } else {
        limbs_value(s.drop_last()) + s.last() as nat * word_pow((s.len() - 1) as nat)
    }
}

/// The number that the first `k` limbs of `s` stand for.
pub open spec fn prefix_value(s: Seq<u64>, k: int) -> nat {
    limbs_value(s.subrange(0, k))
}

pub proof fn lemma_word_pow_pos(k: nat)
    ensures
        word_pow(k) > 0,
    decreases k,
{
    if k > 0 {
        lemma_word_pow_pos((k - 1) as nat);
        lemma_mul_strictly_positive(word() as int, word_pow((k - 1) as nat) as int);
    }
}

pub proof fn lemma_word_pow_succ(k: nat)
    ensures
        word_pow(k + 1) == word_pow(k) * word(),
        word_pow(k + 1) == word() * word_pow(k),
{
    assert(word_pow(k + 1) == word() * word_pow(k));
    lemma_mul_is_commutative(word() as int, word_pow(k) as int);
}

pub proof fn lemma_word_pow_mono(a: nat, b: nat)
    requires
        a <= b,
    ensures
        word_pow(a) <= word_pow(b),
    decreases b,
{
    if a < b {
        lemma_word_pow_mono(a, (b - 1) as nat);
        lemma_word_pow_pos((b - 1) as nat);
        lemma_word_pow_succ((b - 1) as nat);
        lemma_mul_increases(word() as int, word_pow((b - 1) as nat) as int);
    }
}

pub proof fn lemma_word_pow_adds(a: nat, b: nat)
    ensures
        word_pow(a + b) == word_pow(a) * word_pow(b),
    decreases b,
{
    if b == 0 {
        assert(word_pow(a) * 1 == word_pow(a));
    } else {
        lemma_word_pow_adds(a, (b - 1) as nat);
        lemma_word_pow_succ((a + b - 1) as nat);
        lemma_word_pow_succ((b - 1) as nat);
        lemma_mul_is_associative(word_pow(a) as int, word_pow((b - 1) as nat) as int, word() as int);
    }
}

/// Appending a limb adds it at the next power of the radix.
pub proof fn lemma_prefix_step(s: Seq<u64>, j: int)
    requires
        0 <= j < s.len(),
    ensures
        prefix_value(s, j + 1) == prefix_value(s, j) + s[j] as nat * word_pow(j as nat),
{
    let p = s.subrange(0, j + 1);
    assert(p.drop_last() =~= s.subrange(0, j));
}

pub proof fn lemma_prefix_full(s: Seq<u64>)
    ensures
        prefix_value(s, s.len() as int) == limbs_value(s),
{
    assert(s.subrange(0, s.len() as int) =~= s);
}

pub proof fn lemma_prefix_zero(s: Seq<u64>)
    ensures
        prefix_value(s, 0) == 0,
{
    assert(s.subrange(0, 0).len() == 0);
}

/// Limbs below index `k` are not touched by writing at an index at or above `k`.
pub proof fn lemma_prefix_update(s: Seq<u64>, k: int, i: int, v: u64)
    requires
        0 <= k <= i < s.len(),
    ensures
        prefix_value(s.update(i, v), k) == prefix_value(s, k),
{
    assert(s.update(i, v).subrange(0, k) =~= s.subrange(0, k));
}

/// Two sequences that agree below `k` have the same value there.
pub proof fn lemma_prefix_agree(s: Seq<u64>, t: Seq<u64>, k: int)
    requires
        0 <= k <= s.len(),
        k <= t.len(),
        forall|i: int| 0 <= i < k ==> s[i] == t[i],
    ensures
        prefix_value(s, k) == prefix_value(t, k),
{
    assert(s.subrange(0, k) =~= t.subrange(0, k));
}

/// `k` limbs stand for a number below `word_pow(k)`.
pub proof fn lemma_limbs_value_bound(s: Seq<u64>)
    ensures
        limbs_value(s) < word_pow(s.len()),
    decreases s.len(),
{
    if s.len() > 0 {
        let k = (s.len() - 1) as nat;
        lemma_limbs_value_bound(s.drop_last());
        lemma_word_pow_pos(k);
        lemma_word_pow_succ(k);
        assert(s.last() as nat * word_pow(k) <= (word() - 1) * word_pow(k)) by {
            lemma_mul_inequality(s.last() as int, word() - 1, word_pow(k) as int);
        }
        assert((word() - 1) * word_pow(k) == word() * word_pow(k) - word_pow(k)) by {
            lemma_mul_is_distributive_sub_other_way(word_pow(k) as int, word() as int, 1);
        }
    }
}

/// Limbs of one length are determined by the number they stand for.
pub proof fn lemma_limbs_value_injective(s: Seq<u64>, t: Seq<u64>)
    requires
        s.len() == t.len(),
        limbs_value(s) == limbs_value(t),
    ensures
        s == t,
    decreases s.len(),
{
    if s.len() > 0 {
        let k = (s.len() - 1) as nat;
        lemma_limbs_value_bound(s.drop_last());
        lemma_limbs_value_bound(t.drop_last());
        lemma_word_pow_pos(k);
        lemma_fundamental_div_mod_converse(
            limbs_value(s) as int,
            word_pow(k) as int,
            s.last() as int,
            limbs_value(s.drop_last()) as int,
        );
        lemma_fundamental_div_mod_converse(
            limbs_value(t) as int,
            word_pow(k) as int,
            t.last() as int,
            limbs_value(t.drop_last()) as int,
        );
        lemma_limbs_value_injective(s.drop_last(), t.drop_last());
        assert(s =~= s.drop_last().push(s.last()));
        assert(t =~= t.drop_last().push(t.last()));
    }
}

/// Reading a number below `word_pow(len)` into `len` limbs and back gives
/// the number: the reduction modulo `word_pow(len)` leaves it alone.
pub proof fn lemma_limbs_roundtrip(x: nat, len: nat)
    requires
        x < word_pow(len),
    ensures
        x % word_pow(len) == x,
{
    lemma_small_mod(x, word_pow(len));
}

/// Writing limbs out as a number and reading that number back into as many
/// limbs gives the same limbs.
pub proof fn lemma_limbs_reread(s: Seq<u64>, t: Seq<u64>)
    requires
        t.len() == s.len(),
        limbs_value(t) == limbs_value(s) % word_pow(s.len()),
    ensures
        t == s,
{
    lemma_limbs_value_bound(s);
    lemma_small_mod(limbs_value(s), word_pow(s.len()));
    lemma_limbs_value_injective(t, s);
}

pub proof fn lemma_prefix_bound(s: Seq<u64>, k: int)
    requires
        0 <= k <= s.len(),
    ensures
        prefix_value(s, k) < word_pow(k as nat),
{
    lemma_limbs_value_bound(s.subrange(0, k));
}

/// Comparing two limb sequences from the top: the first limb in which they
/// differ decides.
pub proof fn lemma_prefix_compare(s: Seq<u64>, t: Seq<u64>, i: int, k: int)
    requires
        s.len() == t.len(),
        0 <= i < k <= s.len(),
        forall|m: int| i < m < k ==> s[m] == t[m],
        s[i] > t[i],
    ensures
        prefix_value(s, k) > prefix_value(t, k),
    decreases k - i,
{
    if k == i + 1 {
        lemma_prefix_step(s, i);
        lemma_prefix_step(t, i);
        lemma_prefix_bound(s, i);
        lemma_prefix_bound(t, i);
        let w = word_pow(i as nat);
        assert(s[i] as nat * w >= t[i] as nat * w + w) by {
            lemma_mul_inequality(t[i] as int + 1, s[i] as int, w as int);
            lemma_mul_is_distributive_add_other_way(w as int, t[i] as int, 1);
        }
    } else {
        lemma_prefix_compare(s, t, i, k - 1);
        lemma_prefix_step(s, k - 1);
        lemma_prefix_step(t, k - 1);
    }
}

/// The limbs from index `k` up stand for the number divided by `word_pow(k)`.
pub proof fn lemma_limbs_split(s: Seq<u64>, k: int)
    requires
        0 <= k <= s.len(),
    ensures
        limbs_value(s) == prefix_value(s, k) + word_pow(k as nat) * limbs_value(
            s.subrange(k, s.len() as int),
        ),
    decreases s.len(),
{
    if k == s.len() {
        lemma_prefix_full(s);
        assert(s.subrange(k, s.len() as int).len() == 0);
        assert(limbs_value(s.subrange(k, s.len() as int)) == 0);
        lemma_mul_basics(word_pow(k as nat) as int);
    } else {
        let t = s.drop_last();
        let m = s.len() - 1;
        assert(limbs_value(s) == limbs_value(t) + s.last() as nat * word_pow(m as nat));
        lemma_limbs_split(t, k);
        assert(t.subrange(0, k) =~= s.subrange(0, k));
        let hi = s.subrange(k, s.len() as int);
        assert(hi.drop_last() =~= t.subrange(k, t.len() as int));
        assert(hi.last() == s.last());
        assert(limbs_value(hi) == limbs_value(hi.drop_last()) + s.last() as nat * word_pow((m - k) as nat));
        lemma_word_pow_adds(k as nat, (m - k) as nat);
        assert(word_pow(k as nat) * limbs_value(hi) == word_pow(k as nat) * limbs_value(hi.drop_last())
            + s.last() as nat * word_pow(m as nat)) by {
            lemma_mul_is_distributive_add(
                word_pow(k as nat) as int,
                limbs_value(hi.drop_last()) as int,
                (s.last() as nat * word_pow((m - k) as nat)) as int,
            );
            lemma_mul_is_associative(
                word_pow(k as nat) as int,
                s.last() as int,
                word_pow((m - k) as nat) as int,
            );
            lemma_mul_is_associative(
                s.last() as int,
                word_pow(k as nat) as int,
                word_pow((m - k) as nat) as int,
            );
            lemma_mul_is_commutative(word_pow(k as nat) as int, s.last() as int);
        }
    }
}

/// The first `k` limbs stand for the number modulo `word_pow(k)`.
pub proof fn lemma_prefix_is_mod(s: Seq<u64>, k: int)
    requires
        0 <= k <= s.len(),
    ensures
        prefix_value(s, k) == limbs_value(s) % word_pow(k as nat),
{
    lemma_limbs_split(s, k);
    lemma_prefix_bound(s, k);
    lemma_fundamental_div_mod_converse_mod(
        limbs_value(s) as int,
        word_pow(k as nat) as int,
        limbs_value(s.subrange(k, s.len() as int)) as int,
        prefix_value(s, k) as int,
    );
    lemma_mul_is_commutative(
        word_pow(k as nat) as int,
        limbs_value(s.subrange(k, s.len() as int)) as int,
    );
}

/// Zero limbs on top do not change the number.
pub proof fn lemma_zero_extension(s: Seq<u64>, t: Seq<u64>)
    requires
        s.len() <= t.len(),
        forall|i: int| 0 <= i < s.len() ==> t[i] == s[i],
        forall|i: int| s.len() <= i < t.len() ==> t[i] == 0,
    ensures
        limbs_value(t) == limbs_value(s),
    decreases t.len(),
{
    if t.len() == s.len() {
        assert(t =~= s);
    } else {
        lemma_zero_extension(s, t.drop_last());
    }
}

/// A number and its low limb have the same parity.
pub proof fn lemma_parity_low_limb(s: Seq<u64>)
    requires
        s.len() >= 1,
    ensures
        limbs_value(s) % 2 == s[0] % 2,
{
    lemma_limbs_split(s, 1);
    lemma_prefix_step(s, 0);
    lemma_prefix_zero(s);
    assert(word_pow(0) == 1);
    assert(word_pow(1) == word() * word_pow(0));
    let h = limbs_value(s.subrange(1, s.len() as int));
    lemma_mul_basics(s[0] as int);
    lemma_mul_basics(word() as int);
    assert(limbs_value(s) == s[0] as nat + word() * h);
    assert(word() * h == 2 * (0x8000_0000_0000_0000 * h)) by (nonlinear_arith);
    lemma_mod_multiples_vanish((0x8000_0000_0000_0000 * h) as int, s[0] as int, 2);
}

/// Strict bounds multiply.
pub proof fn lemma_mul_lt(x: int, xb: int, y: int, yb: int)
    requires
        0 <= x < xb,
        0 <= y < yb,
    ensures
        x * y < xb * yb,
{
    lemma_mul_inequality(y, yb, x);
    lemma_mul_is_commutative(x, y);
    lemma_mul_is_commutative(x, yb);
    lemma_mul_strict_inequality(x, xb, yb);
}

/// Dividing out the radix of a limb written from the low end.
pub proof fn lemma_u128_split(cur: u128)
    ensures
        (cur as u64) as nat == cur as nat % word(),
        (cur >> 64) as nat == cur as nat / word(),
        cur as nat == (cur as u64) as nat + word() * (cur >> 64) as nat,
{
    assert((cur as u64) as nat == cur as nat % 0x1_0000_0000_0000_0000nat) by (bit_vector);
    assert((cur >> 64) as nat == cur as nat / 0x1_0000_0000_0000_0000nat) by (bit_vector);
    lemma_fundamental_div_mod(cur as int, word() as int);
}

} // verus!
