//! Montgomery reduction as a function on numbers, and the facts about it that
//! the limb-level code relies on.
use vstd::prelude::*;
use vstd::arithmetic::div_mod::*;
use vstd::arithmetic::mul::*;
use vstd::arithmetic::power2::*;
use crate::limbs::{word, word_pow, lemma_word_pow_pos, lemma_word_pow_succ};
use crate::arith::{gcd, lemma_gcd_same_divisors};

verus! {

/// The Montgomery quotient of `t`: the `q` below `r` that makes `t + q * n`
/// a multiple of `r`. It exists and is unique when `n` is odd and `r` is a
/// power of the limb radix.
pub open spec fn redc_quotient(t: nat, n: nat, r: nat) -> nat {
    choose|q: nat| #[trigger] is_redc_quotient(t, n, r, q)
}

/// `q` is below `r` and makes `t + q * n` a multiple of `r`.
pub open spec fn is_redc_quotient(t: nat, n: nat, r: nat, q: nat) -> bool {
    q < r && (t + q * n) % r == 0
}

/// Montgomery reduction of `t` modulo `n` with radix `r`: `(t + q * n) / r`
/// for the Montgomery quotient `q`, less `n` once if it reaches `n`.
pub open spec fn redc(t: nat, n: nat, r: nat) -> nat {
    let a = (t + redc_quotient(t, n, r) * n) / r;
    if a >= n {
        (a - n) as nat
    } else {
        a as nat
    }
}

pub proof fn lemma_word_pow_is_pow2(k: nat)
    ensures
        word_pow(k) == pow2(64 * k),
    decreases k,
{
    if k == 0 {
        lemma2_to64();
    } else {
        lemma_word_pow_is_pow2((k - 1) as nat);
        lemma_pow2_adds(64 * (k - 1) as nat, 64);
        lemma2_to64();
        lemma_word_pow_succ((k - 1) as nat);
        assert(64 * (k - 1) as nat + 64 == 64 * k);
    }
}

/// A power of two that divides `d * n` for odd `n` divides `d`.
pub proof fn lemma_pow2_divides_odd_product(m: nat, d: int, n: int)
    requires
        d >= 0,
        n > 0,
        n % 2 == 1,
        (d * n) % (pow2(m) as int) == 0,
    ensures
        d % (pow2(m) as int) == 0,
    decreases m,
{
    if m == 0 {
        lemma2_to64();
    } else {
        let p = pow2((m - 1) as nat) as int;
        lemma_pow2_unfold(m);
        lemma_pow2_pos((m - 1) as nat);
        assert(pow2(m) as int == 2 * p);
        lemma_mod_mod(d * n, 2, p);
        assert((d * n) % 2 == 0);
        assert(d % 2 == 0) by {
            lemma_mul_mod_noop(d, n, 2);
            if d % 2 == 1 {
                assert((d % 2) * (n % 2) == 1);
                lemma_small_mod(1, 2);
            }
        }
        let e = d / 2;
        lemma_fundamental_div_mod(d, 2);
        assert(d == 2 * e);
        let k = (d * n) / (2 * p);
        lemma_fundamental_div_mod(d * n, 2 * p);
        assert(e * n == k * p) by (nonlinear_arith)
            requires
                d == 2 * e,
                d * n == (2 * p) * k,
        ;
        assert(e >= 0);
        lemma_mod_multiples_basic(k, p);
        lemma_pow2_divides_odd_product((m - 1) as nat, e, n);
        let j = e / p;
        lemma_fundamental_div_mod(e, p);
        assert(d == (2 * p) * j) by (nonlinear_arith)
            requires
                d == 2 * e,
                e == p * j,
        ;
        lemma_mod_multiples_basic(j, 2 * p);
        lemma_mul_is_commutative(j, 2 * p);
    }
}

/// The Montgomery quotient is unique.
pub proof fn lemma_redc_quotient_unique(t: nat, n: nat, k: nat, q1: nat, q2: nat)
    requires
        n % 2 == 1,
        q1 < word_pow(k),
        q2 < word_pow(k),
        (t + q1 * n) % word_pow(k) == 0,
        (t + q2 * n) % word_pow(k) == 0,
    ensures
        q1 == q2,
{
    let r = word_pow(k) as int;
    lemma_word_pow_pos(k);
    if q1 != q2 {
        let (hi, lo) = if q1 > q2 { (q1, q2) } else { (q2, q1) };
        let d = hi - lo;
        assert((t + hi * n) - (t + lo * n) == d * n) by (nonlinear_arith)
            requires
                d == hi - lo,
        ;
        lemma_mod_equivalence((t + hi * n) as int, (t + lo * n) as int, r);
        lemma_word_pow_is_pow2(k);
        lemma_pow2_divides_odd_product(64 * k, d, n as int);
        lemma_small_mod(d as nat, r as nat);
    }
}

/// The quotient that a computation produced is the Montgomery quotient.
pub proof fn lemma_redc_quotient_is(t: nat, n: nat, k: nat, q: nat)
    requires
        n % 2 == 1,
        q < word_pow(k),
        (t + q * n) % word_pow(k) == 0,
    ensures
        redc_quotient(t, n, word_pow(k)) == q,
{
    let r = word_pow(k);
    assert(is_redc_quotient(t, n, r, q));
    let c = redc_quotient(t, n, r);
    assert(is_redc_quotient(t, n, r, c));
    lemma_redc_quotient_unique(t, n, k, q, c);
}

/// What Montgomery reduction is for: `redc(t) * r == t (mod n)`, and below
/// `n` when `t < n * r`.
pub proof fn lemma_redc_props(t: nat, n: nat, k: nat)
    requires
        n % 2 == 1,
        n < word_pow(k),
        t < word_pow(k) * word_pow(k),
    ensures
        (redc(t, n, word_pow(k)) * word_pow(k)) % n == t % n,
        redc(t, n, word_pow(k)) < word_pow(k),
        t < n * word_pow(k) ==> redc(t, n, word_pow(k)) < n,
{
    let r = word_pow(k) as int;
    lemma_word_pow_pos(k);
    lemma_redc_quotient_exists(t, n, k);
    let q = redc_quotient(t, n, r as nat) as int;
    let ti = t as int;
    let ni = n as int;
    let a = (ti + q * ni) / r;
    lemma_fundamental_div_mod(ti + q * ni, r);
    assert(a * r == ti + q * ni) by {
        lemma_mul_is_commutative(a, r);
    }
    assert(a < r + ni) by (nonlinear_arith)
        requires
            a * r == ti + q * ni,
            ti < r * r,
            q < r,
            r > 0,
            ni >= 0,
    ;
    lemma_redc_congruent(t, n, k);
    if t < n * word_pow(k) {
        lemma_mul_inequality(q, r, ni);
        lemma_mul_is_commutative(ni, r);
        assert(a * r < (2 * ni) * r) by (nonlinear_arith)
            requires
                a * r == ti + q * ni,
                ti < ni * r,
                q * ni <= r * ni,
        ;
        lemma_mul_strict_inequality_converse(a, 2 * ni, r);
    }
}

/// `redc(t) * r == t (mod n)`, for every `t`.
pub proof fn lemma_redc_congruent(t: nat, n: nat, k: nat)
    requires
        n % 2 == 1,
    ensures
        (redc(t, n, word_pow(k)) * word_pow(k)) % n == t % n,
{
    let r = word_pow(k) as int;
    lemma_word_pow_pos(k);
    lemma_redc_quotient_exists(t, n, k);
    let q = redc_quotient(t, n, r as nat) as int;
    let ti = t as int;
    let ni = n as int;
    let a = (ti + q * ni) / r;
    lemma_fundamental_div_mod(ti + q * ni, r);
    assert(a * r == ti + q * ni) by {
        lemma_mul_is_commutative(a, r);
    }
    let out = redc(t, n, r as nat) as int;
    assert(out == if a >= ni { a - ni } else { a });
    let m = if a >= ni { -r } else { 0 };
    assert(out * r == ni * (q + m) + ti) by (nonlinear_arith)
        requires
            a * r == ti + q * ni,
            out == if a >= ni { a - ni } else { a },
            m == if a >= ni { -r } else { 0 },
    ;
    lemma_mod_multiples_vanish(q + m, ti, ni);
}

/// An odd number that divides `2 * x` divides `x`.
pub proof fn lemma_odd_divides_double(n: nat, x: nat)
    requires
        n % 2 == 1,
        (2 * x) % n == 0,
    ensures
        x % n == 0,
{
    let ni = n as int;
    let x2: int = 2 * (x as int);
    lemma_fundamental_div_mod(x2, ni);
    let q: int = x2 / ni;
    assert(2 * x == ni * q);
    assert(q % 2 == 0) by {
        lemma_mul_mod_noop(ni, q, 2);
        lemma_mod_multiples_basic(x as int, 2);
        lemma_mul_is_commutative(x as int, 2);
        if q % 2 == 1 {
            assert((ni % 2) * (q % 2) == 1);
        }
    }
    let h: int = q / 2;
    lemma_fundamental_div_mod(q, 2);
    assert(x == ni * h) by (nonlinear_arith)
        requires
            2 * x == ni * q,
            q == 2 * h,
    ;
    lemma_mod_multiples_basic(h, ni);
    lemma_mul_is_commutative(h, ni);
}

/// An odd number that divides `2^m * x` divides `x`: powers of two are units
/// modulo an odd number.
pub proof fn lemma_odd_divides_pow2_multiple(d: nat, x: nat, m: nat)
    requires
        d % 2 == 1,
        (pow2(m) * x) % d == 0,
    ensures
        x % d == 0,
    decreases m,
{
    if m == 0 {
        lemma2_to64();
        assert(pow2(m) * x == x);
    } else {
        let h = pow2((m - 1) as nat);
        lemma_pow2_unfold(m);
        assert(pow2(m) * x == 2 * (h * x)) by {
            lemma_mul_is_associative(2, h as int, x as int);
        }
        lemma_odd_divides_double(d, h * x);
        lemma_odd_divides_pow2_multiple(d, x, (m - 1) as nat);
    }
}

/// Montgomery reduction keeps the divisors of the modulus: `r` is a unit
/// modulo the odd `n`, so a divisor of `n` divides `redc(t)` exactly when it
/// divides `t`. The powers of `r^-1` that a product of reductions gathers
/// leave its gcd with `n` as it was.
pub proof fn lemma_redc_keeps_divisors(t: nat, n: nat, k: nat, d: nat)
    requires
        n % 2 == 1,
        d > 0,
        n % d == 0,
    ensures
        (redc(t, n, word_pow(k)) % d == 0) <==> (t % d == 0),
{
    let r = word_pow(k);
    let x = redc(t, n, r);
    lemma_redc_congruent(t, n, k);
    lemma_word_pow_pos(k);
    // x * r == t (mod n), hence (mod d)
    lemma_fundamental_div_mod(n as int, d as int);
    let w = (n as int) / (d as int);
    assert(n == d * w);
    lemma_mod_mod((x * r) as int, d as int, w);
    lemma_mod_mod(t as int, d as int, w);
    lemma_mul_is_commutative(d as int, w);
    assert(((x * r) as int) % (d as int) == (t as int) % (d as int));
    // d is odd
    assert(d % 2 == 1) by {
        if d % 2 == 0 {
            lemma_fundamental_div_mod(d as int, 2);
            let h = (d as int) / 2;
            assert(n == 2 * (h * w)) by (nonlinear_arith)
                requires
                    n == d * w,
                    d == 2 * h,
            ;
            lemma_mod_multiples_basic(h * w, 2);
            lemma_mul_is_commutative(h * w, 2);
        }
    }
    lemma_word_pow_is_pow2(k);
    if x % d == 0 {
        lemma_mul_mod_noop_left(x as int, r as int, d as int);
        assert(0 * (r as int) == 0);
        lemma_small_mod(0, d);
    }
    if t % d == 0 {
        lemma_mul_is_commutative(x as int, r as int);
        lemma_odd_divides_pow2_multiple(d, x, 64 * k);
    }
}

/// Montgomery reduction keeps the gcd with the odd modulus:
/// `gcd(redc(t), n) == gcd(t, n)`. So the gcd of a product of reductions with
/// `n` is that of the plain product.
pub proof fn lemma_redc_keeps_gcd(t: nat, n: nat, k: nat)
    requires
        n % 2 == 1,
    ensures
        gcd(redc(t, n, word_pow(k)), n) == gcd(t, n),
{
    let x = redc(t, n, word_pow(k));
    assert forall|d: nat| d > 0 && n % d == 0 implies (#[trigger] (x % d) == 0 <==> t % d
        == 0) by {
        lemma_redc_keeps_divisors(t, n, k, d);
    }
    lemma_gcd_same_divisors(x, t, n);
}

/// Two residues below `n` that agree once multiplied by `r` are equal.
proof fn lemma_cancel_radix(x: nat, y: nat, n: nat, k: nat)
    requires
        n % 2 == 1,
        x < n,
        y < n,
        (x * word_pow(k)) % n == (y * word_pow(k)) % n,
    ensures
        x == y,
{
    let r = word_pow(k);
    if x != y {
        let (hi, lo) = if x > y { (x, y) } else { (y, x) };
        let diff = (hi - lo) as nat;
        assert(hi * r - lo * r == diff * r) by (nonlinear_arith)
            requires
                diff == hi - lo,
        ;
        lemma_mod_equivalence((hi * r) as int, (lo * r) as int, n as int);
        lemma_word_pow_is_pow2(k);
        lemma_mul_is_commutative(diff as int, r as int);
        lemma_odd_divides_pow2_multiple(n, diff, 64 * k);
        lemma_small_mod(diff, n);
    }
}

/// Montgomery reduction multiplies in Montgomery form: the reduced product of
/// `a * r mod n` and `b * r mod n` is `a * b * r mod n`.
pub proof fn lemma_redc_montgomery_form(a: nat, b: nat, n: nat, k: nat)
    requires
        n % 2 == 1,
        1 < n < word_pow(k),
    ensures
        redc(((a * word_pow(k)) % n) * ((b * word_pow(k)) % n), n, word_pow(k))
            == (a * b * word_pow(k)) % n,
{
    let r = word_pow(k);
    let ar = (a * r) % n;
    let br = (b * r) % n;
    let t = ar * br;
    lemma_word_pow_pos(k);
    assert(t < n * r) by {
        crate::limbs::lemma_mul_lt(ar as int, n as int, br as int, r as int);
    }
    assert(t < r * r) by {
        crate::limbs::lemma_mul_lt(ar as int, r as int, br as int, r as int);
    }
    lemma_redc_props(t, n, k);
    let x = redc(t, n, r);
    let y = (a * b * r) % n;
    // x * r == t == (a r)(b r) == (a b r) r == y * r (mod n)
    lemma_mul_mod_noop((a * r) as int, (b * r) as int, n as int);
    assert((a * r) * (b * r) == (a * b * r) * r) by (nonlinear_arith);
    lemma_mul_mod_noop_left((a * b * r) as int, r as int, n as int);
    assert((x * r) % n == (y * r) % n);
    lemma_cancel_radix(x, y, n, k);
}

/// A Montgomery quotient exists: build it one limb at a time.
pub proof fn lemma_redc_quotient_exists(t: nat, n: nat, k: nat)
    requires
        n % 2 == 1,
    ensures
        ({
            let q = redc_quotient(t, n, word_pow(k));
            q < word_pow(k) && (t + q * n) % word_pow(k) == 0
        }),
{
    let q = quotient_witness(t, n, k);
    assert(is_redc_quotient(t, n, word_pow(k), q));
}

/// An explicit Montgomery quotient: `q` with `t + q * n == 0 (mod 2^(64k))`.
proof fn quotient_witness(t: nat, n: nat, k: nat) -> (q: nat)
    requires
        n % 2 == 1,
    ensures
        q < word_pow(k),
        (t + q * n) % word_pow(k) == 0,
    decreases k,
{
    lemma_word_pow_is_pow2(k);
    let q = pow2_quotient(t, n, 64 * k);
    q
}

/// `q < 2^m` with `t + q * n == 0 (mod 2^m)`, bit by bit.
proof fn pow2_quotient(t: nat, n: nat, m: nat) -> (q: nat)
    requires
        n % 2 == 1,
    ensures
        q < pow2(m),
        (t + q * n) % pow2(m) == 0,
    decreases m,
{
    if m == 0 {
        lemma2_to64();
        0
    } else {
        let q0 = pow2_quotient(t, n, (m - 1) as nat);
        let p = pow2((m - 1) as nat) as int;
        let ti = t as int;
        let ni = n as int;
        lemma_pow2_unfold(m);
        lemma_pow2_pos((m - 1) as nat);
        let s = (ti + q0 * ni) / p;
        lemma_fundamental_div_mod(ti + q0 * ni, p);
        assert(ti + q0 * ni == p * s);
        // add p to q0 when s is odd
        let qi: int = if s % 2 == 0 { q0 as int } else { q0 + p };
        let s2 = s + (if s % 2 == 0 { 0 } else { ni });
        assert(ti + qi * ni == p * s2) by (nonlinear_arith)
            requires
                ti + q0 * ni == p * s,
                qi == if s % 2 == 0 { q0 as int } else { q0 + p },
                s2 == s + (if s % 2 == 0 { 0 } else { ni }),
        ;
        assert(s2 % 2 == 0) by {
            if s % 2 != 0 {
                lemma_add_mod_noop(s, ni, 2);
            }
        }
        let h = s2 / 2;
        lemma_fundamental_div_mod(s2, 2);
        assert(ti + qi * ni == (2 * p) * h) by (nonlinear_arith)
            requires
                ti + qi * ni == p * s2,
                s2 == 2 * h,
        ;
        lemma_mod_multiples_basic(h, 2 * p);
        lemma_mul_is_commutative(h, 2 * p);
        qi as nat
    }
}

} // verus!
