//! Greatest common divisors, primes and perfect powers.
use vstd::prelude::*;
use vstd::arithmetic::div_mod::*;
use vstd::arithmetic::mul::*;
use vstd::arithmetic::power::{pow, lemma_pow_multiplies, lemma_pow_increases, lemma_pow1};

verus! {

/// The greatest common divisor, by Euclid's algorithm; `gcd(0, 0) == 0`.
pub open spec fn gcd(a: nat, b: nat) -> nat
    decreases b,
{
    if b == 0 {
        a
    } else {
        gcd(b, a % b)
    }
}

/// `d` divides `a`.
pub open spec fn divides(d: nat, a: nat) -> bool {
    d > 0 && a % d == 0
}

proof fn lemma_divides_combination(g: nat, x: nat, y: nat, k: nat)
    requires
        g > 0,
        x % g == 0,
        y % g == 0,
    ensures
        (k * x + y) % g == 0,
{
    let xi = x as int;
    let gi = g as int;
    lemma_fundamental_div_mod(xi, gi);
    let u = xi / gi;
    lemma_fundamental_div_mod(y as int, gi);
    let v = (y as int) / gi;
    assert(k * xi + y == gi * (k * u + v)) by (nonlinear_arith)
        requires
            xi == gi * u,
            y == gi * v,
    ;
    lemma_mod_multiples_basic(k * u + v, gi);
    lemma_mul_is_commutative(k * u + v, gi);
}

/// The gcd divides both arguments, unless both are zero.
pub proof fn lemma_gcd_divides(a: nat, b: nat)
    requires
        a > 0 || b > 0,
    ensures
        gcd(a, b) > 0,
        a % gcd(a, b) == 0,
        b % gcd(a, b) == 0,
    decreases b,
{
    if b == 0 {
        lemma_mod_self_0(a as int);
        lemma_small_mod(0, a);
    } else {
        lemma_gcd_divides(b, a % b);
        let g = gcd(a, b);
        lemma_fundamental_div_mod(a as int, b as int);
        lemma_divides_combination(g, b, a % b, a / b);
        assert((a / b) * b + a % b == a) by {
            lemma_mul_is_commutative((a / b) as int, b as int);
        }
    }
}

/// A divisor of a positive number is no larger than it.
pub proof fn lemma_divisor_le(d: nat, a: nat)
    requires
        d > 0,
        a > 0,
        a % d == 0,
    ensures
        d <= a,
{
    lemma_fundamental_div_mod(a as int, d as int);
    let q = (a as int) / (d as int);
    assert(a == d * q);
    if q <= 0 {
        lemma_mul_nonpositive(d as int, q);
    } else {
        lemma_mul_increases(q, d as int);
        lemma_mul_is_commutative(q, d as int);
    }
}

proof fn lemma_mul_nonpositive(d: int, q: int)
    requires
        d > 0,
        q <= 0,
    ensures
        d * q <= 0,
{
    assert(d * q <= 0) by (nonlinear_arith)
        requires
            d > 0,
            q <= 0,
    ;
}

/// A gcd with `n` of a residue in `(0, n)` that is not one is a proper
/// divisor of `n`.
pub proof fn lemma_gcd_proper_divisor(a: nat, n: nat)
    requires
        0 < a < n,
        gcd(a, n) != 1,
    ensures
        1 < gcd(a, n) < n,
        n % gcd(a, n) == 0,
{
    lemma_gcd_divides(a, n);
    lemma_divisor_le(gcd(a, n), a);
}

/// A common divisor of `a` and `b` divides their gcd.
pub proof fn lemma_common_divisor_divides_gcd(a: nat, b: nat, d: nat)
    requires
        d > 0,
        a % d == 0,
        b % d == 0,
    ensures
        gcd(a, b) % d == 0,
    decreases b,
{
    if b > 0 {
        let di = d as int;
        lemma_fundamental_div_mod(a as int, di);
        lemma_fundamental_div_mod(b as int, di);
        lemma_fundamental_div_mod(a as int, b as int);
        let u = (a as int) / di;
        let v = (b as int) / di;
        let q = (a as int) / (b as int);
        assert((a % b) as int == di * (u - v * q)) by (nonlinear_arith)
            requires
                a as int == di * u,
                b as int == di * v,
                a as int == (b as int) * q + (a % b) as int,
        ;
        lemma_mod_multiples_basic(u - v * q, di);
        lemma_mul_is_commutative(u - v * q, di);
        lemma_common_divisor_divides_gcd(b, a % b, d);
    }
}

/// Two numbers with the same divisors in common with `n > 0` have the same
/// gcd with `n`.
pub proof fn lemma_gcd_same_divisors(x: nat, y: nat, n: nat)
    requires
        n > 0,
        forall|d: nat| d > 0 && n % d == 0 ==> (#[trigger] (x % d) == 0 <==> y % d == 0),
    ensures
        gcd(x, n) == gcd(y, n),
{
    let g1 = gcd(x, n);
    let g2 = gcd(y, n);
    lemma_gcd_divides(x, n);
    lemma_gcd_divides(y, n);
    assert(y % g1 == 0);
    assert(x % g2 == 0);
    lemma_common_divisor_divides_gcd(y, n, g1);
    lemma_common_divisor_divides_gcd(x, n, g2);
    lemma_divisor_le(g1, g2);
    lemma_divisor_le(g2, g1);
}

/// `e` is prime.
pub open spec fn is_prime(e: nat) -> bool {
    e >= 2 && forall|d: nat| 2 <= d < e ==> #[trigger] (e % d) != 0
}

/// `x` is not `s^k` for any `s >= 2` and `2 <= k < e`.
pub open spec fn no_power_below(x: nat, e: nat) -> bool {
    forall|s: nat, k: nat| s >= 2 && 2 <= k < e ==> #[trigger] pow(s as int, k) != x
}

/// `x` is not `s^k` for any `s >= 2` and `k >= 2`.
pub open spec fn not_a_perfect_power(x: nat) -> bool {
    forall|s: nat, k: nat| s >= 2 && k >= 2 ==> #[trigger] pow(s as int, k) != x
}

/// `x == root^e` for a prime `e` and a `root` of at least two, where `x` is no
/// power with a smaller exponent: how a perfect power is reported.
pub open spec fn is_least_power(x: nat, root: nat, e: nat) -> bool {
    &&& root >= 2
    &&& is_prime(e)
    &&& pow(root as int, e) == x
    &&& no_power_below(x, e)
}

/// A number has at most one least power, so any two searches that report
/// one report the same root and exponent.
pub proof fn lemma_least_power_unique(x: nat, r1: nat, e1: nat, r2: nat, e2: nat)
    requires
        is_least_power(x, r1, e1),
        is_least_power(x, r2, e2),
    ensures
        r1 == r2,
        e1 == e2,
{
    if e1 < e2 {
        assert(pow(r1 as int, e1) == x);
    } else if e2 < e1 {
        assert(pow(r2 as int, e2) == x);
    } else if r1 < r2 {
        lemma_pow_base_strict(r1 as int, r2 as int, e1);
    } else if r2 < r1 {
        lemma_pow_base_strict(r2 as int, r1 as int, e1);
    }
}

/// A number with a least power is a perfect power: a search that reports a
/// power and one that reports none cannot both be right.
pub proof fn lemma_least_power_is_power(x: nat, root: nat, e: nat)
    requires
        is_least_power(x, root, e),
    ensures
        !not_a_perfect_power(x),
{
    assert(pow(root as int, e) == x);
}

/// Whether `e`, at least two, has a divisor `d` with `2 <= d` and `d * d <= e`,
/// that is whether `e` is composite.
pub fn has_small_factor(e: u64) -> (r: bool)
    requires
        2 <= e <= u32::MAX,
    ensures
        r == !is_prime(e as nat),
{
    let mut d: u64 = 2;
    while d * d <= e
        invariant
            2 <= d <= 0x1_0001,
            d * d <= 0x1_0002_0001,
            2 <= e <= u32::MAX,
            forall|k: nat| 2 <= k < d ==> #[trigger] (e as nat % k) != 0,
        decreases 0x1_0001 - d,
    {
        if e % d == 0 {
            proof {
                assert(d < e) by (nonlinear_arith)
                    requires
                        2 <= d,
                        d * d <= e,
                ;
                assert(e as nat % d as nat == 0);
            }
            return true;
        }
        proof {
            assert(d + 1 <= 0x1_0001) by (nonlinear_arith)
                requires
                    d * d <= e,
                    e <= u32::MAX,
                    d >= 2,
            ;
            assert((d + 1) * (d + 1) <= 0x1_0002_0001) by (nonlinear_arith)
                requires
                    d + 1 <= 0x1_0001,
                    d >= 0,
            ;
        }
        d = d + 1;
    }
    proof {
        lemma_trial_division(e as nat, d as nat);
    }
    false
}

/// Trial division up to the square root decides primality.
pub proof fn lemma_trial_division(e: nat, d: nat)
    requires
        e >= 2,
        d >= 2,
        d * d > e,
        forall|k: nat| 2 <= k < d ==> #[trigger] (e % k) != 0,
    ensures
        is_prime(e),
{
    assert forall|k: nat| 2 <= k < e implies #[trigger] (e % k) != 0 by {
        if e % k == 0 {
            let q = e / k;
            lemma_fundamental_div_mod(e as int, k as int);
            assert(e == k * q);
            if k < d {
            } else {
                // the cofactor is small and divides e too
                assert(q >= 2) by (nonlinear_arith)
                    requires
                        e == k * q,
                        k < e,
                        e >= 2,
                        k >= 2,
                ;
                assert(q < d) by (nonlinear_arith)
                    requires
                        e == k * q,
                        k >= d,
                        d * d > e,
                        q >= 0,
                        d >= 2,
                {
                    if q >= d {
                        assert(k * q >= d * d) by (nonlinear_arith)
                            requires
                                k >= d,
                                q >= d,
                                d >= 0,
                        ;
                    }
                }
                lemma_mod_multiples_basic(k as int, q as int);
                assert(e % q == 0);
                assert(false);
            }
        }
    }
}

/// `s^e >= 0` for `s >= 0`.
pub proof fn lemma_pow_nonneg(s: int, e: nat)
    requires
        s >= 0,
    ensures
        pow(s, e) >= 0,
    decreases e,
{
    reveal(pow);
    if e > 0 {
        lemma_pow_nonneg(s, (e - 1) as nat);
        lemma_mul_nonnegative(s, pow(s, (e - 1) as nat));
    }
}

/// Powers with a positive exponent are strictly increasing in the base.
pub proof fn lemma_pow_base_strict(a: int, b: int, e: nat)
    requires
        0 <= a < b,
        e >= 1,
    ensures
        pow(a, e) < pow(b, e),
    decreases e,
{
    reveal(pow);
    if e == 1 {
        assert(pow(a, 0) == 1 && pow(b, 0) == 1);
        lemma_mul_basics(a);
        lemma_mul_basics(b);
    } else {
        lemma_pow_base_strict(a, b, (e - 1) as nat);
        lemma_pow_nonneg(a, (e - 1) as nat);
        crate::limbs::lemma_mul_lt(a, b, pow(a, (e - 1) as nat), pow(b, (e - 1) as nat));
    }
}

/// Powers are increasing in the base.
pub proof fn lemma_pow_base_le(a: int, b: int, e: nat)
    requires
        0 <= a <= b,
    ensures
        pow(a, e) <= pow(b, e),
{
    if a < b && e >= 1 {
        lemma_pow_base_strict(a, b, e);
    }
    if e == 0 {
        reveal(pow);
    }
}

/// The truncated `e`-th root is the only base whose `e`-th power can be `x`.
pub proof fn lemma_root_unique(x: nat, e: nat, r: nat, s: nat)
    requires
        e >= 1,
        pow(r as int, e) <= x < pow(r as int + 1, e),
        pow(s as int, e) == x,
    ensures
        s == r,
{
    if s > r {
        lemma_pow_base_le(r as int + 1, s as int, e);
    } else if s < r {
        lemma_pow_base_strict(s as int, r as int, e);
    }
}

/// A `d`-th power for a small divisor `d` of `e` rules out `e`-th powers.
pub proof fn lemma_composite_exponent(x: nat, e: nat, d: nat)
    requires
        no_power_below(x, e),
        2 <= d,
        d < e,
        e % d == 0,
    ensures
        forall|s: nat| s >= 2 ==> #[trigger] pow(s as int, e) != x,
{
    assert forall|s: nat| s >= 2 implies #[trigger] pow(s as int, e) != x by {
        let q = e / d;
        lemma_fundamental_div_mod(e as int, d as int);
        assert(q * d == e) by {
            lemma_mul_is_commutative(q as int, d as int);
        }
        assert(q >= 1) by (nonlinear_arith)
            requires
                e == d * q,
                e >= 1,
                q >= 0,
        ;
        lemma_pow_multiplies(s as int, q, d);
        lemma_pow_increases(s, 1, q);
        lemma_pow1(s as int);
        let t = pow(s as int, q);
        assert(pow(t as nat as int, d) != x);
    }
}

/// Below `2^e`, nothing is a power with exponent `e` or more.
pub proof fn lemma_small_value_no_power(x: nat, e: nat)
    requires
        x < pow(2, e),
    ensures
        forall|s: nat, k: nat| s >= 2 && k >= e ==> #[trigger] pow(s as int, k) != x,
{
    assert forall|s: nat, k: nat| s >= 2 && k >= e implies #[trigger] pow(s as int, k) != x by {
        lemma_pow_base_le(2, s as int, k);
        lemma_pow_increases(2, e, k);
    }
}

/// A composite number has a divisor between two and itself.
pub proof fn lemma_composite_factor(e: nat)
    requires
        e >= 2,
        !is_prime(e),
    ensures
        exists|d: nat| 2 <= d < e && #[trigger] (e % d) == 0,
{
}

/// Ruling out `e`-th powers extends `no_power_below` past `e`.
pub proof fn lemma_extend_no_power(x: nat, e: nat)
    requires
        no_power_below(x, e),
        forall|s: nat| s >= 2 ==> #[trigger] pow(s as int, e) != x,
    ensures
        no_power_below(x, e + 1),
{
    assert forall|s: nat, k: nat| s >= 2 && 2 <= k < e + 1 implies #[trigger] pow(s as int, k) != x by {
        if k == e {
            assert(pow(s as int, e) != x);
        }
    }
}

} // verus!
