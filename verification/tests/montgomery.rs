use num_bigint::BigUint;
use num_prime::montgomery::{
    binv, divisor, from_biguint, from_limbs, perfect_power, pollard_rho, rho, to_biguint,
    to_limbs, Montgomery, Split,
};
use num_prime::natural::Natural;
use num_integer::Integer;
use num_traits::{One, Zero};

fn parse(s: &str) -> BigUint {
    s.parse().unwrap()
}

fn natural(x: &BigUint) -> Natural {
    Natural { bytes: x.to_bytes_le() }
}

fn big(x: &Natural) -> BigUint {
    BigUint::from_bytes_le(&x.bytes)
}

fn check_divisor(s: &str) -> BigUint {
    let n = parse(s);
    match divisor(&natural(&n)) {
        Some(Split::Divisor(d)) => {
            let d = big(&d);
            assert!(d > BigUint::one(), "trivial divisor of {}", n);
            assert!(d < n, "trivial divisor of {}", n);
            assert!((&n % &d).is_zero(), "{} does not divide {}", d, n);
            d
        }
        Some(Split::Power(root, exp)) => {
            panic!("unexpected perfect power {}^{}", big(&root), exp)
        }
        None => panic!("rho gave up on {}", n),
    }
}

#[test]
fn advances_the_polynomial_when_the_sequence_cycles() {
    for n in [35u64, 1_000_025, 1_000_027] {
        let big_n = BigUint::from(n);
        let (d, c) = rho(&Natural::from_u64(n)).unwrap();
        let d = big(&d);
        assert!(c > 2, "{} split under the opening polynomial", n);
        assert!(
            d > BigUint::one() && d < big_n,
            "trivial divisor {} of {}",
            d,
            n
        );
        assert!((&big_n % &d).is_zero(), "{} does not divide {}", d, n);
    }
}

#[test]
fn a_wide_semiprime_splits_under_the_opening_polynomial() {
    let (_, c) = rho(&natural(&parse("1180591625390335725871"))).unwrap();
    assert_eq!(c, 2);
}

#[test]
fn binv_inverts_odd_words() {
    for x in [1u64, 3, 5, 0xffff_ffff_ffff_ffff, 0x9e37_79b9_7f4a_7c15] {
        assert_eq!(x.wrapping_mul(binv(x)), 1);
    }
}

#[test]
fn limb_roundtrip() {
    let n = parse("340282366920938463463374607431768211507");
    assert_eq!(big(&from_limbs(&to_limbs(&natural(&n), 4))), n);
}

#[test]
fn biguint_roundtrip() {
    let n = parse("340282366920938463463374607431768211507");
    assert_eq!(big(&to_biguint(&natural(&n))), n);
    assert_eq!(big(&from_biguint::<Natural>(&natural(&n))), n);
    let narrow: u128 = 340_282_366_920_938_463_463_374_607_431_768_211_455;
    assert_eq!(big(&to_biguint(&narrow)), BigUint::from(narrow));
    assert_eq!(from_biguint::<u128>(&natural(&BigUint::from(narrow))), narrow);
}

#[test]
fn mulredc_matches_plain_arithmetic() {
    let n = parse("340282366920938463463374607431768211507");
    let mont = Montgomery::new(&natural(&n));
    let len = mont.len();
    let r = (BigUint::one() << (64 * len)) % &n;
    let r_inv = {
        // R^-1 mod n, by Fermat's little theorem (n is prime here).
        r.modpow(&(&n - BigUint::from(2u32)), &n)
    };
    let mut scratch = vec![0u64; len + 2];
    let mut out = vec![0u64; len];
    for (a, b) in [("2", "3"), ("123456789", "987654321"), ("0", "7")] {
        let (a, b) = (parse(a) % &n, parse(b) % &n);
        mont.mulredc(
            &to_limbs(&natural(&a), len),
            &to_limbs(&natural(&b), len),
            &mut out,
            &mut scratch,
        );
        assert_eq!(big(&from_limbs(&out)), (&a * &b * &r_inv) % &n, "{} * {}", a, b);
    }
}

#[test]
fn add_sub_wrap_around_the_modulus() {
    let n = parse("340282366920938463463374607431768211507");
    let mont = Montgomery::new(&natural(&n));
    let len = mont.len();
    let a = &n - BigUint::from(1u32);
    let b = BigUint::from(5u32);
    let mut out = vec![0u64; len];

    mont.add(
        &to_limbs(&natural(&a), len),
        &to_limbs(&natural(&b), len),
        &mut out,
    );
    assert_eq!(big(&from_limbs(&out)), (&a + &b) % &n);

    mont.sub(
        &to_limbs(&natural(&b), len),
        &to_limbs(&natural(&a), len),
        &mut out,
    );
    assert_eq!(big(&from_limbs(&out)), (&b + &n - &a) % &n);

    let mut x = to_limbs(&natural(&a), len);
    mont.addc(&mut x, 5);
    assert_eq!(big(&from_limbs(&x)), (&a + &b) % &n);
}

#[test]
fn splits_a_semiprime() {
    // 34359738421 * 34359738451
    let d = check_divisor("1180591625390335725871");
    assert!(d == parse("34359738421") || d == parse("34359738451"));
}

#[test]
fn splits_a_product_of_thirteen_similar_primes() {
    check_divisor(
        "256192672085272469290287843204387360975152374284235599731951768269391636066386517575760286247162035537155995319918598846421204855240141082924971355328149",
    );
}

#[test]
fn splits_a_square_free_number_with_a_tiny_factor() {
    // 3 * (2^127 - 1) -- one factor far smaller than the other
    let d = check_divisor("510423550381407695195061911147652317181");
    assert!(d == parse("3") || d == parse("170141183460469231731687303715884105727"));
}

#[test]
fn detects_perfect_powers() {
    // 34359738421^5
    let n = parse("47890486021415120313827563670912728827215402664536101");
    match divisor(&natural(&n)) {
        Some(Split::Power(root, exp)) => {
            assert_eq!(big(&root), parse("34359738421"));
            assert_eq!(exp, 5);
        }
        Some(Split::Divisor(d)) => panic!("expected a perfect power, got {}", big(&d)),
        None => panic!("expected a perfect power, rho gave up"),
    }
}

#[test]
fn detects_a_square_of_a_composite() {
    // (34359738421 * 34359738451)^2
    let n = parse("1393796585941794802955558839641240458708641");
    match divisor(&natural(&n)) {
        Some(Split::Power(root, exp)) => {
            assert_eq!(big(&root), parse("1180591625390335725871"));
            assert_eq!(exp, 2);
        }
        Some(Split::Divisor(d)) => panic!("expected a perfect power, got {}", big(&d)),
        None => panic!("expected a perfect power, rho gave up"),
    }
}

// Further cases.

#[test]
fn pollard_rho_reports_the_divisor_that_rho_finds() {
    let n = natural(&parse("1180591625390335725871"));
    let d = big(&pollard_rho(&n).unwrap());
    let (e, _) = rho(&n).unwrap();
    assert_eq!(d, big(&e));
    assert!(d == parse("34359738421") || d == parse("34359738451"));
}

#[test]
fn rho_splits_a_single_limb_semiprime() {
    // 2^67 - 1 = 193707721 * 761838257287 needs two limbs; 10403 = 101 * 103 needs one
    let (d, _) = rho(&Natural::from_u64(10_403)).unwrap();
    let d = big(&d);
    assert!(d == BigUint::from(101u32) || d == BigUint::from(103u32));
}

#[test]
fn perfect_power_takes_the_least_prime_exponent() {
    // 2^12 is a square, a cube and a sixth power; the square comes first
    let (root, e) = perfect_power(&Natural::from_u64(4096)).unwrap();
    assert_eq!(big(&root), BigUint::from(64u32));
    assert_eq!(e, 2);
    // 3^5 is only a fifth power
    let (root, e) = perfect_power(&Natural::from_u64(243)).unwrap();
    assert_eq!(big(&root), BigUint::from(3u32));
    assert_eq!(e, 5);
}

#[test]
fn perfect_power_rejects_small_and_plain_numbers() {
    assert!(perfect_power(&Natural::from_u64(0)).is_none());
    assert!(perfect_power(&Natural::from_u64(1)).is_none());
    assert!(perfect_power(&Natural::from_u64(2)).is_none());
    assert!(perfect_power(&Natural::from_u64(12)).is_none());
    assert!(perfect_power(&natural(&parse("1180591625390335725871"))).is_none());
}

#[test]
fn to_limbs_drops_the_limbs_above_the_length() {
    // 2^64 + 7 in one limb is 7, in three limbs it is zero-padded
    let x = (BigUint::one() << 64) + BigUint::from(7u32);
    assert_eq!(to_limbs(&natural(&x), 1), vec![7u64]);
    assert_eq!(to_limbs(&natural(&x), 3), vec![7u64, 1, 0]);
    assert_eq!(to_limbs(&Natural::from_u64(0), 2), vec![0u64, 0]);
}

#[test]
fn limbs_survive_a_trip_through_a_number() {
    let limbs = vec![0xdead_beef_u64, 0, u64::MAX, 0];
    assert_eq!(to_limbs(&from_limbs(&limbs), 4), limbs);
}

#[test]
fn geq_compares_from_the_top_limb() {
    let n = parse("340282366920938463463374607431768211507"); // 2^128 + 51
    let mont = Montgomery::new(&natural(&n));
    assert_eq!(mont.len(), 3);
    let len = mont.len();
    assert!(mont.geq(&to_limbs(&natural(&n), len), 0));
    assert!(!mont.geq(&to_limbs(&natural(&(&n - 1u32)), len), 0));
    assert!(mont.geq(&to_limbs(&natural(&(&n + 1u32)), len), 0));
    assert!(mont.geq(&to_limbs(&Natural::from_u64(0), len), 1));
}

#[test]
fn sub_n_subtracts_the_modulus_with_wraparound() {
    let n = parse("340282366920938463463374607431768211507");
    let mont = Montgomery::new(&natural(&n));
    let len = mont.len();
    let mut x = to_limbs(&natural(&(&n + 9u32)), len);
    mont.sub_n(&mut x);
    assert_eq!(big(&from_limbs(&x)), BigUint::from(9u32));
    // below the modulus the borrow out of the top limb is dropped
    let mut y = to_limbs(&Natural::from_u64(4), len);
    mont.sub_n(&mut y);
    let radix = BigUint::one() << (64 * len);
    assert_eq!(big(&from_limbs(&y)), &radix + 4u32 - &n);
}

#[test]
fn adding_back_undoes_a_subtraction() {
    let n = parse("340282366920938463463374607431768211507");
    let mont = Montgomery::new(&natural(&n));
    let len = mont.len();
    let a = parse("12345678901234567890123");
    let b = &n - 17u32;
    let mut diff = vec![0u64; len];
    let mut back = vec![0u64; len];
    mont.sub(
        &to_limbs(&natural(&a), len),
        &to_limbs(&natural(&b), len),
        &mut diff,
    );
    mont.add(&diff, &to_limbs(&natural(&b), len), &mut back);
    assert_eq!(big(&from_limbs(&back)), a);
    let mut sum = vec![0u64; len];
    mont.add(
        &to_limbs(&natural(&a), len),
        &to_limbs(&natural(&b), len),
        &mut sum,
    );
    mont.sub(&sum, &to_limbs(&natural(&b), len), &mut back);
    assert_eq!(big(&from_limbs(&back)), a);
}

#[test]
fn mulredc_multiplies_in_montgomery_form() {
    let n = parse("340282366920938463463374607431768211507");
    let mont = Montgomery::new(&natural(&n));
    let len = mont.len();
    let r = (BigUint::one() << (64 * len)) % &n;
    let (a, b) = (parse("98765432109876543210"), parse("555555555555"));
    let (ar, br) = ((&a * &r) % &n, (&b * &r) % &n);
    let mut scratch = vec![0u64; len + 2];
    let mut out = vec![0u64; len];
    mont.mulredc(
        &to_limbs(&natural(&ar), len),
        &to_limbs(&natural(&br), len),
        &mut out,
        &mut scratch,
    );
    assert_eq!(big(&from_limbs(&out)), (&a * &b * &r) % &n);
}

#[test]
fn addc_wraps_past_the_modulus() {
    let n = BigUint::from(1_000_003u64);
    let mont = Montgomery::new(&natural(&n));
    let len = mont.len();
    assert_eq!(len, 1);
    let mut x = to_limbs(&natural(&(&n - 2u32)), len);
    mont.addc(&mut x, 7);
    assert_eq!(big(&from_limbs(&x)), BigUint::from(5u32));
}

#[test]
fn from_biguint_narrows_into_small_types() {
    assert_eq!(from_biguint::<u64>(&Natural::from_u64(u64::MAX)), u64::MAX);
    assert_eq!(from_biguint::<u64>(&Natural::from_u64(0)), 0);
    let wide = (BigUint::one() << 100) + BigUint::from(3u32);
    assert_eq!(from_biguint::<u128>(&natural(&wide)), (1u128 << 100) + 3);
}

#[test]
fn to_biguint_widens_words() {
    assert_eq!(big(&to_biguint(&0u64)), BigUint::zero());
    assert_eq!(big(&to_biguint(&u64::MAX)), BigUint::from(u64::MAX));
    assert_eq!(big(&to_biguint(&(1u128 << 127))), BigUint::one() << 127);
}

#[test]
fn mulredc_keeps_the_common_factor_with_n() {
    // n = 5 * 7 * 11 * 13; the product of 14 and 55 shares 7 * 5 * 11 with n,
    // and the factor R^-1 that mulredc brings in shares nothing
    let n = BigUint::from(5005u32);
    let mont = Montgomery::new(&natural(&n));
    let len = mont.len();
    let mut scratch = vec![0u64; len + 2];
    let mut out = vec![0u64; len];
    mont.mulredc(
        &to_limbs(&Natural::from_u64(14), len),
        &to_limbs(&Natural::from_u64(55), len),
        &mut out,
        &mut scratch,
    );
    let got = big(&from_limbs(&out));
    assert_eq!(got.gcd(&n), BigUint::from(385u32));
    assert_ne!(got, BigUint::from(770u32));
}
