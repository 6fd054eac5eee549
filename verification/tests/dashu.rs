use dashu_int::UBig;
use num_prime::dashu::{divisor, from_ubig, perfect_power, rho, to_ubig, Split};
use num_prime::natural::Natural;

fn parse(s: &str) -> UBig {
    s.parse().unwrap()
}

fn natural(x: &UBig) -> Natural {
    Natural { bytes: x.to_le_bytes().into_vec() }
}

fn ubig(x: &Natural) -> UBig {
    UBig::from_le_bytes(&x.bytes)
}

#[test]
fn rho_finds_factor() {
    // 2^67 - 1 = 193707721 * 761838257287
    let n = parse("147573952589676412927");
    let d = ubig(&rho(&natural(&n)).unwrap());
    assert!(d > UBig::ONE && d < n);
    assert_eq!(&n % &d, UBig::ZERO);
}

#[test]
fn divisor_splits_semiprime() {
    let n = parse("1180591625390335725871");
    match divisor(&natural(&n)) {
        Some(Split::Divisor(d)) => {
            let d = ubig(&d);
            assert!(d > UBig::ONE && d < n);
            assert_eq!(&n % &d, UBig::ZERO);
        }
        Some(Split::Power(..)) => panic!("not a perfect power"),
        None => panic!("rho gave up"),
    }
}

#[test]
fn perfect_power_detection() {
    // 34359738421^7, which Pollard's rho cannot split at all
    let base = parse("34359738421");
    let x = base.pow(7usize);
    let (root, e) = perfect_power(&natural(&x)).unwrap();
    assert_eq!((ubig(&root), e), (base, 7));

    assert!(perfect_power(&natural(&parse("1180591625390335725871"))).is_none());
}

#[test]
fn ubig_roundtrip() {
    let n = parse("123456789012345678901234567890123456789");
    let narrow: u128 = from_ubig(&natural(&n));
    assert_eq!(UBig::from(narrow), n);

    let narrow: u32 = from_ubig(&natural(&parse("42")));
    assert_eq!(narrow, 42);
}

// Further cases.

#[test]
fn from_ubig_reads_a_short_top_chunk() {
    // nine bytes: the top 32-bit digit holds a single byte
    let n = parse("18446744073709551621"); // 2^64 + 5
    let narrow: u128 = from_ubig(&natural(&n));
    assert_eq!(narrow, (1u128 << 64) + 5);
    // seventeen bytes into a Natural
    let wide = parse("340282366920938463463374607431768211507"); // 2^128 + 51
    let back: Natural = from_ubig(&natural(&wide));
    assert_eq!(ubig(&back), wide);
}

#[test]
fn from_ubig_takes_the_word_path_for_small_values() {
    let narrow: u64 = from_ubig(&natural(&UBig::from(u64::MAX)));
    assert_eq!(narrow, u64::MAX);
    let zero: u32 = from_ubig(&Natural { bytes: Vec::new() });
    assert_eq!(zero, 0);
}

#[test]
fn to_ubig_widens_words_and_naturals() {
    assert_eq!(ubig(&to_ubig(&u128::MAX)), UBig::from(u128::MAX));
    assert_eq!(ubig(&to_ubig(&7u64)), UBig::from(7u8));
    let n = parse("123456789012345678901234567890123456789");
    assert_eq!(ubig(&to_ubig(&natural(&n))), n);
}

#[test]
fn dashu_rho_splits_small_odd_composites() {
    for n in [35u64, 10_403, 1_000_025, 1_000_027] {
        let d = ubig(&rho(&Natural::from_u64(n)).unwrap());
        let n = UBig::from(n);
        assert!(d > UBig::ONE && d < n);
        assert_eq!(&n % &d, UBig::ZERO);
    }
}

#[test]
fn dashu_divisor_reports_the_power() {
    // (34359738421 * 34359738451)^2
    let n = parse("1393796585941794802955558839641240458708641");
    match divisor(&natural(&n)) {
        Some(Split::Power(root, e)) => {
            assert_eq!(ubig(&root), parse("1180591625390335725871"));
            assert_eq!(e, 2);
        }
        _ => panic!("expected a perfect power"),
    }
}

#[test]
fn dashu_perfect_power_rejects_small_and_plain_numbers() {
    assert!(perfect_power(&Natural::from_u64(0)).is_none());
    assert!(perfect_power(&Natural::from_u64(1)).is_none());
    assert!(perfect_power(&Natural::from_u64(12)).is_none());
    let (root, e) = perfect_power(&Natural::from_u64(243)).unwrap();
    assert_eq!((ubig(&root), e), (UBig::from(3u8), 5));
}

#[test]
fn both_backends_report_the_same_powers() {
    let cases = [
        "4096",
        "243",
        "12",
        "1180591625390335725871",
        "1393796585941794802955558839641240458708641",
        "47890486021415120313827563670912728827215402664536101",
    ];
    for s in cases {
        let x = natural(&parse(s));
        let a = perfect_power(&x).map(|(r, e)| (ubig(&r), e));
        let b = num_prime::montgomery::perfect_power(&x).map(|(r, e)| (ubig(&r), e));
        assert_eq!(a, b, "{}", s);
    }
}
