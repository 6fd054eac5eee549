use num_prime::splitmix64::{SplitMix64, GOLDEN_GAMMA};

#[test]
fn reference_values() {
    // outputs of the reference implementation
    let mut rng = SplitMix64::new(1_234_567);
    let expected = [
        6_457_827_717_110_365_317,
        3_203_168_211_198_807_973,
        9_817_491_932_198_370_423,
        4_593_380_528_125_082_431,
        16_408_922_859_458_223_821,
    ];
    for e in expected {
        assert_eq!(rng.next_u64(), e);
    }
    assert_eq!(SplitMix64::new(0).next_u64(), 0xe220_a839_7b1d_cdaf);
}

#[test]
fn reproducible() {
    let draw = |seed| {
        let mut rng = SplitMix64::new(seed);
        (0..8).map(|_| rng.next_u64()).collect::<Vec<_>>()
    };
    let first = draw(42);
    assert_eq!(first, draw(42));
    assert_ne!(first, draw(43));
    assert_ne!(first[0], first[1]);
}

// Further cases.

#[test]
fn the_k_th_output_depends_only_on_seed_and_k() {
    // after k outputs from seed s, the state is s + k * gamma, so a fresh
    // generator seeded there continues the same sequence
    let seed = 1_234_567u64;
    let mut rng = SplitMix64::new(seed);
    let first: Vec<u64> = (0..5).map(|_| rng.next_u64()).collect();
    let mut resumed = SplitMix64::new(seed.wrapping_add(2u64.wrapping_mul(GOLDEN_GAMMA)));
    assert_eq!(resumed.next_u64(), first[2]);
    assert_eq!(resumed.next_u64(), first[3]);
}

#[test]
fn the_state_wraps_around_two_to_the_sixty_four() {
    // seeded at -gamma the state wraps to zero, which mixes to zero
    let mut rng = SplitMix64::new(GOLDEN_GAMMA.wrapping_neg());
    assert_eq!(rng.next_u64(), 0);
    // the next state is gamma itself, the first state of seed zero
    assert_eq!(rng.next_u64(), SplitMix64::new(0).next_u64());
}

#[test]
fn successive_outputs_do_not_repeat() {
    let mut rng = SplitMix64::new(7);
    let mut seen: Vec<u64> = (0..2000).map(|_| rng.next_u64()).collect();
    seen.sort_unstable();
    seen.dedup();
    assert_eq!(seen.len(), 2000);
}
