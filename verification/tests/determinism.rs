use scrying_glass::determinism::{mix64, seed_bits, SplitMix64, GOLDEN_GAMMA};

#[test]
fn mix64_of_zero_is_first_splitmix_output() {
    // The canonical SplitMix64 stream seeded with 0 starts with this value.
    assert_eq!(mix64(0), 0xE220_A839_7B1D_CDAF);
}

#[test]
fn splitmix_stream_matches_mix64_of_advanced_seed() {
    let seed = 0x1234_5678_9ABC_DEF0u64;
    let mut rng = SplitMix64::new(seed);
    for n in 0..50u64 {
        let expected = mix64(seed.wrapping_add(n.wrapping_mul(GOLDEN_GAMMA)));
        assert_eq!(rng.next_u64(), expected, "draw {n}");
    }
}

#[test]
fn splitmix_first_draw_is_mix_of_seed() {
    let mut rng = SplitMix64::new(0x00d1_5eed);
    assert_eq!(rng.next_u64(), mix64(0x00d1_5eed));
}

#[test]
fn seed_bits_is_high_53_bits_of_double_mix() {
    for (seed, tag) in [(0u64, 0u64), (0xC0DE_CAFE, 7), (u64::MAX, 4095), (12345, u64::MAX)] {
        let b = seed_bits(seed, tag);
        assert!(b < (1u64 << 53));
        assert_eq!(b, mix64(seed ^ mix64(tag)) >> 11);
    }
}
