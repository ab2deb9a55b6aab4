use scrying_glass::cell_decode::{
    cell_of, channel_center, fnv1a, strike_footprint, word_channels, word_seed, CHANNELS, FNV_OFFSET,
};
use scrying_glass::determinism::seed_bits;

const AMP_MIN: f32 = 0.4;

/// The deterministic per-(word, channel) amplitude, scaled from the
/// library's 53-bit seed sample exactly as the decoder does.
fn channel_amp(seed: u64, channel: usize) -> f32 {
    let unit = ((seed_bits(seed, channel as u64) as f64 / (1u64 << 53) as f64) as f32) * 2.0 - 1.0;
    let u = unit * 0.5 + 0.5;
    AMP_MIN + (1.0 - AMP_MIN) * u
}

#[test]
fn prime_parity_vs_field_truth() {
    // (word, seed, channels, amp f32 bit patterns, centers @32x32)
    let truth: &[(&str, u64, [usize; 3], [u32; 3], [(usize, usize); 3])] = &[
        ("fire", 0xaa77f578efdfc4b9, [26, 9, 20],
         [0x3ef89eeb, 0x3f797dfe, 0x3eebf2b3], [(10, 14), (6, 6), (18, 10)]),
        ("water", 0xd3cacd4c82e5be70, [27, 5, 21],
         [0x3effc7ce, 0x3efbceee, 0x3f3bc5be], [(14, 14), (22, 2), (22, 10)]),
        ("wind", 0xa6200ef65560e507, [8, 16, 41],
         [0x3f46d7a8, 0x3f0046e5, 0x3f004f1a], [(2, 6), (2, 10), (6, 22)]),
        ("愛", 0x33a7291b74bac894, [45, 34, 12],
         [0x3ed35b28, 0x3f55627e, 0x3f75937a], [(22, 22), (10, 18), (18, 6)]),
        ("mu", 0x08a94f07b5503577, [16, 50, 10],
         [0x3f4c8900, 0x3ef111b9, 0x3f233564], [(2, 10), (10, 26), (10, 6)]),
    ];
    for (word, seed, chs, amp_bits, ctrs) in truth {
        let s = word_seed(word);
        assert_eq!(s, *seed, "seed drift for {word}");
        assert_eq!(word_channels(word), chs.to_vec(), "channel drift for {word}");
        for (i, &c) in chs.iter().enumerate() {
            assert_eq!(channel_amp(s, c).to_bits(), amp_bits[i], "amp drift for {word} ch {c}");
            assert_eq!(channel_center(32, 32, c), ctrs[i], "center drift for {word}");
        }
    }
}

#[test]
fn fnv1a_basics() {
    assert_eq!(fnv1a(&[]), FNV_OFFSET);
    let expected = (FNV_OFFSET ^ 0x61).wrapping_mul(0x0000_0100_0000_01b3);
    assert_eq!(fnv1a(b"a"), expected);
    assert_eq!(word_seed("fire"), fnv1a("fire".as_bytes()));
}

#[test]
fn word_channels_are_three_in_range() {
    for word in ["fire", "water", "wind", "storm", "stone", "life", "light", "void", ""] {
        let chs = word_channels(word);
        assert_eq!(chs.len(), 3);
        assert!(chs.iter().all(|&c| c < CHANNELS));
    }
}

#[test]
fn every_center_reads_back_from_its_own_cell() {
    for (w, h) in [(32usize, 32usize), (128, 128), (8, 8), (100, 77), (640, 480)] {
        for c in 0..CHANNELS {
            let (x, y) = channel_center(w, h, c);
            assert!(x < w && y < h);
            assert_eq!(cell_of(w, h, x, y), c, "{w}x{h} channel {c}");
        }
    }
}

#[test]
fn remainder_pixels_fold_into_last_cell() {
    // 100 / 8 = 12-pixel cells; pixels 96..99 belong to the eighth column.
    assert_eq!(cell_of(100, 100, 99, 0), 7);
    assert_eq!(cell_of(100, 100, 0, 99), 56);
    assert_eq!(cell_of(100, 100, 99, 99), 63);
    assert_eq!(cell_of(100, 100, 12, 12), 9);
}

#[test]
fn strike_footprint_interior_and_clipped() {
    let fp = strike_footprint(128, 128, 64, 64);
    assert_eq!(fp.len(), 17 * 17);
    assert_eq!(fp[0], ((64 - 8) * 128 + (64 - 8), 128));
    assert_eq!(fp[8 * 17 + 8], (64 * 128 + 64, 0));
    assert_eq!(fp[288], ((64 + 8) * 128 + (64 + 8), 128));

    // Corner strike: only the 9 x 9 quadrant on the plane survives.
    let fp = strike_footprint(32, 32, 0, 0);
    assert_eq!(fp.len(), 81);
    assert_eq!(fp[0], (0, 0));
    assert_eq!(fp[1], (1, 1));
    assert_eq!(fp[80], (8 * 32 + 8, 128));

    // Strike entirely off the plane touches nothing.
    assert!(strike_footprint(16, 16, 100, 100).is_empty());
}
