use scrying_glass::codec::{deserialize_weights, serialize_weights};
use scrying_glass::determinism::SplitMix64;
use scrying_glass::unet_config::UnetConfig;
use scrying_glass::weights::{ConvParam, UnetWeights};

fn next_signed_unit(rng: &mut SplitMix64) -> f32 {
    let bits = (rng.next_u64() >> 40) as u32;
    let unit = (bits as f32) / (1u32 << 24) as f32;
    unit * 2.0 - 1.0
}

/// He initialisation of one layer's weights from `rng` (biases stay zero).
fn fill_random(p: &mut ConvParam, rng: &mut SplitMix64) {
    let fan_in = (p.k * p.k * p.cin).max(1);
    let scale = (2.0 / fan_in as f32).sqrt();
    for v in p.w.iter_mut() {
        *v = (next_signed_unit(rng) * scale).to_bits();
    }
}

/// He-initialized weights, drawn in the net's own construction order into
/// the library's zeroed layers.
fn new_random(config: UnetConfig, seed: u64) -> UnetWeights {
    let mut net = UnetWeights::zeroed_for(config);
    let mut rng = SplitMix64::new(seed);
    fill_random(&mut net.stem, &mut rng);
    for i in 0..net.down.len() {
        fill_random(&mut net.down[i], &mut rng);
        fill_random(&mut net.down_refine[i], &mut rng);
    }
    for i in 0..net.up_reduce.len() {
        fill_random(&mut net.up_reduce[i], &mut rng);
        fill_random(&mut net.up_merge[i], &mut rng);
    }
    if let Some(r) = net.out_refine.as_mut() {
        fill_random(r, &mut rng);
    }
    fill_random(&mut net.head, &mut rng);
    net
}

fn cfg(widths: Vec<usize>) -> UnetConfig {
    let n_scales = widths.len();
    UnetConfig { n_scales, widths, kernel: 3, in_channels: 7, out_channels: 3, render_w: 11, render_h: 9, output_w: 11, output_h: 9 }
}

fn same_conv(a: &ConvParam, b: &ConvParam) -> bool {
    a.cin == b.cin && a.cout == b.cout && a.k == b.k && a.stride == b.stride && a.w == b.w && a.b == b.b
}

fn same_convs(a: &[ConvParam], b: &[ConvParam]) -> bool {
    a.len() == b.len() && a.iter().zip(b).all(|(x, y)| same_conv(x, y))
}

fn assert_roundtrip(widths: Vec<usize>, seed: u64) {
    let config = cfg(widths.clone());
    let net = new_random(config.clone(), seed);
    let bytes = serialize_weights(&net);
    let restored = deserialize_weights(&bytes).expect("deserialize");
    assert_eq!(restored.config.widths, widths, "widths did not round-trip");
    assert_eq!(restored.config.n_scales, widths.len());
    assert_eq!(restored.config.in_channels, config.in_channels);

    let bytes2 = serialize_weights(&restored);
    assert_eq!(bytes, bytes2, "re-serialized bytes diverged from the original blob");

    // Every tensor moved intact, bit for bit (so any forward pass agrees).
    assert!(same_conv(&net.stem, &restored.stem));
    assert!(same_convs(&net.down, &restored.down));
    assert!(same_convs(&net.down_refine, &restored.down_refine));
    assert!(same_convs(&net.up_reduce, &restored.up_reduce));
    assert!(same_convs(&net.up_merge, &restored.up_merge));
    assert_eq!(net.out_refine.is_some(), restored.out_refine.is_some());
    assert!(same_conv(&net.head, &restored.head));

    restored.validate_shapes_against(&restored.config).expect("self-config must validate");
    let mut bad = restored.config.clone();
    bad.widths = bad.widths.iter().map(|w| w + 1).collect();
    assert!(restored.validate_shapes_against(&bad).is_err(), "mismatched widths must be rejected, not silently accepted");
}

#[test]
fn default_widths_roundtrip_byte_identical() {
    assert_roundtrip(vec![24, 40, 64], 0x00d1_5eed);
}

#[test]
fn custom_widths_roundtrip() {
    assert_roundtrip(vec![28, 48, 80], 0x2846_8000_1111);
    assert_roundtrip(vec![32, 56, 96], 0x3256_9600_2222);
}

#[test]
fn asymmetric_scale_count_roundtrips() {
    assert_roundtrip(vec![8, 16], 0xAAAA_BBBB);
    assert_roundtrip(vec![6, 10, 14, 22], 0xCCCC_DDDD);
}

#[test]
fn out_refine_roundtrips() {
    let mut config = cfg(vec![3, 4, 5]);
    config.output_w = 13;
    config.output_h = 11;
    let net = new_random(config, 7);
    let bytes = serialize_weights(&net);
    let restored = deserialize_weights(&bytes).expect("deserialize");
    assert!(same_conv(net.out_refine.as_ref().unwrap(), restored.out_refine.as_ref().unwrap()));
    assert_eq!(serialize_weights(&restored), bytes);
}

#[test]
fn blob_layout_starts_with_magic_and_config() {
    let net = new_random(cfg(vec![8, 16]), 1);
    let bytes = serialize_weights(&net);
    assert_eq!(&bytes[0..8], b"GAIARD9\0");
    assert_eq!(&bytes[8..12], &2u32.to_le_bytes());
    assert_eq!(&bytes[12..16], &8u32.to_le_bytes());
    assert_eq!(&bytes[16..20], &16u32.to_le_bytes());
    assert_eq!(&bytes[20..24], &3u32.to_le_bytes());
    // stem dims follow the seven scalar config words
    assert_eq!(&bytes[48..52], &7u32.to_le_bytes());
    assert_eq!(&bytes[52..56], &8u32.to_le_bytes());
}

#[test]
fn malformed_blobs_are_rejected() {
    let net = new_random(cfg(vec![8, 16]), 3);
    let bytes = serialize_weights(&net);
    assert!(deserialize_weights(&[]).is_none());
    assert!(deserialize_weights(&bytes[..7]).is_none());
    let mut wrong = bytes.clone();
    wrong[3] = b'X';
    assert!(deserialize_weights(&wrong).is_none());
    for cut in [8, 12, 40, bytes.len() / 2, bytes.len() - 1] {
        assert!(deserialize_weights(&bytes[..cut]).is_none(), "truncated at {cut}");
    }
}

#[test]
fn trailing_bytes_are_ignored() {
    let net = new_random(cfg(vec![8, 16]), 5);
    let mut bytes = serialize_weights(&net);
    let clean = bytes.clone();
    bytes.extend_from_slice(&[1, 2, 3, 4, 5]);
    let restored = deserialize_weights(&bytes).expect("deserialize");
    assert_eq!(serialize_weights(&restored), clean);
}

#[test]
fn any_nonzero_refine_word_means_present() {
    let mut config = cfg(vec![3]);
    config.output_w = 5;
    let net = new_random(config, 9);
    let bytes = serialize_weights(&net);
    // single scale: the presence word sits right before the refine layer
    let refine_len = 16 + 4 + 4 * 9 * 3 * 3 + 4 + 4 * 3;
    let head_len = 16 + 4 + 4 * 3 * 3 + 4 + 4 * 3;
    let flag_at = bytes.len() - head_len - refine_len - 4;
    assert_eq!(&bytes[flag_at..flag_at + 4], &1u32.to_le_bytes());
    let mut patched = bytes.clone();
    patched[flag_at] = 2;
    let restored = deserialize_weights(&patched).expect("deserialize");
    assert!(restored.out_refine.is_some());
    assert_eq!(serialize_weights(&restored), bytes);
}
