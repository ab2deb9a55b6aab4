use scrying_glass::gpu_layout::{
    dispatch_groups, feature_bytes, frame_buffer_bytes, out_dl_bytes, pack_grid, readback_bytes, HistoryState,
    ACCUM_CELL, AOV_CELL, INPUT_FEATURES, INPUT_FEATURES_SPLIT,
};
use scrying_glass::unet_config::{HIST_FEATURES_SPLIT, MOTION_VECTOR_CHANNELS};

#[test]
fn dispatch_groups_round_up() {
    assert_eq!(dispatch_groups(0), 0);
    assert_eq!(dispatch_groups(1), 1);
    assert_eq!(dispatch_groups(640), 80);
    assert_eq!(dispatch_groups(641), 81);
    assert_eq!(dispatch_groups(u32::MAX), u32::MAX / 8 + 1);
}

#[test]
fn buffer_sizes() {
    assert_eq!(frame_buffer_bytes(640, 480, ACCUM_CELL), 640 * 480 * 16);
    assert_eq!(frame_buffer_bytes(640, 480, AOV_CELL), 640 * 480 * 32);
    assert_eq!(frame_buffer_bytes(0, 480, ACCUM_CELL), 16);
    assert_eq!(readback_bytes(0, 480, ACCUM_CELL), 0);
    assert_eq!(readback_bytes(3, 2, ACCUM_CELL * 2), 192);
    assert_eq!(feature_bytes(10, INPUT_FEATURES), 920);
    assert_eq!(feature_bytes(10, INPUT_FEATURES_SPLIT), 1400);
    assert_eq!(feature_bytes(10, HIST_FEATURES_SPLIT + MOTION_VECTOR_CHANNELS), 1640);
    assert_eq!(out_dl_bytes(10), 160);
}

#[test]
fn pack_grid_spreads_over_two_axes() {
    // The v9 input at 640x480: 41 channels -> 6_297_600 pairs -> 98_400 groups.
    assert_eq!(pack_grid(640 * 480 * 41), (65535, 2));
    assert_eq!(pack_grid(0), (1, 1));
    assert_eq!(pack_grid(1), (1, 1));
    assert_eq!(pack_grid(128), (1, 1));
    assert_eq!(pack_grid(129), (2, 1));
    for n in [0usize, 1, 127, 128, 129, 1000, 8_388_480, 8_388_481, 640 * 480 * 41] {
        let (gx, gy) = pack_grid(n);
        assert!(gx >= 1 && gx <= 65535);
        assert!((gx as u64) * (gy as u64) * 64 >= n.div_ceil(2) as u64);
    }
}

#[test]
fn history_swap_and_reset() {
    let mut h = HistoryState::new(64, 48);
    assert!(!h.has_prev);
    let sizes = HistoryState::buffer_bytes(64, 48);
    assert_eq!(sizes.out_dl_bytes, 64 * 48 * 16);
    assert_eq!(sizes.aov_bytes, 64 * 48 * 32);
    let empty = HistoryState::buffer_bytes(0, 0);
    assert_eq!((empty.out_dl_bytes, empty.aov_bytes), (1, 32));
    let copy = h.swap(32, 24);
    assert!(h.has_prev);
    assert_eq!((h.w, h.h), (32, 24));
    assert_eq!(copy.out_dl_bytes, 32 * 24 * 16);
    assert_eq!(copy.aov_bytes, 32 * 24 * 32);
    h.reset();
    assert!(!h.has_prev);
    assert_eq!((h.w, h.h), (32, 24));
}
