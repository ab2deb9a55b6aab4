use scrying_glass::unet_config::{
    default_in_channels, same_out_dim, same_pad, ConfigError, UnetConfig, HIST_FEATURES_SPLIT,
    MOTION_VECTOR_CHANNELS,
};
use scrying_glass::weights::{ConvParam, LoadError, ShapeError, UnetWeights};

fn cfg(widths: Vec<usize>, out_free: bool) -> UnetConfig {
    let n_scales = widths.len();
    UnetConfig {
        n_scales,
        widths,
        kernel: 3,
        in_channels: 5,
        out_channels: 2,
        render_w: 9,
        render_h: 7,
        output_w: if out_free { 13 } else { 9 },
        output_h: if out_free { 11 } else { 7 },
    }
}

fn conv(cin: usize, cout: usize, k: usize, stride: usize) -> ConvParam {
    ConvParam { cin, cout, k, stride, w: vec![0; k * k * cin * cout], b: vec![0; cout] }
}

/// Zero weights shaped for `c`, layer by layer in the net's own order.
fn shaped(c: &UnetConfig) -> UnetWeights {
    let n = c.n_scales;
    let mut down = Vec::new();
    let mut down_refine = Vec::new();
    for s in 1..n {
        down.push(conv(c.widths[s - 1], c.widths[s], c.kernel, 2));
        down_refine.push(conv(c.widths[s], c.widths[s], c.kernel, 1));
    }
    let mut up_reduce = Vec::new();
    let mut up_merge = Vec::new();
    for s in (0..n.saturating_sub(1)).rev() {
        up_reduce.push(conv(c.widths[s + 1], c.widths[s], c.kernel, 1));
        up_merge.push(conv(c.widths[s] * 2, c.widths[s], c.kernel, 1));
    }
    let out_refine = if (c.output_h, c.output_w) != (c.render_h, c.render_w) {
        Some(conv(c.widths[0], c.widths[0], c.kernel, 1))
    } else {
        None
    };
    UnetWeights {
        config: c.clone(),
        stem: conv(c.in_channels, c.widths[0], c.kernel, 1),
        down,
        down_refine,
        up_reduce,
        up_merge,
        out_refine,
        head: conv(c.widths[0], c.out_channels, 1, 1),
    }
}

fn total_params(w: &UnetWeights) -> usize {
    let one = |p: &ConvParam| p.w.len() + p.b.len();
    one(&w.stem)
        + w.down.iter().map(one).sum::<usize>()
        + w.down_refine.iter().map(one).sum::<usize>()
        + w.up_reduce.iter().map(one).sum::<usize>()
        + w.up_merge.iter().map(one).sum::<usize>()
        + w.out_refine.as_ref().map(one).unwrap_or(0)
        + one(&w.head)
}

#[test]
fn default_config_dims() {
    let c = UnetConfig::default();
    assert_eq!(default_in_channels(), HIST_FEATURES_SPLIT + MOTION_VECTOR_CHANNELS);
    assert_eq!(default_in_channels(), 41);
    assert_eq!(c.widths, vec![24, 40, 64]);
    assert_eq!(c.input_elems(), 480 * 640 * 41);
    assert_eq!(c.output_elems(), 480 * 640 * 3);
    assert_eq!(c.scale_dims(), vec![(480, 640), (240, 320), (120, 160)]);
    assert_eq!(c.check_buildable(), Ok(()));
}

#[test]
fn default_param_count() {
    let c = UnetConfig::default();
    assert_eq!(c.approx_param_count(), 163_083);
    assert_eq!(total_params(&shaped(&c)), 163_083);
}

#[test]
fn param_count_equals_shaped_weights() {
    for (widths, free) in [
        (vec![3, 4, 5], false),
        (vec![3, 4, 5], true),
        (vec![8], false),
        (vec![8], true),
        (vec![6, 10, 14, 22], false),
    ] {
        let c = cfg(widths, free);
        let w = shaped(&c);
        assert_eq!(w.validate_shapes_against(&c), Ok(()));
        assert_eq!(c.approx_param_count(), total_params(&w));
    }
}

#[test]
fn scale_dims_round_up() {
    let c = cfg(vec![3, 4, 5, 6], false);
    assert_eq!(c.scale_dims(), vec![(7, 9), (4, 5), (2, 3), (1, 2)]);
    for (i, &(h, w)) in c.scale_dims().iter().enumerate().skip(1) {
        let (ph, pw) = c.scale_dims()[i - 1];
        assert_eq!(h, same_out_dim(ph, 2));
        assert_eq!(w, same_out_dim(pw, 2));
    }
}

#[test]
fn same_padding_rules() {
    assert_eq!(same_out_dim(7, 2), 4);
    assert_eq!(same_out_dim(8, 2), 4);
    assert_eq!(same_out_dim(9, 1), 9);
    assert_eq!(same_pad(7, 4, 3, 2), (1, 1));
    assert_eq!(same_pad(9, 9, 3, 1), (1, 1));
    assert_eq!(same_pad(4, 2, 3, 2), (0, 1));
    assert_eq!(same_pad(9, 9, 1, 1), (0, 0));
    assert_eq!(same_pad(10, 2, 1, 2), (0, 0));
}

#[test]
fn check_buildable_errors() {
    let mut c = cfg(vec![3, 4], false);
    c.n_scales = 0;
    assert_eq!(c.check_buildable(), Err(ConfigError::NoScales));
    c.n_scales = 3;
    assert_eq!(c.check_buildable(), Err(ConfigError::WidthCount { widths: 2, n_scales: 3 }));
}

#[test]
fn validate_reports_first_mismatch() {
    let c = cfg(vec![3, 4, 5], true);
    let good = shaped(&c);

    let mut bad = c.clone();
    bad.n_scales = 2;
    assert_eq!(good.validate_shapes_against(&bad), Err(ShapeError::InconsistentConfig { widths: 3, n_scales: 2 }));

    let mut bad = c.clone();
    bad.in_channels = 6;
    assert_eq!(good.validate_shapes_against(&bad), Err(ShapeError::Stem { cin: 5, cout: 3 }));

    let mut w = shaped(&c);
    w.up_merge.pop();
    assert_eq!(w.validate_shapes_against(&c), Err(ShapeError::LayerCounts));

    let mut w = shaped(&c);
    w.down[1].cout = 9;
    w.down_refine[0].cin = 9;
    assert_eq!(w.validate_shapes_against(&c), Err(ShapeError::DownRefine { index: 0 }));

    let mut w = shaped(&c);
    w.down[1].cout = 9;
    assert_eq!(w.validate_shapes_against(&c), Err(ShapeError::Down { index: 1 }));

    let mut w = shaped(&c);
    w.up_merge[1].cin = 3;
    assert_eq!(w.validate_shapes_against(&c), Err(ShapeError::UpMerge { index: 1 }));

    let mut w = shaped(&c);
    w.up_reduce[0].cin = 4;
    assert_eq!(w.validate_shapes_against(&c), Err(ShapeError::UpReduce { index: 0 }));

    let mut w = shaped(&c);
    w.out_refine = None;
    assert_eq!(w.validate_shapes_against(&c), Err(ShapeError::OutRefinePresence { present: false }));

    let same_res = cfg(vec![3, 4, 5], false);
    assert_eq!(good.validate_shapes_against(&same_res), Err(ShapeError::OutRefinePresence { present: true }));

    let mut w = shaped(&c);
    w.out_refine.as_mut().unwrap().cout = 7;
    assert_eq!(w.validate_shapes_against(&c), Err(ShapeError::OutRefine { cin: 3, cout: 7 }));

    let mut w = shaped(&c);
    w.head.cout = 1;
    assert_eq!(w.validate_shapes_against(&c), Err(ShapeError::Head { cin: 3, cout: 1 }));

    let mut bad = c.clone();
    bad.widths = bad.widths.iter().map(|w| w + 1).collect();
    assert!(good.validate_shapes_against(&bad).is_err());
}

#[test]
fn check_loadable_errors() {
    let c = cfg(vec![3, 4, 5], true);
    assert_eq!(shaped(&c).check_loadable(), Ok(()));

    let mut w = shaped(&c);
    w.config.n_scales = 0;
    assert_eq!(w.check_loadable(), Err(LoadError::NoScales));

    let mut w = shaped(&c);
    w.config.widths.push(6);
    assert_eq!(w.check_loadable(), Err(LoadError::WidthCount { widths: 4, n_scales: 3 }));

    let mut w = shaped(&c);
    w.down.pop();
    assert_eq!(w.check_loadable(), Err(LoadError::LayerCounts));

    let mut w = shaped(&c);
    w.out_refine = None;
    assert_eq!(w.check_loadable(), Err(LoadError::MissingOutRefine));

    let mut w = shaped(&c);
    w.stem.k = 5;
    assert_eq!(w.check_loadable(), Err(LoadError::Stem { cin: 5, cout: 3, k: 5 }));

    let mut w = shaped(&c);
    w.head.cin = 4;
    assert_eq!(w.check_loadable(), Err(LoadError::Head { cin: 4, cout: 2 }));
}

#[test]
fn zeros_like_keeps_shapes() {
    let c = cfg(vec![3, 4, 5], true);
    let mut w = shaped(&c);
    w.stem.w[0] = 0x3f80_0000;
    w.head.b[1] = 0xbf80_0000;
    let z = w.zeros_like();
    assert_eq!(z.validate_shapes_against(&c), Ok(()));
    assert!(z.stem.w.iter().all(|&v| v == 0));
    assert!(z.head.b.iter().all(|&v| v == 0));
    assert_eq!(total_params(&z), total_params(&w));
    assert_eq!(z.config.widths, c.widths);
}

#[test]
fn empty_candidate_config_is_an_error() {
    let c = cfg(vec![8, 16], false);
    let w = shaped(&c);
    let mut empty = c.clone();
    empty.n_scales = 0;
    empty.widths = vec![];
    assert_eq!(w.validate_shapes_against(&empty), Err(ShapeError::NoScales));
}

#[test]
fn checked_param_count_agrees_and_detects_overflow() {
    for (widths, out_free) in [(vec![4], false), (vec![4], true), (vec![3, 4, 5], true), (vec![2, 6], false)] {
        let c = cfg(widths, out_free);
        assert_eq!(c.checked_param_count(), Some(c.approx_param_count()));
    }
    let mut huge = cfg(vec![4, 5], false);
    huge.kernel = 1usize << 33;
    assert_eq!(huge.checked_param_count(), None);
    let mut wide = cfg(vec![usize::MAX / 2 + 1, 1], false);
    wide.kernel = 0;
    assert_eq!(wide.checked_param_count(), None);
}

#[test]
fn single_scale_without_refine_counts_without_refine_layer() {
    let c = cfg(vec![4], false);
    // stem 3*3*5*4+4, head 1*1*4*2+2; no encoder, decoder or output refine
    assert_eq!(c.approx_param_count(), 184 + 10);
}

#[test]
fn zeroed_for_builds_the_matching_skeleton() {
    for (widths, out_free) in [(vec![4], false), (vec![3, 4, 5], true), (vec![2, 6], false)] {
        let c = cfg(widths, out_free);
        let w = UnetWeights::zeroed_for(c.clone());
        assert_eq!(w.validate_shapes_against(&c), Ok(()));
        assert_eq!(total_params(&w), c.approx_param_count());
        let expect = shaped(&c);
        assert_eq!(w.stem.stride, 1);
        assert!(w.down.iter().all(|p| p.stride == 2));
        assert!(w.down_refine.iter().chain(&w.up_reduce).chain(&w.up_merge).all(|p| p.stride == 1));
        assert_eq!(w.head.k, 1);
        let dims = |p: &ConvParam| (p.cin, p.cout, p.k, p.stride, p.w.clone(), p.b.clone());
        assert_eq!(w.down.iter().map(dims).collect::<Vec<_>>(), expect.down.iter().map(dims).collect::<Vec<_>>());
        assert_eq!(w.up_merge.iter().map(dims).collect::<Vec<_>>(), expect.up_merge.iter().map(dims).collect::<Vec<_>>());
        assert_eq!(w.out_refine.is_some(), out_free);
    }
}
