//! Shape parameters of the multi-scale encoder/decoder conv net, and the
//! integer arithmetic that sizes it: per-scale spatial dims, element counts,
//! the learned-parameter count and the SAME-padding rules of its convs.

use vstd::prelude::*;

verus! {

/// Per-pixel features of the recurrent split-evidence layout (evidence taps,
/// G-buffer and reprojected history).
pub const HIST_FEATURES_SPLIT: usize = 39;

/// Motion-vector channels appended to it (dx, dy).
pub const MOTION_VECTOR_CHANNELS: usize = 2;

/// The net's default input channel count: the recurrent split-evidence
/// features plus the motion vector.
pub fn default_in_channels() -> (n: usize)
    ensures
        n == HIST_FEATURES_SPLIT + MOTION_VECTOR_CHANNELS,
{
    HIST_FEATURES_SPLIT + MOTION_VECTOR_CHANNELS
}

/// Shape-parametric U-Net config: every dimension of the net.
#[derive(Debug)]
pub struct UnetConfig {
    /// Encoder/decoder depth (full res, /2, /4, ...).
    pub n_scales: usize,
    /// Channel width at each scale, index 0 = full render res.
    pub widths: Vec<usize>,
    /// Square conv kernel size.
    pub kernel: usize,
    /// Input channel count.
    pub in_channels: usize,
    /// Output channel count.
    pub out_channels: usize,
    /// Render/evidence resolution.
    pub render_w: usize,
    pub render_h: usize,
    /// Output resolution (free; defaults to render res).
    pub output_w: usize,
    pub output_h: usize,
}

impl Default for UnetConfig {
    fn default() -> (c: Self)
        ensures
            c.n_scales == 3,
            c.widths@ == seq![24usize, 40, 64],
            c.kernel == 3,
            c.in_channels == HIST_FEATURES_SPLIT + MOTION_VECTOR_CHANNELS,
            c.out_channels == 3,
            c.render_w == 640,
            c.render_h == 480,
            c.output_w == 640,
            c.output_h == 480,
    {
        let render_w = 640usize;
        let render_h = 480usize;
        UnetConfig {
            n_scales: 3,
            widths: vec![24, 40, 64],
            kernel: 3,
            in_channels: default_in_channels(),
            out_channels: 3,
            render_w,
            render_h,
            output_w: render_w,
            output_h: render_h,
        }
    }
}

/// Why a config cannot size a net.
#[derive(Clone, Copy, Debug, PartialEq, Eq, Structural)]
pub enum ConfigError {
    /// `n_scales` is zero.
    NoScales,
    /// `widths` does not hold one width per scale.
    WidthCount { widths: usize, n_scales: usize },
}

/// Learned parameters (weights plus biases) of one conv layer.
pub open spec fn conv_param_count(k: int, cin: int, cout: int) -> int {
    k * k * cin * cout + cout
}

/// One conv layer's parameter count and every partial product on the way to
/// it fit in a `usize`.
pub open spec fn conv_count_fits(k: int, cin: int, cout: int) -> bool {
    &&& k * k <= usize::MAX
    &&& k * k * cin <= usize::MAX
    &&& conv_param_count(k, cin, cout) <= usize::MAX
}

/// The mathematical content of a [`UnetConfig`].
pub struct ConfigView {
    pub n_scales: usize,
    pub widths: Seq<usize>,
    pub kernel: usize,
    pub in_channels: usize,
    pub out_channels: usize,
    pub render_w: usize,
    pub render_h: usize,
    pub output_w: usize,
    pub output_h: usize,
}

impl View for UnetConfig {
    type V = ConfigView;

    open spec fn view(&self) -> ConfigView {
        ConfigView {
            n_scales: self.n_scales,
            widths: self.widths@,
            kernel: self.kernel,
            in_channels: self.in_channels,
            out_channels: self.out_channels,
            render_w: self.render_w,
            render_h: self.render_h,
            output_w: self.output_w,
            output_h: self.output_h,
        }
    }
}

impl Clone for UnetConfig {
    fn clone(&self) -> (c: Self)
        ensures
            c@ == self@,
    {
        let widths = self.widths.clone();
        proof {
            assert(widths@ =~= self.widths@);
        }
        UnetConfig {
            n_scales: self.n_scales,
            widths,
            kernel: self.kernel,
            in_channels: self.in_channels,
            out_channels: self.out_channels,
            render_w: self.render_w,
            render_h: self.render_h,
            output_w: self.output_w,
            output_h: self.output_h,
        }
    }
}

impl ConfigView {
    /// The config's width at scale `s`.
    pub open spec fn width(&self, s: int) -> int {
        self.widths[s] as int
    }

    /// Whether the output resolution differs from the render resolution
    /// (the net then ends with a resize and a learned refine conv).
    pub open spec fn wants_out_refine(&self) -> bool {
        self.output_h != self.render_h || self.output_w != self.render_w
    }

    /// Encoder parameters of scales `1..m`: a stride-2 downsample from the
    /// previous width plus a refine at the scale's own width.
    pub open spec fn encoder_params(&self, m: int) -> int
        decreases m,
    {
        if m <= 1 {
            0
        } else {
            self.encoder_params(m - 1) + conv_param_count(self.kernel as int, self.width(m - 2), self.width(m - 1))
                + conv_param_count(self.kernel as int, self.width(m - 1), self.width(m - 1))
        }
    }

    /// Decoder parameters of scales `lo..hi`: the post-upsample channel
    /// reduce from the next-deeper width plus the post-concat merge.
    pub open spec fn decoder_params(&self, lo: int, hi: int) -> int
        decreases hi - lo,
    {
        if lo >= hi {
            0
        } else {
            conv_param_count(self.kernel as int, self.width(lo + 1), self.width(lo))
                + conv_param_count(self.kernel as int, 2 * self.width(lo), self.width(lo))
                + self.decoder_params(lo + 1, hi)
        }
    }

    /// Decoder steps: one per scale below the deepest.
    pub open spec fn n_steps(&self) -> int {
        if self.n_scales == 0 { 0 } else { self.n_scales - 1 }
    }

    /// Total learned parameters of the net this config describes: stem,
    /// encoder, decoder, the optional output-res refine and the 1x1 head.
    pub open spec fn param_count(&self) -> int {
        conv_param_count(self.kernel as int, self.in_channels as int, self.width(0))
            + self.encoder_params(self.n_scales as int)
            + self.decoder_params(0, self.n_steps())
            + (if self.wants_out_refine() {
                conv_param_count(self.kernel as int, self.width(0), self.width(0))
            } else {
                0
            })
            + conv_param_count(1, self.width(0), self.out_channels as int)
    }

    /// Every conv layer's count fits, and so does the total.
    pub open spec fn param_count_fits(&self) -> bool {
        let k = self.kernel as int;
        &&& conv_count_fits(k, self.in_channels as int, self.width(0))
        &&& forall|s: int|
            1 <= s < self.n_scales ==> conv_count_fits(k, #[trigger] self.width(s - 1), self.width(s))
                && conv_count_fits(k, self.width(s), self.width(s))
        &&& forall|s: int|
            0 <= s < self.n_steps() ==> conv_count_fits(k, self.width(s + 1), #[trigger] self.width(s))
                && 2 * self.width(s) <= usize::MAX && conv_count_fits(k, 2 * self.width(s), self.width(s))
        &&& self.wants_out_refine() ==> conv_count_fits(k, self.width(0), self.width(0))
        &&& conv_count_fits(1, self.width(0), self.out_channels as int)
        &&& self.param_count() <= usize::MAX
    }
}

pub(crate) proof fn lemma_conv_count_nonneg(k: int, cin: int, cout: int)
    requires
        k >= 0,
        cin >= 0,
        cout >= 0,
    ensures
        conv_param_count(k, cin, cout) >= k * k * cin * cout,
        k * k * cin * cout >= 0,
        k * k * cin >= 0,
        k * k >= 0,
{
    assert(k * k >= 0) by (nonlinear_arith) requires k >= 0;
    assert(k * k * cin >= 0) by (nonlinear_arith) requires k * k >= 0, cin >= 0;
    assert(k * k * cin * cout >= 0) by (nonlinear_arith) requires k * k * cin >= 0, cout >= 0;
}

proof fn lemma_encoder_params_nonneg(c: ConfigView, m: int)
    ensures
        c.encoder_params(m) >= 0,
    decreases m,
{
    if m > 1 {
        lemma_encoder_params_nonneg(c, m - 1);
        lemma_conv_count_nonneg(c.kernel as int, c.width(m - 2), c.width(m - 1));
        lemma_conv_count_nonneg(c.kernel as int, c.width(m - 1), c.width(m - 1));
    }
}

proof fn lemma_decoder_params_nonneg(c: ConfigView, lo: int, hi: int)
    ensures
        c.decoder_params(lo, hi) >= 0,
    decreases hi - lo,
{
    if lo < hi {
        lemma_decoder_params_nonneg(c, lo + 1, hi);
        lemma_conv_count_nonneg(c.kernel as int, c.width(lo + 1), c.width(lo));
        lemma_conv_count_nonneg(c.kernel as int, 2 * c.width(lo), c.width(lo));
    }
}

fn conv_count(k: usize, cin: usize, cout: usize) -> (n: usize)
    requires
        conv_count_fits(k as int, cin as int, cout as int),
    ensures
        n == conv_param_count(k as int, cin as int, cout as int),
{
    proof {
        lemma_conv_count_nonneg(k as int, cin as int, cout as int);
    }
    k * k * cin * cout + cout
}

fn conv_count_checked(k: usize, cin: usize, cout: usize) -> (r: Option<usize>)
    ensures
        (r is Some) == conv_count_fits(k as int, cin as int, cout as int),
        r matches Some(n) ==> n == conv_param_count(k as int, cin as int, cout as int),
{
    proof {
        lemma_conv_count_nonneg(k as int, cin as int, cout as int);
    }
    let kk = match k.checked_mul(k) {
        Some(v) => v,
        None => {
            return None;
        },
    };
    let kkc = match kk.checked_mul(cin) {
        Some(v) => v,
        None => {
            return None;
        },
    };
    let kkcc = match kkc.checked_mul(cout) {
        Some(v) => v,
        None => {
            return None;
        },
    };
    kkcc.checked_add(cout)
}

/// The parameters of encoder step into a scale of width `cout` from one of
/// width `cin`: the downsample plus the refine.
fn encoder_step_checked(k: usize, cin: usize, cout: usize) -> (r: Option<usize>)
    ensures
        (r is Some) == (conv_count_fits(k as int, cin as int, cout as int) && conv_count_fits(
            k as int,
            cout as int,
            cout as int,
        ) && conv_param_count(k as int, cin as int, cout as int) + conv_param_count(k as int, cout as int, cout as int)
            <= usize::MAX),
        r matches Some(n) ==> n == conv_param_count(k as int, cin as int, cout as int) + conv_param_count(
            k as int,
            cout as int,
            cout as int,
        ),
{
    let a = match conv_count_checked(k, cin, cout) {
        Some(v) => v,
        None => {
            return None;
        },
    };
    let b = match conv_count_checked(k, cout, cout) {
        Some(v) => v,
        None => {
            return None;
        },
    };
    a.checked_add(b)
}

/// The parameters of the decoder step back to a scale of width `narrow`
/// from one of width `wide`: the channel reduce plus the post-concat merge.
fn decoder_step_checked(k: usize, wide: usize, narrow: usize) -> (r: Option<usize>)
    ensures
        (r is Some) == (conv_count_fits(k as int, wide as int, narrow as int) && 2 * narrow <= usize::MAX
            && conv_count_fits(k as int, 2 * narrow, narrow as int) && conv_param_count(
            k as int,
            wide as int,
            narrow as int,
        ) + conv_param_count(k as int, 2 * narrow, narrow as int) <= usize::MAX),
        r matches Some(n) ==> n == conv_param_count(k as int, wide as int, narrow as int) + conv_param_count(
            k as int,
            2 * narrow,
            narrow as int,
        ),
{
    let a = match conv_count_checked(k, wide, narrow) {
        Some(v) => v,
        None => {
            return None;
        },
    };
    let twice = match narrow.checked_mul(2) {
        Some(v) => v,
        None => {
            return None;
        },
    };
    let b = match conv_count_checked(k, twice, narrow) {
        Some(v) => v,
        None => {
            return None;
        },
    };
    a.checked_add(b)
}

impl UnetConfig {
    /// Total learned-parameter count (weights + biases across every conv).
    pub fn approx_param_count(&self) -> (n: usize)
        requires
            self.widths.len() >= 1,
            self.widths.len() >= self.n_scales,
            self@.param_count_fits(),
        ensures
            n == self@.param_count(),
    {
        let k = self.kernel;
        let ghost total = self@.param_count();
        let ghost stem = conv_param_count(k as int, self.in_channels as int, self@.width(0));
        let ghost enc_all = self@.encoder_params(self.n_scales as int);
        let ghost dec_all = self@.decoder_params(0, self@.n_steps());
        let ghost refine = if self@.wants_out_refine() {
            conv_param_count(k as int, self@.width(0), self@.width(0))
        } else {
            0
        };
        let ghost head = conv_param_count(1, self@.width(0), self.out_channels as int);
        proof {
            lemma_encoder_params_nonneg(self@, self.n_scales as int);
            lemma_decoder_params_nonneg(self@, 0, self@.n_steps());
            lemma_conv_count_nonneg(k as int, self@.width(0), self@.width(0));
            lemma_conv_count_nonneg(1, self@.width(0), self.out_channels as int);
            lemma_conv_count_nonneg(k as int, self.in_channels as int, self@.width(0));
            assert(total == stem + enc_all + dec_all + refine + head);
        }
        let mut n = conv_count(k, self.in_channels, self.widths[0]);
        let mut cin = self.widths[0];
        let mut s: usize = 1;
        while s < self.n_scales
            invariant
                1 <= s,
                s <= self.n_scales || s == 1,
                self.widths.len() >= 1,
                self.widths.len() >= self.n_scales,
                self@.param_count_fits(),
                k == self.kernel,
                total == stem + enc_all + dec_all + refine + head,
                enc_all == self@.encoder_params(self.n_scales as int),
                stem >= 0,
                dec_all >= 0,
                refine >= 0,
                head >= 0,
                total <= usize::MAX,
                cin == self.widths@[s - 1],
                n == stem + self@.encoder_params(s as int),
            decreases self.n_scales - s,
        {
            let cout = self.widths[s];
            proof {
                assert(conv_count_fits(k as int, self@.width(s - 1), self@.width(s as int)));
                assert(conv_count_fits(k as int, self@.width(s as int), self@.width(s as int)));
                lemma_encoder_tail(self@, s as int);
                lemma_encoder_mono(self@, (s + 1) as int, self.n_scales as int);
                lemma_conv_count_nonneg(k as int, self@.width(s - 1), self@.width(s as int));
                lemma_conv_count_nonneg(k as int, self@.width(s as int), self@.width(s as int));
            }
            n = n + conv_count(k, cin, cout);
            n = n + conv_count(k, cout, cout);
            cin = cout;
            s = s + 1;
        }
        proof {
            if self.n_scales >= 1 {
                assert(s == self.n_scales);
            } else {
                assert(s == 1);
                assert(self@.encoder_params(1) == 0);
                assert(self@.encoder_params(0) == 0);
            }
            assert(n == stem + enc_all);
        }
        let n_steps = if self.n_scales == 0 { 0 } else { self.n_scales - 1 };
        let mut t: usize = n_steps;
        while t > 0
            invariant
                t <= n_steps,
                n_steps == self@.n_steps(),
                n_steps < self.widths.len(),
                self@.param_count_fits(),
                k == self.kernel,
                total == stem + enc_all + dec_all + refine + head,
                dec_all == self@.decoder_params(0, n_steps as int),
                refine >= 0,
                head >= 0,
                total <= usize::MAX,
                n == stem + enc_all + self@.decoder_params(t as int, n_steps as int),
            decreases t,
        {
            let s = t - 1;
            let cout = self.widths[s];
            let cin_up = self.widths[s + 1];
            proof {
                assert(conv_count_fits(k as int, self@.width(s + 1), self@.width(s as int)));
                lemma_decoder_split(self@, 0, s as int, n_steps as int);
                lemma_decoder_params_nonneg(self@, 0, s as int);
                lemma_conv_count_nonneg(k as int, self@.width(s + 1), self@.width(s as int));
                lemma_conv_count_nonneg(k as int, 2 * self@.width(s as int), self@.width(s as int));
            }
            n = n + conv_count(k, cin_up, cout);
            n = n + conv_count(k, cout * 2, cout);
            t = s;
        }
        if self.output_h != self.render_h || self.output_w != self.render_w {
            n = n + conv_count(k, self.widths[0], self.widths[0]);
        }
        n = n + conv_count(1, self.widths[0], self.out_channels);
        n
    }

    /// The total learned-parameter count, or `None` exactly when some
    /// layer's count, or the total, does not fit a `usize`.
    pub fn checked_param_count(&self) -> (r: Option<usize>)
        requires
            self.widths.len() >= 1,
            self.widths.len() >= self.n_scales,
        ensures
            (r is Some) == self@.param_count_fits(),
            r matches Some(n) ==> n == self@.param_count(),
    {
        let k = self.kernel;
        let ghost c = self@;
        let ghost total = c.param_count();
        let ghost stem = conv_param_count(k as int, self.in_channels as int, c.width(0));
        let ghost enc_all = c.encoder_params(self.n_scales as int);
        let ghost dec_all = c.decoder_params(0, c.n_steps());
        let ghost refine = if c.wants_out_refine() {
            conv_param_count(k as int, c.width(0), c.width(0))
        } else {
            0
        };
        let ghost head = conv_param_count(1, c.width(0), self.out_channels as int);
        proof {
            lemma_encoder_params_nonneg(c, self.n_scales as int);
            lemma_decoder_params_nonneg(c, 0, c.n_steps());
            lemma_conv_count_nonneg(k as int, c.width(0), c.width(0));
            lemma_conv_count_nonneg(1, c.width(0), self.out_channels as int);
            lemma_conv_count_nonneg(k as int, self.in_channels as int, c.width(0));
            assert(total == stem + enc_all + dec_all + refine + head);
        }
        let mut n = match conv_count_checked(k, self.in_channels, self.widths[0]) {
            Some(v) => v,
            None => {
                return None;
            },
        };
        let mut s: usize = 1;
        while s < self.n_scales
            invariant
                1 <= s,
                s <= self.n_scales || s == 1,
                self.widths.len() >= 1,
                self.widths.len() >= self.n_scales,
                c == self@,
                k == self.kernel,
                total == stem + enc_all + dec_all + refine + head,
                total == c.param_count(),
                enc_all == c.encoder_params(self.n_scales as int),
                stem >= 0,
                dec_all >= 0,
                refine >= 0,
                head >= 0,
                conv_count_fits(k as int, self.in_channels as int, c.width(0)),
                forall|u: int|
                    1 <= u < s ==> conv_count_fits(k as int, #[trigger] c.width(u - 1), c.width(u))
                        && conv_count_fits(k as int, c.width(u), c.width(u)),
                n == stem + c.encoder_params(s as int),
            decreases self.n_scales - s,
        {
            proof {
                lemma_encoder_tail(c, s as int);
                lemma_encoder_mono(c, (s + 1) as int, self.n_scales as int);
            }
            let a = match encoder_step_checked(k, self.widths[s - 1], self.widths[s]) {
                Some(v) => v,
                None => {
                    proof {
                        assert(!c.param_count_fits()) by {
                            if c.param_count_fits() {
                                assert(conv_count_fits(k as int, c.width(s - 1), c.width(s as int)));
                            }
                        }
                    }
                    return None;
                },
            };
            n = match n.checked_add(a) {
                Some(v) => v,
                None => {
                    return None;
                },
            };
            s = s + 1;
        }
        proof {
            if self.n_scales >= 1 {
                assert(s == self.n_scales);
            } else {
                assert(c.encoder_params(1) == 0);
                assert(c.encoder_params(0) == 0);
            }
        }
        let n_steps = if self.n_scales == 0 { 0 } else { self.n_scales - 1 };
        let mut t: usize = n_steps;
        while t > 0
            invariant
                t <= n_steps,
                n_steps == c.n_steps(),
                n_steps < self.widths.len(),
                c == self@,
                k == self.kernel,
                total == stem + enc_all + dec_all + refine + head,
                total == c.param_count(),
                dec_all == c.decoder_params(0, n_steps as int),
                stem >= 0,
                refine >= 0,
                head >= 0,
                conv_count_fits(k as int, self.in_channels as int, c.width(0)),
                forall|u: int|
                    1 <= u < self.n_scales ==> conv_count_fits(k as int, #[trigger] c.width(u - 1), c.width(u))
                        && conv_count_fits(k as int, c.width(u), c.width(u)),
                forall|u: int|
                    t <= u < n_steps ==> conv_count_fits(k as int, c.width(u + 1), #[trigger] c.width(u)) && 2
                        * c.width(u) <= usize::MAX && conv_count_fits(k as int, 2 * c.width(u), c.width(u)),
                n == stem + enc_all + c.decoder_params(t as int, n_steps as int),
            decreases t,
        {
            let s = t - 1;
            proof {
                lemma_decoder_split(c, 0, s as int, n_steps as int);
                lemma_decoder_params_nonneg(c, 0, s as int);
                assert(c.decoder_params(s as int, n_steps as int) == conv_param_count(
                    k as int,
                    c.width(s + 1),
                    c.width(s as int),
                ) + conv_param_count(k as int, 2 * c.width(s as int), c.width(s as int)) + c.decoder_params(
                    t as int,
                    n_steps as int,
                ));
            }
            let a = match decoder_step_checked(k, self.widths[s + 1], self.widths[s]) {
                Some(v) => v,
                None => {
                    proof {
                        assert(!c.param_count_fits()) by {
                            if c.param_count_fits() {
                                assert(conv_count_fits(k as int, c.width(s + 1), c.width(s as int)));
                            }
                        }
                    }
                    return None;
                },
            };
            n = match n.checked_add(a) {
                Some(v) => v,
                None => {
                    return None;
                },
            };
            t = s;
        }
        if self.output_h != self.render_h || self.output_w != self.render_w {
            let a = match conv_count_checked(k, self.widths[0], self.widths[0]) {
                Some(v) => v,
                None => {
                    return None;
                },
            };
            n = match n.checked_add(a) {
                Some(v) => v,
                None => {
                    return None;
                },
            };
        }
        let h = match conv_count_checked(1, self.widths[0], self.out_channels) {
            Some(v) => v,
            None => {
                return None;
            },
        };
        n = match n.checked_add(h) {
            Some(v) => v,
            None => {
                return None;
            },
        };
        proof {
            assert(n == total);
        }
        Some(n)
    }

    /// Input feature-map elements for one forward (batch 1).
    pub fn input_elems(&self) -> (n: usize)
        requires
            self.render_h * self.render_w <= usize::MAX,
            self.render_h * self.render_w * self.in_channels <= usize::MAX,
        ensures
            n == self.render_h * self.render_w * self.in_channels,
    {
        self.render_h * self.render_w * self.in_channels
    }

    /// Output feature-map elements for one forward (batch 1).
    pub fn output_elems(&self) -> (n: usize)
        requires
            self.output_h * self.output_w <= usize::MAX,
            self.output_h * self.output_w * self.out_channels <= usize::MAX,
        ensures
            n == self.output_h * self.output_w * self.out_channels,
    {
        self.output_h * self.output_w * self.out_channels
    }

    /// Whether a net can be built from this config: at least one scale and
    /// one width per scale.
    pub fn check_buildable(&self) -> (r: Result<(), ConfigError>)
        ensures
            self.n_scales == 0 ==> r == Err::<(), ConfigError>(ConfigError::NoScales),
            self.n_scales != 0 && self.widths.len() != self.n_scales ==> r == Err::<(), ConfigError>(
                ConfigError::WidthCount { widths: self.widths.len(), n_scales: self.n_scales },
            ),
            self.n_scales != 0 && self.widths.len() == self.n_scales ==> r is Ok,
    {
        if self.n_scales == 0 {
            return Err(ConfigError::NoScales);
        }
        if self.widths.len() != self.n_scales {
            return Err(ConfigError::WidthCount { widths: self.widths.len(), n_scales: self.n_scales });
        }
        Ok(())
    }
}

/// `x` halved, rounding up, `s` times: the spatial size at scale `s` (each
/// stride-2 SAME conv maps a side of `d` pixels to `ceil(d / 2)`).
pub open spec fn halved_up(x: int, s: nat) -> int
    decreases s,
{
    if s == 0 {
        x
    } else {
        (halved_up(x, (s - 1) as nat) + 1) / 2
    }
}

impl UnetConfig {
    /// Per-scale spatial dims `(h, w)`: the render resolution at scale 0,
    /// each deeper scale halved (rounding up) from the previous one.
    pub fn scale_dims(&self) -> (dims: Vec<(usize, usize)>)
        requires
            self.n_scales <= 1 || (self.render_h < usize::MAX && self.render_w < usize::MAX),
        ensures
            dims.len() == if self.n_scales == 0 { 1 } else { self.n_scales as int },
            forall|s: int|
                0 <= s < dims.len() ==> (#[trigger] dims@[s]).0 == halved_up(self.render_h as int, s as nat)
                    && dims@[s].1 == halved_up(self.render_w as int, s as nat),
    {
        let mut dims: Vec<(usize, usize)> = Vec::new();
        dims.push((self.render_h, self.render_w));
        let mut s: usize = 1;
        while s < self.n_scales
            invariant
                1 <= s,
                s <= self.n_scales || s == 1,
                self.n_scales <= 1 || (self.render_h < usize::MAX && self.render_w < usize::MAX),
                dims.len() == s,
                forall|t: int|
                    0 <= t < s ==> (#[trigger] dims@[t]).0 == halved_up(self.render_h as int, t as nat)
                        && dims@[t].1 == halved_up(self.render_w as int, t as nat),
                forall|t: int| 1 <= t < s ==> (#[trigger] dims@[t]).0 < usize::MAX && dims@[t].1 < usize::MAX,
            decreases self.n_scales - s,
        {
            let (ph, pw) = dims[s - 1];
            dims.push(((ph + 1) / 2, (pw + 1) / 2));
            s = s + 1;
        }
        dims
    }
}

/// SAME-padded conv output size: `ceil(in_dim / stride)`.
pub fn same_out_dim(in_dim: usize, stride: usize) -> (d: usize)
    requires
        stride >= 1,
        in_dim + stride <= usize::MAX,
    ensures
        d == (in_dim + stride - 1) / stride as int,
{
    (in_dim + stride - 1) / stride
}

/// Total SAME padding along one axis: `(out - 1) * stride + k - in`, or 0
/// when that is negative.
pub open spec fn same_pad_total(in_dim: int, out_dim: int, k: int, stride: int) -> int {
    let t = (out_dim - 1) * stride + k - in_dim;
    if t > 0 { t } else { 0 }
}

/// SAME padding split `(before, after)` along one axis: the odd extra pixel
/// goes after.
pub fn same_pad(in_dim: usize, out_dim: usize, k: usize, stride: usize) -> (p: (i64, i64))
    requires
        in_dim <= i64::MAX,
        out_dim <= i64::MAX,
        k <= i64::MAX,
        stride <= i64::MAX,
        i64::MIN <= (out_dim - 1) * stride <= i64::MAX,
        i64::MIN <= (out_dim - 1) * stride + k <= i64::MAX,
        i64::MIN <= (out_dim - 1) * stride + k - in_dim <= i64::MAX,
    ensures
        p.0 == same_pad_total(in_dim as int, out_dim as int, k as int, stride as int) / 2,
        p.1 == same_pad_total(in_dim as int, out_dim as int, k as int, stride as int) - p.0,
        p.0 >= 0,
        p.1 >= p.0,
{
    let a: i64 = (out_dim as i64 - 1) * stride as i64;
    let b: i64 = a + k as i64;
    let c: i64 = b - in_dim as i64;
    let total: i64 = if c > 0 { c } else { 0 };
    let before: i64 = total / 2;
    (before, total - before)
}

/// Law: each deeper scale's size is exactly what a stride-2 SAME conv
/// produces from the scale above it (`ceil(d / 2)`), so the decoder's resize
/// targets line up with the encoder's outputs.
pub proof fn lemma_scale_is_stride2_output(x: int, s: nat)
    ensures
        halved_up(x, s + 1) == (halved_up(x, s) + 2 - 1) / 2,
{
}

proof fn lemma_encoder_mono(c: ConfigView, a: int, b: int)
    requires
        a <= b,
    ensures
        c.encoder_params(a) <= c.encoder_params(b),
    decreases b - a,
{
    if a < b {
        lemma_encoder_mono(c, a, b - 1);
        if b > 1 {
            lemma_conv_count_nonneg(c.kernel as int, c.width(b - 2), c.width(b - 1));
            lemma_conv_count_nonneg(c.kernel as int, c.width(b - 1), c.width(b - 1));
        }
    }
}

proof fn lemma_encoder_tail(c: ConfigView, s: int)
    requires
        s >= 1,
    ensures
        c.encoder_params(s + 1) == c.encoder_params(s) + conv_param_count(c.kernel as int, c.width(s - 1), c.width(s))
            + conv_param_count(c.kernel as int, c.width(s), c.width(s)),
{
}

proof fn lemma_decoder_split(c: ConfigView, lo: int, mid: int, hi: int)
    requires
        lo <= mid <= hi,
    ensures
        c.decoder_params(lo, hi) == c.decoder_params(lo, mid) + c.decoder_params(mid, hi),
    decreases mid - lo,
{
    if lo < mid {
        lemma_decoder_split(c, lo + 1, mid, hi);
    }
}

} // verus!
