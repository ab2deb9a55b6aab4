//! Host-side weights of the conv net: every conv layer's shape plus its
//! weight and bias tensors, each value held as its IEEE-754 binary32 bit
//! pattern, laid out HWIO (`((ky * k + kx) * cin + ci) * cout + co`).

use vstd::prelude::*;
use crate::unet_config::{ConfigView, UnetConfig, conv_count_fits, conv_param_count, lemma_conv_count_nonneg};

verus! {

/// One conv layer's learned parameters.
pub struct ConvParam {
    pub cin: usize,
    pub cout: usize,
    pub k: usize,
    pub stride: usize,
    /// Weights, `[k, k, cin, cout]`, binary32 bit patterns.
    pub w: Vec<u32>,
    /// Biases, `[cout]`, binary32 bit patterns.
    pub b: Vec<u32>,
}

/// The mathematical content of a [`ConvParam`].
pub struct ConvView {
    pub cin: usize,
    pub cout: usize,
    pub k: usize,
    pub stride: usize,
    pub w: Seq<u32>,
    pub b: Seq<u32>,
}

impl View for ConvParam {
    type V = ConvView;

    open spec fn view(&self) -> ConvView {
        ConvView { cin: self.cin, cout: self.cout, k: self.k, stride: self.stride, w: self.w@, b: self.b@ }
    }
}

/// The views of a sequence of conv layers.
pub open spec fn convs_view(s: Seq<ConvParam>) -> Seq<ConvView> {
    s.map_values(|p: ConvParam| p@)
}

/// The whole net's weights, in the net's own op order.
pub struct UnetWeights {
    pub config: UnetConfig,
    pub stem: ConvParam,
    /// Encoder stride-2 downsample per scale step (`n_scales - 1` of them).
    pub down: Vec<ConvParam>,
    /// Encoder refine per scale step.
    pub down_refine: Vec<ConvParam>,
    /// Decoder post-upsample channel reduce, deepest step first.
    pub up_reduce: Vec<ConvParam>,
    /// Decoder post-concat merge, same order as `up_reduce`.
    pub up_merge: Vec<ConvParam>,
    /// Present only when the output resolution differs from the render one.
    pub out_refine: Option<ConvParam>,
    /// The 1x1 linear head.
    pub head: ConvParam,
}

/// The mathematical content of a [`UnetWeights`].
pub struct WeightsView {
    pub config: ConfigView,
    pub stem: ConvView,
    pub down: Seq<ConvView>,
    pub down_refine: Seq<ConvView>,
    pub up_reduce: Seq<ConvView>,
    pub up_merge: Seq<ConvView>,
    pub out_refine: Option<ConvView>,
    pub head: ConvView,
}

impl View for UnetWeights {
    type V = WeightsView;

    open spec fn view(&self) -> WeightsView {
        WeightsView {
            config: self.config@,
            stem: self.stem@,
            down: convs_view(self.down@),
            down_refine: convs_view(self.down_refine@),
            up_reduce: convs_view(self.up_reduce@),
            up_merge: convs_view(self.up_merge@),
            out_refine: match self.out_refine {
                Some(p) => Some(p@),
                None => None,
            },
            head: self.head@,
        }
    }
}

/// `p` maps `cin` channels to `cout` channels.
pub open spec fn dims_are(p: ConvView, cin: int, cout: int) -> bool {
    p.cin == cin && p.cout == cout
}

/// Encoder step `i` (scale `i + 1`) has the shapes the config asks for.
pub open spec fn enc_ok(w: WeightsView, c: ConfigView, i: int) -> bool {
    &&& dims_are(w.down[i], c.width(i), c.width(i + 1))
    &&& dims_are(w.down_refine[i], c.width(i + 1), c.width(i + 1))
}

/// The scale decoder step `i` returns to (steps run deepest first).
pub open spec fn up_scale(c: ConfigView, i: int) -> int {
    c.n_steps() - 1 - i
}

/// Decoder step `i`'s channel reduce has the shape the config asks for.
pub open spec fn reduce_ok(w: WeightsView, c: ConfigView, i: int) -> bool {
    dims_are(w.up_reduce[i], c.width(up_scale(c, i) + 1), c.width(up_scale(c, i)))
}

/// Decoder step `i`'s merge (after the skip concat) has the shape the config asks for.
pub open spec fn merge_ok(w: WeightsView, c: ConfigView, i: int) -> bool {
    dims_are(w.up_merge[i], 2 * c.width(up_scale(c, i)), c.width(up_scale(c, i)))
}

/// Every layer of `w` has the channel counts `c` asks for, the layer counts
/// follow `c.n_scales`, and the output refine is present exactly when `c`
/// wants one.
pub open spec fn shapes_match(w: WeightsView, c: ConfigView) -> bool {
    &&& c.widths.len() == c.n_scales
    &&& c.n_scales >= 1
    &&& dims_are(w.stem, c.in_channels as int, c.width(0))
    &&& w.down.len() == c.n_steps()
    &&& w.down_refine.len() == c.n_steps()
    &&& w.up_reduce.len() == c.n_steps()
    &&& w.up_merge.len() == c.n_steps()
    &&& forall|i: int| 0 <= i < c.n_steps() ==> #[trigger] enc_ok(w, c, i)
    &&& forall|i: int| 0 <= i < c.n_steps() ==> #[trigger] reduce_ok(w, c, i) && merge_ok(w, c, i)
    &&& (w.out_refine is Some) == c.wants_out_refine()
    &&& (w.out_refine matches Some(r) ==> dims_are(r, c.width(0), c.width(0)))
    &&& dims_are(w.head, c.width(0), c.out_channels as int)
}

/// Why a set of weights does not fit a config.
#[derive(Clone, Copy, Debug, PartialEq, Eq, Structural)]
pub enum ShapeError {
    /// The candidate config does not give one width per scale.
    InconsistentConfig { widths: usize, n_scales: usize },
    /// The candidate config has no scales (and so no widths).
    NoScales,
    /// The stem's channels differ from `in_channels -> widths[0]`.
    Stem { cin: usize, cout: usize },
    /// Some layer list does not hold `n_scales - 1` layers.
    LayerCounts,
    /// Encoder downsample `index` has the wrong channels.
    Down { index: usize },
    /// Encoder refine `index` has the wrong channels.
    DownRefine { index: usize },
    /// Decoder reduce `index` (deepest first) has the wrong channels.
    UpReduce { index: usize },
    /// Decoder merge `index` (deepest first) has the wrong channels.
    UpMerge { index: usize },
    /// The output refine has the wrong channels.
    OutRefine { cin: usize, cout: usize },
    /// The output refine is present when the config wants none, or absent when it wants one.
    OutRefinePresence { present: bool },
    /// The head's channels differ from `widths[0] -> out_channels`.
    Head { cin: usize, cout: usize },
}

/// The first encoder step at or after `i` whose shapes are wrong.
pub open spec fn first_bad_enc(w: WeightsView, c: ConfigView, i: int) -> Option<int>
    decreases c.n_steps() - i,
{
    if i >= c.n_steps() {
        None
    } else if !enc_ok(w, c, i) {
        Some(i)
    } else {
        first_bad_enc(w, c, i + 1)
    }
}

/// The first decoder step at or after `i` whose shapes are wrong.
pub open spec fn first_bad_up(w: WeightsView, c: ConfigView, i: int) -> Option<int>
    decreases c.n_steps() - i,
{
    if i >= c.n_steps() {
        None
    } else if !(reduce_ok(w, c, i) && merge_ok(w, c, i)) {
        Some(i)
    } else {
        first_bad_up(w, c, i + 1)
    }
}

/// The outcome of checking `w` against `c`: the checks run config
/// consistency, stem, layer counts, encoder steps (shallowest first),
/// decoder steps (deepest first), output refine, head; the first failing
/// one names the error.
pub open spec fn shape_check(w: WeightsView, c: ConfigView) -> Result<(), ShapeError> {
    if c.widths.len() != c.n_scales {
        Err(ShapeError::InconsistentConfig { widths: c.widths.len() as usize, n_scales: c.n_scales })
    } else if c.n_scales == 0 {
        Err(ShapeError::NoScales)
    } else if !dims_are(w.stem, c.in_channels as int, c.width(0)) {
        Err(ShapeError::Stem { cin: w.stem.cin, cout: w.stem.cout })
    } else if !(w.down.len() == c.n_steps() && w.down_refine.len() == c.n_steps()
        && w.up_reduce.len() == c.n_steps() && w.up_merge.len() == c.n_steps()) {
        Err(ShapeError::LayerCounts)
    } else if first_bad_enc(w, c, 0) is Some {
        let i = first_bad_enc(w, c, 0).unwrap();
        if !dims_are(w.down[i], c.width(i), c.width(i + 1)) {
            Err(ShapeError::Down { index: i as usize })
        } else {
            Err(ShapeError::DownRefine { index: i as usize })
        }
    } else if first_bad_up(w, c, 0) is Some {
        let i = first_bad_up(w, c, 0).unwrap();
        if !reduce_ok(w, c, i) {
            Err(ShapeError::UpReduce { index: i as usize })
        } else {
            Err(ShapeError::UpMerge { index: i as usize })
        }
    } else {
        match w.out_refine {
            Some(r) => if !c.wants_out_refine() {
                Err(ShapeError::OutRefinePresence { present: true })
            } else if !dims_are(r, c.width(0), c.width(0)) {
                Err(ShapeError::OutRefine { cin: r.cin, cout: r.cout })
            } else if !dims_are(w.head, c.width(0), c.out_channels as int) {
                Err(ShapeError::Head { cin: w.head.cin, cout: w.head.cout })
            } else {
                Ok(())
            },
            None => if c.wants_out_refine() {
                Err(ShapeError::OutRefinePresence { present: false })
            } else if !dims_are(w.head, c.width(0), c.out_channels as int) {
                Err(ShapeError::Head { cin: w.head.cin, cout: w.head.cout })
            } else {
                Ok(())
            },
        }
    }
}

proof fn lemma_first_bad_enc_none(w: WeightsView, c: ConfigView, i: int)
    requires
        0 <= i,
        first_bad_enc(w, c, i) is None,
    ensures
        forall|j: int| i <= j < c.n_steps() ==> #[trigger] enc_ok(w, c, j),
    decreases c.n_steps() - i,
{
    if i < c.n_steps() {
        lemma_first_bad_enc_none(w, c, i + 1);
    }
}

proof fn lemma_first_bad_up_none(w: WeightsView, c: ConfigView, i: int)
    requires
        0 <= i,
        first_bad_up(w, c, i) is None,
    ensures
        forall|j: int| i <= j < c.n_steps() ==> #[trigger] reduce_ok(w, c, j) && merge_ok(w, c, j),
    decreases c.n_steps() - i,
{
    if i < c.n_steps() {
        lemma_first_bad_up_none(w, c, i + 1);
    }
}

proof fn lemma_first_bad_enc_some(w: WeightsView, c: ConfigView, i: int)
    requires
        0 <= i,
    ensures
        first_bad_enc(w, c, i) matches Some(j) ==> i <= j < c.n_steps() && !enc_ok(w, c, j),
    decreases c.n_steps() - i,
{
    if i < c.n_steps() && enc_ok(w, c, i) {
        lemma_first_bad_enc_some(w, c, i + 1);
    }
}

proof fn lemma_first_bad_up_some(w: WeightsView, c: ConfigView, i: int)
    requires
        0 <= i,
    ensures
        first_bad_up(w, c, i) matches Some(j) ==> i <= j < c.n_steps() && !(reduce_ok(w, c, j) && merge_ok(w, c, j)),
    decreases c.n_steps() - i,
{
    if i < c.n_steps() && reduce_ok(w, c, i) && merge_ok(w, c, i) {
        lemma_first_bad_up_some(w, c, i + 1);
    }
}

proof fn lemma_all_enc_ok(w: WeightsView, c: ConfigView, i: int)
    requires
        0 <= i,
        forall|j: int| i <= j < c.n_steps() ==> #[trigger] enc_ok(w, c, j),
    ensures
        first_bad_enc(w, c, i) is None,
    decreases c.n_steps() - i,
{
    if i < c.n_steps() {
        lemma_all_enc_ok(w, c, i + 1);
    }
}

proof fn lemma_all_up_ok(w: WeightsView, c: ConfigView, i: int)
    requires
        0 <= i,
        forall|j: int| i <= j < c.n_steps() ==> #[trigger] reduce_ok(w, c, j) && merge_ok(w, c, j),
    ensures
        first_bad_up(w, c, i) is None,
    decreases c.n_steps() - i,
{
    if i < c.n_steps() {
        lemma_all_up_ok(w, c, i + 1);
    }
}

/// `shape_check` accepts exactly the weights whose shapes match.
proof fn lemma_shape_check_ok(w: WeightsView, c: ConfigView)
    ensures
        (shape_check(w, c) is Ok) == shapes_match(w, c),
{
    lemma_first_bad_enc_some(w, c, 0);
    lemma_first_bad_up_some(w, c, 0);
    if first_bad_enc(w, c, 0) is None {
        lemma_first_bad_enc_none(w, c, 0);
    }
    if first_bad_up(w, c, 0) is None {
        lemma_first_bad_up_none(w, c, 0);
    }
    if shapes_match(w, c) {
        lemma_all_enc_ok(w, c, 0);
        lemma_all_up_ok(w, c, 0);
    }
}

fn dims_are_exec(p: &ConvParam, cin: usize, cout: usize) -> (b: bool)
    ensures
        b == dims_are(p@, cin as int, cout as int),
{
    p.cin == cin && p.cout == cout
}

/// `p` maps `2 * cout` channels to `cout` channels (with `2 * cout` taken
/// over the integers).
fn merge_dims_exec(p: &ConvParam, cout: usize) -> (b: bool)
    ensures
        b == dims_are(p@, 2 * cout, cout as int),
{
    cout <= usize::MAX / 2 && p.cin == cout * 2 && p.cout == cout
}

impl ConvParam {
    /// A zero-filled layer of the same shape (+0.0 has the all-zero bit pattern).
    pub fn zeros_like(&self) -> (z: Self)
        ensures
            z.cin == self.cin,
            z.cout == self.cout,
            z.k == self.k,
            z.stride == self.stride,
            z.w@ == Seq::new(self.w.len() as nat, |i: int| 0u32),
            z.b@ == Seq::new(self.b.len() as nat, |i: int| 0u32),
    {
        let w = vec![0u32; self.w.len()];
        let b = vec![0u32; self.b.len()];
        proof {
            assert(w@ =~= Seq::new(self.w.len() as nat, |i: int| 0u32));
            assert(b@ =~= Seq::new(self.b.len() as nat, |i: int| 0u32));
        }
        ConvParam { cin: self.cin, cout: self.cout, k: self.k, stride: self.stride, w, b }
    }
}

/// `z` is a zero-filled layer shaped like `p`.
pub open spec fn zeroed_like(z: ConvView, p: ConvView) -> bool {
    &&& z.cin == p.cin
    &&& z.cout == p.cout
    &&& z.k == p.k
    &&& z.stride == p.stride
    &&& z.w == Seq::new(p.w.len(), |i: int| 0u32)
    &&& z.b == Seq::new(p.b.len(), |i: int| 0u32)
}

/// Each layer of `z` is a zero-filled copy of the matching layer of `p`.
pub open spec fn all_zeroed_like(z: Seq<ConvView>, p: Seq<ConvView>) -> bool {
    &&& z.len() == p.len()
    &&& forall|i: int| 0 <= i < p.len() ==> zeroed_like(#[trigger] z[i], p[i])
}

fn zeros_like_all(v: &Vec<ConvParam>) -> (z: Vec<ConvParam>)
    ensures
        all_zeroed_like(convs_view(z@), convs_view(v@)),
{
    let mut z: Vec<ConvParam> = Vec::new();
    let mut i: usize = 0;
    while i < v.len()
        invariant
            i <= v.len(),
            z.len() == i,
            forall|j: int| 0 <= j < i ==> zeroed_like(#[trigger] z@[j]@, v@[j]@),
        decreases v.len() - i,
    {
        z.push(v[i].zeros_like());
        i = i + 1;
    }
    z
}

impl UnetWeights {
    /// A zero-filled accumulator shaped exactly like `self`.
    pub fn zeros_like(&self) -> (z: Self)
        ensures
            z@.config == self@.config,
            zeroed_like(z@.stem, self@.stem),
            all_zeroed_like(z@.down, self@.down),
            all_zeroed_like(z@.down_refine, self@.down_refine),
            all_zeroed_like(z@.up_reduce, self@.up_reduce),
            all_zeroed_like(z@.up_merge, self@.up_merge),
            (z@.out_refine is Some) == (self@.out_refine is Some),
            z@.out_refine matches Some(r) ==> zeroed_like(r, self@.out_refine.unwrap()),
            zeroed_like(z@.head, self@.head),
    {
        UnetWeights {
            config: self.config.clone(),
            stem: self.stem.zeros_like(),
            down: zeros_like_all(&self.down),
            down_refine: zeros_like_all(&self.down_refine),
            up_reduce: zeros_like_all(&self.up_reduce),
            up_merge: zeros_like_all(&self.up_merge),
            out_refine: match &self.out_refine {
                Some(p) => Some(p.zeros_like()),
                None => None,
            },
            head: self.head.zeros_like(),
        }
    }

    /// Check every layer's channel counts against a candidate config (which
    /// need not be `self.config`); the first mismatch is reported.
    pub fn validate_shapes_against(&self, other: &UnetConfig) -> (r: Result<(), ShapeError>)
        ensures
            r == shape_check(self@, other@),
            (r is Ok) == shapes_match(self@, other@),
    {
        proof {
            lemma_shape_check_ok(self@, other@);
        }
        let ghost wv = self@;
        let ghost cv = other@;
        if other.widths.len() != other.n_scales {
            return Err(ShapeError::InconsistentConfig { widths: other.widths.len(), n_scales: other.n_scales });
        }
        if other.n_scales == 0 {
            return Err(ShapeError::NoScales);
        }
        if !dims_are_exec(&self.stem, other.in_channels, other.widths[0]) {
            return Err(ShapeError::Stem { cin: self.stem.cin, cout: self.stem.cout });
        }
        let n_down = if other.n_scales == 0 { 0 } else { other.n_scales - 1 };
        if self.down.len() != n_down || self.down_refine.len() != n_down || self.up_reduce.len() != n_down
            || self.up_merge.len() != n_down {
            return Err(ShapeError::LayerCounts);
        }
        let mut i: usize = 0;
        while i < n_down
            invariant
                wv == self@,
                cv == other@,
                n_down == cv.n_steps(),
                other.widths.len() == other.n_scales,
                n_down < other.n_scales,
                self.down.len() == n_down,
                self.down_refine.len() == n_down,
                dims_are(wv.stem, cv.in_channels as int, cv.width(0)),
                wv.down.len() == n_down,
                wv.down_refine.len() == n_down,
                wv.up_reduce.len() == n_down,
                wv.up_merge.len() == n_down,
                i <= n_down,
                first_bad_enc(wv, cv, 0) == first_bad_enc(wv, cv, i as int),
            decreases n_down - i,
        {
            proof {
                assert(wv.down[i as int] == self.down@[i as int]@);
                assert(wv.down_refine[i as int] == self.down_refine@[i as int]@);
                assert(first_bad_enc(wv, cv, i as int) == if !enc_ok(wv, cv, i as int) {
                    Some(i as int)
                } else {
                    first_bad_enc(wv, cv, i + 1)
                });
            }
            if !dims_are_exec(&self.down[i], other.widths[i], other.widths[i + 1]) {
                return Err(ShapeError::Down { index: i });
            }
            if !dims_are_exec(&self.down_refine[i], other.widths[i + 1], other.widths[i + 1]) {
                return Err(ShapeError::DownRefine { index: i });
            }
            i = i + 1;
        }
        let mut i: usize = 0;
        while i < n_down
            invariant
                wv == self@,
                cv == other@,
                n_down == cv.n_steps(),
                other.widths.len() == other.n_scales,
                n_down < other.n_scales,
                self.up_reduce.len() == n_down,
                self.up_merge.len() == n_down,
                dims_are(wv.stem, cv.in_channels as int, cv.width(0)),
                wv.down.len() == n_down,
                wv.down_refine.len() == n_down,
                wv.up_reduce.len() == n_down,
                wv.up_merge.len() == n_down,
                i <= n_down,
                first_bad_enc(wv, cv, 0) is None,
                first_bad_up(wv, cv, 0) == first_bad_up(wv, cv, i as int),
            decreases n_down - i,
        {
            let s = n_down - 1 - i;
            proof {
                assert(wv.up_reduce[i as int] == self.up_reduce@[i as int]@);
                assert(wv.up_merge[i as int] == self.up_merge@[i as int]@);
                assert(up_scale(cv, i as int) == s);
                assert(first_bad_up(wv, cv, i as int) == if !(reduce_ok(wv, cv, i as int) && merge_ok(wv, cv, i as int)) {
                    Some(i as int)
                } else {
                    first_bad_up(wv, cv, i + 1)
                });
            }
            if !dims_are_exec(&self.up_reduce[i], other.widths[s + 1], other.widths[s]) {
                return Err(ShapeError::UpReduce { index: i });
            }
            if !merge_dims_exec(&self.up_merge[i], other.widths[s]) {
                return Err(ShapeError::UpMerge { index: i });
            }
            i = i + 1;
        }
        let want_refine = other.output_h != other.render_h || other.output_w != other.render_w;
        match &self.out_refine {
            Some(r) => {
                if !want_refine {
                    return Err(ShapeError::OutRefinePresence { present: true });
                }
                if !dims_are_exec(r, other.widths[0], other.widths[0]) {
                    return Err(ShapeError::OutRefine { cin: r.cin, cout: r.cout });
                }
            },
            None => {
                if want_refine {
                    return Err(ShapeError::OutRefinePresence { present: false });
                }
            },
        }
        if !dims_are_exec(&self.head, other.widths[0], other.out_channels) {
            return Err(ShapeError::Head { cin: self.head.cin, cout: self.head.cout });
        }
        Ok(())
    }
}


/// Why a set of weights cannot be loaded into an inference graph.
#[derive(Clone, Copy, Debug, PartialEq, Eq, Structural)]
pub enum LoadError {
    /// The config has no scales.
    NoScales,
    /// The config does not give one width per scale.
    WidthCount { widths: usize, n_scales: usize },
    /// Some per-step layer list does not hold `n_scales - 1` layers.
    LayerCounts,
    /// The config wants a free output resolution but the weights carry no output refine.
    MissingOutRefine,
    /// The stem is not `kernel x kernel`, `in_channels -> widths[0]`.
    Stem { cin: usize, cout: usize, k: usize },
    /// The head is not `widths[0] -> out_channels`.
    Head { cin: usize, cout: usize },
}

/// The outcome of checking that weights can be loaded into the inference
/// graph of their own config: scales, widths, layer counts, output refine
/// presence, stem, head, in that order.
pub open spec fn load_check(w: WeightsView) -> Result<(), LoadError> {
    let c = w.config;
    if c.n_scales == 0 {
        Err(LoadError::NoScales)
    } else if c.widths.len() != c.n_scales {
        Err(LoadError::WidthCount { widths: c.widths.len() as usize, n_scales: c.n_scales })
    } else if !(w.down.len() == c.n_steps() && w.down_refine.len() == c.n_steps()
        && w.up_reduce.len() == c.n_steps() && w.up_merge.len() == c.n_steps()) {
        Err(LoadError::LayerCounts)
    } else if c.wants_out_refine() && w.out_refine is None {
        Err(LoadError::MissingOutRefine)
    } else if !(w.stem.cin == c.in_channels && w.stem.cout == c.width(0) && w.stem.k == c.kernel) {
        Err(LoadError::Stem { cin: w.stem.cin, cout: w.stem.cout, k: w.stem.k })
    } else if !dims_are(w.head, c.width(0), c.out_channels as int) {
        Err(LoadError::Head { cin: w.head.cin, cout: w.head.cout })
    } else {
        Ok(())
    }
}

/// Weights the inference graph of their own config can take: at least one
/// scale, one width per scale, `n_scales - 1` layers in each per-step list,
/// an output refine when the output resolution differs from the render
/// one, a `kernel x kernel` stem from `in_channels` to `widths[0]`, and a
/// head from `widths[0]` to `out_channels`.
pub open spec fn loadable(w: WeightsView) -> bool {
    let c = w.config;
    &&& c.n_scales >= 1
    &&& c.widths.len() == c.n_scales
    &&& w.down.len() == c.n_scales - 1
    &&& w.down_refine.len() == c.n_scales - 1
    &&& w.up_reduce.len() == c.n_scales - 1
    &&& w.up_merge.len() == c.n_scales - 1
    &&& (c.output_h != c.render_h || c.output_w != c.render_w) ==> w.out_refine is Some
    &&& w.stem.cin == c.in_channels
    &&& w.stem.cout == c.widths[0]
    &&& w.stem.k == c.kernel
    &&& w.head.cin == c.widths[0]
    &&& w.head.cout == c.out_channels
}

/// Law: the load check accepts exactly the loadable weights; in particular
/// it refuses any head that does not map `widths[0]` channels to
/// `out_channels`, and any stem that is not `in_channels -> widths[0]` with
/// the config's kernel.
pub proof fn lemma_load_check_ok(w: WeightsView)
    ensures
        (load_check(w) is Ok) == loadable(w),
        load_check(w) is Ok ==> w.head.cin == w.config.widths[0] && w.head.cout == w.config.out_channels,
        load_check(w) is Ok ==> w.stem.cin == w.config.in_channels && w.stem.cout == w.config.widths[0]
            && w.stem.k == w.config.kernel,
{
}

impl UnetWeights {
    /// Check that these weights can be loaded into the inference graph
    /// their own config describes.
    pub fn check_loadable(&self) -> (r: Result<(), LoadError>)
        ensures
            r == load_check(self@),
            (r is Ok) == loadable(self@),
            r is Ok ==> self.config.n_scales >= 1 && self.config.widths.len() == self.config.n_scales
                && self.head.cin == self.config.widths@[0] && self.head.cout == self.config.out_channels
                && self.stem.cin == self.config.in_channels && self.stem.cout == self.config.widths@[0]
                && self.stem.k == self.config.kernel,
            r matches Err(LoadError::Head { cin, cout }) ==> cin == self.head.cin && cout == self.head.cout && !(
            self.head.cin == self.config.widths@[0] && self.head.cout == self.config.out_channels),
            r matches Err(LoadError::Stem { cin, cout, k }) ==> cin == self.stem.cin && cout == self.stem.cout && k
                == self.stem.k && !(self.stem.cin == self.config.in_channels && self.stem.cout
                == self.config.widths@[0] && self.stem.k == self.config.kernel),
    {
        proof {
            lemma_load_check_ok(self@);
        }
        let c = &self.config;
        if c.n_scales == 0 {
            return Err(LoadError::NoScales);
        }
        if c.widths.len() != c.n_scales {
            return Err(LoadError::WidthCount { widths: c.widths.len(), n_scales: c.n_scales });
        }
        let n_dec = c.n_scales - 1;
        if self.down.len() != n_dec || self.down_refine.len() != n_dec || self.up_reduce.len() != n_dec
            || self.up_merge.len() != n_dec {
            return Err(LoadError::LayerCounts);
        }
        let wants_out_refine = c.output_h != c.render_h || c.output_w != c.render_w;
        if wants_out_refine && self.out_refine.is_none() {
            return Err(LoadError::MissingOutRefine);
        }
        if self.stem.cin != c.in_channels || self.stem.cout != c.widths[0] || self.stem.k != c.kernel {
            return Err(LoadError::Stem { cin: self.stem.cin, cout: self.stem.cout, k: self.stem.k });
        }
        if self.head.cin != c.widths[0] || self.head.cout != c.out_channels {
            return Err(LoadError::Head { cin: self.head.cin, cout: self.head.cout });
        }
        Ok(())
    }
}

/// Learned values held by one layer.
pub open spec fn conv_total(p: ConvView) -> int {
    (p.w.len() + p.b.len()) as int
}

/// Learned values held by a list of layers.
pub open spec fn convs_total(s: Seq<ConvView>) -> int
    decreases s.len(),
{
    if s.len() == 0 {
        0
    } else {
        convs_total(s.drop_last()) + conv_total(s.last())
    }
}

/// Learned values held by the whole net.
pub open spec fn weights_total(w: WeightsView) -> int {
    conv_total(w.stem) + convs_total(w.down) + convs_total(w.down_refine) + convs_total(w.up_reduce)
        + convs_total(w.up_merge) + (match w.out_refine {
        Some(r) => conv_total(r),
        None => 0,
    }) + conv_total(w.head)
}

/// A `k x k` layer whose tensors have exactly `k * k * cin * cout` weights
/// and `cout` biases.
pub open spec fn sized(p: ConvView, k: int) -> bool {
    &&& p.k == k
    &&& p.w.len() == k * k * p.cin * p.cout
    &&& p.b.len() == p.cout
}

/// Every layer uses the config's kernel (the head is 1 x 1) and holds
/// tensors of its own shape.
pub open spec fn well_sized(w: WeightsView, c: ConfigView) -> bool {
    &&& sized(w.stem, c.kernel as int)
    &&& forall|i: int| 0 <= i < w.down.len() ==> #[trigger] sized(w.down[i], c.kernel as int)
    &&& forall|i: int| 0 <= i < w.down_refine.len() ==> #[trigger] sized(w.down_refine[i], c.kernel as int)
    &&& forall|i: int| 0 <= i < w.up_reduce.len() ==> #[trigger] sized(w.up_reduce[i], c.kernel as int)
    &&& forall|i: int| 0 <= i < w.up_merge.len() ==> #[trigger] sized(w.up_merge[i], c.kernel as int)
    &&& (w.out_refine matches Some(r) ==> sized(r, c.kernel as int))
    &&& sized(w.head, 1)
}

proof fn lemma_encoder_total(w: WeightsView, c: ConfigView, m: int)
    requires
        shapes_match(w, c),
        well_sized(w, c),
        0 <= m <= c.n_steps(),
    ensures
        convs_total(w.down.take(m)) + convs_total(w.down_refine.take(m)) == c.encoder_params(m + 1),
    decreases m,
{
    if m > 0 {
        lemma_encoder_total(w, c, m - 1);
        assert(w.down.take(m).drop_last() =~= w.down.take(m - 1));
        assert(w.down_refine.take(m).drop_last() =~= w.down_refine.take(m - 1));
        assert(enc_ok(w, c, m - 1));
        assert(sized(w.down[m - 1], c.kernel as int));
        assert(sized(w.down_refine[m - 1], c.kernel as int));
    } else {
        assert(w.down.take(0).len() == 0);
        assert(w.down_refine.take(0).len() == 0);
    }
}

proof fn lemma_decoder_total(w: WeightsView, c: ConfigView, m: int)
    requires
        shapes_match(w, c),
        well_sized(w, c),
        0 <= m <= c.n_steps(),
    ensures
        convs_total(w.up_reduce.take(m)) + convs_total(w.up_merge.take(m))
            == c.decoder_params(c.n_steps() - m, c.n_steps()),
    decreases m,
{
    if m > 0 {
        lemma_decoder_total(w, c, m - 1);
        assert(w.up_reduce.take(m).drop_last() =~= w.up_reduce.take(m - 1));
        assert(w.up_merge.take(m).drop_last() =~= w.up_merge.take(m - 1));
        assert(reduce_ok(w, c, m - 1));
        assert(merge_ok(w, c, m - 1));
        assert(sized(w.up_reduce[m - 1], c.kernel as int));
        assert(sized(w.up_merge[m - 1], c.kernel as int));
        assert(up_scale(c, m - 1) == c.n_steps() - m);
    } else {
        assert(w.up_reduce.take(0).len() == 0);
        assert(w.up_merge.take(0).len() == 0);
    }
}

/// Law: the parameter count a config reports is exactly the number of
/// learned values (weights plus biases) held by any weights whose shapes
/// match that config.
pub proof fn lemma_param_count_matches_weights(w: WeightsView, c: ConfigView)
    requires
        shapes_match(w, c),
        well_sized(w, c),
    ensures
        weights_total(w) == c.param_count(),
{
    let n = c.n_steps();
    lemma_encoder_total(w, c, n);
    lemma_decoder_total(w, c, n);
    assert(w.down.take(n) =~= w.down);
    assert(w.down_refine.take(n) =~= w.down_refine);
    assert(w.up_reduce.take(n) =~= w.up_reduce);
    assert(w.up_merge.take(n) =~= w.up_merge);
    assert(n + 1 == c.n_scales);
}


/// A `k x k`, `cin -> cout` layer with the given stride whose weights and
/// biases are all zero.
pub open spec fn zero_conv(cin: int, cout: int, k: int, stride: int) -> ConvView {
    ConvView {
        cin: cin as usize,
        cout: cout as usize,
        k: k as usize,
        stride: stride as usize,
        w: Seq::new((k * k * cin * cout) as nat, |i: int| 0u32),
        b: Seq::new(cout as nat, |i: int| 0u32),
    }
}

/// The zero-filled weights of the net `c` describes, in the net's op order:
/// the stem (stride 1); per encoder step a stride-2 downsample and a refine;
/// per decoder step, deepest first, a channel reduce and a post-concat
/// merge; the output refine when the config wants one; the 1 x 1 head.
pub open spec fn skeleton(c: ConfigView) -> WeightsView {
    let k = c.kernel as int;
    WeightsView {
        config: c,
        stem: zero_conv(c.in_channels as int, c.width(0), k, 1),
        down: Seq::new(c.n_steps() as nat, |i: int| zero_conv(c.width(i), c.width(i + 1), k, 2)),
        down_refine: Seq::new(c.n_steps() as nat, |i: int| zero_conv(c.width(i + 1), c.width(i + 1), k, 1)),
        up_reduce: Seq::new(
            c.n_steps() as nat,
            |i: int| zero_conv(c.width(up_scale(c, i) + 1), c.width(up_scale(c, i)), k, 1),
        ),
        up_merge: Seq::new(
            c.n_steps() as nat,
            |i: int| zero_conv(2 * c.width(up_scale(c, i)), c.width(up_scale(c, i)), k, 1),
        ),
        out_refine: if c.wants_out_refine() {
            Some(zero_conv(c.width(0), c.width(0), k, 1))
        } else {
            None
        },
        head: zero_conv(c.width(0), c.out_channels as int, 1, 1),
    }
}

/// The skeleton of a buildable config whose counts fit has the config's
/// shapes, every tensor sized to its layer, and `param_count` values in all.
pub proof fn lemma_skeleton_shapes(c: ConfigView)
    requires
        c.n_scales >= 1,
        c.widths.len() == c.n_scales,
        c.param_count_fits(),
    ensures
        shapes_match(skeleton(c), c),
        well_sized(skeleton(c), c),
        weights_total(skeleton(c)) == c.param_count(),
{
    let w = skeleton(c);
    let k = c.kernel as int;
    assert forall|i: int| 0 <= i < c.n_steps() implies #[trigger] enc_ok(w, c, i) by {
        assert(conv_count_fits(k, c.width((i + 1) - 1), c.width(i + 1)));
    }
    assert forall|i: int| 0 <= i < c.n_steps() implies #[trigger] reduce_ok(w, c, i) && merge_ok(w, c, i) by {
        let s = up_scale(c, i);
        assert(conv_count_fits(k, c.width(s + 1), c.width(s)));
    }
    assert forall|i: int| 0 <= i < w.down.len() implies #[trigger] sized(w.down[i], k) by {
        assert(conv_count_fits(k, c.width((i + 1) - 1), c.width(i + 1)));
        lemma_conv_count_nonneg(k, c.width(i), c.width(i + 1));
    }
    assert forall|i: int| 0 <= i < w.down_refine.len() implies #[trigger] sized(w.down_refine[i], k) by {
        lemma_conv_count_nonneg(k, c.width(i + 1), c.width(i + 1));
    }
    assert forall|i: int| 0 <= i < w.up_reduce.len() implies #[trigger] sized(w.up_reduce[i], k) by {
        let s = up_scale(c, i);
        assert(conv_count_fits(k, c.width(s + 1), c.width(s)));
        lemma_conv_count_nonneg(k, c.width(s + 1), c.width(s));
    }
    assert forall|i: int| 0 <= i < w.up_merge.len() implies #[trigger] sized(w.up_merge[i], k) by {
        let s = up_scale(c, i);
        assert(conv_count_fits(k, c.width(s + 1), c.width(s)));
        lemma_conv_count_nonneg(k, 2 * c.width(s), c.width(s));
    }
    lemma_conv_count_nonneg(k, c.in_channels as int, c.width(0));
    lemma_conv_count_nonneg(k, c.width(0), c.width(0));
    lemma_conv_count_nonneg(1, c.width(0), c.out_channels as int);
    lemma_param_count_matches_weights(w, c);
}

/// Law: every layer of a config's skeleton has the stride of its place in
/// the net (2 for each encoder downsample, 1 everywhere else), the config's
/// kernel (1 for the head), and all-zero weights and biases.
pub proof fn lemma_skeleton_strides(c: ConfigView)
    ensures
        skeleton(c).stem.stride == 1 && skeleton(c).stem.k == c.kernel,
        forall|i: int| 0 <= i < c.n_steps() ==> (#[trigger] skeleton(c).down[i]).stride == 2 && skeleton(c).down[i].k == c.kernel,
        forall|i: int| 0 <= i < c.n_steps() ==> (#[trigger] skeleton(c).down_refine[i]).stride == 1 && skeleton(c).down_refine[i].k == c.kernel,
        forall|i: int| 0 <= i < c.n_steps() ==> (#[trigger] skeleton(c).up_reduce[i]).stride == 1 && skeleton(c).up_reduce[i].k == c.kernel,
        forall|i: int| 0 <= i < c.n_steps() ==> (#[trigger] skeleton(c).up_merge[i]).stride == 1 && skeleton(c).up_merge[i].k == c.kernel,
        skeleton(c).out_refine matches Some(r) ==> r.stride == 1 && r.k == c.kernel,
        skeleton(c).head.stride == 1 && skeleton(c).head.k == 1,
        forall|i: int| 0 <= i < skeleton(c).head.w.len() ==> skeleton(c).head.w[i] == 0,
        forall|i: int| 0 <= i < skeleton(c).head.b.len() ==> skeleton(c).head.b[i] == 0,
        forall|i: int| 0 <= i < skeleton(c).stem.w.len() ==> skeleton(c).stem.w[i] == 0,
        forall|i: int| 0 <= i < skeleton(c).stem.b.len() ==> skeleton(c).stem.b[i] == 0,
{
}

fn zero_conv_exec(cin: usize, cout: usize, k: usize, stride: usize) -> (p: ConvParam)
    requires
        conv_count_fits(k as int, cin as int, cout as int),
    ensures
        p@ == zero_conv(cin as int, cout as int, k as int, stride as int),
{
    proof {
        lemma_conv_count_nonneg(k as int, cin as int, cout as int);
    }
    let n = k * k * cin * cout;
    let w = vec![0u32; n];
    let b = vec![0u32; cout];
    proof {
        assert(w@ =~= Seq::new(n as nat, |i: int| 0u32));
        assert(b@ =~= Seq::new(cout as nat, |i: int| 0u32));
    }
    ConvParam { cin, cout, k, stride, w, b }
}

impl UnetWeights {
    /// The net's layers for `config`, every weight and bias zero: the shapes
    /// and op order random initialisation fills in.
    pub fn zeroed_for(config: UnetConfig) -> (w: UnetWeights)
        requires
            config.n_scales >= 1,
            config.widths.len() == config.n_scales,
            config@.param_count_fits(),
        ensures
            w@ == skeleton(config@),
            shapes_match(w@, config@),
            well_sized(w@, config@),
            weights_total(w@) == config@.param_count(),
            w.stem.stride == 1 && w.stem.k == config.kernel,
            forall|i: int| 0 <= i < w.down.len() ==> (#[trigger] w.down@[i]).stride == 2 && w.down@[i].k == config.kernel,
            forall|i: int|
                0 <= i < w.down_refine.len() ==> (#[trigger] w.down_refine@[i]).stride == 1 && w.down_refine@[i].k
                    == config.kernel,
            forall|i: int|
                0 <= i < w.up_reduce.len() ==> (#[trigger] w.up_reduce@[i]).stride == 1 && w.up_reduce@[i].k
                    == config.kernel,
            forall|i: int|
                0 <= i < w.up_merge.len() ==> (#[trigger] w.up_merge@[i]).stride == 1 && w.up_merge@[i].k
                    == config.kernel,
            w.out_refine matches Some(r) ==> r.stride == 1 && r.k == config.kernel,
            w.head.stride == 1 && w.head.k == 1,
            forall|i: int| 0 <= i < w.head.w.len() ==> w.head.w@[i] == 0,
            forall|i: int| 0 <= i < w.head.b.len() ==> w.head.b@[i] == 0,
            forall|i: int| 0 <= i < w.stem.w.len() ==> w.stem.w@[i] == 0,
            forall|i: int| 0 <= i < w.stem.b.len() ==> w.stem.b@[i] == 0,
    {
        let ghost c = config@;
        let k = config.kernel;
        let n = config.n_scales;
        let stem = zero_conv_exec(config.in_channels, config.widths[0], k, 1);
        let mut down: Vec<ConvParam> = Vec::new();
        let mut down_refine: Vec<ConvParam> = Vec::new();
        let mut s: usize = 1;
        while s < n
            invariant
                1 <= s <= n,
                n == c.n_scales,
                c == config@,
                k == c.kernel,
                config.widths.len() == n,
                c.param_count_fits(),
                down.len() == s - 1,
                down_refine.len() == s - 1,
                forall|j: int| 0 <= j < s - 1 ==> #[trigger] down@[j]@ == skeleton(c).down[j],
                forall|j: int| 0 <= j < s - 1 ==> #[trigger] down_refine@[j]@ == skeleton(c).down_refine[j],
            decreases n - s,
        {
            proof {
                assert(conv_count_fits(k as int, c.width(s - 1), c.width(s as int)));
                assert(conv_count_fits(k as int, c.width(s as int), c.width(s as int)));
            }
            down.push(zero_conv_exec(config.widths[s - 1], config.widths[s], k, 2));
            down_refine.push(zero_conv_exec(config.widths[s], config.widths[s], k, 1));
            s = s + 1;
        }
        let n_steps = n - 1;
        let mut up_reduce: Vec<ConvParam> = Vec::new();
        let mut up_merge: Vec<ConvParam> = Vec::new();
        let mut i: usize = 0;
        while i < n_steps
            invariant
                i <= n_steps,
                n_steps == c.n_steps(),
                n == c.n_scales,
                c == config@,
                k == c.kernel,
                config.widths.len() == n,
                c.param_count_fits(),
                up_reduce.len() == i,
                up_merge.len() == i,
                forall|j: int| 0 <= j < i ==> #[trigger] up_reduce@[j]@ == skeleton(c).up_reduce[j],
                forall|j: int| 0 <= j < i ==> #[trigger] up_merge@[j]@ == skeleton(c).up_merge[j],
            decreases n_steps - i,
        {
            let s = n_steps - 1 - i;
            proof {
                assert(up_scale(c, i as int) == s);
                assert(conv_count_fits(k as int, c.width(s + 1), c.width(s as int)));
            }
            up_reduce.push(zero_conv_exec(config.widths[s + 1], config.widths[s], k, 1));
            up_merge.push(zero_conv_exec(config.widths[s] * 2, config.widths[s], k, 1));
            i = i + 1;
        }
        let out_refine = if config.output_h != config.render_h || config.output_w != config.render_w {
            Some(zero_conv_exec(config.widths[0], config.widths[0], k, 1))
        } else {
            None
        };
        let head = zero_conv_exec(config.widths[0], config.out_channels, 1, 1);
        let w = UnetWeights { config, stem, down, down_refine, up_reduce, up_merge, out_refine, head };
        proof {
            let sk = skeleton(c);
            assert(w@.down =~= sk.down);
            assert(w@.down_refine =~= sk.down_refine);
            assert(w@.up_reduce =~= sk.up_reduce);
            assert(w@.up_merge =~= sk.up_merge);
            assert(w@ == sk);
            lemma_skeleton_shapes(c);
            lemma_skeleton_strides(c);
            assert forall|i: int| 0 <= i < w.down.len() implies (#[trigger] w.down@[i]).stride == 2 && w.down@[i].k == config.kernel by {
                assert(w.down@[i]@ == sk.down[i]);
            }
            assert forall|i: int| 0 <= i < w.down_refine.len() implies (#[trigger] w.down_refine@[i]).stride == 1 && w.down_refine@[i].k == config.kernel by {
                assert(w.down_refine@[i]@ == sk.down_refine[i]);
            }
            assert forall|i: int| 0 <= i < w.up_reduce.len() implies (#[trigger] w.up_reduce@[i]).stride == 1 && w.up_reduce@[i].k == config.kernel by {
                assert(w.up_reduce@[i]@ == sk.up_reduce[i]);
            }
            assert forall|i: int| 0 <= i < w.up_merge.len() implies (#[trigger] w.up_merge@[i]).stride == 1 && w.up_merge@[i].k == config.kernel by {
                assert(w.up_merge@[i]@ == sk.up_merge[i]);
            }
        }
        w
    }
}

} // verus!
