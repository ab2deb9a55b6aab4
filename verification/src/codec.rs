//! The self-describing weight-checkpoint blob: an eight-byte magic, the
//! config, then every conv layer's dims and tensors, all integers as
//! little-endian `u32` and tensors as a `u32` length followed by that many
//! little-endian binary32 bit patterns.

use vstd::prelude::*;
use crate::unet_config::{ConfigView, UnetConfig};
use crate::weights::{ConvParam, ConvView, UnetWeights, WeightsView, convs_view};

verus! {

/// The blob's leading magic, `b"GAIARD9\0"`.
pub open spec fn magic() -> Seq<u8> {
    seq![0x47u8, 0x41u8, 0x49u8, 0x41u8, 0x52u8, 0x44u8, 0x39u8, 0x00u8]
}

/// Little-endian bytes of `v`.
pub open spec fn le_bytes(v: u32) -> Seq<u8> {
    seq![(v & 0xff) as u8, ((v >> 8u32) & 0xff) as u8, ((v >> 16u32) & 0xff) as u8, (v >> 24u32) as u8]
}

/// The value of four little-endian bytes.
pub open spec fn le_value(b0: u8, b1: u8, b2: u8, b3: u8) -> u32 {
    (b0 as u32) | ((b1 as u32) << 8u32) | ((b2 as u32) << 16u32) | ((b3 as u32) << 24u32)
}

/// `s` as consecutive little-endian words.
pub open spec fn words_bytes(s: Seq<u32>) -> Seq<u8>
    decreases s.len(),
{
    if s.len() == 0 {
        Seq::empty()
    } else {
        words_bytes(s.drop_last()) + le_bytes(s.last())
    }
}

/// A tensor: its length (truncated to 32 bits) followed by its words.
pub open spec fn counted_bytes(s: Seq<u32>) -> Seq<u8> {
    le_bytes(s.len() as u32) + words_bytes(s)
}

/// A layer's four dims as words: cin, cout, k, stride.
pub open spec fn conv_dims(p: ConvView) -> Seq<u32> {
    seq![p.cin as u32, p.cout as u32, p.k as u32, p.stride as u32]
}

/// One conv layer: its dims, then weights and biases.
pub open spec fn conv_bytes(p: ConvView) -> Seq<u8> {
    words_bytes(conv_dims(p)) + counted_bytes(p.w) + counted_bytes(p.b)
}

/// Conv layers back to back.
pub open spec fn convs_bytes(s: Seq<ConvView>) -> Seq<u8>
    decreases s.len(),
{
    if s.len() == 0 {
        Seq::empty()
    } else {
        convs_bytes(s.drop_last()) + conv_bytes(s.last())
    }
}

/// The widths as words.
pub open spec fn widths_words(widths: Seq<usize>) -> Seq<u32> {
    widths.map_values(|x: usize| x as u32)
}

/// The config's scalar dims after the widths, as words: kernel, in/out
/// channels, render w/h, output w/h.
pub open spec fn config_dims(c: ConfigView) -> Seq<u32> {
    seq![
        c.kernel as u32,
        c.in_channels as u32,
        c.out_channels as u32,
        c.render_w as u32,
        c.render_h as u32,
        c.output_w as u32,
        c.output_h as u32,
    ]
}

/// The config: n_scales, every width, then the scalar dims.
pub open spec fn config_bytes(c: ConfigView) -> Seq<u8> {
    le_bytes(c.n_scales as u32) + words_bytes(widths_words(c.widths)) + words_bytes(config_dims(c))
}

/// The blob of `w` with `flag` as its output-refine presence word.
pub open spec fn weights_bytes_with(w: WeightsView, flag: u32) -> Seq<u8> {
    magic() + config_bytes(w.config) + conv_bytes(w.stem) + le_bytes(w.down.len() as u32) + convs_bytes(w.down)
        + convs_bytes(w.down_refine) + convs_bytes(w.up_reduce) + convs_bytes(w.up_merge) + le_bytes(flag)
        + (match w.out_refine {
        Some(r) => conv_bytes(r),
        None => Seq::empty(),
    }) + conv_bytes(w.head)
}

/// The presence word the serializer writes: 1 with an output refine, else 0.
pub open spec fn refine_flag(w: WeightsView) -> u32 {
    if w.out_refine is Some { 1 } else { 0 }
}

/// The blob the serializer writes for `w`.
pub open spec fn weights_bytes(w: WeightsView) -> Seq<u8> {
    weights_bytes_with(w, refine_flag(w))
}

/// Every count and dimension of a layer fits in the blob's 32-bit fields.
pub open spec fn conv_ok(p: ConvView) -> bool {
    &&& p.cin <= u32::MAX
    &&& p.cout <= u32::MAX
    &&& p.k <= u32::MAX
    &&& p.stride <= u32::MAX
    &&& p.w.len() <= u32::MAX
    &&& p.b.len() <= u32::MAX
}

/// Weights the blob represents faithfully: every number fits in 32 bits,
/// the config lists one width per scale, and the four per-step layer lists
/// have one common length.
pub open spec fn codec_ok(w: WeightsView) -> bool {
    let c = w.config;
    &&& c.n_scales <= u32::MAX
    &&& c.widths.len() == c.n_scales
    &&& forall|i: int| 0 <= i < c.widths.len() ==> #[trigger] c.widths[i] <= u32::MAX
    &&& c.kernel <= u32::MAX
    &&& c.in_channels <= u32::MAX
    &&& c.out_channels <= u32::MAX
    &&& c.render_w <= u32::MAX
    &&& c.render_h <= u32::MAX
    &&& c.output_w <= u32::MAX
    &&& c.output_h <= u32::MAX
    &&& conv_ok(w.stem)
    &&& w.down.len() <= u32::MAX
    &&& w.down_refine.len() == w.down.len()
    &&& w.up_reduce.len() == w.down.len()
    &&& w.up_merge.len() == w.down.len()
    &&& forall|i: int| 0 <= i < w.down.len() ==> #[trigger] conv_ok(w.down[i])
    &&& forall|i: int| 0 <= i < w.down_refine.len() ==> #[trigger] conv_ok(w.down_refine[i])
    &&& forall|i: int| 0 <= i < w.up_reduce.len() ==> #[trigger] conv_ok(w.up_reduce[i])
    &&& forall|i: int| 0 <= i < w.up_merge.len() ==> #[trigger] conv_ok(w.up_merge[i])
    &&& (w.out_refine matches Some(r) ==> conv_ok(r))
    &&& conv_ok(w.head)
}

/// `bytes` begins with the blob of `w` (under some presence word that is
/// nonzero exactly when `w` has an output refine); anything after it is
/// ignored.
pub open spec fn decodes(bytes: Seq<u8>, w: WeightsView) -> bool {
    exists|flag: u32|
        (flag != 0) == (w.out_refine is Some) && #[trigger] weights_bytes_with(w, flag).is_prefix_of(bytes)
}

// ---------------------------------------------------------------- writing

proof fn lemma_words_bytes_push(s: Seq<u32>, v: u32)
    ensures
        words_bytes(s.push(v)) == words_bytes(s) + le_bytes(v),
{
    assert(s.push(v).drop_last() =~= s);
}

proof fn lemma_words4(a: u32, b: u32, c: u32, d: u32)
    ensures
        words_bytes(seq![a, b, c, d]) == le_bytes(a) + le_bytes(b) + le_bytes(c) + le_bytes(d),
{
    let e = Seq::<u32>::empty();
    lemma_words_bytes_push(e, a);
    lemma_words_bytes_push(e.push(a), b);
    lemma_words_bytes_push(e.push(a).push(b), c);
    lemma_words_bytes_push(e.push(a).push(b).push(c), d);
    assert(seq![a, b, c, d] =~= e.push(a).push(b).push(c).push(d));
    assert(words_bytes(e) =~= Seq::<u8>::empty());
    assert(words_bytes(seq![a, b, c, d]) =~= le_bytes(a) + le_bytes(b) + le_bytes(c) + le_bytes(d));
}

proof fn lemma_words7(a: u32, b: u32, c: u32, d: u32, e: u32, f: u32, g: u32)
    ensures
        words_bytes(seq![a, b, c, d, e, f, g]) == le_bytes(a) + le_bytes(b) + le_bytes(c) + le_bytes(d)
            + le_bytes(e) + le_bytes(f) + le_bytes(g),
{
    let z = Seq::<u32>::empty();
    lemma_words_bytes_push(z, a);
    lemma_words_bytes_push(z.push(a), b);
    lemma_words_bytes_push(z.push(a).push(b), c);
    lemma_words_bytes_push(z.push(a).push(b).push(c), d);
    lemma_words_bytes_push(z.push(a).push(b).push(c).push(d), e);
    lemma_words_bytes_push(z.push(a).push(b).push(c).push(d).push(e), f);
    lemma_words_bytes_push(z.push(a).push(b).push(c).push(d).push(e).push(f), g);
    assert(seq![a, b, c, d, e, f, g] =~= z.push(a).push(b).push(c).push(d).push(e).push(f).push(g));
    assert(words_bytes(z) =~= Seq::<u8>::empty());
    assert(words_bytes(seq![a, b, c, d, e, f, g]) =~= le_bytes(a) + le_bytes(b) + le_bytes(c)
        + le_bytes(d) + le_bytes(e) + le_bytes(f) + le_bytes(g));
}

fn push_u32(buf: &mut Vec<u8>, v: u32)
    ensures
        final(buf)@ == old(buf)@ + le_bytes(v),
{
    buf.push((v & 0xff) as u8);
    buf.push(((v >> 8u32) & 0xff) as u8);
    buf.push(((v >> 16u32) & 0xff) as u8);
    buf.push((v >> 24u32) as u8);
    proof {
        assert(final(buf)@ =~= old(buf)@ + le_bytes(v));
    }
}

fn push_words(buf: &mut Vec<u8>, v: &Vec<u32>)
    ensures
        final(buf)@ == old(buf)@ + counted_bytes(v@),
{
    push_u32(buf, v.len() as u32);
    let ghost start = buf@;
    let mut i: usize = 0;
    while i < v.len()
        invariant
            i <= v.len(),
            buf@ == start + words_bytes(v@.take(i as int)),
        decreases v.len() - i,
    {
        proof {
            assert(v@.take(i + 1).drop_last() =~= v@.take(i as int));
        }
        push_u32(buf, v[i]);
        proof {
            assert(buf@ =~= start + words_bytes(v@.take(i + 1)));
        }
        i = i + 1;
    }
    proof {
        assert(v@.take(v.len() as int) =~= v@);
        assert(buf@ =~= old(buf)@ + counted_bytes(v@));
    }
}

fn push_conv(buf: &mut Vec<u8>, p: &ConvParam)
    ensures
        final(buf)@ == old(buf)@ + conv_bytes(p@),
{
    push_u32(buf, p.cin as u32);
    push_u32(buf, p.cout as u32);
    push_u32(buf, p.k as u32);
    push_u32(buf, p.stride as u32);
    push_words(buf, &p.w);
    push_words(buf, &p.b);
    proof {
        lemma_words4(p.cin as u32, p.cout as u32, p.k as u32, p.stride as u32);
        assert(final(buf)@ =~= old(buf)@ + conv_bytes(p@));
    }
}

fn push_convs(buf: &mut Vec<u8>, v: &Vec<ConvParam>)
    ensures
        final(buf)@ == old(buf)@ + convs_bytes(convs_view(v@)),
{
    let ghost start = buf@;
    let mut i: usize = 0;
    while i < v.len()
        invariant
            i <= v.len(),
            buf@ == start + convs_bytes(convs_view(v@.take(i as int))),
        decreases v.len() - i,
    {
        proof {
            assert(convs_view(v@.take(i + 1)).drop_last() =~= convs_view(v@.take(i as int)));
            assert(convs_view(v@.take(i + 1)).last() == v@[i as int]@);
        }
        push_conv(buf, &v[i]);
        proof {
            assert(buf@ =~= start + convs_bytes(convs_view(v@.take(i + 1))));
        }
        i = i + 1;
    }
    proof {
        assert(v@.take(v.len() as int) =~= v@);
    }
}

/// Serialize the weights to the checkpoint blob (numbers wider than 32 bits
/// are truncated to their low 32 bits, as the format has no room for more).
pub fn serialize_weights(net: &UnetWeights) -> (buf: Vec<u8>)
    ensures
        buf@ == weights_bytes(net@),
{
    let mut buf: Vec<u8> = Vec::new();
    buf.push(0x47u8);
    buf.push(0x41u8);
    buf.push(0x49u8);
    buf.push(0x41u8);
    buf.push(0x52u8);
    buf.push(0x44u8);
    buf.push(0x39u8);
    buf.push(0x00u8);
    proof {
        assert(buf@ =~= magic());
    }
    let c = &net.config;
    push_u32(&mut buf, c.n_scales as u32);
    let ghost widths_start = buf@;
    let mut i: usize = 0;
    while i < c.widths.len()
        invariant
            i <= c.widths.len(),
            buf@ == widths_start + words_bytes(widths_words(c.widths@.take(i as int))),
        decreases c.widths.len() - i,
    {
        proof {
            assert(widths_words(c.widths@.take(i + 1)).drop_last() =~= widths_words(c.widths@.take(i as int)));
        }
        push_u32(&mut buf, c.widths[i] as u32);
        proof {
            assert(buf@ =~= widths_start + words_bytes(widths_words(c.widths@.take(i + 1))));
        }
        i = i + 1;
    }
    proof {
        assert(c.widths@.take(c.widths.len() as int) =~= c.widths@);
    }
    push_u32(&mut buf, c.kernel as u32);
    push_u32(&mut buf, c.in_channels as u32);
    push_u32(&mut buf, c.out_channels as u32);
    push_u32(&mut buf, c.render_w as u32);
    push_u32(&mut buf, c.render_h as u32);
    push_u32(&mut buf, c.output_w as u32);
    push_u32(&mut buf, c.output_h as u32);
    proof {
        lemma_words7(
            c.kernel as u32,
            c.in_channels as u32,
            c.out_channels as u32,
            c.render_w as u32,
            c.render_h as u32,
            c.output_w as u32,
            c.output_h as u32,
        );
        assert(buf@ =~= magic() + config_bytes(net@.config));
    }
    push_conv(&mut buf, &net.stem);
    push_u32(&mut buf, net.down.len() as u32);
    push_convs(&mut buf, &net.down);
    push_convs(&mut buf, &net.down_refine);
    push_convs(&mut buf, &net.up_reduce);
    push_convs(&mut buf, &net.up_merge);
    let flag: u32 = if net.out_refine.is_some() { 1 } else { 0 };
    push_u32(&mut buf, flag);
    if let Some(p) = &net.out_refine {
        push_conv(&mut buf, p);
    }
    push_conv(&mut buf, &net.head);
    proof {
        assert(buf@ =~= weights_bytes(net@));
    }
    buf
}


// ---------------------------------------------------------------- reading

/// `bytes` holds `pat` starting at `pos`.
pub open spec fn at(bytes: Seq<u8>, pos: int, pat: Seq<u8>) -> bool {
    &&& 0 <= pos
    &&& pos + pat.len() <= bytes.len()
    &&& bytes.subrange(pos, pos + pat.len()) == pat
}

spec fn u32_at(b: Seq<u8>, pos: int) -> u32 {
    le_value(b[pos], b[pos + 1], b[pos + 2], b[pos + 3])
}

spec fn parse_u32(b: Seq<u8>, pos: int) -> Option<(u32, int)> {
    if 0 <= pos && pos + 4 <= b.len() {
        Some((u32_at(b, pos), pos + 4))
    } else {
        None
    }
}

spec fn parse_words(b: Seq<u8>, pos: int, n: nat) -> Option<(Seq<u32>, int)>
    decreases n,
{
    if n == 0 {
        Some((Seq::empty(), pos))
    } else {
        match parse_words(b, pos, (n - 1) as nat) {
            Some((s, p)) => match parse_u32(b, p) {
                Some((v, q)) => Some((s.push(v), q)),
                None => None,
            },
            None => None,
        }
    }
}

spec fn parse_counted(b: Seq<u8>, pos: int) -> Option<(Seq<u32>, int)> {
    match parse_u32(b, pos) {
        Some((n, p)) => parse_words(b, p, n as nat),
        None => None,
    }
}

spec fn parse_conv(b: Seq<u8>, pos: int) -> Option<(ConvView, int)> {
    match parse_words(b, pos, 4) {
        Some((d, p1)) => match parse_counted(b, p1) {
            Some((w, p2)) => match parse_counted(b, p2) {
                Some((bb, p3)) => Some(
                    (
                        ConvView {
                            cin: d[0] as usize,
                            cout: d[1] as usize,
                            k: d[2] as usize,
                            stride: d[3] as usize,
                            w: w,
                            b: bb,
                        },
                        p3,
                    ),
                ),
                None => None,
            },
            None => None,
        },
        None => None,
    }
}

spec fn parse_convs(b: Seq<u8>, pos: int, n: nat) -> Option<(Seq<ConvView>, int)>
    decreases n,
{
    if n == 0 {
        Some((Seq::empty(), pos))
    } else {
        match parse_convs(b, pos, (n - 1) as nat) {
            Some((s, p)) => match parse_conv(b, p) {
                Some((v, q)) => Some((s.push(v), q)),
                None => None,
            },
            None => None,
        }
    }
}

spec fn parse_config(b: Seq<u8>, pos: int) -> Option<(ConfigView, int)> {
    match parse_u32(b, pos) {
        Some((ns, p1)) => match parse_words(b, p1, ns as nat) {
            Some((ws, p2)) => match parse_words(b, p2, 7) {
                Some((d, p3)) => Some(
                    (
                        ConfigView {
                            n_scales: ns as usize,
                            widths: ws.map_values(|x: u32| x as usize),
                            kernel: d[0] as usize,
                            in_channels: d[1] as usize,
                            out_channels: d[2] as usize,
                            render_w: d[3] as usize,
                            render_h: d[4] as usize,
                            output_w: d[5] as usize,
                            output_h: d[6] as usize,
                        },
                        p3,
                    ),
                ),
                None => None,
            },
            None => None,
        },
        None => None,
    }
}

spec fn parse_refine(b: Seq<u8>, flag: u32, pos: int) -> Option<(Option<ConvView>, int)> {
    if flag != 0 {
        match parse_conv(b, pos) {
            Some((r, p)) => Some((Some(r), p)),
            None => None,
        }
    } else {
        Some((None, pos))
    }
}

spec fn parse_weights(b: Seq<u8>) -> Option<(WeightsView, u32)> {
    if b.len() < 8 || b.subrange(0, 8) != magic() {
        None
    } else {
        match parse_config(b, 8) {
            Some((c, p1)) => match parse_conv(b, p1) {
                Some((stem, p2)) => match parse_u32(b, p2) {
                    Some((nd, p3)) => match parse_convs(b, p3, nd as nat) {
                        Some((down, p4)) => match parse_convs(b, p4, nd as nat) {
                            Some((down_refine, p5)) => match parse_convs(b, p5, nd as nat) {
                                Some((up_reduce, p6)) => match parse_convs(b, p6, nd as nat) {
                                    Some((up_merge, p7)) => match parse_u32(b, p7) {
                                        Some((flag, p8)) => match parse_refine(b, flag, p8) {
                                            Some((out_refine, p9)) => match parse_conv(b, p9) {
                                                Some((head, _p10)) => Some(
                                                    (
                                                        WeightsView {
                                                            config: c,
                                                            stem,
                                                            down,
                                                            down_refine,
                                                            up_reduce,
                                                            up_merge,
                                                            out_refine,
                                                            head,
                                                        },
                                                        flag,
                                                    ),
                                                ),
                                                None => None,
                                            },
                                            None => None,
                                        },
                                        None => None,
                                    },
                                    None => None,
                                },
                                None => None,
                            },
                            None => None,
                        },
                        None => None,
                    },
                    None => None,
                },
                None => None,
            },
            None => None,
        }
    }
}


// ---------------------------------------------------------------- proofs

proof fn lemma_at_concat(b: Seq<u8>, pos: int, x: Seq<u8>, y: Seq<u8>)
    ensures
        at(b, pos, x + y) <==> (at(b, pos, x) && at(b, pos + x.len(), y)),
{
    if at(b, pos, x + y) {
        assert(b.subrange(pos, pos + x.len()) =~= (x + y).subrange(0, x.len() as int));
        assert(b.subrange(pos + x.len(), pos + x.len() + y.len()) =~= (x + y).subrange(
            x.len() as int,
            (x.len() + y.len()) as int,
        ));
        assert((x + y).subrange(0, x.len() as int) =~= x);
        assert((x + y).subrange(x.len() as int, (x.len() + y.len()) as int) =~= y);
    }
    if at(b, pos, x) && at(b, pos + x.len(), y) {
        assert(b.subrange(pos, pos + (x + y).len()) =~= x + y);
    }
}

proof fn lemma_le_roundtrip(v: u32)
    ensures
        le_value(le_bytes(v)[0], le_bytes(v)[1], le_bytes(v)[2], le_bytes(v)[3]) == v,
{
    assert(((v & 0xff) as u8 as u32) | ((((v >> 8u32) & 0xff) as u8 as u32) << 8u32) | ((((v >> 16u32)
        & 0xff) as u8 as u32) << 16u32) | (((v >> 24u32) as u8 as u32) << 24u32) == v) by (bit_vector);
}

proof fn lemma_le_of_value(b0: u8, b1: u8, b2: u8, b3: u8)
    ensures
        le_bytes(le_value(b0, b1, b2, b3)) == seq![b0, b1, b2, b3],
{
    let v = le_value(b0, b1, b2, b3);
    assert(v == (b0 as u32) | ((b1 as u32) << 8u32) | ((b2 as u32) << 16u32) | ((b3 as u32) << 24u32));
    assert((v & 0xff) as u8 == b0) by (bit_vector)
        requires v == (b0 as u32) | ((b1 as u32) << 8u32) | ((b2 as u32) << 16u32) | ((b3 as u32) << 24u32);
    assert(((v >> 8u32) & 0xff) as u8 == b1) by (bit_vector)
        requires v == (b0 as u32) | ((b1 as u32) << 8u32) | ((b2 as u32) << 16u32) | ((b3 as u32) << 24u32);
    assert(((v >> 16u32) & 0xff) as u8 == b2) by (bit_vector)
        requires v == (b0 as u32) | ((b1 as u32) << 8u32) | ((b2 as u32) << 16u32) | ((b3 as u32) << 24u32);
    assert((v >> 24u32) as u8 == b3) by (bit_vector)
        requires v == (b0 as u32) | ((b1 as u32) << 8u32) | ((b2 as u32) << 16u32) | ((b3 as u32) << 24u32);
    assert(le_bytes(v) =~= seq![b0, b1, b2, b3]);
}

proof fn lemma_u32_complete(b: Seq<u8>, pos: int, v: u32)
    requires
        at(b, pos, le_bytes(v)),
    ensures
        parse_u32(b, pos) == Some((v, pos + 4)),
{
    lemma_le_roundtrip(v);
    assert(b[pos] == b.subrange(pos, pos + 4)[0]);
    assert(b[pos + 1] == b.subrange(pos, pos + 4)[1]);
    assert(b[pos + 2] == b.subrange(pos, pos + 4)[2]);
    assert(b[pos + 3] == b.subrange(pos, pos + 4)[3]);
}

proof fn lemma_u32_sound(b: Seq<u8>, pos: int)
    ensures
        parse_u32(b, pos) matches Some((v, p)) ==> at(b, pos, le_bytes(v)) && p == pos + 4,
{
    if 0 <= pos && pos + 4 <= b.len() {
        lemma_le_of_value(b[pos], b[pos + 1], b[pos + 2], b[pos + 3]);
        assert(b.subrange(pos, pos + 4) =~= seq![b[pos], b[pos + 1], b[pos + 2], b[pos + 3]]);
    }
}

proof fn lemma_words_len(s: Seq<u32>)
    ensures
        words_bytes(s).len() == 4 * s.len(),
    decreases s.len(),
{
    if s.len() > 0 {
        lemma_words_len(s.drop_last());
    }
}

proof fn lemma_words_complete(b: Seq<u8>, pos: int, s: Seq<u32>)
    requires
        at(b, pos, words_bytes(s)),
    ensures
        parse_words(b, pos, s.len()) == Some((s, pos + 4 * s.len())),
    decreases s.len(),
{
    lemma_words_len(s);
    if s.len() > 0 {
        let t = s.drop_last();
        lemma_words_len(t);
        lemma_at_concat(b, pos, words_bytes(t), le_bytes(s.last()));
        lemma_words_complete(b, pos, t);
        lemma_u32_complete(b, pos + 4 * t.len(), s.last());
        assert(t.push(s.last()) =~= s);
    } else {
        assert(s =~= Seq::<u32>::empty());
    }
}

proof fn lemma_words_sound(b: Seq<u8>, pos: int, n: nat)
    requires
        0 <= pos <= b.len(),
    ensures
        parse_words(b, pos, n) matches Some((s, p)) ==> s.len() == n && at(b, pos, words_bytes(s)) && p == pos
            + 4 * n,
    decreases n,
{
    if n > 0 {
        lemma_words_sound(b, pos, (n - 1) as nat);
        if let Some((t, p)) = parse_words(b, pos, (n - 1) as nat) {
            lemma_u32_sound(b, p);
            if let Some((v, q)) = parse_u32(b, p) {
                let s = t.push(v);
                assert(s.drop_last() =~= t);
                lemma_words_len(t);
                lemma_at_concat(b, pos, words_bytes(t), le_bytes(v));
            }
        }
    } else {
        assert(words_bytes(Seq::<u32>::empty()) =~= Seq::<u8>::empty());
        assert(b.subrange(pos, pos) =~= Seq::<u8>::empty());
    }
}

proof fn lemma_words_none_grows(b: Seq<u8>, pos: int, m: nat, n: nat)
    requires
        m <= n,
        parse_words(b, pos, m) is None,
    ensures
        parse_words(b, pos, n) is None,
    decreases n - m,
{
    if m < n {
        lemma_words_none_grows(b, pos, m, (n - 1) as nat);
    }
}

proof fn lemma_counted_complete(b: Seq<u8>, pos: int, s: Seq<u32>)
    requires
        s.len() <= u32::MAX,
        at(b, pos, counted_bytes(s)),
    ensures
        parse_counted(b, pos) == Some((s, pos + counted_bytes(s).len())),
{
    lemma_at_concat(b, pos, le_bytes(s.len() as u32), words_bytes(s));
    lemma_u32_complete(b, pos, s.len() as u32);
    lemma_words_complete(b, pos + 4, s);
    lemma_words_len(s);
}

proof fn lemma_counted_sound(b: Seq<u8>, pos: int)
    requires
        0 <= pos <= b.len(),
    ensures
        parse_counted(b, pos) matches Some((s, p)) ==> s.len() <= u32::MAX && at(b, pos, counted_bytes(s)) && p
            == pos + counted_bytes(s).len(),
{
    lemma_u32_sound(b, pos);
    if let Some((n, p)) = parse_u32(b, pos) {
        lemma_words_sound(b, p, n as nat);
        if let Some((s, q)) = parse_words(b, p, n as nat) {
            lemma_at_concat(b, pos, le_bytes(s.len() as u32), words_bytes(s));
            lemma_words_len(s);
        }
    }
}


proof fn lemma_conv_complete(b: Seq<u8>, pos: int, p: ConvView)
    requires
        conv_ok(p),
        at(b, pos, conv_bytes(p)),
    ensures
        parse_conv(b, pos) == Some((p, pos + conv_bytes(p).len())),
{
    let d = conv_dims(p);
    lemma_at_concat(b, pos, words_bytes(d) + counted_bytes(p.w), counted_bytes(p.b));
    lemma_at_concat(b, pos, words_bytes(d), counted_bytes(p.w));
    lemma_words_len(d);
    lemma_words_complete(b, pos, d);
    lemma_counted_complete(b, pos + 16, p.w);
    lemma_counted_complete(b, pos + 16 + counted_bytes(p.w).len(), p.b);
    let (q, _) = parse_conv(b, pos).unwrap();
    assert(q.cin == p.cin && q.cout == p.cout && q.k == p.k && q.stride == p.stride);
}

proof fn lemma_conv_sound(b: Seq<u8>, pos: int)
    requires
        0 <= pos <= b.len(),
    ensures
        parse_conv(b, pos) matches Some((p, q)) ==> conv_ok(p) && at(b, pos, conv_bytes(p)) && q == pos
            + conv_bytes(p).len(),
{
    lemma_words_sound(b, pos, 4);
    if let Some((d, p1)) = parse_words(b, pos, 4) {
        lemma_counted_sound(b, p1);
        if let Some((w, p2)) = parse_counted(b, p1) {
            lemma_counted_sound(b, p2);
            if let Some((bb, p3)) = parse_counted(b, p2) {
                let p = parse_conv(b, pos).unwrap().0;
                assert(conv_dims(p) =~= d);
                lemma_at_concat(b, pos, words_bytes(d), counted_bytes(w));
                lemma_at_concat(b, pos, words_bytes(d) + counted_bytes(w), counted_bytes(bb));
                lemma_words_len(d);
            }
        }
    }
}

proof fn lemma_convs_complete(b: Seq<u8>, pos: int, s: Seq<ConvView>)
    requires
        forall|i: int| 0 <= i < s.len() ==> #[trigger] conv_ok(s[i]),
        at(b, pos, convs_bytes(s)),
    ensures
        parse_convs(b, pos, s.len()) == Some((s, pos + convs_bytes(s).len())),
    decreases s.len(),
{
    if s.len() > 0 {
        let t = s.drop_last();
        lemma_at_concat(b, pos, convs_bytes(t), conv_bytes(s.last()));
        assert forall|i: int| 0 <= i < t.len() implies #[trigger] conv_ok(t[i]) by {
            assert(t[i] == s[i]);
        }
        lemma_convs_complete(b, pos, t);
        assert(conv_ok(s[s.len() - 1]));
        lemma_conv_complete(b, pos + convs_bytes(t).len(), s.last());
        assert(t.push(s.last()) =~= s);
    } else {
        assert(s =~= Seq::<ConvView>::empty());
    }
}

proof fn lemma_convs_sound(b: Seq<u8>, pos: int, n: nat)
    requires
        0 <= pos <= b.len(),
    ensures
        parse_convs(b, pos, n) matches Some((s, p)) ==> {
            &&& s.len() == n
            &&& forall|i: int| 0 <= i < s.len() ==> #[trigger] conv_ok(s[i])
            &&& at(b, pos, convs_bytes(s))
            &&& p == pos + convs_bytes(s).len()
        },
    decreases n,
{
    if n > 0 {
        lemma_convs_sound(b, pos, (n - 1) as nat);
        if let Some((t, p)) = parse_convs(b, pos, (n - 1) as nat) {
            lemma_conv_sound(b, p);
            if let Some((v, q)) = parse_conv(b, p) {
                let s = t.push(v);
                assert(s.drop_last() =~= t);
                lemma_at_concat(b, pos, convs_bytes(t), conv_bytes(v));
                assert forall|i: int| 0 <= i < s.len() implies #[trigger] conv_ok(s[i]) by {
                    if i < t.len() {
                        assert(s[i] == t[i]);
                    }
                }
            }
        }
    } else {
        assert(convs_bytes(Seq::<ConvView>::empty()) =~= Seq::<u8>::empty());
        assert(b.subrange(pos, pos) =~= Seq::<u8>::empty());
    }
}

proof fn lemma_convs_none_grows(b: Seq<u8>, pos: int, m: nat, n: nat)
    requires
        m <= n,
        parse_convs(b, pos, m) is None,
    ensures
        parse_convs(b, pos, n) is None,
    decreases n - m,
{
    if m < n {
        lemma_convs_none_grows(b, pos, m, (n - 1) as nat);
    }
}

/// The config's fields all fit the blob's 32-bit words and it lists one
/// width per scale.
pub open spec fn config_ok(c: ConfigView) -> bool {
    &&& c.n_scales <= u32::MAX
    &&& c.widths.len() == c.n_scales
    &&& forall|i: int| 0 <= i < c.widths.len() ==> #[trigger] c.widths[i] <= u32::MAX
    &&& c.kernel <= u32::MAX
    &&& c.in_channels <= u32::MAX
    &&& c.out_channels <= u32::MAX
    &&& c.render_w <= u32::MAX
    &&& c.render_h <= u32::MAX
    &&& c.output_w <= u32::MAX
    &&& c.output_h <= u32::MAX
}

proof fn lemma_config_complete(b: Seq<u8>, pos: int, c: ConfigView)
    requires
        config_ok(c),
        at(b, pos, config_bytes(c)),
    ensures
        parse_config(b, pos) == Some((c, pos + config_bytes(c).len())),
{
    let ww = widths_words(c.widths);
    let d = config_dims(c);
    lemma_at_concat(b, pos, le_bytes(c.n_scales as u32) + words_bytes(ww), words_bytes(d));
    lemma_at_concat(b, pos, le_bytes(c.n_scales as u32), words_bytes(ww));
    lemma_u32_complete(b, pos, c.n_scales as u32);
    lemma_words_len(ww);
    lemma_words_len(d);
    lemma_words_complete(b, pos + 4, ww);
    lemma_words_complete(b, pos + 4 + 4 * ww.len(), d);
    let (q, _) = parse_config(b, pos).unwrap();
    assert(q.widths =~= c.widths);
}

proof fn lemma_config_sound(b: Seq<u8>, pos: int)
    requires
        0 <= pos <= b.len(),
    ensures
        parse_config(b, pos) matches Some((c, q)) ==> config_ok(c) && at(b, pos, config_bytes(c)) && q == pos
            + config_bytes(c).len(),
{
    lemma_u32_sound(b, pos);
    if let Some((ns, p1)) = parse_u32(b, pos) {
        lemma_words_sound(b, p1, ns as nat);
        if let Some((ws, p2)) = parse_words(b, p1, ns as nat) {
            lemma_words_sound(b, p2, 7);
            if let Some((d, p3)) = parse_words(b, p2, 7) {
                let c = parse_config(b, pos).unwrap().0;
                assert(widths_words(c.widths) =~= ws);
                assert(config_dims(c) =~= d);
                lemma_at_concat(b, pos, le_bytes(ns), words_bytes(ws));
                lemma_at_concat(b, pos, le_bytes(ns) + words_bytes(ws), words_bytes(d));
                lemma_words_len(ws);
                lemma_words_len(d);
            }
        }
    }
}


spec fn refine_bytes(r: Option<ConvView>) -> Seq<u8> {
    match r {
        Some(r) => conv_bytes(r),
        None => Seq::empty(),
    }
}

/// The blob's parts, cumulatively: `blob_prefix(w, flag, k)` is its first `k`
/// parts (magic, config, stem, step count, the four step lists, presence
/// word, output refine, head).
spec fn blob_prefix(w: WeightsView, flag: u32, k: nat) -> Seq<u8>
    decreases k,
{
    if k == 0 {
        Seq::empty()
    } else {
        blob_prefix(w, flag, (k - 1) as nat) + blob_part(w, flag, (k - 1) as nat)
    }
}

#[verifier::opaque]
spec fn blob_part(w: WeightsView, flag: u32, k: nat) -> Seq<u8> {
    if k == 0 {
        magic()
    } else if k == 1 {
        config_bytes(w.config)
    } else if k == 2 {
        conv_bytes(w.stem)
    } else if k == 3 {
        le_bytes(w.down.len() as u32)
    } else if k == 4 {
        convs_bytes(w.down)
    } else if k == 5 {
        convs_bytes(w.down_refine)
    } else if k == 6 {
        convs_bytes(w.up_reduce)
    } else if k == 7 {
        convs_bytes(w.up_merge)
    } else if k == 8 {
        le_bytes(flag)
    } else if k == 9 {
        refine_bytes(w.out_refine)
    } else {
        conv_bytes(w.head)
    }
}

proof fn lemma_blob_prefix_full(w: WeightsView, flag: u32)
    ensures
        blob_prefix(w, flag, 11) == weights_bytes_with(w, flag),
{
    reveal_with_fuel(blob_prefix, 12);
    reveal(blob_part);
    assert(blob_prefix(w, flag, 0) =~= Seq::<u8>::empty());
    assert(blob_prefix(w, flag, 11) =~= weights_bytes_with(w, flag));
}

/// Holding the first `k` parts implies holding each of them in place.
proof fn lemma_blob_split(b: Seq<u8>, w: WeightsView, flag: u32, k: nat)
    requires
        at(b, 0, blob_prefix(w, flag, k)),
    ensures
        forall|j: nat| j < k ==> at(b, 0, #[trigger] blob_prefix(w, flag, j)),
        forall|j: nat| j < k ==> at(b, blob_prefix(w, flag, j).len() as int, #[trigger] blob_part(w, flag, j)),
    decreases k,
{
    if k > 0 {
        lemma_at_concat(b, 0, blob_prefix(w, flag, (k - 1) as nat), blob_part(w, flag, (k - 1) as nat));
        lemma_blob_split(b, w, flag, (k - 1) as nat);
    }
}

/// Holding each part in place implies holding the first `k` parts.
proof fn lemma_blob_join(b: Seq<u8>, w: WeightsView, flag: u32, k: nat)
    requires
        forall|j: nat| j < k ==> at(b, blob_prefix(w, flag, j).len() as int, #[trigger] blob_part(w, flag, j)),
    ensures
        at(b, 0, blob_prefix(w, flag, k)),
    decreases k,
{
    if k > 0 {
        lemma_blob_join(b, w, flag, (k - 1) as nat);
        lemma_at_concat(b, 0, blob_prefix(w, flag, (k - 1) as nat), blob_part(w, flag, (k - 1) as nat));
    } else {
        assert(b.subrange(0, 0) =~= Seq::<u8>::empty());
    }
}

proof fn lemma_prefix_at(b: Seq<u8>, pat: Seq<u8>)
    ensures
        pat.is_prefix_of(b) <==> at(b, 0, pat),
{
}

proof fn lemma_weights_complete(b: Seq<u8>, w: WeightsView, flag: u32)
    requires
        codec_ok(w),
        (flag != 0) == (w.out_refine is Some),
        at(b, 0, weights_bytes_with(w, flag)),
    ensures
        parse_weights(b) == Some((w, flag)),
{
    lemma_blob_prefix_full(w, flag);
    lemma_blob_split(b, w, flag, 11);
    reveal_with_fuel(blob_prefix, 12);
    reveal(blob_part);
    let o1 = blob_prefix(w, flag, 1).len() as int;
    let o2 = blob_prefix(w, flag, 2).len() as int;
    let o3 = blob_prefix(w, flag, 3).len() as int;
    let o4 = blob_prefix(w, flag, 4).len() as int;
    let o5 = blob_prefix(w, flag, 5).len() as int;
    let o6 = blob_prefix(w, flag, 6).len() as int;
    let o7 = blob_prefix(w, flag, 7).len() as int;
    let o8 = blob_prefix(w, flag, 8).len() as int;
    let o9 = blob_prefix(w, flag, 9).len() as int;
    let o10 = blob_prefix(w, flag, 10).len() as int;
    assert(at(b, 0, blob_part(w, flag, 0)));
    assert(blob_prefix(w, flag, 1) =~= magic());
    assert(at(b, o1, blob_part(w, flag, 1)));
    assert(at(b, o2, blob_part(w, flag, 2)));
    assert(at(b, o3, blob_part(w, flag, 3)));
    assert(at(b, o4, blob_part(w, flag, 4)));
    assert(at(b, o5, blob_part(w, flag, 5)));
    assert(at(b, o6, blob_part(w, flag, 6)));
    assert(at(b, o7, blob_part(w, flag, 7)));
    assert(at(b, o8, blob_part(w, flag, 8)));
    assert(at(b, o9, blob_part(w, flag, 9)));
    assert(at(b, o10, blob_part(w, flag, 10)));
    assert(o1 == 8);
    lemma_config_complete(b, o1, w.config);
    lemma_conv_complete(b, o2, w.stem);
    lemma_u32_complete(b, o3, w.down.len() as u32);
    lemma_convs_complete(b, o4, w.down);
    lemma_convs_complete(b, o5, w.down_refine);
    lemma_convs_complete(b, o6, w.up_reduce);
    lemma_convs_complete(b, o7, w.up_merge);
    lemma_u32_complete(b, o8, flag);
    if let Some(r) = w.out_refine {
        lemma_conv_complete(b, o9, r);
    } else {
        assert(o10 == o9);
    }
    lemma_conv_complete(b, o10, w.head);
}

proof fn lemma_weights_sound(b: Seq<u8>)
    ensures
        parse_weights(b) matches Some((w, flag)) ==> {
            &&& codec_ok(w)
            &&& (flag != 0) == (w.out_refine is Some)
            &&& at(b, 0, weights_bytes_with(w, flag))
        },
{
    if let Some((w, flag)) = parse_weights(b) {
        lemma_config_sound(b, 8);
        let p1 = parse_config(b, 8).unwrap().1;
        lemma_conv_sound(b, p1);
        let p2 = parse_conv(b, p1).unwrap().1;
        lemma_u32_sound(b, p2);
        let (nd, p3) = parse_u32(b, p2).unwrap();
        lemma_convs_sound(b, p3, nd as nat);
        let p4 = parse_convs(b, p3, nd as nat).unwrap().1;
        lemma_convs_sound(b, p4, nd as nat);
        let p5 = parse_convs(b, p4, nd as nat).unwrap().1;
        lemma_convs_sound(b, p5, nd as nat);
        let p6 = parse_convs(b, p5, nd as nat).unwrap().1;
        lemma_convs_sound(b, p6, nd as nat);
        let p7 = parse_convs(b, p6, nd as nat).unwrap().1;
        lemma_u32_sound(b, p7);
        let p8 = parse_u32(b, p7).unwrap().1;
        if flag != 0 {
            lemma_conv_sound(b, p8);
        }
        let p9 = parse_refine(b, flag, p8).unwrap().1;
        lemma_conv_sound(b, p9);
        reveal_with_fuel(blob_prefix, 12);
        reveal(blob_part);
        assert(b.subrange(0, 8) =~= magic());
        assert(at(b, 0, blob_part(w, flag, 0)));
        assert(blob_prefix(w, flag, 1) =~= magic());
        assert(at(b, blob_prefix(w, flag, 1).len() as int, blob_part(w, flag, 1)));
        assert(at(b, blob_prefix(w, flag, 2).len() as int, blob_part(w, flag, 2)));
        assert(at(b, blob_prefix(w, flag, 3).len() as int, blob_part(w, flag, 3)));
        assert(at(b, blob_prefix(w, flag, 4).len() as int, blob_part(w, flag, 4)));
        assert(at(b, blob_prefix(w, flag, 5).len() as int, blob_part(w, flag, 5)));
        assert(at(b, blob_prefix(w, flag, 6).len() as int, blob_part(w, flag, 6)));
        assert(at(b, blob_prefix(w, flag, 7).len() as int, blob_part(w, flag, 7)));
        assert(at(b, blob_prefix(w, flag, 8).len() as int, blob_part(w, flag, 8)));
        if flag == 0 {
            assert(b.subrange(p8, p8) =~= Seq::<u8>::empty());
        }
        assert(at(b, blob_prefix(w, flag, 9).len() as int, blob_part(w, flag, 9)));
        assert(at(b, blob_prefix(w, flag, 10).len() as int, blob_part(w, flag, 10)));
        lemma_blob_join(b, w, flag, 11);
        lemma_blob_prefix_full(w, flag);
    }
}


// ---------------------------------------------------------------- readers

fn read_u32(cur: &mut usize, bytes: &[u8]) -> (r: Option<u32>)
    ensures
        r == match parse_u32(bytes@, *old(cur) as int) {
            Some((v, _)) => Some(v),
            None => None::<u32>,
        },
        r is Some ==> *final(cur) == *old(cur) + 4 && *final(cur) <= bytes.len(),
        r is None ==> *final(cur) == *old(cur),
{
    if *cur > bytes.len() || bytes.len() - *cur < 4 {
        return None;
    }
    let i = *cur;
    let v = (bytes[i] as u32) | ((bytes[i + 1] as u32) << 8u32) | ((bytes[i + 2] as u32) << 16u32) | ((
    bytes[i + 3] as u32) << 24u32);
    *cur = i + 4;
    Some(v)
}

fn read_words_n(cur: &mut usize, bytes: &[u8], n: u32) -> (r: Option<Vec<u32>>)
    requires
        *old(cur) <= bytes.len(),
    ensures
        match parse_words(bytes@, *old(cur) as int, n as nat) {
            Some((s, p)) => r is Some && r.unwrap()@ == s && *final(cur) == p,
            None => r is None,
        },
        *final(cur) <= bytes.len(),
{
    let ghost start = *cur as int;
    let mut out: Vec<u32> = Vec::new();
    let mut i: u32 = 0;
    while i < n
        invariant
            i <= n,
            *cur <= bytes.len(),
            start == *old(cur) as int,
            parse_words(bytes@, start, i as nat) == Some((out@, *cur as int)),
        decreases n - i,
    {
        match read_u32(cur, bytes) {
            Some(v) => {
                out.push(v);
            },
            None => {
                proof {
                    assert(parse_words(bytes@, start, (i + 1) as nat) is None);
                    lemma_words_none_grows(bytes@, start, (i + 1) as nat, n as nat);
                }
                return None;
            },
        }
        i = i + 1;
    }
    Some(out)
}

fn read_words(cur: &mut usize, bytes: &[u8]) -> (r: Option<Vec<u32>>)
    requires
        *old(cur) <= bytes.len(),
    ensures
        match parse_counted(bytes@, *old(cur) as int) {
            Some((s, p)) => r is Some && r.unwrap()@ == s && *final(cur) == p,
            None => r is None,
        },
        *final(cur) <= bytes.len(),
{
    let n = match read_u32(cur, bytes) {
        Some(n) => n,
        None => {
            return None;
        },
    };
    read_words_n(cur, bytes, n)
}

fn read_conv(cur: &mut usize, bytes: &[u8]) -> (r: Option<ConvParam>)
    requires
        *old(cur) <= bytes.len(),
    ensures
        match parse_conv(bytes@, *old(cur) as int) {
            Some((p, q)) => r is Some && r.unwrap()@ == p && *final(cur) == q,
            None => r is None,
        },
        *final(cur) <= bytes.len(),
{
    let d = match read_words_n(cur, bytes, 4) {
        Some(d) => d,
        None => {
            return None;
        },
    };
    let w = match read_words(cur, bytes) {
        Some(v) => v,
        None => {
            return None;
        },
    };
    let b = match read_words(cur, bytes) {
        Some(v) => v,
        None => {
            return None;
        },
    };
    proof {
        lemma_words_sound(bytes@, *old(cur) as int, 4);
    }
    Some(ConvParam { cin: d[0] as usize, cout: d[1] as usize, k: d[2] as usize, stride: d[3] as usize, w, b })
}

fn read_config(cur: &mut usize, bytes: &[u8]) -> (r: Option<UnetConfig>)
    requires
        *old(cur) <= bytes.len(),
    ensures
        match parse_config(bytes@, *old(cur) as int) {
            Some((c, q)) => r is Some && r.unwrap()@ == c && *final(cur) == q,
            None => r is None,
        },
        *final(cur) <= bytes.len(),
{
    let n_scales = match read_u32(cur, bytes) {
        Some(v) => v,
        None => {
            return None;
        },
    };
    let ws = match read_words_n(cur, bytes, n_scales) {
        Some(v) => v,
        None => {
            return None;
        },
    };
    let d = match read_words_n(cur, bytes, 7) {
        Some(v) => v,
        None => {
            return None;
        },
    };
    proof {
        lemma_words_sound(bytes@, *old(cur) as int + 4, n_scales as nat);
        lemma_words_sound(bytes@, *old(cur) as int + 4 + 4 * n_scales, 7);
    }
    let mut widths: Vec<usize> = Vec::new();
    let mut i: usize = 0;
    while i < ws.len()
        invariant
            i <= ws.len(),
            widths@ == ws@.take(i as int).map_values(|x: u32| x as usize),
        decreases ws.len() - i,
    {
        widths.push(ws[i] as usize);
        proof {
            assert(widths@ =~= ws@.take(i + 1).map_values(|x: u32| x as usize));
        }
        i = i + 1;
    }
    proof {
        assert(ws@.take(ws.len() as int) =~= ws@);
    }
    Some(
        UnetConfig {
            n_scales: n_scales as usize,
            widths,
            kernel: d[0] as usize,
            in_channels: d[1] as usize,
            out_channels: d[2] as usize,
            render_w: d[3] as usize,
            render_h: d[4] as usize,
            output_w: d[5] as usize,
            output_h: d[6] as usize,
        },
    )
}

fn read_convs(cur: &mut usize, bytes: &[u8], n: u32) -> (r: Option<Vec<ConvParam>>)
    requires
        *old(cur) <= bytes.len(),
    ensures
        match parse_convs(bytes@, *old(cur) as int, n as nat) {
            Some((s, p)) => r is Some && convs_view(r.unwrap()@) == s && *final(cur) == p,
            None => r is None,
        },
        *final(cur) <= bytes.len(),
{
    let ghost start = *cur as int;
    let mut out: Vec<ConvParam> = Vec::new();
    let mut i: u32 = 0;
    while i < n
        invariant
            i <= n,
            *cur <= bytes.len(),
            start == *old(cur) as int,
            parse_convs(bytes@, start, i as nat) == Some((convs_view(out@), *cur as int)),
        decreases n - i,
    {
        let ghost before = out@;
        match read_conv(cur, bytes) {
            Some(p) => {
                out.push(p);
                proof {
                    assert(convs_view(out@) =~= convs_view(before).push(p@));
                }
            },
            None => {
                proof {
                    assert(parse_convs(bytes@, start, (i + 1) as nat) is None);
                    lemma_convs_none_grows(bytes@, start, (i + 1) as nat, n as nat);
                }
                return None;
            },
        }
        i = i + 1;
    }
    Some(out)
}

#[verifier::rlimit(30)]
fn deserialize_parsed(bytes: &[u8]) -> (r: Option<UnetWeights>)
    ensures
        match parse_weights(bytes@) {
            Some((w, _)) => r is Some && r.unwrap()@ == w,
            None => r is None,
        },
{
    if bytes.len() < 8 || bytes[0] != 0x47u8 || bytes[1] != 0x41u8 || bytes[2] != 0x49u8 || bytes[3] != 0x41u8
        || bytes[4] != 0x52u8 || bytes[5] != 0x44u8 || bytes[6] != 0x39u8 || bytes[7] != 0x00u8 {
        proof {
            if bytes.len() >= 8 {
                assert(bytes@.subrange(0, 8) != magic()) by {
                    if bytes@.subrange(0, 8) == magic() {
                        assert(bytes@[0] == bytes@.subrange(0, 8)[0]);
                        assert(bytes@[1] == bytes@.subrange(0, 8)[1]);
                        assert(bytes@[2] == bytes@.subrange(0, 8)[2]);
                        assert(bytes@[3] == bytes@.subrange(0, 8)[3]);
                        assert(bytes@[4] == bytes@.subrange(0, 8)[4]);
                        assert(bytes@[5] == bytes@.subrange(0, 8)[5]);
                        assert(bytes@[6] == bytes@.subrange(0, 8)[6]);
                        assert(bytes@[7] == bytes@.subrange(0, 8)[7]);
                    }
                }
            }
        }
        return None;
    }
    proof {
        assert(bytes@.subrange(0, 8) =~= magic());
    }
    let mut cur: usize = 8;
    let config = match read_config(&mut cur, bytes) { Some(v) => v, None => { return None; } };
    let stem = match read_conv(&mut cur, bytes) { Some(v) => v, None => { return None; } };
    let n_down = match read_u32(&mut cur, bytes) { Some(v) => v, None => { return None; } };
    let down = match read_convs(&mut cur, bytes, n_down) { Some(v) => v, None => { return None; } };
    let down_refine = match read_convs(&mut cur, bytes, n_down) { Some(v) => v, None => { return None; } };
    let up_reduce = match read_convs(&mut cur, bytes, n_down) { Some(v) => v, None => { return None; } };
    let up_merge = match read_convs(&mut cur, bytes, n_down) { Some(v) => v, None => { return None; } };
    let has_refine = match read_u32(&mut cur, bytes) { Some(v) => v, None => { return None; } };
    let out_refine = if has_refine != 0 {
        match read_conv(&mut cur, bytes) {
            Some(p) => Some(p),
            None => {
                return None;
            },
        }
    } else {
        None
    };
    let head = match read_conv(&mut cur, bytes) { Some(v) => v, None => { return None; } };
    Some(UnetWeights { config, stem, down, down_refine, up_reduce, up_merge, out_refine, head })
}

/// Deserialize a checkpoint blob. Succeeds exactly when `bytes` begins with
/// the blob of some faithfully representable set of weights (trailing bytes
/// are ignored), and then returns those weights.
pub fn deserialize_weights(bytes: &[u8]) -> (r: Option<UnetWeights>)
    ensures
        r matches Some(net) ==> codec_ok(net@) && decodes(bytes@, net@),
        r is None ==> forall|w: WeightsView| codec_ok(w) ==> !decodes(bytes@, w),
{
    let r = deserialize_parsed(bytes);
    proof {
        lemma_weights_sound(bytes@);
        if let Some((w, flag)) = parse_weights(bytes@) {
            lemma_prefix_at(bytes@, weights_bytes_with(w, flag));
            assert(weights_bytes_with(w, flag).is_prefix_of(bytes@));
        } else {
            assert forall|w: WeightsView| codec_ok(w) implies !decodes(bytes@, w) by {
                if decodes(bytes@, w) {
                    let flag = choose|flag: u32|
                        (flag != 0) == (w.out_refine is Some) && #[trigger] weights_bytes_with(w, flag).is_prefix_of(
                            bytes@,
                        );
                    lemma_prefix_at(bytes@, weights_bytes_with(w, flag));
                    lemma_weights_complete(bytes@, w, flag);
                }
            }
        }
    }
    r
}

/// Law: a blob determines its weights: no two faithfully representable sets
/// of weights decode from the same bytes.
pub proof fn lemma_decodes_unique(bytes: Seq<u8>, w1: WeightsView, w2: WeightsView)
    requires
        codec_ok(w1),
        codec_ok(w2),
        decodes(bytes, w1),
        decodes(bytes, w2),
    ensures
        w1 == w2,
{
    let f1 = choose|flag: u32|
        (flag != 0) == (w1.out_refine is Some) && #[trigger] weights_bytes_with(w1, flag).is_prefix_of(bytes);
    let f2 = choose|flag: u32|
        (flag != 0) == (w2.out_refine is Some) && #[trigger] weights_bytes_with(w2, flag).is_prefix_of(bytes);
    lemma_prefix_at(bytes, weights_bytes_with(w1, f1));
    lemma_prefix_at(bytes, weights_bytes_with(w2, f2));
    lemma_weights_complete(bytes, w1, f1);
    lemma_weights_complete(bytes, w2, f2);
}

/// Law (round trip): the blob written for faithfully representable weights
/// decodes to exactly those weights, and writing those decoded weights again
/// reproduces the blob byte for byte.
pub proof fn lemma_serialize_roundtrip(w: WeightsView, r: WeightsView)
    requires
        codec_ok(w),
    ensures
        decodes(weights_bytes(w), w),
        codec_ok(r) && decodes(weights_bytes(w), r) ==> r == w && weights_bytes(r) == weights_bytes(w),
{
    let b = weights_bytes(w);
    assert(b.subrange(0, b.len() as int) =~= b);
    lemma_prefix_at(b, b);
    assert(weights_bytes_with(w, refine_flag(w)).is_prefix_of(b));
    if codec_ok(r) && decodes(b, r) {
        lemma_decodes_unique(b, w, r);
    }
}

} // verus!
