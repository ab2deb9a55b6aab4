//! Integer sizing of the GPU passes: compute-dispatch grid sizes, storage
//! buffer byte sizes for the per-pixel cell layouts, and the ping-pong
//! history bookkeeping of the recurrent feature gather.

use vstd::prelude::*;

verus! {

/// Side of a square compute workgroup, in pixels.
pub const WORKGROUP_SIDE: u32 = 8;

/// Bytes of one `vec4<f32>` cell (accumulation, history, temporal cells).
pub const ACCUM_CELL: u64 = 16;

/// Bytes of one AOV pixel: two `vec4<f32>` cells.
pub const AOV_CELL: u64 = 32;

/// Per-pixel features of the plain gather.
pub const INPUT_FEATURES: usize = 23;

/// Per-pixel features of the split (E/D) gather.
pub const INPUT_FEATURES_SPLIT: usize = 35;

/// Threads per workgroup of the fp16 packer.
pub const PACK_GROUP: u32 = 64;

/// Largest workgroup count a single dispatch dimension may have.
pub const MAX_GROUPS_PER_DIM: u32 = 65535;

/// `ceil(n / d)`.
pub open spec fn ceil_div(n: int, d: int) -> int {
    (n + d - 1) / d
}

proof fn lemma_ceil_div(n: int, d: int)
    requires
        n >= 0,
        d > 0,
    ensures
        ceil_div(n, d) == n / d + (if n % d == 0 { 0int } else { 1int }),
{
    let q = n / d;
    let r = n % d;
    vstd::arithmetic::div_mod::lemma_fundamental_div_mod(n, d);
    assert((q + 1) * d == q * d + d) by (nonlinear_arith);
    assert(d * q == q * d) by (nonlinear_arith);
    if r == 0 {
        vstd::arithmetic::div_mod::lemma_fundamental_div_mod_converse(n + d - 1, d, q, d - 1);
    } else {
        vstd::arithmetic::div_mod::lemma_fundamental_div_mod_converse(n + d - 1, d, q + 1, r - 1);
    }
}

proof fn lemma_u32_product(a: u32, b: u32)
    ensures
        0 <= a * b <= u64::MAX,
{
    assert(0 <= a * b <= u64::MAX) by (nonlinear_arith)
        requires a <= u32::MAX, b <= u32::MAX, a >= 0, b >= 0;
}

/// Workgroups along one axis for `n` pixels: `ceil(n / 8)`.
pub fn dispatch_groups(n: u32) -> (g: u32)
    ensures
        g == ceil_div(n as int, WORKGROUP_SIDE as int),
        g * WORKGROUP_SIDE >= n,
        g * WORKGROUP_SIDE < n + WORKGROUP_SIDE,
{
    proof {
        lemma_ceil_div(n as int, 8);
    }
    if n % WORKGROUP_SIDE == 0 { n / WORKGROUP_SIDE } else { n / WORKGROUP_SIDE + 1 }
}

/// Bytes of a zeroed per-pixel buffer of `cell_bytes` per pixel for a
/// `width x height` frame; an empty frame still gets one cell so the binding
/// stays valid.
pub fn frame_buffer_bytes(width: u32, height: u32, cell_bytes: u64) -> (n: u64)
    requires
        vstd::math::max(width * height, 1) * cell_bytes <= u64::MAX,
    ensures
        n == vstd::math::max(width * height, 1) * cell_bytes,
{
    proof {
        lemma_u32_product(width, height);
    }
    let cells = (width as u64) * (height as u64);
    let cells = if cells > 1 { cells } else { 1 };
    cells * cell_bytes
}

/// Bytes of a readback of a `width x height` frame at `cell_bytes` per pixel.
pub fn readback_bytes(width: u32, height: u32, cell_bytes: u64) -> (n: u64)
    requires
        width * height * cell_bytes <= u64::MAX,
    ensures
        n == width * height * cell_bytes,
{
    proof {
        lemma_u32_product(width, height);
    }
    let cells = (width as u64) * (height as u64);
    proof {
        if cell_bytes > 0 {
            assert(cells <= cells * cell_bytes) by (nonlinear_arith)
                requires cell_bytes >= 1, cells >= 0;
        }
    }
    cells * cell_bytes
}

/// Bytes of a feature tensor of `n` rows of `features` `f32`s.
pub fn feature_bytes(n: usize, features: usize) -> (b: u64)
    requires
        n * features <= usize::MAX,
        n * features * 4 <= usize::MAX,
    ensures
        b == n * features * 4,
{
    (n * features * 4) as u64
}

/// Bytes of one previous-output history buffer for `n` pixels (one
/// `vec4<f32>` each).
pub fn out_dl_bytes(n: usize) -> (b: u64)
    requires
        n * 16 <= usize::MAX,
    ensures
        b == n * 16,
{
    (n * 16) as u64
}

/// The 2-D workgroup grid `(gx, gy)` that packs `n_elems` `f32`s into fp16
/// pairs: `ceil(n_elems / 2)` pairs (counted in 32 bits), at least one group
/// of 64 pairs, spread so no axis exceeds 65535 groups.
pub open spec fn pack_grid_spec(n_elems: int) -> (int, int) {
    let n_pairs = (ceil_div(n_elems, 2) as u32) as int;
    let needed = vstd::math::max(ceil_div(n_pairs, PACK_GROUP as int), 1);
    let gx = vstd::math::min(needed, MAX_GROUPS_PER_DIM as int);
    (gx, ceil_div(needed, gx))
}

/// The fp16 packer's dispatch grid for `n_elems` input floats.
pub fn pack_grid(n_elems: usize) -> (g: (u32, u32))
    ensures
        g.0 == pack_grid_spec(n_elems as int).0,
        g.1 == pack_grid_spec(n_elems as int).1,
{
    proof {
        lemma_ceil_div(n_elems as int, 2);
    }
    let n_pairs_wide: usize = if n_elems % 2 == 0 { n_elems / 2 } else { n_elems / 2 + 1 };
    let n_pairs: u32 = n_pairs_wide as u32;
    proof {
        lemma_ceil_div(n_pairs as int, 64);
    }
    let groups: u32 = if n_pairs % PACK_GROUP == 0 { n_pairs / PACK_GROUP } else { n_pairs / PACK_GROUP + 1 };
    let needed: u32 = if groups > 1 { groups } else { 1 };
    let gx: u32 = if needed < MAX_GROUPS_PER_DIM { needed } else { MAX_GROUPS_PER_DIM };
    proof {
        lemma_ceil_div(needed as int, gx as int);
    }
    let gy: u32 = if needed % gx == 0 { needed / gx } else { needed / gx + 1 };
    (gx, gy)
}

/// Law: the packer's grid never exceeds the per-axis cap in x, covers every
/// pair (each group packs 64), and, whenever the pair count fits the 32-bit
/// counter and two full axes, stays within the cap in y as well.
pub proof fn lemma_pack_grid_covers(n_elems: int)
    requires
        0 <= n_elems,
        ceil_div(n_elems, 2) <= u32::MAX,
    ensures
        1 <= pack_grid_spec(n_elems).0 <= MAX_GROUPS_PER_DIM,
        pack_grid_spec(n_elems).0 * pack_grid_spec(n_elems).1 * PACK_GROUP >= ceil_div(n_elems, 2),
        ceil_div(ceil_div(n_elems, 2), PACK_GROUP as int) <= MAX_GROUPS_PER_DIM * MAX_GROUPS_PER_DIM
            ==> pack_grid_spec(n_elems).1 <= MAX_GROUPS_PER_DIM,
{
    let n_pairs = ceil_div(n_elems, 2);
    assert((n_pairs as u32) as int == n_pairs);
    let groups = ceil_div(n_pairs, 64);
    let needed = vstd::math::max(groups, 1);
    let gx = vstd::math::min(needed, 65535);
    let gy = ceil_div(needed, gx);
    assert(groups * 64 >= n_pairs) by (nonlinear_arith)
        requires groups == (n_pairs + 63) / 64, n_pairs >= 0;
    assert(gy * gx >= needed) by (nonlinear_arith)
        requires gy == (needed + gx - 1) / gx, gx >= 1, needed >= 1;
    assert(gx * gy * 64 >= n_pairs) by (nonlinear_arith)
        requires gy * gx >= needed, needed >= groups, groups * 64 >= n_pairs, gx >= 1, gy >= 0;
    if groups <= 65535 * 65535 {
        if needed <= 65535 {
            assert(gy == 1) by (nonlinear_arith)
                requires gx == needed, needed >= 1, gy == (needed + gx - 1) / gx;
        } else {
            assert(gy <= 65535) by (nonlinear_arith)
                requires gx == 65535, needed <= 65535 * 65535, gy == (needed + gx - 1) / gx;
        }
    }
}

/// Bookkeeping of the recurrent gather's ping-pong history: whether the
/// history buffers hold a previous frame, and that frame's size.
pub struct HistoryState {
    pub has_prev: bool,
    pub w: u32,
    pub h: u32,
}

/// What one history swap copies, in bytes: the output (one cell per pixel)
/// and the AOV (two cells per pixel).
pub struct HistoryCopy {
    pub out_dl_bytes: u64,
    pub aov_bytes: u64,
}

impl HistoryState {
    /// A fresh history of `w x h` frames with nothing recorded yet.
    pub fn new(w: u32, h: u32) -> (s: Self)
        ensures
            !s.has_prev,
            s.w == w,
            s.h == h,
    {
        HistoryState { has_prev: false, w, h }
    }

    /// Bytes of the history buffers for `w x h` frames: output and AOV, each
    /// at least one byte pair so the bindings stay valid.
    pub fn buffer_bytes(w: u32, h: u32) -> (b: HistoryCopy)
        requires
            w * h * 32 <= u64::MAX,
        ensures
            b.out_dl_bytes == vstd::math::max(w * h * 16, 1),
            b.aov_bytes == vstd::math::max(w * h, 1) * 32,
    {
        proof {
            lemma_u32_product(w, h);
        }
        let n = (w as u64) * (h as u64);
        let o = n * 16;
        let o = if o > 1 { o } else { 1 };
        let m = if n > 1 { n } else { 1 };
        HistoryCopy { out_dl_bytes: o, aov_bytes: m * 32 }
    }

    /// Drop the history (scene cut or resize): the next gather sees none.
    pub fn reset(&mut self)
        ensures
            !final(self).has_prev,
            final(self).w == old(self).w,
            final(self).h == old(self).h,
    {
        self.has_prev = false;
    }

    /// Record that this frame's `w x h` output and AOV become the history;
    /// returns how many bytes of each to copy.
    pub fn swap(&mut self, w: u32, h: u32) -> (c: HistoryCopy)
        requires
            w * h * 32 <= u64::MAX,
        ensures
            final(self).has_prev,
            final(self).w == w,
            final(self).h == h,
            c.out_dl_bytes == w * h * 16,
            c.aov_bytes == w * h * 32,
    {
        proof {
            lemma_u32_product(w, h);
        }
        let n = (w as u64) * (h as u64);
        self.has_prev = true;
        self.w = w;
        self.h = h;
        HistoryCopy { out_dl_bytes: n * 16, aov_bytes: n * 32 }
    }
}

} // verus!
