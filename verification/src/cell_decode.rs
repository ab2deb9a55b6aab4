//! Integer half of the cell-energy speak-back: the word hash, a word's
//! channels, the 8 x 8 cell grid laid over a field plane, and the footprint
//! of one synthetic strike.

use vstd::prelude::*;
use crate::determinism::{mix64, mix64_spec};

verus! {

/// Number of semantic channels (one per grid cell).
pub const CHANNELS: usize = 64;

/// Cells per grid side.
pub const GRID: usize = 8;

/// Channels a word excites.
pub const WORD_CHANNELS: usize = 3;

/// Half-width, in pixels, of the square a synthetic strike touches.
pub const STRIKE_RADIUS: usize = 8;

/// FNV-1a offset basis.
pub const FNV_OFFSET: u64 = 0xcbf2_9ce4_8422_2325;

/// The 64-bit FNV prime (`0x100000001b3`).
pub const FNV_PRIME: u64 = 0x0000_0100_0000_01b3;

/// FNV-1a over `bytes`: start from the offset basis, then for each byte xor
/// it in and multiply by the prime (modulo 2^64).
pub open spec fn fnv1a_spec(bytes: Seq<u8>) -> u64
    decreases bytes.len(),
{
    if bytes.len() == 0 {
        FNV_OFFSET
    } else {
        (fnv1a_spec(bytes.drop_last()) ^ (bytes.last() as u64)).wrapping_mul(FNV_PRIME)
    }
}

/// Law: FNV-1a starts from the offset basis and folds in every raw byte, in
/// order and unaltered, by xor and then multiplication by the prime modulo
/// 2^64.
pub proof fn lemma_fnv1a_steps(s: Seq<u8>, b: u8)
    ensures
        fnv1a_spec(Seq::<u8>::empty()) == 0xcbf2_9ce4_8422_2325u64,
        fnv1a_spec(s.push(b)) == (fnv1a_spec(s) ^ (b as u64)).wrapping_mul(0x0000_0100_0000_01b3u64),
{
    assert(s.push(b).drop_last() =~= s);
}

proof fn lemma_fnv1a_low_byte(a: u8)
    ensures
        fnv1a_spec(seq![a]) as int % 256 == ((0x25u64 ^ (a as u64)) as int * 0xb3) % 256,
{
    let s = seq![a];
    assert(s.drop_last() =~= Seq::<u8>::empty());
    assert(s.last() == a);
    let x: u64 = FNV_OFFSET ^ (a as u64);
    let m: int = 0x1_0000_0000_0000_0000;
    let prod: int = x as int * FNV_PRIME as int;
    assert(fnv1a_spec(s.drop_last()) == FNV_OFFSET);
    assert(fnv1a_spec(s) == x.wrapping_mul(FNV_PRIME));
    vstd::arithmetic::div_mod::lemma_mod_bound(prod, m);
    assert(x.wrapping_mul(FNV_PRIME) as int == prod % m);
    assert(fnv1a_spec(s) as int == prod % m);
    vstd::arithmetic::div_mod::lemma_mod_mod(prod, 256, 0x100_0000_0000_0000);
    vstd::arithmetic::div_mod::lemma_mul_mod_noop(x as int, FNV_PRIME as int, 256);
    assert(x % 256 == 0x25u64 ^ (a as u64)) by (bit_vector)
        requires
            x == 0xcbf2_9ce4_8422_2325u64 ^ (a as u64),
    ;
    assert(FNV_PRIME as int % 256 == 0xb3);
    vstd::arithmetic::div_mod::lemma_mul_mod_noop(x as int % 256, 0xb3, 256);
}

/// Law: distinct one-byte inputs hash to distinct values (no two byte
/// values, such as an upper- and a lower-case letter, are conflated).
pub proof fn lemma_fnv1a_one_byte_injective(a: u8, b: u8)
    requires
        a != b,
    ensures
        fnv1a_spec(seq![a]) != fnv1a_spec(seq![b]),
{
    lemma_fnv1a_low_byte(a);
    lemma_fnv1a_low_byte(b);
    let xa: u64 = 0x25u64 ^ (a as u64);
    let xb: u64 = 0x25u64 ^ (b as u64);
    assert(xa < 256 && xb < 256 && xa != xb) by (bit_vector)
        requires
            xa == 0x25u64 ^ (a as u64),
            xb == 0x25u64 ^ (b as u64),
            a != b,
    ;
    assert((xa * 0xb3u64) % 256 != (xb * 0xb3u64) % 256) by (bit_vector)
        requires
            xa < 256,
            xb < 256,
            xa != xb,
    ;
}

/// FNV-1a hash of a byte string.
pub fn fnv1a(bytes: &[u8]) -> (h: u64)
    ensures
        h == fnv1a_spec(bytes@),
{
    let mut h: u64 = FNV_OFFSET;
    let mut i: usize = 0;
    while i < bytes.len()
        invariant
            i <= bytes.len(),
            h == fnv1a_spec(bytes@.subrange(0, i as int)),
        decreases bytes.len() - i,
    {
        assert(bytes@.subrange(0, i + 1).drop_last() =~= bytes@.subrange(0, i as int));
        h = (h ^ (bytes[i] as u64)).wrapping_mul(FNV_PRIME);
        i = i + 1;
    }
    assert(bytes@.subrange(0, bytes.len() as int) =~= bytes@);
    h
}

/// A word's seed: the hash of its UTF-8 bytes.
pub open spec fn word_seed_spec(word: Seq<char>) -> u64 {
    fnv1a_spec(vstd::utf8::encode_utf8(word))
}

/// The seed a word's channels and amplitudes are derived from.
pub fn word_seed(word: &str) -> (s: u64)
    ensures
        s == word_seed_spec(word@),
{
    fnv1a(word.as_bytes())
}

/// Channel number `i` of a word with seed `seed`.
pub open spec fn word_channel_spec(seed: u64, i: u64) -> usize {
    (mix64_spec(seed ^ mix64_spec(i)) % (CHANNELS as u64)) as usize
}

/// The word's `WORD_CHANNELS` channel indices, in order (repeats possible).
pub fn word_channels(word: &str) -> (chs: Vec<usize>)
    ensures
        chs.len() == WORD_CHANNELS,
        forall|i: int|
            0 <= i < WORD_CHANNELS ==> #[trigger] chs@[i] == word_channel_spec(
                word_seed_spec(word@),
                i as u64,
            ),
        forall|i: int| 0 <= i < WORD_CHANNELS ==> #[trigger] chs@[i] < CHANNELS,
{
    let h = word_seed(word);
    let mut chs: Vec<usize> = Vec::new();
    let mut i: usize = 0;
    while i < WORD_CHANNELS
        invariant
            i <= WORD_CHANNELS,
            h == word_seed_spec(word@),
            chs.len() == i,
            forall|j: int|
                0 <= j < i ==> #[trigger] chs@[j] == word_channel_spec(h, j as u64),
            forall|j: int| 0 <= j < i ==> #[trigger] chs@[j] < CHANNELS,
        decreases WORD_CHANNELS - i,
    {
        let c = (mix64(h ^ mix64(i as u64)) % (CHANNELS as u64)) as usize;
        chs.push(c);
        i = i + 1;
    }
    chs
}

/// Width (or height) of one grid cell on a plane side of `side` pixels.
pub open spec fn cell_extent(side: usize) -> int {
    side as int / GRID as int
}

/// The center pixel of `channel`'s cell.
pub open spec fn channel_center_spec(w: usize, h: usize, channel: usize) -> (usize, usize) {
    let cw = cell_extent(w);
    let ch = cell_extent(h);
    (
        ((channel as int % GRID as int) * cw + cw / 2) as usize,
        ((channel as int / GRID as int) * ch + ch / 2) as usize,
    )
}

/// Channel -> (x, y) cell center on a `w x h` plane. The plane must be at
/// least one pixel per cell on each side.
pub fn channel_center(w: usize, h: usize, channel: usize) -> (c: (usize, usize))
    requires
        channel < CHANNELS,
        w >= GRID,
        h >= GRID,
    ensures
        c == channel_center_spec(w, h, channel),
        c.0 < w,
        c.1 < h,
{
    let cw = w / GRID;
    let chh = h / GRID;
    assert((channel % 8) * cw + cw / 2 < w) by (nonlinear_arith)
        requires cw == w / 8, channel < 64, w >= 8;
    assert((channel / 8) * chh + chh / 2 < h) by (nonlinear_arith)
        requires chh == h / 8, channel < 64, h >= 8;
    (channel % GRID * cw + cw / 2, channel / GRID * chh + chh / 2)
}

/// The grid cell that pixel (x, y) of a `w x h` plane falls in: row-major,
/// with any remainder pixels past the eighth cell folded into the last one.
pub open spec fn cell_of_spec(w: usize, h: usize, x: usize, y: usize) -> int {
    let gx = vstd::math::min(x as int / cell_extent(w), GRID as int - 1);
    let gy = vstd::math::min(y as int / cell_extent(h), GRID as int - 1);
    gy * GRID as int + gx
}

/// The cell index pixel (x, y) contributes its energy to.
pub fn cell_of(w: usize, h: usize, x: usize, y: usize) -> (c: usize)
    requires
        w >= GRID,
        h >= GRID,
        x < w,
        y < h,
    ensures
        c as int == cell_of_spec(w, h, x, y),
        c < CHANNELS,
        (c % 8) * (w / 8) <= x,
        c % 8 < 7 ==> x < (c % 8 + 1) * (w / 8),
        (c / 8) * (h / 8) <= y,
        c / 8 < 7 ==> y < (c / 8 + 1) * (h / 8),
{
    proof {
        lemma_cell_of_holds_pixel(w, h, x, y);
    }
    let cw = w / GRID;
    let chh = h / GRID;
    let gx = if x / cw < GRID - 1 { x / cw } else { GRID - 1 };
    let gy = if y / chh < GRID - 1 { y / chh } else { GRID - 1 };
    gy * GRID + gx
}

proof fn lemma_axis_cell(p: int, side: int)
    requires
        side >= 8,
        0 <= p < side,
    ensures
        ({
            let e = side / 8;
            let g = vstd::math::min(p / e, 7);
            &&& 0 <= g < 8
            &&& g * e <= p
            &&& g < 7 ==> p < (g + 1) * e
        }),
{
    let e = side / 8;
    let q = p / e;
    vstd::arithmetic::div_mod::lemma_fundamental_div_mod(p, e);
    assert(0 <= p % e < e) by {
        vstd::arithmetic::div_mod::lemma_mod_pos_bound(p, e);
    }
    assert(q >= 0) by {
        vstd::arithmetic::div_mod::lemma_div_pos_is_pos(p, e);
    }
    let g = vstd::math::min(q, 7);
    assert(g * e <= q * e) by (nonlinear_arith)
        requires g <= q, e >= 1, g >= 0;
    assert(e * q == q * e) by (nonlinear_arith);
    if g < 7 {
        assert((g + 1) * e == g * e + e) by (nonlinear_arith);
    }
}

/// Law: a pixel falls in the cell whose pixel range holds it. With cells
/// `w / 8` pixels wide, the cell's column `c % 8` starts at or before `x`,
/// and unless it is the last column (which also takes the remainder
/// pixels) the next column starts after `x`; likewise for rows with
/// `h / 8` and `c / 8`. Every pixel lands in one of the 64 cells.
pub proof fn lemma_cell_of_holds_pixel(w: usize, h: usize, x: usize, y: usize)
    requires
        w >= GRID,
        h >= GRID,
        x < w,
        y < h,
    ensures
        0 <= cell_of_spec(w, h, x, y) < CHANNELS,
        (cell_of_spec(w, h, x, y) % 8) * (w as int / 8) <= x,
        cell_of_spec(w, h, x, y) % 8 < 7 ==> x < (cell_of_spec(w, h, x, y) % 8 + 1) * (w as int / 8),
        (cell_of_spec(w, h, x, y) / 8) * (h as int / 8) <= y,
        cell_of_spec(w, h, x, y) / 8 < 7 ==> y < (cell_of_spec(w, h, x, y) / 8 + 1) * (h as int / 8),
{
    lemma_axis_cell(x as int, w as int);
    lemma_axis_cell(y as int, h as int);
    let gx = vstd::math::min(x as int / cell_extent(w), 7);
    let gy = vstd::math::min(y as int / cell_extent(h), 7);
    let c = cell_of_spec(w, h, x, y);
    assert(c == gy * 8 + gx);
    vstd::arithmetic::div_mod::lemma_fundamental_div_mod_converse(c, 8, gy, gx);
}

/// Law: a channel's cell center lies in that channel's own cell, so energy
/// struck at `channel_center(c)` is read back from cell `c`.
pub proof fn lemma_center_in_own_cell(w: usize, h: usize, channel: usize)
    requires
        channel < CHANNELS,
        w >= GRID,
        h >= GRID,
    ensures
        cell_of_spec(w, h, channel_center_spec(w, h, channel).0, channel_center_spec(w, h, channel).1)
            == channel as int,
{
    let cw = cell_extent(w);
    let ch = cell_extent(h);
    let cx = channel as int % 8;
    let cy = channel as int / 8;
    assert(cw >= 1 && ch >= 1);
    assert((cx * cw + cw / 2) / cw == cx) by {
        vstd::arithmetic::div_mod::lemma_fundamental_div_mod_converse(cx * cw + cw / 2, cw, cx, cw / 2);
    }
    assert((cy * ch + ch / 2) / ch == cy) by {
        vstd::arithmetic::div_mod::lemma_fundamental_div_mod_converse(cy * ch + ch / 2, ch, cy, ch / 2);
    }
    assert(0 <= cx * cw + cw / 2 < w) by (nonlinear_arith)
        requires 0 <= cx < 8, cw == w as int / 8, w >= 8;
    assert(0 <= cy * ch + ch / 2 < h) by (nonlinear_arith)
        requires 0 <= cy < 8, ch == h as int / 8, h >= 8;
    let c = channel_center_spec(w, h, channel);
    assert(c.0 as int == cx * cw + cw / 2);
    assert(c.1 as int == cy * ch + ch / 2);
    assert(c.0 as int / cell_extent(w) == cx);
    assert(c.1 as int / cell_extent(h) == cy);
}

/// Candidate offsets per strike side (`2 * STRIKE_RADIUS + 1`).
pub const STRIKE_SIDE: usize = 17;

/// Offsets per strike side.
pub open spec fn strike_side() -> int {
    STRIKE_SIDE as int
}

/// The (dx, dy) of the `k`-th candidate of a strike, scanning dy then dx
/// from `-STRIKE_RADIUS` to `STRIKE_RADIUS`.
pub open spec fn strike_offset(k: int) -> (int, int) {
    (k % strike_side() - STRIKE_RADIUS as int, k / strike_side() - STRIKE_RADIUS as int)
}

/// Whether the `k`-th candidate of a strike centered at (cx, cy) lands on
/// the `w x h` plane.
pub open spec fn strike_hits(w: usize, h: usize, cx: usize, cy: usize, k: int) -> bool {
    let (dx, dy) = strike_offset(k);
    0 <= cx + dx < w && 0 <= cy + dy < h
}

/// The plane index and squared distance of the `k`-th candidate.
pub open spec fn strike_entry(w: usize, cx: usize, cy: usize, k: int) -> (usize, u32) {
    let (dx, dy) = strike_offset(k);
    (((cy + dy) * w + (cx + dx)) as usize, (dx * dx + dy * dy) as u32)
}

/// The footprint of the first `n` candidates: the in-plane ones, in scan order.
pub open spec fn strike_prefix(w: usize, h: usize, cx: usize, cy: usize, n: nat) -> Seq<(usize, u32)>
    decreases n,
{
    if n == 0 {
        Seq::empty()
    } else {
        let prev = strike_prefix(w, h, cx, cy, (n - 1) as nat);
        if strike_hits(w, h, cx, cy, n - 1) {
            prev.push(strike_entry(w, cx, cy, n - 1))
        } else {
            prev
        }
    }
}

/// The full footprint of a strike.
pub open spec fn strike_footprint_spec(w: usize, h: usize, cx: usize, cy: usize) -> Seq<(usize, u32)> {
    strike_prefix(w, h, cx, cy, (strike_side() * strike_side()) as nat)
}

proof fn lemma_prefix_contains(w: usize, h: usize, cx: usize, cy: usize, n: nat, k: int)
    requires
        0 <= k < n,
        strike_hits(w, h, cx, cy, k),
    ensures
        strike_prefix(w, h, cx, cy, n).contains(strike_entry(w, cx, cy, k)),
    decreases n,
{
    let prev = strike_prefix(w, h, cx, cy, (n - 1) as nat);
    if k == n - 1 {
        let p = prev.push(strike_entry(w, cx, cy, k));
        assert(p[p.len() - 1] == strike_entry(w, cx, cy, k));
    } else {
        lemma_prefix_contains(w, h, cx, cy, (n - 1) as nat, k);
        if strike_hits(w, h, cx, cy, n - 1) {
            let i = choose|i: int| 0 <= i < prev.len() && prev[i] == strike_entry(w, cx, cy, k);
            let p = prev.push(strike_entry(w, cx, cy, n - 1));
            assert(p[i] == strike_entry(w, cx, cy, k));
        }
    }
}

proof fn lemma_prefix_sound(w: usize, h: usize, cx: usize, cy: usize, n: nat, i: int) -> (k: int)
    requires
        0 <= i < strike_prefix(w, h, cx, cy, n).len(),
    ensures
        0 <= k < n,
        strike_hits(w, h, cx, cy, k),
        strike_prefix(w, h, cx, cy, n)[i] == strike_entry(w, cx, cy, k),
    decreases n,
{
    let prev = strike_prefix(w, h, cx, cy, (n - 1) as nat);
    if i < prev.len() {
        lemma_prefix_sound(w, h, cx, cy, (n - 1) as nat, i)
    } else {
        n - 1
    }
}

/// Law (complete): every pixel of the plane within `STRIKE_RADIUS` of the
/// strike center on both axes is in the footprint, paired with its squared
/// distance to the center.
pub proof fn lemma_strike_footprint_complete(w: usize, h: usize, cx: usize, cy: usize, dx: int, dy: int)
    requires
        -(STRIKE_RADIUS as int) <= dx <= STRIKE_RADIUS as int,
        -(STRIKE_RADIUS as int) <= dy <= STRIKE_RADIUS as int,
        0 <= cx + dx < w,
        0 <= cy + dy < h,
    ensures
        strike_footprint_spec(w, h, cx, cy).contains(
            (((cy + dy) * w + cx + dx) as usize, (dx * dx + dy * dy) as u32),
        ),
{
    let k = (dy + 8) * 17 + (dx + 8);
    vstd::arithmetic::div_mod::lemma_fundamental_div_mod_converse(k, 17, dy + 8, dx + 8);
    assert(strike_offset(k) == (dx, dy));
    assert(strike_entry(w, cx, cy, k) == (((cy + dy) * w + cx + dx) as usize, (dx * dx + dy * dy) as u32));
    assert(strike_side() * strike_side() == 289);
    lemma_prefix_contains(w, h, cx, cy, (strike_side() * strike_side()) as nat, k);
}

/// Law (sound): every footprint entry is a pixel of the plane within
/// `STRIKE_RADIUS` of the center on both axes, paired with its squared
/// distance; the returned pair is that pixel's offset from the center.
pub proof fn lemma_strike_footprint_sound(w: usize, h: usize, cx: usize, cy: usize, i: int) -> (d: (int, int))
    requires
        0 <= i < strike_footprint_spec(w, h, cx, cy).len(),
    ensures
        -(STRIKE_RADIUS as int) <= d.0 <= STRIKE_RADIUS as int,
        -(STRIKE_RADIUS as int) <= d.1 <= STRIKE_RADIUS as int,
        0 <= cx + d.0 < w,
        0 <= cy + d.1 < h,
        strike_footprint_spec(w, h, cx, cy)[i] == (((cy + d.1) * w + cx + d.0) as usize, (d.0 * d.0 + d.1
            * d.1) as u32),
{
    assert(strike_side() == 17);
    assert(strike_side() * strike_side() == 289);
    let k = lemma_prefix_sound(w, h, cx, cy, (strike_side() * strike_side()) as nat, i);
    assert(0 <= k < 289);
    vstd::arithmetic::div_mod::lemma_fundamental_div_mod(k, 17);
    assert(0 <= k % 17 < 17);
    assert(0 <= k / 17 < 17);
    strike_offset(k)
}

/// The pixels a synthetic Gaussian strike at (cx, cy) touches on a `w x h`
/// plane, as (row-major plane index, squared distance to the center), in the
/// order the strike adds to them (dy outer, dx inner, both ascending);
/// candidates off the plane are skipped.
pub fn strike_footprint(w: usize, h: usize, cx: usize, cy: usize) -> (fp: Vec<(usize, u32)>)
    requires
        w * h <= usize::MAX,
    ensures
        fp@ == strike_footprint_spec(w, h, cx, cy),
        forall|i: int| 0 <= i < fp.len() ==> (#[trigger] fp@[i]).0 < w * h,
{
    let side: usize = STRIKE_SIDE;
    let mut fp: Vec<(usize, u32)> = Vec::new();
    let mut k: usize = 0;
    while k < side * side
        invariant
            side == 17,
            k <= side * side,
            w * h <= usize::MAX,
            fp@ == strike_prefix(w, h, cx, cy, k as nat),
            forall|i: int| 0 <= i < fp.len() ==> (#[trigger] fp@[i]).0 < w * h,
        decreases side * side - k,
    {
        let ox = k % STRIKE_SIDE;
        let oy = k / STRIKE_SIDE;
        assert(oy < 17);
        // x = cx + ox - R, y = cy + oy - R, decided without leaving usize.
        let x_ok = if ox >= STRIKE_RADIUS {
            cx < w && ox - STRIKE_RADIUS < w - cx
        } else {
            cx >= STRIKE_RADIUS - ox && cx - (STRIKE_RADIUS - ox) < w
        };
        let y_ok = if oy >= STRIKE_RADIUS {
            cy < h && oy - STRIKE_RADIUS < h - cy
        } else {
            cy >= STRIKE_RADIUS - oy && cy - (STRIKE_RADIUS - oy) < h
        };
        proof {
            assert(strike_offset(k as int) == (ox - 8, oy - 8));
        }
        if x_ok && y_ok {
            let x = if ox >= STRIKE_RADIUS { cx + (ox - STRIKE_RADIUS) } else { cx - (STRIKE_RADIUS - ox) };
            let y = if oy >= STRIKE_RADIUS { cy + (oy - STRIKE_RADIUS) } else { cy - (STRIKE_RADIUS - oy) };
            assert(y * w + x < w * h) by (nonlinear_arith)
                requires y < h, x < w;
            let ax: usize = if ox >= STRIKE_RADIUS { ox - STRIKE_RADIUS } else { STRIKE_RADIUS - ox };
            let ay: usize = if oy >= STRIKE_RADIUS { oy - STRIKE_RADIUS } else { STRIKE_RADIUS - oy };
            assert(ax * ax <= 64 && ay * ay <= 64) by (nonlinear_arith)
                requires ax <= 8, ay <= 8;
            let dx2: u32 = (ax * ax) as u32;
            let dy2: u32 = (ay * ay) as u32;
            proof {
                let dx = ox - 8;
                let dy = oy - 8;
                assert(ax * ax == dx * dx) by (nonlinear_arith)
                    requires ax == (if ox >= 8 { ox - 8 } else { 8 - ox }), dx == ox - 8;
                assert(ay * ay == dy * dy) by (nonlinear_arith)
                    requires ay == (if oy >= 8 { oy - 8 } else { 8 - oy }), dy == oy - 8;
            }
            fp.push((y * w + x, dx2 + dy2));
        }
        k = k + 1;
    }
    fp
}

} // verus!
