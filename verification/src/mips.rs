//! CPU mip-chain generation for runtime-created RGBA8 terrain textures.
//!
//! Every level is a 2x2 box filter of the previous one. Odd dimensions clamp
//! the odd tap to the last texel, so non-power-of-two maps still end at a
//! single texel. The chain is laid out level after level, largest first, with
//! every level's texels contiguous (the layer-major order of a 2D texture).
//!
//! The per-texel reduction of the four summed taps is a parameter: the plain
//! colour average is provided here, other encodings (such as renormalised
//! tangent-space normals) supply their own reducer.
use vstd::prelude::*;

verus! {

/// Largest sum of the four 8-bit taps of one channel.
pub const MAX_TAP_SUM: u16 = 1020;

/// `x`, raised to one when it is smaller.
pub open spec fn at_least_one(x: int) -> int {
    if x < 1 { 1 } else { x }
}

/// Side length of mip level `k` for a base side `d`: the base side itself,
/// then halved per level and never below one texel.
pub open spec fn level_dim(d: int, k: nat) -> int
    decreases k,
{
    if k == 0 {
        d
    } else {
        at_least_one(at_least_one(level_dim(d, (k - 1) as nat)) / 2)
    }
}

/// `floor(log2(n))` for `n >= 1`, and zero below.
pub open spec fn floor_log2(n: int) -> nat
    decreases n,
{
    if n <= 1 { 0 } else { 1 + floor_log2(n / 2) }
}

/// Number of levels in the chain of a `w` x `h` base, the base included.
pub open spec fn mip_level_count(w: int, h: int) -> nat {
    1 + floor_log2(if w >= h { w } else { h })
}

/// Bytes of mip level `k` (four channels per texel).
pub open spec fn level_bytes(w: int, h: int, k: nat) -> int {
    level_dim(w, k) * level_dim(h, k) * 4
}

/// Byte offset of mip level `k` in the concatenated chain.
pub open spec fn level_offset(w: int, h: int, k: nat) -> int
    decreases k,
{
    if k == 0 { 0 } else { level_offset(w, h, (k - 1) as nat) + level_bytes(w, h, (k - 1) as nat) }
}

/// Channel `c` of the texel at column `x`, row `y` of a `w` x `h` RGBA level
/// stored from byte `start`, with both coordinates clamped to the last texel.
pub open spec fn clamped_channel(src: Seq<u8>, start: int, w: int, h: int, x: int, y: int, c: int) -> int {
    let sx = if x < w - 1 { x } else { w - 1 };
    let sy = if y < h - 1 { y } else { h - 1 };
    src[start + (sy * w + sx) * 4 + c] as int
}

/// Sum of channel `c` over the 2x2 footprint of output texel (`x`, `y`).
pub open spec fn tap_sum(src: Seq<u8>, start: int, w: int, h: int, x: int, y: int, c: int) -> int {
    clamped_channel(src, start, w, h, 2 * x, 2 * y, c)
        + clamped_channel(src, start, w, h, 2 * x + 1, 2 * y, c)
        + clamped_channel(src, start, w, h, 2 * x, 2 * y + 1, c)
        + clamped_channel(src, start, w, h, 2 * x + 1, 2 * y + 1, c)
}

/// The rounded mean of four taps: `round(sum / 4)`, halves rounded up.
pub open spec fn mean_of_taps(sum: int) -> int {
    (sum + 2) / 4
}

/// Output texel `t` of a box-filter step over the `w` x `h` level at `start`
/// is what `reduce` returns for that texel's four channel sums, written to
/// bytes `4 * t .. 4 * t + 4` of `out` from byte `out_start`.
pub open spec fn texel_reduced<F: Fn(u16, u16, u16, u16) -> (u8, u8, u8, u8)>(
    reduce: F,
    src: Seq<u8>,
    start: int,
    w: int,
    h: int,
    out: Seq<u8>,
    out_start: int,
    next_width: int,
    t: int,
) -> bool {
    let x = t % next_width;
    let y = t / next_width;
    let i = out_start + 4 * t;
    call_ensures(
        reduce,
        (
            tap_sum(src, start, w, h, x, y, 0) as u16,
            tap_sum(src, start, w, h, x, y, 1) as u16,
            tap_sum(src, start, w, h, x, y, 2) as u16,
            tap_sum(src, start, w, h, x, y, 3) as u16,
        ),
        (out[i], out[i + 1], out[i + 2], out[i + 3]),
    )
}

/// Output texel `t` of a colour box-filter step is the rounded mean of its taps.
pub open spec fn texel_averaged(
    src: Seq<u8>,
    start: int,
    w: int,
    h: int,
    out: Seq<u8>,
    out_start: int,
    next_width: int,
    t: int,
) -> bool {
    forall|c: int|
        0 <= c < 4 ==> #[trigger] out[out_start + 4 * t + c] == mean_of_taps(
            tap_sum(src, start, w, h, t % next_width, t / next_width, c),
        )
}

/// Level `k >= 1` of `data` is the reduction of level `k - 1`.
pub open spec fn level_reduced<F: Fn(u16, u16, u16, u16) -> (u8, u8, u8, u8)>(
    reduce: F,
    data: Seq<u8>,
    w: int,
    h: int,
    k: nat,
) -> bool {
    let p = (k - 1) as nat;
    forall|t: int|
        0 <= t < level_dim(w, k) * level_dim(h, k) ==> #[trigger] texel_reduced(
            reduce,
            data,
            level_offset(w, h, p),
            level_dim(w, p),
            level_dim(h, p),
            data,
            level_offset(w, h, k),
            level_dim(w, k),
            t,
        )
}

/// Level `k >= 1` of `data` is the colour average of level `k - 1`.
pub open spec fn level_averaged(data: Seq<u8>, w: int, h: int, k: nat) -> bool {
    let p = (k - 1) as nat;
    forall|t: int|
        0 <= t < level_dim(w, k) * level_dim(h, k) ==> #[trigger] texel_averaged(
            data,
            level_offset(w, h, p),
            level_dim(w, p),
            level_dim(h, p),
            data,
            level_offset(w, h, k),
            level_dim(w, k),
            t,
        )
}

/// The dimensions a chain can be built for: a non-empty base whose byte size
/// fits the 32-bit texel indexing, or the degenerate `0 x 1` / `1 x 0` base.
pub open spec fn chain_dims_supported(width: int, height: int) -> bool {
    &&& width >= 0 && height >= 0
    &&& (width >= 1 && height >= 1) || width + height == 1
    &&& width * height * 4 <= u32::MAX
}

/// `data` with `levels` levels is the complete chain of `base` built with `reduce`.
pub open spec fn is_mip_chain<F: Fn(u16, u16, u16, u16) -> (u8, u8, u8, u8)>(
    reduce: F,
    width: int,
    height: int,
    base: Seq<u8>,
    data: Seq<u8>,
    levels: nat,
) -> bool {
    &&& levels == mip_level_count(width, height)
    &&& data.len() == level_offset(width, height, levels)
    &&& data.subrange(0, base.len() as int) == base
    &&& forall|k: nat| 1 <= k < levels ==> #[trigger] level_reduced(reduce, data, width, height, k)
}

/// `data` with `levels` levels is the complete colour chain of `base`.
pub open spec fn is_color_mip_chain(
    width: int,
    height: int,
    base: Seq<u8>,
    data: Seq<u8>,
    levels: nat,
) -> bool {
    &&& levels == mip_level_count(width, height)
    &&& data.len() == level_offset(width, height, levels)
    &&& data.subrange(0, base.len() as int) == base
    &&& forall|k: nat| 1 <= k < levels ==> #[trigger] level_averaged(data, width, height, k)
}

proof fn lemma_texel_index(x: int, y: int, w: int, h: int)
    requires
        0 <= x < w,
        0 <= y < h,
    ensures
        0 <= (y * w + x) * 4,
        (y * w + x) * 4 + 4 <= w * h * 4,
{
    assert(y * w + x < w * h) by (nonlinear_arith)
        requires
            0 <= x < w,
            0 <= y < h,
    ;
    assert(0 <= y * w) by (nonlinear_arith)
        requires
            0 <= y,
            0 <= x < w,
    ;
}

proof fn lemma_row_major(t: int, nw: int, nh: int)
    requires
        0 <= t < nw * nh,
        nw >= 1,
    ensures
        0 <= t % nw < nw,
        0 <= t / nw < nh,
        t == (t / nw) * nw + t % nw,
{
    assert(0 <= t % nw < nw) by (nonlinear_arith)
        requires
            nw >= 1,
    ;
    assert(t == (t / nw) * nw + t % nw) by (nonlinear_arith)
        requires
            nw >= 1,
    ;
    assert(0 <= t / nw) by (nonlinear_arith)
        requires
            nw >= 1,
            t >= 0,
    ;
    assert(t / nw < nh) by (nonlinear_arith)
        requires
            nw >= 1,
            0 <= t < nw * nh,
    ;
}

/// A clamped tap reads inside the level, and its value is a byte.
proof fn lemma_clamped_channel_in_level(src: Seq<u8>, start: int, w: int, h: int, x: int, y: int, c: int)
    requires
        w >= 1,
        h >= 1,
        x >= 0,
        y >= 0,
        0 <= c < 4,
        start >= 0,
        start + w * h * 4 <= src.len(),
    ensures
        0 <= clamped_channel(src, start, w, h, x, y, c) <= 255,
        ({
            let sx = if x < w - 1 { x } else { w - 1 };
            let sy = if y < h - 1 { y } else { h - 1 };
            &&& start <= start + (sy * w + sx) * 4 + c
            &&& start + (sy * w + sx) * 4 + c < start + w * h * 4
        }),
{
    let sx = if x < w - 1 { x } else { w - 1 };
    let sy = if y < h - 1 { y } else { h - 1 };
    lemma_texel_index(sx, sy, w, h);
}

/// Taps only read inside the level, so two buffers that agree on the level
/// agree on every tap sum.
proof fn lemma_tap_sum_agrees(a: Seq<u8>, b: Seq<u8>, start: int, w: int, h: int, x: int, y: int, c: int)
    requires
        w >= 1,
        h >= 1,
        x >= 0,
        y >= 0,
        0 <= c < 4,
        start >= 0,
        start + w * h * 4 <= a.len(),
        start + w * h * 4 <= b.len(),
        forall|i: int| start <= i < start + w * h * 4 ==> a[i] == b[i],
    ensures
        tap_sum(a, start, w, h, x, y, c) == tap_sum(b, start, w, h, x, y, c),
        0 <= tap_sum(a, start, w, h, x, y, c) <= MAX_TAP_SUM,
{
    lemma_clamped_channel_in_level(a, start, w, h, 2 * x, 2 * y, c);
    lemma_clamped_channel_in_level(a, start, w, h, 2 * x + 1, 2 * y, c);
    lemma_clamped_channel_in_level(a, start, w, h, 2 * x, 2 * y + 1, c);
    lemma_clamped_channel_in_level(a, start, w, h, 2 * x + 1, 2 * y + 1, c);
}

proof fn lemma_level_dim_bounds(d: int, k: nat)
    requires
        d >= 1,
    ensures
        1 <= level_dim(d, k) <= d,
    decreases k,
{
    if k > 0 {
        lemma_level_dim_bounds(d, (k - 1) as nat);
    }
}

proof fn lemma_level_offset_monotone(w: int, h: int, a: nat, b: nat)
    requires
        w >= 0,
        h >= 0,
        a <= b,
    ensures
        level_offset(w, h, a) <= level_offset(w, h, b),
    decreases b,
{
    if a < b {
        lemma_level_offset_monotone(w, h, a, (b - 1) as nat);
        let p = (b - 1) as nat;
        assert(level_dim(w, p) >= 0 && level_dim(h, p) >= 0);
        assert(level_dim(w, p) * level_dim(h, p) * 4 >= 0) by (nonlinear_arith)
            requires
                level_dim(w, p) >= 0,
                level_dim(h, p) >= 0,
        ;
    }
}

proof fn lemma_floor_log2_below(n: int)
    requires
        n >= 1,
    ensures
        floor_log2(n) < n,
    decreases n,
{
    if n > 1 {
        lemma_floor_log2_below(n / 2);
    }
}

/// A level that agrees with another buffer on everything up to its end is
/// still the reduction of its predecessor in that buffer.
proof fn lemma_level_reduced_in_prefix<F: Fn(u16, u16, u16, u16) -> (u8, u8, u8, u8)>(
    reduce: F,
    old: Seq<u8>,
    new: Seq<u8>,
    w: int,
    h: int,
    k: nat,
)
    requires
        w >= 1,
        h >= 1,
        k >= 1,
        level_reduced(reduce, old, w, h, k),
        level_offset(w, h, k + 1) <= old.len() <= new.len(),
        new.subrange(0, old.len() as int) == old,
    ensures
        level_reduced(reduce, new, w, h, k),
{
    let p = (k - 1) as nat;
    let start = level_offset(w, h, p);
    let pw = level_dim(w, p);
    let ph = level_dim(h, p);
    let out_start = level_offset(w, h, k);
    let nw = level_dim(w, k);
    let nh = level_dim(h, k);
    lemma_level_dim_bounds(w, p);
    lemma_level_dim_bounds(h, p);
    lemma_level_dim_bounds(w, k);
    lemma_level_dim_bounds(h, k);
    lemma_level_offset_monotone(w, h, 0, p);
    assert forall|i: int| start <= i < start + pw * ph * 4 implies old[i] == new[i] by {
        assert(new.subrange(0, old.len() as int)[i] == new[i]);
    }
    assert forall|t: int| 0 <= t < nw * nh implies #[trigger] texel_reduced(
        reduce,
        new,
        start,
        pw,
        ph,
        new,
        out_start,
        nw,
        t,
    ) by {
        assert(texel_reduced(reduce, old, start, pw, ph, old, out_start, nw, t));
        lemma_row_major(t, nw, nh);
        let x = t % nw;
        let y = t / nw;
        lemma_tap_sum_agrees(old, new, start, pw, ph, x, y, 0);
        lemma_tap_sum_agrees(old, new, start, pw, ph, x, y, 1);
        lemma_tap_sum_agrees(old, new, start, pw, ph, x, y, 2);
        lemma_tap_sum_agrees(old, new, start, pw, ph, x, y, 3);
        let i = out_start + 4 * t;
        assert(4 * t + 4 <= nw * nh * 4) by (nonlinear_arith)
            requires
                0 <= t < nw * nh,
        ;
        assert(new.subrange(0, old.len() as int)[i] == new[i]);
        assert(new.subrange(0, old.len() as int)[i + 1] == new[i + 1]);
        assert(new.subrange(0, old.len() as int)[i + 2] == new[i + 2]);
        assert(new.subrange(0, old.len() as int)[i + 3] == new[i + 3]);
    }
}

/// The rounded mean of four taps, `round(sum / 4)` with halves rounded up.
pub fn mean_of_four(sum: u16) -> (r: u8)
    requires
        sum <= MAX_TAP_SUM,
    ensures
        r == mean_of_taps(sum as int),
{
    ((sum + 2) / 4) as u8
}

/// Sum of channel `channel` over the clamped 2x2 footprint of output texel
/// (`x`, `y`) of the `width` x `height` level stored in `src` from `start`.
fn footprint_sum(src: &[u8], start: usize, width: u32, height: u32, x: u32, y: u32, channel: usize) -> (r: u16)
    requires
        width >= 1,
        height >= 1,
        width * height * 4 <= u32::MAX,
        start + width * height * 4 <= src@.len(),
        2 * x + 1 <= u32::MAX,
        2 * y + 1 <= u32::MAX,
        channel < 4,
    ensures
        r == tap_sum(src@, start as int, width as int, height as int, x as int, y as int, channel as int),
        r <= MAX_TAP_SUM,
{
    let length = src.len();
    let mut sum: u16 = 0;
    let mut dy: u32 = 0;
    while dy < 2
        invariant
            dy <= 2,
            width >= 1,
            height >= 1,
            width * height * 4 <= u32::MAX,
            start + width * height * 4 <= src@.len(),
            2 * x + 1 <= u32::MAX,
            2 * y + 1 <= u32::MAX,
            channel < 4,
            length == src@.len(),
            sum <= 510 * dy,
            sum == (if dy >= 1 {
                clamped_channel(src@, start as int, width as int, height as int, 2 * x, 2 * y, channel as int)
                    + clamped_channel(src@, start as int, width as int, height as int, 2 * x + 1, 2 * y, channel as int)
            } else {
                0
            }) + (if dy >= 2 {
                clamped_channel(src@, start as int, width as int, height as int, 2 * x, 2 * y + 1, channel as int)
                    + clamped_channel(src@, start as int, width as int, height as int, 2 * x + 1, 2 * y + 1, channel as int)
            } else {
                0
            }),
        decreases 2 - dy,
    {
        let mut dx: u32 = 0;
        while dx < 2
            invariant
                dx <= 2,
                dy < 2,
                width >= 1,
                height >= 1,
                width * height * 4 <= u32::MAX,
                start + width * height * 4 <= src@.len(),
                2 * x + 1 <= u32::MAX,
                2 * y + 1 <= u32::MAX,
                channel < 4,
                length == src@.len(),
                sum <= 510 * dy + 255 * dx,
                sum == (if dy >= 1 {
                    clamped_channel(src@, start as int, width as int, height as int, 2 * x, 2 * y, channel as int)
                        + clamped_channel(src@, start as int, width as int, height as int, 2 * x + 1, 2 * y, channel as int)
                } else {
                    0
                }) + (if dx >= 1 {
                    clamped_channel(src@, start as int, width as int, height as int, 2 * x, 2 * y + dy, channel as int)
                } else {
                    0
                }) + (if dx >= 2 {
                    clamped_channel(src@, start as int, width as int, height as int, 2 * x + 1, 2 * y + dy, channel as int)
                } else {
                    0
                }),
            decreases 2 - dx,
        {
            let tap_x = x * 2 + dx;
            let tap_y = y * 2 + dy;
            let source_x = if tap_x < width - 1 { tap_x } else { width - 1 };
            let source_y = if tap_y < height - 1 { tap_y } else { height - 1 };
            proof {
                lemma_clamped_channel_in_level(
                    src@,
                    start as int,
                    width as int,
                    height as int,
                    tap_x as int,
                    tap_y as int,
                    channel as int,
                );
                lemma_texel_index(source_x as int, source_y as int, width as int, height as int);
            }
            let index = start + ((source_y * width + source_x) * 4) as usize + channel;
            sum = sum + src[index] as u16;
            dx = dx + 1;
        }
        dy = dy + 1;
    }
    sum
}

/// One 2x2 box-filter step over the `width` x `height` level stored in `src`
/// from byte `start`, producing a `next_width` x `next_height` level whose
/// texels are what `reduce` returns for their four channel sums.
pub fn downsample_with<F: Fn(u16, u16, u16, u16) -> (u8, u8, u8, u8)>(
    src: &[u8],
    start: usize,
    width: u32,
    height: u32,
    next_width: u32,
    next_height: u32,
    reduce: &F,
) -> (out: Vec<u8>)
    requires
        width >= 1,
        height >= 1,
        width * height * 4 <= u32::MAX,
        next_width * next_height * 4 <= u32::MAX,
        next_width * 2 <= u32::MAX,
        next_height * 2 <= u32::MAX,
        start + width * height * 4 <= src@.len(),
        forall|a: u16, b: u16, c: u16, d: u16|
            a <= MAX_TAP_SUM && b <= MAX_TAP_SUM && c <= MAX_TAP_SUM && d <= MAX_TAP_SUM
                ==> call_requires(*reduce, (a, b, c, d)),
    ensures
        out@.len() == next_width * next_height * 4,
        forall|t: int|
            0 <= t < next_width * next_height ==> #[trigger] texel_reduced(
                *reduce,
                src@,
                start as int,
                width as int,
                height as int,
                out@,
                0,
                next_width as int,
                t,
            ),
{
    let texels = next_width * next_height;
    let mut out: Vec<u8> = Vec::new();
    let mut t: u32 = 0;
    while t < texels
        invariant
            t <= texels,
            texels == next_width * next_height,
            out@.len() == 4 * t,
            width >= 1,
            height >= 1,
            width * height * 4 <= u32::MAX,
            next_width * next_height * 4 <= u32::MAX,
            next_width * 2 <= u32::MAX,
            next_height * 2 <= u32::MAX,
            start + width * height * 4 <= src@.len(),
            forall|a: u16, b: u16, c: u16, d: u16|
                a <= MAX_TAP_SUM && b <= MAX_TAP_SUM && c <= MAX_TAP_SUM && d <= MAX_TAP_SUM
                    ==> call_requires(*reduce, (a, b, c, d)),
            forall|s: int|
                0 <= s < t ==> #[trigger] texel_reduced(
                    *reduce,
                    src@,
                    start as int,
                    width as int,
                    height as int,
                    out@,
                    0,
                    next_width as int,
                    s,
                ),
        decreases texels - t,
    {
        proof {
            lemma_row_major(t as int, next_width as int, next_height as int);
        }
        let x = t % next_width;
        let y = t / next_width;
        let s0 = footprint_sum(src, start, width, height, x, y, 0);
        let s1 = footprint_sum(src, start, width, height, x, y, 1);
        let s2 = footprint_sum(src, start, width, height, x, y, 2);
        let s3 = footprint_sum(src, start, width, height, x, y, 3);
        let (r0, r1, r2, r3) = reduce(s0, s1, s2, s3);
        let ghost before = out@;
        out.push(r0);
        out.push(r1);
        out.push(r2);
        out.push(r3);
        proof {
            assert forall|s: int| 0 <= s < t + 1 implies #[trigger] texel_reduced(
                *reduce,
                src@,
                start as int,
                width as int,
                height as int,
                out@,
                0,
                next_width as int,
                s,
            ) by {
                if s < t {
                    assert(texel_reduced(
                        *reduce,
                        src@,
                        start as int,
                        width as int,
                        height as int,
                        before,
                        0,
                        next_width as int,
                        s,
                    ));
                    assert(out@[4 * s] == before[4 * s]);
                    assert(out@[4 * s + 1] == before[4 * s + 1]);
                    assert(out@[4 * s + 2] == before[4 * s + 2]);
                    assert(out@[4 * s + 3] == before[4 * s + 3]);
                }
            }
        }
        t = t + 1;
    }
    out
}

/// One 2x2 colour box-filter step: every output channel is the rounded mean
/// of its four (clamped) source taps.
pub fn downsample(src: &[u8], width: u32, height: u32, next_width: u32, next_height: u32) -> (out: Vec<u8>)
    requires
        width >= 1,
        height >= 1,
        width * height * 4 <= u32::MAX,
        next_width * next_height * 4 <= u32::MAX,
        next_width * 2 <= u32::MAX,
        next_height * 2 <= u32::MAX,
        width * height * 4 <= src@.len(),
    ensures
        out@.len() == next_width * next_height * 4,
        forall|t: int|
            0 <= t < next_width * next_height ==> #[trigger] texel_averaged(
                src@,
                0,
                width as int,
                height as int,
                out@,
                0,
                next_width as int,
                t,
            ),
{
    let average = |a: u16, b: u16, c: u16, d: u16| -> (r: (u8, u8, u8, u8))
        requires
            a <= MAX_TAP_SUM,
            b <= MAX_TAP_SUM,
            c <= MAX_TAP_SUM,
            d <= MAX_TAP_SUM,
        ensures
            r == (
                mean_of_taps(a as int) as u8,
                mean_of_taps(b as int) as u8,
                mean_of_taps(c as int) as u8,
                mean_of_taps(d as int) as u8,
            ),
        { (mean_of_four(a), mean_of_four(b), mean_of_four(c), mean_of_four(d)) };
    let out = downsample_with(src, 0, width, height, next_width, next_height, &average);
    proof {
        assert forall|t: int| 0 <= t < next_width * next_height implies #[trigger] texel_averaged(
            src@,
            0,
            width as int,
            height as int,
            out@,
            0,
            next_width as int,
            t,
        ) by {
            assert(texel_reduced(average, src@, 0, width as int, height as int, out@, 0, next_width as int, t));
            lemma_row_major(t, next_width as int, next_height as int);
            let x = t % (next_width as int);
            let y = t / (next_width as int);
            assert forall|c: int| 0 <= c < 4 implies #[trigger] out@[4 * t + c] == mean_of_taps(
                tap_sum(src@, 0, width as int, height as int, x, y, c),
            ) by {
                lemma_tap_sum_agrees(src@, src@, 0, width as int, height as int, x, y, c);
                lemma_tap_sum_agrees(src@, src@, 0, width as int, height as int, x, y, 0);
                lemma_tap_sum_agrees(src@, src@, 0, width as int, height as int, x, y, 1);
                lemma_tap_sum_agrees(src@, src@, 0, width as int, height as int, x, y, 2);
                lemma_tap_sum_agrees(src@, src@, 0, width as int, height as int, x, y, 3);
                assert(out@[4 * t + 0] == out@[4 * t]);
            }
        }
    }
    out
}

/// Build the complete mip chain of a `width` x `height` RGBA8 `base`,
/// reducing every 2x2 footprint with `reduce`. Returns the concatenated level
/// data (level 0 first, equal to `base`) and the level count, which is
/// `1 + floor(log2(max(width, height)))`.
pub fn mip_chain_rgba8_with<F: Fn(u16, u16, u16, u16) -> (u8, u8, u8, u8)>(
    width: u32,
    height: u32,
    base: &[u8],
    reduce: &F,
) -> (r: (Vec<u8>, u32))
    requires
        chain_dims_supported(width as int, height as int),
        base@.len() == width * height * 4,
        forall|a: u16, b: u16, c: u16, d: u16|
            a <= MAX_TAP_SUM && b <= MAX_TAP_SUM && c <= MAX_TAP_SUM && d <= MAX_TAP_SUM
                ==> call_requires(*reduce, (a, b, c, d)),
    ensures
        is_mip_chain(*reduce, width as int, height as int, base@, r.0@, r.1 as nat),
{
    let mut data: Vec<u8> = Vec::new();
    let mut i: usize = 0;
    while i < base.len()
        invariant
            i <= base@.len(),
            data@ == base@.subrange(0, i as int),
        decreases base@.len() - i,
    {
        data.push(base[i]);
        i = i + 1;
    }
    let ghost w = width as int;
    let ghost h = height as int;
    let mut levels: u32 = 1;
    let mut level_width: u32 = if width > 1 { width } else { 1 };
    let mut level_height: u32 = if height > 1 { height } else { 1 };
    let mut level_start: usize = 0;
    proof {
        assert(data@.subrange(0, base@.len() as int) == base@);
        assert(level_offset(w, h, 1) == level_offset(w, h, 0) + level_bytes(w, h, 0));
        if w >= 1 && h >= 1 {
            lemma_floor_log2_below(if w >= h { w } else { h });
        }
    }
    while level_width > 1 || level_height > 1
        invariant
            chain_dims_supported(w, h),
            w == width,
            h == height,
            base@.len() == w * h * 4,
            forall|a: u16, b: u16, c: u16, d: u16|
                a <= MAX_TAP_SUM && b <= MAX_TAP_SUM && c <= MAX_TAP_SUM && d <= MAX_TAP_SUM
                    ==> call_requires(*reduce, (a, b, c, d)),
            1 <= levels,
            (levels - 1) + floor_log2(if level_width >= level_height { level_width as int } else { level_height as int })
                == floor_log2(if w >= h { w } else { h }),
            floor_log2(if w >= h { w } else { h }) < u32::MAX,
            level_width == at_least_one(level_dim(w, (levels - 1) as nat)),
            level_height == at_least_one(level_dim(h, (levels - 1) as nat)),
            level_width <= at_least_one(w),
            level_height <= at_least_one(h),
            level_width >= 1,
            level_height >= 1,
            (w < 1 || h < 1) ==> level_width == 1 && level_height == 1,
            level_start == level_offset(w, h, (levels - 1) as nat),
            data@.len() == level_offset(w, h, levels as nat),
            base@.len() <= data@.len(),
            data@.subrange(0, base@.len() as int) == base@,
            forall|k: nat| 1 <= k < levels ==> #[trigger] level_reduced(*reduce, data@, w, h, k),
        decreases level_width + level_height,
    {
        let next_width = if level_width / 2 > 1 { level_width / 2 } else { 1 };
        let next_height = if level_height / 2 > 1 { level_height / 2 } else { 1 };
        let ghost previous = (levels - 1) as nat;
        proof {
            lemma_level_dim_bounds(w, previous);
            lemma_level_dim_bounds(h, previous);
            assert(level_width * level_height * 4 <= w * h * 4) by (nonlinear_arith)
                requires
                    1 <= level_width <= w,
                    1 <= level_height <= h,
            ;
            assert(next_width * next_height * 4 <= w * h * 4) by (nonlinear_arith)
                requires
                    1 <= next_width <= level_width <= w,
                    1 <= next_height <= level_height <= h,
            ;
            assert(level_offset(w, h, levels as nat) == level_start + level_width * level_height * 4);
        }
        let next = downsample_with(
            data.as_slice(),
            level_start,
            level_width,
            level_height,
            next_width,
            next_height,
            reduce,
        );
        let ghost old_data = data@;
        let ghost next_data = next@;
        level_start = data.len();
        let mut next = next;
        data.append(&mut next);
        proof {
            let current = levels as nat;
            assert(level_dim(w, current) == next_width);
            assert(level_dim(h, current) == next_height);
            assert(data@.subrange(0, old_data.len() as int) == old_data);
            assert(data@.subrange(0, base@.len() as int) == old_data.subrange(0, base@.len() as int));
            assert forall|k: nat| 1 <= k < levels + 1 implies #[trigger] level_reduced(*reduce, data@, w, h, k) by {
                if k < levels {
                    lemma_level_offset_monotone(w, h, k + 1, current);
                    lemma_level_reduced_in_prefix(*reduce, old_data, data@, w, h, k);
                } else {
                    let start = level_offset(w, h, previous);
                    assert forall|t: int| 0 <= t < next_width * next_height implies #[trigger] texel_reduced(
                        *reduce,
                        data@,
                        start,
                        level_dim(w, previous),
                        level_dim(h, previous),
                        data@,
                        level_offset(w, h, current),
                        level_dim(w, current),
                        t,
                    ) by {
                        assert(texel_reduced(
                            *reduce,
                            old_data,
                            start,
                            level_width as int,
                            level_height as int,
                            next_data,
                            0,
                            next_width as int,
                            t,
                        ));
                        lemma_row_major(t, next_width as int, next_height as int);
                        let x = t % (next_width as int);
                        let y = t / (next_width as int);
                        assert forall|i: int| start <= i < start + level_width * level_height * 4 implies old_data[i]
                            == data@[i] by {
                            assert(data@.subrange(0, old_data.len() as int)[i] == data@[i]);
                        }
                        lemma_tap_sum_agrees(old_data, data@, start, level_width as int, level_height as int, x, y, 0);
                        lemma_tap_sum_agrees(old_data, data@, start, level_width as int, level_height as int, x, y, 1);
                        lemma_tap_sum_agrees(old_data, data@, start, level_width as int, level_height as int, x, y, 2);
                        lemma_tap_sum_agrees(old_data, data@, start, level_width as int, level_height as int, x, y, 3);
                        assert(4 * t + 4 <= next_width * next_height * 4) by (nonlinear_arith)
                            requires
                                0 <= t < next_width * next_height,
                        ;
                        let o = level_offset(w, h, current);
                        assert(data@[o + 4 * t] == next_data[4 * t]);
                        assert(data@[o + 4 * t + 1] == next_data[4 * t + 1]);
                        assert(data@[o + 4 * t + 2] == next_data[4 * t + 2]);
                        assert(data@[o + 4 * t + 3] == next_data[4 * t + 3]);
                    }
                }
            }
            let m = if level_width >= level_height { level_width as int } else { level_height as int };
            assert((if next_width >= next_height { next_width as int } else { next_height as int }) == m / 2);
            assert(floor_log2(m) == 1 + floor_log2(m / 2));
        }
        levels = levels + 1;
        level_width = next_width;
        level_height = next_height;
    }
    proof {
        let m = if level_width >= level_height { level_width as int } else { level_height as int };
        assert(m == 1);
    }
    (data, levels)
}

/// Build the complete colour mip chain of a `width` x `height` RGBA8 `base`:
/// every texel of level `k + 1` is the rounded mean of its clamped 2x2
/// footprint in level `k`. Returns the concatenated level data (level 0
/// first, equal to `base`) and the level count.
pub fn mip_chain_rgba8(width: u32, height: u32, base: &[u8]) -> (r: (Vec<u8>, u32))
    requires
        chain_dims_supported(width as int, height as int),
        base@.len() == width * height * 4,
    ensures
        is_color_mip_chain(width as int, height as int, base@, r.0@, r.1 as nat),
{
    let average = |a: u16, b: u16, c: u16, d: u16| -> (r: (u8, u8, u8, u8))
        requires
            a <= MAX_TAP_SUM,
            b <= MAX_TAP_SUM,
            c <= MAX_TAP_SUM,
            d <= MAX_TAP_SUM,
        ensures
            r == (
                mean_of_taps(a as int) as u8,
                mean_of_taps(b as int) as u8,
                mean_of_taps(c as int) as u8,
                mean_of_taps(d as int) as u8,
            ),
        { (mean_of_four(a), mean_of_four(b), mean_of_four(c), mean_of_four(d)) };
    let (data, levels) = mip_chain_rgba8_with(width, height, base, &average);
    proof {
        let w = width as int;
        let h = height as int;
        assert forall|k: nat| 1 <= k < levels implies #[trigger] level_averaged(data@, w, h, k) by {
            assert(level_reduced(average, data@, w, h, k));
            let p = (k - 1) as nat;
            let start = level_offset(w, h, p);
            let pw = level_dim(w, p);
            let ph = level_dim(h, p);
            let nw = level_dim(w, k);
            let nh = level_dim(h, k);
            lemma_level_dim_bounds(w, p);
            lemma_level_dim_bounds(h, p);
            lemma_level_dim_bounds(w, k);
            lemma_level_dim_bounds(h, k);
            lemma_level_offset_monotone(w, h, k + 1, levels as nat);
            lemma_level_offset_monotone(w, h, 0, p);
            assert forall|t: int| 0 <= t < nw * nh implies #[trigger] texel_averaged(
                data@,
                start,
                pw,
                ph,
                data@,
                level_offset(w, h, k),
                nw,
                t,
            ) by {
                assert(texel_reduced(average, data@, start, pw, ph, data@, level_offset(w, h, k), nw, t));
                lemma_row_major(t, nw, nh);
                let x = t % nw;
                let y = t / nw;
                lemma_tap_sum_agrees(data@, data@, start, pw, ph, x, y, 0);
                lemma_tap_sum_agrees(data@, data@, start, pw, ph, x, y, 1);
                lemma_tap_sum_agrees(data@, data@, start, pw, ph, x, y, 2);
                lemma_tap_sum_agrees(data@, data@, start, pw, ph, x, y, 3);
                let o = level_offset(w, h, k);
                assert(data@[o + 4 * t + 0] == data@[o + 4 * t]);
            }
        }
    }
    (data, levels)
}

proof fn lemma_level_offset_aligned(w: int, h: int, k: nat)
    ensures
        level_offset(w, h, k) % 4 == 0,
    decreases k,
{
    if k > 0 {
        let p = (k - 1) as nat;
        lemma_level_offset_aligned(w, h, p);
        let a = level_dim(w, p);
        let b = level_dim(h, p);
        let o = level_offset(w, h, p);
        assert((o + a * b * 4) % 4 == 0) by (nonlinear_arith)
            requires
                o % 4 == 0,
        ;
    }
}

/// Every byte before the end of level `levels - 1` lies in some level.
proof fn lemma_byte_in_level(w: int, h: int, levels: nat, i: int) -> (k: nat)
    requires
        w >= 0,
        h >= 0,
        0 <= i < level_offset(w, h, levels),
    ensures
        k < levels,
        level_offset(w, h, k) <= i < level_offset(w, h, k + 1),
    decreases levels,
{
    let p = (levels - 1) as nat;
    if i < level_offset(w, h, p) {
        lemma_byte_in_level(w, h, p, i)
    } else {
        p
    }
}

/// Locate byte `i` of level `k` as channel `c` of texel `t`.
proof fn lemma_texel_of_byte(w: int, h: int, k: nat, i: int) -> (tc: (int, int))
    requires
        w >= 0,
        h >= 0,
        level_offset(w, h, k) <= i < level_offset(w, h, k + 1),
    ensures
        0 <= tc.0 < level_dim(w, k) * level_dim(h, k),
        0 <= tc.1 < 4,
        i == level_offset(w, h, k) + 4 * tc.0 + tc.1,
        i % 4 == tc.1,
{
    let j = i - level_offset(w, h, k);
    let n = level_dim(w, k) * level_dim(h, k);
    lemma_level_offset_aligned(w, h, k);
    assert(j / 4 < n && j == 4 * (j / 4) + j % 4 && 0 <= j % 4 < 4 && 0 <= j / 4) by (nonlinear_arith)
        requires
            0 <= j < n * 4,
    ;
    assert(i % 4 == j % 4) by (nonlinear_arith)
        requires
            i == level_offset(w, h, k) + j,
            level_offset(w, h, k) % 4 == 0,
            j >= 0,
    ;
    (j / 4, j % 4)
}

/// A base made of one repeated texel yields a chain in which every level is
/// that same texel: averaging four equal taps reproduces the tap.
pub proof fn lemma_uniform_base_stays_uniform(
    width: int,
    height: int,
    base: Seq<u8>,
    data: Seq<u8>,
    levels: nat,
    texel: Seq<u8>,
)
    requires
        chain_dims_supported(width, height),
        base.len() == width * height * 4,
        is_color_mip_chain(width, height, base, data, levels),
        texel.len() == 4,
        forall|i: int| 0 <= i < base.len() ==> #[trigger] base[i] == texel[i % 4],
    ensures
        forall|i: int| 0 <= i < data.len() ==> #[trigger] data[i] == texel[i % 4],
{
    assert forall|i: int| 0 <= i < data.len() implies #[trigger] data[i] == texel[i % 4] by {
        lemma_uniform_up_to(width, height, base, data, levels, texel, levels);
    }
}

proof fn lemma_uniform_up_to(
    width: int,
    height: int,
    base: Seq<u8>,
    data: Seq<u8>,
    levels: nat,
    texel: Seq<u8>,
    upto: nat,
)
    requires
        chain_dims_supported(width, height),
        base.len() == width * height * 4,
        is_color_mip_chain(width, height, base, data, levels),
        texel.len() == 4,
        forall|i: int| 0 <= i < base.len() ==> #[trigger] base[i] == texel[i % 4],
        1 <= upto <= levels,
    ensures
        forall|i: int| 0 <= i < level_offset(width, height, upto) ==> #[trigger] data[i] == texel[i % 4],
    decreases upto,
{
    let w = width;
    let h = height;
    lemma_level_offset_monotone(w, h, upto, levels);
    lemma_level_offset_monotone(w, h, 1, levels);
    assert(level_offset(w, h, 0) == 0);
    assert(level_dim(w, 0) == w && level_dim(h, 0) == h);
    assert(level_offset(w, h, 1) == base.len());
    if upto == 1 {
        assert forall|i: int| 0 <= i < level_offset(w, h, upto) implies #[trigger] data[i] == texel[i % 4] by {
            assert(data.subrange(0, base.len() as int)[i] == data[i]);
        }
    } else {
        let k = (upto - 1) as nat;
        let p = (k - 1) as nat;
        lemma_uniform_up_to(width, height, base, data, levels, texel, k);
        assert(w >= 1 && h >= 1) by {
            if !(w >= 1 && h >= 1) {
                assert((if w >= h { w } else { h }) == 1);
                assert(floor_log2(1) == 0);
            }
        }
        assert(level_averaged(data, w, h, k));
        let start = level_offset(w, h, p);
        let pw = level_dim(w, p);
        let ph = level_dim(h, p);
        lemma_level_dim_bounds(w, p);
        lemma_level_dim_bounds(h, p);
        lemma_level_dim_bounds(w, k);
        lemma_level_dim_bounds(h, k);
        lemma_level_offset_aligned(w, h, p);
        lemma_level_offset_monotone(w, h, 0, p);
        assert forall|i: int| 0 <= i < level_offset(w, h, upto) implies #[trigger] data[i] == texel[i % 4] by {
            if i >= level_offset(w, h, k) {
                let tc = lemma_texel_of_byte(w, h, k, i);
                let t = tc.0;
                let c = tc.1;
                assert(texel_averaged(data, start, pw, ph, data, level_offset(w, h, k), level_dim(w, k), t));
                assert(data[level_offset(w, h, k) + 4 * t + c] == mean_of_taps(
                    tap_sum(data, start, pw, ph, t % level_dim(w, k), t / level_dim(w, k), c),
                ));
                let x = t % level_dim(w, k);
                let y = t / level_dim(w, k);
                lemma_row_major(t, level_dim(w, k), level_dim(h, k));
                assert forall|xx: int, yy: int| xx >= 0 && yy >= 0 implies #[trigger] clamped_channel(
                    data,
                    start,
                    pw,
                    ph,
                    xx,
                    yy,
                    c,
                ) == texel[c] as int by {
                    lemma_clamped_channel_in_level(data, start, pw, ph, xx, yy, c);
                    let sx = if xx < pw - 1 { xx } else { pw - 1 };
                    let sy = if yy < ph - 1 { yy } else { ph - 1 };
                    let j = start + (sy * pw + sx) * 4 + c;
                    assert(j % 4 == c) by (nonlinear_arith)
                        requires
                            j == start + (sy * pw + sx) * 4 + c,
                            start % 4 == 0,
                            0 <= c < 4,
                            sy * pw + sx >= 0,
                    ;
                    assert(j < level_offset(w, h, k));
                }
                assert(clamped_channel(data, start, pw, ph, 2 * x, 2 * y, c) == texel[c] as int);
                assert(clamped_channel(data, start, pw, ph, 2 * x + 1, 2 * y, c) == texel[c] as int);
                assert(clamped_channel(data, start, pw, ph, 2 * x, 2 * y + 1, c) == texel[c] as int);
                assert(clamped_channel(data, start, pw, ph, 2 * x + 1, 2 * y + 1, c) == texel[c] as int);
            }
        }
    }
}

/// The colour chain of a base is unique: two chains of the same base (the
/// results of two runs) are byte-for-byte equal.
pub proof fn lemma_color_chain_is_deterministic(
    width: int,
    height: int,
    base: Seq<u8>,
    first: Seq<u8>,
    first_levels: nat,
    second: Seq<u8>,
    second_levels: nat,
)
    requires
        chain_dims_supported(width, height),
        base.len() == width * height * 4,
        is_color_mip_chain(width, height, base, first, first_levels),
        is_color_mip_chain(width, height, base, second, second_levels),
    ensures
        first_levels == second_levels,
        first == second,
{
    lemma_chains_agree_up_to(width, height, base, first, second, first_levels, first_levels);
    assert(first =~= second);
}

proof fn lemma_chains_agree_up_to(
    width: int,
    height: int,
    base: Seq<u8>,
    first: Seq<u8>,
    second: Seq<u8>,
    levels: nat,
    upto: nat,
)
    requires
        chain_dims_supported(width, height),
        base.len() == width * height * 4,
        is_color_mip_chain(width, height, base, first, levels),
        is_color_mip_chain(width, height, base, second, levels),
        1 <= upto <= levels,
    ensures
        forall|i: int| 0 <= i < level_offset(width, height, upto) ==> #[trigger] first[i] == second[i],
    decreases upto,
{
    let w = width;
    let h = height;
    lemma_level_offset_monotone(w, h, upto, levels);
    lemma_level_offset_monotone(w, h, 1, levels);
    assert(level_offset(w, h, 0) == 0);
    assert(level_dim(w, 0) == w && level_dim(h, 0) == h);
    assert(level_offset(w, h, 1) == base.len());
    if upto == 1 {
        assert forall|i: int| 0 <= i < level_offset(w, h, upto) implies #[trigger] first[i] == second[i] by {
            assert(first.subrange(0, base.len() as int)[i] == first[i]);
            assert(second.subrange(0, base.len() as int)[i] == second[i]);
        }
    } else {
        let k = (upto - 1) as nat;
        let p = (k - 1) as nat;
        lemma_chains_agree_up_to(width, height, base, first, second, levels, k);
        assert(w >= 1 && h >= 1) by {
            if !(w >= 1 && h >= 1) {
                assert((if w >= h { w } else { h }) == 1);
                assert(floor_log2(1) == 0);
            }
        }
        assert(level_averaged(first, w, h, k));
        assert(level_averaged(second, w, h, k));
        let start = level_offset(w, h, p);
        let pw = level_dim(w, p);
        let ph = level_dim(h, p);
        lemma_level_dim_bounds(w, p);
        lemma_level_dim_bounds(h, p);
        lemma_level_dim_bounds(w, k);
        lemma_level_dim_bounds(h, k);
        lemma_level_offset_monotone(w, h, 0, p);
        lemma_level_offset_monotone(w, h, upto, levels);
        assert forall|i: int| 0 <= i < level_offset(w, h, upto) implies #[trigger] first[i] == second[i] by {
            if i >= level_offset(w, h, k) {
                let tc = lemma_texel_of_byte(w, h, k, i);
                let t = tc.0;
                let c = tc.1;
                assert(texel_averaged(first, start, pw, ph, first, level_offset(w, h, k), level_dim(w, k), t));
                assert(texel_averaged(second, start, pw, ph, second, level_offset(w, h, k), level_dim(w, k), t));
                assert(first[level_offset(w, h, k) + 4 * t + c] == mean_of_taps(
                    tap_sum(first, start, pw, ph, t % level_dim(w, k), t / level_dim(w, k), c),
                ));
                assert(second[level_offset(w, h, k) + 4 * t + c] == mean_of_taps(
                    tap_sum(second, start, pw, ph, t % level_dim(w, k), t / level_dim(w, k), c),
                ));
                lemma_row_major(t, level_dim(w, k), level_dim(h, k));
                lemma_tap_sum_agrees(
                    first,
                    second,
                    start,
                    pw,
                    ph,
                    t % level_dim(w, k),
                    t / level_dim(w, k),
                    c,
                );
            }
        }
    }
}

} // verus!
