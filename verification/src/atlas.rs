//! Painting primitives of the procedural foliage atlas.
//!
//! The atlas is a square RGBA8 image, `res` texels per side, stored row by
//! row. Every painted texel is white, so per-vertex colour alone controls the
//! hue and only the alpha channel carries shape.
use vstd::prelude::*;

verus! {

/// First byte of texel (`x`, `y`) in a `res`-wide RGBA8 image.
pub open spec fn texel_start(res: int, x: int, y: int) -> int {
    (y * res + x) * 4
}

/// `data` with texel (`x`, `y`) set to white with the given alpha, or `data`
/// unchanged when the texel lies outside the `res` x `res` image.
pub open spec fn painted(data: Seq<u8>, res: int, x: int, y: int, alpha: u8) -> Seq<u8> {
    if x < res && y < res {
        let i = texel_start(res, x, y);
        data.update(i, 255).update(i + 1, 255).update(i + 2, 255).update(i + 3, alpha)
    } else {
        data
    }
}

/// Whether byte `i` of a `res`-wide image belongs to a texel inside the
/// square of side `size` whose top-left texel is (`ox`, `oy`).
pub open spec fn byte_in_region(res: int, ox: int, oy: int, size: int, i: int) -> bool {
    let t = i / 4;
    let x = t % res;
    let y = t / res;
    &&& 0 <= i < res * res * 4
    &&& ox <= x < ox + size
    &&& oy <= y < oy + size
}

proof fn lemma_texel_bytes(res: int, x: int, y: int)
    requires
        0 <= x < res,
        0 <= y < res,
    ensures
        0 <= texel_start(res, x, y),
        texel_start(res, x, y) + 4 <= res * res * 4,
        forall|c: int|
            0 <= c < 4 ==> {
                let i = #[trigger] (texel_start(res, x, y) + c);
                &&& i / 4 == y * res + x
                &&& (i / 4) % res == x
                &&& (i / 4) / res == y
                &&& i % 4 == c
            },
{
    assert(0 <= y * res + x < res * res) by (nonlinear_arith)
        requires
            0 <= x < res,
            0 <= y < res,
    ;
    assert forall|c: int| 0 <= c < 4 implies {
        let i = #[trigger] (texel_start(res, x, y) + c);
        &&& i / 4 == y * res + x
        &&& (i / 4) % res == x
        &&& (i / 4) / res == y
        &&& i % 4 == c
    } by {
        let t = y * res + x;
        assert((t * 4 + c) / 4 == t && (t * 4 + c) % 4 == c) by (nonlinear_arith)
            requires
                0 <= c < 4,
                t >= 0,
        ;
        assert(t % res == x && t / res == y) by (nonlinear_arith)
            requires
                t == y * res + x,
                0 <= x < res,
                0 <= y,
        ;
    }
}

/// Paint texel (`x`, `y`) white with the given alpha. Texels outside the
/// `res` x `res` image are ignored.
pub fn set_alpha(data: &mut [u8], res: usize, x: usize, y: usize, alpha: u8)
    requires
        old(data)@.len() >= res * res * 4,
    ensures
        final(data)@ == painted(old(data)@, res as int, x as int, y as int, alpha),
{
    let length = data.len();
    if x >= res || y >= res {
        return;
    }
    proof {
        lemma_texel_bytes(res as int, x as int, y as int);
        assert(y * res <= y * res + x);
    }
    let index = (y * res + x) * 4;
    data[index] = 255;
    data[index + 1] = 255;
    data[index + 2] = 255;
    data[index + 3] = alpha;
}

/// Paint texel (`x`, `y`) white with the given alpha only where its current
/// alpha is lower, so overlapping shapes union instead of erasing each other.
/// Texels outside the image are ignored.
pub fn raise_alpha(data: &mut [u8], res: usize, x: usize, y: usize, alpha: u8)
    requires
        old(data)@.len() >= res * res * 4,
    ensures
        final(data)@ == if x < res && y < res && alpha > old(data)@[texel_start(res as int, x as int, y as int) + 3] {
            painted(old(data)@, res as int, x as int, y as int, alpha)
        } else {
            old(data)@
        },
        x < res && y < res ==> {
            let a = texel_start(res as int, x as int, y as int) + 3;
            final(data)@[a] == if alpha > old(data)@[a] { alpha } else { old(data)@[a] }
        },
{
    let length = data.len();
    if x >= res || y >= res {
        return;
    }
    proof {
        lemma_texel_bytes(res as int, x as int, y as int);
        assert(y * res <= y * res + x);
    }
    let index = (y * res + x) * 4;
    if alpha > data[index + 3] {
        set_alpha(data, res, x, y, alpha);
    }
}

/// Column of the texel that byte `i` belongs to.
pub open spec fn byte_column(res: int, i: int) -> int {
    (i / 4) % res
}

/// Row of the texel that byte `i` belongs to.
pub open spec fn byte_row(res: int, i: int) -> int {
    (i / 4) / res
}

proof fn lemma_byte_texel(res: int, i: int)
    requires
        res >= 1,
        i >= 0,
    ensures
        0 <= byte_column(res, i) < res,
        0 <= byte_row(res, i),
        texel_start(res, byte_column(res, i), byte_row(res, i)) <= i,
        i < texel_start(res, byte_column(res, i), byte_row(res, i)) + 4,
        i % 4 == i - texel_start(res, byte_column(res, i), byte_row(res, i)),
        i < res * res * 4 ==> byte_row(res, i) < res,
{
    let t = i / 4;
    assert(t == (t / res) * res + t % res && 0 <= t % res < res && 0 <= t / res) by (nonlinear_arith)
        requires
            res >= 1,
            t >= 0,
    ;
    assert(i == t * 4 + i % 4 && 0 <= i % 4 < 4 && t >= 0) by (nonlinear_arith)
        requires
            i >= 0,
            t == i / 4,
    ;
    if i < res * res * 4 {
        assert(t / res < res) by (nonlinear_arith)
            requires
                t == i / 4,
                0 <= i < res * res * 4,
                res >= 1,
        ;
    }
}

/// The byte value that painting writes: white, with the given alpha.
pub open spec fn paint_byte(i: int, alpha: u8) -> u8 {
    if i % 4 == 3 { alpha } else { 255u8 }
}

/// Paint every texel of the square of side `size` with top-left texel
/// (`ox`, `oy`) white with the given alpha, clipped to the image.
pub fn fill_region(data: &mut [u8], res: usize, ox: usize, oy: usize, size: usize, alpha: u8)
    requires
        old(data)@.len() >= res * res * 4,
        ox + size <= usize::MAX,
        oy + size <= usize::MAX,
    ensures
        final(data)@.len() == old(data)@.len(),
        forall|i: int|
            0 <= i < old(data)@.len() ==> #[trigger] final(data)@[i] == if byte_in_region(
                res as int,
                ox as int,
                oy as int,
                size as int,
                i,
            ) {
                paint_byte(i, alpha)
            } else {
                old(data)@[i]
            },
{
    let ghost initial = data@;
    let x_end = if ox + size < res { ox + size } else { res };
    let y_end = if oy + size < res { oy + size } else { res };
    let mut y = oy;
    while y < y_end
        invariant
            data@.len() == initial.len(),
            initial.len() >= res * res * 4,
            oy <= y,
            y <= y_end || y == oy,
            y_end <= res,
            x_end <= res,
            x_end == (if ox + size < res { ox + size } else { res as int }),
            y_end == (if oy + size < res { oy + size } else { res as int }),
            forall|i: int|
                0 <= i < initial.len() ==> #[trigger] data@[i] == if 0 <= i < res * res * 4 && ox <= byte_column(
                    res as int,
                    i,
                ) < x_end && oy <= byte_row(res as int, i) < y {
                    paint_byte(i, alpha)
                } else {
                    initial[i]
                },
        decreases y_end - y,
    {
        let mut x = ox;
        while x < x_end
            invariant
                data@.len() == initial.len(),
                initial.len() >= res * res * 4,
                oy <= y < y_end,
                ox <= x,
                x <= x_end || x == ox,
                y_end <= res,
                x_end <= res,
                forall|i: int|
                    0 <= i < initial.len() ==> #[trigger] data@[i] == if 0 <= i < res * res * 4 && ((ox
                        <= byte_column(res as int, i) < x_end && oy <= byte_row(res as int, i) < y) || (ox
                        <= byte_column(res as int, i) < x && byte_row(res as int, i) == y)) {
                        paint_byte(i, alpha)
                    } else {
                        initial[i]
                    },
            decreases x_end - x,
        {
            let ghost before = data@;
            proof {
                lemma_texel_bytes(res as int, x as int, y as int);
            }
            set_alpha(data, res, x, y, alpha);
            proof {
                let s = texel_start(res as int, x as int, y as int);
                assert forall|i: int| 0 <= i < initial.len() implies #[trigger] data@[i] == if 0 <= i < res
                    * res * 4 && ((ox <= byte_column(res as int, i) < x_end && oy <= byte_row(res as int, i) < y)
                    || (ox <= byte_column(res as int, i) < x + 1 && byte_row(res as int, i) == y)) {
                    paint_byte(i, alpha)
                } else {
                    initial[i]
                } by {
                    lemma_byte_texel(res as int, i);
                    if s <= i < s + 4 {
                        let c = i - s;
                        assert(i == s + c);
                    } else {
                        assert(data@[i] == before[i]);
                        if byte_column(res as int, i) == x && byte_row(res as int, i) == y {
                            assert(false);
                        }
                    }
                }
            }
            x = x + 1;
        }
        proof {
            assert forall|i: int| 0 <= i < initial.len() implies #[trigger] data@[i] == if 0 <= i < res * res * 4
                && ox <= byte_column(res as int, i) < x_end && oy <= byte_row(res as int, i) < y + 1 {
                paint_byte(i, alpha)
            } else {
                initial[i]
            } by {
                lemma_byte_texel(res as int, i);
            }
        }
        y = y + 1;
    }
    proof {
        assert forall|i: int| 0 <= i < initial.len() implies #[trigger] data@[i] == if byte_in_region(
            res as int,
            ox as int,
            oy as int,
            size as int,
            i,
        ) {
            paint_byte(i, alpha)
        } else {
            initial[i]
        } by {
            if res >= 1 {
                lemma_byte_texel(res as int, i);
            }
        }
    }
}

/// Whether byte `i` of a `res`-wide image belongs to a texel of row `y`
/// with column in `x0 ..= x1`.
pub open spec fn byte_in_row_span(res: int, x0: int, x1: int, y: int, i: int) -> bool {
    &&& 0 <= i < res * res * 4
    &&& byte_row(res, i) == y
    &&& x0 <= byte_column(res, i) <= x1
}

/// Raise the alpha of texels `x0 ..= x1` of row `y` (clipped to the image):
/// a texel whose alpha is lower becomes white with the given alpha, the
/// others keep their bytes. Rasterised shapes are painted span by span.
pub fn raise_alpha_row(data: &mut [u8], res: usize, x0: usize, x1: usize, y: usize, alpha: u8)
    requires
        old(data)@.len() >= res * res * 4,
    ensures
        final(data)@.len() == old(data)@.len(),
        forall|i: int|
            0 <= i < old(data)@.len() ==> #[trigger] final(data)@[i] == if byte_in_row_span(
                res as int,
                x0 as int,
                x1 as int,
                y as int,
                i,
            ) && alpha > old(data)@[texel_start(res as int, byte_column(res as int, i), y as int) + 3] {
                paint_byte(i, alpha)
            } else {
                old(data)@[i]
            },
{
    let ghost initial = data@;
    if y >= res {
        proof {
            assert forall|i: int| 0 <= i < initial.len() implies #[trigger] data@[i] == if byte_in_row_span(
                res as int,
                x0 as int,
                x1 as int,
                y as int,
                i,
            ) && alpha > initial[texel_start(res as int, byte_column(res as int, i), y as int) + 3] {
                paint_byte(i, alpha)
            } else {
                initial[i]
            } by {
                if res >= 1 && 0 <= i < res * res * 4 {
                    lemma_byte_texel(res as int, i);
                }
            }
        }
        return;
    }
    let x_end: usize = if x1 >= res {
        res
    } else {
        x1 + 1
    };
    let mut x = x0;
    while x < x_end
        invariant
            data@.len() == initial.len(),
            initial.len() >= res * res * 4,
            y < res,
            x_end <= res,
            x_end == (if x1 >= res { res as int } else { x1 + 1 }),
            x0 <= x,
            x <= x_end || x == x0,
            forall|i: int|
                0 <= i < initial.len() ==> #[trigger] data@[i] == if 0 <= i < res * res * 4 && byte_row(res as int, i)
                    == y && x0 <= byte_column(res as int, i) < x && alpha > initial[texel_start(
                    res as int,
                    byte_column(res as int, i),
                    y as int,
                ) + 3] {
                    paint_byte(i, alpha)
                } else {
                    initial[i]
                },
        decreases x_end - x,
    {
        let ghost before = data@;
        proof {
            lemma_texel_bytes(res as int, x as int, y as int);
        }
        raise_alpha(data, res, x, y, alpha);
        proof {
            let s = texel_start(res as int, x as int, y as int);
            assert(before[s + 3] == initial[s + 3]) by {
                lemma_byte_texel(res as int, s + 3);
            }
            assert forall|i: int| 0 <= i < initial.len() implies #[trigger] data@[i] == if 0 <= i < res * res * 4
                && byte_row(res as int, i) == y && x0 <= byte_column(res as int, i) < x + 1 && alpha > initial[texel_start(
                res as int,
                byte_column(res as int, i),
                y as int,
            ) + 3] {
                paint_byte(i, alpha)
            } else {
                initial[i]
            } by {
                lemma_byte_texel(res as int, i);
                if s <= i < s + 4 {
                    let c = i - s;
                    assert(i == s + c);
                } else {
                    assert(data@[i] == before[i]);
                    if byte_column(res as int, i) == x && byte_row(res as int, i) == y {
                        assert(false);
                    }
                }
            }
        }
        x = x + 1;
    }
    proof {
        assert forall|i: int| 0 <= i < initial.len() implies #[trigger] data@[i] == if byte_in_row_span(
            res as int,
            x0 as int,
            x1 as int,
            y as int,
            i,
        ) && alpha > initial[texel_start(res as int, byte_column(res as int, i), y as int) + 3] {
            paint_byte(i, alpha)
        } else {
            initial[i]
        } by {
            if res >= 1 && 0 <= i {
                lemma_byte_texel(res as int, i);
            }
        }
    }
}

/// Raising a texel's alpha never lowers the alpha of any texel: painted
/// shapes only ever grow.
pub proof fn lemma_raise_alpha_only_grows(before: Seq<u8>, after: Seq<u8>, res: int, x: int, y: int, alpha: u8)
    requires
        0 <= res,
        0 <= x,
        0 <= y,
        before.len() >= res * res * 4,
        after == if x < res && y < res && alpha > before[texel_start(res, x, y) + 3] {
            painted(before, res, x, y, alpha)
        } else {
            before
        },
    ensures
        after.len() == before.len(),
        forall|i: int| 0 <= i < before.len() && i % 4 == 3 ==> #[trigger] after[i] >= before[i],
{
    if x < res && y < res && alpha > before[texel_start(res, x, y) + 3] {
        lemma_texel_bytes(res, x, y);
        let s = texel_start(res, x, y);
        assert forall|i: int| 0 <= i < before.len() && i % 4 == 3 implies #[trigger] after[i] >= before[i] by {
            if s <= i < s + 3 {
                assert(i % 4 == i - s);
            }
        }
    }
}

} // verus!
