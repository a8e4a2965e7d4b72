//! Triangle index topology of the terrain, vegetation, rock and river meshes.
//!
//! Every mesh here is a list of quads, each split into two triangles (six
//! indices). A "strip" quad `(p, q, r, s)` emits `p q r` and `r q s`; a "fan"
//! quad emits `p q r` and `p r s`. The vertex attributes themselves are
//! computed elsewhere; these functions fix which vertices every triangle
//! joins, and that every index refers to a vertex of the shape being built.
use vstd::prelude::*;

verus! {

/// Corner `j` (0..6) of a strip quad: triangles `p q r` and `r q s`.
pub open spec fn strip_corner(p: int, q: int, r: int, s: int, j: int) -> int {
    if j == 0 {
        p
    } else if j == 1 {
        q
    } else if j == 2 {
        r
    } else if j == 3 {
        r
    } else if j == 4 {
        q
    } else {
        s
    }
}

/// Corner `j` (0..6) of a fan quad: triangles `p q r` and `p r s`.
pub open spec fn fan_corner(p: int, q: int, r: int, s: int, j: int) -> int {
    if j == 0 {
        p
    } else if j == 1 {
        q
    } else if j == 2 {
        r
    } else if j == 3 {
        p
    } else if j == 4 {
        r
    } else {
        s
    }
}

/// Six indices per cell, cell after cell: index `k` is corner `k % 6` of cell
/// `k / 6`.
pub open spec fn per_cell(cells: int, corner: spec_fn(int, int) -> int) -> Seq<int> {
    Seq::new((6 * cells) as nat, |k: int| corner(k / 6, k % 6))
}

/// The values of a list of indices, as integers.
pub open spec fn as_ints(s: Seq<u32>) -> Seq<int> {
    s.map_values(|v: u32| v as int)
}

proof fn lemma_cell_of_index(k: int, cell: int, j: int)
    requires
        0 <= j < 6,
        k == 6 * cell + j,
    ensures
        k / 6 == cell,
        k % 6 == j,
{
    vstd::arithmetic::div_mod::lemma_fundamental_div_mod_converse(k, 6, cell, j);
}

proof fn lemma_append_cell(cells: int, corner: spec_fn(int, int) -> int)
    requires
        cells >= 0,
    ensures
        per_cell(cells, corner) + seq![
            corner(cells, 0),
            corner(cells, 1),
            corner(cells, 2),
            corner(cells, 3),
            corner(cells, 4),
            corner(cells, 5),
        ] =~= per_cell(cells + 1, corner),
{
    let tail = seq![
        corner(cells, 0),
        corner(cells, 1),
        corner(cells, 2),
        corner(cells, 3),
        corner(cells, 4),
        corner(cells, 5),
    ];
    assert forall|k: int| 0 <= k < 6 * (cells + 1) implies #[trigger] (per_cell(cells, corner) + tail)[k]
        == per_cell(cells + 1, corner)[k] by {
        if k < 6 * cells {
            assert((per_cell(cells, corner) + tail)[k] == per_cell(cells, corner)[k]);
        } else {
            lemma_cell_of_index(k, cells, k - 6 * cells);
        }
    }
}

/// Append the six indices of one quad.
fn push_quad(indices: &mut Vec<u32>, quad: [u32; 6])
    ensures
        final(indices)@ == old(indices)@ + quad@,
{
    let mut i: usize = 0;
    while i < 6
        invariant
            i <= 6,
            indices@ == old(indices)@ + quad@.subrange(0, i as int),
        decreases 6 - i,
    {
        indices.push(quad[i]);
        proof {
            assert(quad@.subrange(0, i + 1) == quad@.subrange(0, i as int).push(quad@[i as int]));
        }
        i = i + 1;
    }
    proof {
        assert(quad@.subrange(0, 6) == quad@);
    }
}

proof fn lemma_as_ints_append_quad(prefix: Seq<u32>, quad: Seq<u32>, values: Seq<int>)
    requires
        quad.len() == 6,
        values.len() == 6,
        forall|j: int| 0 <= j < 6 ==> quad[j] as int == values[j],
    ensures
        as_ints(prefix + quad) == as_ints(prefix) + values,
{
    assert(as_ints(prefix + quad) =~= as_ints(prefix) + values);
}

/// Corner `j` of grid cell `c` of a `res` x `res` vertex grid, row-major,
/// with `res - 1` cells per row.
pub open spec fn grid_corner(res: int, c: int, j: int) -> int {
    let z = c / (res - 1);
    let x = c % (res - 1);
    let top_left = z * res + x;
    let bottom_left = (z + 1) * res + x;
    strip_corner(top_left, bottom_left, top_left + 1, bottom_left + 1, j)
}

/// Triangle indices of a `resolution` x `resolution` row-major vertex grid:
/// two triangles per cell, cell after cell.
pub fn grid_triangle_indices(resolution: usize) -> (indices: Vec<u32>)
    requires
        resolution >= 1,
        resolution * resolution <= u32::MAX,
    ensures
        as_ints(indices@) == per_cell(
            (resolution - 1) * (resolution - 1),
            |c: int, j: int| grid_corner(resolution as int, c, j),
        ),
        forall|k: int| 0 <= k < indices@.len() ==> (#[trigger] indices@[k]) < resolution * resolution,
{
    let ghost corner = |c: int, j: int| grid_corner(resolution as int, c, j);
    let mut indices: Vec<u32> = Vec::new();
    if resolution < 2 {
        proof {
            assert(as_ints(indices@) =~= per_cell(0, corner));
        }
        return indices;
    }
    let width = resolution - 1;
    proof {
        assert(width * width <= resolution * resolution) by (nonlinear_arith)
            requires
                width == resolution - 1,
                resolution >= 2,
        ;
    }
    let cells = width * width;
    let mut c: usize = 0;
    while c < cells
        invariant
            resolution >= 2,
            width == resolution - 1,
            cells == width * width,
            resolution * resolution <= u32::MAX,
            c <= cells,
            forall|a: int, b: int| #[trigger] corner(a, b) == grid_corner(resolution as int, a, b),
            as_ints(indices@) == per_cell(c as int, corner),
            forall|k: int| 0 <= k < indices@.len() ==> (#[trigger] indices@[k]) < resolution * resolution,
        decreases cells - c,
    {
        let z = c / width;
        let x = c % width;
        proof {
            vstd::arithmetic::div_mod::lemma_fundamental_div_mod(c as int, width as int);
            assert(z < width) by (nonlinear_arith)
                requires
                    c < width * width,
                    z == c / width,
                    width > 0,
            ;
            assert((z + 1) * resolution + x + 1 < resolution * resolution) by (nonlinear_arith)
                requires
                    z + 1 <= width,
                    x + 1 <= width,
                    width == resolution - 1,
            ;
            assert(z * resolution + resolution == (z + 1) * resolution) by (nonlinear_arith);
            assert(0 <= z * resolution) by (nonlinear_arith)
                requires
                    z >= 0,
                    resolution >= 0,
            ;
        }
        let top_left = (z * resolution + x) as u32;
        let bottom_left = ((z + 1) * resolution + x) as u32;
        let ghost before = indices@;
        push_quad(&mut indices, [top_left, bottom_left, top_left + 1, top_left + 1, bottom_left, bottom_left + 1]);
        proof {
            lemma_append_cell(c as int, corner);
            lemma_as_ints_append_quad(
                before,
                seq![top_left, bottom_left, (top_left + 1) as u32, (top_left + 1) as u32, bottom_left, (bottom_left + 1) as u32],
                seq![corner(c as int, 0), corner(c as int, 1), corner(c as int, 2), corner(c as int, 3), corner(c as int, 4), corner(c as int, 5)],
            );
            assert forall|k: int| 0 <= k < indices@.len() implies (#[trigger] indices@[k]) < resolution * resolution by {
                if k >= before.len() {
                    let j = k - before.len();
                    assert(indices@[k] == [top_left, bottom_left, (top_left + 1) as u32, (top_left + 1) as u32, bottom_left, (bottom_left + 1) as u32]@[j]);
                } else {
                    assert(indices@[k] == before[k]);
                }
            }
        }
        c = c + 1;
    }
    proof {
        assert(cells == (resolution - 1) * (resolution - 1));
        assert(corner == |c: int, j: int| grid_corner(resolution as int, c, j));
    }
    indices
}

/// Corner `j` of side quad `s` of a prism whose vertices, from `start`,
/// alternate between the bottom and the top ring.
pub open spec fn prism_corner(start: int, s: int, j: int) -> int {
    strip_corner(start + 2 * s, start + 2 * s + 2, start + 2 * s + 1, start + 2 * s + 3, j)
}

/// Append the side triangles of a prism of `segments` sides whose
/// `2 * (segments + 1)` vertices start at `start`.
pub fn push_prism_indices(indices: &mut Vec<u32>, start: u32, segments: usize)
    requires
        start + 2 * segments + 2 <= u32::MAX + 1,
    ensures
        as_ints(final(indices)@) == as_ints(old(indices)@) + per_cell(
            segments as int,
            |s: int, j: int| prism_corner(start as int, s, j),
        ),
        forall|k: int|
            old(indices)@.len() <= k < final(indices)@.len() ==> start <= #[trigger] final(indices)@[k] < start + 2
                * segments + 2,
{
    let ghost corner = |s: int, j: int| prism_corner(start as int, s, j);
    let ghost old_len = indices@.len();
    let mut s: usize = 0;
    proof {
        assert(as_ints(indices@) =~= as_ints(old(indices)@) + per_cell(0, corner));
    }
    while s < segments
        invariant
            s <= segments,
            start + 2 * segments + 2 <= u32::MAX + 1,
            old_len == old(indices)@.len(),
            indices@.len() >= old_len,
            indices@.subrange(0, old_len as int) == old(indices)@,
            forall|a: int, b: int| #[trigger] corner(a, b) == prism_corner(start as int, a, b),
            as_ints(indices@) == as_ints(old(indices)@) + per_cell(s as int, corner),
            forall|k: int| old_len <= k < indices@.len() ==> start <= #[trigger] indices@[k] < start + 2 * segments + 2,
        decreases segments - s,
    {
        let a0 = start + (2 * s) as u32;
        let a1 = start + (2 * s + 1) as u32;
        let b0 = start + (2 * s + 2) as u32;
        let b1 = start + (2 * s + 3) as u32;
        let ghost before = indices@;
        push_quad(indices, [a0, b0, a1, a1, b0, b1]);
        proof {
            lemma_append_cell(s as int, corner);
            lemma_as_ints_append_quad(
                before,
                seq![a0, b0, a1, a1, b0, b1],
                seq![corner(s as int, 0), corner(s as int, 1), corner(s as int, 2), corner(s as int, 3), corner(s as int, 4), corner(s as int, 5)],
            );
            assert(as_ints(old(indices)@) + per_cell(s as int, corner) + seq![corner(s as int, 0), corner(s as int, 1), corner(s as int, 2), corner(s as int, 3), corner(s as int, 4), corner(s as int, 5)]
                =~= as_ints(old(indices)@) + per_cell(s + 1, corner));
            assert(indices@.subrange(0, old_len as int) =~= old(indices)@);
            assert forall|k: int| old_len <= k < indices@.len() implies start <= #[trigger] indices@[k] < start + 2 * segments + 2 by {
                if k >= before.len() {
                    assert(indices@[k] == [a0, b0, a1, a1, b0, b1]@[k - before.len()]);
                } else {
                    assert(indices@[k] == before[k]);
                }
            }
        }
        s = s + 1;
    }
    proof {
        assert(corner == |s: int, j: int| prism_corner(start as int, s, j));
    }
}

/// Corner `j` of cell `c` of a closed ring/segment body whose
/// `(rings + 1) * segments` vertices start at `start`, ring after ring; the
/// last segment of a ring wraps to its first.
pub open spec fn ring_corner(start: int, segments: int, c: int, j: int) -> int {
    let r = c / segments;
    let s = c % segments;
    let next = (s + 1) % segments;
    strip_corner(
        start + r * segments + s,
        start + (r + 1) * segments + s,
        start + r * segments + next,
        start + (r + 1) * segments + next,
        j,
    )
}

/// Append the triangles of a closed ring/segment body (a rock or boulder)
/// with `rings` bands of `segments` quads whose vertices start at `start`.
pub fn push_ring_indices(indices: &mut Vec<u32>, start: u32, rings: usize, segments: usize)
    requires
        start + (rings + 1) * segments <= u32::MAX + 1,
    ensures
        as_ints(final(indices)@) == as_ints(old(indices)@) + per_cell(
            rings * segments,
            |c: int, j: int| ring_corner(start as int, segments as int, c, j),
        ),
        forall|k: int|
            old(indices)@.len() <= k < final(indices)@.len() ==> start <= #[trigger] final(indices)@[k] < start + (
            rings + 1) * segments,
{
    let ghost corner = |c: int, j: int| ring_corner(start as int, segments as int, c, j);
    let ghost old_len = indices@.len();
    proof {
        assert(as_ints(indices@) =~= as_ints(old(indices)@) + per_cell(0, corner));
        assert(rings * segments + segments == (rings + 1) * segments) by (nonlinear_arith);
        if segments == 0 {
            assert(rings * segments == 0) by (nonlinear_arith)
                requires
                    segments == 0,
            ;
        }
        assert(rings * segments <= usize::MAX);
    }
    let cells = rings * segments;
    let mut c: usize = 0;
    while c < cells
        invariant
            c <= cells,
            cells == rings * segments,
            start + (rings + 1) * segments <= u32::MAX + 1,
            old_len == old(indices)@.len(),
            indices@.len() >= old_len,
            indices@.subrange(0, old_len as int) == old(indices)@,
            forall|a: int, b: int| #[trigger] corner(a, b) == ring_corner(start as int, segments as int, a, b),
            as_ints(indices@) == as_ints(old(indices)@) + per_cell(c as int, corner),
            forall|k: int| old_len <= k < indices@.len() ==> start <= #[trigger] indices@[k] < start + (rings + 1) * segments,
        decreases cells - c,
    {
        let r = c / segments;
        let s = c % segments;
        let next = (s + 1) % segments;
        proof {
            vstd::arithmetic::div_mod::lemma_fundamental_div_mod(c as int, segments as int);
            assert(r < rings) by (nonlinear_arith)
                requires
                    c < rings * segments,
                    r == c / segments,
                    segments > 0,
            ;
            assert((r + 1) * segments + segments <= (rings + 1) * segments) by (nonlinear_arith)
                requires
                    r + 1 <= rings,
            ;
            assert(r * segments + segments == (r + 1) * segments) by (nonlinear_arith);
            assert(0 <= r * segments) by (nonlinear_arith)
                requires
                    r >= 0,
                    segments >= 0,
            ;
        }
        let a = start + (r * segments + s) as u32;
        let b = start + (r * segments + next) as u32;
        let lower = start + ((r + 1) * segments + s) as u32;
        let upper = start + ((r + 1) * segments + next) as u32;
        let ghost before = indices@;
        push_quad(indices, [a, lower, b, b, lower, upper]);
        proof {
            lemma_append_cell(c as int, corner);
            lemma_as_ints_append_quad(
                before,
                seq![a, lower, b, b, lower, upper],
                seq![corner(c as int, 0), corner(c as int, 1), corner(c as int, 2), corner(c as int, 3), corner(c as int, 4), corner(c as int, 5)],
            );
            assert(as_ints(old(indices)@) + per_cell(c as int, corner) + seq![corner(c as int, 0), corner(c as int, 1), corner(c as int, 2), corner(c as int, 3), corner(c as int, 4), corner(c as int, 5)]
                =~= as_ints(old(indices)@) + per_cell(c + 1, corner));
            assert(indices@.subrange(0, old_len as int) =~= old(indices)@);
            assert forall|k: int| old_len <= k < indices@.len() implies start <= #[trigger] indices@[k] < start + (rings + 1) * segments by {
                if k >= before.len() {
                    assert(indices@[k] == [a, lower, b, b, lower, upper]@[k - before.len()]);
                } else {
                    assert(indices@[k] == before[k]);
                }
            }
        }
        c = c + 1;
    }
    proof {
        assert(corner == |c: int, j: int| ring_corner(start as int, segments as int, c, j));
    }
}

/// Append the two triangles of one billboard card whose four vertices
/// (bottom left, bottom right, top right, top left) start at `start`.
pub fn push_card_indices(indices: &mut Vec<u32>, start: u32)
    requires
        start + 3 <= u32::MAX,
    ensures
        final(indices)@ == old(indices)@ + seq![
            start,
            (start + 1) as u32,
            (start + 2) as u32,
            start,
            (start + 2) as u32,
            (start + 3) as u32,
        ],
{
    push_quad(indices, [start, start + 1, start + 2, start, start + 2, start + 3]);
}

/// Corner `j` of river cell `c`: the cell's four vertices are duplicated per
/// cell in the order top left, top right, bottom left, bottom right.
pub open spec fn ribbon_corner(c: int, j: int) -> int {
    fan_corner(4 * c, 4 * c + 1, 4 * c + 3, 4 * c + 2, j)
}

/// Triangle indices of a non-indexed river ribbon of `cells` cells, two
/// triangles per cell in the winding of the terrain grid.
pub fn ribbon_indices(cells: usize) -> (indices: Vec<u32>)
    requires
        4 * cells <= u32::MAX + 1,
    ensures
        as_ints(indices@) == per_cell(cells as int, |c: int, j: int| ribbon_corner(c, j)),
        forall|k: int| 0 <= k < indices@.len() ==> (#[trigger] indices@[k]) < 4 * cells,
{
    let ghost corner = |c: int, j: int| ribbon_corner(c, j);
    let mut indices: Vec<u32> = Vec::new();
    let mut c: usize = 0;
    proof {
        assert(as_ints(indices@) =~= per_cell(0, corner));
    }
    while c < cells
        invariant
            c <= cells,
            4 * cells <= u32::MAX + 1,
            forall|a: int, b: int| #[trigger] corner(a, b) == ribbon_corner(a, b),
            as_ints(indices@) == per_cell(c as int, corner),
            forall|k: int| 0 <= k < indices@.len() ==> (#[trigger] indices@[k]) < 4 * cells,
        decreases cells - c,
    {
        let base = (c * 4) as u32;
        let ghost before = indices@;
        push_quad(&mut indices, [base, base + 1, base + 3, base, base + 3, base + 2]);
        proof {
            lemma_append_cell(c as int, corner);
            lemma_as_ints_append_quad(
                before,
                seq![base, (base + 1) as u32, (base + 3) as u32, base, (base + 3) as u32, (base + 2) as u32],
                seq![corner(c as int, 0), corner(c as int, 1), corner(c as int, 2), corner(c as int, 3), corner(c as int, 4), corner(c as int, 5)],
            );
            assert forall|k: int| 0 <= k < indices@.len() implies (#[trigger] indices@[k]) < 4 * cells by {
                if k >= before.len() {
                    assert(indices@[k] == [base, (base + 1) as u32, (base + 3) as u32, base, (base + 3) as u32, (base + 2) as u32]@[k - before.len()]);
                } else {
                    assert(indices@[k] == before[k]);
                }
            }
        }
        c = c + 1;
    }
    proof {
        assert(corner == |c: int, j: int| ribbon_corner(c, j));
    }
    indices
}

/// Side of the core grid of a patch geometry with `vertex_count` vertices:
/// the core grid of `n * n` vertices precedes a skirt ring of `4 * (n - 1)`,
/// so `n + 2` is the integer square root of `vertex_count + 8`.
pub fn core_grid_resolution(vertex_count: usize) -> (n: usize)
    requires
        vertex_count + 8 <= usize::MAX,
    ensures
        (n + 2) * (n + 2) <= vertex_count + 8 < (n + 3) * (n + 3),
{
    let m = vertex_count + 8;
    let mut root: usize = 2;
    while root + 1 <= m / (root + 1)
        invariant
            2 <= root,
            root < m,
            m == vertex_count + 8,
            m <= usize::MAX,
            root * root <= m,
        decreases m - root,
    {
        proof {
            let d: int = root + 1;
            let mi: int = m as int;
            vstd::arithmetic::div_mod::lemma_fundamental_div_mod(mi, d);
            assert(d * d <= mi) by (nonlinear_arith)
                requires
                    d <= mi / d,
                    d > 0,
                    mi == d * (mi / d) + mi % d,
                    mi % d >= 0,
            ;
            assert(root + 1 < mi) by (nonlinear_arith)
                requires
                    root >= 2,
                    d == root + 1,
                    d * d <= mi,
            ;
        }
        root = root + 1;
    }
    proof {
        let d: int = root + 1;
        let mi: int = m as int;
        vstd::arithmetic::div_mod::lemma_fundamental_div_mod(mi, d);
        assert(mi < d * d) by (nonlinear_arith)
            requires
                d > mi / d,
                d > 0,
                mi == d * (mi / d) + mi % d,
                mi % d < d,
        ;
    }
    root - 2
}

/// The four vertex indices (top left, top right, bottom left, bottom right)
/// of grid cell (`row`, `column`) of a `resolution` x `resolution` grid.
pub fn cell_corners(row: usize, column: usize, resolution: usize) -> (r: [usize; 4])
    requires
        row + 1 < resolution,
        column + 1 < resolution,
        resolution * resolution <= usize::MAX,
    ensures
        r@ == seq![
            (row * resolution + column) as usize,
            (row * resolution + column + 1) as usize,
            ((row + 1) * resolution + column) as usize,
            ((row + 1) * resolution + column + 1) as usize,
        ],
        forall|i: int| 0 <= i < 4 ==> (#[trigger] r@[i]) < resolution * resolution,
{
    proof {
        assert((row + 1) * resolution + column + 1 < resolution * resolution) by (nonlinear_arith)
            requires
                row + 1 < resolution,
                column + 1 < resolution,
        ;
        assert(row * resolution + resolution == (row + 1) * resolution) by (nonlinear_arith);
        assert(0 <= row * resolution) by (nonlinear_arith)
            requires
                row >= 0,
                resolution >= 0,
        ;
    }
    let top = row * resolution + column;
    let bottom = (row + 1) * resolution + column;
    [top, top + 1, bottom, bottom + 1]
}

} // verus!
