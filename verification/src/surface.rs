//! Close-range surface detail: which patch levels carry local material maps
//! and vegetation, how dense their scatter is, and how many bytes the merged
//! vegetation and river meshes of one patch may occupy at most.
//!
//! Scatter reaches full density at a fixed level; every finer level covers a
//! quarter of the area, so it keeps a quarter of the plants, never fewer
//! than one.
use vstd::prelude::*;
use vstd::arithmetic::power2::pow2;

verus! {

/// Trees per patch at full density.
pub const TREE_COUNT: usize = 128;
/// Rock clusters per patch at full density.
pub const ROCK_COUNT: usize = 28;
/// Patch level at which scatter reaches its full per-patch count.
pub const SCATTER_FULL_DENSITY_LEVEL: u32 = 14;
/// Maximum procedurally generated rock bodies in one scree cluster.
pub const ROCK_MAX_LUMPS: u64 = 3;
/// Sides of a solid trunk prism.
pub const TRUNK_SEGMENTS: u64 = 6;
/// Segments around one procedural rock body.
pub const ROCK_SEGMENTS: u64 = 8;
/// Rings from the base to the top of one procedural rock body.
pub const ROCK_RINGS: u64 = 5;
/// Crossed double-sided planes per canopy billboard.
pub const CANOPY_CARD_PLANES: u64 = 3;
/// Maximum stacked canopy layers across all species.
pub const CANOPY_CARD_LAYERS: u64 = 3;
/// Crossed planes per grass tuft.
pub const GRASS_CARD_PLANES: u64 = 3;
/// Position (12) + normal (12) + vertex colour (16) + UV (8).
pub const VEGETATION_BYTES_PER_VERTEX: u64 = 48;
pub const VEGETATION_BYTES_PER_INDEX: u64 = 4;
/// Texels per side of the procedural foliage atlas.
pub const VEGETATION_ATLAS_RES: u32 = 128;
/// Position (12) + normal (12) + UV (8) + vertex colour (16).
pub const RIVER_BYTES_PER_VERTEX: u64 = 48;
pub const RIVER_BYTES_PER_INDEX: u64 = 4;
/// Vegetation starts at close-range geometry.
pub const VEGETATION_MIN_PATCH_LEVEL: u32 = 12;
/// Local albedo and normal maps begin one level coarser than vegetation.
pub const LOCAL_SURFACE_MIN_PATCH_LEVEL: u32 = 11;
/// Texels per side of a close patch's local surface maps.
pub const SURFACE_TEX_RES: u32 = 128;
/// Albedo and normal maps are both RGBA8 (8 bytes per texel together); the
/// full mip chain adds one third over the base level.
pub const LOCAL_SURFACE_MAP_BYTES: u64 = 128 * 128 * 8 * 4 / 3;

/// Scatter count of a patch `patch_level` deep when `max_count` items are
/// placed at `full_density_level`: each level past it keeps a quarter, and at
/// least one item always remains.
pub open spec fn thinned_count(max_count: nat, patch_level: nat, full_density_level: nat) -> nat {
    let levels_past: nat = if patch_level > full_density_level {
        (patch_level - full_density_level) as nat
    } else {
        0
    };
    let kept = max_count / pow2(2 * levels_past);
    if kept == 0 {
        1
    } else {
        kept
    }
}

proof fn lemma_usize_below_pow2_bits(x: usize)
    ensures
        (x as nat) < pow2(usize::BITS as nat),
        usize::BITS == 32 || usize::BITS == 64,
{
    vstd::arithmetic::power2::lemma2_to64();
}

/// Scatter count for a patch: `max_count` shifted right by two bits per level
/// past `full_density_level`, at least one.
pub fn thinned_scatter_count(max_count: usize, patch_level: u32, full_density_level: u32) -> (r: usize)
    ensures
        r == thinned_count(max_count as nat, patch_level as nat, full_density_level as nat),
{
    let level_delta: u32 = if patch_level > full_density_level {
        patch_level - full_density_level
    } else {
        0
    };
    let shift: u32 = if level_delta > u32::MAX / 2 {
        u32::MAX
    } else {
        level_delta * 2
    };
    let kept: usize = if shift >= usize::BITS {
        proof {
            lemma_usize_below_pow2_bits(max_count);
            if usize::BITS < 2 * level_delta {
                vstd::arithmetic::power2::lemma_pow2_strictly_increases(
                    usize::BITS as nat,
                    (2 * level_delta) as nat,
                );
            }
            vstd::arithmetic::power2::lemma_pow2_pos((2 * level_delta) as nat);
            vstd::arithmetic::div_mod::lemma_basic_div(
                max_count as int,
                pow2((2 * level_delta) as nat) as int,
            );
        }
        0
    } else {
        let s = shift as usize;
        proof {
            vstd::bits::lemma_usize_shr_is_div(max_count, s);
        }
        max_count >> s
    };
    if kept == 0 {
        1
    } else {
        kept
    }
}

/// Full density: a patch no deeper than the full-density level keeps the
/// whole count (one if the count is zero).
pub proof fn lemma_full_density_keeps_every_item(max_count: nat, patch_level: nat, full_density_level: nat)
    requires
        patch_level <= full_density_level,
    ensures
        thinned_count(max_count, patch_level, full_density_level) == if max_count == 0 {
            1
        } else {
            max_count
        },
{
    vstd::arithmetic::power2::lemma2_to64();
    assert(max_count / 1 == max_count) by (nonlinear_arith);
}

/// Bounds: the scatter count is at least one and never exceeds the per-patch
/// cap (when the cap is at least one).
pub proof fn lemma_scatter_within_cap(max_count: nat, patch_level: nat, full_density_level: nat)
    ensures
        thinned_count(max_count, patch_level, full_density_level) >= 1,
        max_count >= 1 ==> thinned_count(max_count, patch_level, full_density_level) <= max_count,
{
    let levels_past: nat = if patch_level > full_density_level {
        (patch_level - full_density_level) as nat
    } else {
        0
    };
    vstd::arithmetic::power2::lemma_pow2_pos(2 * levels_past);
    vstd::arithmetic::div_mod::lemma_div_is_ordered_by_denominator(max_count as int, 1, pow2(2 * levels_past) as int);
}

/// Quartering: each level past the full-density level keeps a quarter of
/// the previous level's scatter, never fewer than one.
pub proof fn lemma_each_finer_level_keeps_a_quarter(max_count: nat, patch_level: nat, full_density_level: nat)
    requires
        patch_level >= full_density_level,
    ensures
        thinned_count(max_count, patch_level + 1, full_density_level) == if thinned_count(
            max_count,
            patch_level,
            full_density_level,
        ) / 4 == 0 {
            1
        } else {
            thinned_count(max_count, patch_level, full_density_level) / 4
        },
{
    let p: nat = (patch_level - full_density_level) as nat;
    let d = pow2(2 * p);
    vstd::arithmetic::power2::lemma_pow2_pos(2 * p);
    vstd::arithmetic::power2::lemma_pow2_adds(2 * p, 2);
    vstd::arithmetic::power2::lemma2_to64();
    assert(2 * ((patch_level + 1 - full_density_level) as nat) == 2 * p + 2);
    vstd::arithmetic::div_mod::lemma_div_denominator(max_count as int, d as int, 4);
    let raw = max_count / d;
    if raw == 0 {
        assert(raw / 4 == 0);
    }
}

/// Monotonicity: a finer patch never carries more scatter than a coarser one.
pub proof fn lemma_scatter_never_grows_with_level(
    max_count: nat,
    coarse_level: nat,
    fine_level: nat,
    full_density_level: nat,
)
    requires
        coarse_level <= fine_level,
    ensures
        thinned_count(max_count, fine_level, full_density_level) <= thinned_count(
            max_count,
            coarse_level,
            full_density_level,
        ),
{
    let pc: nat = if coarse_level > full_density_level {
        (coarse_level - full_density_level) as nat
    } else {
        0
    };
    let pf: nat = if fine_level > full_density_level {
        (fine_level - full_density_level) as nat
    } else {
        0
    };
    vstd::arithmetic::power2::lemma_pow2_pos(2 * pc);
    vstd::arithmetic::power2::lemma_pow2_pos(2 * pf);
    if pc < pf {
        vstd::arithmetic::power2::lemma_pow2_strictly_increases(2 * pc, 2 * pf);
    }
    vstd::arithmetic::div_mod::lemma_div_is_ordered_by_denominator(
        max_count as int,
        pow2(2 * pc) as int,
        pow2(2 * pf) as int,
    );
}

/// Indices of `budget` items kept from `total` accepted candidates, spread
/// evenly over the accepted list (`index * total / budget`) rather than
/// truncating it, so saturated patches keep spatially even coverage.
pub fn evenly_thinned_indices(total: usize, budget: usize) -> (r: Vec<usize>)
    requires
        budget < total,
        (budget - 1) * total <= usize::MAX,
    ensures
        r@.len() == budget,
        forall|i: int| 0 <= i < budget ==> #[trigger] r@[i] == i * total / budget as int,
        forall|i: int| 0 <= i < budget ==> #[trigger] r@[i] < total,
        forall|i: int| 0 <= i < budget - 1 ==> #[trigger] r@[i] < r@[i + 1],
{
    let mut r: Vec<usize> = Vec::new();
    let mut index: usize = 0;
    while index < budget
        invariant
            index <= budget,
            budget < total,
            (budget - 1) * total <= usize::MAX,
            r@.len() == index,
            forall|i: int| 0 <= i < index ==> #[trigger] r@[i] == i * total / budget as int,
        decreases budget - index,
    {
        proof {
            assert(index * total <= (budget - 1) * total) by (nonlinear_arith)
                requires
                    index <= budget - 1,
            ;
        }
        r.push(index * total / budget);
        index = index + 1;
    }
    proof {
        assert forall|i: int| 0 <= i < budget implies #[trigger] r@[i] < total by {
            assert((i * total / (budget as int)) < total) by (nonlinear_arith)
                requires
                    0 <= i < budget,
                    budget < total,
            ;
        }
        assert forall|i: int| 0 <= i < budget - 1 implies #[trigger] r@[i] < r@[i + 1] by {
            let b = budget as int;
            let t = total as int;
            let q1 = i * t / b;
            let q2 = (i + 1) * t / b;
            vstd::arithmetic::div_mod::lemma_fundamental_div_mod(i * t, b);
            vstd::arithmetic::div_mod::lemma_fundamental_div_mod((i + 1) * t, b);
            assert(q1 < q2) by (nonlinear_arith)
                requires
                    b > 0,
                    t > b,
                    i >= 0,
                    i * t == b * q1 + (i * t) % b,
                    0 <= (i * t) % b < b,
                    (i + 1) * t == b * q2 + ((i + 1) * t) % b,
                    0 <= ((i + 1) * t) % b < b,
            ;
        }
    }
    r
}

/// Whether a patch of this level carries deterministic vegetation.
pub fn supports_vegetation(patch_level: u32) -> (r: bool)
    ensures
        r == (patch_level >= VEGETATION_MIN_PATCH_LEVEL),
{
    patch_level >= VEGETATION_MIN_PATCH_LEVEL
}

/// Whether a patch of this level carries local albedo and normal maps.
pub fn supports_local_surfaces(patch_level: u32) -> (r: bool)
    ensures
        r == (patch_level >= LOCAL_SURFACE_MIN_PATCH_LEVEL),
{
    patch_level >= LOCAL_SURFACE_MIN_PATCH_LEVEL
}

/// Scatter count for a patch of this level, from a full-density count.
pub fn scatter_count_for_level(max_count: usize, patch_level: u32) -> (r: usize)
    ensures
        r == thinned_count(max_count as nat, patch_level as nat, SCATTER_FULL_DENSITY_LEVEL as nat),
{
    thinned_scatter_count(max_count, patch_level, SCATTER_FULL_DENSITY_LEVEL)
}

/// Bytes of a river ribbon over a `resolution` x `resolution` core grid
/// (at least 2 x 2) when every cell is wet: each of the `(res - 1)^2` cells
/// emits its own four corner vertices and two triangles.
pub open spec fn river_mesh_bytes(resolution: u32) -> int {
    let res: int = if resolution < 2 {
        2
    } else {
        resolution as int
    };
    let cells = (res - 1) * (res - 1);
    cells * (4 * RIVER_BYTES_PER_VERTEX + 6 * RIVER_BYTES_PER_INDEX)
}

/// Conservative upper bound for a patch's river ribbon at the given core grid
/// resolution, reserved by the streaming memory budget: the ribbon of a fully
/// wet grid, four vertices and six indices per cell.
pub fn max_river_mesh_bytes(resolution: u32) -> (r: u64)
    requires
        river_mesh_bytes(resolution) <= u64::MAX,
    ensures
        r == river_mesh_bytes(resolution),
{
    let res: u64 = if resolution < 2 {
        2
    } else {
        resolution as u64
    };
    let per_cell: u64 = 4 * RIVER_BYTES_PER_VERTEX + 6 * RIVER_BYTES_PER_INDEX;
    proof {
        assert((res - 1) * (res - 1) <= (res - 1) * (res - 1) * per_cell) by (nonlinear_arith)
            requires
                res >= 2,
                per_cell >= 1,
        ;
    }
    let cells = (res - 1) * (res - 1);
    cells * per_cell
}

/// Vertices and indices of one tree: a trunk prism plus stacked canopy cards.
pub open spec fn tree_vertices() -> int {
    2 * (TRUNK_SEGMENTS + 1) + CANOPY_CARD_LAYERS * CANOPY_CARD_PLANES * 4
}

pub open spec fn tree_indices() -> int {
    TRUNK_SEGMENTS * 6 + CANOPY_CARD_LAYERS * CANOPY_CARD_PLANES * 6
}

/// Vertices and indices of every rock body a patch may hold.
pub open spec fn rock_vertices() -> int {
    ROCK_COUNT * ROCK_MAX_LUMPS * ((ROCK_RINGS + 1) * ROCK_SEGMENTS)
}

pub open spec fn rock_indices() -> int {
    ROCK_COUNT * ROCK_MAX_LUMPS * (ROCK_RINGS * ROCK_SEGMENTS * 6)
}

/// Largest merged vegetation mesh of one patch: every tree, rock body and
/// grass tuft of the per-patch caps at once.
pub open spec fn vegetation_mesh_bytes(grass_budget: int) -> int {
    let vertices = TREE_COUNT * tree_vertices() + rock_vertices() + grass_budget * (GRASS_CARD_PLANES * 4);
    let indices = TREE_COUNT * tree_indices() + rock_indices() + grass_budget * (GRASS_CARD_PLANES * 6);
    vertices * VEGETATION_BYTES_PER_VERTEX + indices * VEGETATION_BYTES_PER_INDEX
}

/// Conservative maximum allocation for one merged vegetation mesh with up to
/// `grass_budget` grass tufts. Streaming reserves it for close patches before
/// worker generation knows their biome.
pub fn max_vegetation_mesh_bytes(grass_budget: u64) -> (r: u64)
    requires
        vegetation_mesh_bytes(grass_budget as int) <= u64::MAX,
    ensures
        r == vegetation_mesh_bytes(grass_budget as int),
{
    let tree_vertex_count: u64 = 2 * (TRUNK_SEGMENTS + 1) + CANOPY_CARD_LAYERS * CANOPY_CARD_PLANES * 4;
    let tree_index_count: u64 = TRUNK_SEGMENTS * 6 + CANOPY_CARD_LAYERS * CANOPY_CARD_PLANES * 6;
    let rock_vertex_count: u64 = 28 * ROCK_MAX_LUMPS * ((ROCK_RINGS + 1) * ROCK_SEGMENTS);
    let rock_index_count: u64 = 28 * ROCK_MAX_LUMPS * (ROCK_RINGS * ROCK_SEGMENTS * 6);
    proof {
        assert(tree_vertices() == 50 && tree_indices() == 90) by (nonlinear_arith);
        assert(rock_vertices() == 4032 && rock_indices() == 20160) by (nonlinear_arith);
        assert(vegetation_mesh_bytes(grass_budget as int) == 627456 + 648 * grass_budget) by (nonlinear_arith)
            requires
                tree_vertices() == 50 && tree_indices() == 90,
                rock_vertices() == 4032 && rock_indices() == 20160,
        ;
        assert(grass_budget * 12 <= u64::MAX) by (nonlinear_arith)
            requires
                627456 + 648 * grass_budget <= u64::MAX,
        ;
    }
    let vertices: u64 = 128 * tree_vertex_count + rock_vertex_count + grass_budget * (GRASS_CARD_PLANES * 4);
    let indices: u64 = 128 * tree_index_count + rock_index_count + grass_budget * (GRASS_CARD_PLANES * 6);
    vertices * VEGETATION_BYTES_PER_VERTEX + indices * VEGETATION_BYTES_PER_INDEX
}

} // verus!
