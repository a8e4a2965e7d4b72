//! Close-range surface detail of the single-pass terrain surface path: local
//! material maps and vegetation start together at the finest terrain tiles,
//! and scatter thins by a quarter per level below that.
use vstd::prelude::*;
use crate::surface::{thinned_count, thinned_scatter_count};

verus! {

/// Trees per vegetated patch at the coarsest vegetated level.
pub const TREE_COUNT: usize = 64;
/// Grass clumps per vegetated patch at the coarsest vegetated level.
pub const GRASS_CLUMP_COUNT: usize = 512;
/// Boulders per vegetated patch at the coarsest vegetated level.
pub const ROCK_COUNT: usize = 14;
/// Sides of a trunk prism.
pub const TRUNK_SEGMENTS: u64 = 6;
/// Sides of a foliage cone.
pub const FOLIAGE_SEGMENTS: u64 = 7;
/// Segments around one boulder.
pub const BOULDER_SEGMENTS: u64 = 6;
/// Rings from the base to the top of one boulder.
pub const BOULDER_RINGS: u64 = 3;
/// Position (12) + normal (12) + vertex colour (16).
pub const VEGETATION_BYTES_PER_VERTEX: u64 = 40;
pub const VEGETATION_BYTES_PER_INDEX: u64 = 4;
/// Vegetation is limited to the finest terrain tiles.
pub const VEGETATION_MIN_PATCH_LEVEL: u32 = 12;
/// Local surface maps start at the same level as vegetation.
pub const LOCAL_SURFACE_MIN_PATCH_LEVEL: u32 = 12;
/// Texels per side of a close patch's surface maps.
pub const SURFACE_TEX_RES: u32 = 128;
/// Albedo and normal maps are both RGBA8: 8 bytes per texel together.
pub const LOCAL_SURFACE_MAP_BYTES: u64 = 128 * 128 * 8;

/// Largest merged vegetation mesh of one patch: every tree (trunk prism and
/// foliage cone), boulder and grass clump of the per-patch caps at once.
pub const MAX_VEGETATION_MESH_BYTES: u64 = (64 * (2 * (TRUNK_SEGMENTS + 1) + 2 * (FOLIAGE_SEGMENTS + 1)) + 14 * ((
BOULDER_RINGS + 1) * BOULDER_SEGMENTS) + 512 * 6) * VEGETATION_BYTES_PER_VERTEX + (64 * (TRUNK_SEGMENTS * 6
    + FOLIAGE_SEGMENTS * 6) + 14 * (BOULDER_RINGS * BOULDER_SEGMENTS * 6) + 512 * 6) * VEGETATION_BYTES_PER_INDEX;

/// Whether a patch of this level carries deterministic vegetation.
pub fn supports_vegetation(patch_level: u32) -> (r: bool)
    ensures
        r == (patch_level >= VEGETATION_MIN_PATCH_LEVEL),
{
    patch_level >= VEGETATION_MIN_PATCH_LEVEL
}

/// Whether a patch of this level carries local albedo and normal maps.
pub fn supports_local_surfaces(patch_level: u32) -> (r: bool)
    ensures
        r == (patch_level >= LOCAL_SURFACE_MIN_PATCH_LEVEL),
{
    patch_level >= LOCAL_SURFACE_MIN_PATCH_LEVEL
}

/// Scatter count for a patch of this level: the full count at the coarsest
/// vegetated level, a quarter per finer level, at least one.
pub fn scatter_count_for_level(max_count: usize, patch_level: u32) -> (r: usize)
    ensures
        r == thinned_count(max_count as nat, patch_level as nat, VEGETATION_MIN_PATCH_LEVEL as nat),
{
    thinned_scatter_count(max_count, patch_level, VEGETATION_MIN_PATCH_LEVEL)
}

} // verus!
