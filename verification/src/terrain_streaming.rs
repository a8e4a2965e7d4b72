//! Memory budget of the single-pass terrain streaming loop. Its scheduling
//! decisions are those of the streaming module and are re-exported here.
use vstd::prelude::*;
pub use crate::streaming::{
    add_viewport_lod_group, generation_batch, generation_capacity, patch_needs_geometry, stale_patches,
    terrain_mesh_bytes, PatchState,
};
use crate::patch::TerrainPatch;
use crate::terrain_surface::{
    supports_local_surfaces, supports_vegetation, LOCAL_SURFACE_MAP_BYTES, LOCAL_SURFACE_MIN_PATCH_LEVEL,
    MAX_VEGETATION_MESH_BYTES, VEGETATION_MIN_PATCH_LEVEL,
};

verus! {

/// Bytes reserved for a patch of `level`: its meshes, plus the local surface
/// maps and the largest vegetation mesh at the finest tiles.
pub open spec fn patch_bytes(level: u32, resolution: u32) -> int {
    terrain_mesh_bytes(resolution) + (if level >= LOCAL_SURFACE_MIN_PATCH_LEVEL {
        LOCAL_SURFACE_MAP_BYTES as int
    } else {
        0
    }) + (if level >= VEGETATION_MIN_PATCH_LEVEL {
        MAX_VEGETATION_MESH_BYTES as int
    } else {
        0
    })
}

/// Memory reserved for a requested patch before its bake starts.
pub fn estimated_patch_bytes(patch: TerrainPatch, resolution: u32) -> (r: u64)
    requires
        patch_bytes(patch.level, resolution) <= u64::MAX,
    ensures
        r == patch_bytes(patch.level, resolution),
{
    let res: u64 = if resolution < 2 {
        2
    } else {
        resolution as u64
    };
    proof {
        assert((res - 1) * (res - 1) <= res * res) by (nonlinear_arith)
            requires
                res >= 2,
        ;
        assert(res * res + 4 * (res - 1) <= (res * res + 4 * (res - 1)) * 120) by (nonlinear_arith)
            requires
                res >= 2,
        ;
        assert(6 * ((res - 1) * (res - 1) + 4 * (res - 1)) <= 6 * ((res - 1) * (res - 1) + 4 * (res - 1)) * 2 * 4)
            by (nonlinear_arith)
            requires
                res >= 2,
        ;
    }
    let vertices = res * res + 4 * (res - 1);
    let indices = 6 * ((res - 1) * (res - 1) + 4 * (res - 1));
    let mut terrain_bytes = vertices * (crate::streaming::DOMAIN_BYTES_PER_VERTEX
        + crate::streaming::RENDER_BYTES_PER_VERTEX) + indices * 2 * crate::streaming::BYTES_PER_INDEX;
    if supports_local_surfaces(patch.level) {
        terrain_bytes = terrain_bytes + LOCAL_SURFACE_MAP_BYTES;
    }
    if supports_vegetation(patch.level) {
        terrain_bytes = terrain_bytes + MAX_VEGETATION_MESH_BYTES;
    }
    terrain_bytes
}

} // verus!
