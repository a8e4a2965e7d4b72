//! Grid resolution policy of the two-pass terrain renderer.
use vstd::prelude::*;
use crate::patch::TerrainPatch;

verus! {

/// Grid resolution of the two-pass renderer. One `2^n + 1` grid serves every
/// spatial LOD, so a 2:1 level boundary is also a 2:1 sample boundary and
/// edge stitching never meets a 4:1 transition.
pub struct TerrainRenderConfig {
    /// Patch resolution (vertices per side) used at every spatial LOD.
    pub patch_resolution: u32,
}

impl TerrainRenderConfig {
    /// The grid resolution of `patch`: the same at every level.
    pub fn patch_resolution_for(&self, _patch: TerrainPatch) -> (r: u32)
        ensures
            r == self.patch_resolution,
    {
        self.patch_resolution
    }
}

impl Default for TerrainRenderConfig {
    /// 33 samples per side: parent and child boundary samples stay aligned.
    fn default() -> (r: Self)
        ensures
            r.patch_resolution == 33,
    {
        TerrainRenderConfig { patch_resolution: 33 }
    }
}

} // verus!
