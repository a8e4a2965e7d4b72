//! Integer quality bounds of the planetary water surface.
use vstd::prelude::*;

verus! {

/// Most Gerstner wave components the water shader evaluates.
pub const MAX_WAVE_COMPONENTS: u32 = 4;
/// Fewest Gerstner wave components the water shader evaluates.
pub const MIN_WAVE_COMPONENTS: u32 = 1;
/// Wave components of the default quality tier.
pub const DEFAULT_WAVE_COMPONENTS: u32 = 4;
/// Default budget of the ocean cap's grid subdivision.
pub const DEFAULT_WATER_SUBDIVISION: u32 = 33;

/// The configured wave component count, clamped to the range the shader
/// supports.
pub fn clamped_wave_components(wave_components: u32) -> (r: u32)
    ensures
        r == if wave_components < MIN_WAVE_COMPONENTS {
            MIN_WAVE_COMPONENTS
        } else if wave_components > MAX_WAVE_COMPONENTS {
            MAX_WAVE_COMPONENTS
        } else {
            wave_components
        },
{
    if wave_components < MIN_WAVE_COMPONENTS {
        MIN_WAVE_COMPONENTS
    } else if wave_components > MAX_WAVE_COMPONENTS {
        MAX_WAVE_COMPONENTS
    } else {
        wave_components
    }
}

/// Grid resolution of a patch's ocean cap: the patch resolution, bounded by
/// the quality budget, which is never below 2.
pub fn water_subdivision(patch_resolution: u32, max_subdivision: u32) -> (r: u32)
    ensures
        r == if max_subdivision < 2 {
            if patch_resolution < 2 { patch_resolution } else { 2 }
        } else if patch_resolution < max_subdivision {
            patch_resolution
        } else {
            max_subdivision
        },
{
    let budget: u32 = if max_subdivision < 2 {
        2
    } else {
        max_subdivision
    };
    if patch_resolution < budget {
        patch_resolution
    } else {
        budget
    }
}

} // verus!
