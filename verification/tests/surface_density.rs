use cosmic_terrain::surface::{
    evenly_thinned_indices,
    max_river_mesh_bytes, max_vegetation_mesh_bytes, scatter_count_for_level, supports_local_surfaces,
    supports_vegetation, thinned_scatter_count, LOCAL_SURFACE_MAP_BYTES, LOCAL_SURFACE_MIN_PATCH_LEVEL,
    ROCK_COUNT, TREE_COUNT, VEGETATION_MIN_PATCH_LEVEL,
};
use cosmic_terrain::terrain_surface;
use cosmic_terrain::terrain_surface as legacy;
use cosmic_terrain::terrain_surface::scatter_count_for_level as legacy_scatter;

#[test]
fn deterministic_vegetation_is_restricted_to_close_range_patches() {
    assert!(!supports_vegetation(VEGETATION_MIN_PATCH_LEVEL - 1));
    assert!(supports_vegetation(VEGETATION_MIN_PATCH_LEVEL));
}

#[test]
fn local_surface_maps_are_restricted_to_close_range_patches() {
    assert!(!supports_local_surfaces(LOCAL_SURFACE_MIN_PATCH_LEVEL - 1));
    assert!(supports_local_surfaces(LOCAL_SURFACE_MIN_PATCH_LEVEL));
    // Vegetation still starts one level finer than local maps.
    assert!(!supports_vegetation(LOCAL_SURFACE_MIN_PATCH_LEVEL));
    assert!(supports_vegetation(VEGETATION_MIN_PATCH_LEVEL));
}

#[test]
fn scatter_reaches_local_density_without_exceeding_patch_caps() {
    assert_eq!(scatter_count_for_level(TREE_COUNT, VEGETATION_MIN_PATCH_LEVEL), 128);
    assert_eq!(scatter_count_for_level(TREE_COUNT, VEGETATION_MIN_PATCH_LEVEL + 1), 128);
    assert_eq!(scatter_count_for_level(TREE_COUNT, VEGETATION_MIN_PATCH_LEVEL + 2), 128);
    assert_eq!(scatter_count_for_level(TREE_COUNT, VEGETATION_MIN_PATCH_LEVEL + 3), 32);
    assert_eq!(scatter_count_for_level(ROCK_COUNT, VEGETATION_MIN_PATCH_LEVEL + 2), 28);
}

#[test]
fn vegetation_is_limited_to_the_finest_terrain_tiles() {
    assert!(!terrain_surface::supports_vegetation(terrain_surface::VEGETATION_MIN_PATCH_LEVEL - 1));
    assert!(terrain_surface::supports_vegetation(terrain_surface::VEGETATION_MIN_PATCH_LEVEL));
}

#[test]
fn scatter_density_stays_stable_as_patches_refine() {
    assert_eq!(legacy_scatter(legacy::TREE_COUNT, legacy::VEGETATION_MIN_PATCH_LEVEL), 64);
    assert_eq!(legacy_scatter(legacy::TREE_COUNT, legacy::VEGETATION_MIN_PATCH_LEVEL + 1), 16);
    assert_eq!(legacy_scatter(legacy::TREE_COUNT, legacy::VEGETATION_MIN_PATCH_LEVEL + 2), 4);
    assert_eq!(legacy_scatter(legacy::TREE_COUNT, legacy::VEGETATION_MIN_PATCH_LEVEL + 3), 1);
    assert_eq!(legacy_scatter(legacy::ROCK_COUNT, legacy::VEGETATION_MIN_PATCH_LEVEL + 2), 1);
}

#[test]
fn each_finer_level_keeps_a_quarter_never_below_one() {
    for level in 14..40u32 {
        let here = scatter_count_for_level(TREE_COUNT, level);
        let finer = scatter_count_for_level(TREE_COUNT, level + 1);
        assert_eq!(finer, (here / 4).max(1), "level {level}");
        assert!(finer <= here);
        assert!(finer >= 1);
    }
}

#[test]
fn scatter_never_exceeds_the_cap_and_survives_huge_levels() {
    assert_eq!(scatter_count_for_level(TREE_COUNT, 0), TREE_COUNT);
    assert_eq!(scatter_count_for_level(TREE_COUNT, u32::MAX), 1);
    assert_eq!(scatter_count_for_level(0, 3), 1);
    assert_eq!(thinned_scatter_count(usize::MAX, 100, 10), 1);
    assert_eq!(thinned_scatter_count(1024, 12, 10), 64);
}

#[test]
fn river_budget_covers_the_core_grid() {
    // A fully wet 33 x 33 grid: 32 * 32 cells of 4 vertices at 48 bytes and
    // 6 indices at 4 bytes.
    assert_eq!(max_river_mesh_bytes(33), 32 * 32 * (4 * 48 + 6 * 4));
    // A fully wet 3 x 3 grid needs 4 * 216 bytes.
    assert_eq!(max_river_mesh_bytes(3), 864);
    // Degenerate resolutions use a 2 x 2 grid: one cell.
    assert_eq!(max_river_mesh_bytes(0), 4 * 48 + 6 * 4);
    assert_eq!(max_river_mesh_bytes(1), max_river_mesh_bytes(2));
}

#[test]
fn vegetation_budget_counts_every_tree_rock_and_tuft() {
    // Trees: 50 vertices and 90 indices each; rocks: 28 clusters of three
    // bodies with 48 vertices and 240 indices; tufts: 12 vertices, 18 indices.
    let without_grass = (128 * 50 + 28 * 3 * 48) * 48 + (128 * 90 + 28 * 3 * 240) * 4;
    assert_eq!(max_vegetation_mesh_bytes(0), without_grass);
    assert_eq!(max_vegetation_mesh_bytes(1024), without_grass + 1024 * (12 * 48 + 18 * 4));
}

#[test]
fn single_pass_budgets_match_their_catalog() {
    assert_eq!(terrain_surface::MAX_VEGETATION_MESH_BYTES, 251_424);
    assert_eq!(terrain_surface::LOCAL_SURFACE_MAP_BYTES, 128 * 128 * 8);
    assert_eq!(LOCAL_SURFACE_MAP_BYTES, 174_762);
    assert!(terrain_surface::supports_local_surfaces(12));
    assert!(!terrain_surface::supports_local_surfaces(11));
}

#[test]
fn saturated_candidates_are_thinned_evenly() {
    assert_eq!(evenly_thinned_indices(10, 4), vec![0, 2, 5, 7]);
    assert_eq!(evenly_thinned_indices(3, 2), vec![0, 1]);
    assert_eq!(evenly_thinned_indices(5, 0), Vec::<usize>::new());
}
