use cosmic_terrain::patch::{CubeFace, TerrainPatch};
use cosmic_terrain::streaming::{
    bind_planet, PlanetBinding,
    add_viewport_lod_group, build_requested, plan_cancellation, clear_action, count_repeated_requests, count_with_parent_in, estimated_patch_bytes, generation_batch,
    generation_capacity, generation_priority_group, metrics_report_due, next_metrics_report_at,
    patch_needs_geometry, plan_publication, stale_patches, state_of, ClearAction, PatchLevelDistribution,
    PatchState, PatchViewportVisibility, TerrainCancellation, TerrainCullingStats, BYTES_PER_INDEX,
    DOMAIN_BYTES_PER_VERTEX, RENDER_BYTES_PER_VERTEX,
};
use cosmic_terrain::surface::{max_vegetation_mesh_bytes, LOCAL_SURFACE_MAP_BYTES, VEGETATION_MIN_PATCH_LEVEL};
use cosmic_terrain::terrain_streaming;
use cosmic_terrain::terrain_surface;

const FACES: [CubeFace; 6] =
    [CubeFace::PosX, CubeFace::NegX, CubeFace::PosY, CubeFace::NegY, CubeFace::PosZ, CubeFace::NegZ];

fn root(face: CubeFace) -> TerrainPatch {
    TerrainPatch { face, level: 0, tile_x: 0, tile_y: 0 }
}

fn roots() -> Vec<TerrainPatch> {
    FACES.iter().map(|face| root(*face)).collect()
}

/// The patch of `level` at the centre of the +Z face.
fn centre_of_pos_z(level: u32) -> TerrainPatch {
    let tile = if level == 0 { 0 } else { 1 << (level - 1) };
    TerrainPatch { face: CubeFace::PosZ, level, tile_x: tile, tile_y: tile }
}

const GRASS_BUDGET: u64 = 2048;

#[test]
fn streaming_patch_byte_estimate_accounts_for_skirts_and_render_meshes() {
    let resolution = 33;
    let grid_vertices = u64::from(resolution) * u64::from(resolution);
    let skirt_vertices = 4 * (u64::from(resolution) - 1);

    assert!(
        estimated_patch_bytes(root(CubeFace::PosZ), resolution, GRASS_BUDGET)
            > (grid_vertices + skirt_vertices) * DOMAIN_BYTES_PER_VERTEX,
        "the budget must include the renderer copy and index buffers"
    );
}

#[test]
fn vegetation_budget_applies_only_to_close_range_patches() {
    let coarse = root(CubeFace::PosZ);
    let non_vegetated = centre_of_pos_z(VEGETATION_MIN_PATCH_LEVEL - 1);
    let vegetated = centre_of_pos_z(VEGETATION_MIN_PATCH_LEVEL);

    assert_eq!(
        estimated_patch_bytes(non_vegetated, 33, GRASS_BUDGET),
        estimated_patch_bytes(coarse, 33, GRASS_BUDGET) + LOCAL_SURFACE_MAP_BYTES,
        "a level-11 patch reserves its local maps but no scatter"
    );
    assert_eq!(
        estimated_patch_bytes(vegetated, 33, GRASS_BUDGET),
        estimated_patch_bytes(coarse, 33, GRASS_BUDGET) + LOCAL_SURFACE_MAP_BYTES + max_vegetation_mesh_bytes(GRASS_BUDGET)
    );
}

#[test]
fn patch_bytes_follow_the_mesh_formula() {
    let res = 33u64;
    let vertices = res * res + 4 * (res - 1);
    let indices = 6 * ((res - 1) * (res - 1) + 4 * (res - 1));
    let expected = vertices * (DOMAIN_BYTES_PER_VERTEX + RENDER_BYTES_PER_VERTEX) + indices * 2 * BYTES_PER_INDEX;
    assert_eq!(estimated_patch_bytes(root(CubeFace::NegX), 33, GRASS_BUDGET), expected);
    assert_eq!(estimated_patch_bytes(root(CubeFace::NegX), 0, GRASS_BUDGET), estimated_patch_bytes(root(CubeFace::NegX), 2, GRASS_BUDGET));
}

#[test]
fn terrain_streaming_patch_byte_estimate_accounts_for_skirts_and_render_meshes() {
    let resolution = 33;
    let patch = root(CubeFace::PosZ);
    let grid_vertices = u64::from(resolution) * u64::from(resolution);
    let skirt_vertices = 4 * (u64::from(resolution) - 1);

    assert!(
        terrain_streaming::estimated_patch_bytes(patch, resolution)
            > (grid_vertices + skirt_vertices) * DOMAIN_BYTES_PER_VERTEX,
        "the budget must include the renderer copy and index buffers"
    );
}

#[test]
fn vegetation_budget_only_applies_at_the_finest_detail_level() {
    let coarse = root(CubeFace::PosZ);
    let non_vegetated_refined = centre_of_pos_z(terrain_surface::VEGETATION_MIN_PATCH_LEVEL - 1);
    let vegetation_detail = centre_of_pos_z(terrain_surface::VEGETATION_MIN_PATCH_LEVEL);

    assert_eq!(
        terrain_streaming::estimated_patch_bytes(non_vegetated_refined, 33),
        terrain_streaming::estimated_patch_bytes(coarse, 33),
        "lower-detail patches must not reserve invisible vegetation"
    );
    assert_eq!(
        terrain_streaming::estimated_patch_bytes(vegetation_detail, 33),
        terrain_streaming::estimated_patch_bytes(coarse, 33)
            + terrain_surface::LOCAL_SURFACE_MAP_BYTES
            + terrain_surface::MAX_VEGETATION_MESH_BYTES
    );
}

fn requested_roots() -> Vec<(TerrainPatch, PatchState)> {
    roots().into_iter().map(|patch| (patch, PatchState::Requested)).collect()
}

#[test]
fn streaming_generation_capacity_admits_a_bounded_parallel_batch() {
    let roots = roots();
    let mut states = requested_roots();

    let bootstrap_batch = generation_batch(&roots, &states, &[], generation_capacity(4, 0));
    assert_eq!(bootstrap_batch, roots[..2].to_vec());

    let focus = root(CubeFace::PosZ);
    let generated = vec![focus];
    for entry in states.iter_mut() {
        if entry.0 == focus {
            entry.1 = PatchState::Visible;
        }
    }
    let later_batch = generation_batch(&roots, &states, &generated, generation_capacity(4, 0));
    assert_eq!(later_batch.len(), 2);
    assert!(!later_batch.contains(&focus));

    assert_eq!(generation_capacity(4, 4), 0);
    assert_eq!(generation_capacity(8, 6), 2);
    assert_eq!(generation_capacity(8, 3), 2);
}

#[test]
fn terrain_streaming_generation_capacity_admits_a_bounded_parallel_batch() {
    let roots = roots();
    let mut states = requested_roots();

    let bootstrap_batch =
        terrain_streaming::generation_batch(&roots, &states, &[], terrain_streaming::generation_capacity(4, 0));
    assert_eq!(bootstrap_batch, roots[..2].to_vec());

    let focus = root(CubeFace::PosZ);
    let generated = vec![focus];
    for entry in states.iter_mut() {
        if entry.0 == focus {
            entry.1 = PatchState::Visible;
        }
    }
    let later_batch =
        terrain_streaming::generation_batch(&roots, &states, &generated, terrain_streaming::generation_capacity(4, 0));
    assert_eq!(later_batch.len(), 2);
    assert!(!later_batch.contains(&focus));

    assert_eq!(terrain_streaming::generation_capacity(4, 4), 0);
    assert_eq!(terrain_streaming::generation_capacity(8, 6), 2);
    assert_eq!(terrain_streaming::generation_capacity(8, 3), 2);
}

#[test]
fn generation_batch_skips_generated_and_unrequested_patches() {
    let roots = roots();
    let states = vec![
        (roots[0], PatchState::Generating),
        (roots[1], PatchState::Requested),
        (roots[2], PatchState::Requested),
        (roots[3], PatchState::Requested),
    ];
    let batch = generation_batch(&roots, &states, &[roots[2]], 5);
    assert_eq!(batch, vec![roots[1], roots[3]]);
    assert_eq!(generation_batch(&roots, &states, &[], 0), Vec::<TerrainPatch>::new());
    assert!(patch_needs_geometry(Some(PatchState::Requested), false));
    assert!(!patch_needs_geometry(Some(PatchState::Requested), true));
    assert!(!patch_needs_geometry(None, false));
    assert_eq!(state_of(&states, &roots[0]), Some(PatchState::Generating));
    assert_eq!(state_of(&states, &roots[5]), None);
}

#[test]
fn streaming_stale_requested_patches_are_removed_before_generation() {
    let keep = root(CubeFace::PosZ);
    let stale = root(CubeFace::NegZ);
    let states = vec![(keep, PatchState::Requested), (stale, PatchState::Requested)];

    let cancelled = stale_patches(&states, PatchState::Requested, &[keep], &[]);
    let cancellation = TerrainCancellation { inflight: 0, requested: cancelled.len() };
    assert_eq!(cancellation.requested, 1);
    assert_eq!(cancelled, vec![stale]);
    assert_eq!(cancellation.total(), 1);
}

#[test]
fn stale_ready_geometry_excludes_requested_and_published_patches() {
    let roots = roots();
    let states = vec![
        (roots[0], PatchState::Ready),
        (roots[1], PatchState::Ready),
        (roots[2], PatchState::Ready),
        (roots[3], PatchState::Visible),
    ];
    let stale = stale_patches(&states, PatchState::Ready, &[roots[0]], &[roots[1]]);
    assert_eq!(stale, vec![roots[2]]);
}

#[test]
fn streaming_viewport_request_keeps_the_complete_sibling_group_for_progressive_lod() {
    let parent = root(CubeFace::PosZ);
    let selected: Vec<_> = parent.children().into_iter().collect();
    let mut requested = Vec::new();

    add_viewport_lod_group(parent.children()[0], &selected, &mut requested);

    assert!(parent.children().into_iter().all(|child| requested.contains(&child)));
    assert!(requested.contains(&parent));
}

#[test]
fn terrain_streaming_viewport_request_keeps_the_complete_sibling_group_for_progressive_lod() {
    let parent = root(CubeFace::PosZ);
    let selected: Vec<_> = parent.children().into_iter().collect();
    let mut requested = Vec::new();

    terrain_streaming::add_viewport_lod_group(parent.children()[0], &selected, &mut requested);

    assert!(parent.children().into_iter().all(|child| requested.contains(&child)));
    assert!(requested.contains(&parent));
}

#[test]
fn lod_group_walks_every_ancestor_without_duplicates() {
    let grandparent = root(CubeFace::NegY);
    let parent = grandparent.children()[3];
    let leaf = parent.children()[1];
    let selected = vec![leaf, parent.children()[2], parent, grandparent.children()[0]];
    let mut requested = vec![grandparent];
    add_viewport_lod_group(leaf, &selected, &mut requested);
    // Selected siblings at every level, the root once, nothing unselected.
    assert_eq!(requested.len(), 5);
    for patch in &selected {
        assert!(requested.contains(patch));
    }
    assert!(!requested.contains(&parent.children()[0]));
}

#[test]
fn patch_level_distribution_reports_each_selected_lod() {
    let root = root(CubeFace::PosZ);
    let children = root.children();
    let distribution = PatchLevelDistribution::from_patches(&[root, children[0], children[1]]);

    assert_eq!(distribution.levels, vec![(0, 1), (1, 2)]);
}

#[test]
fn level_distribution_sorts_levels() {
    let a = centre_of_pos_z(5);
    let b = centre_of_pos_z(2);
    let c = root(CubeFace::NegX);
    let distribution = PatchLevelDistribution::from_patches(&[a, b, a, c, b, b]);
    assert_eq!(distribution.levels, vec![(0, 1), (2, 3), (5, 2)]);
    assert!(PatchLevelDistribution::from_patches(&[]).levels.is_empty());
}

#[test]
fn publication_replaces_the_cover_with_requested_visible_leaves() {
    let roots = roots();
    let published = vec![roots[0], roots[1], roots[2]];
    let visible_leaves = vec![roots[1], roots[3], roots[4]];
    let requested = vec![roots[1], roots[3], roots[5]];
    let publication = plan_publication(&published, &visible_leaves, &requested);
    assert_eq!(publication.published, vec![roots[1], roots[3]]);
    assert_eq!(publication.departed, vec![roots[0], roots[2]]);
    assert_eq!(publication.arrived, vec![roots[3]]);
}

#[test]
fn lod_splits_and_merges_count_parents_in_the_other_target() {
    let parent = root(CubeFace::PosX);
    let children = parent.children();
    let previous = vec![parent, root(CubeFace::NegX)];
    let target = vec![children[0], children[1], children[2], children[3], root(CubeFace::NegX)];
    assert_eq!(count_with_parent_in(&target, &previous), 4);
    assert_eq!(count_with_parent_in(&previous, &target), 0);
}

#[test]
fn priority_groups_rank_roots_replacements_and_focus() {
    let parent = root(CubeFace::PosZ);
    let child = parent.children()[2];
    let unpublished_root = root(CubeFace::NegZ);
    let focus_chain = vec![parent, child];
    // An unpublished root comes first, anchored at itself.
    assert_eq!(generation_priority_group(unpublished_root, &[], &[], &focus_chain), (0, unpublished_root));
    // A published root is ordinary work.
    assert_eq!(generation_priority_group(parent, &[parent], &[parent], &focus_chain), (2, parent));
    // A child that replaces a published parent leaving the target.
    assert_eq!(generation_priority_group(child, &[parent], &[], &focus_chain), (0, parent));
    // A child on the focus path.
    assert_eq!(generation_priority_group(child, &[], &[], &focus_chain), (1, parent));
    // Anything else.
    assert_eq!(generation_priority_group(child, &[], &[], &[]), (2, child));
}

#[test]
fn culling_stats_count_each_rejection_reason() {
    let mut stats = TerrainCullingStats::new();
    stats.record(PatchViewportVisibility::Visible);
    stats.record(PatchViewportVisibility::BehindHorizon);
    stats.record(PatchViewportVisibility::OutsideFrustum);
    stats.record(PatchViewportVisibility::OutsideFrustum);
    assert_eq!(stats, TerrainCullingStats { candidates: 4, horizon_rejected: 1, frustum_rejected: 2 });
}

#[test]
fn clearing_the_cache_cancels_pending_work_and_evicts_resident_geometry() {
    assert_eq!(clear_action(PatchState::Requested), ClearAction::CancelPending);
    assert_eq!(clear_action(PatchState::Generating), ClearAction::CancelPending);
    assert_eq!(clear_action(PatchState::Loading), ClearAction::CancelPending);
    assert_eq!(clear_action(PatchState::Ready), ClearAction::Evict);
    assert_eq!(clear_action(PatchState::Visible), ClearAction::Evict);
    assert_eq!(clear_action(PatchState::Cached), ClearAction::Evict);
    assert_eq!(clear_action(PatchState::Evicted), ClearAction::Nothing);
}

#[test]
fn metrics_are_reported_every_thirty_two_generated_tiles() {
    assert!(!metrics_report_due(0, 100, 0));
    assert!(metrics_report_due(1, 0, 0));
    assert!(!metrics_report_due(1, 31, 32));
    assert_eq!(next_metrics_report_at(40), 72);
}

#[test]
fn request_set_joins_roots_in_view_and_lod_groups() {
    let parent = root(CubeFace::PosZ);
    let children = parent.children();
    let selection = children.to_vec();
    let requested = build_requested(&[root(CubeFace::NegZ), root(CubeFace::NegZ)], &[children[1]], &selection);
    assert_eq!(requested.len(), 6);
    assert!(requested.contains(&root(CubeFace::NegZ)));
    assert!(requested.contains(&parent));
    assert!(children.iter().all(|child| requested.contains(child)));
}

#[test]
fn cancellation_drops_unrequested_bakes_and_requests() {
    let roots = roots();
    let states = vec![
        (roots[0], PatchState::Requested),
        (roots[1], PatchState::Requested),
        (roots[2], PatchState::Generating),
    ];
    let plan = plan_cancellation(&[roots[2], roots[3]], &states, &[roots[0], roots[3]]);
    assert_eq!(plan.inflight, vec![roots[2]]);
    assert_eq!(plan.requested, vec![roots[1]]);
    assert_eq!(plan.counts, TerrainCancellation { inflight: 1, requested: 1 });
    assert_eq!(plan.counts.total(), 2);
}

#[test]
fn repeated_requests_count_only_pending_requests() {
    let a = centre_of_pos_z(1);
    let b = centre_of_pos_z(2);
    let c = centre_of_pos_z(3);
    let states = [(a, PatchState::Requested), (b, PatchState::Ready), (c, PatchState::Requested)];
    assert_eq!(count_repeated_requests(&[a, b, c], &states), 2);
    assert_eq!(count_repeated_requests(&[b], &states), 0);
    assert_eq!(count_repeated_requests(&[root(CubeFace::PosX)], &states), 0);
}

#[test]
fn publication_lists_follow_patch_order() {
    let a = centre_of_pos_z(2);
    let b = centre_of_pos_z(3);
    let c = root(CubeFace::PosX);
    // The selection lists b before a, and repeats a.
    let publication = plan_publication(&[], &[b, a, a], &[a, b]);
    assert_eq!(publication.published, vec![a, b]);
    assert_eq!(publication.arrived, vec![a, b]);
    assert!(publication.departed.is_empty());
    // Departures follow patch order too, whatever the order of `published`.
    let publication = plan_publication(&[b, c, a], &[], &[]);
    assert!(publication.published.is_empty());
    assert_eq!(publication.departed, vec![c, a, b]);
}

#[test]
fn switching_planets_clears_the_previous_planets_terrain() {
    let stay = bind_planet(Some(7), Some(7));
    assert_eq!(stay, PlanetBinding { clear_cache: false, evicted_planet: None, active_planet: Some(7) });
    let first = bind_planet(None, Some(7));
    assert_eq!(first, PlanetBinding { clear_cache: false, evicted_planet: None, active_planet: Some(7) });
    let switch = bind_planet(Some(7), Some(9));
    assert_eq!(switch, PlanetBinding { clear_cache: true, evicted_planet: Some(7), active_planet: Some(9) });
    let lost = bind_planet(Some(7), None);
    assert_eq!(lost, PlanetBinding { clear_cache: true, evicted_planet: Some(7), active_planet: None });
    let idle = bind_planet(None, None);
    assert_eq!(idle, PlanetBinding { clear_cache: true, evicted_planet: None, active_planet: None });
}
