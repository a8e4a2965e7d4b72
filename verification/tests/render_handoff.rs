use cosmic_terrain::patch::{CubeFace, TerrainPatch};
use cosmic_terrain::render_index::{
    has_departing_ancestor_render_entity, has_published_descendant, has_visible_departing_ancestor, hide_step,
    published_cover_is_renderable, published_descendants, should_show_published, upload_is_current, HideStep,
};
use cosmic_terrain::uploads::{TerrainPatchReady, TerrainPatchRenderKey};

const PLANET: u64 = 42;

fn root() -> TerrainPatch {
    TerrainPatch { face: CubeFace::PosY, level: 0, tile_x: 0, tile_y: 0 }
}

fn key(patch: TerrainPatch) -> TerrainPatchRenderKey {
    TerrainPatchRenderKey { planet_entity: PLANET, patch }
}

#[test]
fn a_child_of_a_rendered_departing_parent_spawns_hidden() {
    let parent = root();
    let child = parent.children()[1];
    let grandchild = child.children()[0];
    // The parent left publication but its entity still renders.
    assert!(has_departing_ancestor_render_entity(child, PLANET, &[child], &[key(parent)]));
    assert!(has_departing_ancestor_render_entity(grandchild, PLANET, &[grandchild], &[key(parent)]));
    // A published parent is not departing.
    assert!(!has_departing_ancestor_render_entity(child, PLANET, &[parent, child], &[key(parent)]));
    // Another planet's entity does not count.
    let other = TerrainPatchRenderKey { planet_entity: PLANET + 1, patch: parent };
    assert!(!has_departing_ancestor_render_entity(child, PLANET, &[child], &[other]));
    // A root has no ancestor.
    assert!(!has_departing_ancestor_render_entity(parent, PLANET, &[], &[key(parent)]));
    // Only shown entities matter for the visible variant.
    assert!(!has_visible_departing_ancestor(child, PLANET, &[child], &[]));
}

#[test]
fn a_parent_cover_is_renderable_only_when_every_quadrant_is_rendered() {
    let parent = root();
    let children = parent.children();
    let published: Vec<_> = children.to_vec();
    let all_rendered: Vec<_> = children.iter().map(|child| key(*child)).collect();
    assert!(published_cover_is_renderable(parent, PLANET, &published, &all_rendered));
    assert!(!published_cover_is_renderable(parent, PLANET, &published, &all_rendered[..3]));
    // A quadrant refined one level deeper must itself be fully covered.
    let deeper: Vec<_> = children[3].children().to_vec();
    let mut published_deeper = children[..3].to_vec();
    published_deeper.extend_from_slice(&deeper);
    let mut rendered_deeper = all_rendered[..3].to_vec();
    rendered_deeper.extend(deeper.iter().map(|patch| key(*patch)));
    assert!(published_cover_is_renderable(parent, PLANET, &published_deeper, &rendered_deeper));
    // A missing quadrant leaves a hole.
    assert!(!published_cover_is_renderable(parent, PLANET, &published[..3], &all_rendered));
    assert!(has_published_descendant(children[3], &published_deeper));
    assert!(!has_published_descendant(children[3], &published[..3]));
}

#[test]
fn the_hide_pass_waits_for_a_rendered_replacement_cover() {
    let parent = root();
    let children = parent.children();
    let published: Vec<_> = children.to_vec();
    let parent_key = key(parent);
    // Republished: nothing to hide.
    assert_eq!(hide_step(parent_key, &[parent], &[parent_key]), HideStep::Drop);
    // Replacements exist but one is not rendered yet.
    let partial: Vec<_> = vec![parent_key, key(children[0]), key(children[1]), key(children[2])];
    assert_eq!(hide_step(parent_key, &published, &partial), HideStep::Wait);
    // Replacement cover rendered: hide the parent.
    let mut complete = partial.clone();
    complete.push(key(children[3]));
    assert_eq!(hide_step(parent_key, &published, &complete), HideStep::Hide);
    // No render entity left: forget the pending hide.
    assert_eq!(hide_step(parent_key, &[], &[]), HideStep::Forget);
    assert_eq!(published_descendants(parent, &published), published);
    assert!(published_descendants(children[0], &published).is_empty());
}

#[test]
fn published_patches_are_shown_unless_a_departing_parent_is_shown() {
    let parent = root();
    let child = parent.children()[0];
    let child_key = key(child);
    assert!(should_show_published(child_key, Some(PLANET), &[child], &[]));
    assert!(!should_show_published(child_key, Some(PLANET), &[child], &[key(parent)]));
    assert!(should_show_published(child_key, None, &[child], &[]));
    assert!(!should_show_published(child_key, Some(PLANET + 1), &[child], &[]));
    assert!(!should_show_published(child_key, Some(PLANET), &[], &[]));
}

#[test]
fn queued_uploads_are_current_only_for_new_published_patches_of_the_active_planet() {
    let patch = root().children()[2];
    let event = TerrainPatchReady { patch, planet_entity: PLANET };
    assert!(upload_is_current(event, Some(PLANET), &[patch], &[]));
    assert!(!upload_is_current(event, Some(PLANET), &[patch], &[key(patch)]));
    assert!(!upload_is_current(event, Some(PLANET), &[], &[]));
    assert!(!upload_is_current(event, None, &[patch], &[]));
}

fn pos_z_centre(level: u32) -> TerrainPatch {
    let tile = if level == 0 { 0 } else { 1 << (level - 1) };
    TerrainPatch { face: CubeFace::PosZ, level, tile_x: tile, tile_y: tile }
}

#[test]
fn spatial_lod_transitions_keep_a_2_to_1_stitch_compatible_resolution() {
    let config = cosmic_terrain::render_config::TerrainRenderConfig::default();
    let coarse = pos_z_centre(11);
    let fine = pos_z_centre(12);

    assert_eq!(config.patch_resolution_for(coarse), 33);
    assert_eq!(
        config.patch_resolution_for(fine),
        config.patch_resolution_for(coarse),
        "a 2:1 spatial LOD edge must not become a 4:1 grid-sample transition"
    );
}

#[test]
fn single_pass_renderer_uses_a_denser_grid_for_the_finest_levels() {
    let config = cosmic_terrain::terrain_render::TerrainRenderConfig::default();
    assert_eq!(config.patch_resolution_for(pos_z_centre(0)), 33);
    assert_eq!(config.patch_resolution_for(pos_z_centre(11)), 33);
    assert_eq!(config.patch_resolution_for(pos_z_centre(12)), 65);
    assert_eq!(config.patch_resolution_for(pos_z_centre(14)), 65);
}
