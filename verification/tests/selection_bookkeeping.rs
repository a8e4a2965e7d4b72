use cosmic_terrain::patch::{stitch_mask, CubeFace, PatchEdge, TerrainPatch};
use cosmic_terrain::selection::{
    held_split_ancestors, root_requests, roots, stale_cached_stitch_variants, stitch_edges_for, strict_ancestors,
    was_split,
};
use cosmic_terrain::streaming::PatchState;

fn patch(face: CubeFace, level: u32, tile_x: u32, tile_y: u32) -> TerrainPatch {
    TerrainPatch { face, level, tile_x, tile_y }
}

/// Same-face neighbors of an interior tile, in West, East, South, North order.
fn interior_neighbors(p: TerrainPatch) -> [TerrainPatch; 4] {
    [
        patch(p.face, p.level, p.tile_x - 1, p.tile_y),
        patch(p.face, p.level, p.tile_x + 1, p.tile_y),
        patch(p.face, p.level, p.tile_x, p.tile_y - 1),
        patch(p.face, p.level, p.tile_x, p.tile_y + 1),
    ]
}

fn stitch_pattern_scenario() {
    let tile = patch(CubeFace::PosZ, 2, 1, 1);
    let equal_neighbor = patch(CubeFace::PosZ, 2, 2, 1);
    let coarser_neighbor = equal_neighbor.parent().unwrap();
    let around = interior_neighbors(tile);
    let baked_mask = stitch_mask(&stitch_edges_for(&tile, &around, &[tile, equal_neighbor]));
    let cached = [(tile, baked_mask)];
    let neighbors = [(tile, around)];
    let target = [tile, coarser_neighbor];

    let published = [tile];
    let states = [(tile, PatchState::Visible)];
    assert!(stale_cached_stitch_variants(&target, &published, &states, &cached, &neighbors).is_empty());

    let states = [(tile, PatchState::Cached)];
    assert_eq!(stale_cached_stitch_variants(&target, &[], &states, &cached, &neighbors), vec![tile]);
}

#[test]
fn streaming_published_geometry_is_retained_when_its_stitch_pattern_changes() {
    stitch_pattern_scenario();
}

#[test]
fn terrain_streaming_published_geometry_is_retained_when_its_stitch_pattern_changes() {
    stitch_pattern_scenario();
}

#[test]
fn stitch_edges_follow_coarser_neighbor_leaves() {
    let tile = patch(CubeFace::PosZ, 2, 1, 1);
    let around = interior_neighbors(tile);
    assert!(stitch_edges_for(&tile, &around, &[tile]).is_empty());
    let coarser_east = patch(CubeFace::PosZ, 1, 1, 0);
    let edges = stitch_edges_for(&tile, &around, &[tile, coarser_east]);
    assert_eq!(edges, vec![PatchEdge::East]);
    assert_eq!(stitch_mask(&edges), 2);
    // A balanced cover: the tile's level-2 siblings and three coarser leaves.
    let cover = [
        patch(CubeFace::PosZ, 2, 0, 0),
        patch(CubeFace::PosZ, 2, 1, 0),
        patch(CubeFace::PosZ, 2, 0, 1),
        tile,
        coarser_east,
        patch(CubeFace::PosZ, 1, 0, 1),
        patch(CubeFace::PosZ, 1, 1, 1),
    ];
    let edges = stitch_edges_for(&tile, &around, &cover);
    assert_eq!(edges, vec![PatchEdge::East, PatchEdge::North]);
    assert_eq!(stitch_mask(&edges), 10);
    // A neighbor leaf two levels coarser does not stitch this edge.
    let root = patch(CubeFace::PosZ, 0, 0, 0);
    assert!(stitch_edges_for(&tile, &around, &[root]).is_empty());
}

#[test]
fn unchanged_stitch_pattern_is_not_rebuilt() {
    let tile = patch(CubeFace::PosZ, 2, 1, 1);
    let around = interior_neighbors(tile);
    let target = [tile, patch(CubeFace::PosZ, 1, 1, 0)];
    let mask = stitch_mask(&stitch_edges_for(&tile, &around, &target));
    let states = [(tile, PatchState::Ready)];
    let neighbors = [(tile, around)];
    assert!(stale_cached_stitch_variants(&target, &[], &states, &[(tile, mask)], &neighbors).is_empty());
    // A bake that is not resident is never rebuilt here.
    let requested = [(tile, PatchState::Requested)];
    assert!(stale_cached_stitch_variants(&target, &[], &requested, &[(tile, 0)], &neighbors).is_empty());
}

#[test]
fn previous_split_is_detected_per_node() {
    let root = patch(CubeFace::PosZ, 0, 0, 0);
    let previous = root.children();
    assert!(was_split(&root, &previous));
    assert!(!was_split(&previous[0], &previous));
    let other_face = patch(CubeFace::NegZ, 0, 0, 0);
    assert!(!was_split(&other_face, &previous));
}

#[test]
fn strict_ancestors_run_from_parent_to_root() {
    let leaf = patch(CubeFace::NegX, 3, 5, 6);
    assert_eq!(
        strict_ancestors(&leaf),
        vec![patch(CubeFace::NegX, 2, 2, 3), patch(CubeFace::NegX, 1, 1, 1), patch(CubeFace::NegX, 0, 0, 0)]
    );
    assert!(strict_ancestors(&patch(CubeFace::PosY, 0, 0, 0)).is_empty());
}

#[test]
fn generated_detail_in_view_holds_its_ancestor_path_split() {
    let detail = patch(CubeFace::PosZ, 2, 2, 2);
    let mut held = held_split_ancestors(&[detail], &[true], &[detail]);
    held.sort();
    assert_eq!(held, vec![patch(CubeFace::PosZ, 0, 0, 0), patch(CubeFace::PosZ, 1, 1, 1)]);
    // Out of view, or without generated geometry, nothing is held.
    assert!(held_split_ancestors(&[detail], &[false], &[detail]).is_empty());
    assert!(held_split_ancestors(&[detail], &[true], &[]).is_empty());
    // A root leaf has no ancestor to hold.
    let root = patch(CubeFace::NegZ, 0, 0, 0);
    assert!(held_split_ancestors(&[root], &[true], &[root]).is_empty());
    // Shared ancestors are listed once.
    let sibling = patch(CubeFace::PosZ, 2, 3, 2);
    let held = held_split_ancestors(&[detail, sibling], &[true, true], &[detail, sibling]);
    assert_eq!(held.len(), 2);
}

#[test]
fn roots_cover_every_face_once() {
    let all = roots();
    let faces: Vec<CubeFace> = all.iter().map(|root| root.face).collect();
    assert_eq!(
        faces,
        vec![CubeFace::PosX, CubeFace::NegX, CubeFace::PosY, CubeFace::NegY, CubeFace::PosZ, CubeFace::NegZ]
    );
    assert!(all.iter().all(|root| root.level == 0 && root.tile_x == 0 && root.tile_y == 0));
}

#[test]
fn viewport_roots_keep_the_focused_root_as_fallback() {
    let focused = patch(CubeFace::NegY, 0, 0, 0);
    let mut requested = root_requests(&[false, false, false, false, true, false], focused);
    requested.sort();
    assert_eq!(requested, vec![focused, patch(CubeFace::PosZ, 0, 0, 0)]);
    let requested = root_requests(&[false; 6], focused);
    assert_eq!(requested, vec![focused]);
    // The focused root is listed once when it is also in view.
    let requested = root_requests(&[false, false, false, true, false, false], focused);
    assert_eq!(requested, vec![focused]);
    assert_eq!(root_requests(&[true; 6], focused).len(), 6);
}
