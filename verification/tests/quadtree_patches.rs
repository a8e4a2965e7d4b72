use cosmic_terrain::patch::{contains_patch, insert_patch, stitch_mask, CubeFace, PatchEdge, TerrainPatch};

#[test]
fn children_split_the_parent_and_point_back_to_it() {
    let parent = TerrainPatch { face: CubeFace::NegZ, level: 3, tile_x: 5, tile_y: 2 };
    let children = parent.children();
    assert_eq!(children[0], TerrainPatch { face: CubeFace::NegZ, level: 4, tile_x: 10, tile_y: 4 });
    assert_eq!(children[3], TerrainPatch { face: CubeFace::NegZ, level: 4, tile_x: 11, tile_y: 5 });
    for child in children {
        assert_eq!(child.parent(), Some(parent));
        assert!(parent.is_ancestor_of(&child));
        assert!(!child.is_ancestor_of(&parent));
    }
    assert!(parent.is_ancestor_of(&parent));
    assert_eq!(TerrainPatch { face: CubeFace::PosX, level: 0, tile_x: 0, tile_y: 0 }.parent(), None);
}

#[test]
fn ancestry_spans_several_levels_on_one_face() {
    let root = TerrainPatch { face: CubeFace::PosY, level: 0, tile_x: 0, tile_y: 0 };
    let deep = TerrainPatch { face: CubeFace::PosY, level: 6, tile_x: 63, tile_y: 17 };
    assert!(root.is_ancestor_of(&deep));
    let other_face = TerrainPatch { face: CubeFace::NegY, ..deep };
    assert!(!root.is_ancestor_of(&other_face));
    let mid = TerrainPatch { face: CubeFace::PosY, level: 3, tile_x: 7, tile_y: 2 };
    assert!(mid.is_ancestor_of(&deep));
    let off = TerrainPatch { face: CubeFace::PosY, level: 3, tile_x: 6, tile_y: 2 };
    assert!(!off.is_ancestor_of(&deep));
}

#[test]
fn stitch_mask_sets_one_bit_per_edge() {
    assert_eq!(stitch_mask(&[]), 0);
    assert_eq!(stitch_mask(&[PatchEdge::West]), 1);
    assert_eq!(stitch_mask(&[PatchEdge::East, PatchEdge::North]), 2 | 8);
    assert_eq!(stitch_mask(&[PatchEdge::South, PatchEdge::South]), 4);
    assert_eq!(
        stitch_mask(&[PatchEdge::West, PatchEdge::East, PatchEdge::South, PatchEdge::North]),
        15
    );
}

#[test]
fn patch_sets_hold_each_patch_once() {
    let a = TerrainPatch { face: CubeFace::PosZ, level: 1, tile_x: 0, tile_y: 1 };
    let b = TerrainPatch { face: CubeFace::PosZ, level: 1, tile_x: 1, tile_y: 1 };
    let mut set = Vec::new();
    insert_patch(&mut set, a);
    insert_patch(&mut set, b);
    insert_patch(&mut set, a);
    assert_eq!(set, vec![a, b]);
    assert!(contains_patch(&set, &b));
}
