use cosmic_terrain::patch::{CubeFace, TerrainPatch};
use cosmic_terrain::scheduling::{
    generation_key, key_less, prioritize_generation_requests, GenerationCandidate, GenerationKey,
};
use cosmic_terrain::streaming::generation_priority_group;
use std::collections::BTreeSet;

const FACES: [CubeFace; 6] =
    [CubeFace::PosX, CubeFace::NegX, CubeFace::PosY, CubeFace::NegY, CubeFace::PosZ, CubeFace::NegZ];

fn root(face: CubeFace) -> TerrainPatch {
    TerrainPatch { face, level: 0, tile_x: 0, tile_y: 0 }
}

fn roots() -> Vec<TerrainPatch> {
    FACES.iter().map(|face| root(*face)).collect()
}

fn face_direction(face: CubeFace) -> [f64; 3] {
    match face {
        CubeFace::PosX => [1.0, 0.0, 0.0],
        CubeFace::NegX => [-1.0, 0.0, 0.0],
        CubeFace::PosY => [0.0, 1.0, 0.0],
        CubeFace::NegY => [0.0, -1.0, 0.0],
        CubeFace::PosZ => [0.0, 0.0, 1.0],
        CubeFace::NegZ => [0.0, 0.0, -1.0],
    }
}

/// Angular key of a patch relative to the focus. The asserted orders below
/// are decided by the scheduling tiers; distances only break ties inside a
/// tier, so each patch is placed at its face centre.
fn angular_key(patch: TerrainPatch, focus: [f64; 3]) -> u64 {
    let d = face_direction(patch.face);
    let dot = d[0] * focus[0] + d[1] * focus[1] + d[2] * focus[2];
    ((1.0 - dot).max(0.0) * 1_000_000.0) as u64
}

/// Order `requested` with no viewport (every anchor counts as in view) and
/// the focus on `focused_root`'s face.
fn prioritize(
    requested: &BTreeSet<TerrainPatch>,
    published: &BTreeSet<TerrainPatch>,
    target_leaves: &BTreeSet<TerrainPatch>,
    focus: [f64; 3],
    focused_root: TerrainPatch,
) -> Vec<TerrainPatch> {
    let published: Vec<_> = published.iter().copied().collect();
    let target: Vec<_> = target_leaves.iter().copied().collect();
    let focus_chain = vec![focused_root];
    let candidates: Vec<GenerationCandidate> = requested
        .iter()
        .map(|patch| {
            let group = generation_priority_group(*patch, &published, &target, &focus_chain);
            let key = generation_key(
                *patch,
                group,
                true,
                focused_root,
                angular_key(group.1, focus),
                angular_key(*patch, focus),
            );
            GenerationCandidate { patch: *patch, key }
        })
        .collect();
    prioritize_generation_requests(&candidates).into_iter().map(|candidate| candidate.patch).collect()
}

#[test]
fn published_parent_replacement_group_outranks_other_requests() {
    let replacement_parent = root(CubeFace::PosZ);
    let focus_parent = root(CubeFace::PosX);
    let replacement_children = replacement_parent.children();
    let focus_children = focus_parent.children();
    let requested = BTreeSet::from_iter(replacement_children.into_iter().chain(focus_children));
    let target_leaves = requested.clone();

    let ordered =
        prioritize(&requested, &BTreeSet::from([replacement_parent]), &target_leaves, [1.0, 0.0, 0.0], focus_parent);

    assert_eq!(
        BTreeSet::from_iter(ordered.into_iter().take(4)),
        BTreeSet::from(replacement_children),
        "the complete group needed to replace an on-screen parent must run first"
    );
}

#[test]
fn focus_group_outranks_broad_viewport_requests() {
    let focus_parent = root(CubeFace::PosZ);
    let broad_parent = root(CubeFace::NegZ);
    let focus_children = focus_parent.children();
    let broad_children = broad_parent.children();
    let requested = BTreeSet::from_iter(focus_children.into_iter().chain(broad_children));
    let target_leaves = requested.clone();

    let ordered = prioritize(&requested, &BTreeSet::new(), &target_leaves, [0.0, 0.0, 1.0], focus_parent);

    assert_eq!(
        BTreeSet::from_iter(ordered.into_iter().take(4)),
        BTreeSet::from(focus_children),
        "camera-facing sibling groups must outrank broad viewport coverage"
    );
}

#[test]
fn cold_start_roots_outrank_deep_focus_refinement() {
    let focused_root = root(CubeFace::PosZ);
    let requested = BTreeSet::from_iter(roots().into_iter().chain(focused_root.children()));
    let target_leaves = BTreeSet::from_iter(focused_root.children());

    let ordered = prioritize(&requested, &BTreeSet::new(), &target_leaves, [0.0, 0.0, 1.0], focused_root);

    assert_eq!(
        BTreeSet::from_iter(ordered.into_iter().take(roots().len())),
        BTreeSet::from_iter(roots()),
        "cold start must generate a publishable coarse cover before refinement"
    );
}

#[test]
fn incomplete_root_cover_outranks_refinement_after_the_first_publish() {
    let focused_root = root(CubeFace::PosZ);
    let published_root = root(CubeFace::NegZ);
    let requested = BTreeSet::from_iter(roots().into_iter().chain(focused_root.children()));
    let target_leaves = BTreeSet::from_iter(focused_root.children());

    let ordered =
        prioritize(&requested, &BTreeSet::from([published_root]), &target_leaves, [0.0, 0.0, 1.0], focused_root);

    let missing_roots: BTreeSet<_> = roots().into_iter().filter(|root| *root != published_root).collect();
    assert_eq!(
        BTreeSet::from_iter(ordered.into_iter().take(missing_roots.len())),
        missing_roots,
        "a partial root cover must not be abandoned for deep focus refinement"
    );
}

fn key(tier: u8, level: u32, tile_x: u32) -> GenerationKey {
    GenerationKey {
        tier,
        anchor_hidden: false,
        foreign_root: false,
        anchor_level: 0,
        anchor_distance: 0,
        anchor_face: 0,
        anchor_tile_y: 0,
        anchor_tile_x: 0,
        level,
        distance: 0,
        face: 0,
        tile_y: 0,
        tile_x,
    }
}

#[test]
fn keys_compare_field_by_field() {
    assert!(key_less(&key(0, 9, 9), &key(1, 0, 0)));
    assert!(key_less(&key(1, 2, 9), &key(1, 3, 0)));
    assert!(key_less(&key(1, 3, 0), &key(1, 3, 1)));
    assert!(!key_less(&key(1, 3, 1), &key(1, 3, 1)));
    let hidden = GenerationKey { anchor_hidden: true, ..key(0, 0, 0) };
    assert!(key_less(&key(0, 5, 5), &hidden));
}

#[test]
fn prioritized_order_is_a_sorted_permutation() {
    let patch = |tile_x: u32| TerrainPatch { face: CubeFace::PosY, level: 3, tile_x, tile_y: 1 };
    let candidates = vec![
        GenerationCandidate { patch: patch(1), key: key(2, 3, 1) },
        GenerationCandidate { patch: patch(2), key: key(0, 3, 2) },
        GenerationCandidate { patch: patch(3), key: key(1, 3, 3) },
        GenerationCandidate { patch: patch(4), key: key(0, 3, 4) },
    ];
    let ordered: Vec<_> = prioritize_generation_requests(&candidates).into_iter().map(|c| c.patch).collect();
    assert_eq!(ordered, vec![patch(2), patch(4), patch(3), patch(1)]);
}
