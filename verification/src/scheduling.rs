//! Order of terrain bakes: requested patches are ordered by the next visible
//! improvement they unlock. A patch's key first compares its scheduling group
//! (tier and anchor, see `generation_priority_group`), then the patch itself;
//! keys compare field by field, earlier fields first, `false` before `true`.
//! The angular distances are integer keys computed by the caller.
use vstd::prelude::*;
use crate::patch::{CubeFace, TerrainPatch};

verus! {

/// Scheduling key of one requested patch.
#[derive(Clone, Copy, Debug, PartialEq, Eq, Structural)]
pub struct GenerationKey {
    pub tier: u8,
    pub anchor_hidden: bool,
    pub foreign_root: bool,
    pub anchor_level: u32,
    pub anchor_distance: u64,
    pub anchor_face: u8,
    pub anchor_tile_y: u32,
    pub anchor_tile_x: u32,
    pub level: u32,
    pub distance: u64,
    pub face: u8,
    pub tile_y: u32,
    pub tile_x: u32,
}

/// A requested patch with its scheduling key.
#[derive(Clone, Copy, Debug, PartialEq, Eq, Structural)]
pub struct GenerationCandidate {
    pub patch: TerrainPatch,
    pub key: GenerationKey,
}

/// Rank of a cube face in the face order.
pub open spec fn spec_face_rank(face: CubeFace) -> u8 {
    match face {
        CubeFace::PosX => 0,
        CubeFace::NegX => 1,
        CubeFace::PosY => 2,
        CubeFace::NegY => 3,
        CubeFace::PosZ => 4,
        CubeFace::NegZ => 5,
    }
}

/// Rank of a cube face in the face order.
pub fn face_rank(face: CubeFace) -> (r: u8)
    ensures
        r == spec_face_rank(face),
{
    match face {
        CubeFace::PosX => 0,
        CubeFace::NegX => 1,
        CubeFace::PosY => 2,
        CubeFace::NegY => 3,
        CubeFace::PosZ => 4,
        CubeFace::NegZ => 5,
    }
}

/// `a` orders strictly before `b`: at the first field where they differ,
/// `a`'s is smaller.
pub open spec fn key_lt(a: GenerationKey, b: GenerationKey) -> bool {
    if a.tier != b.tier {
        a.tier < b.tier
    } else if a.anchor_hidden != b.anchor_hidden {
        !a.anchor_hidden
    } else if a.foreign_root != b.foreign_root {
        !a.foreign_root
    } else if a.anchor_level != b.anchor_level {
        a.anchor_level < b.anchor_level
    } else if a.anchor_distance != b.anchor_distance {
        a.anchor_distance < b.anchor_distance
    } else if a.anchor_face != b.anchor_face {
        a.anchor_face < b.anchor_face
    } else if a.anchor_tile_y != b.anchor_tile_y {
        a.anchor_tile_y < b.anchor_tile_y
    } else if a.anchor_tile_x != b.anchor_tile_x {
        a.anchor_tile_x < b.anchor_tile_x
    } else if a.level != b.level {
        a.level < b.level
    } else if a.distance != b.distance {
        a.distance < b.distance
    } else if a.face != b.face {
        a.face < b.face
    } else if a.tile_y != b.tile_y {
        a.tile_y < b.tile_y
    } else {
        a.tile_x < b.tile_x
    }
}

/// Whether key `a` orders strictly before key `b`.
pub fn key_less(a: &GenerationKey, b: &GenerationKey) -> (r: bool)
    ensures
        r == key_lt(*a, *b),
{
    if a.tier != b.tier {
        a.tier < b.tier
    } else if a.anchor_hidden != b.anchor_hidden {
        !a.anchor_hidden
    } else if a.foreign_root != b.foreign_root {
        !a.foreign_root
    } else if a.anchor_level != b.anchor_level {
        a.anchor_level < b.anchor_level
    } else if a.anchor_distance != b.anchor_distance {
        a.anchor_distance < b.anchor_distance
    } else if a.anchor_face != b.anchor_face {
        a.anchor_face < b.anchor_face
    } else if a.anchor_tile_y != b.anchor_tile_y {
        a.anchor_tile_y < b.anchor_tile_y
    } else if a.anchor_tile_x != b.anchor_tile_x {
        a.anchor_tile_x < b.anchor_tile_x
    } else if a.level != b.level {
        a.level < b.level
    } else if a.distance != b.distance {
        a.distance < b.distance
    } else if a.face != b.face {
        a.face < b.face
    } else if a.tile_y != b.tile_y {
        a.tile_y < b.tile_y
    } else {
        a.tile_x < b.tile_x
    }
}

/// The key order compares the fields in order, each ascending, with
/// `false` before `true`: a key orders before another when, at the first
/// field where they differ, its value is the smaller. So a lower tier comes
/// first; within a tier, an anchor in view comes before a hidden one, the
/// focused root before a foreign root, a coarser anchor before a finer one,
/// and an anchor nearer the focus before a farther one; and so on down to
/// the patch's own tile. No key orders before itself.
pub proof fn lemma_key_order_is_lexicographic(a: GenerationKey, b: GenerationKey)
    ensures
        !key_lt(a, a),
        a.tier < b.tier ==> key_lt(a, b),
        a.tier == b.tier && !a.anchor_hidden && b.anchor_hidden ==> key_lt(a, b),
        a.tier == b.tier && a.anchor_hidden == b.anchor_hidden && !a.foreign_root && b.foreign_root ==> key_lt(a, b),
        a.tier == b.tier && a.anchor_hidden == b.anchor_hidden && a.foreign_root == b.foreign_root && a.anchor_level
            < b.anchor_level ==> key_lt(a, b),
        a.tier == b.tier && a.anchor_hidden == b.anchor_hidden && a.foreign_root == b.foreign_root && a.anchor_level
            == b.anchor_level && a.anchor_distance < b.anchor_distance ==> key_lt(a, b),
        a.tier == b.tier && a.anchor_hidden == b.anchor_hidden && a.foreign_root == b.foreign_root && a.anchor_level
            == b.anchor_level && a.anchor_distance == b.anchor_distance && a.anchor_face < b.anchor_face ==> key_lt(
            a,
            b,
        ),
        a.tier == b.tier && a.anchor_hidden == b.anchor_hidden && a.foreign_root == b.foreign_root && a.anchor_level
            == b.anchor_level && a.anchor_distance == b.anchor_distance && a.anchor_face == b.anchor_face
            && a.anchor_tile_y < b.anchor_tile_y ==> key_lt(a, b),
        a.tier == b.tier && a.anchor_hidden == b.anchor_hidden && a.foreign_root == b.foreign_root && a.anchor_level
            == b.anchor_level && a.anchor_distance == b.anchor_distance && a.anchor_face == b.anchor_face
            && a.anchor_tile_y == b.anchor_tile_y && a.anchor_tile_x < b.anchor_tile_x ==> key_lt(a, b),
        a.tier == b.tier && a.anchor_hidden == b.anchor_hidden && a.foreign_root == b.foreign_root && a.anchor_level
            == b.anchor_level && a.anchor_distance == b.anchor_distance && a.anchor_face == b.anchor_face
            && a.anchor_tile_y == b.anchor_tile_y && a.anchor_tile_x == b.anchor_tile_x && a.level < b.level ==> key_lt(
            a,
            b,
        ),
        a.tier == b.tier && a.anchor_hidden == b.anchor_hidden && a.foreign_root == b.foreign_root && a.anchor_level
            == b.anchor_level && a.anchor_distance == b.anchor_distance && a.anchor_face == b.anchor_face
            && a.anchor_tile_y == b.anchor_tile_y && a.anchor_tile_x == b.anchor_tile_x && a.level == b.level
            && a.distance < b.distance ==> key_lt(a, b),
        a.tier == b.tier && a.anchor_hidden == b.anchor_hidden && a.foreign_root == b.foreign_root && a.anchor_level
            == b.anchor_level && a.anchor_distance == b.anchor_distance && a.anchor_face == b.anchor_face
            && a.anchor_tile_y == b.anchor_tile_y && a.anchor_tile_x == b.anchor_tile_x && a.level == b.level
            && a.distance == b.distance && a.face < b.face ==> key_lt(a, b),
        a.tier == b.tier && a.anchor_hidden == b.anchor_hidden && a.foreign_root == b.foreign_root && a.anchor_level
            == b.anchor_level && a.anchor_distance == b.anchor_distance && a.anchor_face == b.anchor_face
            && a.anchor_tile_y == b.anchor_tile_y && a.anchor_tile_x == b.anchor_tile_x && a.level == b.level
            && a.distance == b.distance && a.face == b.face && a.tile_y < b.tile_y ==> key_lt(a, b),
        a.tier == b.tier && a.anchor_hidden == b.anchor_hidden && a.foreign_root == b.foreign_root && a.anchor_level
            == b.anchor_level && a.anchor_distance == b.anchor_distance && a.anchor_face == b.anchor_face
            && a.anchor_tile_y == b.anchor_tile_y && a.anchor_tile_x == b.anchor_tile_x && a.level == b.level
            && a.distance == b.distance && a.face == b.face && a.tile_y == b.tile_y && a.tile_x < b.tile_x ==> key_lt(
            a,
            b,
        ),
{
}

/// A patch whose anchor is in view is baked before any patch of the same
/// tier whose anchor is not: the key's `anchor_hidden` is the negation of the
/// anchor's viewport test, and among equal tiers the visible anchor's key
/// orders first, whatever the other fields.
pub proof fn lemma_visible_anchors_are_baked_first(
    patch: TerrainPatch,
    other: TerrainPatch,
    tier: u8,
    anchor: TerrainPatch,
    other_anchor: TerrainPatch,
    anchor_in_view: bool,
    focused_root: TerrainPatch,
    anchor_distance: u64,
    other_anchor_distance: u64,
    patch_distance: u64,
    other_distance: u64,
)
    ensures
        spec_generation_key(patch, tier, anchor, anchor_in_view, focused_root, anchor_distance, patch_distance).anchor_hidden
            == !anchor_in_view,
        key_lt(
            spec_generation_key(patch, tier, anchor, true, focused_root, anchor_distance, patch_distance),
            spec_generation_key(other, tier, other_anchor, false, focused_root, other_anchor_distance, other_distance),
        ),
{
}

/// Face ranks follow the face order `PosX, NegX, PosY, NegY, PosZ, NegZ`,
/// distinct faces having distinct ranks.
pub proof fn lemma_face_rank_is_face_order(a: CubeFace, b: CubeFace)
    ensures
        spec_face_rank(CubeFace::PosX) == 0,
        spec_face_rank(CubeFace::NegX) == 1,
        spec_face_rank(CubeFace::PosY) == 2,
        spec_face_rank(CubeFace::NegY) == 3,
        spec_face_rank(CubeFace::PosZ) == 4,
        spec_face_rank(CubeFace::NegZ) == 5,
        a != b ==> spec_face_rank(a) != spec_face_rank(b),
{
}

/// The key order is transitive.
pub proof fn lemma_key_order_is_transitive(a: GenerationKey, b: GenerationKey, c: GenerationKey)
    requires
        key_lt(a, b),
        key_lt(b, c),
    ensures
        key_lt(a, c),
{
}

/// The key order is total: two keys are ordered one way or the other, or
/// equal.
pub proof fn lemma_key_order_is_total(a: GenerationKey, b: GenerationKey)
    ensures
        key_lt(a, b) || key_lt(b, a) || a == b,
        !(key_lt(a, b) && key_lt(b, a)),
{
}

/// The scheduling key of `patch`, whose group is (`tier`, `anchor`):
/// whether the anchor is outside the viewport, whether it is a root other
/// than the focused one, the anchor's level, distance and tile, then the
/// patch's own level, distance and tile.
pub open spec fn spec_generation_key(
    patch: TerrainPatch,
    tier: u8,
    anchor: TerrainPatch,
    anchor_in_view: bool,
    focused_root: TerrainPatch,
    anchor_distance: u64,
    patch_distance: u64,
) -> GenerationKey {
    GenerationKey {
        tier,
        anchor_hidden: !anchor_in_view,
        foreign_root: anchor.level == 0 && anchor != focused_root,
        anchor_level: anchor.level,
        anchor_distance,
        anchor_face: spec_face_rank(anchor.face),
        anchor_tile_y: anchor.tile_y,
        anchor_tile_x: anchor.tile_x,
        level: patch.level,
        distance: patch_distance,
        face: spec_face_rank(patch.face),
        tile_y: patch.tile_y,
        tile_x: patch.tile_x,
    }
}

/// The scheduling key of `patch` from its group and the caller's viewport
/// test and angular distance keys.
pub fn generation_key(
    patch: TerrainPatch,
    group: (u8, TerrainPatch),
    anchor_in_view: bool,
    focused_root: TerrainPatch,
    anchor_distance: u64,
    patch_distance: u64,
) -> (r: GenerationKey)
    ensures
        r == spec_generation_key(patch, group.0, group.1, anchor_in_view, focused_root, anchor_distance, patch_distance),
        r.tier == group.0,
        r.anchor_hidden == !anchor_in_view,
        r.foreign_root == (group.1.level == 0 && group.1 != focused_root),
        r.anchor_level == group.1.level,
        r.anchor_distance == anchor_distance,
        r.anchor_face == spec_face_rank(group.1.face),
        r.anchor_tile_y == group.1.tile_y,
        r.anchor_tile_x == group.1.tile_x,
        r.level == patch.level,
        r.distance == patch_distance,
        r.face == spec_face_rank(patch.face),
        r.tile_y == patch.tile_y,
        r.tile_x == patch.tile_x,
{
    let (tier, anchor) = group;
    GenerationKey {
        tier,
        anchor_hidden: !anchor_in_view,
        foreign_root: anchor.level == 0 && anchor != focused_root,
        anchor_level: anchor.level,
        anchor_distance,
        anchor_face: face_rank(anchor.face),
        anchor_tile_y: anchor.tile_y,
        anchor_tile_x: anchor.tile_x,
        level: patch.level,
        distance: patch_distance,
        face: face_rank(patch.face),
        tile_y: patch.tile_y,
        tile_x: patch.tile_x,
    }
}

/// No candidate orders strictly before an earlier one.
pub open spec fn sorted_by_key(s: Seq<GenerationCandidate>) -> bool {
    forall|i: int, j: int| 0 <= i < j < s.len() ==> !key_lt(#[trigger] s[j].key, #[trigger] s[i].key)
}

/// Order the requested patches by their scheduling keys: the result holds
/// exactly the given candidates, sorted by key. A key ends with its patch's
/// level, face and tile, so the keys of distinct patches differ and the
/// order of a set of requests is fixed.
pub fn prioritize_generation_requests(candidates: &[GenerationCandidate]) -> (r: Vec<GenerationCandidate>)
    ensures
        r@.to_multiset() == candidates@.to_multiset(),
        sorted_by_key(r@),
{
    broadcast use vstd::seq_lib::to_multiset_build, vstd::seq_lib::to_multiset_insert;

    let mut ordered: Vec<GenerationCandidate> = Vec::new();
    let mut i: usize = 0;
    proof {
        assert(ordered@ =~= candidates@.subrange(0, 0));
    }
    while i < candidates.len()
        invariant
            i <= candidates@.len(),
            ordered@.to_multiset() == candidates@.subrange(0, i as int).to_multiset(),
            sorted_by_key(ordered@),
        decreases candidates@.len() - i,
    {
        let candidate = candidates[i];
        let mut position: usize = 0;
        while position < ordered.len() && !key_less(&candidate.key, &ordered[position].key)
            invariant
                position <= ordered@.len(),
                forall|k: int| 0 <= k < position ==> !key_lt(candidate.key, #[trigger] ordered@[k].key),
            decreases ordered@.len() - position,
        {
            position = position + 1;
        }
        let ghost before = ordered@;
        ordered.insert(position, candidate);
        proof {
            assert(candidates@.subrange(0, i + 1) == candidates@.subrange(0, i as int).push(candidate));
            assert(ordered@ == before.insert(position as int, candidate));
            vstd::seq_lib::to_multiset_insert(before, position as int, candidate);
            vstd::seq_lib::to_multiset_build(candidates@.subrange(0, i as int), candidate);
            assert forall|a: int, b: int| 0 <= a < b < ordered@.len() implies !key_lt(
                #[trigger] ordered@[b].key,
                #[trigger] ordered@[a].key,
            ) by {
                if b < position {
                    assert(ordered@[a] == before[a] && ordered@[b] == before[b]);
                } else if b == position {
                    assert(ordered@[a] == before[a]);
                } else if a == position {
                    // Every element after the insertion point orders after
                    // the candidate.
                    assert(ordered@[b] == before[b - 1]);
                    assert(key_lt(candidate.key, before[position as int].key));
                    if b - 1 > position {
                        assert(!key_lt(before[b - 1].key, before[position as int].key));
                    }
                    if key_lt(before[b - 1].key, candidate.key) {
                        lemma_key_order_is_transitive(before[b - 1].key, candidate.key, before[position as int].key);
                    }
                } else if a < position {
                    assert(ordered@[a] == before[a] && ordered@[b] == before[b - 1]);
                } else {
                    assert(ordered@[a] == before[a - 1] && ordered@[b] == before[b - 1]);
                }
            }
        }
        i = i + 1;
    }
    proof {
        assert(candidates@.subrange(0, candidates@.len() as int) == candidates@);
    }
    ordered
}

} // verus!
