//! Cube-sphere quadtree patch addressing.
//!
//! A patch is one node of the quadtree laid over a face of the cube sphere:
//! level `L` splits the face into `2^L` x `2^L` tiles. The parent of a tile
//! covers it at the next coarser level; its four children split it in two
//! along each axis.
use vstd::prelude::*;
use vstd::arithmetic::power2::pow2;

verus! {

/// Deepest quadtree level whose tile coordinates are representable here.
pub const MAX_ADDRESSABLE_LEVEL: u32 = 30;

/// One face of the cube sphere.
#[derive(Clone, Copy, Debug, PartialEq, Eq, Structural, Hash, PartialOrd, Ord)]
pub enum CubeFace {
    PosX,
    NegX,
    PosY,
    NegY,
    PosZ,
    NegZ,
}

/// One quadtree node: a tile of one cube face at one level.
#[derive(Clone, Copy, Debug, PartialEq, Eq, Structural, Hash, PartialOrd, Ord)]
pub struct TerrainPatch {
    pub face: CubeFace,
    pub level: u32,
    pub tile_x: u32,
    pub tile_y: u32,
}

/// One edge of a patch, as seen in the face's tile grid.
#[derive(Clone, Copy, Debug, PartialEq, Eq, Structural, Hash)]
pub enum PatchEdge {
    West,
    East,
    South,
    North,
}

impl TerrainPatch {
    /// The tile lies inside its face's grid at a representable level.
    pub open spec fn wf(self) -> bool {
        &&& self.level <= MAX_ADDRESSABLE_LEVEL
        &&& self.tile_x < pow2(self.level as nat)
        &&& self.tile_y < pow2(self.level as nat)
    }

    /// `self` covers `other`: same face, no finer level, and `other`'s tile
    /// lies inside `self`'s tile. A patch covers itself.
    pub open spec fn covers(self, other: TerrainPatch) -> bool {
        &&& self.face == other.face
        &&& self.level <= other.level
        &&& other.tile_x as nat / pow2((other.level - self.level) as nat) == self.tile_x
        &&& other.tile_y as nat / pow2((other.level - self.level) as nat) == self.tile_y
    }

    /// The patch one level coarser that covers `self`, if any.
    pub open spec fn spec_parent(self) -> Option<TerrainPatch> {
        if self.level == 0 {
            None
        } else {
            Some(
                TerrainPatch {
                    face: self.face,
                    level: (self.level - 1) as u32,
                    tile_x: self.tile_x / 2,
                    tile_y: self.tile_y / 2,
                },
            )
        }
    }

    /// Child `i` (0..4) of `self`: column `i % 2`, row `i / 2` of the split.
    pub open spec fn spec_child(self, i: int) -> TerrainPatch {
        TerrainPatch {
            face: self.face,
            level: (self.level + 1) as u32,
            tile_x: (2 * self.tile_x + i % 2) as u32,
            tile_y: (2 * self.tile_y + i / 2) as u32,
        }
    }

    /// Whether the tile lies inside its face's grid at a representable level.
    pub fn is_well_formed(&self) -> (r: bool)
        ensures
            r == self.wf(),
    {
        if self.level > MAX_ADDRESSABLE_LEVEL {
            return false;
        }
        proof {
            vstd::bits::lemma_u32_pow2_no_overflow(self.level as nat);
            vstd::bits::lemma_u32_shl_is_mul(1, self.level);
        }
        let side: u32 = 1u32 << self.level;
        self.tile_x < side && self.tile_y < side
    }

    /// The patch one level coarser that covers `self`; `None` for a root.
    pub fn parent(&self) -> (r: Option<TerrainPatch>)
        ensures
            r == self.spec_parent(),
    {
        if self.level == 0 {
            None
        } else {
            Some(
                TerrainPatch {
                    face: self.face,
                    level: self.level - 1,
                    tile_x: self.tile_x / 2,
                    tile_y: self.tile_y / 2,
                },
            )
        }
    }

    /// The four patches one level finer that split `self`.
    pub fn children(&self) -> (r: [TerrainPatch; 4])
        requires
            self.level < MAX_ADDRESSABLE_LEVEL,
            self.wf(),
        ensures
            forall|i: int| 0 <= i < 4 ==> #[trigger] r@[i] == self.spec_child(i),
    {
        proof {
            lemma_tile_doubles(self.level as nat, self.tile_x as int);
            lemma_tile_doubles(self.level as nat, self.tile_y as int);
        }
        let x = self.tile_x * 2;
        let y = self.tile_y * 2;
        let level = self.level + 1;
        [
            TerrainPatch { face: self.face, level, tile_x: x, tile_y: y },
            TerrainPatch { face: self.face, level, tile_x: x + 1, tile_y: y },
            TerrainPatch { face: self.face, level, tile_x: x, tile_y: y + 1 },
            TerrainPatch { face: self.face, level, tile_x: x + 1, tile_y: y + 1 },
        ]
    }

    /// Whether `self` covers `other` (a patch covers itself).
    pub fn is_ancestor_of(&self, other: &TerrainPatch) -> (r: bool)
        requires
            self.wf(),
            other.wf(),
        ensures
            r == self.covers(*other),
    {
        if self.face != other.face || self.level > other.level {
            return false;
        }
        let shift = other.level - self.level;
        proof {
            vstd::bits::lemma_u32_shr_is_div(other.tile_x, shift);
            vstd::bits::lemma_u32_shr_is_div(other.tile_y, shift);
        }
        (other.tile_x >> shift) == self.tile_x && (other.tile_y >> shift) == self.tile_y
    }
}

proof fn lemma_tile_doubles(level: nat, tile: int)
    requires
        level < MAX_ADDRESSABLE_LEVEL,
        0 <= tile < pow2(level),
    ensures
        2 * tile + 1 < pow2(level + 1),
        pow2(level + 1) <= 0x8000_0000,
{
    vstd::arithmetic::power2::lemma_pow2_unfold(level + 1);
    vstd::arithmetic::power2::lemma_pow2_strictly_increases(level + 1, 31);
    vstd::arithmetic::power2::lemma2_to64();
}

/// The children of a well-formed patch are well formed, and the patch covers
/// each of them; each child's parent is the patch.
pub proof fn lemma_children_are_covered(patch: TerrainPatch, i: int)
    requires
        patch.wf(),
        patch.level < MAX_ADDRESSABLE_LEVEL,
        0 <= i < 4,
    ensures
        patch.spec_child(i).wf(),
        patch.covers(patch.spec_child(i)),
        patch.spec_child(i).spec_parent() == Some(patch),
{
    lemma_tile_doubles(patch.level as nat, patch.tile_x as int);
    lemma_tile_doubles(patch.level as nat, patch.tile_y as int);
    vstd::arithmetic::power2::lemma_pow2_unfold(1);
    vstd::arithmetic::power2::lemma2_to64();
    let c = patch.spec_child(i);
    assert(c.level - patch.level == 1);
    assert(pow2(1) == 2) by {
        vstd::arithmetic::power2::lemma2_to64();
    }
}

/// The parent of a well-formed patch is well formed and covers it.
pub proof fn lemma_parent_covers(patch: TerrainPatch)
    requires
        patch.wf(),
        patch.level > 0,
    ensures
        patch.spec_parent() matches Some(p) && p.wf() && p.covers(patch) && p.level + 1 == patch.level,
{
    let p = patch.spec_parent().unwrap();
    vstd::arithmetic::power2::lemma_pow2_unfold(patch.level as nat);
    vstd::arithmetic::power2::lemma2_to64();
    assert(pow2(1) == 2) by {
        vstd::arithmetic::power2::lemma2_to64();
    }
}

/// Bit of `edge` in a stitch mask.
pub open spec fn edge_bit(edge: PatchEdge) -> u8 {
    match edge {
        PatchEdge::West => 1,
        PatchEdge::East => 2,
        PatchEdge::South => 4,
        PatchEdge::North => 8,
    }
}

/// The 4-bit mask of a set of edges, as a number: the sum of the bits of the
/// edges that occur in `edges`.
pub open spec fn edges_mask(edges: Seq<PatchEdge>) -> int {
    (if edges.contains(PatchEdge::West) { 1int } else { 0int }) + (if edges.contains(PatchEdge::East) {
        2int
    } else {
        0int
    }) + (if edges.contains(PatchEdge::South) { 4int } else { 0int }) + (if edges.contains(PatchEdge::North) {
        8int
    } else {
        0int
    })
}

/// Encode the set of stitched edges as a 4-bit mask: West is bit 0, East bit
/// 1, South bit 2 and North bit 3.
pub fn stitch_mask(edges: &[PatchEdge]) -> (mask: u8)
    ensures
        mask < 16,
        forall|e: PatchEdge| #[trigger] (mask & edge_bit(e)) != 0 <==> edges@.contains(e),
        mask == edges_mask(edges@),
{
    let mut mask: u8 = 0;
    let mut i: usize = 0;
    proof {
        assert forall|e: PatchEdge| #[trigger] (mask & edge_bit(e)) != 0 <==> edges@.subrange(0, 0).contains(e) by {
            let b = edge_bit(e);
            assert(0u8 & b == 0) by (bit_vector);
        }
    }
    while i < edges.len()
        invariant
            i <= edges@.len(),
            mask < 16,
            forall|e: PatchEdge| #[trigger] (mask & edge_bit(e)) != 0 <==> edges@.subrange(0, i as int).contains(e),
        decreases edges@.len() - i,
    {
        let bit: u8 = match edges[i] {
            PatchEdge::West => 1,
            PatchEdge::East => 2,
            PatchEdge::South => 4,
            PatchEdge::North => 8,
        };
        let ghost previous = mask;
        mask = mask | bit;
        proof {
            assert(bit == edge_bit(edges@[i as int]));
            assert(edges@.subrange(0, i + 1) == edges@.subrange(0, i as int).push(edges@[i as int]));
            assert forall|e: PatchEdge| #[trigger] (mask & edge_bit(e)) != 0 <==> edges@.subrange(
                0,
                i + 1,
            ).contains(e) by {
                let b = edge_bit(e);
                assert(previous < 16 && (bit == 1 || bit == 2 || bit == 4 || bit == 8) && (b == 1 || b == 2
                    || b == 4 || b == 8) ==> (((previous | bit) & b) != 0 <==> ((previous & b) != 0 || bit == b)))
                    by (bit_vector);
                if edges@.subrange(0, i + 1).contains(e) && !edges@.subrange(0, i as int).contains(e) {
                    let j = choose|j: int| 0 <= j < i + 1 && #[trigger] edges@.subrange(0, i + 1)[j] == e;
                    assert(j == i);
                }
                if edges@.subrange(0, i as int).contains(e) {
                    let j = choose|j: int| 0 <= j < i && #[trigger] edges@.subrange(0, i as int)[j] == e;
                    assert(edges@.subrange(0, i + 1)[j] == e);
                }
                if bit == b {
                    assert(e == edges@[i as int]);
                    assert(edges@.subrange(0, i + 1)[i as int] == e);
                }
            }
            assert(previous < 16 && (bit == 1 || bit == 2 || bit == 4 || bit == 8) ==> (previous | bit) < 16)
                by (bit_vector);
        }
        i = i + 1;
    }
    proof {
        assert(edges@.subrange(0, edges@.len() as int) == edges@);
        assert(mask < 16 ==> mask == (mask & 1) + (mask & 2) + (mask & 4) + (mask & 8)) by (bit_vector);
        assert((mask & 1) == 0 || (mask & 1) == 1) by (bit_vector);
        assert((mask & 2) == 0 || (mask & 2) == 2) by (bit_vector);
        assert((mask & 4) == 0 || (mask & 4) == 4) by (bit_vector);
        assert((mask & 8) == 0 || (mask & 8) == 8) by (bit_vector);
        assert((mask & edge_bit(PatchEdge::West)) != 0 <==> edges@.contains(PatchEdge::West));
        assert((mask & edge_bit(PatchEdge::East)) != 0 <==> edges@.contains(PatchEdge::East));
        assert((mask & edge_bit(PatchEdge::South)) != 0 <==> edges@.contains(PatchEdge::South));
        assert((mask & edge_bit(PatchEdge::North)) != 0 <==> edges@.contains(PatchEdge::North));
    }
    mask
}

/// No patch occurs twice in `s`: `s` lists a set of patches.
pub open spec fn distinct_patches(s: Seq<TerrainPatch>) -> bool {
    forall|a: int, b: int| 0 <= a < b < s.len() ==> s[a] != s[b]
}

/// Whether `patch` is one of `patches`.
pub fn contains_patch(patches: &[TerrainPatch], patch: &TerrainPatch) -> (r: bool)
    ensures
        r == patches@.contains(*patch),
{
    let mut i: usize = 0;
    while i < patches.len()
        invariant
            i <= patches@.len(),
            forall|j: int| 0 <= j < i ==> patches@[j] != *patch,
        decreases patches@.len() - i,
    {
        if patches[i] == *patch {
            return true;
        }
        i = i + 1;
    }
    false
}

/// Add `patch` to the set `patches` unless it is already there.
pub fn insert_patch(patches: &mut Vec<TerrainPatch>, patch: TerrainPatch)
    requires
        distinct_patches(old(patches)@),
    ensures
        distinct_patches(final(patches)@),
        forall|q: TerrainPatch| #[trigger] final(patches)@.contains(q) <==> old(patches)@.contains(q) || q == patch,
        old(patches)@.contains(patch) ==> final(patches)@ == old(patches)@,
        !old(patches)@.contains(patch) ==> final(patches)@ == old(patches)@.push(patch),
{
    if !contains_patch(patches.as_slice(), &patch) {
        let ghost before = patches@;
        patches.push(patch);
        proof {
            assert forall|q: TerrainPatch| #[trigger] patches@.contains(q) <==> before.contains(q) || q == patch by {
                if before.contains(q) {
                    let k = choose|k: int| 0 <= k < before.len() && before[k] == q;
                    assert(patches@[k] == q);
                }
                if q == patch {
                    assert(patches@[before.len() as int] == q);
                }
                if patches@.contains(q) && q != patch {
                    let k = choose|k: int| 0 <= k < patches@.len() && patches@[k] == q;
                    assert(k < before.len());
                    assert(before[k] == q);
                }
            }
            assert forall|a: int, b: int| 0 <= a < b < patches@.len() implies patches@[a] != patches@[b] by {
                if b == before.len() {
                    assert(before.contains(patches@[a]));
                }
            }
        }
    }
}

/// Position of `face` in the face order `PosX, NegX, PosY, NegY, PosZ, NegZ`.
pub open spec fn face_order(face: CubeFace) -> int {
    match face {
        CubeFace::PosX => 0,
        CubeFace::NegX => 1,
        CubeFace::PosY => 2,
        CubeFace::NegY => 3,
        CubeFace::PosZ => 4,
        CubeFace::NegZ => 5,
    }
}

/// Patch order: by face, then level, then `tile_x`, then `tile_y`, the
/// order of the fields.
pub open spec fn patch_before(a: TerrainPatch, b: TerrainPatch) -> bool {
    if a.face != b.face {
        face_order(a.face) < face_order(b.face)
    } else if a.level != b.level {
        a.level < b.level
    } else if a.tile_x != b.tile_x {
        a.tile_x < b.tile_x
    } else {
        a.tile_y < b.tile_y
    }
}

/// `s` lists patches in strictly ascending patch order, so none twice.
pub open spec fn ascending_patches(s: Seq<TerrainPatch>) -> bool {
    forall|i: int, j: int| 0 <= i < j < s.len() ==> patch_before(#[trigger] s[i], #[trigger] s[j])
}

/// Patch order is a strict total order.
pub proof fn lemma_patch_order_is_strict_total(a: TerrainPatch, b: TerrainPatch, c: TerrainPatch)
    ensures
        !patch_before(a, a),
        a != b ==> (patch_before(a, b) || patch_before(b, a)),
        patch_before(a, b) ==> !patch_before(b, a),
        patch_before(a, b) && patch_before(b, c) ==> patch_before(a, c),
{
    if a.face != b.face {
        assert(face_order(a.face) != face_order(b.face));
    }
    if b.face != c.face {
        assert(face_order(b.face) != face_order(c.face));
    }
    if a.face != c.face {
        assert(face_order(a.face) != face_order(c.face));
    }
}

/// Whether `a` comes before `b` in patch order.
pub fn patch_less(a: &TerrainPatch, b: &TerrainPatch) -> (r: bool)
    ensures
        r == patch_before(*a, *b),
{
    let fa: u8 = match a.face {
        CubeFace::PosX => 0,
        CubeFace::NegX => 1,
        CubeFace::PosY => 2,
        CubeFace::NegY => 3,
        CubeFace::PosZ => 4,
        CubeFace::NegZ => 5,
    };
    let fb: u8 = match b.face {
        CubeFace::PosX => 0,
        CubeFace::NegX => 1,
        CubeFace::PosY => 2,
        CubeFace::NegY => 3,
        CubeFace::PosZ => 4,
        CubeFace::NegZ => 5,
    };
    proof {
        assert(a.face != b.face ==> fa != fb);
    }
    if fa != fb {
        fa < fb
    } else if a.level != b.level {
        a.level < b.level
    } else if a.tile_x != b.tile_x {
        a.tile_x < b.tile_x
    } else {
        a.tile_y < b.tile_y
    }
}

/// Add `patch` to the ascending list `patches` at its place in patch order,
/// unless it is already there.
pub fn insert_ascending(patches: &mut Vec<TerrainPatch>, patch: TerrainPatch)
    requires
        ascending_patches(old(patches)@),
    ensures
        ascending_patches(final(patches)@),
        forall|q: TerrainPatch| #[trigger] final(patches)@.contains(q) <==> old(patches)@.contains(q) || q == patch,
{
    let ghost before = patches@;
    let mut i: usize = 0;
    while i < patches.len() && patch_less(&patches[i], &patch)
        invariant
            patches@ == before,
            i <= before.len(),
            forall|k: int| 0 <= k < i ==> patch_before(#[trigger] before[k], patch),
        decreases before.len() - i,
    {
        i = i + 1;
    }
    if i < patches.len() && patches[i] == patch {
        return;
    }
    proof {
        if i < before.len() {
            lemma_patch_order_is_strict_total(before[i as int], patch, patch);
            assert(patch_before(patch, before[i as int]));
        }
    }
    patches.insert(i, patch);
    proof {
        let after = patches@;
        assert(after == before.insert(i as int, patch));
        assert forall|a: int, b: int| 0 <= a < b < after.len() implies patch_before(
            #[trigger] after[a],
            #[trigger] after[b],
        ) by {
            if b < i {
                assert(after[a] == before[a] && after[b] == before[b]);
            } else if b == i {
                assert(after[a] == before[a]);
            } else if a < i {
                assert(after[a] == before[a] && after[b] == before[b - 1]);
                lemma_patch_order_is_strict_total(before[a], patch, before[i as int]);
                if b - 1 > i {
                    lemma_patch_order_is_strict_total(before[a], before[i as int], before[b - 1]);
                }
            } else if a == i {
                assert(after[b] == before[b - 1]);
                if b - 1 > i {
                    lemma_patch_order_is_strict_total(patch, before[i as int], before[b - 1]);
                }
            } else {
                assert(after[a] == before[a - 1] && after[b] == before[b - 1]);
            }
        }
        assert forall|q: TerrainPatch| #[trigger] after.contains(q) <==> before.contains(q) || q == patch by {
            if after.contains(q) {
                let k = choose|k: int| 0 <= k < after.len() && after[k] == q;
                if k < i {
                    assert(before[k] == q);
                } else if k > i {
                    assert(before[k - 1] == q);
                }
            }
            if before.contains(q) {
                let k = choose|k: int| 0 <= k < before.len() && before[k] == q;
                if k < i {
                    assert(after[k] == q);
                } else {
                    assert(after[k + 1] == q);
                }
            }
            if q == patch {
                assert(after[i as int] == q);
            }
        }
    }
}

} // verus!
