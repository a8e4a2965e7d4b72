//! Quadtree selection bookkeeping between two reconciliations.
//!
//! A patch that a previous selection refined is held split inside the
//! hysteresis band; generated refinement that is still in view keeps its
//! whole ancestor path split; and a cached bake whose stitch pattern no
//! longer matches the target cover is rebuilt unless it is published.
//! The same-level neighbor of a patch across each edge is given by the
//! caller, in `West, East, South, North` order.
use vstd::prelude::*;
use vstd::arithmetic::power2::pow2;
use crate::patch::{
    CubeFace, PatchEdge, TerrainPatch, contains_patch, face_order, distinct_patches, edges_mask, insert_patch, stitch_mask,
};
use crate::render_index::{all_wf, ancestor_at};
use crate::streaming::{PatchState, state_in, state_of};

verus! {

/// Some leaf of `leaves` lies strictly below `patch`: a selection split it.
pub open spec fn split_above(patch: TerrainPatch, leaves: Seq<TerrainPatch>) -> bool {
    exists|i: int| 0 <= i < leaves.len() && patch.level < leaves[i].level && #[trigger] patch.covers(leaves[i])
}

/// Whether the previous selection split `patch`: one of its leaves lies
/// strictly below it.
pub fn was_split(patch: &TerrainPatch, previous_leaves: &[TerrainPatch]) -> (r: bool)
    requires
        patch.wf(),
        all_wf(previous_leaves@),
    ensures
        r == split_above(*patch, previous_leaves@),
{
    let mut i: usize = 0;
    while i < previous_leaves.len()
        invariant
            patch.wf(),
            all_wf(previous_leaves@),
            i <= previous_leaves@.len(),
            forall|j: int|
                0 <= j < i ==> !(patch.level < previous_leaves@[j].level && #[trigger] patch.covers(
                    previous_leaves@[j],
                )),
        decreases previous_leaves@.len() - i,
    {
        let leaf = previous_leaves[i];
        proof {
            assert(previous_leaves@[i as int].wf());
        }
        if patch.level < leaf.level && patch.is_ancestor_of(&leaf) {
            return true;
        }
        i = i + 1;
    }
    false
}

/// `q` is a strict ancestor of the well-formed `leaf` exactly when it is the
/// ancestor at its own, coarser level.
proof fn lemma_strict_ancestor(q: TerrainPatch, leaf: TerrainPatch)
    requires
        leaf.wf(),
    ensures
        (q.level < leaf.level && q.covers(leaf)) <==> (q.level < leaf.level && q == ancestor_at(
            leaf,
            q.level as nat,
        )),
{
    if q.level < leaf.level {
        let p = pow2((leaf.level - q.level) as nat);
        vstd::arithmetic::power2::lemma_pow2_pos((leaf.level - q.level) as nat);
        let x = leaf.tile_x as nat;
        let y = leaf.tile_y as nat;
        assert(x / p <= x) by (nonlinear_arith)
            requires
                p >= 1,
        ;
        assert(y / p <= y) by (nonlinear_arith)
            requires
                p >= 1,
        ;
        assert((x / p) as u32 == x / p);
        assert((y / p) as u32 == y / p);
    }
}

/// The strict ancestors of `patch`, parent first and root last.
pub fn strict_ancestors(patch: &TerrainPatch) -> (r: Vec<TerrainPatch>)
    requires
        patch.wf(),
    ensures
        r@.len() == patch.level,
        forall|i: int| 0 <= i < r@.len() ==> #[trigger] r@[i] == ancestor_at(*patch, (patch.level - 1 - i) as nat),
{
    let mut r: Vec<TerrainPatch> = Vec::new();
    let mut level: u32 = patch.level;
    while level > 0
        invariant
            patch.wf(),
            level <= patch.level,
            r@.len() == patch.level - level,
            forall|i: int|
                0 <= i < r@.len() ==> #[trigger] r@[i] == ancestor_at(*patch, (patch.level - 1 - i) as nat),
        decreases level,
    {
        level = level - 1;
        let shift = patch.level - level;
        proof {
            vstd::bits::lemma_u32_shr_is_div(patch.tile_x, shift);
            vstd::bits::lemma_u32_shr_is_div(patch.tile_y, shift);
        }
        let ancestor = TerrainPatch {
            face: patch.face,
            level,
            tile_x: patch.tile_x >> shift,
            tile_y: patch.tile_y >> shift,
        };
        proof {
            assert(ancestor == ancestor_at(*patch, level as nat));
        }
        r.push(ancestor);
    }
    r
}

/// `q` is held split by a retained leaf: a strict ancestor of a leaf that is
/// still in view and has generated geometry.
pub open spec fn held_by_retained_leaf(
    q: TerrainPatch,
    leaves: Seq<TerrainPatch>,
    in_view: Seq<bool>,
    generated: Seq<TerrainPatch>,
) -> bool {
    exists|i: int|
        0 <= i < leaves.len() && in_view[i] && generated.contains(leaves[i]) && q.level < leaves[i].level
            && #[trigger] q.covers(leaves[i])
}

/// The patches to keep split so that generated refinement stays selected
/// while it is in view: every strict ancestor of each previous leaf that is
/// in view (`in_view[i]` for `leaves[i]`) and has generated geometry. A leaf
/// itself is never included, so selection refines no further than before.
pub fn held_split_ancestors(leaves: &[TerrainPatch], in_view: &[bool], generated: &[TerrainPatch]) -> (r: Vec<
    TerrainPatch,
>)
    requires
        leaves@.len() == in_view@.len(),
        all_wf(leaves@),
    ensures
        distinct_patches(r@),
        forall|q: TerrainPatch| #[trigger] r@.contains(q) <==> held_by_retained_leaf(q, leaves@, in_view@, generated@),
{
    let mut r: Vec<TerrainPatch> = Vec::new();
    let mut i: usize = 0;
    while i < leaves.len()
        invariant
            leaves@.len() == in_view@.len(),
            all_wf(leaves@),
            i <= leaves@.len(),
            distinct_patches(r@),
            forall|q: TerrainPatch| #[trigger]
                r@.contains(q) <==> held_by_retained_leaf(
                    q,
                    leaves@.subrange(0, i as int),
                    in_view@.subrange(0, i as int),
                    generated@,
                ),
        decreases leaves@.len() - i,
    {
        let leaf = leaves[i];
        let ghost before = r@;
        proof {
            assert(leaves@[i as int].wf());
        }
        if in_view[i] && contains_patch(generated, &leaf) {
            let ancestors = strict_ancestors(&leaf);
            let mut k: usize = 0;
            while k < ancestors.len()
                invariant
                    leaf.wf(),
                    k <= ancestors@.len(),
                    ancestors@.len() == leaf.level,
                    forall|j: int|
                        0 <= j < ancestors@.len() ==> #[trigger] ancestors@[j] == ancestor_at(
                            leaf,
                            (leaf.level - 1 - j) as nat,
                        ),
                    distinct_patches(r@),
                    forall|q: TerrainPatch| #[trigger]
                        r@.contains(q) <==> before.contains(q) || exists|j: int|
                            0 <= j < k && ancestors@[j] == q,
                decreases ancestors@.len() - k,
            {
                let ghost mid = r@;
                insert_patch(&mut r, ancestors[k]);
                proof {
                    assert forall|q: TerrainPatch| #[trigger]
                        r@.contains(q) <==> before.contains(q) || exists|j: int|
                            0 <= j < k + 1 && ancestors@[j] == q by {
                        if q == ancestors@[k as int] {
                            assert(exists|j: int| 0 <= j < k + 1 && ancestors@[j] == q);
                        }
                        if exists|j: int| 0 <= j < k + 1 && ancestors@[j] == q {
                            let j = choose|j: int| 0 <= j < k + 1 && ancestors@[j] == q;
                            if j < k {
                                assert(mid.contains(q));
                            }
                        }
                    }
                }
                k = k + 1;
            }
            proof {
                assert forall|q: TerrainPatch| #[trigger]
                    r@.contains(q) <==> held_by_retained_leaf(
                        q,
                        leaves@.subrange(0, i + 1),
                        in_view@.subrange(0, i + 1),
                        generated@,
                    ) by {
                    let ls = leaves@.subrange(0, i + 1);
                    let vs = in_view@.subrange(0, i + 1);
                    lemma_strict_ancestor(q, leaf);
                    if exists|j: int| 0 <= j < k && ancestors@[j] == q {
                        let j = choose|j: int| 0 <= j < k && ancestors@[j] == q;
                        assert(q == ancestor_at(leaf, q.level as nat));
                        assert(ls[i as int] == leaf && vs[i as int]);
                        assert(q.covers(ls[i as int]));
                    }
                    if before.contains(q) {
                        let w = choose|w: int|
                            0 <= w < i && in_view@.subrange(0, i as int)[w] && generated@.contains(
                                leaves@.subrange(0, i as int)[w],
                            ) && q.level < leaves@.subrange(0, i as int)[w].level && #[trigger] q.covers(
                                leaves@.subrange(0, i as int)[w],
                            );
                        assert(ls[w] == leaves@.subrange(0, i as int)[w]);
                        assert(q.covers(ls[w]));
                    }
                    if held_by_retained_leaf(q, ls, vs, generated@) {
                        let w = choose|w: int|
                            0 <= w < ls.len() && vs[w] && generated@.contains(ls[w]) && q.level < ls[w].level
                                && #[trigger] q.covers(ls[w]);
                        if w < i {
                            assert(leaves@.subrange(0, i as int)[w] == ls[w]);
                            assert(q.covers(leaves@.subrange(0, i as int)[w]));
                        } else {
                            assert(ls[w] == leaf);
                            let j = leaf.level - 1 - q.level;
                            assert(ancestors@[j] == q);
                        }
                    }
                }
            }
        } else {
            proof {
                assert forall|q: TerrainPatch| #[trigger]
                    r@.contains(q) <==> held_by_retained_leaf(
                        q,
                        leaves@.subrange(0, i + 1),
                        in_view@.subrange(0, i + 1),
                        generated@,
                    ) by {
                    let ls = leaves@.subrange(0, i + 1);
                    let vs = in_view@.subrange(0, i + 1);
                    if before.contains(q) {
                        let w = choose|w: int|
                            0 <= w < i && in_view@.subrange(0, i as int)[w] && generated@.contains(
                                leaves@.subrange(0, i as int)[w],
                            ) && q.level < leaves@.subrange(0, i as int)[w].level && #[trigger] q.covers(
                                leaves@.subrange(0, i as int)[w],
                            );
                        assert(ls[w] == leaves@.subrange(0, i as int)[w]);
                        assert(q.covers(ls[w]));
                    }
                    if held_by_retained_leaf(q, ls, vs, generated@) {
                        let w = choose|w: int|
                            0 <= w < ls.len() && vs[w] && generated@.contains(ls[w]) && q.level < ls[w].level
                                && #[trigger] q.covers(ls[w]);
                        assert(ls[i as int] == leaf && vs[i as int] == in_view@[i as int]);
                        assert(w < i);
                        assert(leaves@.subrange(0, i as int)[w] == ls[w]);
                        assert(q.covers(leaves@.subrange(0, i as int)[w]));
                    }
                }
            }
        }
        i = i + 1;
    }
    proof {
        assert(leaves@.subrange(0, leaves@.len() as int) == leaves@);
        assert(in_view@.subrange(0, in_view@.len() as int) == in_view@);
    }
    r
}

/// A leaf one level coarser than `level` covers `neighbor`: the edge shared
/// with that neighbor is stitched down to the coarser grid.
pub open spec fn coarser_leaf_covers(neighbor: TerrainPatch, level: u32, leaves: Seq<TerrainPatch>) -> bool {
    exists|i: int| 0 <= i < leaves.len() && leaves[i].level + 1 == level && #[trigger] leaves[i].covers(neighbor)
}

/// The edges of `patch` to stitch against `leaves`, in `West, East, South,
/// North` order; `neighbors` holds the same-level neighbor across each edge
/// in that order.
pub open spec fn stitched_edges(patch: TerrainPatch, neighbors: Seq<TerrainPatch>, leaves: Seq<TerrainPatch>) -> Seq<
    PatchEdge,
> {
    (if coarser_leaf_covers(neighbors[0], patch.level, leaves) {
        seq![PatchEdge::West]
    } else {
        Seq::empty()
    }) + (if coarser_leaf_covers(neighbors[1], patch.level, leaves) {
        seq![PatchEdge::East]
    } else {
        Seq::empty()
    }) + (if coarser_leaf_covers(neighbors[2], patch.level, leaves) {
        seq![PatchEdge::South]
    } else {
        Seq::empty()
    }) + (if coarser_leaf_covers(neighbors[3], patch.level, leaves) {
        seq![PatchEdge::North]
    } else {
        Seq::empty()
    })
}

fn has_coarser_leaf(neighbor: &TerrainPatch, level: u32, leaves: &[TerrainPatch]) -> (r: bool)
    requires
        neighbor.wf(),
        all_wf(leaves@),
    ensures
        r == coarser_leaf_covers(*neighbor, level, leaves@),
{
    let mut i: usize = 0;
    while i < leaves.len()
        invariant
            neighbor.wf(),
            all_wf(leaves@),
            i <= leaves@.len(),
            forall|j: int|
                0 <= j < i ==> !(leaves@[j].level + 1 == level && #[trigger] leaves@[j].covers(*neighbor)),
        decreases leaves@.len() - i,
    {
        let leaf = leaves[i];
        proof {
            assert(leaves@[i as int].wf());
        }
        if leaf.level + 1 == level && leaf.is_ancestor_of(neighbor) {
            return true;
        }
        i = i + 1;
    }
    false
}

/// The edges of `patch` that border a leaf one level coarser, in `West,
/// East, South, North` order; `neighbors` holds the same-level neighbor
/// across each edge in that order.
pub fn stitch_edges_for(patch: &TerrainPatch, neighbors: &[TerrainPatch; 4], leaves: &[TerrainPatch]) -> (r: Vec<
    PatchEdge,
>)
    requires
        forall|k: int| 0 <= k < 4 ==> (#[trigger] neighbors@[k]).wf(),
        all_wf(leaves@),
    ensures
        r@ == stitched_edges(*patch, neighbors@, leaves@),
{
    let ghost n = neighbors@;
    let ghost l = leaves@;
    let ghost lv = patch.level;
    proof {
        assert(neighbors@[0].wf() && neighbors@[1].wf() && neighbors@[2].wf() && neighbors@[3].wf());
    }
    let mut r: Vec<PatchEdge> = Vec::new();
    if has_coarser_leaf(&neighbors[0], patch.level, leaves) {
        r.push(PatchEdge::West);
    }
    let ghost a = r@;
    if has_coarser_leaf(&neighbors[1], patch.level, leaves) {
        r.push(PatchEdge::East);
    }
    let ghost b = r@;
    if has_coarser_leaf(&neighbors[2], patch.level, leaves) {
        r.push(PatchEdge::South);
    }
    let ghost c = r@;
    if has_coarser_leaf(&neighbors[3], patch.level, leaves) {
        r.push(PatchEdge::North);
    }
    proof {
        let w = if coarser_leaf_covers(n[0], lv, l) { seq![PatchEdge::West] } else { Seq::empty() };
        let e = if coarser_leaf_covers(n[1], lv, l) { seq![PatchEdge::East] } else { Seq::empty() };
        let s = if coarser_leaf_covers(n[2], lv, l) { seq![PatchEdge::South] } else { Seq::empty() };
        let t = if coarser_leaf_covers(n[3], lv, l) { seq![PatchEdge::North] } else { Seq::empty() };
        assert(a == w);
        assert(b == w + e);
        assert(c == w + e + s);
        assert(r@ == w + e + s + t);
    }
    r
}

/// The value recorded for `patch` in a `(patch, value)` table; a later row
/// overrides an earlier one.
pub open spec fn entry_in<V>(entries: Seq<(TerrainPatch, V)>, patch: TerrainPatch) -> Option<V>
    decreases entries.len(),
{
    if entries.len() == 0 {
        None
    } else if entries.last().0 == patch {
        Some(entries.last().1)
    } else {
        entry_in(entries.drop_last(), patch)
    }
}

/// The value recorded for `patch` in a `(patch, value)` table, if any.
pub fn entry_of<V: Copy>(entries: &[(TerrainPatch, V)], patch: &TerrainPatch) -> (r: Option<V>)
    ensures
        r == entry_in(entries@, *patch),
{
    let mut i: usize = entries.len();
    proof {
        assert(entries@.subrange(0, entries@.len() as int) == entries@);
    }
    while i > 0
        invariant
            i <= entries@.len(),
            entry_in(entries@, *patch) == entry_in(entries@.subrange(0, i as int), *patch),
        decreases i,
    {
        proof {
            assert(entries@.subrange(0, i as int).drop_last() == entries@.subrange(0, i - 1));
        }
        i = i - 1;
        if entries[i].0 == *patch {
            return Some(entries[i].1);
        }
    }
    None
}

/// The patch holds baked geometry: it is ready, visible or cached.
pub open spec fn is_resident(state: Option<PatchState>) -> bool {
    state == Some(PatchState::Ready) || state == Some(PatchState::Visible) || state == Some(PatchState::Cached)
}

/// A target leaf whose cached bake could be rebuilt: not published, resident,
/// and with a cached stitch mask.
pub open spec fn restitch_candidate(
    patch: TerrainPatch,
    published: Seq<TerrainPatch>,
    states: Seq<(TerrainPatch, PatchState)>,
    cached: Seq<(TerrainPatch, u8)>,
) -> bool {
    &&& !published.contains(patch)
    &&& is_resident(state_in(states, patch))
    &&& entry_in(cached, patch) is Some
}

/// A target leaf whose cached bake was stitched for another pattern than the
/// one the target cover asks of it.
pub open spec fn is_stale_stitch_variant(
    patch: TerrainPatch,
    targets: Seq<TerrainPatch>,
    published: Seq<TerrainPatch>,
    states: Seq<(TerrainPatch, PatchState)>,
    cached: Seq<(TerrainPatch, u8)>,
    neighbors: Seq<(TerrainPatch, [TerrainPatch; 4])>,
) -> bool {
    &&& restitch_candidate(patch, published, states, cached)
    &&& entry_in(cached, patch).unwrap() != edges_mask(
        stitched_edges(patch, entry_in(neighbors, patch).unwrap()@, targets),
    )
}

proof fn lemma_entry_in_member<V>(entries: Seq<(TerrainPatch, V)>, patch: TerrainPatch)
    ensures
        entry_in(entries, patch) matches Some(v) ==> exists|j: int|
            0 <= j < entries.len() && #[trigger] entries[j] == (patch, v),
    decreases entries.len(),
{
    if entries.len() > 0 && entries.last().0 != patch {
        lemma_entry_in_member(entries.drop_last(), patch);
        if let Some(v) = entry_in(entries, patch) {
            let j = choose|j: int| 0 <= j < entries.drop_last().len() && #[trigger] entries.drop_last()[j] == (patch, v);
            assert(entries[j] == (patch, v));
        }
    } else if entries.len() > 0 {
        assert(entries[entries.len() - 1] == entries.last());
    }
}

/// The target leaves, in order, whose cached bake must be rebuilt because
/// its stitch mask differs from the one the target cover asks of it. A
/// published patch is never rebuilt: its geometry stays on screen until a
/// replacement is ready. `cached` holds the stitch mask of each cached bake
/// and `neighbors` the same-level neighbors of each patch that may need it.
pub fn stale_cached_stitch_variants(
    targets: &[TerrainPatch],
    published: &[TerrainPatch],
    states: &[(TerrainPatch, PatchState)],
    cached: &[(TerrainPatch, u8)],
    neighbors: &[(TerrainPatch, [TerrainPatch; 4])],
) -> (r: Vec<TerrainPatch>)
    requires
        all_wf(targets@),
        forall|j: int, k: int| 0 <= j < neighbors@.len() && 0 <= k < 4 ==> (#[trigger] neighbors@[j].1@[k]).wf(),
        forall|i: int|
            0 <= i < targets@.len() && restitch_candidate(targets@[i], published@, states@, cached@) ==> (entry_in(
                neighbors@,
                #[trigger] targets@[i],
            ) is Some),
    ensures
        r@ == targets@.filter(
            |p: TerrainPatch| is_stale_stitch_variant(p, targets@, published@, states@, cached@, neighbors@),
        ),
        forall|q: TerrainPatch| #[trigger] r@.contains(q) ==> targets@.contains(q) && !published@.contains(q),
{
    let ghost pred = |p: TerrainPatch| is_stale_stitch_variant(p, targets@, published@, states@, cached@, neighbors@);
    let mut r: Vec<TerrainPatch> = Vec::new();
    let mut i: usize = 0;
    while i < targets.len()
        invariant
            i <= targets@.len(),
            all_wf(targets@),
            forall|j: int, k: int| 0 <= j < neighbors@.len() && 0 <= k < 4 ==> (#[trigger] neighbors@[j].1@[k]).wf(),
            forall|i: int|
                0 <= i < targets@.len() && restitch_candidate(targets@[i], published@, states@, cached@) ==> (entry_in(
                    neighbors@,
                    #[trigger] targets@[i],
                ) is Some),
            forall|p: TerrainPatch| #[trigger]
                pred(p) == is_stale_stitch_variant(p, targets@, published@, states@, cached@, neighbors@),
            r@ == targets@.subrange(0, i as int).filter(pred),
        decreases targets@.len() - i,
    {
        proof {
            reveal_with_fuel(Seq::<_>::filter, 1);
            assert(targets@.subrange(0, i + 1).drop_last() == targets@.subrange(0, i as int));
        }
        let patch = targets[i];
        let mut stale = false;
        if !contains_patch(published, &patch) {
            let state = state_of(states, &patch);
            let resident = match state {
                Some(PatchState::Ready) | Some(PatchState::Visible) | Some(PatchState::Cached) => true,
                _ => false,
            };
            if resident {
                match entry_of(cached, &patch) {
                    Some(mask) => {
                        proof {
                            assert(restitch_candidate(targets@[i as int], published@, states@, cached@));
                        }
                        match entry_of(neighbors, &patch) {
                            Some(around) => {
                                proof {
                                    lemma_entry_in_member(neighbors@, patch);
                                    let j = choose|j: int|
                                        0 <= j < neighbors@.len() && #[trigger] neighbors@[j] == (patch, around);
                                    assert forall|k: int| 0 <= k < 4 implies (#[trigger] around@[k]).wf() by {
                                        assert(neighbors@[j].1@[k].wf());
                                    }
                                }
                                let edges = stitch_edges_for(&patch, &around, targets);
                                let wanted = stitch_mask(edges.as_slice());
                                stale = mask != wanted;
                            },
                            None => {},
                        }
                    },
                    None => {},
                }
            }
        }
        proof {
            assert(stale == pred(patch));
        }
        if stale {
            r.push(patch);
        }
        i = i + 1;
    }
    proof {
        assert(targets@.subrange(0, targets@.len() as int) == targets@);
        assert(pred == |p: TerrainPatch| is_stale_stitch_variant(p, targets@, published@, states@, cached@, neighbors@));
        assert forall|q: TerrainPatch| #[trigger] r@.contains(q) implies targets@.contains(q) && !published@.contains(q) by {
            crate::streaming::lemma_filter_member(targets@, pred, q);
        }
    }
    r
}

/// The root patch of `face`.
pub open spec fn root_of(face: CubeFace) -> TerrainPatch {
    TerrainPatch { face, level: 0, tile_x: 0, tile_y: 0 }
}

/// The six root patches, in face order `PosX, NegX, PosY, NegY, PosZ, NegZ`.
pub open spec fn spec_roots() -> Seq<TerrainPatch> {
    seq![
        root_of(CubeFace::PosX),
        root_of(CubeFace::NegX),
        root_of(CubeFace::PosY),
        root_of(CubeFace::NegY),
        root_of(CubeFace::PosZ),
        root_of(CubeFace::NegZ),
    ]
}

/// The six root patches, one per cube face, in face order.
pub fn roots() -> (r: [TerrainPatch; 6])
    ensures
        r@ == spec_roots(),
{
    let r = [
        TerrainPatch { face: CubeFace::PosX, level: 0, tile_x: 0, tile_y: 0 },
        TerrainPatch { face: CubeFace::NegX, level: 0, tile_x: 0, tile_y: 0 },
        TerrainPatch { face: CubeFace::PosY, level: 0, tile_x: 0, tile_y: 0 },
        TerrainPatch { face: CubeFace::NegY, level: 0, tile_x: 0, tile_y: 0 },
        TerrainPatch { face: CubeFace::PosZ, level: 0, tile_x: 0, tile_y: 0 },
        TerrainPatch { face: CubeFace::NegZ, level: 0, tile_x: 0, tile_y: 0 },
    ];
    proof {
        assert(r@ =~= spec_roots());
    }
    r
}

/// Root coverage scoped to the viewport: the roots whose viewport test
/// passed (`in_view[i]` for the `i`-th root in face order), and always the
/// root holding the focus, which stays requested as the launch fallback.
pub fn root_requests(in_view: &[bool; 6], focused_root: TerrainPatch) -> (r: Vec<TerrainPatch>)
    ensures
        distinct_patches(r@),
        forall|q: TerrainPatch| #[trigger]
            r@.contains(q) <==> q == focused_root || exists|i: int| 0 <= i < 6 && in_view@[i] && spec_roots()[i] == q,
{
    let all = roots();
    let mut r: Vec<TerrainPatch> = Vec::new();
    let mut i: usize = 0;
    while i < 6
        invariant
            i <= 6,
            all@ == spec_roots(),
            distinct_patches(r@),
            forall|q: TerrainPatch| #[trigger]
                r@.contains(q) <==> exists|j: int| 0 <= j < i && in_view@[j] && spec_roots()[j] == q,
            forall|k: int| 0 <= k < r@.len() ==> face_order((#[trigger] r@[k]).face) < i,
        decreases 6 - i,
    {
        if in_view[i] {
            let ghost before = r@;
            proof {
                assert(face_order(all@[i as int].face) == i);
                assert forall|k: int| 0 <= k < before.len() implies before[k] != all@[i as int] by {
                    assert(face_order(before[k].face) < i);
                }
            }
            r.push(all[i]);
            proof {
                assert forall|q: TerrainPatch| #[trigger]
                    r@.contains(q) <==> exists|j: int| 0 <= j < i + 1 && in_view@[j] && spec_roots()[j] == q by {
                    if r@.contains(q) && q != all@[i as int] {
                        let k = choose|k: int| 0 <= k < r@.len() && r@[k] == q;
                        assert(k < before.len());
                        assert(before.contains(q));
                    }
                    if q == all@[i as int] {
                        assert(r@[before.len() as int] == q);
                    }
                    if exists|j: int| 0 <= j < i + 1 && in_view@[j] && spec_roots()[j] == q {
                        let j = choose|j: int| 0 <= j < i + 1 && in_view@[j] && spec_roots()[j] == q;
                        if j < i {
                            assert(before.contains(q));
                            let k = choose|k: int| 0 <= k < before.len() && before[k] == q;
                            assert(r@[k] == q);
                        }
                    }
                }
                assert forall|k: int| 0 <= k < r@.len() implies face_order((#[trigger] r@[k]).face) < i + 1 by {
                    if k < before.len() {
                        assert(face_order(before[k].face) < i);
                    }
                }
            }
        }
        i = i + 1;
    }
    insert_patch(&mut r, focused_root);
    r
}

} // verus!
