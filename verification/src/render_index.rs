//! Render-entity handoff between a departing parent patch and its refining
//! descendants.
//!
//! A parent that leaves publication stays visible until every quadrant of its
//! area is covered by an uploaded published descendant, and a descendant
//! spawned while such a parent is still rendered starts hidden. Render
//! entities are identified per planet by `TerrainPatchRenderKey`; the keys of
//! the existing render entities are given as a list.
use vstd::prelude::*;
use vstd::arithmetic::power2::pow2;
use crate::patch::{TerrainPatch, contains_patch, MAX_ADDRESSABLE_LEVEL};
use crate::uploads::{TerrainPatchReady, TerrainPatchRenderKey, contains_key, render_key};

verus! {

/// What the hide pass does with one pending hide.
#[derive(Clone, Copy, Debug, PartialEq, Eq, Structural)]
pub enum HideStep {
    /// The patch is published again: drop the pending hide.
    Drop,
    /// Published descendants exist but their cover is not rendered yet:
    /// keep the parent visible and retry next frame.
    Wait,
    /// No render entity exists: drop the pending hide.
    Forget,
    /// Hide the entity, reveal the published descendants, drop the pending
    /// hide.
    Hide,
}

/// The ancestor of `patch` at the coarser `level` (no finer than `patch`).
pub open spec fn ancestor_at(patch: TerrainPatch, level: nat) -> TerrainPatch {
    TerrainPatch {
        face: patch.face,
        level: level as u32,
        tile_x: (patch.tile_x as nat / pow2((patch.level - level) as nat)) as u32,
        tile_y: (patch.tile_y as nat / pow2((patch.level - level) as nat)) as u32,
    }
}

/// `a` left publication but its render entity on `planet_entity` remains.
pub open spec fn is_departing(
    a: TerrainPatch,
    planet_entity: u64,
    published: Seq<TerrainPatch>,
    rendered: Seq<TerrainPatchRenderKey>,
) -> bool {
    !published.contains(a) && rendered.contains(render_key(planet_entity, a))
}

/// Some strict ancestor of `patch` is departing.
pub open spec fn departing_ancestor(
    patch: TerrainPatch,
    planet_entity: u64,
    published: Seq<TerrainPatch>,
    rendered: Seq<TerrainPatchRenderKey>,
) -> bool {
    exists|l: nat| l < patch.level && #[trigger] is_departing(ancestor_at(patch, l), planet_entity, published, rendered)
}

/// Whether a strict ancestor of `patch` left publication while its render
/// entity still exists: the patch then spawns hidden so that the parent
/// remains the only visible cover of its area.
pub fn has_departing_ancestor_render_entity(
    patch: TerrainPatch,
    planet_entity: u64,
    published: &[TerrainPatch],
    rendered: &[TerrainPatchRenderKey],
) -> (r: bool)
    requires
        patch.wf(),
    ensures
        r == departing_ancestor(patch, planet_entity, published@, rendered@),
{
    let mut level: u32 = patch.level;
    while level > 0
        invariant
            patch.wf(),
            level <= patch.level,
            forall|l: nat| level <= l < patch.level ==> !#[trigger] is_departing(
                ancestor_at(patch, l),
                planet_entity,
                published@,
                rendered@,
            ),
        decreases level,
    {
        level = level - 1;
        let shift = patch.level - level;
        proof {
            vstd::bits::lemma_u32_shr_is_div(patch.tile_x, shift);
            vstd::bits::lemma_u32_shr_is_div(patch.tile_y, shift);
        }
        let ancestor = TerrainPatch {
            face: patch.face,
            level,
            tile_x: patch.tile_x >> shift,
            tile_y: patch.tile_y >> shift,
        };
        proof {
            assert(ancestor == ancestor_at(patch, level as nat));
        }
        let key = TerrainPatchRenderKey { planet_entity, patch: ancestor };
        if !contains_patch(published, &ancestor) && contains_key(rendered, &key) {
            proof {
                assert(is_departing(ancestor_at(patch, level as nat), planet_entity, published@, rendered@));
            }
            return true;
        }
    }
    false
}

/// Whether a strict ancestor of `patch` left publication while its render
/// entity is still shown; `shown` holds the keys of the render entities that
/// are not hidden.
pub fn has_visible_departing_ancestor(
    patch: TerrainPatch,
    planet_entity: u64,
    published: &[TerrainPatch],
    shown: &[TerrainPatchRenderKey],
) -> (r: bool)
    requires
        patch.wf(),
    ensures
        r == departing_ancestor(patch, planet_entity, published@, shown@),
{
    has_departing_ancestor_render_entity(patch, planet_entity, published, shown)
}

/// Some published patch lies inside `patch` (or is `patch`).
pub open spec fn has_published_within(patch: TerrainPatch, published: Seq<TerrainPatch>) -> bool {
    exists|i: int| 0 <= i < published.len() && patch.covers(#[trigger] published[i])
}

/// Every published patch is a valid quadtree node.
pub open spec fn all_wf(published: Seq<TerrainPatch>) -> bool {
    forall|i: int| 0 <= i < published.len() ==> (#[trigger] published[i]).wf()
}

/// Whether `patch`'s area is fully covered by published patches that all
/// have a render entity on `planet_entity`: a published patch must itself be
/// rendered; otherwise each of its four quadrants must hold a published
/// patch and be covered in the same way.
pub open spec fn cover_renderable(
    patch: TerrainPatch,
    planet_entity: u64,
    published: Seq<TerrainPatch>,
    rendered: Seq<TerrainPatchRenderKey>,
) -> bool
    decreases MAX_ADDRESSABLE_LEVEL - patch.level,
{
    if published.contains(patch) {
        rendered.contains(render_key(planet_entity, patch))
    } else if patch.level >= MAX_ADDRESSABLE_LEVEL {
        false
    } else {
        &&& has_published_within(patch.spec_child(0), published)
        &&& cover_renderable(patch.spec_child(0), planet_entity, published, rendered)
        &&& has_published_within(patch.spec_child(1), published)
        &&& cover_renderable(patch.spec_child(1), planet_entity, published, rendered)
        &&& has_published_within(patch.spec_child(2), published)
        &&& cover_renderable(patch.spec_child(2), planet_entity, published, rendered)
        &&& has_published_within(patch.spec_child(3), published)
        &&& cover_renderable(patch.spec_child(3), planet_entity, published, rendered)
    }
}

/// Whether some published patch lies inside `patch`.
pub fn has_published_descendant(patch: TerrainPatch, published: &[TerrainPatch]) -> (r: bool)
    requires
        patch.wf(),
        all_wf(published@),
    ensures
        r == has_published_within(patch, published@),
{
    let mut i: usize = 0;
    while i < published.len()
        invariant
            i <= published@.len(),
            patch.wf(),
            all_wf(published@),
            forall|j: int| 0 <= j < i ==> !patch.covers(#[trigger] published@[j]),
        decreases published@.len() - i,
    {
        if patch.is_ancestor_of(&published[i]) {
            return true;
        }
        i = i + 1;
    }
    false
}

/// Whether `patch`'s area is fully covered by rendered published patches:
/// only then may a departing parent be hidden without exposing a hole.
pub fn published_cover_is_renderable(
    patch: TerrainPatch,
    planet_entity: u64,
    published: &[TerrainPatch],
    rendered: &[TerrainPatchRenderKey],
) -> (r: bool)
    requires
        patch.wf(),
        all_wf(published@),
    ensures
        r == cover_renderable(patch, planet_entity, published@, rendered@),
    decreases MAX_ADDRESSABLE_LEVEL - patch.level,
{
    if contains_patch(published, &patch) {
        return contains_key(rendered, &TerrainPatchRenderKey { planet_entity, patch });
    }
    if patch.level >= MAX_ADDRESSABLE_LEVEL {
        return false;
    }
    let children = patch.children();
    let mut k: usize = 0;
    while k < 4
        invariant
            k <= 4,
            patch.wf(),
            patch.level < MAX_ADDRESSABLE_LEVEL,
            !published@.contains(patch),
            all_wf(published@),
            forall|i: int| 0 <= i < 4 ==> #[trigger] children@[i] == patch.spec_child(i),
            forall|i: int| 0 <= i < k ==> has_published_within(#[trigger] patch.spec_child(i), published@)
                && cover_renderable(patch.spec_child(i), planet_entity, published@, rendered@),
        decreases 4 - k,
    {
        let child = children[k];
        proof {
            crate::patch::lemma_children_are_covered(patch, k as int);
            assert(child == patch.spec_child(k as int));
        }
        if !has_published_descendant(child, published) || !published_cover_is_renderable(
            child,
            planet_entity,
            published,
            rendered,
        ) {
            proof {
                assert(!has_published_within(patch.spec_child(k as int), published@) || !cover_renderable(
                    patch.spec_child(k as int),
                    planet_entity,
                    published@,
                    rendered@,
                ));
                if k == 0 {
                } else if k == 1 {
                } else if k == 2 {
                } else {
                }
            }
            return false;
        }
        k = k + 1;
    }
    true
}

/// The published patches strictly inside `parent`, in publication order.
pub open spec fn descendants_in(parent: TerrainPatch, published: Seq<TerrainPatch>) -> Seq<TerrainPatch> {
    published.filter(|p: TerrainPatch| p.level > parent.level && parent.covers(p))
}

/// The published patches strictly inside `parent`: revealed when the parent
/// is hidden.
pub fn published_descendants(parent: TerrainPatch, published: &[TerrainPatch]) -> (r: Vec<TerrainPatch>)
    requires
        parent.wf(),
        all_wf(published@),
    ensures
        r@ == descendants_in(parent, published@),
{
    let ghost pred = |p: TerrainPatch| p.level > parent.level && parent.covers(p);
    let mut r: Vec<TerrainPatch> = Vec::new();
    let mut i: usize = 0;
    while i < published.len()
        invariant
            i <= published@.len(),
            parent.wf(),
            all_wf(published@),
            forall|p: TerrainPatch| #[trigger] pred(p) == (p.level > parent.level && parent.covers(p)),
            r@ == published@.subrange(0, i as int).filter(pred),
        decreases published@.len() - i,
    {
        proof {
            reveal_with_fuel(Seq::<_>::filter, 1);
            assert(published@.subrange(0, i + 1).drop_last() == published@.subrange(0, i as int));
        }
        let candidate = published[i];
        if candidate.level > parent.level && parent.is_ancestor_of(&candidate) {
            r.push(candidate);
        }
        i = i + 1;
    }
    proof {
        assert(published@.subrange(0, published@.len() as int) == published@);
        assert(pred == |p: TerrainPatch| p.level > parent.level && parent.covers(p));
    }
    r
}

/// The step the hide pass takes for a pending hide of `key`.
pub open spec fn hide_step_for(
    key: TerrainPatchRenderKey,
    published: Seq<TerrainPatch>,
    rendered: Seq<TerrainPatchRenderKey>,
) -> HideStep {
    if published.contains(key.patch) {
        HideStep::Drop
    } else if descendants_in(key.patch, published).len() > 0 && !cover_renderable(
        key.patch,
        key.planet_entity,
        published,
        rendered,
    ) {
        HideStep::Wait
    } else if !rendered.contains(key) {
        HideStep::Forget
    } else {
        HideStep::Hide
    }
}

/// Decide what to do with a pending hide: a republished patch needs none; a
/// parent with published replacements waits until their cover is rendered;
/// a patch without render entity is forgotten; otherwise it is hidden.
pub fn hide_step(
    key: TerrainPatchRenderKey,
    published: &[TerrainPatch],
    rendered: &[TerrainPatchRenderKey],
) -> (r: HideStep)
    requires
        key.patch.wf(),
        all_wf(published@),
    ensures
        r == hide_step_for(key, published@, rendered@),
{
    if contains_patch(published, &key.patch) {
        return HideStep::Drop;
    }
    let replacements = published_descendants(key.patch, published);
    if replacements.len() > 0 && !published_cover_is_renderable(key.patch, key.planet_entity, published, rendered) {
        return HideStep::Wait;
    }
    if !contains_key(rendered, &key) {
        return HideStep::Forget;
    }
    HideStep::Hide
}

/// A parent is hidden only when hiding it exposes no hole: it left
/// publication, it has a render entity, and when published descendants
/// replace it, every quadrant of its area is covered by rendered published
/// patches.
pub proof fn lemma_hidden_parent_leaves_no_hole(
    key: TerrainPatchRenderKey,
    published: Seq<TerrainPatch>,
    rendered: Seq<TerrainPatchRenderKey>,
)
    requires
        hide_step_for(key, published, rendered) == HideStep::Hide,
    ensures
        !published.contains(key.patch),
        rendered.contains(key),
        descendants_in(key.patch, published).len() > 0 ==> key.patch.level < MAX_ADDRESSABLE_LEVEL && forall|i: int|
            0 <= i < 4 ==> has_published_within(#[trigger] key.patch.spec_child(i), published) && cover_renderable(
                key.patch.spec_child(i),
                key.planet_entity,
                published,
                rendered,
            ),
{
    if descendants_in(key.patch, published).len() > 0 {
        assert(cover_renderable(key.patch, key.planet_entity, published, rendered));
        assert forall|i: int| 0 <= i < 4 implies has_published_within(#[trigger] key.patch.spec_child(i), published)
            && cover_renderable(key.patch.spec_child(i), key.planet_entity, published, rendered) by {
            if i == 0 {
            } else if i == 1 {
            } else if i == 2 {
            } else {
            }
        }
    }
}

/// Publication is authoritative: a published patch of the active planet (or
/// of any planet while none is active) is shown again unless a departing
/// ancestor is still shown over its area.
pub fn should_show_published(
    key: TerrainPatchRenderKey,
    active_planet: Option<u64>,
    published: &[TerrainPatch],
    shown: &[TerrainPatchRenderKey],
) -> (r: bool)
    requires
        key.patch.wf(),
    ensures
        r == (published@.contains(key.patch) && (match active_planet {
            Some(active) => active == key.planet_entity,
            None => true,
        }) && !departing_ancestor(key.patch, key.planet_entity, published@, shown@)),
{
    if !contains_patch(published, &key.patch) {
        return false;
    }
    let planet_matches = match active_planet {
        Some(active) => active == key.planet_entity,
        None => true,
    };
    planet_matches && !has_visible_departing_ancestor(key.patch, key.planet_entity, published, shown)
}

/// Whether a queued upload is still current: its planet is the active one,
/// its patch is still published and it has no render entity yet.
pub fn upload_is_current(
    event: TerrainPatchReady,
    active_planet: Option<u64>,
    published: &[TerrainPatch],
    rendered: &[TerrainPatchRenderKey],
) -> (r: bool)
    ensures
        r == ((active_planet == Some(event.planet_entity)) && published@.contains(event.patch) && !rendered@.contains(
            render_key(event.planet_entity, event.patch),
        )),
{
    let planet_matches = match active_planet {
        Some(active) => active == event.planet_entity,
        None => false,
    };
    if !planet_matches || !contains_patch(published, &event.patch) {
        return false;
    }
    !contains_key(rendered, &TerrainPatchRenderKey::from_ready(&event))
}

} // verus!
