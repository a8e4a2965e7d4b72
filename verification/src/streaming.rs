//! Decisions of the cube-sphere terrain streaming loop.
//!
//! Each reconciliation keeps a complete coarse cover, refines the viewport,
//! generates the requested patches in a bounded number of parallel bakes, and
//! publishes only a cover whose every patch is requested and selected. The
//! patch manager's lifecycle is seen here as a list of `(patch, state)` pairs;
//! sets of patches are lists in which no patch occurs twice.
use vstd::prelude::*;
use crate::patch::{
    TerrainPatch, ascending_patches, contains_patch, distinct_patches, insert_ascending, insert_patch,
    lemma_patch_order_is_strict_total,
};
use crate::surface::{
    max_vegetation_mesh_bytes, supports_local_surfaces, supports_vegetation, vegetation_mesh_bytes,
    LOCAL_SURFACE_MAP_BYTES, LOCAL_SURFACE_MIN_PATCH_LEVEL, VEGETATION_MIN_PATCH_LEVEL,
};

verus! {

/// Deepest level the streaming hierarchy refines to.
pub const MAX_PATCH_LEVEL: u32 = 14;
/// Domain geometry keeps f64 position/normal and two UV sets per vertex.
pub const DOMAIN_BYTES_PER_VERTEX: u64 = 64;
/// The renderer's f32 copy: position, normal, two UVs and vertex colour.
pub const RENDER_BYTES_PER_VERTEX: u64 = 56;
pub const BYTES_PER_INDEX: u64 = 4;
/// Default cache budget: 128 MiB.
pub const DEFAULT_BUDGET_BYTES: u64 = 128 * 1024 * 1024;
/// Generated tiles between two streaming metrics reports.
pub const METRICS_GENERATED_TILE_INTERVAL: usize = 32;
/// Most terrain bakes admitted per presentation frame.
pub const MAX_TERRAIN_TASKS_PER_FRAME: usize = 2;
/// Bound on the published cover, fallback chain included.
pub const MAX_VIEWPORT_TARGET_LEAVES: usize = 300;
/// Leaf budget of the visible traversal, leaving room for 2:1 balancing.
pub const MAX_VIEWPORT_UNBALANCED_LEAVES: usize = 236;

/// What a reconciliation does with the terrain owner. Planets are named by
/// the 64-bit identity of their entity.
#[derive(Clone, Copy, Debug, PartialEq, Eq, Structural)]
pub struct PlanetBinding {
    /// The terrain cache is cleared.
    pub clear_cache: bool,
    /// The planet whose patches are announced as evicted, if any.
    pub evicted_planet: Option<u64>,
    /// The planet that owns the terrain afterwards.
    pub active_planet: Option<u64>,
}

/// Bind the terrain to the planet the rocket is on (`None`: no rocket, or no
/// planet matches it). Without a planet the cache is cleared and the previous
/// owner, if any, is told of the evictions. A switch to another planet clears
/// the cache in the same way; the bound planet then owns the terrain.
pub fn bind_planet(active_planet: Option<u64>, bound_planet: Option<u64>) -> (r: PlanetBinding)
    ensures
        bound_planet is None ==> r.clear_cache && r.evicted_planet == active_planet && r.active_planet is None,
        bound_planet is Some ==> {
            &&& r.active_planet == bound_planet
            &&& r.clear_cache == (active_planet is Some && active_planet != bound_planet)
            &&& r.evicted_planet == if r.clear_cache {
                active_planet
            } else {
                None
            }
        },
{
    match bound_planet {
        None => PlanetBinding { clear_cache: true, evicted_planet: active_planet, active_planet: None },
        Some(planet) => {
            let switched = match active_planet {
                Some(previous) => previous != planet,
                None => false,
            };
            PlanetBinding {
                clear_cache: switched,
                evicted_planet: if switched {
                    active_planet
                } else {
                    None
                },
                active_planet: Some(planet),
            }
        },
    }
}

/// Lifecycle state of a patch in the streaming manager.
#[derive(Clone, Copy, Debug, PartialEq, Eq, Structural)]
pub enum PatchState {
    Requested,
    Generating,
    Loading,
    Ready,
    Visible,
    Cached,
    Evicted,
}

/// Visibility of a candidate patch during viewport traversal.
#[derive(Clone, Copy, Debug, PartialEq, Eq, Structural)]
pub enum PatchViewportVisibility {
    Visible,
    BehindHorizon,
    OutsideFrustum,
}

/// Per-reconciliation traversal decisions.
#[derive(Clone, Copy, Debug, PartialEq, Eq, Structural)]
pub struct TerrainCullingStats {
    pub candidates: usize,
    pub horizon_rejected: usize,
    pub frustum_rejected: usize,
}

/// Unfinished work dropped because it left the requested set.
#[derive(Clone, Copy, Debug, PartialEq, Eq, Structural)]
pub struct TerrainCancellation {
    pub inflight: usize,
    pub requested: usize,
}

/// What clearing the cache does to a managed patch in a given state.
#[derive(Clone, Copy, Debug, PartialEq, Eq, Structural)]
pub enum ClearAction {
    /// Drop the pending request or bake.
    CancelPending,
    /// Cache, then evict the resident geometry.
    Evict,
    /// Already gone.
    Nothing,
}

/// Result of one publication step: the new published cover, the patches that
/// left it (each gets a cached event) and those that entered it (each gets a
/// ready event).
pub struct Publication {
    pub published: Vec<TerrainPatch>,
    pub departed: Vec<TerrainPatch>,
    pub arrived: Vec<TerrainPatch>,
}

impl TerrainCullingStats {
    /// No candidate seen yet.
    pub fn new() -> (r: Self)
        ensures
            r.candidates == 0 && r.horizon_rejected == 0 && r.frustum_rejected == 0,
    {
        TerrainCullingStats { candidates: 0, horizon_rejected: 0, frustum_rejected: 0 }
    }

    /// Count one candidate and, when it was rejected, the reason.
    pub fn record(&mut self, visibility: PatchViewportVisibility)
        requires
            old(self).candidates < usize::MAX,
            old(self).horizon_rejected < usize::MAX,
            old(self).frustum_rejected < usize::MAX,
        ensures
            final(self).candidates == old(self).candidates + 1,
            final(self).horizon_rejected == old(self).horizon_rejected + if visibility
                == PatchViewportVisibility::BehindHorizon {
                1int
            } else {
                0int
            },
            final(self).frustum_rejected == old(self).frustum_rejected + if visibility
                == PatchViewportVisibility::OutsideFrustum {
                1int
            } else {
                0int
            },
    {
        self.candidates = self.candidates + 1;
        match visibility {
            PatchViewportVisibility::Visible => {},
            PatchViewportVisibility::BehindHorizon => self.horizon_rejected = self.horizon_rejected + 1,
            PatchViewportVisibility::OutsideFrustum => self.frustum_rejected = self.frustum_rejected + 1,
        }
    }
}

impl TerrainCancellation {
    /// Every cancelled task and request.
    pub fn total(self) -> (r: usize)
        requires
            self.inflight + self.requested <= usize::MAX,
        ensures
            r == self.inflight + self.requested,
    {
        self.inflight + self.requested
    }
}

/// Keep terrain generation within the async-worker budget: the idle workers,
/// at most `MAX_TERRAIN_TASKS_PER_FRAME` per frame.
pub fn generation_capacity(worker_count: usize, inflight_count: usize) -> (r: usize)
    ensures
        r == if worker_count <= inflight_count {
            0
        } else if worker_count - inflight_count <= MAX_TERRAIN_TASKS_PER_FRAME {
            worker_count - inflight_count
        } else {
            MAX_TERRAIN_TASKS_PER_FRAME as int
        },
{
    let idle: usize = if worker_count > inflight_count {
        worker_count - inflight_count
    } else {
        0
    };
    if idle < MAX_TERRAIN_TASKS_PER_FRAME {
        idle
    } else {
        MAX_TERRAIN_TASKS_PER_FRAME
    }
}

/// Bytes of a streamed patch's terrain meshes: a `resolution` x `resolution`
/// grid (at least 2 x 2) plus its skirt ring, kept both as domain geometry
/// and as the renderer's copy, each with its own index buffer.
pub open spec fn terrain_mesh_bytes(resolution: u32) -> int {
    let res: int = if resolution < 2 {
        2
    } else {
        resolution as int
    };
    let vertices = res * res + 4 * (res - 1);
    let indices = 6 * ((res - 1) * (res - 1) + 4 * (res - 1));
    vertices * (DOMAIN_BYTES_PER_VERTEX + RENDER_BYTES_PER_VERTEX) + indices * 2 * BYTES_PER_INDEX
}

/// Bytes reserved for a patch of `level`: its meshes, its local surface maps
/// when close enough, and its largest vegetation mesh when vegetated.
pub open spec fn patch_bytes(level: u32, resolution: u32, grass_budget: int) -> int {
    terrain_mesh_bytes(resolution) + (if level >= LOCAL_SURFACE_MIN_PATCH_LEVEL {
        LOCAL_SURFACE_MAP_BYTES as int
    } else {
        0
    }) + (if level >= VEGETATION_MIN_PATCH_LEVEL {
        vegetation_mesh_bytes(grass_budget)
    } else {
        0
    })
}

/// Memory reserved for a requested patch before its bake starts. Vegetated
/// patches reserve the largest merged vegetation mesh with up to
/// `grass_budget` grass tufts.
pub fn estimated_patch_bytes(patch: TerrainPatch, resolution: u32, grass_budget: u64) -> (r: u64)
    requires
        patch_bytes(patch.level, resolution, grass_budget as int) <= u64::MAX,
    ensures
        r == patch_bytes(patch.level, resolution, grass_budget as int),
{
    let res: u64 = if resolution < 2 {
        2
    } else {
        resolution as u64
    };
    proof {
        assert(0 <= vegetation_mesh_bytes(grass_budget as int));
        assert((res - 1) * (res - 1) <= res * res) by (nonlinear_arith)
            requires
                res >= 2,
        ;
        assert(res * res + 4 * (res - 1) <= (res * res + 4 * (res - 1)) * (DOMAIN_BYTES_PER_VERTEX
            + RENDER_BYTES_PER_VERTEX)) by (nonlinear_arith)
            requires
                res >= 2,
        ;
        assert(6 * ((res - 1) * (res - 1) + 4 * (res - 1)) <= 6 * ((res - 1) * (res - 1) + 4 * (res - 1)) * 2
            * BYTES_PER_INDEX) by (nonlinear_arith)
            requires
                res >= 2,
        ;
    }
    let vertices = res * res + 4 * (res - 1);
    let indices = 6 * ((res - 1) * (res - 1) + 4 * (res - 1));
    let mut terrain_bytes = vertices * (DOMAIN_BYTES_PER_VERTEX + RENDER_BYTES_PER_VERTEX) + indices * 2
        * BYTES_PER_INDEX;
    if supports_local_surfaces(patch.level) {
        terrain_bytes = terrain_bytes + LOCAL_SURFACE_MAP_BYTES;
    }
    if supports_vegetation(patch.level) {
        terrain_bytes = terrain_bytes + max_vegetation_mesh_bytes(grass_budget);
    }
    terrain_bytes
}

/// The state of `patch` in the manager's `(patch, state)` list, if managed.
pub open spec fn state_in(states: Seq<(TerrainPatch, PatchState)>, patch: TerrainPatch) -> Option<PatchState>
    decreases states.len(),
{
    if states.len() == 0 {
        None
    } else if states.last().0 == patch {
        Some(states.last().1)
    } else {
        state_in(states.drop_last(), patch)
    }
}

/// The state of `patch` in the manager's `(patch, state)` list, if managed.
pub fn state_of(states: &[(TerrainPatch, PatchState)], patch: &TerrainPatch) -> (r: Option<PatchState>)
    ensures
        r == state_in(states@, *patch),
{
    let mut i: usize = states.len();
    proof {
        assert(states@.subrange(0, states@.len() as int) == states@);
    }
    while i > 0
        invariant
            i <= states@.len(),
            state_in(states@, *patch) == state_in(states@.subrange(0, i as int), *patch),
        decreases i,
    {
        proof {
            assert(states@.subrange(0, i as int).drop_last() == states@.subrange(0, i - 1));
        }
        i = i - 1;
        if states[i].0 == *patch {
            return Some(states[i].1);
        }
    }
    proof {
        assert(states@.subrange(0, 0).len() == 0);
    }
    None
}

/// A patch needs a bake: it is requested and has no generated geometry.
pub fn patch_needs_geometry(state: Option<PatchState>, has_geometry: bool) -> (r: bool)
    ensures
        r == (state == Some(PatchState::Requested) && !has_geometry),
{
    match state {
        Some(PatchState::Requested) => !has_geometry,
        _ => false,
    }
}

/// The patches of `ordered`, in order, that still need a bake.
pub open spec fn needing_bake(
    ordered: Seq<TerrainPatch>,
    states: Seq<(TerrainPatch, PatchState)>,
    generated: Seq<TerrainPatch>,
) -> Seq<TerrainPatch> {
    ordered.filter(|p: TerrainPatch| state_in(states, p) == Some(PatchState::Requested) && !generated.contains(p))
}

/// The first `limit` patches of `s` (all of them if fewer).
pub open spec fn first_n(s: Seq<TerrainPatch>, limit: int) -> Seq<TerrainPatch> {
    if s.len() <= limit {
        s
    } else {
        s.subrange(0, limit)
    }
}

/// The next bakes to start: the first `limit` patches of the priority order
/// that are requested and have no generated geometry.
pub fn generation_batch(
    ordered: &[TerrainPatch],
    states: &[(TerrainPatch, PatchState)],
    generated: &[TerrainPatch],
    limit: usize,
) -> (r: Vec<TerrainPatch>)
    ensures
        r@ == first_n(needing_bake(ordered@, states@, generated@), limit as int),
{
    let ghost needs = |p: TerrainPatch| state_in(states@, p) == Some(PatchState::Requested) && !generated@.contains(p);
    let mut batch: Vec<TerrainPatch> = Vec::new();
    let mut i: usize = 0;
    while i < ordered.len()
        invariant
            i <= ordered@.len(),
            forall|p: TerrainPatch| #[trigger] needs(p) == (state_in(states@, p) == Some(PatchState::Requested)
                && !generated@.contains(p)),
            batch@ == first_n(ordered@.subrange(0, i as int).filter(needs), limit as int),
        decreases ordered@.len() - i,
    {
        let patch = ordered[i];
        proof {
            reveal_with_fuel(Seq::<_>::filter, 1);
            assert(ordered@.subrange(0, i + 1).drop_last() == ordered@.subrange(0, i as int));
        }
        let needed = patch_needs_geometry(state_of(states, &patch), contains_patch(generated, &patch));
        if needed && batch.len() < limit {
            batch.push(patch);
        }
        proof {
            let before = ordered@.subrange(0, i as int).filter(needs);
            let after = ordered@.subrange(0, i + 1).filter(needs);
            assert(needed == needs(patch));
            if needed {
                assert(after == before.push(patch));
                if before.len() >= limit {
                    assert(first_n(after, limit as int) == first_n(before, limit as int));
                }
            } else {
                assert(after == before);
            }
        }
        i = i + 1;
    }
    proof {
        assert(ordered@.subrange(0, ordered@.len() as int) == ordered@);
        assert(needs == |p: TerrainPatch| state_in(states@, p) == Some(PatchState::Requested) && !generated@.contains(p));
    }
    batch
}

/// Scheduling tier and anchor of a requested patch: unpublished roots come
/// first; then a child group that replaces a published parent leaving the
/// target, anchored at that parent; then the group refining the focus path;
/// then everything else. `focus_chain[l]` is the patch of level `l` under
/// the focus direction.
pub open spec fn priority_group(
    patch: TerrainPatch,
    published: Seq<TerrainPatch>,
    target_leaves: Seq<TerrainPatch>,
    focus_chain: Seq<TerrainPatch>,
) -> (u8, TerrainPatch) {
    if patch.level == 0 && !published.contains(patch) {
        (0, patch)
    } else {
        match patch.spec_parent() {
            None => (2, patch),
            Some(parent) => if published.contains(parent) && !target_leaves.contains(parent) {
                (0, parent)
            } else if parent.level < focus_chain.len() && focus_chain[parent.level as int] == parent {
                (1, parent)
            } else {
                (2, patch)
            },
        }
    }
}

/// Scheduling tier and anchor of a requested patch.
pub fn generation_priority_group(
    patch: TerrainPatch,
    published: &[TerrainPatch],
    target_leaves: &[TerrainPatch],
    focus_chain: &[TerrainPatch],
) -> (r: (u8, TerrainPatch))
    ensures
        r == priority_group(patch, published@, target_leaves@, focus_chain@),
{
    if patch.level == 0 && !contains_patch(published, &patch) {
        return (0, patch);
    }
    match patch.parent() {
        None => (2, patch),
        Some(parent) => {
            if contains_patch(published, &parent) && !contains_patch(target_leaves, &parent) {
                (0, parent)
            } else if (parent.level as usize) < focus_chain.len() && focus_chain[parent.level as usize] == parent {
                (1, parent)
            } else {
                (2, patch)
            }
        },
    }
}

/// Whether `q` joins the request through the viewport LOD group of `patch`:
/// it is a selected child of one of `patch`'s ancestors, or `patch`'s root.
pub open spec fn in_lod_group(patch: TerrainPatch, selected: Seq<TerrainPatch>, q: TerrainPatch) -> bool
    decreases patch.level,
{
    if patch.level == 0 {
        q == patch
    } else {
        let parent = patch.spec_parent().unwrap();
        (q.spec_parent() == Some(parent) && selected.contains(q)) || in_lod_group(parent, selected, q)
    }
}

proof fn lemma_child_is_spec_child(parent: TerrainPatch, q: TerrainPatch)
    requires
        q.spec_parent() == Some(parent),
    ensures
        exists|i: int| 0 <= i < 4 && q == #[trigger] parent.spec_child(i),
{
    let i = (q.tile_x % 2) + 2 * (q.tile_y % 2);
    assert(q == parent.spec_child(i as int));
}

/// Refinement is published only when every child replacing a parent is
/// ready, so once a child intersects the viewport its selected sibling group
/// and every ancestor's selected sibling group join the request, up to the
/// root.
pub fn add_viewport_lod_group(patch: TerrainPatch, selected: &[TerrainPatch], requested: &mut Vec<TerrainPatch>)
    requires
        patch.wf(),
        distinct_patches(old(requested)@),
    ensures
        distinct_patches(final(requested)@),
        forall|q: TerrainPatch| #[trigger] final(requested)@.contains(q) <==> old(requested)@.contains(q)
            || in_lod_group(patch, selected@, q),
{
    let mut current = patch;
    loop
        invariant_except_break
            current.wf(),
            distinct_patches(requested@),
            forall|q: TerrainPatch| #[trigger] in_lod_group(patch, selected@, q) == (in_lod_group(current, selected@, q)
                || (in_lod_group(patch, selected@, q) && requested@.contains(q))),
            forall|q: TerrainPatch| requested@.contains(q) ==> old(requested)@.contains(q) || in_lod_group(patch, selected@, q),
            forall|q: TerrainPatch| old(requested)@.contains(q) ==> #[trigger] requested@.contains(q),
        ensures
            distinct_patches(requested@),
            forall|q: TerrainPatch| #[trigger] requested@.contains(q) <==> old(requested)@.contains(q)
                || in_lod_group(patch, selected@, q),
        decreases current.level,
    {
        match current.parent() {
            None => {
                let ghost before = requested@;
                insert_patch(requested, current);
                proof {
                    assert forall|q: TerrainPatch| #[trigger] requested@.contains(q) <==> old(requested)@.contains(q)
                        || in_lod_group(patch, selected@, q) by {
                        assert(in_lod_group(patch, selected@, q) == (in_lod_group(current, selected@, q) || (
                        in_lod_group(patch, selected@, q) && before.contains(q))));
                        if old(requested)@.contains(q) {
                            assert(before.contains(q));
                        }
                        if before.contains(q) {
                            assert(old(requested)@.contains(q) || in_lod_group(patch, selected@, q));
                        }
                    }
                }
                break;
            },
            Some(parent) => {
                proof {
                    crate::patch::lemma_parent_covers(current);
                }
                let children = parent.children();
                let mut k: usize = 0;
                while k < 4
                    invariant
                        k <= 4,
                        parent.wf(),
                        current.wf(),
                        current.level > 0,
                        current.spec_parent() == Some(parent),
                        forall|i: int| 0 <= i < 4 ==> #[trigger] children@[i] == parent.spec_child(i),
                        distinct_patches(requested@),
                        forall|q: TerrainPatch| #[trigger] in_lod_group(patch, selected@, q) == (in_lod_group(
                            current,
                            selected@,
                            q,
                        ) || (in_lod_group(patch, selected@, q) && requested@.contains(q))),
                        forall|i: int| 0 <= i < k ==> selected@.contains(#[trigger] parent.spec_child(i))
                            ==> requested@.contains(parent.spec_child(i)),
                        forall|q: TerrainPatch| requested@.contains(q) ==> old(requested)@.contains(q) || in_lod_group(
                            patch,
                            selected@,
                            q,
                        ),
                        forall|q: TerrainPatch| old(requested)@.contains(q) ==> #[trigger] requested@.contains(q),
                    decreases 4 - k,
                {
                    let sibling = children[k];
                    proof {
                        crate::patch::lemma_children_are_covered(parent, k as int);
                    }
                    if contains_patch(selected, &sibling) {
                        proof {
                            assert(in_lod_group(current, selected@, sibling));
                        }
                        insert_patch(requested, sibling);
                    }
                    k = k + 1;
                }
                proof {
                    assert forall|q: TerrainPatch| #[trigger] in_lod_group(patch, selected@, q) == (in_lod_group(
                        parent,
                        selected@,
                        q,
                    ) || (in_lod_group(patch, selected@, q) && requested@.contains(q))) by {
                        if q.spec_parent() == Some(parent) && selected@.contains(q) {
                            lemma_child_is_spec_child(parent, q);
                            let i = choose|i: int| 0 <= i < 4 && q == #[trigger] parent.spec_child(i);
                            assert(selected@.contains(parent.spec_child(i)));
                        }
                    }
                }
                current = parent;
            },
        }
    }
}

/// Whether `q` is requested this reconciliation: a root in view (or the
/// focused fallback root), or a member of the LOD group of a selected patch
/// in view.
pub open spec fn in_request(
    roots_in_view: Seq<TerrainPatch>,
    selected_in_view: Seq<TerrainPatch>,
    selection: Seq<TerrainPatch>,
    q: TerrainPatch,
) -> bool {
    roots_in_view.contains(q) || exists|k: int|
        0 <= k < selected_in_view.len() && in_lod_group(#[trigger] selected_in_view[k], selection, q)
}

/// Every patch of the list is a valid quadtree node.
pub open spec fn all_patches_wf(s: Seq<TerrainPatch>) -> bool {
    forall|k: int| 0 <= k < s.len() ==> (#[trigger] s[k]).wf()
}

/// The request set of one reconciliation: the roots in view plus, for every
/// selected patch in view, its LOD group within the selection.
pub fn build_requested(
    roots_in_view: &[TerrainPatch],
    selected_in_view: &[TerrainPatch],
    selection: &[TerrainPatch],
) -> (requested: Vec<TerrainPatch>)
    requires
        all_patches_wf(selected_in_view@),
    ensures
        distinct_patches(requested@),
        forall|q: TerrainPatch| #[trigger] requested@.contains(q) <==> in_request(
            roots_in_view@,
            selected_in_view@,
            selection@,
            q,
        ),
{
    let mut requested: Vec<TerrainPatch> = Vec::new();
    let mut i: usize = 0;
    while i < roots_in_view.len()
        invariant
            i <= roots_in_view@.len(),
            distinct_patches(requested@),
            forall|q: TerrainPatch| #[trigger] requested@.contains(q) <==> roots_in_view@.subrange(0, i as int).contains(q),
        decreases roots_in_view@.len() - i,
    {
        let ghost before = requested@;
        insert_patch(&mut requested, roots_in_view[i]);
        proof {
            assert forall|q: TerrainPatch| #[trigger] requested@.contains(q) <==> roots_in_view@.subrange(
                0,
                i + 1,
            ).contains(q) by {
                let prefix = roots_in_view@.subrange(0, i as int);
                let next = roots_in_view@.subrange(0, i + 1);
                if prefix.contains(q) {
                    let m = choose|m: int| 0 <= m < prefix.len() && prefix[m] == q;
                    assert(next[m] == q);
                }
                if q == roots_in_view@[i as int] {
                    assert(next[i as int] == q);
                }
                if next.contains(q) && q != roots_in_view@[i as int] {
                    let m = choose|m: int| 0 <= m < next.len() && next[m] == q;
                    assert(m < i);
                    assert(prefix[m] == q);
                }
            }
        }
        i = i + 1;
    }
    proof {
        assert(roots_in_view@.subrange(0, roots_in_view@.len() as int) == roots_in_view@);
    }
    let mut k: usize = 0;
    while k < selected_in_view.len()
        invariant
            k <= selected_in_view@.len(),
            all_patches_wf(selected_in_view@),
            distinct_patches(requested@),
            forall|q: TerrainPatch| #[trigger] requested@.contains(q) <==> (roots_in_view@.contains(q) || exists|m: int|
                0 <= m < k && in_lod_group(#[trigger] selected_in_view@[m], selection@, q)),
        decreases selected_in_view@.len() - k,
    {
        let patch = selected_in_view[k];
        let ghost before = requested@;
        add_viewport_lod_group(patch, selection, &mut requested);
        proof {
            assert forall|q: TerrainPatch| #[trigger] requested@.contains(q) <==> (roots_in_view@.contains(q)
                || exists|m: int| 0 <= m < k + 1 && in_lod_group(#[trigger] selected_in_view@[m], selection@, q)) by {
                if in_lod_group(patch, selection@, q) {
                    assert(in_lod_group(selected_in_view@[k as int], selection@, q));
                }
                if exists|m: int| 0 <= m < k + 1 && in_lod_group(#[trigger] selected_in_view@[m], selection@, q) {
                    let m = choose|m: int| 0 <= m < k + 1 && in_lod_group(#[trigger] selected_in_view@[m], selection@, q);
                    if m < k {
                        assert(before.contains(q));
                    }
                }
            }
        }
        k = k + 1;
    }
    requested
}

/// The patches of `s`, in order, that are not in `removed`.
pub open spec fn without(s: Seq<TerrainPatch>, removed: Seq<TerrainPatch>) -> Seq<TerrainPatch> {
    s.filter(|p: TerrainPatch| !removed.contains(p))
}

/// The patches of `s` that are (`keep`) or are not (`!keep`) in `set`, in order.
fn select_patches(s: &[TerrainPatch], set: &[TerrainPatch], keep: bool) -> (r: Vec<TerrainPatch>)
    ensures
        r@ == s@.filter(|p: TerrainPatch| set@.contains(p) == keep),
{
    let ghost pred = |p: TerrainPatch| set@.contains(p) == keep;
    let mut r: Vec<TerrainPatch> = Vec::new();
    let mut i: usize = 0;
    while i < s.len()
        invariant
            i <= s@.len(),
            forall|p: TerrainPatch| #[trigger] pred(p) == (set@.contains(p) == keep),
            r@ == s@.subrange(0, i as int).filter(pred),
        decreases s@.len() - i,
    {
        proof {
            reveal_with_fuel(Seq::<_>::filter, 1);
            assert(s@.subrange(0, i + 1).drop_last() == s@.subrange(0, i as int));
        }
        if contains_patch(set, &s[i]) == keep {
            r.push(s[i]);
        }
        i = i + 1;
    }
    proof {
        assert(s@.subrange(0, s@.len() as int) == s@);
        assert(pred == |p: TerrainPatch| set@.contains(p) == keep);
    }
    r
}

/// `r` is the publication of a reconciliation: the published cover is the
/// set of requested visible leaves, the departed patches those published
/// before but not now, the arrived patches those published now but not
/// before; each list in ascending patch order.
pub open spec fn is_publication(
    published: Seq<TerrainPatch>,
    visible_leaves: Seq<TerrainPatch>,
    requested: Seq<TerrainPatch>,
    r: Publication,
) -> bool {
    &&& ascending_patches(r.published@)
    &&& ascending_patches(r.departed@)
    &&& ascending_patches(r.arrived@)
    &&& forall|q: TerrainPatch| #[trigger]
        r.published@.contains(q) <==> visible_leaves.contains(q) && requested.contains(q)
    &&& forall|q: TerrainPatch| #[trigger] r.departed@.contains(q) <==> published.contains(q) && !r.published@.contains(q)
    &&& forall|q: TerrainPatch| #[trigger] r.arrived@.contains(q) <==> r.published@.contains(q) && !published.contains(q)
}

/// The patches of `s` that are (`keep`) or are not (`!keep`) in `set`, as an
/// ascending set.
fn ascending_selection(s: &[TerrainPatch], set: &[TerrainPatch], keep: bool) -> (r: Vec<TerrainPatch>)
    ensures
        ascending_patches(r@),
        forall|q: TerrainPatch| #[trigger] r@.contains(q) <==> s@.contains(q) && set@.contains(q) == keep,
{
    let mut r: Vec<TerrainPatch> = Vec::new();
    let mut i: usize = 0;
    while i < s.len()
        invariant
            i <= s@.len(),
            ascending_patches(r@),
            forall|q: TerrainPatch| #[trigger]
                r@.contains(q) <==> s@.subrange(0, i as int).contains(q) && set@.contains(q) == keep,
        decreases s@.len() - i,
    {
        let ghost before = r@;
        let p = s[i];
        if contains_patch(set, &p) == keep {
            insert_ascending(&mut r, p);
        }
        proof {
            assert forall|q: TerrainPatch| #[trigger]
                r@.contains(q) <==> s@.subrange(0, i + 1).contains(q) && set@.contains(q) == keep by {
                if s@.subrange(0, i + 1).contains(q) {
                    let k = choose|k: int| 0 <= k < i + 1 && #[trigger] s@.subrange(0, i + 1)[k] == q;
                    if k < i {
                        assert(s@.subrange(0, i as int)[k] == q);
                    }
                }
                if s@.subrange(0, i as int).contains(q) {
                    let k = choose|k: int| 0 <= k < i && #[trigger] s@.subrange(0, i as int)[k] == q;
                    assert(s@.subrange(0, i + 1)[k] == q);
                }
                if q == p {
                    assert(s@.subrange(0, i + 1)[i as int] == q);
                }
            }
        }
        i = i + 1;
    }
    proof {
        assert(s@.subrange(0, s@.len() as int) == s@);
    }
    r
}

/// Publish only a complete ready leaf cover: the requested visible leaves
/// replace the published set; those that left it and those that entered it
/// are reported, each list in ascending patch order.
pub fn plan_publication(
    published: &[TerrainPatch],
    visible_leaves: &[TerrainPatch],
    requested: &[TerrainPatch],
) -> (r: Publication)
    ensures
        is_publication(published@, visible_leaves@, requested@, r),
{
    let current = ascending_selection(visible_leaves, requested, true);
    let departed = ascending_selection(published, current.as_slice(), false);
    let arrived = ascending_selection(current.as_slice(), published, false);
    Publication { published: current, departed, arrived }
}

pub(crate) proof fn lemma_filter_member(s: Seq<TerrainPatch>, p: spec_fn(TerrainPatch) -> bool, t: TerrainPatch)
    ensures
        s.filter(p).contains(t) <==> s.contains(t) && p(t),
{
    if s.filter(p).contains(t) {
        s.lemma_filter_contains_rev(p, t);
        let i = choose|i: int| 0 <= i < s.filter(p).len() && #[trigger] s.filter(p)[i] == t;
        s.lemma_filter_pred(p, i);
    }
    if s.contains(t) && p(t) {
        let i = choose|i: int| 0 <= i < s.len() && #[trigger] s[i] == t;
        s.lemma_filter_contains(p, i);
    }
}

/// Publication replaces the cover: a patch is published afterwards exactly
/// when it is a requested visible leaf; it was published before and did not
/// depart, or it arrived; no patch both departs and stays, no arrival was
/// already published, and every list names each patch once.
pub proof fn lemma_publication_replaces_the_cover(
    published: Seq<TerrainPatch>,
    visible_leaves: Seq<TerrainPatch>,
    requested: Seq<TerrainPatch>,
    r: Publication,
    t: TerrainPatch,
)
    requires
        is_publication(published, visible_leaves, requested, r),
    ensures
        r.published@.contains(t) <==> visible_leaves.contains(t) && requested.contains(t),
        r.published@.contains(t) <==> (published.contains(t) && !r.departed@.contains(t)) || r.arrived@.contains(t),
        r.departed@.contains(t) ==> !r.published@.contains(t),
        r.arrived@.contains(t) ==> !published.contains(t),
        distinct_patches(r.published@),
        distinct_patches(r.departed@),
        distinct_patches(r.arrived@),
{
    assert forall|a: int, b: int| 0 <= a < b < r.published@.len() implies r.published@[a] != r.published@[b] by {
        lemma_patch_order_is_strict_total(r.published@[a], r.published@[b], r.published@[b]);
    }
    assert forall|a: int, b: int| 0 <= a < b < r.departed@.len() implies r.departed@[a] != r.departed@[b] by {
        lemma_patch_order_is_strict_total(r.departed@[a], r.departed@[b], r.departed@[b]);
    }
    assert forall|a: int, b: int| 0 <= a < b < r.arrived@.len() implies r.arrived@[a] != r.arrived@[b] by {
        lemma_patch_order_is_strict_total(r.arrived@[a], r.arrived@[b], r.arrived@[b]);
    }
}

/// Patches of `patches` whose parent is in `parents`: the splits of a new
/// target relative to the previous one, or the merges the other way round.
pub open spec fn with_parent_in(patches: Seq<TerrainPatch>, parents: Seq<TerrainPatch>) -> Seq<TerrainPatch> {
    patches.filter(|p: TerrainPatch| p.spec_parent() matches Some(q) && parents.contains(q))
}

/// How many of `patches` have their parent in `parents`.
pub fn count_with_parent_in(patches: &[TerrainPatch], parents: &[TerrainPatch]) -> (r: usize)
    ensures
        r == with_parent_in(patches@, parents@).len(),
{
    let ghost pred = |p: TerrainPatch| p.spec_parent() matches Some(q) && parents@.contains(q);
    let mut count: usize = 0;
    let mut i: usize = 0;
    while i < patches.len()
        invariant
            i <= patches@.len(),
            forall|p: TerrainPatch| #[trigger] pred(p) == (p.spec_parent() matches Some(q) && parents@.contains(q)),
            count == patches@.subrange(0, i as int).filter(pred).len(),
            count <= i,
        decreases patches@.len() - i,
    {
        proof {
            reveal_with_fuel(Seq::<_>::filter, 1);
            assert(patches@.subrange(0, i + 1).drop_last() == patches@.subrange(0, i as int));
        }
        let hit = match patches[i].parent() {
            Some(parent) => contains_patch(parents, &parent),
            None => false,
        };
        if hit {
            count = count + 1;
        }
        i = i + 1;
    }
    proof {
        assert(patches@.subrange(0, patches@.len() as int) == patches@);
        assert(pred == |p: TerrainPatch| p.spec_parent() matches Some(q) && parents@.contains(q));
    }
    count
}

/// Patches of `requested` that the manager already holds as requested: a
/// request for them repeats one still pending.
pub open spec fn repeated_requests(
    requested: Seq<TerrainPatch>,
    states: Seq<(TerrainPatch, PatchState)>,
) -> Seq<TerrainPatch> {
    requested.filter(|p: TerrainPatch| state_in(states, p) == Some(PatchState::Requested))
}

/// How many of `requested` repeat a request the manager still holds.
pub fn count_repeated_requests(requested: &[TerrainPatch], states: &[(TerrainPatch, PatchState)]) -> (r: usize)
    ensures
        r == repeated_requests(requested@, states@).len(),
{
    let ghost pred = |p: TerrainPatch| state_in(states@, p) == Some(PatchState::Requested);
    let mut count: usize = 0;
    let mut i: usize = 0;
    while i < requested.len()
        invariant
            i <= requested@.len(),
            forall|p: TerrainPatch| #[trigger] pred(p) == (state_in(states@, p) == Some(PatchState::Requested)),
            count == requested@.subrange(0, i as int).filter(pred).len(),
            count <= i,
        decreases requested@.len() - i,
    {
        proof {
            reveal_with_fuel(Seq::<_>::filter, 1);
            assert(requested@.subrange(0, i + 1).drop_last() == requested@.subrange(0, i as int));
        }
        if state_of(states, &requested[i]) == Some(PatchState::Requested) {
            count = count + 1;
        }
        i = i + 1;
    }
    proof {
        assert(requested@.subrange(0, requested@.len() as int) == requested@);
        assert(pred == |p: TerrainPatch| state_in(states@, p) == Some(PatchState::Requested));
    }
    count
}

/// The managed patches, in list order, whose state is `state` and which are
/// in none of `excluded_a` and `excluded_b`.
pub open spec fn stale_in_state(
    states: Seq<(TerrainPatch, PatchState)>,
    state: PatchState,
    excluded_a: Seq<TerrainPatch>,
    excluded_b: Seq<TerrainPatch>,
) -> Seq<TerrainPatch> {
    states.filter(|e: (TerrainPatch, PatchState)| is_stale(e, state, excluded_a, excluded_b)).map_values(
        |e: (TerrainPatch, PatchState)| e.0,
    )
}

/// A managed entry is stale: in `state`, and its patch in neither set.
pub open spec fn is_stale(
    e: (TerrainPatch, PatchState),
    state: PatchState,
    excluded_a: Seq<TerrainPatch>,
    excluded_b: Seq<TerrainPatch>,
) -> bool {
    e.1 == state && !excluded_a.contains(e.0) && !excluded_b.contains(e.0)
}

/// Managed patches in `state` that neither of two sets holds: stale requests
/// (state `Requested`, not requested) are cancelled; stale ready geometry
/// (state `Ready`, neither requested nor published) becomes evictable.
pub fn stale_patches(
    states: &[(TerrainPatch, PatchState)],
    state: PatchState,
    excluded_a: &[TerrainPatch],
    excluded_b: &[TerrainPatch],
) -> (r: Vec<TerrainPatch>)
    ensures
        r@ == stale_in_state(states@, state, excluded_a@, excluded_b@),
{
    let ghost pred = |e: (TerrainPatch, PatchState)| is_stale(e, state, excluded_a@, excluded_b@);
    let ghost first = |e: (TerrainPatch, PatchState)| e.0;
    let mut r: Vec<TerrainPatch> = Vec::new();
    let mut i: usize = 0;
    while i < states.len()
        invariant
            i <= states@.len(),
            forall|e: (TerrainPatch, PatchState)| #[trigger] pred(e) == is_stale(e, state, excluded_a@, excluded_b@),
            forall|e: (TerrainPatch, PatchState)| #[trigger] first(e) == e.0,
            r@ == states@.subrange(0, i as int).filter(pred).map_values(first),
        decreases states@.len() - i,
    {
        let (patch, s) = states[i];
        proof {
            reveal_with_fuel(Seq::<_>::filter, 1);
            assert(states@.subrange(0, i + 1).drop_last() == states@.subrange(0, i as int));
        }
        if s == state && !contains_patch(excluded_a, &patch) && !contains_patch(excluded_b, &patch) {
            proof {
                assert(pred(states@[i as int]));
                let before = states@.subrange(0, i as int).filter(pred);
                assert(states@.subrange(0, i + 1).filter(pred) == before.push(states@[i as int]));
                assert(before.push(states@[i as int]).map_values(first) == before.map_values(first).push(patch));
            }
            r.push(patch);
        } else {
            proof {
                assert(!pred(states@[i as int]));
            }
        }
        i = i + 1;
    }
    proof {
        assert(states@.subrange(0, states@.len() as int) == states@);
        assert(pred == |e: (TerrainPatch, PatchState)| is_stale(e, state, excluded_a@, excluded_b@));
        assert(first == |e: (TerrainPatch, PatchState)| e.0);
    }
    r
}

/// Unfinished work that left the request set: the in-flight bakes to drop
/// and the pending requests to cancel, with their counts.
pub struct CancellationPlan {
    pub inflight: Vec<TerrainPatch>,
    pub requested: Vec<TerrainPatch>,
    pub counts: TerrainCancellation,
}

/// Cancel obsolete unfinished work: in-flight bakes whose patch is no longer
/// requested, and managed requests that are no longer requested.
pub fn plan_cancellation(
    inflight: &[TerrainPatch],
    states: &[(TerrainPatch, PatchState)],
    requested: &[TerrainPatch],
) -> (r: CancellationPlan)
    ensures
        r.inflight@ == without(inflight@, requested@),
        r.requested@ == stale_in_state(states@, PatchState::Requested, requested@, Seq::empty()),
        r.counts.inflight == r.inflight@.len(),
        r.counts.requested == r.requested@.len(),
{
    let stale_inflight = select_patches(inflight, requested, false);
    let empty: Vec<TerrainPatch> = Vec::new();
    let stale_requested = stale_patches(states, PatchState::Requested, requested, empty.as_slice());
    proof {
        assert((|p: TerrainPatch| requested@.contains(p) == false) == (|p: TerrainPatch| !requested@.contains(p)));
        assert(empty@ == Seq::<TerrainPatch>::empty());
    }
    let counts = TerrainCancellation { inflight: stale_inflight.len(), requested: stale_requested.len() };
    CancellationPlan { inflight: stale_inflight, requested: stale_requested, counts }
}

/// What clearing the cache does to a patch in `state`: pending work is
/// cancelled, resident geometry is cached then evicted.
pub fn clear_action(state: PatchState) -> (r: ClearAction)
    ensures
        r == match state {
            PatchState::Requested | PatchState::Generating | PatchState::Loading => ClearAction::CancelPending,
            PatchState::Ready | PatchState::Visible | PatchState::Cached => ClearAction::Evict,
            PatchState::Evicted => ClearAction::Nothing,
        },
{
    match state {
        PatchState::Requested | PatchState::Generating | PatchState::Loading => ClearAction::CancelPending,
        PatchState::Ready | PatchState::Visible | PatchState::Cached => ClearAction::Evict,
        PatchState::Evicted => ClearAction::Nothing,
    }
}

/// How many of `patches` lie at `level`.
pub open spec fn level_count(patches: Seq<TerrainPatch>, level: u32) -> nat {
    patches.filter(|p: TerrainPatch| p.level == level).len()
}

/// Patch counts per LOD level, in ascending level order, for the levels that
/// hold at least one patch.
pub struct PatchLevelDistribution {
    pub levels: Vec<(u32, usize)>,
}

/// `levels` is the per-level count of `patches`: strictly ascending levels,
/// each with its positive count, and every patch's level listed.
pub open spec fn is_level_distribution(levels: Seq<(u32, usize)>, patches: Seq<TerrainPatch>) -> bool {
    &&& forall|i: int, j: int| 0 <= i < j < levels.len() ==> levels[i].0 < levels[j].0
    &&& forall|i: int|
        0 <= i < levels.len() ==> (#[trigger] levels[i]).1 == level_count(patches, levels[i].0) && levels[i].1 > 0
    &&& forall|k: int| 0 <= k < patches.len() ==> lists_level(levels, (#[trigger] patches[k]).level)
}

/// Some entry of `levels` is for `level`.
pub open spec fn lists_level(levels: Seq<(u32, usize)>, level: u32) -> bool {
    exists|i: int| 0 <= i < levels.len() && #[trigger] levels[i].0 == level
}

proof fn lemma_level_count_push(patches: Seq<TerrainPatch>, p: TerrainPatch, level: u32)
    ensures
        level_count(patches.push(p), level) == level_count(patches, level) + if p.level == level {
            1nat
        } else {
            0nat
        },
{
    reveal_with_fuel(Seq::<_>::filter, 1);
    assert(patches.push(p).drop_last() == patches);
}

impl PatchLevelDistribution {
    /// Count the patches of each LOD level.
    pub fn from_patches(patches: &[TerrainPatch]) -> (r: Self)
        ensures
            is_level_distribution(r.levels@, patches@),
    {
        let mut levels: Vec<(u32, usize)> = Vec::new();
        let mut k: usize = 0;
        while k < patches.len()
            invariant
                k <= patches@.len(),
                is_level_distribution(levels@, patches@.subrange(0, k as int)),
                forall|i: int| 0 <= i < levels@.len() ==> (#[trigger] levels@[i]).1 <= k,
            decreases patches@.len() - k,
        {
            let level = patches[k].level;
            let ghost prefix = patches@.subrange(0, k as int);
            let ghost next = patches@.subrange(0, k + 1);
            proof {
                assert(next == prefix.push(patches@[k as int]));
                assert forall|l: u32| #[trigger] level_count(next, l) == level_count(prefix, l) + if level == l {
                    1nat
                } else {
                    0nat
                } by {
                    lemma_level_count_push(prefix, patches@[k as int], l);
                }
            }
            let mut i: usize = 0;
            while i < levels.len() && levels[i].0 < level
                invariant
                    i <= levels@.len(),
                    forall|j: int| 0 <= j < i ==> (#[trigger] levels@[j]).0 < level,
                decreases levels@.len() - i,
            {
                i = i + 1;
            }
            let ghost before = levels@;
            if i < levels.len() && levels[i].0 == level {
                let count = levels[i].1;
                levels.set(i, (level, count + 1));
                proof {
                    assert forall|a: int, b: int| 0 <= a < b < levels@.len() implies levels@[a].0 < levels@[b].0 by {
                        assert(before[a].0 < before[b].0);
                    }
                    assert forall|a: int| 0 <= a < levels@.len() implies (#[trigger] levels@[a]).1 == level_count(
                        next,
                        levels@[a].0,
                    ) && levels@[a].1 > 0 by {
                        assert(level_count(next, before[a].0) == level_count(prefix, before[a].0) + if level
                            == before[a].0 {
                            1nat
                        } else {
                            0nat
                        });
                        if a != i {
                            assert(before[a].0 != level) by {
                                if a < i {
                                } else {
                                    assert(before[i as int].0 < before[a].0);
                                }
                            }
                        }
                    }
                    assert forall|m: int| 0 <= m < next.len() implies lists_level(levels@, (#[trigger] next[m]).level) by {
                        if m < k {
                            assert(next[m] == prefix[m]);
                            assert(lists_level(before, prefix[m].level));
                            let a = choose|a: int| 0 <= a < before.len() && #[trigger] before[a].0 == prefix[m].level;
                            assert(levels@[a].0 == next[m].level);
                        } else {
                            assert(levels@[i as int].0 == next[m].level);
                        }
                    }
                    assert(is_level_distribution(levels@, next));
                }
            } else {
                levels.insert(i, (level, 1));
                proof {
                    assert forall|a: int| 0 <= a < levels@.len() implies levels@[a] == if a < i {
                        before[a]
                    } else if a == i {
                        (level, 1usize)
                    } else {
                        before[a - 1]
                    } by {}
                    assert forall|a: int, b: int| 0 <= a < b < levels@.len() implies levels@[a].0 < levels@[b].0 by {
                        if b < i {
                            assert(before[a].0 < before[b].0);
                        } else if b == i {
                        } else if a < i {
                            assert(before[a].0 < level);
                            if b - 1 > i {
                                assert(before[i as int].0 < before[b - 1].0);
                            }
                            assert(level < before[b - 1].0);
                        } else if a == i {
                            if b - 1 > i {
                                assert(before[i as int].0 < before[b - 1].0);
                            }
                        } else {
                            assert(before[a - 1].0 < before[b - 1].0);
                        }
                    }
                    assert(level_count(prefix, level) == 0) by {
                        if level_count(prefix, level) > 0 {
                            let f = prefix.filter(|p: TerrainPatch| p.level == level);
                            prefix.lemma_filter_pred(|p: TerrainPatch| p.level == level, 0);
                            prefix.lemma_filter_contains_rev(|p: TerrainPatch| p.level == level, f[0]);
                            let m = choose|m: int| 0 <= m < prefix.len() && prefix[m] == f[0];
                            assert(lists_level(before, prefix[m].level));
                            let a = choose|a: int| 0 <= a < before.len() && #[trigger] before[a].0 == prefix[m].level;
                            if a < i {
                            } else {
                                if a > i {
                                    assert(before[i as int].0 < before[a].0);
                                }
                            }
                        }
                    }
                    assert forall|a: int| 0 <= a < levels@.len() implies (#[trigger] levels@[a]).1 == level_count(
                        next,
                        levels@[a].0,
                    ) && levels@[a].1 > 0 by {
                        if a < i {
                            assert(level_count(next, before[a].0) == level_count(prefix, before[a].0) + if level
                                == before[a].0 {
                                1nat
                            } else {
                                0nat
                            });
                        } else if a > i {
                            assert(level_count(next, before[a - 1].0) == level_count(prefix, before[a - 1].0) + if level
                                == before[a - 1].0 {
                                1nat
                            } else {
                                0nat
                            });
                            if a - 1 > i {
                                assert(before[i as int].0 < before[a - 1].0);
                            }
                        } else {
                            assert(level_count(next, level) == level_count(prefix, level) + 1);
                        }
                    }
                    assert forall|m: int| 0 <= m < next.len() implies lists_level(levels@, (#[trigger] next[m]).level) by {
                        if m < k {
                            assert(next[m] == prefix[m]);
                            assert(lists_level(before, prefix[m].level));
                            let a = choose|a: int| 0 <= a < before.len() && #[trigger] before[a].0 == prefix[m].level;
                            if a < i {
                                assert(levels@[a].0 == next[m].level);
                            } else {
                                assert(levels@[a + 1].0 == next[m].level);
                            }
                        } else {
                            assert(levels@[i as int].0 == next[m].level);
                        }
                    }
                    assert(is_level_distribution(levels@, next));
                }
            }
            k = k + 1;
        }
        proof {
            assert(patches@.subrange(0, patches@.len() as int) == patches@);
        }
        PatchLevelDistribution { levels }
    }
}

/// Whether a metrics report is due: something completed this frame and the
/// generated cache reached the next report mark.
pub fn metrics_report_due(completed_tiles: usize, generated_tiles: usize, next_report_at: usize) -> (r: bool)
    ensures
        r == (completed_tiles > 0 && generated_tiles >= next_report_at),
{
    completed_tiles > 0 && generated_tiles >= next_report_at
}

/// The mark of the report after one taken with `generated_tiles` generated.
pub fn next_metrics_report_at(generated_tiles: usize) -> (r: usize)
    requires
        generated_tiles + METRICS_GENERATED_TILE_INTERVAL <= usize::MAX,
    ensures
        r == generated_tiles + METRICS_GENERATED_TILE_INTERVAL,
{
    generated_tiles + METRICS_GENERATED_TILE_INTERVAL
}

} // verus!
