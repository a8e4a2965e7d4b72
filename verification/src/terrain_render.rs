//! Upload queue of the single-pass terrain renderer: ready patches wait in a
//! bounded, duplicate-free queue, two of them become GPU assets per frame,
//! and every frame refills the queue from the published cover so that a
//! rejected ready event is retried.
use vstd::prelude::*;
use crate::patch::TerrainPatch;
use crate::uploads::{
    after_ready_events, all_kept, backfill_offers, contains_key, kept_for_planet, offer, offer_all, ready_event,
    render_key, TerrainPatchReady, TerrainPatchRenderKey, TerrainUploadEnqueueResult, MAX_PENDING_PATCH_UPLOADS,
};

verus! {

/// Most queued uploads turned into GPU assets per frame.
pub const MAX_PATCH_UPLOADS_PER_FRAME: usize = 2;

/// Grid resolution of the single-pass renderer: the finest visible levels use
/// a denser grid, aligned with the first local surface map level, while the
/// coarser fallback cover keeps the base resolution.
pub struct TerrainRenderConfig {
    /// Patch resolution (vertices per side) below `detail_patch_min_level`.
    pub patch_resolution: u32,
    /// Resolution from `detail_patch_min_level` on.
    pub detail_patch_resolution: u32,
    /// First level using `detail_patch_resolution`.
    pub detail_patch_min_level: u32,
}

impl TerrainRenderConfig {
    /// The grid resolution of `patch`'s level.
    pub fn patch_resolution_for(&self, patch: TerrainPatch) -> (r: u32)
        ensures
            r == if patch.level >= self.detail_patch_min_level {
                self.detail_patch_resolution
            } else {
                self.patch_resolution
            },
    {
        if patch.level >= self.detail_patch_min_level {
            self.detail_patch_resolution
        } else {
            self.patch_resolution
        }
    }
}

impl Default for TerrainRenderConfig {
    /// 33 samples per side, 65 from level 12 on.
    fn default() -> (r: Self)
        ensures
            r.patch_resolution == 33,
            r.detail_patch_resolution == 65,
            r.detail_patch_min_level == 12,
    {
        TerrainRenderConfig { patch_resolution: 33, detail_patch_resolution: 65, detail_patch_min_level: 12 }
    }
}

/// Ready patches waiting for asset creation, oldest first, each at most once.
pub struct PendingTerrainPatchUploads {
    queue: crate::uploads::PendingTerrainPatchUploads,
}

impl PendingTerrainPatchUploads {
    /// The queued events, oldest first.
    pub closed spec fn events(&self) -> Seq<TerrainPatchReady> {
        self.queue.events()
    }

    /// The queue holds each event at most once and never exceeds its bound.
    pub closed spec fn wf(&self) -> bool {
        self.queue.wf()
    }

    /// An empty queue.
    pub fn new() -> (r: Self)
        ensures
            r.wf(),
            r.events() == Seq::<TerrainPatchReady>::empty(),
    {
        PendingTerrainPatchUploads { queue: crate::uploads::PendingTerrainPatchUploads::new() }
    }

    /// Number of queued events.
    pub fn len(&self) -> (r: usize)
        ensures
            r == self.events().len(),
    {
        self.queue.len()
    }

    /// The oldest queued event.
    pub fn front(&self) -> (r: Option<TerrainPatchReady>)
        ensures
            r == if self.events().len() == 0 { None } else { Some(self.events()[0]) },
    {
        self.queue.front()
    }

    /// Whether `event` is queued.
    pub fn contains(&self, event: &TerrainPatchReady) -> (r: bool)
        ensures
            r == self.events().contains(*event),
    {
        self.queue.contains(event)
    }

    /// Drop queued events that no longer belong to the active planet's
    /// published cover, keeping the rest in order.
    pub fn retain_published_for_planet(&mut self, active_planet: Option<u64>, published: &[TerrainPatch])
        requires
            old(self).wf(),
        ensures
            final(self).wf(),
            final(self).events() == old(self).events().filter(
                |event: TerrainPatchReady| kept_for_planet(event, active_planet, published@),
            ),
    {
        self.queue.retain_published_for_planet(active_planet, published);
    }

    /// Offer a ready patch: it joins the back of the queue unless it is
    /// already queued or the queue is full. Returns whether it was queued.
    pub fn enqueue(&mut self, event: TerrainPatchReady) -> (r: bool)
        requires
            old(self).wf(),
        ensures
            final(self).wf(),
            r == (!old(self).events().contains(event) && old(self).events().len() < MAX_PENDING_PATCH_UPLOADS),
            final(self).events() == if r {
                old(self).events().push(event)
            } else {
                old(self).events()
            },
            final(self).events() == offer(old(self).events(), event),
    {
        self.queue.enqueue(event) == TerrainUploadEnqueueResult::Queued
    }

    /// Remove and return the oldest queued event.
    pub fn pop_front(&mut self) -> (r: Option<TerrainPatchReady>)
        requires
            old(self).wf(),
        ensures
            final(self).wf(),
            old(self).events().len() == 0 ==> r.is_none() && final(self).events() == old(self).events(),
            old(self).events().len() > 0 ==> r == Some(old(self).events()[0]) && final(self).events()
                == old(self).events().drop_first(),
    {
        self.queue.pop_front()
    }
}

/// Drain this frame's ready events into the queue and refill it from the
/// published cover: stale work is dropped, the events of the active planet's
/// published patches are offered in order, then every published patch
/// without a render entity is offered in patch order (the published cover is
/// an ascending set), so a patch whose ready event was rejected earlier is
/// retried.
pub fn enqueue_ready_uploads(
    pending: &mut PendingTerrainPatchUploads,
    events: &[TerrainPatchReady],
    published: &[TerrainPatch],
    active_planet: Option<u64>,
    rendered: &[TerrainPatchRenderKey],
)
    requires
        old(pending).wf(),
        crate::patch::ascending_patches(published@),
    ensures
        final(pending).wf(),
        all_kept(final(pending).events(), active_planet, published@),
        active_planet is Some && final(pending).events().len() < MAX_PENDING_PATCH_UPLOADS ==> forall|p: TerrainPatch|
            #[trigger] published@.contains(p) ==> rendered@.contains(render_key(active_planet->0, p))
                || final(pending).events().contains(ready_event(p, active_planet->0)),        final(pending).events() == match active_planet {
            Some(planet) => offer_all(
                after_ready_events(old(pending).events(), events@, active_planet, published@),
                backfill_offers(published@, planet, rendered@),
            ),
            None => after_ready_events(old(pending).events(), events@, active_planet, published@),
        },
{
    pending.retain_published_for_planet(active_planet, published);
    proof {
        broadcast use vstd::seq_lib::group_filter_ensures;
        let kept = |event: TerrainPatchReady| kept_for_planet(event, active_planet, published@);
        assert forall|j: int| 0 <= j < pending.events().len() implies kept_for_planet(
            #[trigger] pending.events()[j],
            active_planet,
            published@,
        ) by {
            assert(kept(pending.events()[j]));
        }
    }
    let ghost keep = |e: TerrainPatchReady| kept_for_planet(e, active_planet, published@);
    let ghost start = pending.events();
    proof {
        assert(start == old(pending).events().filter(keep));
    }
    let mut i: usize = 0;
    while i < events.len()
        invariant
            i <= events@.len(),
            pending.wf(),
            all_kept(pending.events(), active_planet, published@),
            forall|e: TerrainPatchReady| #[trigger] keep(e) == kept_for_planet(e, active_planet, published@),
            pending.events() == offer_all(start, events@.subrange(0, i as int).filter(keep)),
        decreases events@.len() - i,
    {
        let event = events[i];
        let ghost prefix = events@.subrange(0, i as int).filter(keep);
        proof {
            reveal_with_fuel(Seq::<_>::filter, 1);
            assert(events@.subrange(0, i + 1).drop_last() == events@.subrange(0, i as int));
            assert(events@.subrange(0, i + 1).last() == event);
            if keep(event) {
                assert(events@.subrange(0, i + 1).filter(keep) == prefix.push(event));
                assert(prefix.push(event).drop_last() == prefix);
            } else {
                assert(events@.subrange(0, i + 1).filter(keep) == prefix);
            }
        }
        let on_active_planet = match active_planet {
            Some(planet) => planet == event.planet_entity,
            None => false,
        };
        if on_active_planet && crate::patch::contains_patch(published, &event.patch) {
            let ghost before = pending.events();
            pending.enqueue(event);
            proof {
                assert forall|j: int| 0 <= j < pending.events().len() implies kept_for_planet(
                    #[trigger] pending.events()[j],
                    active_planet,
                    published@,
                ) by {
                    if j < before.len() {
                        assert(pending.events()[j] == before[j]);
                    }
                }
            }
        }
        i = i + 1;
    }
    let ghost after = pending.events();
    proof {
        assert(events@.subrange(0, events@.len() as int) == events@);
        assert(keep == |e: TerrainPatchReady| kept_for_planet(e, active_planet, published@));
        assert(after == after_ready_events(old(pending).events(), events@, active_planet, published@));
    }
    let planet_entity = match active_planet {
        Some(planet) => planet,
        None => {
            return;
        },
    };
    let mut k: usize = 0;
    while k < published.len()
        invariant
            k <= published@.len(),
            active_planet == Some(planet_entity),
            pending.wf(),
            all_kept(pending.events(), active_planet, published@),
            pending.events().len() < MAX_PENDING_PATCH_UPLOADS ==> forall|m: int|
                0 <= m < k ==> rendered@.contains(render_key(planet_entity, #[trigger] published@[m]))
                    || pending.events().contains(ready_event(published@[m], planet_entity)),
            forall|m: int|
                0 <= m < k ==> rendered@.contains(render_key(planet_entity, #[trigger] published@[m]))
                    || pending.events().contains(ready_event(published@[m], planet_entity))
                    || pending.events().len() == MAX_PENDING_PATCH_UPLOADS,
            pending.events() == offer_all(
                after,
                backfill_offers(published@.subrange(0, k as int), planet_entity, rendered@),
            ),
        decreases published@.len() - k,
    {
        let event = TerrainPatchReady { patch: published[k], planet_entity };
        let ghost prev = backfill_offers(published@.subrange(0, k as int), planet_entity, rendered@);
        proof {
            assert(published@.subrange(0, k + 1).drop_last() == published@.subrange(0, k as int));
            assert(published@.subrange(0, k + 1).last() == published@[k as int]);
            if !rendered@.contains(render_key(planet_entity, published@[k as int])) {
                assert(backfill_offers(published@.subrange(0, k + 1), planet_entity, rendered@) == prev.push(event));
                assert(prev.push(event).drop_last() == prev);
            } else {
                assert(backfill_offers(published@.subrange(0, k + 1), planet_entity, rendered@) == prev);
            }
        }
        if !contains_key(rendered, &TerrainPatchRenderKey::from_ready(&event)) {
            let ghost before = pending.events();
            let queued = pending.enqueue(event);
            proof {
                assert(kept_for_planet(event, active_planet, published@)) by {
                    assert(published@[k as int] == event.patch);
                }
                assert forall|j: int| 0 <= j < pending.events().len() implies kept_for_planet(
                    #[trigger] pending.events()[j],
                    active_planet,
                    published@,
                ) by {
                    if j < before.len() {
                        assert(pending.events()[j] == before[j]);
                    }
                }
                assert forall|m: int| 0 <= m < k + 1 implies rendered@.contains(
                    render_key(planet_entity, #[trigger] published@[m]),
                ) || pending.events().contains(ready_event(published@[m], planet_entity))
                    || pending.events().len() == MAX_PENDING_PATCH_UPLOADS by {
                    let e = ready_event(published@[m], planet_entity);
                    if before.contains(e) {
                        let q = choose|q: int| 0 <= q < before.len() && #[trigger] before[q] == e;
                        assert(pending.events()[q] == e);
                    }
                    if m == k && queued {
                        assert(pending.events()[before.len() as int] == e);
                    }
                }
            }
        }
        k = k + 1;
    }
    proof {
        assert(published@.subrange(0, published@.len() as int) == published@);
    }
}

} // verus!
