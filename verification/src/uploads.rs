//! Ready-patch upload queue.
//!
//! Bounds the CPU-to-GPU asset-creation backlog and coalesces repeated ready
//! notifications so a completed terrain batch cannot stall presentation. A
//! patch is identified per planet: patch coordinates alone overlap between
//! planets. Planets are named by the 64-bit identity of their entity.
use vstd::prelude::*;
use std::collections::VecDeque;
use crate::patch::{TerrainPatch, ascending_patches, contains_patch};

verus! {

/// Most ready patches awaiting GPU asset creation at once.
pub const MAX_PENDING_PATCH_UPLOADS: usize = 512;

/// Most queued uploads turned into GPU assets per frame.
pub const MAX_PATCH_UPLOADS_PER_FRAME: usize = 6;

/// A patch of one planet whose geometry is ready for upload. The planet is
/// identified by the 64-bit identity of its entity. It is also the key that
/// identifies a patch's render entity.
#[derive(Clone, Copy, Debug, PartialEq, Eq, Structural, Hash)]
pub struct TerrainPatchReady {
    pub patch: TerrainPatch,
    pub planet_entity: u64,
}

/// Identifies a terrain render entity independently for every planet.
#[derive(Clone, Copy, Debug, PartialEq, Eq, Structural, Hash)]
pub struct TerrainPatchRenderKey {
    pub planet_entity: u64,
    pub patch: TerrainPatch,
}

/// Counts of one drain of ready events into the queue.
#[derive(Clone, Copy, Debug, PartialEq, Eq, Structural)]
pub struct ReadyUploadCounts {
    pub received: usize,
    pub rejected: usize,
    pub backfilled: usize,
}

/// Outcome of offering one ready patch to the queue.
#[derive(Clone, Copy, Debug, PartialEq, Eq, Structural)]
pub enum TerrainUploadEnqueueResult {
    Queued,
    Duplicate,
    Rejected,
}

/// Counts of one backfill pass.
#[derive(Clone, Copy, Debug, PartialEq, Eq, Structural)]
pub struct TerrainUploadBackfill {
    pub queued: usize,
    pub rejected: usize,
}

/// Ready patches waiting for their CPU-to-GPU asset creation budget, oldest
/// first, each at most once. When an offer is rejected because the queue is
/// full, `needs_backfill` records that some published patch may have lost its
/// only ready notification.
pub struct PendingTerrainPatchUploads {
    queue: VecDeque<TerrainPatchReady>,
    needs_backfill: bool,
}

/// No event occurs twice in `s`.
pub open spec fn distinct_events(s: Seq<TerrainPatchReady>) -> bool {
    forall|a: int, b: int| 0 <= a < b < s.len() ==> s[a] != s[b]
}

/// An event is kept by the retention pass: it belongs to the active planet
/// and its patch is still published.
pub open spec fn kept_for_planet(
    event: TerrainPatchReady,
    active_planet: Option<u64>,
    published: Seq<TerrainPatch>,
) -> bool {
    active_planet == Some(event.planet_entity) && published.contains(event.patch)
}

/// The ready event of `patch` on planet `planet_entity`.
pub open spec fn ready_event(patch: TerrainPatch, planet_entity: u64) -> TerrainPatchReady {
    TerrainPatchReady { patch, planet_entity }
}

/// Counts of a backfill pass that did nothing.
pub open spec fn no_backfill() -> TerrainUploadBackfill {
    TerrainUploadBackfill { queued: 0, rejected: 0 }
}

/// The queue after offering `event`: unchanged when the event is already
/// queued or the queue is full; otherwise the event joins the back.
pub open spec fn offer(queue: Seq<TerrainPatchReady>, event: TerrainPatchReady) -> Seq<TerrainPatchReady> {
    if queue.contains(event) || queue.len() >= MAX_PENDING_PATCH_UPLOADS {
        queue
    } else {
        queue.push(event)
    }
}

/// Offering `event` is refused: it is not queued and the queue is full.
pub open spec fn refuses(queue: Seq<TerrainPatchReady>, event: TerrainPatchReady) -> bool {
    !queue.contains(event) && queue.len() >= MAX_PENDING_PATCH_UPLOADS
}

/// The queue after offering `offers` one by one, in order.
pub open spec fn offer_all(queue: Seq<TerrainPatchReady>, offers: Seq<TerrainPatchReady>) -> Seq<TerrainPatchReady>
    decreases offers.len(),
{
    if offers.len() == 0 {
        queue
    } else {
        offer(offer_all(queue, offers.drop_last()), offers.last())
    }
}

/// How many of `offers`, offered one by one, are refused.
pub open spec fn refusals(queue: Seq<TerrainPatchReady>, offers: Seq<TerrainPatchReady>) -> nat
    decreases offers.len(),
{
    if offers.len() == 0 {
        0
    } else {
        refusals(queue, offers.drop_last()) + if refuses(offer_all(queue, offers.drop_last()), offers.last()) {
            1nat
        } else {
            0nat
        }
    }
}

/// The ready events a backfill pass offers, in `published` order: one for
/// every published patch of `planet_entity` that has no render entity.
pub open spec fn backfill_offers(
    published: Seq<TerrainPatch>,
    planet_entity: u64,
    rendered: Seq<TerrainPatchRenderKey>,
) -> Seq<TerrainPatchReady>
    decreases published.len(),
{
    if published.len() == 0 {
        Seq::empty()
    } else if rendered.contains(render_key(planet_entity, published.last())) {
        backfill_offers(published.drop_last(), planet_entity, rendered)
    } else {
        backfill_offers(published.drop_last(), planet_entity, rendered).push(
            ready_event(published.last(), planet_entity),
        )
    }
}

/// Offering more events to a full queue changes nothing, and refusals only
/// accumulate.
proof fn lemma_full_queue_settles(
    queue: Seq<TerrainPatchReady>,
    published: Seq<TerrainPatch>,
    planet_entity: u64,
    rendered: Seq<TerrainPatchRenderKey>,
    j: int,
    k: int,
)
    requires
        0 <= j <= k <= published.len(),
        offer_all(queue, backfill_offers(published.subrange(0, j), planet_entity, rendered)).len()
            >= MAX_PENDING_PATCH_UPLOADS,
    ensures
        offer_all(queue, backfill_offers(published.subrange(0, k), planet_entity, rendered)) == offer_all(
            queue,
            backfill_offers(published.subrange(0, j), planet_entity, rendered),
        ),
        refusals(queue, backfill_offers(published.subrange(0, k), planet_entity, rendered)) >= refusals(
            queue,
            backfill_offers(published.subrange(0, j), planet_entity, rendered),
        ),
    decreases k - j,
{
    if k > j {
        lemma_full_queue_settles(queue, published, planet_entity, rendered, j, k - 1);
        let prev = backfill_offers(published.subrange(0, k - 1), planet_entity, rendered);
        assert(published.subrange(0, k).drop_last() == published.subrange(0, k - 1));
        assert(published.subrange(0, k).last() == published[k - 1]);
        let e = ready_event(published[k - 1], planet_entity);
        if !rendered.contains(render_key(planet_entity, published[k - 1])) {
            assert(backfill_offers(published.subrange(0, k), planet_entity, rendered) == prev.push(e));
            assert(prev.push(e).drop_last() == prev);
        }
    }
}

impl PendingTerrainPatchUploads {
    /// The queued events, oldest first.
    pub closed spec fn events(&self) -> Seq<TerrainPatchReady> {
        self.queue@
    }

    /// Whether a rejected offer still waits for a backfill pass.
    pub closed spec fn backfill_pending(&self) -> bool {
        self.needs_backfill
    }

    /// The queue holds each event at most once and never exceeds its bound.
    pub open spec fn wf(&self) -> bool {
        &&& distinct_events(self.events())
        &&& self.events().len() <= MAX_PENDING_PATCH_UPLOADS
    }

    /// An empty queue with no pending backfill.
    pub fn new() -> (r: Self)
        ensures
            r.wf(),
            r.events() == Seq::<TerrainPatchReady>::empty(),
            !r.backfill_pending(),
    {
        PendingTerrainPatchUploads { queue: VecDeque::new(), needs_backfill: false }
    }

    /// Number of queued events.
    pub fn len(&self) -> (r: usize)
        ensures
            r == self.events().len(),
    {
        self.queue.len()
    }

    /// Whether no event is queued.
    pub fn is_empty(&self) -> (r: bool)
        ensures
            r == (self.events().len() == 0),
    {
        self.queue.len() == 0
    }

    /// The oldest queued event.
    pub fn front(&self) -> (r: Option<TerrainPatchReady>)
        ensures
            r == if self.events().len() == 0 { None } else { Some(self.events()[0]) },
    {
        if self.queue.len() == 0 {
            None
        } else {
            Some(self.queue[0])
        }
    }

    /// Whether a rejected offer still waits for a backfill pass.
    pub fn needs_backfill(&self) -> (r: bool)
        ensures
            r == self.backfill_pending(),
    {
        self.needs_backfill
    }

    /// Whether `event` is queued.
    pub fn contains(&self, event: &TerrainPatchReady) -> (r: bool)
        ensures
            r == self.events().contains(*event),
    {
        let mut i: usize = 0;
        while i < self.queue.len()
            invariant
                i <= self.queue@.len(),
                forall|j: int| 0 <= j < i ==> self.queue@[j] != *event,
            decreases self.queue@.len() - i,
        {
            if self.queue[i] == *event {
                return true;
            }
            i = i + 1;
        }
        false
    }

    /// Drop queued events that no longer belong to the active planet's
    /// published cover, keeping the rest in order.
    pub fn retain_published_for_planet(&mut self, active_planet: Option<u64>, published: &[TerrainPatch])
        requires
            old(self).wf(),
        ensures
            final(self).wf(),
            final(self).events() == old(self).events().filter(
                |event: TerrainPatchReady| kept_for_planet(event, active_planet, published@),
            ),
            final(self).backfill_pending() == old(self).backfill_pending(),
    {
        let ghost keep = |event: TerrainPatchReady| kept_for_planet(event, active_planet, published@);
        let ghost initial = self.queue@;
        let mut kept: VecDeque<TerrainPatchReady> = VecDeque::new();
        let mut i: usize = 0;
        while i < self.queue.len()
            invariant
                i <= initial.len(),
                self.queue@ == initial,
                forall|e: TerrainPatchReady| #[trigger] keep(e) == kept_for_planet(e, active_planet, published@),
                distinct_events(initial),
                initial.len() <= MAX_PENDING_PATCH_UPLOADS,
                kept@ == initial.subrange(0, i as int).filter(keep),
                kept@.len() <= i,
                distinct_events(kept@),
                forall|j: int|
                    #![trigger kept@[j]]
                    0 <= j < kept@.len() ==> exists|k: int| 0 <= k < i && #[trigger] initial[k] == kept@[j],
            decreases initial.len() - i,
        {
            let event = self.queue[i];
            proof {
                reveal_with_fuel(Seq::<_>::filter, 1);
                assert(initial.subrange(0, i + 1).drop_last() == initial.subrange(0, i as int));
                assert(initial.subrange(0, i + 1).last() == event);
                assert(initial.subrange(0, i + 1).filter(keep) == if keep(event) {
                    initial.subrange(0, i as int).filter(keep).push(event)
                } else {
                    initial.subrange(0, i as int).filter(keep)
                });
            }
            let on_active_planet = match active_planet {
                Some(planet) => planet == event.planet_entity,
                None => false,
            };
            if on_active_planet && contains_patch(published, &event.patch) {
                let ghost before = kept@;
                kept.push_back(event);
                proof {
                    assert(keep(event));
                    assert(kept@ == initial.subrange(0, i + 1).filter(keep));
                    assert forall|a: int, b: int| 0 <= a < b < kept@.len() implies kept@[a] != kept@[b] by {
                        if b == kept@.len() - 1 {
                            let k = choose|k: int| 0 <= k < i && #[trigger] initial[k] == before[a];
                            assert(initial[k] != initial[i as int]);
                        }
                    }
                    assert forall|j: int| #![trigger kept@[j]] 0 <= j < kept@.len() implies exists|k: int|
                        0 <= k < i + 1 && #[trigger] initial[k] == kept@[j] by {
                        if j == kept@.len() - 1 {
                            assert(initial[i as int] == kept@[j]);
                        } else {
                            let k = choose|k: int| 0 <= k < i && #[trigger] initial[k] == before[j];
                            assert(initial[k] == kept@[j]);
                        }
                    }
                }
            } else {
                proof {
                    assert(!keep(event));
                    assert(kept@ == initial.subrange(0, i + 1).filter(keep));
                }
            }
            i = i + 1;
        }
        proof {
            assert(initial.subrange(0, initial.len() as int) == initial);
            assert(keep == |event: TerrainPatchReady| kept_for_planet(event, active_planet, published@));
        }
        self.queue = kept;
    }

    /// Offer a ready patch. A queued event is reported as a duplicate; a full
    /// queue rejects the offer and records that a backfill is needed;
    /// otherwise the event joins the back of the queue.
    pub fn enqueue(&mut self, event: TerrainPatchReady) -> (r: TerrainUploadEnqueueResult)
        requires
            old(self).wf(),
        ensures
            final(self).wf(),
            old(self).events().contains(event) ==> r == TerrainUploadEnqueueResult::Duplicate
                && final(self).events() == old(self).events()
                && final(self).backfill_pending() == old(self).backfill_pending(),
            !old(self).events().contains(event) && old(self).events().len() >= MAX_PENDING_PATCH_UPLOADS
                ==> r == TerrainUploadEnqueueResult::Rejected && final(self).events() == old(self).events()
                && final(self).backfill_pending(),
            !old(self).events().contains(event) && old(self).events().len() < MAX_PENDING_PATCH_UPLOADS
                ==> r == TerrainUploadEnqueueResult::Queued && final(self).events() == old(self).events().push(
                event,
            ) && final(self).backfill_pending() == old(self).backfill_pending(),
            final(self).events() == offer(old(self).events(), event),
            (r == TerrainUploadEnqueueResult::Rejected) == refuses(old(self).events(), event),
    {
        if self.contains(&event) {
            return TerrainUploadEnqueueResult::Duplicate;
        }
        if self.queue.len() >= MAX_PENDING_PATCH_UPLOADS {
            self.needs_backfill = true;
            return TerrainUploadEnqueueResult::Rejected;
        }
        let ghost before = self.queue@;
        self.queue.push_back(event);
        proof {
            assert forall|a: int, b: int| 0 <= a < b < self.queue@.len() implies self.queue@[a] != self.queue@[b] by {
                if b == before.len() {
                    assert(before[a] == self.queue@[a]);
                }
            }
        }
        TerrainUploadEnqueueResult::Queued
    }

    /// Remove and return the oldest queued event.
    pub fn pop_front(&mut self) -> (r: Option<TerrainPatchReady>)
        requires
            old(self).wf(),
        ensures
            final(self).wf(),
            final(self).backfill_pending() == old(self).backfill_pending(),
            old(self).events().len() == 0 ==> r.is_none() && final(self).events() == old(self).events(),
            old(self).events().len() > 0 ==> r == Some(old(self).events()[0]) && final(self).events()
                == old(self).events().drop_first(),
    {
        let r = self.queue.pop_front();
        proof {
            if r.is_some() {
                assert forall|a: int, b: int| 0 <= a < b < self.queue@.len() implies self.queue@[a]
                    != self.queue@[b] by {
                    assert(self.queue@[a] == old(self).queue@[a + 1]);
                    assert(self.queue@[b] == old(self).queue@[b + 1]);
                }
            }
        }
        r
    }

    /// Take this frame's uploads: the `budget` oldest queued events, or all
    /// of them if fewer are queued.
    pub fn pop_upload_batch(&mut self, budget: usize) -> (r: Vec<TerrainPatchReady>)
        requires
            old(self).wf(),
        ensures
            final(self).wf(),
            final(self).backfill_pending() == old(self).backfill_pending(),
            ({
                let n = if budget < old(self).events().len() {
                    budget as int
                } else {
                    old(self).events().len() as int
                };
                &&& r@ == old(self).events().take(n)
                &&& final(self).events() == old(self).events().skip(n)
            }),
    {
        let ghost initial = self.queue@;
        let mut r: Vec<TerrainPatchReady> = Vec::new();
        while r.len() < budget
            invariant
                self.wf(),
                self.needs_backfill == old(self).needs_backfill,
                initial == old(self).queue@,
                r@.len() <= budget,
                r@.len() <= initial.len(),
                r@ == initial.take(r@.len() as int),
                self.queue@ == initial.skip(r@.len() as int),
            ensures
                self.wf(),
                self.needs_backfill == old(self).needs_backfill,
                r@ == initial.take(r@.len() as int),
                self.queue@ == initial.skip(r@.len() as int),
                r@.len() == budget || r@.len() == initial.len(),
                r@.len() <= budget,
                r@.len() <= initial.len(),
            decreases budget - r@.len(),
        {
            match self.pop_front() {
                Some(event) => {
                    proof {
                        assert(event == initial[r@.len() as int]);
                        assert(initial.take((r@.len() + 1) as int) == initial.take(r@.len() as int).push(event));
                        assert(initial.skip(r@.len() as int).drop_first() == initial.skip((r@.len() + 1) as int));
                    }
                    r.push(event);
                },
                None => {
                    break;
                },
            }
        }
        r
    }

    /// After a rejected offer, queue every published patch of `planet_entity`
    /// that is neither rendered nor queued, in patch order (the published
    /// cover is an ascending set), until the queue is full. A pass that queues
    /// everything clears the backfill flag; one that is rejected again keeps
    /// it set.
    pub fn backfill_published(
        &mut self,
        planet_entity: u64,
        published: &[TerrainPatch],
        rendered: &[TerrainPatchRenderKey],
    ) -> (r: TerrainUploadBackfill)
        requires
            old(self).wf(),
            ascending_patches(published@),
        ensures
            final(self).wf(),
            !old(self).backfill_pending() ==> final(self).events() == old(self).events() && r
                == no_backfill() && !final(self).backfill_pending(),
            old(self).backfill_pending() ==> {
                let appended = final(self).events().subrange(
                    old(self).events().len() as int,
                    final(self).events().len() as int,
                );
                &&& old(self).events().len() <= final(self).events().len()
                &&& final(self).events().subrange(0, old(self).events().len() as int) == old(self).events()
                &&& r.queued == appended.len()
                &&& r.rejected <= 1
                &&& final(self).backfill_pending() == (r.rejected == 1)
                &&& r.rejected == 1 ==> final(self).events().len() == MAX_PENDING_PATCH_UPLOADS
                &&& forall|j: int|
                    0 <= j < appended.len() ==> {
                        &&& (#[trigger] appended[j]).planet_entity == planet_entity
                        &&& published@.contains(appended[j].patch)
                        &&& !rendered@.contains(key_of(appended[j]))
                        &&& !old(self).events().contains(appended[j])
                    }
                &&& r.rejected == 0 ==> forall|p: TerrainPatch|
                    #[trigger] published@.contains(p) ==> rendered@.contains(
                        render_key(planet_entity, p),
                    ) || final(self).events().contains(ready_event(p, planet_entity))
                &&& final(self).events() == offer_all(
                    old(self).events(),
                    backfill_offers(published@, planet_entity, rendered@),
                )
                &&& (r.rejected == 1) == (refusals(
                    old(self).events(),
                    backfill_offers(published@, planet_entity, rendered@),
                ) > 0)
            },
    {
        let mut backfill = TerrainUploadBackfill { queued: 0, rejected: 0 };
        if !self.needs_backfill {
            return backfill;
        }
        self.needs_backfill = false;
        let ghost initial = self.queue@;
        let mut i: usize = 0;
        while i < published.len() && backfill.rejected == 0
            invariant
                self.wf(),
                i <= published@.len(),
                initial.len() <= self.queue@.len(),
                self.queue@.subrange(0, initial.len() as int) == initial,
                backfill.rejected <= 1,
                self.needs_backfill == (backfill.rejected == 1),
                backfill.rejected == 1 ==> self.queue@.len() == MAX_PENDING_PATCH_UPLOADS,
                backfill.queued == self.queue@.len() - initial.len(),
                forall|j: int|
                    initial.len() <= j < self.queue@.len() ==> {
                        &&& (#[trigger] self.queue@[j]).planet_entity == planet_entity
                        &&& published@.contains(self.queue@[j].patch)
                        &&& !rendered@.contains(key_of(self.queue@[j]))
                        &&& !initial.contains(self.queue@[j])
                    },
                backfill.rejected == 0 ==> forall|k: int|
                    0 <= k < i ==> rendered@.contains(
                        render_key(planet_entity, #[trigger] published@[k]),
                    ) || self.queue@.contains(ready_event(published@[k], planet_entity)),
                self.queue@ == offer_all(
                    initial,
                    backfill_offers(published@.subrange(0, i as int), planet_entity, rendered@),
                ),
                (backfill.rejected == 1) == (refusals(
                    initial,
                    backfill_offers(published@.subrange(0, i as int), planet_entity, rendered@),
                ) > 0),
            decreases published@.len() - i,
        {
            let event = TerrainPatchReady { patch: published[i], planet_entity };
            let ghost before = self.queue@;
            let ghost prev = backfill_offers(published@.subrange(0, i as int), planet_entity, rendered@);
            proof {
                assert(published@.subrange(0, i + 1).drop_last() == published@.subrange(0, i as int));
                assert(published@.subrange(0, i + 1).last() == published@[i as int]);
                if !rendered@.contains(render_key(planet_entity, published@[i as int])) {
                    assert(backfill_offers(published@.subrange(0, i + 1), planet_entity, rendered@) == prev.push(
                        event,
                    ));
                    assert(prev.push(event).drop_last() == prev);
                } else {
                    assert(backfill_offers(published@.subrange(0, i + 1), planet_entity, rendered@) == prev);
                }
            }
            if !contains_key(rendered, &TerrainPatchRenderKey::from_ready(&event)) && !self.contains(&event) {
                proof {
                    assert(published@.contains(event.patch)) by {
                        assert(published@[i as int] == event.patch);
                    }
                    assert(!initial.contains(event)) by {
                        if initial.contains(event) {
                            let k = choose|k: int| 0 <= k < initial.len() && #[trigger] initial[k] == event;
                            assert(self.queue@.subrange(0, initial.len() as int)[k] == event);
                            assert(self.queue@[k] == event);
                        }
                    }
                }
                match self.enqueue(event) {
                    TerrainUploadEnqueueResult::Queued => {
                        backfill.queued = backfill.queued + 1;
                        proof {
                            assert(self.queue@ == before.push(event));
                            assert forall|k: int| 0 <= k < i + 1 implies rendered@.contains(
                                render_key(planet_entity, #[trigger] published@[k]),
                            ) || self.queue@.contains(ready_event(published@[k], planet_entity)) by {
                                if k == i {
                                    assert(self.queue@[before.len() as int] == event);
                                } else {
                                    let e = ready_event(published@[k], planet_entity);
                                    if before.contains(e) {
                                        let m = choose|m: int| 0 <= m < before.len() && #[trigger] before[m] == e;
                                        assert(self.queue@[m] == e);
                                    }
                                }
                            }
                            assert(self.queue@.subrange(0, initial.len() as int) == before.subrange(
                                0,
                                initial.len() as int,
                            ));
                        }
                    },
                    TerrainUploadEnqueueResult::Duplicate => {},
                    TerrainUploadEnqueueResult::Rejected => {
                        backfill.rejected = backfill.rejected + 1;
                    },
                }
            }
            i = i + 1;
        }
        proof {
            let all = backfill_offers(published@, planet_entity, rendered@);
            if i < published.len() {
                lemma_full_queue_settles(initial, published@, planet_entity, rendered@, i as int, published@.len() as int);
            }
            assert(published@.subrange(0, published@.len() as int) == published@);
        }
        backfill
    }
}

/// The render key of `patch` on planet `planet_entity`.
pub open spec fn render_key(planet_entity: u64, patch: TerrainPatch) -> TerrainPatchRenderKey {
    TerrainPatchRenderKey { planet_entity, patch }
}

impl TerrainPatchRenderKey {
    /// The render key of a ready event.
    pub fn from_ready(event: &TerrainPatchReady) -> (r: Self)
        ensures
            r == render_key(event.planet_entity, event.patch),
    {
        TerrainPatchRenderKey { planet_entity: event.planet_entity, patch: event.patch }
    }
}

/// Whether `key` is one of `keys`.
pub fn contains_key(keys: &[TerrainPatchRenderKey], key: &TerrainPatchRenderKey) -> (r: bool)
    ensures
        r == keys@.contains(*key),
{
    let mut i: usize = 0;
    while i < keys.len()
        invariant
            i <= keys@.len(),
            forall|j: int| 0 <= j < i ==> keys@[j] != *key,
        decreases keys@.len() - i,
    {
        if keys[i] == *key {
            return true;
        }
        i = i + 1;
    }
    false
}

/// Every queued event belongs to the active planet's published cover.
pub open spec fn all_kept(events: Seq<TerrainPatchReady>, active_planet: Option<u64>, published: Seq<TerrainPatch>) -> bool {
    forall|j: int| 0 <= j < events.len() ==> kept_for_planet(#[trigger] events[j], active_planet, published)
}

/// The queue after retention and this frame's ready events: the kept part of
/// `queue`, then the events of the active planet's published patches
/// offered in order.
pub open spec fn after_ready_events(
    queue: Seq<TerrainPatchReady>,
    events: Seq<TerrainPatchReady>,
    active_planet: Option<u64>,
    published: Seq<TerrainPatch>,
) -> Seq<TerrainPatchReady> {
    offer_all(
        queue.filter(|e: TerrainPatchReady| kept_for_planet(e, active_planet, published)),
        events.filter(|e: TerrainPatchReady| kept_for_planet(e, active_planet, published)),
    )
}

/// How many of this frame's offered ready events the queue refuses.
pub open spec fn refused_ready_events(
    queue: Seq<TerrainPatchReady>,
    events: Seq<TerrainPatchReady>,
    active_planet: Option<u64>,
    published: Seq<TerrainPatch>,
) -> nat {
    refusals(
        queue.filter(|e: TerrainPatchReady| kept_for_planet(e, active_planet, published)),
        events.filter(|e: TerrainPatchReady| kept_for_planet(e, active_planet, published)),
    )
}

/// Drain this frame's ready events into the bounded upload queue: stale
/// queued work is dropped first, events of the active planet's published
/// patches are offered in order, and after a rejection every published patch
/// that is neither rendered nor queued is offered again, in patch order (the
/// published cover is an ascending set). Returns `None` when a
/// backfill is needed but no planet is active, so nothing could be
/// attributed; the caller then skips this frame's uploads.
pub fn enqueue_ready_uploads(
    pending: &mut PendingTerrainPatchUploads,
    events: &[TerrainPatchReady],
    published: &[TerrainPatch],
    active_planet: Option<u64>,
    rendered: &[TerrainPatchRenderKey],
) -> (r: Option<ReadyUploadCounts>)
    requires
        old(pending).wf(),
        ascending_patches(published@),
        events@.len() < usize::MAX,
    ensures
        final(pending).wf(),
        all_kept(final(pending).events(), active_planet, published@),
        r is None <==> active_planet is None && final(pending).backfill_pending(),
        r matches Some(counts) ==> counts.received == events@.len(),
        r matches Some(counts) ==> counts.rejected <= events@.len() + 1,
        r matches Some(counts) && (old(pending).backfill_pending() || counts.rejected > 0)
            && !final(pending).backfill_pending() ==> forall|p: TerrainPatch|
            #[trigger] published@.contains(p) ==> rendered@.contains(render_key(active_planet->0, p))
                || final(pending).events().contains(ready_event(p, active_planet->0)),
        ({
            let after = after_ready_events(old(pending).events(), events@, active_planet, published@);
            let refused = refused_ready_events(old(pending).events(), events@, active_planet, published@);
            &&& !old(pending).backfill_pending() && refused == 0 ==> {
                &&& final(pending).events() == after
                &&& !final(pending).backfill_pending()
                &&& r matches Some(c) && c.rejected == 0 && c.backfilled == 0
            }
            &&& (old(pending).backfill_pending() || refused > 0) && active_planet is None ==> final(pending).events()
                == after
            &&& (old(pending).backfill_pending() || refused > 0) && active_planet is Some ==> {
                let offers = backfill_offers(published@, active_planet->0, rendered@);
                &&& final(pending).events() == offer_all(after, offers)
                &&& final(pending).backfill_pending() == (refusals(after, offers) > 0)
                &&& r matches Some(c) && c.rejected == refused + (if refusals(after, offers) > 0 {
                    1int
                } else {
                    0int
                }) && c.backfilled == final(pending).events().len() - after.len()
            }
        }),
{
    pending.retain_published_for_planet(active_planet, published);
    proof {
        broadcast use vstd::seq_lib::group_filter_ensures;
        let kept = |event: TerrainPatchReady| kept_for_planet(event, active_planet, published@);
        assert forall|j: int| 0 <= j < pending.events().len() implies kept_for_planet(
            #[trigger] pending.events()[j],
            active_planet,
            published@,
        ) by {
            assert(kept(pending.events()[j]));
        }
    }
    let ghost keep = |e: TerrainPatchReady| kept_for_planet(e, active_planet, published@);
    let ghost start = pending.events();
    proof {
        assert(start == old(pending).events().filter(keep));
    }
    let mut received: usize = 0;
    let mut rejected: usize = 0;
    let mut i: usize = 0;
    while i < events.len()
        invariant
            i <= events@.len(),
            received == i,
            rejected <= i,
            events@.len() < usize::MAX,
            pending.backfill_pending() == (old(pending).backfill_pending() || rejected > 0),
            pending.wf(),
            all_kept(pending.events(), active_planet, published@),
            forall|e: TerrainPatchReady| #[trigger] keep(e) == kept_for_planet(e, active_planet, published@),
            pending.events() == offer_all(start, events@.subrange(0, i as int).filter(keep)),
            rejected == refusals(start, events@.subrange(0, i as int).filter(keep)),
        decreases events@.len() - i,
    {
        let event = events[i];
        let ghost prefix = events@.subrange(0, i as int).filter(keep);
        proof {
            reveal_with_fuel(Seq::<_>::filter, 1);
            assert(events@.subrange(0, i + 1).drop_last() == events@.subrange(0, i as int));
            assert(events@.subrange(0, i + 1).last() == event);
            if keep(event) {
                assert(events@.subrange(0, i + 1).filter(keep) == prefix.push(event));
                assert(prefix.push(event).drop_last() == prefix);
            } else {
                assert(events@.subrange(0, i + 1).filter(keep) == prefix);
            }
        }
        received = received + 1;
        let on_active_planet = match active_planet {
            Some(planet) => planet == event.planet_entity,
            None => false,
        };
        if on_active_planet && contains_patch(published, &event.patch) {
            let ghost before = pending.events();
            let outcome = pending.enqueue(event);
            proof {
                assert forall|j: int| 0 <= j < pending.events().len() implies kept_for_planet(
                    #[trigger] pending.events()[j],
                    active_planet,
                    published@,
                ) by {
                    if j < before.len() {
                        assert(pending.events()[j] == before[j]);
                    }
                }
            }
            if outcome == TerrainUploadEnqueueResult::Rejected {
                rejected = rejected + 1;
            }
        }
        i = i + 1;
    }
    proof {
        assert(events@.subrange(0, events@.len() as int) == events@);
        assert(keep == |e: TerrainPatchReady| kept_for_planet(e, active_planet, published@));
    }
    let mut backfilled: usize = 0;
    if pending.needs_backfill() {
        let planet_entity = match active_planet {
            Some(planet) => planet,
            None => {
                return None;
            },
        };
        let ghost before = pending.events();
        let backfill = pending.backfill_published(planet_entity, published, rendered);
        proof {
            let appended = pending.events().subrange(before.len() as int, pending.events().len() as int);
            assert forall|j: int| 0 <= j < pending.events().len() implies kept_for_planet(
                #[trigger] pending.events()[j],
                active_planet,
                published@,
            ) by {
                if j < before.len() {
                    assert(pending.events().subrange(0, before.len() as int)[j] == pending.events()[j]);
                } else {
                    assert(appended[j - before.len()] == pending.events()[j]);
                }
            }
        }
        backfilled = backfill.queued;
        rejected = rejected + backfill.rejected;
    }
    Some(ReadyUploadCounts { received, rejected, backfilled })
}

/// The render key of a ready event.
pub open spec fn key_of(event: TerrainPatchReady) -> TerrainPatchRenderKey {
    render_key(event.planet_entity, event.patch)
}

} // verus!
