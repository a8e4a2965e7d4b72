//! Upload frames of the two-pass renderer. Each frame runs the backfill pass
//! (`PendingTerrainPatchUploads::backfill_published`) and then turns up to a
//! per-frame budget of queued ready events into render entities
//! (`PendingTerrainPatchUploads::pop_upload_batch`). A frame state is the
//! queue, the backfill flag and the keys of the render entities created so
//! far. From a consistent state, one planet's published cover is uploaded
//! within a bounded number of frames, each patch exactly once.
use vstd::prelude::*;
use crate::patch::{TerrainPatch, distinct_patches};
use crate::uploads::{
    TerrainPatchReady, TerrainPatchRenderKey, backfill_offers, distinct_events, key_of, offer_all, ready_event,
    refusals, render_key, MAX_PENDING_PATCH_UPLOADS,
};

verus! {

/// Queue, backfill flag and render-entity keys between two frames.
pub type UploadFrameState = (Seq<TerrainPatchReady>, bool, Seq<TerrainPatchRenderKey>);

/// How many events a frame uploads: the budget, or the whole queue if shorter.
pub open spec fn batch_len(queue_len: nat, budget: nat) -> int {
    if budget < queue_len {
        budget as int
    } else {
        queue_len as int
    }
}

/// One frame: the backfill pass (when a backfill is pending), then the first
/// `batch_len` queued events leave the queue and get render entities.
pub open spec fn upload_frame(
    state: UploadFrameState,
    published: Seq<TerrainPatch>,
    planet: u64,
    budget: nat,
) -> UploadFrameState {
    let offers = backfill_offers(published, planet, state.2);
    let queued = if state.1 {
        offer_all(state.0, offers)
    } else {
        state.0
    };
    let still_pending = state.1 && refusals(state.0, offers) > 0;
    let n = batch_len(queued.len(), budget);
    (queued.skip(n), still_pending, state.2 + queued.take(n).map_values(|e: TerrainPatchReady| key_of(e)))
}

/// The state after `frames` upload frames.
pub open spec fn upload_frames(
    state: UploadFrameState,
    published: Seq<TerrainPatch>,
    planet: u64,
    budget: nat,
    frames: nat,
) -> UploadFrameState
    decreases frames,
{
    if frames == 0 {
        state
    } else {
        upload_frame(upload_frames(state, published, planet, budget, (frames - 1) as nat), published, planet, budget)
    }
}

/// Nothing is left to do: no backfill is pending and the queue is empty.
pub open spec fn uploads_done(state: UploadFrameState) -> bool {
    !state.1 && state.0.len() == 0
}

/// A consistent frame state for `planet` and its published cover: the queue
/// is well formed and holds only published, not yet rendered patches of the
/// planet; every render entity is a distinct published patch of the planet;
/// and unless a backfill is pending, every published patch is rendered or
/// queued.
pub open spec fn upload_invariant(state: UploadFrameState, published: Seq<TerrainPatch>, planet: u64) -> bool {
    &&& distinct_events(state.0)
    &&& state.0.len() <= MAX_PENDING_PATCH_UPLOADS
    &&& forall|i: int|
        0 <= i < state.0.len() ==> {
            &&& (#[trigger] state.0[i]).planet_entity == planet
            &&& published.contains(state.0[i].patch)
            &&& !state.2.contains(key_of(state.0[i]))
        }
    &&& state.2.no_duplicates()
    &&& forall|i: int|
        0 <= i < state.2.len() ==> (#[trigger] state.2[i]).planet_entity == planet && published.contains(
            state.2[i].patch,
        )
    &&& state.1 || forall|p: TerrainPatch| #[trigger]
        published.contains(p) ==> state.2.contains(render_key(planet, p)) || state.0.contains(ready_event(p, planet))
}

/// What offering events one by one does to a well-formed queue: the queue is
/// kept as a prefix, only offered events are appended, none twice and never
/// beyond the bound; with no refusal every offer ends up queued; and an
/// empty queue takes the first offer.
proof fn lemma_offer_all_facts(queue: Seq<TerrainPatchReady>, offers: Seq<TerrainPatchReady>)
    requires
        distinct_events(queue),
        queue.len() <= MAX_PENDING_PATCH_UPLOADS,
    ensures
        ({
            let r = offer_all(queue, offers);
            &&& queue.len() <= r.len() <= MAX_PENDING_PATCH_UPLOADS
            &&& r.subrange(0, queue.len() as int) == queue
            &&& distinct_events(r)
            &&& forall|j: int| queue.len() <= j < r.len() ==> offers.contains(#[trigger] r[j])
            &&& refusals(queue, offers) == 0 ==> forall|x: TerrainPatchReady| #[trigger]
                offers.contains(x) ==> r.contains(x)
            &&& queue.len() == 0 && offers.len() > 0 ==> r.len() > 0
        }),
    decreases offers.len(),
{
    if offers.len() > 0 {
        let rest = offers.drop_last();
        let e = offers.last();
        lemma_offer_all_facts(queue, rest);
        let prev = offer_all(queue, rest);
        let r = offer_all(queue, offers);
        assert(r == crate::uploads::offer(prev, e));
        assert forall|j: int| queue.len() <= j < r.len() implies offers.contains(#[trigger] r[j]) by {
            if j < prev.len() {
                assert(r[j] == prev[j]);
                assert(rest.contains(prev[j]));
                let k = choose|k: int| 0 <= k < rest.len() && rest[k] == prev[j];
                assert(offers[k] == prev[j]);
            } else {
                assert(r[j] == e);
                assert(offers[offers.len() - 1] == e);
            }
        }
        if !prev.contains(e) && prev.len() < MAX_PENDING_PATCH_UPLOADS {
            assert(r == prev.push(e));
            assert(r.subrange(0, queue.len() as int) == prev.subrange(0, queue.len() as int));
            assert forall|a: int, b: int| 0 <= a < b < r.len() implies r[a] != r[b] by {
                if b == prev.len() {
                    assert(prev.contains(r[a]));
                }
            }
        }
        if refusals(queue, offers) == 0 {
            assert(refusals(queue, rest) == 0);
            assert forall|x: TerrainPatchReady| #[trigger] offers.contains(x) implies r.contains(x) by {
                let k = choose|k: int| 0 <= k < offers.len() && offers[k] == x;
                if k < offers.len() - 1 {
                    assert(rest[k] == x);
                    assert(rest.contains(x));
                    assert(prev.contains(x));
                    let m = choose|m: int| 0 <= m < prev.len() && prev[m] == x;
                    assert(r[m] == x);
                } else {
                    assert(x == e);
                    if prev.contains(e) {
                        let m = choose|m: int| 0 <= m < prev.len() && prev[m] == x;
                        assert(r[m] == x);
                    } else {
                        assert(r[prev.len() as int] == x);
                    }
                }
            }
        }
        if queue.len() == 0 && prev.len() > 0 {
            assert(r.len() >= prev.len());
        }
    }
}

/// The backfill offers are ready events of published, unrendered patches of
/// the planet, one for each such patch.
proof fn lemma_backfill_offers_facts(
    published: Seq<TerrainPatch>,
    planet: u64,
    rendered: Seq<TerrainPatchRenderKey>,
)
    ensures
        ({
            let offers = backfill_offers(published, planet, rendered);
            &&& forall|i: int|
                0 <= i < offers.len() ==> {
                    &&& (#[trigger] offers[i]).planet_entity == planet
                    &&& published.contains(offers[i].patch)
                    &&& !rendered.contains(key_of(offers[i]))
                }
            &&& forall|p: TerrainPatch| #[trigger]
                published.contains(p) && !rendered.contains(render_key(planet, p)) ==> offers.contains(
                    ready_event(p, planet),
                )
        }),
    decreases published.len(),
{
    if published.len() > 0 {
        let rest = published.drop_last();
        let last = published.last();
        lemma_backfill_offers_facts(rest, planet, rendered);
        let prev = backfill_offers(rest, planet, rendered);
        let offers = backfill_offers(published, planet, rendered);
        assert forall|i: int| 0 <= i < offers.len() implies {
            &&& (#[trigger] offers[i]).planet_entity == planet
            &&& published.contains(offers[i].patch)
            &&& !rendered.contains(key_of(offers[i]))
        } by {
            if i < prev.len() {
                assert(offers[i] == prev[i]);
                let k = choose|k: int| 0 <= k < rest.len() && rest[k] == prev[i].patch;
                assert(published[k] == prev[i].patch);
            } else {
                assert(offers[i] == ready_event(last, planet));
                assert(published[published.len() - 1] == last);
            }
        }
        assert forall|p: TerrainPatch| #[trigger]
            published.contains(p) && !rendered.contains(render_key(planet, p)) implies offers.contains(
            ready_event(p, planet),
        ) by {
            let k = choose|k: int| 0 <= k < published.len() && published[k] == p;
            if k < published.len() - 1 {
                assert(rest[k] == p);
                assert(rest.contains(p));
                let m = choose|m: int| 0 <= m < prev.len() && prev[m] == ready_event(p, planet);
                assert(offers[m] == ready_event(p, planet));
            } else {
                assert(p == last);
                assert(offers[prev.len() as int] == ready_event(p, planet));
            }
        }
    }
}

/// One frame keeps the state consistent and only adds render entities; a
/// finished state stays as it is, and any other frame creates a render
/// entity or finishes.
proof fn lemma_upload_frame_step(state: UploadFrameState, published: Seq<TerrainPatch>, planet: u64, budget: nat)
    requires
        budget >= 1,
        upload_invariant(state, published, planet),
    ensures
        ({
            let next = upload_frame(state, published, planet, budget);
            &&& upload_invariant(next, published, planet)
            &&& next.2.len() >= state.2.len()
            &&& next.2.subrange(0, state.2.len() as int) == state.2
            &&& uploads_done(state) ==> next == state
            &&& !uploads_done(state) ==> next.2.len() > state.2.len() || uploads_done(next)
        }),
{
    let q = state.0;
    let f = state.1;
    let r = state.2;
    let offers = backfill_offers(published, planet, r);
    lemma_backfill_offers_facts(published, planet, r);
    lemma_offer_all_facts(q, offers);
    let queued = if f {
        offer_all(q, offers)
    } else {
        q
    };
    let still_pending = f && refusals(q, offers) > 0;
    let n = batch_len(queued.len(), budget);
    let popped = queued.take(n);
    let keys = popped.map_values(|e: TerrainPatchReady| key_of(e));
    let rest = queued.skip(n);
    let r2 = r + keys;
    let next = upload_frame(state, published, planet, budget);
    assert(next == (rest, still_pending, r2));
    // Facts on the queue after the backfill pass.
    assert(distinct_events(queued) && queued.len() <= MAX_PENDING_PATCH_UPLOADS);
    assert forall|i: int| 0 <= i < queued.len() implies {
        &&& (#[trigger] queued[i]).planet_entity == planet
        &&& published.contains(queued[i].patch)
        &&& !r.contains(key_of(queued[i]))
    } by {
        if f && i >= q.len() {
            assert(offers.contains(queued[i]));
            let k = choose|k: int| 0 <= k < offers.len() && offers[k] == queued[i];
            assert(offers[k].planet_entity == planet);
        } else if f {
            assert(queued.subrange(0, q.len() as int)[i] == q[i]);
        }
    }
    assert(!still_pending ==> forall|p: TerrainPatch| #[trigger]
        published.contains(p) ==> r.contains(render_key(planet, p)) || queued.contains(ready_event(p, planet))) by {
        if !still_pending {
            assert forall|p: TerrainPatch| #[trigger] published.contains(p) implies r.contains(render_key(planet, p))
                || queued.contains(ready_event(p, planet)) by {
                if f && !r.contains(render_key(planet, p)) {
                    assert(offers.contains(ready_event(p, planet)));
                }
            }
        }
    }
    // The popped keys.
    assert(0 <= n <= queued.len());
    assert forall|j: int| 0 <= j < keys.len() implies #[trigger] keys[j] == key_of(queued[j]) by {}
    assert(r2.len() == r.len() + n);
    assert(r2.subrange(0, r.len() as int) == r);
    assert forall|a: int, b: int| 0 <= a < r2.len() && 0 <= b < r2.len() && a != b implies r2[a] != r2[b] by {
        if a < r.len() && b < r.len() {
        } else if a >= r.len() && b >= r.len() {
            assert(r2[a] == keys[a - r.len()] && r2[b] == keys[b - r.len()]);
            assert(keys[a - r.len()] == key_of(queued[a - r.len()]));
            assert(keys[b - r.len()] == key_of(queued[b - r.len()]));
        } else if a < r.len() {
            assert(r2[b] == key_of(queued[b - r.len()]));
            assert(r2[a] == r[a]);
            if r2[a] == r2[b] {
                assert(r.contains(key_of(queued[b - r.len()])));
            }
        } else {
            assert(r2[a] == key_of(queued[a - r.len()]));
            assert(r2[b] == r[b]);
            if r2[a] == r2[b] {
                assert(r.contains(key_of(queued[a - r.len()])));
            }
        }
    }
    assert forall|i: int| 0 <= i < r2.len() implies (#[trigger] r2[i]).planet_entity == planet && published.contains(
        r2[i].patch,
    ) by {
        if i >= r.len() {
            assert(r2[i] == key_of(queued[i - r.len()]));
            assert(queued[i - r.len()].planet_entity == planet);
        } else {
            assert(r2[i] == r[i]);
        }
    }
    // The rest of the queue.
    assert forall|a: int, b: int| 0 <= a < b < rest.len() implies rest[a] != rest[b] by {
        assert(rest[a] == queued[a + n] && rest[b] == queued[b + n]);
    }
    assert forall|i: int| 0 <= i < rest.len() implies {
        &&& (#[trigger] rest[i]).planet_entity == planet
        &&& published.contains(rest[i].patch)
        &&& !r2.contains(key_of(rest[i]))
    } by {
        assert(rest[i] == queued[i + n]);
        assert(queued[i + n].planet_entity == planet);
        if r2.contains(key_of(rest[i])) {
            let k = choose|k: int| 0 <= k < r2.len() && r2[k] == key_of(rest[i]);
            if k < r.len() {
                assert(r2[k] == r[k]);
                assert(r.contains(key_of(queued[i + n])));
            } else {
                assert(r2[k] == key_of(queued[k - r.len()]));
                assert(queued[k - r.len()] == queued[i + n]);
            }
        }
    }
    if !still_pending {
        assert forall|p: TerrainPatch| #[trigger] published.contains(p) implies r2.contains(render_key(planet, p))
            || rest.contains(ready_event(p, planet)) by {
            if r.contains(render_key(planet, p)) {
                let k = choose|k: int| 0 <= k < r.len() && r[k] == render_key(planet, p);
                assert(r2[k] == render_key(planet, p));
            } else {
                assert(queued.contains(ready_event(p, planet)));
                let j = choose|j: int| 0 <= j < queued.len() && queued[j] == ready_event(p, planet);
                if j < n {
                    assert(r2[r.len() + j] == key_of(queued[j]));
                } else {
                    assert(rest[j - n] == queued[j]);
                }
            }
        }
    }
    if uploads_done(state) {
        assert(queued.len() == 0);
        assert(keys =~= Seq::<TerrainPatchRenderKey>::empty());
        assert(r2 =~= r);
        assert(rest =~= q);
    }
    if !uploads_done(state) && queued.len() == 0 {
        assert(q.len() == 0);
        assert(f);
        assert(offers.len() == 0);
        assert(refusals(q, offers) == 0);
    }
}

/// Render entities that are distinct published patches of one planet are
/// at most as many as the published patches, and exactly as many once every
/// published patch has one.
proof fn lemma_rendered_count(rendered: Seq<TerrainPatchRenderKey>, published: Seq<TerrainPatch>, planet: u64)
    requires
        rendered.no_duplicates(),
        distinct_patches(published),
        forall|i: int|
            0 <= i < rendered.len() ==> (#[trigger] rendered[i]).planet_entity == planet && published.contains(
                rendered[i].patch,
            ),
    ensures
        rendered.len() <= published.len(),
        (forall|p: TerrainPatch| #[trigger]
            published.contains(p) ==> rendered.contains(render_key(planet, p))) ==> rendered.len()
            == published.len(),
{
    let keys = published.map_values(|p: TerrainPatch| render_key(planet, p));
    rendered.unique_seq_to_set();
    vstd::seq_lib::seq_to_set_is_finite(keys);
    vstd::seq_lib::seq_to_set_is_finite(rendered);
    assert forall|k: TerrainPatchRenderKey| rendered.to_set().contains(k) implies keys.to_set().contains(k) by {
        assert(rendered.contains(k));
        let i = choose|i: int| 0 <= i < rendered.len() && rendered[i] == k;
        assert(rendered[i].planet_entity == planet && published.contains(rendered[i].patch));
        let j = choose|j: int| 0 <= j < published.len() && published[j] == k.patch;
        assert(keys[j] == k);
        assert(keys.contains(k));
    }
    vstd::set_lib::lemma_len_subset(rendered.to_set(), keys.to_set());
    keys.lemma_cardinality_of_set();
    if forall|p: TerrainPatch| #[trigger] published.contains(p) ==> rendered.contains(render_key(planet, p)) {
        assert forall|k: TerrainPatchRenderKey| keys.to_set().contains(k) implies rendered.to_set().contains(k) by {
            assert(keys.contains(k));
            let j = choose|j: int| 0 <= j < keys.len() && keys[j] == k;
            assert(published.contains(published[j]));
            assert(rendered.contains(render_key(planet, published[j])));
        }
        vstd::set_lib::lemma_len_subset(keys.to_set(), rendered.to_set());
        assert forall|a: int, b: int| 0 <= a < keys.len() && 0 <= b < keys.len() && a != b implies keys[a]
            != keys[b] by {
            if a < b {
                assert(published[a] != published[b]);
            } else {
                assert(published[b] != published[a]);
            }
        }
        keys.unique_seq_to_set();
    }
}

/// Frame after frame the state stays consistent, and until it is finished
/// every frame creates at least one render entity.
proof fn lemma_upload_frames_progress(
    state: UploadFrameState,
    published: Seq<TerrainPatch>,
    planet: u64,
    budget: nat,
    frames: nat,
)
    requires
        budget >= 1,
        upload_invariant(state, published, planet),
    ensures
        upload_invariant(upload_frames(state, published, planet, budget, frames), published, planet),
        uploads_done(upload_frames(state, published, planet, budget, frames)) || upload_frames(
            state,
            published,
            planet,
            budget,
            frames,
        ).2.len() >= state.2.len() + frames,
    decreases frames,
{
    if frames > 0 {
        let prev = upload_frames(state, published, planet, budget, (frames - 1) as nat);
        lemma_upload_frames_progress(state, published, planet, budget, (frames - 1) as nat);
        lemma_upload_frame_step(prev, published, planet, budget);
    }
}

/// Backfilled uploads reach every published patch exactly once: starting
/// from a consistent state (for example right after a burst of ready events
/// overflowed the queue and left a backfill pending), frames that each run
/// the backfill pass and upload at least one queued event keep the state
/// consistent, so no render entity is ever created twice; they finish, with
/// no backfill pending and an empty queue, within one frame more than there
/// are published patches; and once finished every published patch has
/// exactly one render entity.
pub proof fn lemma_backfill_uploads_every_published_patch_once(
    state: UploadFrameState,
    published: Seq<TerrainPatch>,
    planet: u64,
    budget: nat,
    frames: nat,
)
    requires
        budget >= 1,
        distinct_patches(published),
        upload_invariant(state, published, planet),
    ensures
        upload_invariant(upload_frames(state, published, planet, budget, frames), published, planet),
        upload_frames(state, published, planet, budget, frames).2.subrange(0, state.2.len() as int) == state.2,
        uploads_done(upload_frames(state, published, planet, budget, published.len() + 1)),
        uploads_done(upload_frames(state, published, planet, budget, frames)) ==> {
            let rendered = upload_frames(state, published, planet, budget, frames).2;
            &&& forall|p: TerrainPatch| #[trigger] published.contains(p) ==> rendered.contains(render_key(planet, p))
            &&& rendered.len() == published.len()
        },
{
    lemma_upload_frames_progress(state, published, planet, budget, frames);
    lemma_rendered_prefix(state, published, planet, budget, frames);
    let last = (published.len() + 1) as nat;
    lemma_upload_frames_progress(state, published, planet, budget, last);
    let end = upload_frames(state, published, planet, budget, last);
    lemma_rendered_count(end.2, published, planet);
    let now = upload_frames(state, published, planet, budget, frames);
    if uploads_done(now) {
        assert forall|p: TerrainPatch| #[trigger] published.contains(p) implies now.2.contains(render_key(planet, p)) by {
            assert(now.2.contains(render_key(planet, p)) || now.0.contains(ready_event(p, planet)));
        }
        lemma_rendered_count(now.2, published, planet);
    }
}

/// Render-entity keys are only ever appended.
proof fn lemma_rendered_prefix(
    state: UploadFrameState,
    published: Seq<TerrainPatch>,
    planet: u64,
    budget: nat,
    frames: nat,
)
    requires
        budget >= 1,
        upload_invariant(state, published, planet),
    ensures
        upload_frames(state, published, planet, budget, frames).2.len() >= state.2.len(),
        upload_frames(state, published, planet, budget, frames).2.subrange(0, state.2.len() as int) == state.2,
    decreases frames,
{
    if frames > 0 {
        let prev = upload_frames(state, published, planet, budget, (frames - 1) as nat);
        lemma_rendered_prefix(state, published, planet, budget, (frames - 1) as nat);
        lemma_upload_frames_progress(state, published, planet, budget, (frames - 1) as nat);
        lemma_upload_frame_step(prev, published, planet, budget);
        let next = upload_frames(state, published, planet, budget, frames);
        assert(next.2.subrange(0, state.2.len() as int) == next.2.subrange(0, prev.2.len() as int).subrange(
            0,
            state.2.len() as int,
        ));
    }
}

} // verus!
