//! Bounded terrain performance attribution: per-frame work counters and the
//! fixed-capacity history of the most recent frames that the performance
//! logger summarises.
use vstd::prelude::*;
use std::collections::VecDeque;

verus! {

/// Frames kept in the attribution history.
pub const TERRAIN_ATTRIBUTION_HISTORY_CAPACITY: usize = 120;

/// Work counted during one terrain presentation frame.
#[derive(Clone, Copy, Debug, PartialEq, Eq, Structural)]
pub struct TerrainFrameCounters {
    pub frame_id: u64,
    pub queue_start: usize,
    pub queue_end: usize,
    pub queue_peak: usize,
    pub ready_received: usize,
    pub ready_backfilled: usize,
    pub ready_rejected: usize,
    pub visible_candidates: usize,
    pub culled_nodes: usize,
    pub visible_patches: usize,
    pub lod_evaluations: usize,
    pub lod_splits: usize,
    pub lod_merges: usize,
    pub requests: usize,
    pub duplicate_requests: usize,
    pub tasks_started: usize,
    pub tasks_completed: usize,
    pub tasks_cancelled: usize,
    pub patches_published: usize,
    pub patches_activated: usize,
    pub patches_evicted: usize,
    pub mesh_assets_created: usize,
    pub material_assets_created: usize,
    pub image_assets_created: usize,
}

/// Adding `b` to `a` keeps every summed counter within `usize`.
pub open spec fn sums_fit(a: TerrainFrameCounters, b: TerrainFrameCounters) -> bool {
    &&& a.queue_start + b.queue_start <= usize::MAX
    &&& a.queue_end + b.queue_end <= usize::MAX
    &&& a.ready_received + b.ready_received <= usize::MAX
    &&& a.ready_backfilled + b.ready_backfilled <= usize::MAX
    &&& a.ready_rejected + b.ready_rejected <= usize::MAX
    &&& a.visible_candidates + b.visible_candidates <= usize::MAX
    &&& a.culled_nodes + b.culled_nodes <= usize::MAX
    &&& a.visible_patches + b.visible_patches <= usize::MAX
    &&& a.lod_evaluations + b.lod_evaluations <= usize::MAX
    &&& a.lod_splits + b.lod_splits <= usize::MAX
    &&& a.lod_merges + b.lod_merges <= usize::MAX
    &&& a.requests + b.requests <= usize::MAX
    &&& a.duplicate_requests + b.duplicate_requests <= usize::MAX
    &&& a.tasks_started + b.tasks_started <= usize::MAX
    &&& a.tasks_completed + b.tasks_completed <= usize::MAX
    &&& a.tasks_cancelled + b.tasks_cancelled <= usize::MAX
    &&& a.patches_published + b.patches_published <= usize::MAX
    &&& a.patches_activated + b.patches_activated <= usize::MAX
    &&& a.patches_evicted + b.patches_evicted <= usize::MAX
    &&& a.mesh_assets_created + b.mesh_assets_created <= usize::MAX
    &&& a.material_assets_created + b.material_assets_created <= usize::MAX
    &&& a.image_assets_created + b.image_assets_created <= usize::MAX
}

/// The aggregate of two frames: counters add up, the queue peak is the larger
/// one, and the frame id stays the first frame's.
pub open spec fn aggregated(a: TerrainFrameCounters, b: TerrainFrameCounters) -> TerrainFrameCounters {
    TerrainFrameCounters {
        frame_id: a.frame_id,
        queue_start: (a.queue_start + b.queue_start) as usize,
        queue_end: (a.queue_end + b.queue_end) as usize,
        queue_peak: if a.queue_peak >= b.queue_peak {
            a.queue_peak
        } else {
            b.queue_peak
        },
        ready_received: (a.ready_received + b.ready_received) as usize,
        ready_backfilled: (a.ready_backfilled + b.ready_backfilled) as usize,
        ready_rejected: (a.ready_rejected + b.ready_rejected) as usize,
        visible_candidates: (a.visible_candidates + b.visible_candidates) as usize,
        culled_nodes: (a.culled_nodes + b.culled_nodes) as usize,
        visible_patches: (a.visible_patches + b.visible_patches) as usize,
        lod_evaluations: (a.lod_evaluations + b.lod_evaluations) as usize,
        lod_splits: (a.lod_splits + b.lod_splits) as usize,
        lod_merges: (a.lod_merges + b.lod_merges) as usize,
        requests: (a.requests + b.requests) as usize,
        duplicate_requests: (a.duplicate_requests + b.duplicate_requests) as usize,
        tasks_started: (a.tasks_started + b.tasks_started) as usize,
        tasks_completed: (a.tasks_completed + b.tasks_completed) as usize,
        tasks_cancelled: (a.tasks_cancelled + b.tasks_cancelled) as usize,
        patches_published: (a.patches_published + b.patches_published) as usize,
        patches_activated: (a.patches_activated + b.patches_activated) as usize,
        patches_evicted: (a.patches_evicted + b.patches_evicted) as usize,
        mesh_assets_created: (a.mesh_assets_created + b.mesh_assets_created) as usize,
        material_assets_created: (a.material_assets_created + b.material_assets_created) as usize,
        image_assets_created: (a.image_assets_created + b.image_assets_created) as usize,
    }
}

impl TerrainFrameCounters {
    /// A frame with nothing counted yet.
    pub fn new(frame_id: u64) -> (r: Self)
        ensures
            r.frame_id == frame_id,
            r == Self::zeroed(frame_id),
    {
        TerrainFrameCounters {
            frame_id,
            queue_start: 0,
            queue_end: 0,
            queue_peak: 0,
            ready_received: 0,
            ready_backfilled: 0,
            ready_rejected: 0,
            visible_candidates: 0,
            culled_nodes: 0,
            visible_patches: 0,
            lod_evaluations: 0,
            lod_splits: 0,
            lod_merges: 0,
            requests: 0,
            duplicate_requests: 0,
            tasks_started: 0,
            tasks_completed: 0,
            tasks_cancelled: 0,
            patches_published: 0,
            patches_activated: 0,
            patches_evicted: 0,
            mesh_assets_created: 0,
            material_assets_created: 0,
            image_assets_created: 0,
        }
    }

    /// Every counter zero.
    pub open spec fn zeroed(frame_id: u64) -> Self {
        TerrainFrameCounters {
            frame_id,
            queue_start: 0,
            queue_end: 0,
            queue_peak: 0,
            ready_received: 0,
            ready_backfilled: 0,
            ready_rejected: 0,
            visible_candidates: 0,
            culled_nodes: 0,
            visible_patches: 0,
            lod_evaluations: 0,
            lod_splits: 0,
            lod_merges: 0,
            requests: 0,
            duplicate_requests: 0,
            tasks_started: 0,
            tasks_completed: 0,
            tasks_cancelled: 0,
            patches_published: 0,
            patches_activated: 0,
            patches_evicted: 0,
            mesh_assets_created: 0,
            material_assets_created: 0,
            image_assets_created: 0,
        }
    }

    /// Fold another frame into this aggregate: every counter is summed and the
    /// queue peak keeps the larger value.
    pub fn add_assign(&mut self, record: Self)
        requires
            sums_fit(*old(self), record),
        ensures
            *final(self) == aggregated(*old(self), record),
            final(self).frame_id == old(self).frame_id,
            final(self).queue_peak >= old(self).queue_peak,
            final(self).queue_peak >= record.queue_peak,
            final(self).queue_peak == old(self).queue_peak || final(self).queue_peak == record.queue_peak,
            final(self).queue_start == old(self).queue_start + record.queue_start,
            final(self).queue_end == old(self).queue_end + record.queue_end,
            final(self).ready_received == old(self).ready_received + record.ready_received,
            final(self).ready_backfilled == old(self).ready_backfilled + record.ready_backfilled,
            final(self).ready_rejected == old(self).ready_rejected + record.ready_rejected,
            final(self).visible_candidates == old(self).visible_candidates + record.visible_candidates,
            final(self).culled_nodes == old(self).culled_nodes + record.culled_nodes,
            final(self).visible_patches == old(self).visible_patches + record.visible_patches,
            final(self).lod_evaluations == old(self).lod_evaluations + record.lod_evaluations,
            final(self).lod_splits == old(self).lod_splits + record.lod_splits,
            final(self).lod_merges == old(self).lod_merges + record.lod_merges,
            final(self).requests == old(self).requests + record.requests,
            final(self).duplicate_requests == old(self).duplicate_requests + record.duplicate_requests,
            final(self).tasks_started == old(self).tasks_started + record.tasks_started,
            final(self).tasks_completed == old(self).tasks_completed + record.tasks_completed,
            final(self).tasks_cancelled == old(self).tasks_cancelled + record.tasks_cancelled,
            final(self).patches_published == old(self).patches_published + record.patches_published,
            final(self).patches_activated == old(self).patches_activated + record.patches_activated,
            final(self).patches_evicted == old(self).patches_evicted + record.patches_evicted,
            final(self).mesh_assets_created == old(self).mesh_assets_created + record.mesh_assets_created,
            final(self).material_assets_created == old(self).material_assets_created + record.material_assets_created,
            final(self).image_assets_created == old(self).image_assets_created + record.image_assets_created,
    {
        self.queue_start = self.queue_start + record.queue_start;
        self.queue_end = self.queue_end + record.queue_end;
        if record.queue_peak > self.queue_peak {
            self.queue_peak = record.queue_peak;
        }
        self.ready_received = self.ready_received + record.ready_received;
        self.ready_backfilled = self.ready_backfilled + record.ready_backfilled;
        self.ready_rejected = self.ready_rejected + record.ready_rejected;
        self.visible_candidates = self.visible_candidates + record.visible_candidates;
        self.culled_nodes = self.culled_nodes + record.culled_nodes;
        self.visible_patches = self.visible_patches + record.visible_patches;
        self.lod_evaluations = self.lod_evaluations + record.lod_evaluations;
        self.lod_splits = self.lod_splits + record.lod_splits;
        self.lod_merges = self.lod_merges + record.lod_merges;
        self.requests = self.requests + record.requests;
        self.duplicate_requests = self.duplicate_requests + record.duplicate_requests;
        self.tasks_started = self.tasks_started + record.tasks_started;
        self.tasks_completed = self.tasks_completed + record.tasks_completed;
        self.tasks_cancelled = self.tasks_cancelled + record.tasks_cancelled;
        self.patches_published = self.patches_published + record.patches_published;
        self.patches_activated = self.patches_activated + record.patches_activated;
        self.patches_evicted = self.patches_evicted + record.patches_evicted;
        self.mesh_assets_created = self.mesh_assets_created + record.mesh_assets_created;
        self.material_assets_created = self.material_assets_created + record.material_assets_created;
        self.image_assets_created = self.image_assets_created + record.image_assets_created;
    }
}

/// Aggregating frames sums every counter: each summed counter of the
/// aggregate is the first frame's plus the second's, the queue peak is the
/// larger of the two peaks, and the frame id stays the first frame's.
pub proof fn lemma_aggregate_sums_every_counter(a: TerrainFrameCounters, b: TerrainFrameCounters)
    requires
        sums_fit(a, b),
    ensures
        aggregated(a, b).frame_id == a.frame_id,
        aggregated(a, b).queue_peak >= a.queue_peak,
        aggregated(a, b).queue_peak >= b.queue_peak,
        aggregated(a, b).queue_peak == a.queue_peak || aggregated(a, b).queue_peak == b.queue_peak,
        aggregated(a, b).queue_start == a.queue_start + b.queue_start,
        aggregated(a, b).queue_end == a.queue_end + b.queue_end,
        aggregated(a, b).ready_received == a.ready_received + b.ready_received,
        aggregated(a, b).ready_backfilled == a.ready_backfilled + b.ready_backfilled,
        aggregated(a, b).ready_rejected == a.ready_rejected + b.ready_rejected,
        aggregated(a, b).visible_candidates == a.visible_candidates + b.visible_candidates,
        aggregated(a, b).culled_nodes == a.culled_nodes + b.culled_nodes,
        aggregated(a, b).visible_patches == a.visible_patches + b.visible_patches,
        aggregated(a, b).lod_evaluations == a.lod_evaluations + b.lod_evaluations,
        aggregated(a, b).lod_splits == a.lod_splits + b.lod_splits,
        aggregated(a, b).lod_merges == a.lod_merges + b.lod_merges,
        aggregated(a, b).requests == a.requests + b.requests,
        aggregated(a, b).duplicate_requests == a.duplicate_requests + b.duplicate_requests,
        aggregated(a, b).tasks_started == a.tasks_started + b.tasks_started,
        aggregated(a, b).tasks_completed == a.tasks_completed + b.tasks_completed,
        aggregated(a, b).tasks_cancelled == a.tasks_cancelled + b.tasks_cancelled,
        aggregated(a, b).patches_published == a.patches_published + b.patches_published,
        aggregated(a, b).patches_activated == a.patches_activated + b.patches_activated,
        aggregated(a, b).patches_evicted == a.patches_evicted + b.patches_evicted,
        aggregated(a, b).mesh_assets_created == a.mesh_assets_created + b.mesh_assets_created,
        aggregated(a, b).material_assets_created == a.material_assets_created + b.material_assets_created,
        aggregated(a, b).image_assets_created == a.image_assets_created + b.image_assets_created,
{
}

/// The last at most `capacity` of `records`.
pub open spec fn most_recent<T>(records: Seq<T>, capacity: int) -> Seq<T> {
    if records.len() <= capacity {
        records
    } else {
        records.subrange(records.len() - capacity, records.len() as int)
    }
}

/// The most recent frames, oldest first, never more than
/// `TERRAIN_ATTRIBUTION_HISTORY_CAPACITY`.
pub struct FrameHistory<T> {
    records: VecDeque<T>,
}

impl<T: Copy> FrameHistory<T> {
    /// The kept frames, oldest first.
    pub closed spec fn frames(&self) -> Seq<T> {
        self.records@
    }

    /// The history never exceeds its capacity.
    pub open spec fn wf(&self) -> bool {
        self.frames().len() <= TERRAIN_ATTRIBUTION_HISTORY_CAPACITY
    }

    /// An empty history.
    pub fn new() -> (r: Self)
        ensures
            r.wf(),
            r.frames() == Seq::<T>::empty(),
    {
        FrameHistory { records: VecDeque::new() }
    }

    /// Number of kept frames.
    pub fn len(&self) -> (r: usize)
        ensures
            r == self.frames().len(),
    {
        self.records.len()
    }

    /// The oldest kept frame.
    pub fn first(&self) -> (r: Option<T>)
        ensures
            r == if self.frames().len() == 0 { None } else { Some(self.frames()[0]) },
    {
        if self.records.len() == 0 {
            None
        } else {
            Some(self.records[0])
        }
    }

    /// The kept frame `i` places after the oldest.
    pub fn get(&self, i: usize) -> (r: T)
        requires
            i < self.frames().len(),
        ensures
            r == self.frames()[i as int],
    {
        self.records[i]
    }

    /// Record a finished frame, dropping the oldest one when the history is
    /// full.
    pub fn push(&mut self, record: T)
        requires
            old(self).wf(),
        ensures
            final(self).wf(),
            final(self).frames() == most_recent(
                old(self).frames().push(record),
                TERRAIN_ATTRIBUTION_HISTORY_CAPACITY as int,
            ),
    {
        let ghost before = self.records@;
        if self.records.len() == TERRAIN_ATTRIBUTION_HISTORY_CAPACITY {
            self.records.pop_front();
        }
        self.records.push_back(record);
        proof {
            if before.len() == TERRAIN_ATTRIBUTION_HISTORY_CAPACITY {
                assert(self.records@ =~= before.push(record).subrange(
                    before.push(record).len() - TERRAIN_ATTRIBUTION_HISTORY_CAPACITY,
                    before.push(record).len() as int,
                ));
            }
        }
    }
}

/// The history keeps the most recent frames: after recording `next`, the
/// kept frames are the newest at most `TERRAIN_ATTRIBUTION_HISTORY_CAPACITY`
/// of all recorded so far, so older frames never outlive newer ones.
pub proof fn lemma_history_keeps_the_newest_frames<T>(recorded: Seq<T>, next: T)
    ensures
        most_recent(most_recent(recorded, TERRAIN_ATTRIBUTION_HISTORY_CAPACITY as int).push(next),
            TERRAIN_ATTRIBUTION_HISTORY_CAPACITY as int)
            == most_recent(recorded.push(next), TERRAIN_ATTRIBUTION_HISTORY_CAPACITY as int),
        most_recent(recorded.push(next), TERRAIN_ATTRIBUTION_HISTORY_CAPACITY as int).len()
            <= TERRAIN_ATTRIBUTION_HISTORY_CAPACITY,
        most_recent(recorded.push(next), TERRAIN_ATTRIBUTION_HISTORY_CAPACITY as int).last() == next,
{
    let c = TERRAIN_ATTRIBUTION_HISTORY_CAPACITY as int;
    let kept = most_recent(recorded, c);
    assert(most_recent(kept.push(next), c) =~= most_recent(recorded.push(next), c));
}

} // verus!
