use cosmic_terrain::patch::{CubeFace, TerrainPatch};
use cosmic_terrain::terrain_render;
use cosmic_terrain::uploads::{
    enqueue_ready_uploads, PendingTerrainPatchUploads, TerrainPatchReady, TerrainPatchRenderKey,
    TerrainUploadEnqueueResult, MAX_PATCH_UPLOADS_PER_FRAME, MAX_PENDING_PATCH_UPLOADS,
};
use std::collections::HashMap;

const PLACEHOLDER_PLANET: u64 = u64::MAX;

fn level_two(face: CubeFace) -> TerrainPatch {
    TerrainPatch { face, level: 2, tile_x: 1, tile_y: 2 }
}

#[test]
fn render_pending_uploads_retain_ready_patches_beyond_one_frame_budget() {
    let planet_entity = PLACEHOLDER_PLANET;
    let patches = [level_two(CubeFace::PosX), level_two(CubeFace::PosY), level_two(CubeFace::PosZ)];
    let mut pending = PendingTerrainPatchUploads::new();
    for patch in patches {
        assert_eq!(
            pending.enqueue(TerrainPatchReady { patch, planet_entity }),
            TerrainUploadEnqueueResult::Queued
        );
    }

    assert_eq!(pending.pop_front().unwrap().patch, patches[0]);
    assert_eq!(pending.len(), 2);
    assert_eq!(pending.front().unwrap().patch, patches[1]);
}

#[test]
fn render_pending_uploads_discard_ready_events_from_the_previous_planet() {
    let previous_planet = 1u64;
    let active_planet = 2u64;
    let patch = level_two(CubeFace::PosX);
    let mut pending = PendingTerrainPatchUploads::new();

    pending.enqueue(TerrainPatchReady { patch, planet_entity: previous_planet });
    pending.retain_published_for_planet(Some(active_planet), &[patch]);

    assert!(pending.is_empty());
    assert!(!pending.contains(&TerrainPatchReady { patch, planet_entity: previous_planet }));
}

#[test]
fn render_pending_uploads_coalesce_and_cap_ready_bursts() {
    let planet_entity = PLACEHOLDER_PLANET;
    let mut pending = PendingTerrainPatchUploads::new();
    let first = TerrainPatch { face: CubeFace::PosZ, level: 12, tile_x: 0, tile_y: 0 };

    assert_eq!(
        pending.enqueue(TerrainPatchReady { patch: first, planet_entity }),
        TerrainUploadEnqueueResult::Queued
    );
    assert_eq!(
        pending.enqueue(TerrainPatchReady { patch: first, planet_entity }),
        TerrainUploadEnqueueResult::Duplicate
    );
    for tile_x in 1..MAX_PENDING_PATCH_UPLOADS as u32 {
        assert_eq!(
            pending.enqueue(TerrainPatchReady { patch: TerrainPatch { tile_x, ..first }, planet_entity }),
            TerrainUploadEnqueueResult::Queued
        );
    }
    assert_eq!(
        pending.enqueue(TerrainPatchReady {
            patch: TerrainPatch { tile_x: MAX_PENDING_PATCH_UPLOADS as u32, ..first },
            planet_entity,
        }),
        TerrainUploadEnqueueResult::Rejected
    );
    assert_eq!(pending.len(), MAX_PENDING_PATCH_UPLOADS);
    assert!(pending.needs_backfill());

    pending.pop_front();
    assert!(pending.needs_backfill());
}

#[test]
fn ready_event_overflow_backfills_every_published_patch_without_duplicates() {
    let planet_entity = PLACEHOLDER_PLANET;
    let first = TerrainPatch { face: CubeFace::PosZ, level: 12, tile_x: 0, tile_y: 0 };
    let published = (0..=MAX_PENDING_PATCH_UPLOADS as u32)
        .map(|tile_x| TerrainPatch { tile_x, ..first })
        .collect::<Vec<_>>();
    let mut pending = PendingTerrainPatchUploads::new();
    let mut render_index: HashMap<TerrainPatchRenderKey, u64> = HashMap::new();

    for patch in &published {
        pending.enqueue(TerrainPatchReady { patch: *patch, planet_entity });
    }
    assert!(pending.needs_backfill());

    while pending.needs_backfill() || !pending.is_empty() {
        let rendered: Vec<TerrainPatchRenderKey> = render_index.keys().copied().collect();
        pending.backfill_published(planet_entity, &published, &rendered);
        for _ in 0..MAX_PATCH_UPLOADS_PER_FRAME {
            let Some(event) = pending.pop_front() else {
                break;
            };
            let key = TerrainPatchRenderKey::from_ready(&event);
            assert!(render_index.insert(key, PLACEHOLDER_PLANET).is_none(), "a patch must never activate twice");
        }
    }

    assert!(!pending.needs_backfill());
    assert!(pending.is_empty());
    assert_eq!(render_index.len(), published.len());
    assert!(published
        .iter()
        .all(|patch| render_index.contains_key(&TerrainPatchRenderKey { planet_entity, patch: *patch })));
}

#[test]
fn drain_offers_only_the_active_planets_published_patches() {
    let planet = 7u64;
    let patch = level_two(CubeFace::NegY);
    let other = level_two(CubeFace::NegZ);
    let mut pending = PendingTerrainPatchUploads::new();
    let events = [
        TerrainPatchReady { patch, planet_entity: planet },
        TerrainPatchReady { patch: other, planet_entity: planet },
        TerrainPatchReady { patch, planet_entity: 8 },
        TerrainPatchReady { patch, planet_entity: planet },
    ];
    let counts = enqueue_ready_uploads(&mut pending, &events, &[patch], Some(planet), &[]).unwrap();
    assert_eq!(counts.received, 4);
    assert_eq!(counts.rejected, 0);
    assert_eq!(counts.backfilled, 0);
    assert_eq!(pending.len(), 1);
    assert_eq!(pending.front(), Some(TerrainPatchReady { patch, planet_entity: planet }));
}

#[test]
fn drain_without_active_planet_cannot_backfill() {
    let first = TerrainPatch { face: CubeFace::PosZ, level: 12, tile_x: 0, tile_y: 0 };
    let mut pending = PendingTerrainPatchUploads::new();
    for tile_x in 0..=MAX_PENDING_PATCH_UPLOADS as u32 {
        pending.enqueue(TerrainPatchReady { patch: TerrainPatch { tile_x, ..first }, planet_entity: 1 });
    }
    assert!(pending.needs_backfill());
    assert_eq!(enqueue_ready_uploads(&mut pending, &[], &[first], None, &[]), None);
    // The stale queue was still dropped.
    assert!(pending.is_empty());
}

#[test]
fn drain_backfills_after_an_overflowing_burst() {
    let planet = 3u64;
    let first = TerrainPatch { face: CubeFace::PosX, level: 12, tile_x: 0, tile_y: 0 };
    let published = (0..MAX_PENDING_PATCH_UPLOADS as u32 + 2)
        .map(|tile_x| TerrainPatch { tile_x, ..first })
        .collect::<Vec<_>>();
    let events = published
        .iter()
        .map(|patch| TerrainPatchReady { patch: *patch, planet_entity: planet })
        .collect::<Vec<_>>();
    let mut pending = PendingTerrainPatchUploads::new();
    let counts = enqueue_ready_uploads(&mut pending, &events, &published, Some(planet), &[]).unwrap();
    assert_eq!(counts.received, events.len());
    // Two offers overflow, and the backfill pass is rejected once more.
    assert_eq!(counts.rejected, 3);
    assert_eq!(counts.backfilled, 0);
    assert!(pending.needs_backfill());
    let mut rendered = Vec::new();
    for _ in 0..2 {
        let event = pending.pop_front().unwrap();
        rendered.push(TerrainPatchRenderKey::from_ready(&event));
    }
    let counts = enqueue_ready_uploads(&mut pending, &[], &published, Some(planet), &rendered).unwrap();
    assert_eq!(counts.backfilled, 2);
    assert_eq!(counts.rejected, 0);
    assert!(!pending.needs_backfill());
    assert_eq!(pending.len(), MAX_PENDING_PATCH_UPLOADS);
}

#[test]
fn terrain_render_pending_uploads_retain_ready_patches_beyond_one_frame_budget() {
    let planet_entity = PLACEHOLDER_PLANET;
    let patches = [level_two(CubeFace::PosX), level_two(CubeFace::PosY), level_two(CubeFace::PosZ)];
    let mut pending = terrain_render::PendingTerrainPatchUploads::new();
    for patch in patches {
        assert!(pending.enqueue(TerrainPatchReady { patch, planet_entity }));
    }

    assert_eq!(pending.pop_front().unwrap().patch, patches[0]);
    assert_eq!(pending.len(), 2);
    assert_eq!(pending.front().unwrap().patch, patches[1]);
}

#[test]
fn terrain_render_pending_uploads_discard_ready_events_from_the_previous_planet() {
    let previous_planet = 11u64;
    let active_planet = 12u64;
    let patch = level_two(CubeFace::PosX);
    let mut pending = terrain_render::PendingTerrainPatchUploads::new();

    pending.enqueue(TerrainPatchReady { patch, planet_entity: previous_planet });
    pending.retain_published_for_planet(Some(active_planet), &[patch]);

    assert_eq!(pending.len(), 0);
    assert!(!pending.contains(&TerrainPatchReady { patch, planet_entity: previous_planet }));
}

#[test]
fn terrain_render_pending_uploads_coalesce_and_cap_ready_bursts() {
    let planet_entity = PLACEHOLDER_PLANET;
    let mut pending = terrain_render::PendingTerrainPatchUploads::new();
    let first = TerrainPatch { face: CubeFace::PosZ, level: 12, tile_x: 0, tile_y: 0 };

    assert!(pending.enqueue(TerrainPatchReady { patch: first, planet_entity }));
    assert!(!pending.enqueue(TerrainPatchReady { patch: first, planet_entity }));
    for tile_x in 1..MAX_PENDING_PATCH_UPLOADS as u32 {
        assert!(pending.enqueue(TerrainPatchReady { patch: TerrainPatch { tile_x, ..first }, planet_entity }));
    }
    assert!(!pending.enqueue(TerrainPatchReady {
        patch: TerrainPatch { tile_x: MAX_PENDING_PATCH_UPLOADS as u32, ..first },
        planet_entity,
    }));
    assert_eq!(pending.len(), MAX_PENDING_PATCH_UPLOADS);
}

#[test]
fn single_pass_refill_retries_published_patches_without_render_entity() {
    let planet = 5u64;
    let rendered_patch = level_two(CubeFace::PosX);
    let missing = level_two(CubeFace::NegX);
    let mut pending = terrain_render::PendingTerrainPatchUploads::new();
    terrain_render::enqueue_ready_uploads(
        &mut pending,
        &[],
        &[rendered_patch, missing],
        Some(planet),
        &[TerrainPatchRenderKey { planet_entity: planet, patch: rendered_patch }],
    );
    assert_eq!(pending.len(), 1);
    assert_eq!(pending.front(), Some(TerrainPatchReady { patch: missing, planet_entity: planet }));
    assert_eq!(terrain_render::MAX_PATCH_UPLOADS_PER_FRAME, 2);
}

#[test]
fn upload_batches_take_the_oldest_events_within_the_frame_budget() {
    let planet_entity = PLACEHOLDER_PLANET;
    let events: Vec<TerrainPatchReady> = (0..8u32)
        .map(|tile_x| TerrainPatchReady {
            patch: TerrainPatch { face: CubeFace::NegY, level: 3, tile_x, tile_y: 0 },
            planet_entity,
        })
        .collect();
    let mut pending = PendingTerrainPatchUploads::new();
    for event in &events {
        pending.enqueue(*event);
    }
    assert_eq!(pending.pop_upload_batch(MAX_PATCH_UPLOADS_PER_FRAME), events[..6].to_vec());
    assert_eq!(pending.pop_upload_batch(MAX_PATCH_UPLOADS_PER_FRAME), events[6..].to_vec());
    assert!(pending.pop_upload_batch(MAX_PATCH_UPLOADS_PER_FRAME).is_empty());
    assert!(pending.pop_upload_batch(0).is_empty());
}

#[test]
fn backfilled_frames_upload_an_overflowing_cover_once_in_bounded_frames() {
    let planet_entity = PLACEHOLDER_PLANET;
    let first = TerrainPatch { face: CubeFace::PosZ, level: 12, tile_x: 0, tile_y: 0 };
    let published = (0..=MAX_PENDING_PATCH_UPLOADS as u32)
        .map(|tile_x| TerrainPatch { tile_x, ..first })
        .collect::<Vec<_>>();
    let mut pending = PendingTerrainPatchUploads::new();
    for patch in &published {
        pending.enqueue(TerrainPatchReady { patch: *patch, planet_entity });
    }
    let mut rendered: Vec<TerrainPatchRenderKey> = Vec::new();
    let mut frames = 0;
    while pending.needs_backfill() || !pending.is_empty() {
        pending.backfill_published(planet_entity, &published, &rendered);
        for event in pending.pop_upload_batch(MAX_PATCH_UPLOADS_PER_FRAME) {
            let key = TerrainPatchRenderKey::from_ready(&event);
            assert!(!rendered.contains(&key), "a patch must never activate twice");
            rendered.push(key);
        }
        frames += 1;
        assert!(frames <= published.len() + 1);
    }
    assert_eq!(rendered.len(), published.len());
    assert!(published.iter().all(|patch| rendered.contains(&TerrainPatchRenderKey { planet_entity, patch: *patch })));
}
