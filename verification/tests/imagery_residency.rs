use cosmic_terrain::imagery::{within_budget, ImageryResidency, TileLoadState, IMAGERY_TILE_BYTES};
use cosmic_terrain::patch::{CubeFace, TerrainPatch};

fn tile(tile_x: u32) -> TerrainPatch {
    TerrainPatch { face: CubeFace::NegX, level: 12, tile_x, tile_y: 3797 }
}

#[test]
fn imagery_admission_stays_within_budget() {
    // Empty budget admits nothing.
    assert!(!within_budget(0, 0, IMAGERY_TILE_BYTES - 1));
    // Exactly one tile fits.
    assert!(within_budget(0, 0, IMAGERY_TILE_BYTES));
    // Resident plus in-flight plus the new tile must all fit.
    assert!(!within_budget(IMAGERY_TILE_BYTES, 1, 2 * IMAGERY_TILE_BYTES));
    assert!(within_budget(IMAGERY_TILE_BYTES, 0, 2 * IMAGERY_TILE_BYTES));
    // Counts far beyond any budget are refused rather than wrapped.
    assert!(!within_budget(u64::MAX, usize::MAX, u64::MAX));
}

#[test]
fn admission_follows_each_frames_budget() {
    let mut residency = ImageryResidency::new(8 * IMAGERY_TILE_BYTES);
    let desired = [tile(1), tile(2), tile(3), tile(4)];
    // A frame with a smaller budget admits less than the construction budget.
    assert_eq!(residency.request_desired(&desired, IMAGERY_TILE_BYTES, 4), vec![tile(1)]);
    // A larger budget in a later frame admits more.
    assert_eq!(residency.request_desired(&desired, 3 * IMAGERY_TILE_BYTES, 4), vec![tile(2), tile(3)]);
    // A budget that shrank below the tiles in flight admits nothing and
    // keeps them.
    assert!(residency.request_desired(&desired, 0, 4).is_empty());
    assert_eq!(residency.pending(), vec![tile(1), tile(2), tile(3)]);
    // The metrics keep reporting the construction budget.
    assert_eq!(residency.counts().budget_bytes, 8 * IMAGERY_TILE_BYTES);
}

#[test]
fn requests_respect_the_budget_and_the_per_frame_cap() {
    let budget = 3 * IMAGERY_TILE_BYTES;
    let mut residency = ImageryResidency::new(budget);
    let desired = [tile(1), tile(2), tile(3), tile(4)];
    // Two per frame.
    assert_eq!(residency.request_desired(&desired, budget, 2), vec![tile(1), tile(2)]);
    // The budget leaves room for one more in-flight tile.
    assert_eq!(residency.request_desired(&desired, budget, 4), vec![tile(3)]);
    assert_eq!(residency.request_desired(&desired, budget, 4), Vec::<TerrainPatch>::new());
    assert_eq!(residency.pending(), vec![tile(1), tile(2), tile(3)]);
}

#[test]
fn loaded_tiles_become_resident_and_failed_tiles_may_retry() {
    let mut residency = ImageryResidency::new(8 * IMAGERY_TILE_BYTES);
    let desired = [tile(1), tile(2)];
    residency.request_desired(&desired, 8 * IMAGERY_TILE_BYTES, 4);
    residency.record_load_state(tile(1), TileLoadState::Loaded);
    residency.record_load_state(tile(2), TileLoadState::Failed);
    assert!(residency.is_ready(&tile(1)));
    assert!(!residency.is_ready(&tile(2)));
    let counts = residency.counts();
    assert_eq!(counts.resident_tiles, 1);
    assert_eq!(counts.pending_tiles, 0);
    assert_eq!(counts.resident_bytes, IMAGERY_TILE_BYTES);
    // The failed tile lost its handle, so a later frame requests it again.
    assert_eq!(residency.request_desired(&desired, 8 * IMAGERY_TILE_BYTES, 4), vec![tile(2)]);
}

#[test]
fn leaving_the_cover_evicts_imagery_and_cancels_requests() {
    let mut residency = ImageryResidency::new(8 * IMAGERY_TILE_BYTES);
    residency.request_desired(&[tile(1), tile(2), tile(3)], 8 * IMAGERY_TILE_BYTES, 4);
    residency.record_load_state(tile(1), TileLoadState::Loaded);
    let evicted = residency.evict_undesired(&[tile(3)]);
    assert_eq!(evicted, vec![tile(1), tile(2)]);
    let counts = residency.counts();
    assert_eq!(counts.resident_tiles, 0);
    assert_eq!(counts.resident_bytes, 0);
    assert_eq!(counts.pending_tiles, 1);
    assert_eq!(counts.evicted_tiles, 2);
    assert!(!residency.has_ready_tiles());
}

#[test]
fn loading_tiles_and_unknown_tiles_are_left_alone() {
    let mut residency = ImageryResidency::new(8 * IMAGERY_TILE_BYTES);
    residency.request_desired(&[tile(1)], 8 * IMAGERY_TILE_BYTES, 4);
    residency.record_load_state(tile(1), TileLoadState::Loading);
    residency.record_load_state(tile(9), TileLoadState::Loaded);
    assert_eq!(residency.pending(), vec![tile(1)]);
    assert!(!residency.is_ready(&tile(9)));
}
