use cosmic_terrain::performance::{FrameHistory, TerrainFrameCounters, TERRAIN_ATTRIBUTION_HISTORY_CAPACITY};
use cosmic_terrain::water::{clamped_wave_components, water_subdivision, DEFAULT_WATER_SUBDIVISION, DEFAULT_WAVE_COMPONENTS};

#[test]
fn aggregation_sums_counters_and_keeps_the_peak_queue() {
    let mut aggregate = TerrainFrameCounters::new(3);
    aggregate.queue_peak = 4;
    aggregate.requests = 2;
    let mut record = TerrainFrameCounters::new(4);
    record.queue_peak = 9;
    record.requests = 5;
    record.patches_evicted = 1;
    aggregate.add_assign(record);
    assert_eq!(aggregate.frame_id, 3);
    assert_eq!(aggregate.queue_peak, 9);
    assert_eq!(aggregate.requests, 7);
    assert_eq!(aggregate.patches_evicted, 1);
    let mut lower = TerrainFrameCounters::new(5);
    lower.queue_peak = 1;
    aggregate.add_assign(lower);
    assert_eq!(aggregate.queue_peak, 9);
}

#[test]
fn history_keeps_only_the_most_recent_frames() {
    let mut history = FrameHistory::new();
    for frame in 0..(TERRAIN_ATTRIBUTION_HISTORY_CAPACITY as u64 + 5) {
        history.push(TerrainFrameCounters::new(frame));
    }
    assert_eq!(history.len(), TERRAIN_ATTRIBUTION_HISTORY_CAPACITY);
    assert_eq!(history.first().unwrap().frame_id, 5);
    assert_eq!(history.get(TERRAIN_ATTRIBUTION_HISTORY_CAPACITY - 1).frame_id, 124);
}

#[test]
fn wave_components_are_clamped_to_the_shader_range() {
    assert_eq!(clamped_wave_components(DEFAULT_WAVE_COMPONENTS), 4);
    assert_eq!(clamped_wave_components(1), 1);
    assert_eq!(clamped_wave_components(0), 1);
    assert_eq!(clamped_wave_components(9), 4);
    assert!(DEFAULT_WATER_SUBDIVISION >= 2);
}

#[test]
fn ocean_subdivision_is_bounded_by_the_quality_budget() {
    assert_eq!(water_subdivision(65, 33), 33);
    assert_eq!(water_subdivision(17, 33), 17);
    assert_eq!(water_subdivision(65, 0), 2);
    assert_eq!(water_subdivision(1, 0), 1);
}
