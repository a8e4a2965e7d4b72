use cosmic_terrain::topology::{
    cell_corners, core_grid_resolution, grid_triangle_indices, push_card_indices, push_prism_indices,
    push_ring_indices, ribbon_indices,
};

#[test]
fn grid_emits_two_triangles_per_cell_in_row_major_order() {
    let indices = grid_triangle_indices(3);
    assert_eq!(indices.len(), 6 * 4);
    assert_eq!(&indices[..6], &[0, 3, 1, 1, 3, 4]);
    assert_eq!(&indices[18..], &[4, 7, 5, 5, 7, 8]);
    assert!(indices.iter().all(|index| *index < 9));
    assert!(grid_triangle_indices(1).is_empty());
}

#[test]
fn prism_sides_join_the_bottom_and_top_rings() {
    let mut indices = vec![99];
    push_prism_indices(&mut indices, 10, 2);
    assert_eq!(indices, vec![99, 10, 12, 11, 11, 12, 13, 12, 14, 13, 13, 14, 15]);
}

#[test]
fn ring_bodies_wrap_the_last_segment_to_the_first() {
    let mut indices = Vec::new();
    push_ring_indices(&mut indices, 100, 1, 3);
    assert_eq!(
        indices,
        vec![100, 103, 101, 101, 103, 104, 101, 104, 102, 102, 104, 105, 102, 105, 100, 100, 105, 103]
    );
    assert!(indices.iter().all(|index| (100..106).contains(index)));
    let mut empty = Vec::new();
    push_ring_indices(&mut empty, 0, 5, 0);
    assert!(empty.is_empty());
}

#[test]
fn billboard_cards_are_two_fan_triangles() {
    let mut indices = Vec::new();
    push_card_indices(&mut indices, 8);
    assert_eq!(indices, vec![8, 9, 10, 8, 10, 11]);
}

#[test]
fn river_cells_are_independent_quads() {
    let indices = ribbon_indices(2);
    assert_eq!(indices, vec![0, 1, 3, 0, 3, 2, 4, 5, 7, 4, 7, 6]);
    assert!(ribbon_indices(0).is_empty());
}

#[test]
fn core_grid_side_is_recovered_from_the_vertex_count() {
    // n * n core vertices followed by a 4 * (n - 1) skirt ring.
    for n in [2usize, 3, 17, 33, 129] {
        assert_eq!(core_grid_resolution(n * n + 4 * (n - 1)), n);
    }
    assert_eq!(core_grid_resolution(0), 0);
}

#[test]
fn cell_corners_are_row_major_neighbours() {
    assert_eq!(cell_corners(1, 2, 4), [6, 7, 10, 11]);
    assert_eq!(cell_corners(0, 0, 2), [0, 1, 2, 3]);
}
