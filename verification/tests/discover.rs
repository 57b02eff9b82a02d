use red_black_knights::discover::{
    bounds_from_placements, fit_output_cell_scale, iteration_seed, max_placement_index,
    placement_checksum, sanitize_cell_pixel_scale, simulate, square_bounds, BOUNDS_PADDING,
    DEFAULT_CELL_PIXEL_SCALE,
};
use red_black_knights::index_order::VisitOrder;
use red_black_knights::model::GameDefinition;
use red_black_knights::sim::Simulation;
use red_black_knights::viewport::GridBounds;

#[test]
fn knight_pairwise_grid_grows_with_target_index() {
    let def = GameDefinition::knight_2_pairwise();
    let mut sim = Simulation::new(&def, VisitOrder::default());
    sim.advance_to_target(&def, 50_000);
    let bounds = bounds_from_placements(sim.placements.as_slice(), BOUNDS_PADDING);
    assert!(bounds.cell_width() > 200);
    assert!(bounds.cell_height() > 200);
}

#[test]
fn cell_scale_is_clamped_and_fits_the_output_edge() {
    assert_eq!(sanitize_cell_pixel_scale(0), 1);
    assert_eq!(sanitize_cell_pixel_scale(99), 32);
    assert_eq!(sanitize_cell_pixel_scale(7), 7);
    assert_eq!(fit_output_cell_scale(100, 50, 16), 16);
    assert_eq!(fit_output_cell_scale(1000, 50, 16), 8);
    assert_eq!(fit_output_cell_scale(20_000, 10, 16), 1);
    assert_eq!(fit_output_cell_scale(0, 0, 0), 1);
}

#[test]
fn checksum_and_max_index_of_small_histories() {
    assert_eq!(placement_checksum(&[]), 0xcbf2_9ce4_8422_2325);
    let one = [(1u32, 1usize)];
    let expected = (0xcbf2_9ce4_8422_2325u64 ^ ((1u64 << 8) ^ 1)).wrapping_mul(0x0000_0100_0000_01b3);
    assert_eq!(placement_checksum(&one), expected);
    assert_eq!(max_placement_index(&[]), 0);
    assert_eq!(max_placement_index(&[(4, 0), (9, 1), (2, 0)]), 9);
}

#[test]
fn bounds_cover_placements_with_padding() {
    assert_eq!(bounds_from_placements(&[], 2), GridBounds { min_x: -2, max_x: 2, min_y: -2, max_y: 2 });
    // Indices 1 and 4 sit at (1, 0) and (-1, 1) on the spiral.
    let b = bounds_from_placements(&[(1, 0), (4, 1)], 2);
    assert_eq!(b, GridBounds { min_x: -3, max_x: 3, min_y: -2, max_y: 3 });
    let s = square_bounds(5);
    assert_eq!(s, GridBounds { min_x: -5, max_x: 5, min_y: -5, max_y: 5 });
}

#[test]
fn simulate_summarises_the_run() {
    let def = GameDefinition::knight_2_pairwise();
    let (sim, meta) = simulate(&def, 0, 16);
    assert_eq!(meta.placements, 16);
    assert_eq!(meta.turn_step, 16);
    assert_eq!(meta.checksum, placement_checksum(sim.placements.as_slice()));
    assert!(meta.settled);
    assert_eq!(meta.max_placement_index, 25);
    assert_eq!(meta.cell_pixel_scale, DEFAULT_CELL_PIXEL_SCALE);
    assert_eq!(meta.image_pixels[0], meta.grid_cells[0] * DEFAULT_CELL_PIXEL_SCALE);

    let (sim2, meta2) = simulate(&def, 200, 0);
    assert!(meta2.settled);
    assert!(!sim2.needs_work(&def, 200));
    assert_eq!(meta2.target_index, 200);
}

#[test]
fn iteration_seeds_differ_per_iteration() {
    assert_ne!(iteration_seed(99, 0), iteration_seed(99, 1));
    assert_eq!(iteration_seed(0, 1), 0x9E37_79B9_7F4A_7C15);
}
