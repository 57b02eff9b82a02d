use red_black_knights::app_profile::{
    flush_frame, label_index, labels, note_scope_ns, AppProfileFrame, AppProfileTotals,
};
use red_black_knights::calibration_config::smoke_test_mode;
use red_black_knights::index_order::VisitOrder;
use red_black_knights::model::GameDefinition;
use red_black_knights::place_profile::{ForbiddenInsertHarness, OccupancyInsertHarness, PlaceProfiler};
use red_black_knights::sim::Simulation;
use red_black_knights::sim_worker::{display_from_sim, SimDisplay};
use red_black_knights::viewport::{
    grid_bounds_from_placements, grid_texture_size, spiral_target_index_for_bounds,
    visit_target_index_for_bounds, GridBounds,
};

#[test]
fn profiler_counts_only_while_enabled() {
    let mut p = PlaceProfiler::new();
    assert!(!p.profiling_active());
    assert!(p.timing_enabled_for_place());
    p.add_scan_cells(5);
    assert_eq!(p.work.scan_cells_examined, 0);
    p.set_profiling_enabled(true);
    p.add_scan_cells(5);
    p.note_placement_work(8, 2);
    p.note_forbidden_or_new_word();
    p.note_forbidden_or_existing_word(true);
    p.push_forbidden_record(1, 42);
    assert_eq!(p.work.scan_cells_examined, 5);
    assert_eq!(p.work.forbidden_bit_inserts, 16);
    assert_eq!(p.work.forbidden_word_grows, 1);
    let stats = p.take_forbidden_insert_stats();
    assert_eq!((stats.calls, stats.grow_new_word, stats.bit_already_set), (2, 1, 1));
    assert_eq!(p.take_forbidden_records(), vec![(1, 42)]);
    p.add_step_turn_ns(7);
    assert_eq!(p.take_timing().step_turn_ns, 7);
    let work = p.take_work();
    assert_eq!(work.placements, 1);
    assert_eq!(p.work.placements, 0);
    p.set_timing_enabled(false);
    p.add_place_total_ns(3);
    assert_eq!(p.timing.place_total_ns, 0);
}

#[test]
fn harnesses_mirror_the_hot_structures() {
    let mut occ = OccupancyInsertHarness::new();
    occ.insert(5, 2);
    assert_eq!(occ.len(), 6);
    occ.insert(1, 0);
    assert_eq!(occ.len(), 6);
    let mut bits = ForbiddenInsertHarness::default();
    bits.insert(130);
    bits.insert(3);
}

#[test]
fn app_profile_folds_frames() {
    assert_eq!(labels()[4], "display_clone");
    assert_eq!(label_index("render_raster"), Some(1));
    assert_eq!(label_index("nope"), None);
    let mut totals = AppProfileTotals::default();
    let mut frame = AppProfileFrame::default();
    note_scope_ns("sync_viewport", &mut frame, 10);
    note_scope_ns("nope", &mut frame, 99);
    flush_frame(&mut totals, &mut frame, 4);
    assert_eq!(totals.frames, 1);
    assert_eq!(totals.ns, [10, 0, 0, 0, 4]);
    assert_eq!(frame.ns, [0; 5]);
}

#[test]
fn smoke_test_flag_is_found_anywhere() {
    assert!(smoke_test_mode(&["prog".to_string(), "--smoke-test".to_string()]));
    assert!(!smoke_test_mode(&["prog".to_string()]));
}

#[test]
fn display_snapshot_mirrors_the_simulation() {
    let def = GameDefinition::knight_2_pairwise();
    let mut sim = Simulation::new(&def, VisitOrder::default());
    for _ in 0..4 {
        sim.step_turn(&def);
    }
    let d = display_from_sim(&sim);
    assert_eq!(d.cursors, sim.cursors);
    assert_eq!(d.placements.as_slice(), sim.placements.as_slice());
    assert_eq!(d.turn_step, 4);
    assert_eq!(d.occupancy.piece_id_at(3), Some(1));
    let empty = SimDisplay::default();
    assert!(empty.placements.is_empty());
}

#[test]
fn grid_bounds_measure_and_intersect() {
    let a = GridBounds { min_x: -2, max_x: 2, min_y: 0, max_y: 3 };
    assert_eq!(a.cell_width(), 5);
    assert_eq!(a.cell_height(), 4);
    assert_eq!(a.cell_count(), 20);
    let b = GridBounds { min_x: 1, max_x: 9, min_y: -5, max_y: 1 };
    assert_eq!(a.intersect(b), Some(GridBounds { min_x: 1, max_x: 2, min_y: 0, max_y: 1 }));
    let far = GridBounds { min_x: 10, max_x: 12, min_y: 0, max_y: 1 };
    assert_eq!(a.intersect(far), None);
    assert_eq!(grid_texture_size(GridBounds { min_x: 3, max_x: 1, min_y: 0, max_y: 0 }), (1, 1));
    let around = grid_bounds_from_placements(&[(1, 0)], VisitOrder::SquareSpiral, 0);
    assert_eq!(around, GridBounds { min_x: 1, max_x: 1, min_y: 0, max_y: 0 });
}

#[test]
fn target_index_covers_the_visible_border() {
    let b = GridBounds { min_x: -1, max_x: 1, min_y: -1, max_y: 1 };
    // The 3×3 block holds indices 0..=8 on the square spiral.
    assert_eq!(spiral_target_index_for_bounds(b), 8 + 24);
    assert_eq!(visit_target_index_for_bounds(b, VisitOrder::SquareSpiral), 32);
}
