use red_black_knights::index_order::VisitOrder;
use red_black_knights::model::GameDefinition;
use red_black_knights::place_profile::PlaceProfiler;
use red_black_knights::sim::{profile_has_room, Simulation};

fn profiling() -> PlaceProfiler {
    let mut p = PlaceProfiler::new();
    p.set_profiling_enabled(true);
    p
}

#[test]
fn profiled_turns_place_like_plain_turns() {
    let def = GameDefinition::knight_3_clique();
    let mut plain = Simulation::new(&def, VisitOrder::default());
    let mut profiled = Simulation::new(&def, VisitOrder::default());
    let mut p = profiling();
    for _ in 0..500 {
        assert!(plain.step_turn(&def));
        assert!(profiled.step_turn_profiled(&def, &mut p));
    }
    assert_eq!(plain.placement_entries(), profiled.placement_entries());
    assert_eq!(plain.cursor_slice(), profiled.cursor_slice());
    assert_eq!(p.work.placements, 500);
    assert_eq!(p.work.valid_move_steps, 500 * 8);
    assert_eq!(p.work.xy_to_index_calls, 500 * 8);
    assert_eq!(p.work.forbidden_bit_inserts, 500 * 8);
    assert_eq!(p.forbidden_records.len(), 500 * 8);
    assert_eq!(p.work.scan_cells_examined, p.work.scan_single_step_rejects + 500);
}

#[test]
fn first_turns_count_cells_and_attacks() {
    let def = GameDefinition::knight_2_pairwise();
    let order = VisitOrder::SquareSpiral;
    let mut sim = Simulation::new(&def, order);
    let mut p = profiling();

    // Piece 0 takes the origin at once.
    assert!(sim.step_turn_profiled(&def, &mut p));
    assert_eq!(sim.placement_entries(), &[(0, 0)]);
    assert_eq!(p.work.scan_cells_examined, 1);
    assert_eq!(p.work.scan_single_step_rejects, 0);
    assert_eq!(p.work.placements, 1);
    assert_eq!(p.work.occupancy_grows, 1);
    let expected: Vec<(usize, u32)> = def.pieces[0]
        .piece
        .valid_moves
        .iter()
        .map(|&(dx, dy)| (0, order.xy_to_index(dx, dy)))
        .collect();
    assert_eq!(p.forbidden_records, expected);

    // Piece 1 steps past the occupied origin and takes index 1.
    assert!(sim.step_turn_profiled(&def, &mut p));
    assert_eq!(sim.placement_entries(), &[(0, 0), (1, 1)]);
    assert_eq!(p.work.scan_cells_examined, 3);
    assert_eq!(p.work.scan_single_step_rejects, 1);
    assert_eq!(p.work.placements, 2);
    assert_eq!(p.work.occupancy_grows, 2);
    assert_eq!(p.forbidden_records.len(), 16);
}

#[test]
fn disabled_profiler_is_left_alone() {
    let def = GameDefinition::knight_2_pairwise();
    let mut sim = Simulation::new(&def, VisitOrder::default());
    let mut p = PlaceProfiler::new();
    for _ in 0..10 {
        assert!(sim.step_turn_profiled(&def, &mut p));
    }
    assert_eq!(sim.placement_entries().len(), 10);
    assert_eq!(p.work.placements, 0);
    assert_eq!(p.work.scan_cells_examined, 0);
    assert!(p.forbidden_records.is_empty());
}

#[test]
fn replay_takes_recorded_cells_in_order() {
    let def = GameDefinition::leaper_4_mixed_clique();
    let order = VisitOrder::default();
    let mut source = Simulation::new(&def, order);
    for _ in 0..200 {
        assert!(source.step_turn(&def));
    }
    let mut replay = Simulation::new(&def, order);
    let mut p = profiling();
    for &(index, piece_id) in source.placement_entries() {
        let xy = order.index_to_xy(index);
        assert!(replay.replay_place_profiled(&def, index, xy, piece_id, &mut p));
    }
    assert_eq!(replay.placement_entries(), source.placement_entries());
    assert_eq!(p.work.placements, 200);
    assert_eq!(p.work.scan_cells_examined, 0);
    // Replaying never moves cursors or turns.
    assert!(replay.cursor_slice().iter().all(|&c| c == 0));
    assert_eq!(replay.steps_taken(), 0);
}

#[test]
fn replay_refuses_illegal_or_mismatched_cells() {
    let def = GameDefinition::knight_2_pairwise();
    let order = VisitOrder::SquareSpiral;
    let mut sim = Simulation::new(&def, order);
    let mut p = profiling();
    assert!(sim.replay_place_profiled(&def, 0, (0, 0), 0, &mut p));
    // Occupied.
    assert!(!sim.replay_place_profiled(&def, 0, (0, 0), 1, &mut p));
    // Attacked by the knight on the origin, which piece 1 respects.
    let attacked = order.xy_to_index(1, 2);
    assert!(!sim.replay_place_profiled(&def, attacked, (1, 2), 1, &mut p));
    // Cell does not belong to the index.
    assert!(!sim.replay_place_profiled(&def, 1, (5, 5), 1, &mut p));
    // No such piece.
    assert!(!sim.replay_place_profiled(&def, 1, order.index_to_xy(1), 7, &mut p));
    assert_eq!(sim.placement_entries(), &[(0, 0)]);
    assert_eq!(p.work.placements, 1);
    assert_eq!(p.forbidden_records.len(), 8);
}

#[test]
fn near_lookup_stops_at_the_bound() {
    let order = VisitOrder::SquareSpiral;
    assert_eq!(order.near_xy_to_index(0, 0), Some(0));
    assert_eq!(order.near_xy_to_index(1, 0), Some(1));
    assert_eq!(order.near_xy_to_index(16_383, -16_383), Some(order.xy_to_index(16_383, -16_383)));
    assert_eq!(order.near_xy_to_index(16_384, 0), None);
    assert_eq!(VisitOrder::DiamondRings.near_xy_to_index(0, -16_384), None);
    assert_eq!(VisitOrder::DiamondRings.near_xy_to_index(-1, 0), Some(1));
}

#[test]
fn room_check_follows_the_counters() {
    let def = GameDefinition::knight_2_pairwise();
    let mut p = profiling();
    assert!(profile_has_room(&p, &def));
    p.work.scan_cells_examined = u64::MAX;
    assert!(!profile_has_room(&p, &def));
    p.work.scan_cells_examined = 0;
    p.work.valid_move_steps = u64::MAX - 7;
    assert!(!profile_has_room(&p, &def));
    p.work.valid_move_steps = u64::MAX - 8;
    assert!(profile_has_room(&p, &def));
}
