use red_black_knights::index_order::VisitOrder;
use red_black_knights::model::GameDefinition;
use red_black_knights::placement_path::{
    forbidden_skips_to_placement, next_same_piece_after, replay_sim_before_placement,
    same_piece_path_to, scan_skips_to_placement,
};
use red_black_knights::sim::Simulation;

#[test]
fn path_matches_interactive_red_black_early_placements() {
    let def = GameDefinition::knight_2_pairwise();
    let mut sim = Simulation::new(&def, VisitOrder::default());
    for _ in 0..6 {
        sim.step_turn(&def);
    }
    assert_eq!(same_piece_path_to(sim.placements.as_slice(), 3, 1), vec![1, 3]);
    assert_eq!(same_piece_path_to(sim.placements.as_slice(), 2, 0), vec![0, 2]);
    assert_eq!(next_same_piece_after(sim.placements.as_slice(), 2, 0), Some(5));
    assert_eq!(next_same_piece_after(sim.placements.as_slice(), 20, 0), None);
}

#[test]
fn forbidden_skips_replay_matches_scan_preview() {
    let def = GameDefinition::knight_2_pairwise();
    let order = VisitOrder::default();
    let mut sim = Simulation::new(&def, order);
    for turn in 0..32 {
        let expected = sim.forbidden_skips_on_next_scan(&def);
        assert!(sim.step_turn(&def), "turn {turn}");
        let (idx, pid) = sim.placements.as_slice()[turn];
        let replay = forbidden_skips_to_placement(&def, order, &sim.placements.as_slice()[..=turn], idx, pid);
        assert_eq!(replay, expected, "turn {turn} placement ({idx}, {pid})");
    }
}

#[test]
fn scan_skips_replay_matches_scan_preview() {
    let def = GameDefinition::knight_2_pairwise();
    let order = VisitOrder::default();
    let mut sim = Simulation::new(&def, order);
    for turn in 0..32 {
        let expected = sim.scan_skips_on_next_scan(&def);
        assert!(sim.step_turn(&def), "turn {turn}");
        let (idx, pid) = sim.placements.as_slice()[turn];
        let (replay, _) = scan_skips_to_placement(&def, order, &sim.placements.as_slice()[..=turn], idx, pid)
            .expect("replay");
        assert_eq!(replay, expected, "turn {turn} placement ({idx}, {pid})");
    }
}

#[test]
fn path_to_unknown_index_lists_every_placement_of_the_piece() {
    let placements = vec![(0u32, 0usize), (1, 1), (2, 0), (3, 1), (5, 0)];
    assert_eq!(same_piece_path_to(&placements, 99, 0), vec![0, 2, 5]);
    assert_eq!(same_piece_path_to(&placements, 5, 0), vec![0, 2, 5]);
    assert_eq!(same_piece_path_to(&placements, 0, 0), vec![0]);
    assert_eq!(same_piece_path_to(&placements, 3, 7), Vec::<u32>::new());
    assert_eq!(next_same_piece_after(&placements, 5, 0), None);
    assert_eq!(next_same_piece_after(&placements, 1, 1), Some(3));
}

#[test]
fn replay_stops_before_the_turn_that_placed() {
    let def = GameDefinition::knight_2_pairwise();
    let order = VisitOrder::default();
    let mut sim = Simulation::new(&def, order);
    for _ in 0..8 {
        assert!(sim.step_turn(&def));
    }
    let placements = sim.placements.as_slice().to_vec();
    let before = replay_sim_before_placement(&def, order, &placements, placements[5].0, placements[5].1)
        .expect("replayable");
    assert_eq!(before.placements.as_slice(), &placements[..5]);
    assert_eq!(before.turn_step, 5);
    assert!(replay_sim_before_placement(&def, order, &placements, 7, 1).is_none());
    assert!(forbidden_skips_to_placement(&def, order, &placements, 7, 1).is_empty());
}
