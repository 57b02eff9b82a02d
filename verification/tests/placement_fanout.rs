use red_black_knights::model::GameDefinition;
use red_black_knights::placement_fanout::{
    analyze_placement_fanout, fanout_window, threatened_targets, PlacementFanoutSample,
};

#[test]
fn fanout_counts_distinct_cells_and_repeats() {
    let records = [(0usize, 5u32), (1, 5), (0, 7), (2, 9)];
    assert_eq!(
        analyze_placement_fanout(&records, 0, 3),
        PlacementFanoutSample { unique_attacked_cells: 2, total_inserts: 3, cross_target_duplicates: 1 }
    );
    assert_eq!(
        analyze_placement_fanout(&records, 2, 2),
        PlacementFanoutSample { unique_attacked_cells: 2, total_inserts: 2, cross_target_duplicates: 0 }
    );
    assert_eq!(
        analyze_placement_fanout(&records, 4, 0),
        PlacementFanoutSample { unique_attacked_cells: 0, total_inserts: 0, cross_target_duplicates: 0 }
    );
}

#[test]
fn window_follows_record_offsets_and_stops_at_the_log_end() {
    let records = [(0usize, 1u32), (1, 1), (0, 2), (0, 3), (1, 3), (2, 3)];
    let sizes = [2usize, 1, 3];
    let samples = fanout_window(&records, &sizes, 1, 5);
    assert_eq!(samples.len(), 2);
    assert_eq!(
        samples[0],
        PlacementFanoutSample { unique_attacked_cells: 1, total_inserts: 1, cross_target_duplicates: 0 }
    );
    assert_eq!(
        samples[1],
        PlacementFanoutSample { unique_attacked_cells: 1, total_inserts: 3, cross_target_duplicates: 2 }
    );
    let first = fanout_window(&records, &sizes, 0, 1);
    assert_eq!(first.len(), 1);
    assert_eq!(first[0].cross_target_duplicates, 1);
    assert!(fanout_window(&records, &sizes, 3, 10).is_empty());
}

#[test]
fn threatened_targets_counts_respecting_pieces() {
    assert_eq!(threatened_targets(&GameDefinition::knight_2_pairwise(), 0), 1);
    assert_eq!(threatened_targets(&GameDefinition::knight_3_clique(), 0), 2);
    assert_eq!(threatened_targets(&GameDefinition::knight_3_clique(), 7), 0);
}
