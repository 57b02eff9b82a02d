use red_black_knights::index_order::VisitOrder;
use red_black_knights::model::GameDefinition;
use red_black_knights::sim::Simulation;
use red_black_knights::sim_piece_stats::{piece_stat_counts, piece_stat_totals};
use red_black_knights::sim_worker::display_from_sim;

#[test]
fn stat_counts_match_a_forward_sim() {
    let def = GameDefinition::knight_2_pairwise();
    let mut sim = Simulation::new(&def, VisitOrder::default());
    for _ in 0..500 {
        if !sim.step_turn(&def) {
            break;
        }
    }

    // Independent ground truth from the placement log.
    let mut counts = [0u64; 2];
    let mut first = [None; 2];
    let mut last = [0u32; 2];
    for &(idx, pid) in sim.placements.as_slice() {
        counts[pid] += 1;
        first[pid].get_or_insert(idx);
        last[pid] = idx;
    }

    let display = display_from_sim(&sim);
    let rows = piece_stat_counts(&def, &display);
    assert_eq!(rows.len(), 2);
    let (total_placements, total_scanned) = piece_stat_totals(&def, &display);
    let total: u64 = counts.iter().sum();
    assert_eq!(total_placements, total);
    assert_eq!(
        total_scanned,
        display.cursors.iter().map(|&c| c as u64).sum::<u64>()
    );
    for row in &rows {
        let pid = row.piece_id;
        assert_eq!(row.placements, counts[pid]);
        assert_eq!(row.spiral_reach, Some(last[pid]));
        assert_eq!(row.spiral_span, Some(last[pid] - first[pid].unwrap()));
        let cursor = display.cursors[pid] as u64;
        assert_eq!(row.cells_scanned, cursor);
        assert_eq!(row.cells_skipped, cursor.saturating_sub(counts[pid]));
        let expected_avg = cursor.saturating_sub(counts[pid]) as f64 / counts[pid] as f64;
        assert!((row.cells_skipped as f64 / row.placements as f64 - expected_avg).abs() < 1e-6);
    }
    assert!(rows[0].placements >= rows[1].placements);
}

#[test]
fn disabled_idle_pieces_have_no_row_and_rows_sort_by_placements() {
    let mut def = GameDefinition::knight_3_clique();
    def.pieces[1].enabled = false;
    let mut sim = Simulation::new(&def, VisitOrder::default());
    for _ in 0..5 {
        assert!(sim.step_turn(&def));
    }
    let display = display_from_sim(&sim);
    let rows = piece_stat_counts(&def, &display);
    let ids: Vec<usize> = rows.iter().map(|r| r.piece_id).collect();
    assert_eq!(ids, vec![0, 2]);
    assert_eq!(rows[0].placements, 3);
    assert_eq!(rows[1].placements, 2);
    assert!(rows.iter().all(|r| r.enabled));
}

#[test]
fn pieces_without_placements_report_no_reach() {
    let def = GameDefinition::knight_2_pairwise();
    let sim = Simulation::new(&def, VisitOrder::default());
    let display = display_from_sim(&sim);
    let rows = piece_stat_counts(&def, &display);
    assert_eq!(rows.len(), 2);
    assert_eq!(rows[0].piece_id, 0);
    assert_eq!(rows[1].piece_id, 1);
    for row in &rows {
        assert_eq!(row.placements, 0);
        assert_eq!(row.spiral_reach, None);
        assert_eq!(row.spiral_span, None);
        assert_eq!(row.cells_skipped, 0);
    }
    assert_eq!(piece_stat_totals(&def, &display), (0, 0));
}
