use red_black_knights::index_order::VisitOrder;
use red_black_knights::model::GameDefinition;
use red_black_knights::sim::Simulation;
use red_black_knights::sim_worker::{display_from_sim, supersedes, BridgeState, SimDisplay};

#[test]
fn advance_requests_wait_for_the_job_in_flight() {
    let mut b = BridgeState::new();
    assert!(!b.is_busy());
    assert_eq!(b.request_advance(), Some(1));
    assert!(b.is_busy());
    assert_eq!(b.request_advance(), None);
    assert_eq!(b.active_job_id, 1);
    assert_eq!(b.start_advance(), 2);
    assert_eq!(b.active_job_id, 2);
    b.note_update(false);
    assert!(b.is_busy());
    b.note_update(true);
    assert!(!b.is_busy());
    assert_eq!(b.request_advance(), Some(3));
}

#[test]
fn resets_use_up_a_job_id_and_clear_the_flight() {
    let mut b = BridgeState::new();
    b.start_advance();
    b.note_reset();
    assert!(!b.is_busy());
    assert_eq!(b.next_job_id, 2);
    assert_eq!(b.active_job_id, 1);
    assert_eq!(b.start_advance(), 3);
    b.note_disconnected();
    assert!(!b.is_busy());
    assert_eq!(b.next_job_id, 3);
}

#[test]
fn only_newer_requests_supersede() {
    assert!(supersedes(5, 4, None));
    assert!(!supersedes(4, 4, None));
    assert!(!supersedes(3, 4, None));
    assert!(supersedes(7, 4, Some(6)));
    assert!(!supersedes(6, 4, Some(6)));
    assert!(!supersedes(5, 4, Some(6)));
}

#[test]
fn display_needs_work_follows_enabled_cursors() {
    let mut def = GameDefinition::knight_2_pairwise();
    let empty = SimDisplay::default();
    assert!(!empty.needs_work(&def, 100));
    let mut sim = Simulation::new(&def, VisitOrder::default());
    for _ in 0..10 {
        assert!(sim.step_turn(&def));
    }
    let display = display_from_sim(&sim);
    let max_cursor = *display.cursors.iter().max().unwrap();
    let min_cursor = *display.cursors.iter().min().unwrap();
    assert!(display.needs_work(&def, max_cursor));
    assert!(display.needs_work(&def, min_cursor));
    assert!(!display.needs_work(&def, min_cursor - 1));
    def.pieces[0].enabled = false;
    def.pieces[1].enabled = false;
    assert!(!display.needs_work(&def, u32::MAX));
    assert_eq!(display.needs_work(&def, 5), sim.needs_work(&def, 5));
}
