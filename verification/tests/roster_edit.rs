use red_black_knights::model::GameDefinition;
use red_black_knights::roster_edit::{
    apply_attack_square, attack_square_on, clamp_piece_index, clear_attack_squares, dedupe_moves,
    duplicate_piece, move_grid_radius, remove_piece, set_attack_square,
};

#[test]
fn removing_a_piece_renumbers_blockers_and_turns() {
    let mut def = GameDefinition::knight_3_clique();
    let names: Vec<String> = def.pieces.iter().map(|p| p.name.clone()).collect();
    remove_piece(&mut def, 1);
    assert_eq!(def.pieces.len(), 2);
    assert_eq!(def.pieces[0].name, names[0]);
    assert_eq!(def.pieces[1].name, names[2]);
    assert_eq!(def.pieces[0].blocked_by, vec![1]);
    assert_eq!(def.pieces[1].blocked_by, vec![0]);
    assert_eq!(def.turn_order, vec![0, 1]);
}

#[test]
fn removing_the_last_piece_clears_the_turn_order() {
    let mut def = GameDefinition::knight_2_pairwise();
    remove_piece(&mut def, 0);
    assert_eq!(def.pieces.len(), 1);
    assert!(def.pieces[0].blocked_by.is_empty());
    assert_eq!(def.turn_order, vec![0]);
    remove_piece(&mut def, 0);
    assert!(def.pieces.is_empty());
    assert!(def.turn_order.is_empty());
}

#[test]
fn removing_past_the_roster_changes_nothing() {
    let mut def = GameDefinition::knight_2_pairwise();
    remove_piece(&mut def, 2);
    assert_eq!(def.pieces.len(), 2);
    assert_eq!(def.turn_order, vec![0, 1]);
}

#[test]
fn duplicating_a_piece_copies_it_and_its_respecters() {
    let mut def = GameDefinition::knight_2_pairwise();
    let name0 = def.pieces[0].name.clone();
    assert_eq!(duplicate_piece(&mut def, 0), Some(2));
    assert_eq!(def.pieces.len(), 3);
    assert_eq!(def.pieces[2].name, format!("{name0} copy"));
    assert_eq!(def.pieces[2].piece.valid_moves, def.pieces[0].piece.valid_moves);
    assert_eq!(def.pieces[2].blocked_by, vec![1]);
    assert_eq!(def.pieces[0].blocked_by, vec![1]);
    assert_eq!(def.pieces[1].blocked_by, vec![0, 2]);
    assert_eq!(def.turn_order, vec![0, 1, 2]);
    assert_eq!(duplicate_piece(&mut def, 9), None);
    assert_eq!(def.pieces.len(), 3);
}

#[test]
fn clamp_piece_index_stays_on_the_roster() {
    assert_eq!(clamp_piece_index(5, 3), 2);
    assert_eq!(clamp_piece_index(1, 3), 1);
    assert_eq!(clamp_piece_index(4, 0), 0);
}

#[test]
fn attack_squares_switch_on_and_off() {
    let mut moves = vec![(2, 1), (1, 2)];
    set_attack_square(&mut moves, 0, 3, true);
    assert_eq!(moves, vec![(0, 3), (1, 2), (2, 1)]);
    set_attack_square(&mut moves, 0, 3, true);
    assert_eq!(moves, vec![(0, 3), (1, 2), (2, 1)]);
    set_attack_square(&mut moves, 1, 2, false);
    assert_eq!(moves, vec![(0, 3), (2, 1)]);
    set_attack_square(&mut moves, 7, 7, false);
    assert_eq!(moves, vec![(0, 3), (2, 1)]);
}

#[test]
fn apply_attack_square_reports_changes_and_syncs() {
    let mut def = GameDefinition::knight_2_pairwise();
    assert!(attack_square_on(&def.pieces, 0, 1, 2));
    assert!(!apply_attack_square(&mut def.pieces, 0, 1, 2, true, false));
    assert!(apply_attack_square(&mut def.pieces, 0, 3, 3, true, false));
    assert!(attack_square_on(&def.pieces, 0, 3, 3));
    assert!(!attack_square_on(&def.pieces, 1, 3, 3));
    assert!(apply_attack_square(&mut def.pieces, 1, 4, 4, true, true));
    assert!(attack_square_on(&def.pieces, 0, 4, 4));
    assert!(attack_square_on(&def.pieces, 1, 4, 4));
    assert!(apply_attack_square(&mut def.pieces, 0, 1, 2, false, false));
    assert!(!attack_square_on(&def.pieces, 0, 1, 2));
    assert!(attack_square_on(&def.pieces, 1, 1, 2));
}

#[test]
fn clearing_attack_squares() {
    let mut def = GameDefinition::knight_3_clique();
    clear_attack_squares(&mut def.pieces, 1, false);
    assert!(def.pieces[1].piece.valid_moves.is_empty());
    assert_eq!(def.pieces[0].piece.valid_moves.len(), 8);
    clear_attack_squares(&mut def.pieces, 0, true);
    assert!(def.pieces.iter().all(|p| p.piece.valid_moves.is_empty()));
}

#[test]
fn dedupe_sorts_and_drops_repeats() {
    let mut def = GameDefinition::knight_2_pairwise();
    def.pieces[0].piece.valid_moves = vec![(2, 1), (-1, 0), (2, 1), (-1, -5)];
    dedupe_moves(&mut def);
    assert_eq!(def.pieces[0].piece.valid_moves, vec![(-1, -5), (-1, 0), (2, 1)]);
    assert_eq!(def.pieces[1].piece.valid_moves.len(), 8);
    assert_eq!(def.turn_order, vec![0, 1]);
}

#[test]
fn grid_radius_covers_moves_and_minimum() {
    assert_eq!(move_grid_radius(&[], 4), 4);
    assert_eq!(move_grid_radius(&[], 0), 1);
    assert_eq!(move_grid_radius(&[(5, 1), (-2, 3)], 4), 5);
    assert_eq!(move_grid_radius(&[(1, 2)], 4), 4);
}
