use rand::rngs::StdRng;
use rand::SeedableRng;
use red_black_knights::model::GameDefinition;
use red_black_knights::mutate::{
    attack_extent, move_extent, reflect_across_x_axis, reflect_across_y_axis, rotate_ccw,
    rotate_cw, shared_attack_extent_for_armies, shift_attacks, toggle_random_attack_square,
    toggle_random_blocked_by, toggle_square,
};

#[test]
fn shift_wrap_preserves_count_and_radius() {
    let mut moves = vec![(1, 0), (0, 2)];
    let n = moves.len();
    let r = move_extent(&moves);
    shift_attacks(&mut moves, 0, 1, None);
    assert_eq!(moves.len(), n);
    assert_eq!(move_extent(&moves), r);
    assert!(!moves.iter().any(|&m| m == (0, 0)));
}

#[test]
fn toggle_never_leaves_empty_pattern() {
    let mut moves = vec![(1, 0)];
    let mut rng = StdRng::seed_from_u64(1);
    toggle_square(&mut moves, 1, 0);
    assert_eq!(moves, vec![(1, 0)]);
    toggle_random_attack_square(&mut moves, &mut rng);
    assert!(!moves.is_empty());
}

#[test]
fn toggling_adds_then_removes_a_square() {
    let mut moves = vec![(1, 0)];
    toggle_square(&mut moves, -2, 3);
    assert_eq!(moves, vec![(-2, 3), (1, 0)]);
    toggle_square(&mut moves, 1, 0);
    assert_eq!(moves, vec![(-2, 3)]);
    toggle_square(&mut moves, 0, 0);
    assert_eq!(moves, vec![(-2, 3)]);
}

#[test]
fn rigid_transforms_map_every_move() {
    let mut m = vec![(2, 1)];
    reflect_across_x_axis(&mut m);
    assert_eq!(m, vec![(2, -1)]);
    reflect_across_y_axis(&mut m);
    assert_eq!(m, vec![(-2, -1)]);
    rotate_cw(&mut m);
    assert_eq!(m, vec![(-1, 2)]);
    rotate_ccw(&mut m);
    assert_eq!(m, vec![(-2, -1)]);
}

#[test]
fn extents_measure_the_widest_move() {
    assert_eq!(move_extent(&[]), 1);
    assert_eq!(move_extent(&[(3, -4), (1, 1)]), 4);
    assert_eq!(attack_extent(&[(0, 0)]), 1);
    let def = GameDefinition::king_knight_2_pairwise();
    assert_eq!(shared_attack_extent_for_armies(&def.pieces, &[0, 1]), 2);
    assert_eq!(shared_attack_extent_for_armies(&def.pieces, &[]), 1);
}

#[test]
fn random_blocked_by_toggle_picks_another_piece() {
    let mut def = GameDefinition::knight_3_clique();
    let mut rng = StdRng::seed_from_u64(3);
    let before = def.pieces[0].blocked_by.clone();
    toggle_random_blocked_by(&mut def.pieces[0], 0, 3, &mut rng);
    let after = &def.pieces[0].blocked_by;
    assert_ne!(&before, after);
    assert!(!after.contains(&0));
    let mut lone = GameDefinition::knight_2_pairwise();
    let kept = lone.pieces[0].blocked_by.clone();
    toggle_random_blocked_by(&mut lone.pieces[0], 0, 1, &mut rng);
    assert_eq!(lone.pieces[0].blocked_by, kept);
}

#[test]
fn shift_onto_the_origin_drops_that_move() {
    let mut moves = vec![(0, -1), (2, 2)];
    shift_attacks(&mut moves, 0, 1, None);
    assert_eq!(moves, vec![(2, -2)]);
}

#[test]
fn shift_keeps_count_when_nothing_lands_on_the_origin() {
    let mut moves = vec![(-2, 1), (1, 1), (2, -2)];
    shift_attacks(&mut moves, 1, 0, None);
    assert_eq!(moves, vec![(-2, -2), (-1, 1), (2, 1)]);
    assert_eq!(moves.len(), 3);
}

#[test]
fn toggling_the_only_move_keeps_it() {
    let mut moves = vec![(3, 0)];
    toggle_square(&mut moves, 3, 0);
    assert_eq!(moves, vec![(3, 0)]);
    toggle_square(&mut moves, 0, 0);
    assert_eq!(moves, vec![(3, 0)]);
    toggle_square(&mut moves, 1, 1);
    assert_eq!(moves, vec![(1, 1), (3, 0)]);
    toggle_square(&mut moves, 3, 0);
    assert_eq!(moves, vec![(1, 1)]);
}

#[test]
fn rotating_back_and_reflecting_twice_restore_the_pattern() {
    let original = vec![(-2, 1), (1, 2), (3, -1)];
    let mut moves = original.clone();
    rotate_cw(&mut moves);
    assert_eq!(moves, vec![(-1, -3), (1, 2), (2, -1)]);
    rotate_ccw(&mut moves);
    assert_eq!(moves, original);
    reflect_across_x_axis(&mut moves);
    reflect_across_x_axis(&mut moves);
    assert_eq!(moves, original);
    reflect_across_y_axis(&mut moves);
    assert_eq!(moves, vec![(-3, -1), (-1, 2), (2, 1)]);
    reflect_across_y_axis(&mut moves);
    assert_eq!(moves, original);
}

#[test]
fn toggling_twice_restores_the_pattern() {
    let original = vec![(1, 2), (3, 0)];
    let mut moves = original.clone();
    toggle_square(&mut moves, 2, 2);
    toggle_square(&mut moves, 2, 2);
    assert_eq!(moves, original);
    toggle_square(&mut moves, 1, 2);
    assert_eq!(moves, vec![(3, 0)]);
    toggle_square(&mut moves, 1, 2);
    assert_eq!(moves, original);
}

#[test]
fn transforms_accept_i32_min_in_the_coordinate_they_keep() {
    let mut m = vec![(i32::MIN, 1)];
    reflect_across_x_axis(&mut m);
    assert_eq!(m, vec![(i32::MIN, -1)]);
    let mut m = vec![(1, i32::MIN)];
    reflect_across_y_axis(&mut m);
    assert_eq!(m, vec![(-1, i32::MIN)]);
    let mut m = vec![(1, i32::MIN)];
    rotate_cw(&mut m);
    assert_eq!(m, vec![(i32::MIN, -1)]);
    let mut m = vec![(i32::MIN, 1)];
    rotate_ccw(&mut m);
    assert_eq!(m, vec![(-1, i32::MIN)]);
    let mut m = vec![(1, i32::MIN), (2, 3)];
    rotate_cw(&mut m);
    rotate_ccw(&mut m);
    assert_eq!(m, vec![(1, i32::MIN), (2, 3)]);
}
