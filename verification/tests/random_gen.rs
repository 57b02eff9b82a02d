use rand::rngs::StdRng;
use rand::SeedableRng;
use red_black_knights::random_gen::{
    apply_attack_symmetry, chebyshev, eligible_attack_seeds, finish_attack_pattern,
    game_from_parts, generated_piece_name, is_canonical_attack_seed, normalize_nonzero,
    random_piece_count, sanitize_count_bounds, sanitize_radius_bounds, shuffled_turn_order,
    AttackSymmetry,
};
use red_black_knights::model::PieceDef;

#[test]
fn vertical_symmetry_pairs_moves() {
    let mut moves = vec![(2, 1)];
    apply_attack_symmetry(&mut moves, AttackSymmetry::Vertical);
    assert!(moves.contains(&(-2, 1)));
}

#[test]
fn both_symmetry_fills_quadrants() {
    let mut moves = vec![(2, 1)];
    apply_attack_symmetry(&mut moves, AttackSymmetry::Both);
    assert!(moves.contains(&(-2, 1)));
    assert!(moves.contains(&(2, -1)));
    assert!(moves.contains(&(-2, -1)));
}

#[test]
fn canonical_seeds_cover_each_orbit_once() {
    assert!(is_canonical_attack_seed(2, 1, AttackSymmetry::Both));
    assert!(!is_canonical_attack_seed(-2, 1, AttackSymmetry::Both));
    assert!(is_canonical_attack_seed(2, 0, AttackSymmetry::Vertical));
    assert!(!is_canonical_attack_seed(-2, 0, AttackSymmetry::Vertical));
    assert!(is_canonical_attack_seed(0, 3, AttackSymmetry::Horizontal));
    assert!(!is_canonical_attack_seed(0, -3, AttackSymmetry::Horizontal));
}

#[test]
fn sanitized_bounds_are_ordered_and_positive() {
    assert_eq!(sanitize_count_bounds(8, 2), (2, 8));
    assert_eq!(sanitize_radius_bounds(5, 1), (1, 5));
    assert_eq!(sanitize_count_bounds(0, 0), (1, 1));
    assert_eq!(sanitize_radius_bounds(-3, -7), (1, 1));
}

#[test]
fn symmetry_labels_and_default() {
    let labels: Vec<&str> = AttackSymmetry::ALL.iter().map(|s| s.label()).collect();
    assert_eq!(labels, vec!["None", "Vertical", "Horizontal", "Both"]);
    assert_eq!(AttackSymmetry::default(), AttackSymmetry::Asymmetric);
}

#[test]
fn asymmetric_leaves_moves_untouched_and_others_normalise() {
    let mut moves = vec![(3, 0), (0, 0), (1, 1), (1, 1)];
    apply_attack_symmetry(&mut moves, AttackSymmetry::Asymmetric);
    assert_eq!(moves, vec![(3, 0), (0, 0), (1, 1), (1, 1)]);
    let mut moves = vec![(3, 0), (0, 0), (1, 1), (1, 1)];
    apply_attack_symmetry(&mut moves, AttackSymmetry::Horizontal);
    assert_eq!(moves, vec![(1, -1), (1, 1), (3, 0)]);
    let mut moves = vec![(0, 0), (2, 2), (-1, 0), (2, 2)];
    normalize_nonzero(&mut moves);
    assert_eq!(moves, vec![(-1, 0), (2, 2)]);
}

#[test]
fn eligible_seeds_respect_radii_and_orbits() {
    let seeds = eligible_attack_seeds(2, 2, AttackSymmetry::Asymmetric);
    assert_eq!(seeds.len(), 16);
    assert!(seeds.iter().all(|&(x, y)| chebyshev(x, y) == 2));
    assert_eq!(seeds[0], (-2, -2));
    let both = eligible_attack_seeds(1, 2, AttackSymmetry::Both);
    assert!(both.iter().all(|&(x, y)| is_canonical_attack_seed(x, y, AttackSymmetry::Both)));
    assert_eq!(both.len(), 8);
}

#[test]
fn finished_pattern_falls_back_to_a_single_leap() {
    assert_eq!(finish_attack_pattern(vec![], 2, AttackSymmetry::Asymmetric), vec![(2, 0)]);
    assert_eq!(finish_attack_pattern(vec![], 2, AttackSymmetry::Vertical), vec![(-2, 0), (2, 0)]);
    assert_eq!(
        finish_attack_pattern(vec![(1, 2)], 1, AttackSymmetry::Both),
        vec![(-1, -2), (-1, 2), (1, -2), (1, 2)]
    );
    assert_eq!(finish_attack_pattern(vec![], 0, AttackSymmetry::Both), Vec::<(i32, i32)>::new());
}

#[test]
fn generated_games_are_cliques_in_a_permuted_order() {
    let mut rng = StdRng::seed_from_u64(42);
    let n = random_piece_count(3, 3, &mut rng);
    assert_eq!(n, 3);
    let order = shuffled_turn_order(n, &mut rng);
    let mut sorted = order.clone();
    sorted.sort();
    assert_eq!(sorted, vec![0, 1, 2]);
    let names = (0..n).map(generated_piece_name).collect::<Vec<_>>();
    assert_eq!(names[2], "Piece 2");
    let pieces = (0..n).map(|_| PieceDef::knight()).collect::<Vec<_>>();
    let def = game_from_parts(names, pieces, order.clone());
    assert_eq!(def.pieces.len(), 3);
    assert_eq!(def.pieces[1].blocked_by, vec![0, 2]);
    assert_eq!(def.turn_order, order);
    for _ in 0..20 {
        let k = random_piece_count(2, 5, &mut rng);
        assert!((2..=5).contains(&k));
    }
}

#[test]
fn vertical_axis_cells_are_their_own_representatives() {
    // (0, y) is its own mirror under vertical symmetry, so each such orbit keeps that cell.
    assert!(is_canonical_attack_seed(0, -3, AttackSymmetry::Vertical));
    assert!(is_canonical_attack_seed(0, 3, AttackSymmetry::Vertical));
    assert!(!is_canonical_attack_seed(-1, -3, AttackSymmetry::Vertical));
    assert!(is_canonical_attack_seed(1, -3, AttackSymmetry::Vertical));
}
