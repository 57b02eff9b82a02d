use red_black_knights::discover_catalog::{
    catalog_len, game_at, recipe_for_iteration, recipe_id, recipe_label, recipe_meta,
};
use red_black_knights::model::PieceDef;

#[test]
fn catalog_includes_knight_pairwise() {
    let idx = (0..catalog_len())
        .find(|&i| {
            recipe_meta(i)
                .map(|(id, _)| id == "pairwise_knight_vs_knight")
                .unwrap_or(false)
        })
        .unwrap();
    let def = game_at(idx).unwrap();
    assert_eq!(def.pieces.len(), 2);
    assert_eq!(def.pieces[0].piece, PieceDef::knight());
}

#[test]
fn catalog_len_matches_sections() {
    assert_eq!(catalog_len(), 256 + 64 + 12);
}

#[test]
fn catalog_sections_have_expected_ids_and_labels() {
    assert_eq!(
        recipe_meta(0),
        Some(("pairwise_wazir_vs_wazir".to_string(), "wazir vs wazir (pairwise)".to_string()))
    );
    assert_eq!(recipe_meta(1).unwrap().0, "pairwise_wazir_vs_ferz");
    assert_eq!(recipe_meta(255).unwrap().0, "pairwise_chimera_vs_chimera");
    assert_eq!(
        recipe_meta(256),
        Some(("clique_2_wazir".to_string(), "2× wazir clique".to_string()))
    );
    assert_eq!(recipe_meta(259).unwrap().0, "clique_5_wazir");
    assert_eq!(recipe_meta(319).unwrap().1, "5× chimera clique");
    assert_eq!(
        recipe_meta(320),
        Some(("mixed_wazir_ferz_knight".to_string(), "wazir + ferz + knight clique".to_string()))
    );
    assert_eq!(recipe_id(331), Some("mixed_trebuchet_wazir_ferz"));
    assert_eq!(recipe_id(0), None);
    assert_eq!(recipe_id(332), None);
    assert_eq!(recipe_meta(332), None);
    assert_eq!(recipe_label(332), None);
    assert!(game_at(332).is_none());
}

#[test]
fn catalog_games_seat_the_right_pieces() {
    let clique = game_at(256 + 4 * 4 + 3).unwrap();
    assert_eq!(clique.pieces.len(), 5);
    assert_eq!(clique.pieces[4].name, "knight_4");
    assert_eq!(clique.pieces[4].blocked_by, vec![0, 1, 2, 3]);
    assert_eq!(clique.turn_order, vec![0, 1, 2, 3, 4]);

    let mixed = game_at(320).unwrap();
    let names: Vec<&str> = mixed.pieces.iter().map(|p| p.name.as_str()).collect();
    assert_eq!(names, vec!["wazir_0", "ferz_1", "knight_2"]);
    assert_eq!(mixed.pieces[2].piece, PieceDef::knight());

    let pair = game_at(4 * 16 + 6).unwrap();
    assert_eq!(pair.pieces[0].name, "knight_0");
    assert_eq!(pair.pieces[1].name, "camel_1");
    assert_eq!(pair.pieces[0].blocked_by, vec![1]);
    assert_eq!(pair.pieces[1].blocked_by, vec![0]);
}

#[test]
fn iterations_cycle_through_the_catalog() {
    assert_eq!(recipe_for_iteration(0), 0);
    assert_eq!(recipe_for_iteration(331), 331);
    assert_eq!(recipe_for_iteration(332), 0);
    assert_eq!(recipe_for_iteration(1000), 1000 % 332);
}
