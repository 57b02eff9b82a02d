use red_black_knights::model::GameDefinition;
use red_black_knights::sim_config_history::{SimConfigHistory, SimConfigSnapshot};

#[derive(Clone, Copy, Debug, PartialEq)]
struct Camera {
    x: f32,
    y: f32,
    zoom: f32,
}

fn cam(zoom: f32) -> Camera {
    Camera { x: 1.0, y: 2.0, zoom }
}

#[test]
fn commit_appends_from_middle_without_dropping_later_entries() {
    let a = GameDefinition::knight_2_pairwise();
    let mut b = a.clone();
    b.turn_order.reverse();
    let mut c = a.clone();
    c.pieces[0].piece.valid_moves.push((3, 4));
    let mut d = a.clone();
    d.pieces[0].enabled = false;

    let mut h = SimConfigHistory::default();
    h.reset_to(SimConfigSnapshot { game: a.clone(), camera: cam(1.0) });
    h.commit(b.clone(), cam(2.0));
    h.commit(c.clone(), cam(3.0));
    assert_eq!(h.len(), 3);

    let back = h.step(-1).unwrap();
    assert!(back.game.same_sim_state(&b));

    h.commit(d.clone(), cam(4.0));
    assert_eq!(h.len(), 4);
    assert_eq!(h.position(), 3);
    assert!(h.current().unwrap().game.same_sim_state(&d));
    assert!(h.can_step_back());
    assert!(!h.can_step_forward());
}

#[test]
fn commit_skips_when_only_camera_would_differ() {
    let game = GameDefinition::knight_2_pairwise();
    let mut h = SimConfigHistory::default();
    h.reset_to(SimConfigSnapshot { game: game.clone(), camera: cam(1.0) });
    h.commit(game.clone(), cam(9.0));
    assert_eq!(h.len(), 1);
    assert_eq!(h.current().unwrap().camera.zoom, 1.0);
}

#[test]
fn step_skips_when_out_of_range() {
    let mut h = SimConfigHistory::default();
    h.reset_to(SimConfigSnapshot { game: GameDefinition::knight_2_pairwise(), camera: cam(1.0) });
    assert!(h.step(-1).is_none());
    assert!(h.step(1).is_none());
}

#[test]
fn history_keeps_only_the_newest_entries() {
    let mut h: SimConfigHistory<Camera> = SimConfigHistory::new();
    assert!(h.is_empty());
    let base = GameDefinition::knight_2_pairwise();
    for i in 0..300 {
        let mut g = base.clone();
        g.pieces[0].piece.valid_moves.push((i + 10, 0));
        h.commit(g, cam(i as f32));
    }
    assert_eq!(h.len(), 256);
    assert_eq!(h.position(), 255);
    assert_eq!(h.current().unwrap().camera.zoom, 299.0);
    let first = h.step(-255).unwrap();
    assert_eq!(first.camera.zoom, 44.0);
    assert_eq!(h.position(), 0);
    assert!(!h.can_step_back());
}
