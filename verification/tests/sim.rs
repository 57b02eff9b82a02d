use red_black_knights::discover::placement_checksum;
use red_black_knights::grid::{bytes_of, cell_width_for, AttackGrid, CellWidth};
use red_black_knights::index_order::VisitOrder;
use red_black_knights::model::{GameDefinition, PieceId};
use red_black_knights::sim::{budget_reached, footprint_of, placement_attacks_index, Simulation, MEM_BUDGET_BYTES};
use red_black_knights::spiral::{index_to_xy, xy_to_index};
use std::collections::HashSet;

const GOLDEN_TURNS: [usize; 3] = [64, 1_024, 10_000];

struct GoldenCase {
    name: &'static str,
    def: fn() -> GameDefinition,
    checksums: [u64; 3],
}

fn golden_cases() -> [GoldenCase; 5] {
    [
        GoldenCase {
            name: "knight_2_pairwise",
            def: GameDefinition::knight_2_pairwise,
            checksums: [15_737_156_276_822_775_461, 5_149_276_635_673_381_925, 561_431_110_996_648_581],
        },
        GoldenCase {
            name: "knight_3_clique",
            def: GameDefinition::knight_3_clique,
            checksums: [16_115_999_991_126_781_684, 10_088_445_098_850_287_540, 7_584_768_825_753_057_092],
        },
        GoldenCase {
            name: "leaper_4_mixed_clique",
            def: GameDefinition::leaper_4_mixed_clique,
            checksums: [5_964_283_847_930_621_157, 6_946_720_379_821_596_453, 6_370_614_915_775_779_925],
        },
        GoldenCase {
            name: "king_6_clique",
            def: GameDefinition::king_6_clique,
            checksums: [6_480_521_862_097_834_845, 15_603_942_777_120_392_349, 1_643_601_116_650_407_053],
        },
        GoldenCase {
            name: "chimera_3_clique",
            def: GameDefinition::chimera_3_clique,
            checksums: [8_459_319_956_822_578_164, 6_307_119_068_148_425_140, 12_399_277_720_126_721_092],
        },
    ]
}

fn run_turns(def: &GameDefinition, turns: usize) -> Simulation {
    let mut sim = Simulation::new(def, VisitOrder::default());
    for _ in 0..turns {
        assert!(sim.step_turn(def));
    }
    sim
}

fn threatened_for(def: &GameDefinition) -> Vec<Vec<PieceId>> {
    let mut threatened_for = vec![Vec::new(); def.pieces.len()];
    for target_piece in 0..def.pieces.len() {
        for &attacker in &def.piece(target_piece).blocked_by {
            if attacker < threatened_for.len() {
                threatened_for[attacker].push(target_piece);
            }
        }
    }
    threatened_for
}

fn assert_valid_placements(def: &GameDefinition, placements: &[(u32, PieceId)]) {
    let threatened_for = threatened_for(def);
    let mut occupied = HashSet::new();
    let mut forbidden = vec![HashSet::new(); def.pieces.len()];

    for &(index, piece_id) in placements {
        assert!(piece_id < def.pieces.len(), "invalid piece id {piece_id}");
        assert!(occupied.insert(index), "duplicate placement at {index}");
        assert!(
            !forbidden[piece_id].contains(&index),
            "piece {piece_id} placed on forbidden square {index}"
        );

        let xy = index_to_xy(index);
        for target_piece in 0..forbidden.len() {
            forbidden[target_piece].insert(index);
        }
        for &target_piece in &threatened_for[piece_id] {
            for &(dx, dy) in &def.piece(piece_id).piece.valid_moves {
                forbidden[target_piece].insert(xy_to_index(xy.0 + dx, xy.1 + dy));
            }
        }
    }
}

fn backing_capacities(sim: &Simulation) -> (usize, usize, usize) {
    (sim.occupancy.capacity(), sim.placements.capacity(), sim.attack_grid.capacity())
}

#[test]
fn hot_path_vec_capacity_growth_is_bounded() {
    let def = GameDefinition::king_6_clique();
    let mut sim = Simulation::new(&def, VisitOrder::default());
    let mut capacity_events = 0usize;

    for _ in 0..100_000 {
        let before = backing_capacities(&sim);
        assert!(sim.step_turn(&def));
        let after = backing_capacities(&sim);
        if after != before {
            capacity_events += 1;
        }
    }
    assert!(capacity_events < 100_000, "capacity changes: {capacity_events}");

    let caps = backing_capacities(&sim);
    for _ in 0..5_000 {
        let before = backing_capacities(&sim);
        assert!(sim.step_turn(&def));
        assert_eq!(backing_capacities(&sim), before);
    }

    sim.reset(&def);
    for _ in 0..1_000 {
        let before = backing_capacities(&sim);
        assert!(sim.step_turn(&def));
        assert_eq!(backing_capacities(&sim), before);
    }

    assert_eq!(backing_capacities(&sim), caps);
}

#[test]
fn attack_grid_growth_preserves_marks() {
    let mut grid = AttackGrid::new(CellWidth::U8);
    assert!(grid.record(3, -5, 1, 2, &[(0, 0)]));
    assert_eq!(grid.at(3, -5), 1);
    assert!(grid.record(200, -180, 0b10, 2, &[(0, 0)]));
    assert_eq!(grid.at(3, -5), 1, "earlier mark must survive growth");
    assert_eq!(grid.at(200, -180), 0b10);
    assert_eq!(grid.at(199, -179), 0, "unmarked cell stays empty");
    grid.clear();
    assert_eq!(grid.at(3, -5), 0, "clear wipes all marks");
    assert_eq!(grid.at(200, -180), 0);
}

#[test]
fn cell_width_matches_highest_respected_bit() {
    assert_eq!(cell_width_for(&[]), CellWidth::U8);
    assert_eq!(cell_width_for(&[0]), CellWidth::U8);
    assert_eq!(cell_width_for(&[0b1, 0b1000_0000]), CellWidth::U8);
    assert_eq!(cell_width_for(&[1 << 8]), CellWidth::U16);
    assert_eq!(cell_width_for(&[1 << 15]), CellWidth::U16);
    assert_eq!(cell_width_for(&[1 << 16]), CellWidth::U32);
    assert_eq!(cell_width_for(&[1 << 31]), CellWidth::U32);
}

#[test]
fn narrow_cells_ignore_out_of_width_attacker_bits() {
    let mut grid = AttackGrid::new(CellWidth::U8);
    grid.record(0, 0, (1 << 2) | (1 << 9), 1, &[(0, 0)]);
    assert_eq!(grid.at(0, 0), 1 << 2, "bit 9 truncated, bit 2 preserved");

    let mut wide = AttackGrid::new(CellWidth::U16);
    wide.record(120, -90, 1 << 12, 2, &[(0, 0)]);
    wide.record(900, 900, 1 << 3, 2, &[(0, 0)]);
    assert_eq!(wide.at(120, -90), 1 << 12, "wide bit survives growth");
    assert_eq!(wide.at(900, 900), 1 << 3);
}

#[test]
fn tiny_budget_saturates_and_renders_partial_without_crashing() {
    let def = GameDefinition::knight_2_pairwise();
    let mut sim = Simulation::new(&def, VisitOrder::default());
    sim.set_memory_budget_bytes(8 * 1024);
    let target = 5_000_000u32;

    sim.advance_to_target(&def, target);
    assert!(sim.is_saturated(), "tiny budget must saturate");
    let placed = sim.placements.len();
    assert!(placed > 0, "must keep what it placed before saturating");
    assert!(
        sim.footprint_bytes() < 1 << 20,
        "footprint stays bounded after saturation: {}",
        sim.footprint_bytes()
    );

    sim.advance_to_target(&def, target);
    assert_eq!(sim.placements.len(), placed, "saturated sim does not advance");

    sim.reset(&def);
    assert!(!sim.is_saturated());
    assert_eq!(sim.placements.len(), 0, "reset wipes placements");
    sim.set_memory_budget_bytes(MEM_BUDGET_BYTES as usize);
    sim.advance_to_target(&def, 64);
    assert!(
        sim.placements.len() > 0 && !sim.is_saturated(),
        "post-reset advance proceeds under the real budget"
    );
}

#[test]
fn early_red_black_placements() {
    let def = GameDefinition::knight_2_pairwise();
    let mut sim = Simulation::new(&def, VisitOrder::default());
    for _ in 0..6 {
        sim.step_turn(&def);
    }
    assert_eq!(sim.occupancy.get(&0), Some(&0));
    assert_eq!(sim.occupancy.get(&1), Some(&1));
    assert_eq!(sim.occupancy.get(&2), Some(&0));
    assert_eq!(sim.occupancy.get(&3), Some(&1));
}

#[test]
fn forbidden_cells_are_cached_per_piece() {
    let def = GameDefinition::knight_2_pairwise();
    let mut sim = Simulation::new(&def, VisitOrder::default());
    sim.step_turn(&def);
    sim.step_turn(&def);

    let red_placement = sim
        .placements
        .as_slice()
        .iter()
        .rev()
        .find_map(|&(idx, pid)| (pid == 1).then_some(idx))
        .expect("red placement");
    let red_xy = index_to_xy(red_placement);
    for &(dx, dy) in &def.pieces[1].piece.valid_moves {
        let (ax, ay) = (red_xy.0 + dx, red_xy.1 + dy);
        assert!(sim.attack_grid.at(ax, ay) & (1u32 << 1) != 0);
    }

    let black_xy = (0, 0);
    assert!(sim.attack_grid.at(black_xy.0 + 1, black_xy.1 + 2) & (1u32 << 0) != 0);
    assert!(sim.occupancy.contains_index(0));
    assert!(sim.occupancy.contains_index(1));
}

#[test]
fn placement_blocking_attacker_matches_move_pattern() {
    let def = GameDefinition::knight_2_pairwise();
    let mut sim = Simulation::new(&def, VisitOrder::default());
    for turn in 0..32 {
        let scanning = sim.upcoming_piece_id();
        let skips = sim.scan_skips_on_next_scan(&def);
        for &skip in &skips.forbidden {
            for attacker in sim.respected_forbidden_attackers(scanning, skip) {
                let from = sim
                    .placement_blocking_attacker(&def, attacker, skip)
                    .expect("attacker in forbidden layer must threaten from a placement");
                assert!(
                    placement_attacks_index(&def, sim.visit_order, from, attacker, skip),
                    "turn {turn} skip {skip} attacker {attacker} from {from}"
                );
            }
        }
        assert!(sim.step_turn(&def), "turn {turn}");
    }
}

#[test]
fn red_black_first_sixteen_placements_are_stable() {
    let def = GameDefinition::knight_2_pairwise();
    let sim = run_turns(&def, 16);

    assert_eq!(
        sim.placements.as_slice().to_vec(),
        vec![
            (0, 0),
            (1, 1),
            (2, 0),
            (3, 1),
            (5, 0),
            (4, 1),
            (9, 0),
            (6, 1),
            (11, 0),
            (10, 1),
            (15, 0),
            (12, 1),
            (20, 0),
            (24, 1),
            (21, 0),
            (25, 1),
        ]
    );
}

#[test]
fn representative_preset_checksums_are_stable() {
    for case in golden_cases() {
        let def = (case.def)();
        for (turns, expected_checksum) in GOLDEN_TURNS.into_iter().zip(case.checksums) {
            let sim = run_turns(&def, turns);
            assert_eq!(
                placement_checksum(sim.placements.as_slice()),
                expected_checksum,
                "{} after {turns} turns",
                case.name
            );
        }
    }
}

#[test]
fn representative_preset_placements_remain_legal() {
    for case in golden_cases() {
        let def = (case.def)();
        let sim = run_turns(&def, 10_000);

        assert_valid_placements(&def, sim.placements.as_slice());
        for (&cursor, &xy) in sim.cursors.iter().zip(&sim.cursor_positions) {
            assert_eq!(index_to_xy(cursor), xy, "{} cursor {cursor}", case.name);
        }
    }
}

#[test]
fn step_turn_without_active_pieces_changes_nothing() {
    let mut def = GameDefinition::knight_2_pairwise();
    for p in def.pieces.iter_mut() {
        p.enabled = false;
    }
    let mut sim = Simulation::new(&def, VisitOrder::default());
    assert!(!sim.step_turn(&def));
    assert_eq!(sim.placements.len(), 0);
    assert_eq!(sim.turn_step, 0);
    assert!(!sim.needs_work(&def, 10));
}

#[test]
fn scan_skips_split_occupied_and_forbidden() {
    let def = GameDefinition::knight_2_pairwise();
    let mut sim = Simulation::new(&def, VisitOrder::default());
    for _ in 0..3 {
        assert!(sim.step_turn(&def));
    }
    // Red (piece 1) scans from index 2: 2 is occupied by black; 3 is free.
    assert_eq!(sim.upcoming_piece_id(), 1);
    let skips = sim.scan_skips_on_next_scan(&def);
    assert_eq!(skips.occupied, vec![2]);
    assert!(skips.forbidden.is_empty());
    assert_eq!(sim.forbidden_skips_on_next_scan(&def), skips.forbidden);
}

#[test]
fn needs_work_tracks_enabled_cursors() {
    let def = GameDefinition::knight_2_pairwise();
    let mut sim = Simulation::new(&def, VisitOrder::default());
    assert!(sim.needs_work(&def, 0));
    sim.advance_to_target(&def, 100);
    assert!(!sim.needs_work(&def, 100));
    assert!(sim.cursors.iter().all(|&c| c > 100));
    assert_eq!(sim.active_turn_order_len(), 2);
    let tally = sim.piece_tally();
    assert_eq!(tally.len(), 2);
    let total: u32 = tally.iter().map(|t| t.placements).sum();
    assert_eq!(total as usize, sim.placements.len());
}

#[test]
fn memory_budget_round_trips_and_latches() {
    let def = GameDefinition::knight_2_pairwise();
    let mut sim = Simulation::new(&def, VisitOrder::default());
    assert_eq!(sim.memory_budget_bytes(), MEM_BUDGET_BYTES as usize);
    sim.set_memory_budget_bytes(0);
    assert_eq!(sim.memory_budget_bytes(), 0);
    assert!(sim.mem_saturated());
    assert!(sim.is_saturated());
    sim.set_memory_budget_bytes(MEM_BUDGET_BYTES as usize);
    assert!(sim.mem_saturated(), "saturation is not cleared by a larger budget");
}

#[test]
fn upcoming_piece_follows_turn_step_round_robin() {
    let def = GameDefinition::knight_3_clique();
    let mut sim = Simulation::new(&def, VisitOrder::default());
    for step in 0..30usize {
        assert_eq!(sim.steps_taken(), step);
        assert_eq!(sim.upcoming_piece_id(), step % 3);
        assert!(sim.step_turn(&def));
    }
}

#[test]
fn tally_first_and_last_are_extremes_of_each_piece() {
    let def = GameDefinition::leaper_4_mixed_clique();
    let mut sim = Simulation::new(&def, VisitOrder::default());
    for _ in 0..400 {
        assert!(sim.step_turn(&def));
    }
    let tally = sim.piece_tally().to_vec();
    for (p, t) in tally.iter().enumerate() {
        let indices: Vec<u32> = sim.placement_entries().iter().filter(|e| e.1 == p).map(|e| e.0).collect();
        assert_eq!(t.placements as usize, indices.len());
        assert!(indices.windows(2).all(|w| w[0] < w[1]), "piece {p} indices increase");
        assert_eq!(t.first_index, *indices.iter().min().unwrap());
        assert_eq!(t.last_index, *indices.iter().max().unwrap());
    }
}

#[test]
fn mem_saturated_latches_once_budget_is_reached() {
    let def = GameDefinition::knight_2_pairwise();
    let mut sim = Simulation::new(&def, VisitOrder::default());
    for _ in 0..50 {
        assert!(sim.step_turn(&def));
    }
    let before = sim.placement_entries().to_vec();
    sim.set_memory_budget_bytes(usize::MAX);
    assert!(!sim.mem_saturated());
    sim.set_memory_budget_bytes(sim.footprint_bytes());
    assert!(sim.mem_saturated());
    assert!(sim.is_saturated());
    assert_eq!(sim.placement_entries(), before.as_slice());
    assert_eq!(sim.steps_taken(), 50);
}

#[test]
fn budget_checkpoint_compares_footprint_with_budget() {
    assert!(!budget_reached(false, 99, 100));
    assert!(budget_reached(false, 100, 100));
    assert!(budget_reached(false, 101, 100));
    assert!(budget_reached(true, 0, 100));

    let def = GameDefinition::knight_2_pairwise();
    let mut sim = Simulation::new(&def, VisitOrder::default());
    for _ in 0..20 {
        assert!(sim.step_turn(&def));
    }
    sim.set_memory_budget_bytes(sim.footprint_bytes() + 1);
    assert!(!sim.mem_saturated());
    assert!(!sim.is_saturated());
    sim.set_memory_budget_bytes(sim.footprint_bytes());
    assert!(sim.mem_saturated());
}

#[test]
fn tiny_budget_stops_at_the_first_checkpoint() {
    let def = GameDefinition::knight_2_pairwise();
    let mut sim = Simulation::new(&def, VisitOrder::default());
    sim.set_memory_budget_bytes(1);
    sim.advance_to_target(&def, 5_000_000);
    assert!(sim.is_saturated());
    assert_eq!(sim.steps_taken(), 4_096);
    assert_eq!(sim.placement_entries().len(), 4_096);
}

#[test]
fn footprint_sums_capacities_times_sizes_saturating() {
    assert_eq!(bytes_of(10, 8), 80);
    assert_eq!(bytes_of(0, 16), 0);
    assert_eq!(bytes_of(usize::MAX / 2, 4), usize::MAX);
    assert_eq!(footprint_of(80, 160, 7), 247);
    assert_eq!(footprint_of(usize::MAX - 1, 1, 1), usize::MAX);

    let def = GameDefinition::knight_2_pairwise();
    let mut sim = Simulation::new(&def, VisitOrder::default());
    for _ in 0..100 {
        assert!(sim.step_turn(&def));
    }
    let fp = sim.footprint_bytes();
    assert!(fp >= 100 * 16, "the log alone holds 100 entries of 16 bytes: {fp}");
    assert!(fp < 1 << 20, "{fp}");
}
