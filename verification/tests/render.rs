use std::time::Instant;

use red_black_knights::grid::OccupancyGrid;
use red_black_knights::index_order::VisitOrder;
use red_black_knights::model::GameDefinition;
use red_black_knights::render::{raster_checksum, raster_spiral_grid, BoardColourMode, RenderCache};
use red_black_knights::sim::Simulation;
use red_black_knights::viewport::{grid_texture_size, GridBounds};

fn run_sim_placements(preset: fn() -> GameDefinition, turns: usize) -> OccupancyGrid {
    let def = preset();
    let mut sim = Simulation::new(&def, VisitOrder::default());
    for _ in 0..turns {
        assert!(sim.step_turn(&def));
    }
    sim.occupancy
}

fn rgba8(r: f32, g: f32, b: f32, a: f32) -> [u8; 4] {
    let f = |v: f32| (v.clamp(0.0, 1.0) * 255.0).round() as u8;
    [f(r), f(g), f(b), f(a)]
}

fn palette(n: usize) -> Vec<[u8; 4]> {
    (0..n)
        .map(|i| rgba8(0.15 + 0.3 * i as f32, 0.2, 0.8 - 0.2 * i as f32, 1.0))
        .collect()
}

#[test]
fn raster_checksum_stable_for_knight_pairwise() {
    let occ = run_sim_placements(GameDefinition::knight_2_pairwise, 2_000);
    let bounds = GridBounds { min_x: -20, max_x: 20, min_y: -20, max_y: 20 };
    let size = grid_texture_size(bounds);
    let empty = rgba8(0.12, 0.12, 0.16, 1.0);
    let colors = palette(2);
    let a = raster_spiral_grid(bounds, size.0, size.1, &occ, &colors, empty, BoardColourMode::Piece);
    let b = raster_spiral_grid(bounds, size.0, size.1, &occ, &colors, empty, BoardColourMode::Piece);
    assert_eq!(raster_checksum(&a), raster_checksum(&b));
    assert_eq!(a, b);
}

#[test]
fn raster_large_bounds_completes_within_budget() {
    let occ = run_sim_placements(GameDefinition::knight_3_clique, 5_000);
    let bounds = GridBounds { min_x: -80, max_x: 80, min_y: -80, max_y: 80 };
    let size = grid_texture_size(bounds);
    let empty = rgba8(0.12, 0.12, 0.16, 1.0);
    let colors = palette(3);
    let iters = 5u32;
    let start = Instant::now();
    for _ in 0..iters {
        let data = raster_spiral_grid(bounds, size.0, size.1, &occ, &colors, empty, BoardColourMode::Piece);
        assert_eq!(data.len(), (size.0 * size.1 * 4) as usize);
    }
    let ms = start.elapsed().as_secs_f64() * 1e3 / iters as f64;
    assert!(ms < 500.0, "raster perf regression: {ms:.1} ms per frame (budget 500 ms)");
}

#[test]
fn raster_paints_cells_top_row_first() {
    let mut occ = OccupancyGrid::new();
    assert!(occ.insert(0, 0)); // origin
    assert!(occ.insert(1, 1)); // (1, 0)
    assert!(occ.insert(3, 5)); // (0, 1), a piece without a colour
    let bounds = GridBounds { min_x: -1, max_x: 1, min_y: -1, max_y: 1 };
    let empty = [9, 9, 9, 255];
    let red = [255, 0, 0, 255];
    let blue = [0, 0, 255, 255];
    let data = raster_spiral_grid(bounds, 3, 3, &occ, &[red, blue], empty, BoardColourMode::Piece);
    assert_eq!(data.len(), 36);
    let texel = |col: usize, row: usize| {
        let i = (row * 3 + col) * 4;
        [data[i], data[i + 1], data[i + 2], data[i + 3]]
    };
    assert_eq!(texel(1, 1), red);
    assert_eq!(texel(2, 1), blue);
    assert_eq!(texel(0, 0), empty);
    for row in 0..3 {
        for col in 0..3 {
            if (col, row) != (1, 1) && (col, row) != (2, 1) {
                assert_eq!(texel(col, row), empty, "texel ({col}, {row})");
            }
        }
    }
}

#[test]
fn checksum_is_fnv1a_over_bytes() {
    assert_eq!(raster_checksum(&[]), 0xcbf2_9ce4_8422_2325);
    let mut h = 0xcbf2_9ce4_8422_2325u64;
    for &b in &[1u8, 2, 3] {
        h ^= b as u64;
        h = h.wrapping_mul(0x0000_0100_0000_01b3);
    }
    assert_eq!(raster_checksum(&[1, 2, 3]), h);
    assert_ne!(raster_checksum(&[1, 2, 3]), raster_checksum(&[3, 2, 1]));
}

#[test]
fn max_zoom_raster_completes_within_budget() {
    let occ = run_sim_placements(GameDefinition::knight_2_pairwise, 50_000);
    let half = 512;
    let bounds = GridBounds { min_x: -half, max_x: half, min_y: -half, max_y: half };
    let size = grid_texture_size(bounds);
    let empty = rgba8(0.12, 0.12, 0.16, 1.0);
    let colors = palette(2);
    let start = Instant::now();
    let data = raster_spiral_grid(bounds, size.0, size.1, &occ, &colors, empty, BoardColourMode::Piece);
    let ms = start.elapsed().as_secs_f64() * 1e3;
    assert_eq!(data.len(), (size.0 * size.1 * 4) as usize);
    println!("max_zoom_raster_test ~{ms:.1} ms ({} cells)", bounds.cell_count());
    assert!(ms < 120.0, "max-zoom raster regression: {ms:.1} ms (budget 120 ms for ±512 grid)");
}

#[test]
fn redraw_skips_a_clean_view_and_redraws_a_dirty_or_moved_one() {
    let mut occ = OccupancyGrid::new();
    assert!(occ.insert(0, 0));
    let empty = [9, 9, 9, 255];
    let red = [255, 0, 0, 255];
    let small = GridBounds { min_x: -1, max_x: 1, min_y: -1, max_y: 1 };
    let wide = GridBounds { min_x: -2, max_x: 2, min_y: -1, max_y: 1 };
    let mut cache = RenderCache::new();
    assert_eq!(cache.redraw(Some(small), false, &occ, &[red], empty, BoardColourMode::Piece), Some((3, 3)));
    assert_eq!(cache.rendered_bounds, Some(small));
    assert_eq!(cache.scratch_rgba, raster_spiral_grid(small, 3, 3, &occ, &[red], empty, BoardColourMode::Piece));
    assert_eq!(cache.redraw(Some(small), false, &occ, &[red], empty, BoardColourMode::Piece), None);
    assert_eq!(cache.redraw(Some(small), true, &occ, &[red], empty, BoardColourMode::Piece), Some((3, 3)));
    assert_eq!(cache.redraw(Some(wide), false, &occ, &[red], empty, BoardColourMode::Piece), Some((5, 3)));
    assert_eq!(cache.scratch_rgba.len(), 5 * 3 * 4);
    assert_eq!(cache.rendered_bounds, Some(wide));
}

#[test]
fn redraw_skips_views_past_the_texture_limit_and_missing_inputs() {
    let occ = OccupancyGrid::new();
    let empty = [9, 9, 9, 255];
    let red = [255, 0, 0, 255];
    let mut cache = RenderCache::new();
    let too_wide = GridBounds { min_x: -8_000, max_x: 8_000, min_y: 0, max_y: 0 };
    assert_eq!(cache.redraw(Some(too_wide), true, &occ, &[red], empty, BoardColourMode::Piece), None);
    let widest = GridBounds { min_x: -8_000, max_x: 7_999, min_y: 0, max_y: 0 };
    assert_eq!(cache.redraw(Some(widest), true, &occ, &[red], empty, BoardColourMode::Piece), Some((16_000, 1)));
    let small = GridBounds { min_x: 0, max_x: 0, min_y: 0, max_y: 0 };
    assert_eq!(cache.redraw(Some(small), true, &occ, &[], empty, BoardColourMode::Piece), None);
    assert_eq!(cache.redraw(None, true, &occ, &[red], empty, BoardColourMode::Piece), None);
    assert_eq!(cache.rendered_bounds, Some(widest));
}
