//! Discovery runs: simulate a game to a target index (or for a number of turns) and summarise
//! the result — placement count, checksum, bounding rectangle and output image size.

use vstd::prelude::*;
use crate::index_order::VisitOrder;
use crate::model::{GameDefinition, PieceId};
use crate::sim::{def_fits, is_fresh, spec_needs_work, stop_reason, turn_chain, Simulation};
use crate::viewport::{cells_extent, grid_bounds_from_placements, grid_texture_size, spec_bounds_of, spec_max, spec_min, GridBounds};

verus! {

/// Padding, in cells, around the placements of a run.
pub const BOUNDS_PADDING: i32 = 2;
/// PNG pixels per cell (the in-game board texel footprint).
pub const DEFAULT_CELL_PIXEL_SCALE: u32 = 16;
/// Same order of magnitude as a zoomed-out knight preset in the UI.
pub const DEFAULT_TARGET_INDEX: u32 = 4_819_953;
pub const MAX_CELL_PIXEL_SCALE: u32 = 32;
pub const MAX_OUTPUT_EDGE_PX: u32 = 8192;

/// Summary of one discovery run.
#[derive(Clone, Debug)]
pub struct DiscoverRunMeta {
    pub placements: usize,
    pub turn_step: usize,
    pub checksum: u64,
    pub bounds: GridBoundsSerde,
    pub target_index: u32,
    pub settled: bool,
    pub max_placement_index: u32,
    pub catalog_index: usize,
    pub recipe_id: String,
    pub recipe_label: String,
    /// Grid size in cells (one cell per texel before upscaling).
    pub grid_cells: [u32; 2],
    pub cell_pixel_scale: u32,
    /// Output image size (`grid_cells * cell_pixel_scale`).
    pub image_pixels: [u32; 2],
}

/// [`GridBounds`] as stored in run metadata.
#[derive(Clone, Copy, Debug)]
pub struct GridBoundsSerde {
    pub min_x: i32,
    pub max_x: i32,
    pub min_y: i32,
    pub max_y: i32,
}

impl From<GridBounds> for GridBoundsSerde {
    fn from(b: GridBounds) -> (r: Self) {
        Self { min_x: b.min_x, max_x: b.max_x, min_y: b.min_y, max_y: b.max_y }
    }
}

impl vstd::std_specs::convert::FromSpecImpl<GridBounds> for GridBoundsSerde {
    open spec fn obeys_from_spec() -> bool {
        true
    }

    open spec fn from_spec(b: GridBounds) -> Self {
        GridBoundsSerde { min_x: b.min_x, max_x: b.max_x, min_y: b.min_y, max_y: b.max_y }
    }
}

impl From<GridBoundsSerde> for GridBounds {
    fn from(b: GridBoundsSerde) -> (r: Self) {
        Self { min_x: b.min_x, max_x: b.max_x, min_y: b.min_y, max_y: b.max_y }
    }
}

impl vstd::std_specs::convert::FromSpecImpl<GridBoundsSerde> for GridBounds {
    open spec fn obeys_from_spec() -> bool {
        true
    }

    open spec fn from_spec(b: GridBoundsSerde) -> Self {
        GridBounds { min_x: b.min_x, max_x: b.max_x, min_y: b.min_y, max_y: b.max_y }
    }
}

/// Seed of discovery iteration `iteration` under `base_seed`.
pub fn iteration_seed(base_seed: u64, iteration: u64) -> (mix: u64)
    ensures
        mix == vstd::wrapping::u64_specs::wrapping_mul(
            vstd::wrapping::u64_specs::wrapping_add(base_seed, iteration),
            0x9E37_79B9_7F4A_7C15,
        ),
{
    base_seed.wrapping_add(iteration).wrapping_mul(0x9E37_79B9_7F4A_7C15)
}

/// Clamp an upscale factor to `1..=32`.
pub fn sanitize_cell_pixel_scale(scale: u32) -> (s: u32)
    ensures
        s == if scale < 1 { 1 } else if scale > MAX_CELL_PIXEL_SCALE { MAX_CELL_PIXEL_SCALE } else { scale },
{
    if scale < 1 {
        1
    } else if scale > MAX_CELL_PIXEL_SCALE {
        MAX_CELL_PIXEL_SCALE
    } else {
        scale
    }
}

/// Upscale to use for a grid of `grid_w × grid_h` cells: the requested one, clamped, and
/// reduced so that no image edge exceeds `MAX_OUTPUT_EDGE_PX` (but never below one).
pub fn fit_output_cell_scale(grid_w: u32, grid_h: u32, requested: u32) -> (scale: u32)
    ensures
        ({
            let s = if requested < 1 { 1 } else if requested > MAX_CELL_PIXEL_SCALE { MAX_CELL_PIXEL_SCALE as int } else { requested as int };
            let m = spec_max(spec_max(grid_w as int, grid_h as int), 1);
            let cap = spec_max((MAX_OUTPUT_EDGE_PX as int) / m, 1);
            scale == spec_min(s, cap)
        }),
{
    let requested = sanitize_cell_pixel_scale(requested);
    let mut max_grid = if grid_w < grid_h { grid_h } else { grid_w };
    if max_grid < 1 {
        max_grid = 1;
    }
    let mut cap = MAX_OUTPUT_EDGE_PX / max_grid;
    if cap < 1 {
        cap = 1;
    }
    if requested < cap { requested } else { cap }
}

/// FNV-style checksum of a placement history.
pub open spec fn spec_checksum(ps: Seq<(u32, PieceId)>) -> u64
    decreases ps.len(),
{
    if ps.len() == 0 {
        0xcbf2_9ce4_8422_2325u64
    } else {
        let h = spec_checksum(ps.drop_last());
        let e = ps.last();
        let value = (((e.0 as u64) << 8u64) ^ (e.1 as u64)) as u64;
        vstd::wrapping::u64_specs::wrapping_mul(h ^ value, 0x0000_0100_0000_01b3)
    }
}

pub fn placement_checksum(placements: &[(u32, PieceId)]) -> (hash: u64)
    ensures
        hash == spec_checksum(placements@),
{
    let ghost ps = placements@;
    let mut hash = 0xcbf2_9ce4_8422_2325u64;
    let mut i: usize = 0;
    while i < placements.len()
        invariant
            ps == placements@,
            i <= ps.len(),
            hash == spec_checksum(ps.take(i as int)),
        decreases placements.len() - i,
    {
        let entry = placements[i];
        proof {
            assert(ps.take(i + 1).drop_last() == ps.take(i as int));
            assert(ps.take(i + 1).last() == entry);
        }
        let value = ((entry.0 as u64) << 8) ^ (entry.1 as u64);
        hash = hash ^ value;
        hash = hash.wrapping_mul(0x0000_0100_0000_01b3);
        i += 1;
    }
    assert(ps.take(ps.len() as int) == ps);
    hash
}

/// Largest visit index in the history (zero when it is empty).
pub open spec fn spec_max_index(ps: Seq<(u32, PieceId)>) -> u32
    decreases ps.len(),
{
    if ps.len() == 0 {
        0
    } else {
        let m = spec_max_index(ps.drop_last());
        if m < ps.last().0 { ps.last().0 } else { m }
    }
}

pub fn max_placement_index(placements: &[(u32, PieceId)]) -> (m: u32)
    ensures
        m == spec_max_index(placements@),
{
    let ghost ps = placements@;
    let mut m: u32 = 0;
    let mut i: usize = 0;
    while i < placements.len()
        invariant
            ps == placements@,
            i <= ps.len(),
            m == spec_max_index(ps.take(i as int)),
        decreases placements.len() - i,
    {
        let entry = placements[i];
        proof {
            assert(ps.take(i + 1).drop_last() == ps.take(i as int));
            assert(ps.take(i + 1).last() == entry);
        }
        if m < entry.0 {
            m = entry.0;
        }
        i += 1;
    }
    assert(ps.take(ps.len() as int) == ps);
    m
}

/// The square of half-side `half_extent` centred on the origin.
pub fn square_bounds(half_extent: i32) -> (b: GridBounds)
    requires
        half_extent != i32::MIN,
    ensures
        b.min_x == -half_extent && b.max_x == half_extent && b.min_y == -half_extent && b.max_y == half_extent,
{
    GridBounds { min_x: -half_extent, max_x: half_extent, min_y: -half_extent, max_y: half_extent }
}

/// Rectangle around the placements' cells along the square spiral, grown by `padding`.
pub fn bounds_from_placements(placements: &[(u32, PieceId)], padding: i32) -> (bounds: GridBounds)
    requires
        -0x7FFF_0000 <= padding <= 0x7FFF_0000,
    ensures
        (bounds.min_x as int, bounds.max_x as int, bounds.min_y as int, bounds.max_y as int)
            == spec_bounds_of(placements@, VisitOrder::SquareSpiral, padding as int),
{
    grid_bounds_from_placements(placements, VisitOrder::SquareSpiral, padding)
}

proof fn lemma_run_bounds_size(ps: Seq<(u32, PieceId)>)
    ensures
        ({
            let b = spec_bounds_of(ps, VisitOrder::SquareSpiral, BOUNDS_PADDING as int);
            &&& -46343 <= b.0 <= b.1 <= 46343
            &&& -46343 <= b.2 <= b.3 <= 46343
        }),
    decreases ps.len(),
{
    if ps.len() > 0 {
        lemma_extent_order(ps);
    }
}

/// Each extent lies within the cells' range and minima do not exceed maxima.
proof fn lemma_extent_order(ps: Seq<(u32, PieceId)>)
    requires
        ps.len() > 0,
    ensures
        ({
            let e = cells_extent(ps, VisitOrder::SquareSpiral);
            &&& -46341 <= e.0 <= e.1 <= 46341
            &&& -46341 <= e.2 <= e.3 <= 46341
        }),
    decreases ps.len(),
{
    let order = VisitOrder::SquareSpiral;
    crate::index_order::lemma_order_xy_bounded(order, ps.last().0 as nat);
    if ps.len() > 1 {
        lemma_extent_order(ps.drop_last());
    } else {
        assert(ps.drop_last().len() == 0);
        assert(cells_extent(ps.drop_last(), order) == (i32::MAX as int, i32::MIN as int, i32::MAX as int, i32::MIN as int));
    }
}

/// What a run's summary says of its simulation and target.
pub open spec fn meta_describes(meta: DiscoverRunMeta, def: GameDefinition, sim: Simulation, target_index: u32) -> bool {
    let ps = sim.spec_placements();
    let b = spec_bounds_of(ps, VisitOrder::SquareSpiral, BOUNDS_PADDING as int);
    let w = spec_max(b.1 - b.0 + 1, 1);
    let h = spec_max(b.3 - b.2 + 1, 1);
    &&& meta.placements == ps.len()
    &&& meta.turn_step == sim.spec_turn_step()
    &&& meta.checksum == spec_checksum(ps)
    &&& (meta.bounds.min_x as int, meta.bounds.max_x as int, meta.bounds.min_y as int, meta.bounds.max_y as int) == b
    &&& meta.target_index == target_index
    &&& meta.settled == (target_index == 0 || !spec_needs_work(def, sim.spec_cursors(), target_index))
    &&& meta.max_placement_index == spec_max_index(ps)
    &&& meta.catalog_index == 0
    &&& meta.recipe_id@.len() == 0
    &&& meta.recipe_label@.len() == 0
    &&& meta.grid_cells@ == seq![w as u32, h as u32]
    &&& meta.cell_pixel_scale == DEFAULT_CELL_PIXEL_SCALE
    &&& meta.image_pixels@ == seq![(w * DEFAULT_CELL_PIXEL_SCALE) as u32, (h * DEFAULT_CELL_PIXEL_SCALE) as u32]
}

/// Run `def` on the square spiral: to `target_index` when it is positive, otherwise for up to
/// `turns` turns (stopping at the first turn that places nothing), then summarise the result.
pub fn simulate(def: &GameDefinition, target_index: u32, turns: usize) -> (r: (Simulation, DiscoverRunMeta))
    requires
        def_fits(*def),
    ensures
        r.0.wf(*def),
        meta_describes(r.1, *def, r.0, target_index),
        target_index > 0 ==> exists|start: Simulation, states: Seq<Simulation>, failed: bool, end: Simulation| {
            &&& is_fresh(*def, VisitOrder::SquareSpiral, start)
            &&& #[trigger] turn_chain(*def, states, start, end, failed)
            &&& (r.0 == end || (!failed && r.0 == end.with_saturated(true)))
        },
        target_index == 0 ==> exists|start: Simulation, states: Seq<Simulation>, failed: bool| {
            &&& is_fresh(*def, VisitOrder::SquareSpiral, start)
            &&& #[trigger] turn_chain(*def, states, start, r.0, failed)
            &&& states.len() <= turns + 1
            &&& (!failed ==> states.len() == turns + 1 || r.0.spec_placements().len() >= u32::MAX)
        },
{
    let mut sim = Simulation::new(def, VisitOrder::SquareSpiral);
    let ghost start = sim;
    if target_index > 0 {
        sim.advance_to_target(def, target_index);
    } else {
        let ghost mut states: Seq<Simulation> = seq![start];
        proof {
            crate::sim::lemma_chain_single(*def, start);
        }
        let mut k: usize = 0;
        let mut stopped = false;
        let ghost mut failed = false;
        while !stopped && k < turns
            invariant
                sim.wf(*def),
                is_fresh(*def, VisitOrder::SquareSpiral, start),
                k <= turns,
                states.len() == k + 1,
                turn_chain(*def, states, start, sim, failed),
                failed ==> stopped,
                stopped && !failed ==> sim.spec_placements().len() >= u32::MAX,
                sim.spec_placements().len() <= k,
                sim.spec_turn_step() <= k,
            decreases turns - k, (if stopped { 0int } else { 1int }),
        {
            if sim.placement_entries().len() as u64 >= u32::MAX as u64 {
                stopped = true;
            } else {
                let ghost before = sim;
                let ok = sim.step_turn(def);
                proof {
                    crate::sim::lemma_chain_push(*def, states, start, before, sim, ok);
                    states = states.push(sim);
                    failed = !ok;
                }
                if !ok {
                    stopped = true;
                }
                k += 1;
            }
        }
    }
    let settled = target_index == 0 || !sim.needs_work(def, target_index);
    let entries = sim.placement_entries();
    proof {
        lemma_run_bounds_size(entries@);
    }
    let bounds = bounds_from_placements(entries, BOUNDS_PADDING);
    let checksum = placement_checksum(entries);
    let (gw, gh) = grid_texture_size(bounds);
    let meta = DiscoverRunMeta {
        placements: entries.len(),
        turn_step: sim.steps_taken(),
        checksum,
        bounds: GridBoundsSerde { min_x: bounds.min_x, max_x: bounds.max_x, min_y: bounds.min_y, max_y: bounds.max_y },
        target_index,
        settled,
        max_placement_index: max_placement_index(entries),
        catalog_index: 0,
        recipe_id: String::new(),
        recipe_label: String::new(),
        grid_cells: [gw, gh],
        cell_pixel_scale: DEFAULT_CELL_PIXEL_SCALE,
        image_pixels: [gw * DEFAULT_CELL_PIXEL_SCALE, gh * DEFAULT_CELL_PIXEL_SCALE],
    };
    (sim, meta)
}

} // verus!
