//! Questions about one placement of a history: the chain of placements of the same piece that
//! led to it, the next one, and the scan that produced it, replayed from a fresh simulation.

use vstd::prelude::*;
use crate::index_order::VisitOrder;
use crate::model::{GameDefinition, PieceId};
use crate::sim::{def_fits, is_fresh, next_scan_skips, turn_chain, ScanSkips, Simulation};

verus! {

/// Visit indices of the placements of `pid`, in turn order.
pub open spec fn piece_indices(ps: Seq<(u32, PieceId)>, pid: PieceId) -> Seq<u32>
    decreases ps.len(),
{
    if ps.len() == 0 {
        seq![]
    } else if ps.last().1 == pid {
        piece_indices(ps.drop_last(), pid).push(ps.last().0)
    } else {
        piece_indices(ps.drop_last(), pid)
    }
}

/// Position of the first entry equal to `e`, or `ps.len()` when there is none.
pub open spec fn first_pos(ps: Seq<(u32, PieceId)>, e: (u32, PieceId)) -> int
    decreases ps.len(),
{
    if ps.len() == 0 {
        0
    } else {
        let r = first_pos(ps.drop_last(), e);
        if r < ps.len() - 1 {
            r
        } else if ps.last() == e {
            ps.len() - 1
        } else {
            ps.len() as int
        }
    }
}

pub proof fn lemma_first_pos(ps: Seq<(u32, PieceId)>, e: (u32, PieceId))
    ensures
        0 <= first_pos(ps, e) <= ps.len(),
        first_pos(ps, e) < ps.len() ==> ps[first_pos(ps, e)] == e,
        forall|k: int| 0 <= k < first_pos(ps, e) ==> #[trigger] ps[k] != e,
    decreases ps.len(),
{
    if ps.len() > 0 {
        lemma_first_pos(ps.drop_last(), e);
        assert forall|k: int| 0 <= k < first_pos(ps, e) implies #[trigger] ps[k] != e by {
            if k < ps.len() - 1 {
                assert(ps[k] == ps.drop_last()[k]);
            }
        }
    }
}

proof fn lemma_piece_indices_push(ps: Seq<(u32, PieceId)>, e: (u32, PieceId), pid: PieceId)
    ensures
        piece_indices(ps.push(e), pid) == if e.1 == pid { piece_indices(ps, pid).push(e.0) } else { piece_indices(ps, pid) },
{
    assert(ps.push(e).drop_last() == ps);
}

proof fn lemma_first_pos_push(ps: Seq<(u32, PieceId)>, x: (u32, PieceId), e: (u32, PieceId))
    ensures
        first_pos(ps.push(x), e) == if first_pos(ps, e) < ps.len() {
            first_pos(ps, e)
        } else if x == e {
            ps.len() as int
        } else {
            (ps.len() + 1) as int
        },
{
    assert(ps.push(x).drop_last() == ps);
    lemma_first_pos(ps, e);
}

/// Placements of `pid` in turn order through its placement on `index` (all of them when it
/// never placed there).
pub open spec fn spec_path_to(ps: Seq<(u32, PieceId)>, index: u32, pid: PieceId) -> Seq<u32> {
    let f = first_pos(ps, (index, pid));
    if f < ps.len() {
        piece_indices(ps.take(f + 1), pid)
    } else {
        piece_indices(ps, pid)
    }
}

/// The placement of `pid` after its placement on `index`, if both exist.
pub open spec fn spec_next_after(ps: Seq<(u32, PieceId)>, index: u32, pid: PieceId) -> Option<u32> {
    let f = first_pos(ps, (index, pid));
    let rest = piece_indices(ps.skip(f + 1), pid);
    if f < ps.len() && rest.len() > 0 {
        Some(rest[0])
    } else {
        None
    }
}

/// Same-piece placement chain in turn order through `index` (inclusive).
pub fn same_piece_path_to(placements: &[(u32, PieceId)], index: u32, piece_id: PieceId) -> (path: Vec<u32>)
    ensures
        path@ == spec_path_to(placements@, index, piece_id),
{
    let ghost ps = placements@;
    let mut path: Vec<u32> = Vec::new();
    let mut i: usize = 0;
    while i < placements.len()
        invariant
            ps == placements@,
            i <= ps.len(),
            first_pos(ps.take(i as int), (index, piece_id)) == i,
            path@ == piece_indices(ps.take(i as int), piece_id),
        decreases placements.len() - i,
    {
        let entry = placements[i];
        let idx = entry.0;
        let pid = entry.1;
        assert(entry == ps[i as int]);
        proof {
            assert(ps.take(i + 1) == ps.take(i as int).push(ps[i as int]));
            lemma_piece_indices_push(ps.take(i as int), ps[i as int], piece_id);
            lemma_first_pos_push(ps.take(i as int), ps[i as int], (index, piece_id));
        }
        if pid == piece_id {
            path.push(idx);
            if idx == index {
                proof {
                    lemma_first_prefix_up(ps, (index, piece_id), i + 1);
                }
                return path;
            }
        }
        i += 1;
    }
    proof {
        assert(ps.take(ps.len() as int) == ps);
    }
    path
}

/// The first position of `e` in `ps` is the one found in any prefix that already holds it.
proof fn lemma_first_prefix_up(ps: Seq<(u32, PieceId)>, e: (u32, PieceId), n: int)
    requires
        0 <= n <= ps.len(),
        first_pos(ps.take(n), e) < n,
    ensures
        first_pos(ps, e) == first_pos(ps.take(n), e),
    decreases ps.len() - n,
{
    if n == ps.len() {
        assert(ps.take(n) == ps);
    } else {
        assert(ps.take(n + 1) == ps.take(n).push(ps[n]));
        lemma_first_pos_push(ps.take(n), ps[n], e);
        lemma_first_prefix_up(ps, e, n + 1);
    }
}

/// Next same-piece placement after `(index, piece_id)` in turn order, if any.
pub fn next_same_piece_after(placements: &[(u32, PieceId)], index: u32, piece_id: PieceId) -> (next: Option<u32>)
    ensures
        next == spec_next_after(placements@, index, piece_id),
{
    let ghost ps = placements@;
    let ghost e = (index, piece_id);
    let mut after_current = false;
    let mut i: usize = 0;
    let ghost mut f: int = 0;
    while i < placements.len()
        invariant
            ps == placements@,
            e == (index, piece_id),
            i <= ps.len(),
            !after_current ==> first_pos(ps.take(i as int), e) == i,
            after_current ==> 0 <= f < i && first_pos(ps, e) == f
                && piece_indices(ps.take(i as int).skip(f + 1), piece_id).len() == 0,
        decreases placements.len() - i,
    {
        let entry = placements[i];
        let idx = entry.0;
        let pid = entry.1;
        assert(entry == ps[i as int]);
        proof {
            assert(ps.take(i + 1) == ps.take(i as int).push(ps[i as int]));
            lemma_first_pos_push(ps.take(i as int), ps[i as int], e);
            if after_current {
                assert(ps.take(i + 1).skip(f + 1) == ps.take(i as int).skip(f + 1).push(ps[i as int]));
                lemma_piece_indices_push(ps.take(i as int).skip(f + 1), ps[i as int], piece_id);
            }
        }
        if pid == piece_id {
            if after_current {
                proof {
                    lemma_skip_prefix_indices(ps, f + 1, i as int + 1, piece_id);
                }
                return Some(idx);
            }
            if idx == index {
                after_current = true;
                proof {
                    assert(ps[i as int] == e);
                    assert(first_pos(ps.take(i + 1), e) == i);
                    f = i as int;
                    lemma_first_prefix_up(ps, e, i + 1);
                    assert(ps.take(i + 1).skip(f + 1).len() == 0);
                }
            }
        }
        i += 1;
    }
    proof {
        assert(ps.take(ps.len() as int) == ps);
        if after_current {
            assert(ps.skip(f + 1) == ps.take(ps.len() as int).skip(f + 1));
        }
    }
    None
}

/// The piece indices of a window starting at `lo` begin with those of any shorter window.
proof fn lemma_skip_prefix_indices(ps: Seq<(u32, PieceId)>, lo: int, n: int, pid: PieceId)
    requires
        0 <= lo <= n <= ps.len(),
        piece_indices(ps.take(n).skip(lo), pid).len() > 0,
    ensures
        piece_indices(ps.skip(lo), pid).len() > 0,
        piece_indices(ps.skip(lo), pid)[0] == piece_indices(ps.take(n).skip(lo), pid)[0],
    decreases ps.len() - n,
{
    if n == ps.len() {
        assert(ps.take(n) == ps);
    } else {
        let w = ps.take(n).skip(lo);
        assert(ps.take(n + 1).skip(lo) == w.push(ps[n]));
        lemma_piece_indices_push(w, ps[n], pid);
        lemma_skip_prefix_indices(ps, lo, n + 1, pid);
    }
}

/// Turn at which `(index, piece_id)` was placed.
fn turn_index_for_placement(placements: &[(u32, PieceId)], index: u32, piece_id: PieceId) -> (turn: Option<usize>)
    ensures
        match turn {
            Some(t) => t == first_pos(placements@, (index, piece_id)) && t < placements@.len(),
            None => first_pos(placements@, (index, piece_id)) == placements@.len(),
        },
{
    let ghost ps = placements@;
    let ghost e = (index, piece_id);
    let mut i: usize = 0;
    while i < placements.len()
        invariant
            ps == placements@,
            e == (index, piece_id),
            i <= ps.len(),
            first_pos(ps.take(i as int), e) == i,
        decreases placements.len() - i,
    {
        let entry = placements[i];
        let idx = entry.0;
        let pid = entry.1;
        assert(entry == ps[i as int]);
        proof {
            assert(ps.take(i + 1) == ps.take(i as int).push(ps[i as int]));
            lemma_first_pos_push(ps.take(i as int), ps[i as int], e);
        }
        if idx == index && pid == piece_id {
            proof {
                assert(ps[i as int] == e);
                assert(first_pos(ps.take(i + 1), e) == i);
                lemma_first_prefix_up(ps, e, i + 1);
            }
            return Some(i);
        }
        i += 1;
    }
    proof {
        assert(ps.take(ps.len() as int) == ps);
    }
    None
}

/// `sim` is what a fresh simulation of `def` along `order` becomes after `turns` successful
/// turns (or, when `failed`, after `turns - 1` successful turns and one that placed nothing).
pub open spec fn replayed(def: GameDefinition, order: VisitOrder, sim: Simulation, turns: int, failed: bool) -> bool {
    exists|start: Simulation, states: Seq<Simulation>| {
        &&& is_fresh(def, order, start)
        &&& #[trigger] turn_chain(def, states, start, sim, failed)
        &&& states.len() == turns + 1
    }
}

/// Simulation state immediately before the turn that placed at `(index, piece_id)`: `None`
/// when the history holds no such placement, or when replaying stops on a turn that places
/// nothing.
pub fn replay_sim_before_placement(
    def: &GameDefinition,
    visit_order: VisitOrder,
    placements: &[(u32, PieceId)],
    index: u32,
    piece_id: PieceId,
) -> (sim: Option<Simulation>)
    requires
        def_fits(*def),
        placements@.len() < u32::MAX,
    ensures
        first_pos(placements@, (index, piece_id)) == placements@.len() ==> sim is None,
        first_pos(placements@, (index, piece_id)) < placements@.len() ==> match sim {
            Some(s) => s.wf(*def) && replayed(*def, visit_order, s, first_pos(placements@, (index, piece_id)), false),
            None => exists|t: int, s: Simulation| 1 <= t <= first_pos(placements@, (index, piece_id)) && #[trigger] replayed(*def, visit_order, s, t, true),
        },
{
    let turn_at = match turn_index_for_placement(placements, index, piece_id) {
        Some(t) => t,
        None => return None,
    };
    let mut sim = Simulation::new(def, visit_order);
    let ghost start = sim;
    let ghost mut states: Seq<Simulation> = seq![start];
    proof {
        crate::sim::lemma_chain_single(*def, start);
    }
    let mut k: usize = 0;
    while k < turn_at
        invariant
            sim.wf(*def),
            is_fresh(*def, visit_order, start),
            turn_at < placements@.len() < u32::MAX,
            turn_at == first_pos(placements@, (index, piece_id)),
            k <= turn_at,
            states.len() == k + 1,
            turn_chain(*def, states, start, sim, false),
            sim.spec_placements().len() <= k,
            sim.spec_turn_step() <= k,
        decreases turn_at - k,
    {
        let ghost before = sim;
        let ok = sim.step_turn(def);
        proof {
            crate::sim::lemma_chain_push(*def, states, start, before, sim, ok);
            states = states.push(sim);
        }
        if !ok {
            assert(replayed(*def, visit_order, sim, k + 1, true));
            return None;
        }
        k += 1;
    }
    Some(sim)
}

/// Skips on the scan that placed at `(index, piece_id)`, with the simulation state before it.
pub fn scan_skips_to_placement(
    def: &GameDefinition,
    visit_order: VisitOrder,
    placements: &[(u32, PieceId)],
    index: u32,
    piece_id: PieceId,
) -> (r: Option<(ScanSkips, Simulation)>)
    requires
        def_fits(*def),
        placements@.len() < u32::MAX,
    ensures
        first_pos(placements@, (index, piece_id)) == placements@.len() ==> r is None,
        first_pos(placements@, (index, piece_id)) < placements@.len() ==> match r {
            Some((skips, s)) => s.wf(*def) && replayed(*def, visit_order, s, first_pos(placements@, (index, piece_id)), false)
                && next_scan_skips(*def, s, skips.forbidden@, skips.occupied@),
            None => exists|t: int, s: Simulation| 1 <= t <= first_pos(placements@, (index, piece_id)) && #[trigger] replayed(*def, visit_order, s, t, true),
        },
{
    let sim = match replay_sim_before_placement(def, visit_order, placements, index, piece_id) {
        Some(s) => s,
        None => return None,
    };
    let skips = sim.scan_skips_on_next_scan(def);
    Some((skips, sim))
}

/// Forbidden (attacked, empty) skips only — see [`scan_skips_to_placement`] for the full split;
/// empty when the history holds no such placement or a turn before it places nothing.
pub fn forbidden_skips_to_placement(
    def: &GameDefinition,
    visit_order: VisitOrder,
    placements: &[(u32, PieceId)],
    index: u32,
    piece_id: PieceId,
) -> (cells: Vec<u32>)
    requires
        def_fits(*def),
        placements@.len() < u32::MAX,
    ensures
        first_pos(placements@, (index, piece_id)) == placements@.len() ==> cells@.len() == 0,
        first_pos(placements@, (index, piece_id)) < placements@.len() ==> (exists|s: Simulation, occupied: Seq<u32>| {
            &&& s.wf(*def)
            &&& replayed(*def, visit_order, s, first_pos(placements@, (index, piece_id)), false)
            &&& #[trigger] next_scan_skips(*def, s, cells@, occupied)
        }) || (cells@.len() == 0 && exists|t: int, s: Simulation| 1 <= t <= first_pos(placements@, (index, piece_id))
            && #[trigger] replayed(*def, visit_order, s, t, true)),
{
    match scan_skips_to_placement(def, visit_order, placements, index, piece_id) {
        Some((skips, sim)) => {
            assert(next_scan_skips(*def, sim, skips.forbidden@, skips.occupied@));
            skips.forbidden
        },
        None => Vec::new(),
    }
}

} // verus!
