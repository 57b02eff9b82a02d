//! The placement simulation: pieces take turns in round-robin order; on its turn a piece scans
//! forward from its cursor along the visit order for the first cell that is neither occupied nor
//! attacked by a piece it respects, occupies it and marks every cell it attacks from there.

use vstd::prelude::*;
use crate::grid::{
    spec_bytes_of,
    cell_width_for, grown_half, half_allowed, hits, lemma_union_fits, record_reach, width_mask, AttackGrid,
    OccupancyGrid, PlacementsLog, EMPTY_ARMY,
};
use crate::index_order::{
    lemma_order_scan_step, lemma_order_xy_bounded, lemma_scan_step_bounded, near_cell, VisitOrder,
};
use crate::place_profile::{PlaceProfiler, PlaceWorkStats};
use crate::model::{is_active, lemma_active_ids_bounds, GameDefinition, PieceId, MAX_PIECES};
use crate::mutate::{max_radius, move_radius};
use crate::spiral::abs;

verus! {

/// Soft cap on the simulation's heap footprint (occupancy + placements + attack grid). Once it is
/// reached the simulation stops advancing and keeps what it has placed.
pub const MEM_BUDGET_BYTES: u64 = 12 << 30;

/// Largest Chebyshev move length the simulation accepts: placements lie within `46341` of the
/// origin, so attacked cells stay inside the attack grid's coordinate range.
pub open spec fn move_limit() -> int {
    0x1FFF_FFFF
}

/// [`MEM_BUDGET_BYTES`] in the host's address width (saturating on 32-bit hosts).
pub open spec fn spec_default_budget() -> int {
    if MEM_BUDGET_BYTES > usize::MAX {
        usize::MAX as int
    } else {
        MEM_BUDGET_BYTES as int
    }
}

pub fn default_budget() -> (bytes: usize)
    ensures
        bytes == spec_default_budget(),
{
    if MEM_BUDGET_BYTES > usize::MAX as u64 {
        usize::MAX
    } else {
        MEM_BUDGET_BYTES as usize
    }
}

/// Cells skipped on a scan: attacked-but-empty vs already occupied.
#[derive(Clone, Debug, Default, PartialEq, Eq)]
pub struct ScanSkips {
    pub forbidden: Vec<u32>,
    pub occupied: Vec<u32>,
}

/// Per-piece placement aggregates maintained once per placement.
#[derive(Clone, Copy, Debug, Default, PartialEq, Eq, Structural)]
pub struct PieceTally {
    pub placements: u32,
    /// Visit index of this piece's first placement.
    pub first_index: u32,
    /// Visit index of this piece's latest placement.
    pub last_index: u32,
}

// ---------------------------------------------------------------------------------------------
// Model
// ---------------------------------------------------------------------------------------------

/// Moves of piece `p`.
pub open spec fn piece_moves(def: GameDefinition, p: PieceId) -> Seq<(i32, i32)> {
    def.pieces@[p as int].piece.valid_moves@
}

/// Definitions the simulation runs: at most [`MAX_PIECES`] pieces with bounded moves.
pub open spec fn def_fits(def: GameDefinition) -> bool {
    &&& def.pieces@.len() <= MAX_PIECES
    &&& forall|p: int, k: int| 0 <= p < def.pieces@.len() && 0 <= k < def.pieces@[p].piece.valid_moves@.len()
        ==> move_radius(#[trigger] def.pieces@[p].piece.valid_moves@[k]) <= move_limit()
}

/// Whether the simulation runs `def` ([`def_fits`]): callers outside the library test this before
/// building a [`Simulation`].
pub fn definition_fits(def: &GameDefinition) -> (fits: bool)
    ensures
        fits == def_fits(*def),
{
    if def.pieces.len() > MAX_PIECES {
        return false;
    }
    let mut p: usize = 0;
    while p < def.pieces.len()
        invariant
            p <= def.pieces@.len(),
            def.pieces@.len() <= MAX_PIECES,
            forall|q: int, k: int| 0 <= q < p && 0 <= k < def.pieces@[q].piece.valid_moves@.len()
                ==> move_radius(#[trigger] def.pieces@[q].piece.valid_moves@[k]) <= move_limit(),
        decreases def.pieces.len() - p,
    {
        let moves = &def.pieces[p].piece.valid_moves;
        let mut k: usize = 0;
        while k < moves.len()
            invariant
                p < def.pieces@.len(),
                moves@ == def.pieces@[p as int].piece.valid_moves@,
                k <= moves@.len(),
                forall|j: int| 0 <= j < k ==> move_radius(#[trigger] moves@[j]) <= move_limit(),
            decreases moves.len() - k,
        {
            let (x, y) = moves[k];
            let ax: i64 = if x < 0 { -(x as i64) } else { x as i64 };
            let ay: i64 = if y < 0 { -(y as i64) } else { y as i64 };
            let r = if ax < ay { ay } else { ax };
            if r > 0x1FFF_FFFF {
                return false;
            }
            k += 1;
        }
        p += 1;
    }
    true
}

/// Attacker bit of piece `p` (none for ids beyond the mask width).
pub open spec fn piece_bit(p: PieceId) -> u32 {
    if p < 32 {
        1u32 << (p as u32)
    } else {
        0
    }
}

/// Bitmask of the attackers in `blocked_by`.
pub open spec fn respected_bits(blocked_by: Seq<PieceId>) -> u32
    decreases blocked_by.len(),
{
    if blocked_by.len() == 0 {
        0
    } else {
        respected_bits(blocked_by.drop_last()) | piece_bit(blocked_by.last())
    }
}

/// Attackers respected by piece `d`.
pub open spec fn respected_mask_of(def: GameDefinition, d: PieceId) -> u32 {
    respected_bits(def.pieces@[d as int].blocked_by@)
}

/// Whether placement `e` attacks cell `(x, y)`.
pub open spec fn attacks_cell(def: GameDefinition, order: VisitOrder, e: (u32, PieceId), x: int, y: int) -> bool {
    let c = order.spec_index_to_xy(e.0 as nat);
    hits(c.0 as i32, c.1 as i32, piece_moves(def, e.1), x, y)
}

/// Attacker bits on `(x, y)` after the placements `ps`.
pub open spec fn mask_at(def: GameDefinition, order: VisitOrder, ps: Seq<(u32, PieceId)>, x: int, y: int) -> u32
    decreases ps.len(),
{
    if ps.len() == 0 {
        0
    } else {
        mask_at(def, order, ps.drop_last(), x, y) | (if attacks_cell(def, order, ps.last(), x, y) {
            piece_bit(ps.last().1)
        } else {
            0
        })
    }
}

/// Piece on visit index `i` after the placements `ps`.
pub open spec fn occupant(ps: Seq<(u32, PieceId)>, i: int) -> Option<PieceId>
    decreases ps.len(),
{
    if ps.len() == 0 {
        None
    } else if ps.last().0 == i {
        Some(ps.last().1)
    } else {
        occupant(ps.drop_last(), i)
    }
}

/// Whether piece `d` may be placed on index `i` after the placements `ps`: the cell is empty and
/// no attacker that `d` respects threatens it.
pub open spec fn legal_for(def: GameDefinition, order: VisitOrder, ps: Seq<(u32, PieceId)>, d: PieceId, i: int) -> bool {
    let c = order.spec_index_to_xy(i as nat);
    &&& occupant(ps, i) is None
    &&& mask_at(def, order, ps, c.0, c.1) & respected_mask_of(def, d) == 0
}

/// Every placement was legal when it was made, by a piece of the roster.
pub open spec fn placements_legal(def: GameDefinition, order: VisitOrder, ps: Seq<(u32, PieceId)>) -> bool {
    forall|k: int| 0 <= k < ps.len() ==> (#[trigger] ps[k]).1 < def.pieces@.len() && legal_for(def, order, ps.take(k), ps[k].1, ps[k].0 as int)
}

/// Per-piece tally derived from the placements.
pub open spec fn tally_of(ps: Seq<(u32, PieceId)>, p: PieceId) -> PieceTally
    decreases ps.len(),
{
    if ps.len() == 0 {
        PieceTally { placements: 0, first_index: 0, last_index: 0 }
    } else {
        let t = tally_of(ps.drop_last(), p);
        let e = ps.last();
        if e.1 == p {
            PieceTally {
                placements: (t.placements + 1) as u32,
                first_index: if t.placements == 0 { e.0 } else { t.first_index },
                last_index: e.0,
            }
        } else {
            t
        }
    }
}

pub proof fn lemma_tally_count(ps: Seq<(u32, PieceId)>, p: PieceId)
    requires
        ps.len() <= u32::MAX,
    ensures
        tally_of(ps, p).placements <= ps.len(),
    decreases ps.len(),
{
    if ps.len() > 0 {
        lemma_tally_count(ps.drop_last(), p);
    }
}

/// Every index below the cursor of piece `p` is illegal for `p` after the placements `ps`.
pub open spec fn cursors_passed_illegal(def: GameDefinition, order: VisitOrder, ps: Seq<(u32, PieceId)>, cursors: Seq<u32>) -> bool {
    forall|p: PieceId, j: int| p < cursors.len() && p < def.pieces@.len() && 0 <= j < cursors[p as int]
        ==> !#[trigger] legal_for(def, order, ps, p, j)
}

/// An index illegal for a piece stays illegal when a placement is added: occupied cells stay
/// occupied and attacker bits are only added.
pub proof fn lemma_illegal_stays(def: GameDefinition, order: VisitOrder, ps: Seq<(u32, PieceId)>, e: (u32, PieceId), d: PieceId, j: int)
    requires
        !legal_for(def, order, ps, d, j),
    ensures
        !legal_for(def, order, ps.push(e), d, j),
{
    let q = ps.push(e);
    assert(q.drop_last() == ps);
    assert(q.last() == e);
    let c = order.spec_index_to_xy(j as nat);
    let m = mask_at(def, order, ps, c.0, c.1);
    let b: u32 = if attacks_cell(def, order, e, c.0, c.1) { piece_bit(e.1) } else { 0 };
    let r = respected_mask_of(def, d);
    assert(mask_at(def, order, q, c.0, c.1) == m | b);
    lemma_or_bits(m, b, r);
}

/// Moving the cursor of `pid` forward to `c` over indices illegal for it keeps every passed
/// index illegal.
proof fn lemma_cursor_passes(def: GameDefinition, order: VisitOrder, ps: Seq<(u32, PieceId)>, cursors: Seq<u32>, pid: PieceId, c: u32)
    requires
        cursors_passed_illegal(def, order, ps, cursors),
        pid < cursors.len(),
        cursors[pid as int] <= c,
        forall|j: int| cursors[pid as int] <= j < c ==> !#[trigger] legal_for(def, order, ps, pid, j),
    ensures
        cursors_passed_illegal(def, order, ps, cursors.update(pid as int, c)),
{
    let n = cursors.update(pid as int, c);
    assert forall|p: PieceId, j: int| p < n.len() && p < def.pieces@.len() && 0 <= j < n[p as int]
        implies !#[trigger] legal_for(def, order, ps, p, j) by {
        if p == pid && j >= cursors[pid as int] {
        } else {
            assert(j < cursors[p as int]);
        }
    }
}

/// Placing `pid` on `c` after its cursor passed every illegal index from the cursor to `c`, then
/// moving the cursor past `c`, keeps every passed index illegal.
proof fn lemma_cursor_places(def: GameDefinition, order: VisitOrder, ps: Seq<(u32, PieceId)>, cursors: Seq<u32>, pid: PieceId, c: u32)
    requires
        cursors_passed_illegal(def, order, ps, cursors),
        pid < cursors.len(),
        cursors[pid as int] <= c,
        forall|j: int| cursors[pid as int] <= j < c ==> !#[trigger] legal_for(def, order, ps, pid, j),
    ensures
        cursors_passed_illegal(def, order, ps.push((c, pid)), cursors.update(pid as int, if c == u32::MAX { u32::MAX } else { (c + 1) as u32 })),
{
    let q = ps.push((c, pid));
    let n = cursors.update(pid as int, if c == u32::MAX { u32::MAX } else { (c + 1) as u32 });
    assert(q.drop_last() == ps);
    assert forall|p: PieceId, j: int| p < n.len() && p < def.pieces@.len() && 0 <= j < n[p as int]
        implies !#[trigger] legal_for(def, order, q, p, j) by {
        if j == c {
            assert(occupant(q, j) is Some);
        } else {
            if !(p == pid && j >= cursors[pid as int]) {
                assert(j < cursors[p as int]);
            }
            lemma_illegal_stays(def, order, ps, (c, pid), p, j);
        }
    }
}

/// Appending one legal placement keeps the whole history legal.
pub proof fn lemma_legal_push(def: GameDefinition, order: VisitOrder, ps: Seq<(u32, PieceId)>, e: (u32, PieceId))
    requires
        placements_legal(def, order, ps),
        e.1 < def.pieces@.len(),
        legal_for(def, order, ps, e.1, e.0 as int),
    ensures
        placements_legal(def, order, ps.push(e)),
{
    let q = ps.push(e);
    assert forall|k: int| 0 <= k < q.len() implies (#[trigger] q[k]).1 < def.pieces@.len() && legal_for(def, order, q.take(k), q[k].1, q[k].0 as int) by {
        if k < ps.len() {
            assert(q.take(k) == ps.take(k));
            assert(q[k] == ps[k]);
        } else {
            assert(q.take(k) == ps);
        }
    }
}

/// Bits outside the respected mask of `d` never matter to `d`'s scan.
proof fn lemma_masked_test(m: u32, w: u32, r: u32)
    requires
        r & w == r,
    ensures
        ((m & w) & r == 0) == (m & r == 0),
{
    assert(r & w == r ==> ((m & w) & r) == (m & r)) by (bit_vector);
}

/// Every index a placement took is occupied afterwards.
proof fn lemma_occupant_kept(ps: Seq<(u32, PieceId)>, k: int, n: int)
    requires
        0 <= k < n <= ps.len(),
    ensures
        occupant(ps.take(n), ps[k].0 as int) is Some,
    decreases n,
{
    let t = ps.take(n);
    if k == n - 1 {
        assert(t.last() == ps[k]);
    } else {
        assert(t.drop_last() == ps.take(n - 1));
        lemma_occupant_kept(ps, k, n - 1);
    }
}

/// No two placements of a legal history share an index.
pub proof fn lemma_placements_distinct(def: GameDefinition, order: VisitOrder, ps: Seq<(u32, PieceId)>)
    requires
        placements_legal(def, order, ps),
    ensures
        forall|a: int, b: int| 0 <= a < b < ps.len() ==> #[trigger] ps[a].0 != #[trigger] ps[b].0,
{
    assert forall|a: int, b: int| 0 <= a < b < ps.len() implies #[trigger] ps[a].0 != #[trigger] ps[b].0 by {
        lemma_occupant_kept(ps, a, b);
        assert(legal_for(def, order, ps.take(b), ps[b].1, ps[b].0 as int));
    }
}

/// A piece's bit on a cell comes from one of its own placements that attacks the cell.
pub proof fn lemma_mask_witness(def: GameDefinition, order: VisitOrder, ps: Seq<(u32, PieceId)>, a: PieceId, x: int, y: int)
    requires
        a < 32,
        mask_at(def, order, ps, x, y) & piece_bit(a) != 0,
    ensures
        exists|k: int| 0 <= k < ps.len() && (#[trigger] ps[k]).1 == a && attacks_cell(def, order, ps[k], x, y),
    decreases ps.len(),
{
    let m = mask_at(def, order, ps, x, y);
    if ps.len() == 0 {
        assert(0u32 & piece_bit(a) == 0) by (bit_vector);
    } else {
        let rest = mask_at(def, order, ps.drop_last(), x, y);
        let e = ps.last();
        let eb = if attacks_cell(def, order, e, x, y) { piece_bit(e.1) } else { 0 };
        let ab = piece_bit(a);
        assert(m == rest | eb);
        assert((rest | eb) & ab != 0 ==> rest & ab != 0 || eb & ab != 0) by (bit_vector);
        if rest & ab != 0 {
            lemma_mask_witness(def, order, ps.drop_last(), a, x, y);
            let k = choose|k: int| 0 <= k < ps.drop_last().len() && (#[trigger] ps.drop_last()[k]).1 == a && attacks_cell(def, order, ps.drop_last()[k], x, y);
            assert(ps[k] == ps.drop_last()[k]);
        } else {
            assert(eb & ab != 0);
            assert(0u32 & ab == 0) by (bit_vector);
            let p = e.1;
            if p < 32 {
                let pu = p as u32;
                let au = a as u32;
                assert(pu < 32 && au < 32 && (1u32 << pu) & (1u32 << au) != 0 ==> pu == au) by (bit_vector);
            }
            assert(ps[ps.len() - 1] == e);
        }
    }
}

// ---------------------------------------------------------------------------------------------
// Derived tables
// ---------------------------------------------------------------------------------------------

/// Per defender, a bitmask of the attacker ids whose threats block its placement.
pub fn respected_masks(def: &GameDefinition) -> (masks: Vec<u32>)
    ensures
        masks@.len() == def.pieces@.len(),
        forall|d: int| 0 <= d < masks@.len() ==> #[trigger] masks@[d] == respected_mask_of(*def, d as PieceId),
{
    let piece_count = def.pieces.len();
    let mut masks: Vec<u32> = Vec::new();
    let mut defender: usize = 0;
    while defender < piece_count
        invariant
            piece_count == def.pieces@.len(),
            defender <= piece_count,
            masks@.len() == defender,
            forall|d: int| 0 <= d < defender ==> #[trigger] masks@[d] == respected_mask_of(*def, d as PieceId),
        decreases piece_count - defender,
    {
        let blocked = &def.pieces[defender].blocked_by;
        let mut mask: u32 = 0;
        let mut j: usize = 0;
        while j < blocked.len()
            invariant
                j <= blocked@.len(),
                mask == respected_bits(blocked@.subrange(0, j as int)),
            decreases blocked.len() - j,
        {
            let attacker = blocked[j];
            proof {
                assert(blocked@.subrange(0, j + 1).drop_last() == blocked@.subrange(0, j as int));
            }
            if attacker < MAX_PIECES {
                mask = mask | (1u32 << (attacker as u32));
            } else {
                assert(mask | 0 == mask) by (bit_vector);
            }
            j += 1;
        }
        assert(blocked@.subrange(0, blocked@.len() as int) == blocked@);
        masks.push(mask);
        defender += 1;
    }
    masks
}

/// Per piece, the max Chebyshev radius of its move set (`0` when it has no moves).
pub fn move_radii(def: &GameDefinition) -> (radii: Vec<i32>)
    requires
        def_fits(*def),
    ensures
        radii@.len() == def.pieces@.len(),
        forall|p: int| 0 <= p < radii@.len() ==> #[trigger] radii@[p] == max_radius(def.pieces@[p].piece.valid_moves@),
        forall|p: int| 0 <= p < radii@.len() ==> 0 <= #[trigger] radii@[p] <= move_limit(),
{
    let n = def.pieces.len();
    let mut radii: Vec<i32> = Vec::new();
    let mut p: usize = 0;
    while p < n
        invariant
            n == def.pieces@.len(),
            def_fits(*def),
            p <= n,
            radii@.len() == p,
            forall|q: int| 0 <= q < p ==> #[trigger] radii@[q] == max_radius(def.pieces@[q].piece.valid_moves@),
            forall|q: int| 0 <= q < p ==> 0 <= #[trigger] radii@[q] <= move_limit(),
        decreases n - p,
    {
        let moves = &def.pieces[p].piece.valid_moves;
        let mut best: i32 = 0;
        let mut k: usize = 0;
        while k < moves.len()
            invariant
                p < def.pieces@.len(),
                moves@ == def.pieces@[p as int].piece.valid_moves@,
                def_fits(*def),
                k <= moves@.len(),
                best == max_radius(moves@.subrange(0, k as int)),
                0 <= best <= move_limit(),
            decreases moves.len() - k,
        {
            let (dx, dy) = moves[k];
            assert(move_radius(moves@[k as int]) <= move_limit());
            let ax = if dx < 0 { -dx } else { dx };
            let ay = if dy < 0 { -dy } else { dy };
            let r = if ax < ay { ay } else { ax };
            proof {
                let s1 = moves@.subrange(0, k + 1);
                assert(s1.drop_last() == moves@.subrange(0, k as int));
                assert(s1.last() == moves@[k as int]);
            }
            if best < r {
                best = r;
            }
            k += 1;
        }
        assert(moves@.subrange(0, moves@.len() as int) == moves@);
        radii.push(best);
        p += 1;
    }
    radii
}

/// Enabled turn order captured once per definition.
pub fn active_turn_order(def: &GameDefinition) -> (ids: Vec<PieceId>)
    ensures
        ids@ == def.spec_active_turn_order(),
{
    def.active_turn_order().iter()
}

/// Whether the placement at `from_index` of `attacker` threatens the cell of `target_index`.
pub open spec fn spec_placement_attacks_index(def: GameDefinition, order: VisitOrder, from_index: u32, attacker: PieceId, target_index: u32) -> bool {
    let t = order.spec_index_to_xy(target_index as nat);
    attacks_cell(def, order, (from_index, attacker), t.0, t.1)
}

/// Whether `attacker`, placed at `from_index`, attacks the cell of `target_index`.
pub fn placement_attacks_index(
    def: &GameDefinition,
    visit_order: VisitOrder,
    from_index: u32,
    attacker: PieceId,
    target_index: u32,
) -> (attacks: bool)
    requires
        attacker < def.pieces@.len(),
    ensures
        attacks == spec_placement_attacks_index(*def, visit_order, from_index, attacker, target_index),
{
    let (x, y) = visit_order.index_to_xy(from_index);
    let (tx, ty) = visit_order.index_to_xy(target_index);
    let moves = &def.pieces[attacker].piece.valid_moves;
    let mut k: usize = 0;
    while k < moves.len()
        invariant
            attacker < def.pieces@.len(),
            moves@ == piece_moves(*def, attacker),
            (x as int, y as int) == visit_order.spec_index_to_xy(from_index as nat),
            (tx as int, ty as int) == visit_order.spec_index_to_xy(target_index as nat),
            -46341 <= x <= 46341,
            -46341 <= y <= 46341,
            k <= moves@.len(),
            forall|j: int| 0 <= j < k ==> !(x + (#[trigger] moves@[j]).0 == tx && y + moves@[j].1 == ty),
        decreases moves.len() - k,
    {
        let (dx, dy) = moves[k];
        if dx as i64 + x as i64 == tx as i64 && dy as i64 + y as i64 == ty as i64 {
            assert(x + moves@[k as int].0 == tx && y + moves@[k as int].1 == ty);
            return true;
        }
        k += 1;
    }
    false
}

/// A cursor standing on `c` at cell `pos`: `pos` is the cell of `c`, unless the cursor is pinned
/// on the last index and that index is occupied.
pub open spec fn cursor_pos_ok(order: VisitOrder, ps: Seq<(u32, PieceId)>, c: u32, pos: (i32, i32)) -> bool {
    &&& abs(pos.0 as int) <= 46342
    &&& abs(pos.1 as int) <= 46342
    &&& ((pos.0 as int, pos.1 as int) == order.spec_index_to_xy(c as nat)
        || (c == u32::MAX && occupant(ps, u32::MAX as int) is Some))
}

/// What one turn did. With no active piece nothing happens and the turn fails. Otherwise the
/// turn pointer and step counter advance; on success the scanning piece was placed on the
/// first cell from its cursor that it may legally take, and its cursor moved past that cell; on
/// failure nothing was placed and the simulation either saturated or the piece has no legal
/// cell left.
pub open spec fn step_outcome(def: GameDefinition, before: Simulation, after: Simulation, ok: bool) -> bool {
    if def.spec_active_turn_order().len() == 0 {
        !ok && after == before
    } else {
        active_step_outcome(def, before, after, ok)
    }
}

/// [`step_outcome`] when some piece is active.
pub open spec fn active_step_outcome(def: GameDefinition, before: Simulation, after: Simulation, ok: bool) -> bool {
    let ids = def.spec_active_turn_order();
    let t = before.spec_turn_index();
    let pid = ids[t];
    let c0 = before.spec_cursors()[pid as int] as int;
    let ps = before.spec_placements();
    let order = before.spec_order();
    &&& after.spec_turn_index() == if t + 1 == ids.len() { 0 } else { t + 1 }
    &&& after.spec_turn_step() == before.spec_turn_step() + 1
    &&& after.spec_order() == order
    &&& after.spec_cursors().len() == before.spec_cursors().len()
    &&& forall|q: int| 0 <= q < after.spec_cursors().len() && q != pid ==> #[trigger] after.spec_cursors()[q] == before.spec_cursors()[q]
    &&& ok ==> {
        let c = after.spec_placements().last().0 as int;
        &&& after.spec_placements() == ps.push((c as u32, pid))
        &&& c0 <= c
        &&& legal_for(def, order, ps, pid, c)
        &&& forall|j: int| c0 <= j < c ==> !#[trigger] legal_for(def, order, ps, pid, j)
        &&& after.spec_cursors()[pid as int] == if c == u32::MAX { u32::MAX } else { (c + 1) as u32 }
    }
    &&& !ok ==> {
        &&& after.spec_placements() == ps
        &&& c0 <= after.spec_cursors()[pid as int]
        &&& after.spec_saturated() || (after.spec_cursors()[pid as int] == u32::MAX && forall|j: int| c0 <= j <= u32::MAX ==> !#[trigger] legal_for(def, order, ps, pid, j))
    }
}

/// `a` and `b` hold the same board, cursors and turns (they may differ in budget and
/// saturation).
/// Sum of three byte counts, saturating at `usize::MAX`.
pub open spec fn spec_footprint_of(a: int, b: int, c: int) -> int {
    if a + b + c > usize::MAX {
        usize::MAX as int
    } else {
        a + b + c
    }
}

/// Sum of three byte counts, saturating at `usize::MAX`.
pub fn footprint_of(a: usize, b: usize, c: usize) -> (bytes: usize)
    ensures
        bytes == spec_footprint_of(a as int, b as int, c as int),
{
    a.saturating_add(b).saturating_add(c)
}

/// The memory checkpoint's answer: already saturated, or the measured footprint has reached the
/// budget.
pub open spec fn spec_budget_reached(saturated: bool, footprint: int, budget: int) -> bool {
    saturated || footprint >= budget
}

/// The memory checkpoint's decision for a measured `footprint` (see [`spec_budget_reached`]).
pub fn budget_reached(saturated: bool, footprint: usize, budget: usize) -> (reached: bool)
    ensures
        reached == spec_budget_reached(saturated, footprint as int, budget as int),
{
    saturated || footprint >= budget
}

pub open spec fn same_board(a: Simulation, b: Simulation) -> bool {
    &&& a.spec_placements() == b.spec_placements()
    &&& a.spec_cursors() == b.spec_cursors()
    &&& a.spec_positions() == b.spec_positions()
    &&& a.spec_turn_step() == b.spec_turn_step()
    &&& a.spec_turn_index() == b.spec_turn_index()
    &&& a.spec_order() == b.spec_order()
    &&& a.spec_tally() == b.spec_tally()
    &&& a.spec_active_ids() == b.spec_active_ids()
    &&& a.spec_respected() == b.spec_respected()
    &&& a.spec_min_footprint() == b.spec_min_footprint()
    &&& a.spec_occupancy_len() == b.spec_occupancy_len()
    &&& forall|i: int| #[trigger] a.spec_occupied(i) == b.spec_occupied(i)
    &&& forall|x: int, y: int| #[trigger] a.spec_grid_at(x, y) == b.spec_grid_at(x, y)
}

/// Whether piece `q` is enabled and its cursor has not yet passed `target`.
pub open spec fn cursor_pending(def: GameDefinition, cursors: Seq<u32>, target: u32, q: int) -> bool {
    &&& 0 <= q < cursors.len()
    &&& q < def.pieces@.len()
    &&& def.pieces@[q].enabled
    &&& cursors[q] <= target
}

/// Whether some enabled piece still has to scan up to `target`.
pub open spec fn spec_needs_work(def: GameDefinition, cursors: Seq<u32>, target: u32) -> bool {
    exists|q: int| #[trigger] cursor_pending(def, cursors, target, q)
}

/// A profiler whose counters have room for one more placement by any piece of `def`.
pub open spec fn profile_room(p: PlaceProfiler, def: GameDefinition) -> bool {
    let w = p.work;
    &&& w.scan_cells_examined <= u64::MAX - 0x1_0000_0000
    &&& w.scan_single_step_rejects <= u64::MAX - 0x1_0000_0000
    &&& w.placements < u64::MAX
    &&& w.occupancy_grows < u64::MAX
    &&& forall|q: int| 0 <= q < def.pieces@.len() ==> {
        let n = (#[trigger] def.pieces@[q]).piece.valid_moves@.len();
        &&& w.valid_move_steps + n <= u64::MAX
        &&& w.xy_to_index_calls + n <= u64::MAX
        &&& w.forbidden_bit_inserts + n <= u64::MAX
    }
}

/// Whether `profiler` has room for one more profiled turn of `def` ([`profile_room`]).
pub fn profile_has_room(profiler: &PlaceProfiler, def: &GameDefinition) -> (room: bool)
    ensures
        room == profile_room(*profiler, *def),
{
    let w = profiler.work;
    if w.scan_cells_examined > u64::MAX - 0x1_0000_0000 || w.scan_single_step_rejects > u64::MAX - 0x1_0000_0000
        || w.placements == u64::MAX || w.occupancy_grows == u64::MAX {
        return false;
    }
    let mut q: usize = 0;
    while q < def.pieces.len()
        invariant
            q <= def.pieces@.len(),
            w == profiler.work,
            forall|r: int| 0 <= r < q ==> {
                let n = (#[trigger] def.pieces@[r]).piece.valid_moves@.len();
                &&& w.valid_move_steps + n <= u64::MAX
                &&& w.xy_to_index_calls + n <= u64::MAX
                &&& w.forbidden_bit_inserts + n <= u64::MAX
            },
        decreases def.pieces@.len() - q,
    {
        let n = def.pieces[q].piece.valid_moves.len() as u64;
        if n > u64::MAX - w.valid_move_steps || n > u64::MAX - w.xy_to_index_calls || n > u64::MAX - w.forbidden_bit_inserts {
            assert(!({
                let n = def.pieces@[q as int].piece.valid_moves@.len();
                &&& w.valid_move_steps + n <= u64::MAX
                &&& w.xy_to_index_calls + n <= u64::MAX
                &&& w.forbidden_bit_inserts + n <= u64::MAX
            }));
            return false;
        }
        q += 1;
    }
    true
}

/// `(attacker, index)` for each move of `pid` placed on `xy`, in move order, for the attacked
/// cells near the origin (see [`near_cell`]).
pub open spec fn attack_records(order: VisitOrder, pid: PieceId, xy: (int, int), moves: Seq<(i32, i32)>) -> Seq<(usize, u32)>
    decreases moves.len(),
{
    if moves.len() == 0 {
        seq![]
    } else {
        let m = moves.last();
        let t = (xy.0 + m.0, xy.1 + m.1);
        attack_records(order, pid, xy, moves.drop_last()) + if near_cell(t.0, t.1) {
            seq![(pid, order.spec_xy_to_index(t.0, t.1) as u32)]
        } else {
            seq![]
        }
    }
}

/// What a placement of `pid` on the cell of `index` adds to a profiler: one placement, one
/// occupancy growth when the occupancy grid had to grow (`grew`), the piece's moves (walked,
/// looked up, and each forbidding a cell for one layer), and its attack records. Nothing while
/// profiling is off.
pub open spec fn placement_profiled(def: GameDefinition, order: VisitOrder, pid: PieceId, index: u32, grew: bool, p0: PlaceProfiler, p1: PlaceProfiler) -> bool {
    let w = p0.work;
    let n = piece_moves(def, pid).len();
    &&& p0.profiling_enabled ==> p1.work == PlaceWorkStats {
        placements: (w.placements + 1) as u64,
        occupancy_grows: if grew { (w.occupancy_grows + 1) as u64 } else { w.occupancy_grows },
        valid_move_steps: (w.valid_move_steps + n) as u64,
        xy_to_index_calls: (w.xy_to_index_calls + n) as u64,
        forbidden_bit_inserts: (w.forbidden_bit_inserts + n) as u64,
        ..w
    }
    &&& p0.profiling_enabled ==> p1.forbidden_records@ == p0.forbidden_records@ + attack_records(order, pid, order.spec_index_to_xy(index as nat), piece_moves(def, pid))
    &&& !p0.profiling_enabled ==> p1.work == w && p1.forbidden_records@ == p0.forbidden_records@
    &&& p1.forbidden_inserts == p0.forbidden_inserts
    &&& p1.timing == p0.timing
    &&& p1.timing_enabled == p0.timing_enabled
    &&& p1.profiling_enabled == p0.profiling_enabled
}

/// The profiler left as it was.
pub open spec fn profiler_kept(p0: PlaceProfiler, p1: PlaceProfiler) -> bool {
    &&& p1.work == p0.work
    &&& p1.forbidden_records@ == p0.forbidden_records@
    &&& p1.forbidden_inserts == p0.forbidden_inserts
    &&& p1.timing == p0.timing
    &&& p1.timing_enabled == p0.timing_enabled
    &&& p1.profiling_enabled == p0.profiling_enabled
}

/// Where the scan of the turn from `before` stopped: the cell it took, or where the cursor of
/// the scanning piece rests.
pub open spec fn scan_end(def: GameDefinition, before: Simulation, after: Simulation, ok: bool) -> int {
    let pid = def.spec_active_turn_order()[before.spec_turn_index()];
    if ok {
        after.spec_placements().last().0 as int
    } else {
        after.spec_cursors()[pid as int] as int
    }
}

/// What a profiled turn adds to the profiler. With profiling on and a piece active: the scan
/// examined every cell from the piece's cursor through [`scan_end`] and stepped past all but the
/// last; a placement adds what [`placement_profiled`] says. Otherwise nothing.
pub open spec fn turn_profiled(def: GameDefinition, before: Simulation, after: Simulation, ok: bool, p0: PlaceProfiler, p1: PlaceProfiler) -> bool {
    let ids = def.spec_active_turn_order();
    if !p0.profiling_enabled || ids.len() == 0 {
        profiler_kept(p0, p1)
    } else {
        let pid = ids[before.spec_turn_index()];
        let span = scan_end(def, before, after, ok) - before.spec_cursors()[pid as int];
        let w = p0.work;
        let scanned = PlaceProfiler {
            work: PlaceWorkStats {
                scan_cells_examined: (w.scan_cells_examined + span + 1) as u64,
                scan_single_step_rejects: (w.scan_single_step_rejects + span) as u64,
                ..w
            },
            ..p0
        };
        if ok {
            let end = scan_end(def, before, after, ok);
            placement_profiled(def, before.spec_order(), pid, end as u32, end >= before.spec_occupancy_len(), scanned, p1)
        } else {
            profiler_kept(scanned, p1)
        }
    }
}

/// Count in `profiler` a placement of `pid` on the cell of `index`, which made the occupancy
/// grid grow when `grew`.
fn profile_placement(def: &GameDefinition, order: VisitOrder, pid: PieceId, index: u32, grew: bool, profiler: &mut PlaceProfiler)
    requires
        def_fits(*def),
        pid < def.pieces@.len(),
        old(profiler).profiling_enabled ==> {
            let w = old(profiler).work;
            let n = piece_moves(*def, pid).len();
            &&& w.placements < u64::MAX
            &&& w.occupancy_grows < u64::MAX
            &&& w.valid_move_steps + n <= u64::MAX
            &&& w.xy_to_index_calls + n <= u64::MAX
            &&& w.forbidden_bit_inserts + n <= u64::MAX
        },
    ensures
        placement_profiled(*def, order, pid, index, grew, *old(profiler), *final(profiler)),
{
    if !profiler.profiling_enabled {
        return;
    }
    let moves = &def.pieces[pid].piece.valid_moves;
    profiler.note_placement_work(moves.len() as u64, 1);
    if grew {
        profiler.note_occupancy_grow();
    }
    proof {
        lemma_order_xy_bounded(order, index as nat);
    }
    let (x, y) = order.index_to_xy(index);
    let ghost base = profiler.forbidden_records@;
    let ghost counted = *profiler;
    let mut i: usize = 0;
    while i < moves.len()
        invariant
            def_fits(*def),
            pid < def.pieces@.len(),
            moves@ == piece_moves(*def, pid),
            i <= moves@.len(),
            abs(x as int) <= 46341,
            abs(y as int) <= 46341,
            (x as int, y as int) == order.spec_index_to_xy(index as nat),
            profiler.forbidden_records@ == base + attack_records(order, pid, (x as int, y as int), moves@.take(i as int)),
            profiler.work == counted.work,
            profiler.forbidden_inserts == counted.forbidden_inserts,
            profiler.timing == counted.timing,
            profiler.timing_enabled == counted.timing_enabled,
            profiler.profiling_enabled,
            counted.profiling_enabled,
        decreases moves.len() - i,
    {
        let (dx, dy) = moves[i];
        assert(move_radius(moves@[i as int]) <= move_limit());
        let near = order.near_xy_to_index(x + dx, y + dy);
        if let Some(t) = near {
            profiler.push_forbidden_record(pid, t);
        }
        proof {
            let s = moves@.take(i as int + 1);
            assert(s.drop_last() =~= moves@.take(i as int));
            assert(s.last() == moves@[i as int]);
        }
        i += 1;
    }
    proof {
        assert(moves@.take(moves@.len() as int) =~= moves@);
    }
}

/// Overwrite `vec` with `len` copies of `fill`, reusing its allocation when the length matches.
fn resize_piece_vectors<T: Copy>(vec: &mut Vec<T>, len: usize, fill: T)
    ensures
        final(vec)@ == Seq::new(len as nat, |i: int| fill),
{
    if vec.len() == len {
        let mut i: usize = 0;
        while i < len
            invariant
                vec@.len() == len,
                i <= len,
                forall|j: int| 0 <= j < i ==> vec@[j] == fill,
            decreases len - i,
        {
            vec.set(i, fill);
            i += 1;
        }
    } else {
        *vec = Vec::new();
        let mut i: usize = 0;
        while i < len
            invariant
                vec@.len() == i,
                i <= len,
                forall|j: int| 0 <= j < i ==> vec@[j] == fill,
            decreases len - i,
        {
            vec.push(fill);
            i += 1;
        }
    }
    assert(vec@ =~= Seq::new(len as nat, |i: int| fill));
}

/// `end` is where a scan of piece `pid` from `c0` stops: every index before it is illegal for
/// the piece, and `end` itself is legal unless the scan ran past the last index.
pub open spec fn is_scan_end(def: GameDefinition, order: VisitOrder, ps: Seq<(u32, PieceId)>, pid: PieceId, c0: int, end: int) -> bool {
    &&& c0 <= end <= u32::MAX + 1
    &&& forall|k: int| c0 <= k < end ==> !#[trigger] legal_for(def, order, ps, pid, k)
    &&& end <= u32::MAX ==> legal_for(def, order, ps, pid, end)
}

/// `cells` lists, in increasing order, exactly the indices of `[lo, hi)` that are occupied
/// (`occupied`) or empty (`!occupied`) after the placements `ps`.
pub open spec fn exact_cells(cells: Seq<u32>, ps: Seq<(u32, PieceId)>, lo: int, hi: int, occupied: bool) -> bool {
    &&& forall|a: int, b: int| 0 <= a < b < cells.len() ==> cells[a] < cells[b]
    &&& forall|k: int| 0 <= k < cells.len() ==> lo <= #[trigger] cells[k] < hi && (occupant(ps, cells[k] as int) is Some) == occupied
    &&& forall|j: int| lo <= j < hi && (occupant(ps, j) is Some) == occupied ==> #[trigger] cells.contains(j as u32)
}

proof fn lemma_exact_cells_extend(before: Seq<u32>, after: Seq<u32>, ps: Seq<(u32, PieceId)>, lo: int, c: int, occupied: bool)
    requires
        exact_cells(before, ps, lo, c, occupied),
        0 <= lo <= c <= u32::MAX,
        (occupant(ps, c) is Some) == occupied ==> after == before.push(c as u32),
        (occupant(ps, c) is Some) != occupied ==> after == before,
    ensures
        exact_cells(after, ps, lo, c + 1, occupied),
{
    assert forall|a: int, b: int| 0 <= a < b < after.len() implies after[a] < after[b] by {
        if b == before.len() {
            assert(before[a] < c);
        }
    }
    assert forall|k: int| 0 <= k < after.len() implies lo <= #[trigger] after[k] < c + 1 && (occupant(ps, after[k] as int) is Some) == occupied by {
        if k < before.len() {
            assert(after[k] == before[k]);
        } else {
            assert((occupant(ps, c) is Some) == occupied);
            assert(after == before.push(c as u32));
            assert(after[k] == c as u32);
        }
    }
    assert forall|j: int| lo <= j < c + 1 && (occupant(ps, j) is Some) == occupied implies #[trigger] after.contains(j as u32) by {
        if j < c {
            assert(before.contains(j as u32));
            let k = choose|k: int| 0 <= k < before.len() && before[k] == j as u32;
            assert(after[k] == j as u32);
        } else {
            assert(after[after.len() - 1] == c as u32);
        }
    }
}

/// Ids below `n` whose bit is set in `hit`, in increasing order.
pub open spec fn bits_below(hit: u32, n: int) -> Seq<PieceId>
    decreases n,
{
    if n <= 0 {
        seq![]
    } else {
        bits_below(hit, n - 1) + (if hit & (1u32 << ((n - 1) as u32)) != 0 { seq![(n - 1) as PieceId] } else { seq![] })
    }
}

/// A bit is set in an OR exactly when it is set in one of the operands.
proof fn lemma_or_bits(m: u32, b: u32, r: u32)
    by (bit_vector)
    ensures
        ((m | b) & r != 0) == (m & r != 0 || b & r != 0),
{
}

/// Facts about the single bit `1 << a`: it is nonzero, an OR with it holds it, an AND holds it
/// when both operands do, no bit is set in zero, and two single bits meet only when equal.
proof fn lemma_single_bit(x: u32, y: u32, a: u32, l: u32)
    by (bit_vector)
    requires
        a < 32,
    ensures
        (1u32 << a) != 0,
        (x | (1u32 << a)) & (1u32 << a) != 0,
        ((x & y) & (1u32 << a) != 0) == (x & (1u32 << a) != 0 && y & (1u32 << a) != 0),
        0u32 & (1u32 << a) == 0,
        l < 32 ==> (((1u32 << l) & (1u32 << a) != 0) == (l == a)),
{
}

/// [`bits_below`] lists, in increasing order, exactly the ids below `n` whose bit is set.
pub proof fn lemma_bits_below_members(hit: u32, n: int)
    requires
        0 <= n <= 32,
    ensures
        forall|i: int, j: int| 0 <= i < j < bits_below(hit, n).len() ==> bits_below(hit, n)[i] < bits_below(hit, n)[j],
        forall|i: int| 0 <= i < bits_below(hit, n).len() ==> bits_below(hit, n)[i] < n,
        forall|a: PieceId| #[trigger] bits_below(hit, n).contains(a) <==> a < n && hit & (1u32 << (a as u32)) != 0,
    decreases n,
{
    if n > 0 {
        lemma_bits_below_members(hit, n - 1);
        let s0 = bits_below(hit, n - 1);
        let s = bits_below(hit, n);
        let top = (n - 1) as PieceId;
        if hit & (1u32 << ((n - 1) as u32)) != 0 {
            assert(s == s0.push(top));
            assert forall|a: PieceId| #[trigger] s.contains(a) <==> a < n && hit & (1u32 << (a as u32)) != 0 by {
                if s.contains(a) {
                    let i = choose|i: int| 0 <= i < s.len() && s[i] == a;
                    if i < s0.len() {
                        assert(s0[i] == a);
                        assert(s0.contains(a));
                    }
                }
                if a < n && hit & (1u32 << (a as u32)) != 0 {
                    if a < n - 1 {
                        assert(s0.contains(a));
                        let i = choose|i: int| 0 <= i < s0.len() && s0[i] == a;
                        assert(s[i] == a);
                    } else {
                        assert(s[s.len() - 1] == a);
                    }
                }
            }
        } else {
            assert(s == s0);
            assert forall|a: PieceId| #[trigger] s.contains(a) <==> a < n && hit & (1u32 << (a as u32)) != 0 by {
                if a == n - 1 {
                    assert(!s0.contains(a));
                }
            }
        }
    }
}

/// A placement by a piece with an id below `32` that attacks `(x, y)` sets that piece's bit in
/// the attacker mask of `(x, y)`.
proof fn lemma_mask_has_attack(def: GameDefinition, order: VisitOrder, ps: Seq<(u32, PieceId)>, k: int, x: int, y: int)
    requires
        0 <= k < ps.len(),
        ps[k].1 < 32,
        attacks_cell(def, order, ps[k], x, y),
    ensures
        mask_at(def, order, ps, x, y) & piece_bit(ps[k].1) != 0,
    decreases ps.len(),
{
    let m = mask_at(def, order, ps, x, y);
    let rest = mask_at(def, order, ps.drop_last(), x, y);
    let e = ps.last();
    let eb: u32 = if attacks_cell(def, order, e, x, y) { piece_bit(e.1) } else { 0 };
    let ab = piece_bit(ps[k].1);
    assert(m == rest | eb);
    if k == ps.len() - 1 {
        assert(eb == ab);
        lemma_single_bit(rest, 0, ps[k].1 as u32, 0);
    } else {
        assert(ps.drop_last()[k] == ps[k]);
        lemma_mask_has_attack(def, order, ps.drop_last(), k, x, y);
        lemma_or_bits(rest, eb, ab);
    }
}

/// The respected bits of a `blocked_by` list hold the bit of `a < 32` exactly when `a` is in the
/// list.
proof fn lemma_respected_bit(blocked_by: Seq<PieceId>, a: PieceId)
    requires
        a < 32,
    ensures
        (respected_bits(blocked_by) & piece_bit(a) != 0) == blocked_by.contains(a),
    decreases blocked_by.len(),
{
    let au = a as u32;
    lemma_single_bit(0, 0, au, 0);
    if blocked_by.len() == 0 {
    } else {
        let q = blocked_by.drop_last();
        lemma_respected_bit(q, a);
        let l = blocked_by.last();
        let r = respected_bits(q);
        let lb = piece_bit(l);
        let ab = piece_bit(a);
        lemma_or_bits(r, lb, ab);
        if l < 32 {
            lemma_single_bit(0, 0, au, l as u32);
        }
        assert(blocked_by == q.push(l));
        if q.contains(a) {
            let i = choose|i: int| 0 <= i < q.len() && q[i] == a;
            assert(blocked_by[i] == a);
        }
        if blocked_by.contains(a) && l != a {
            let i = choose|i: int| 0 <= i < blocked_by.len() && blocked_by[i] == a;
            assert(q[i] == a);
        }
    }
}

proof fn lemma_bits_below_zero(n: int)
    requires
        0 <= n <= 32,
    ensures
        bits_below(0, n) == Seq::<PieceId>::empty(),
    decreases n,
{
    if n > 0 {
        lemma_bits_below_zero(n - 1);
        let s = (n - 1) as u32;
        assert(0u32 & (1u32 << s) == 0) by (bit_vector);
    }
}

/// Placement `k` of the history is one of `attacker` whose moves hit the cell of `target`.
pub open spec fn blocking_at(def: GameDefinition, order: VisitOrder, ps: Seq<(u32, PieceId)>, attacker: PieceId, target: u32, k: int) -> bool {
    &&& 0 <= k < ps.len()
    &&& ps[k].1 == attacker
    &&& spec_placement_attacks_index(def, order, ps[k].0, attacker, target)
}

/// `states` runs from `before` to `after` one turn at a time: every turn placed a piece,
/// except the last one when `failed`.
#[verifier::opaque]
pub open spec fn turn_chain(def: GameDefinition, states: Seq<Simulation>, before: Simulation, after: Simulation, failed: bool) -> bool {
    &&& states.len() >= 1
    &&& states[0] == before
    &&& states.last() == after
    &&& forall|i: int| 0 <= i < states.len() - 1 ==> step_outcome(def, #[trigger] states[i], states[i + 1], !(failed && i == states.len() - 2))
    &&& failed ==> states.len() >= 2
}

/// The states of a chain up to `i` extend the placements of its first state.
proof fn lemma_states_extend(def: GameDefinition, states: Seq<Simulation>, failed: bool, i: int)
    requires
        states.len() >= 1,
        0 <= i < states.len(),
        forall|k: int| 0 <= k < states.len() - 1 ==> step_outcome(def, #[trigger] states[k], states[k + 1], !(failed && k == states.len() - 2)),
    ensures
        states[0].spec_placements().is_prefix_of(states[i].spec_placements()),
    decreases i,
{
    if i > 0 {
        lemma_states_extend(def, states, failed, i - 1);
        let a = states[i - 1];
        let b = states[i];
        assert(step_outcome(def, a, b, !(failed && i - 1 == states.len() - 2)));
        let p0 = states[0].spec_placements();
        if b.spec_placements() != a.spec_placements() {
            let c = b.spec_placements().last();
            assert(b.spec_placements() == a.spec_placements().push(c));
            assert(p0 =~= b.spec_placements().subrange(0, p0.len() as int));
        }
    }
}

/// A run of turns only appends to the placement history: the placements before it are a prefix
/// of those after it.
pub proof fn lemma_chain_keeps_prefix(def: GameDefinition, states: Seq<Simulation>, before: Simulation, after: Simulation, failed: bool)
    requires
        turn_chain(def, states, before, after, failed),
    ensures
        before.spec_placements().is_prefix_of(after.spec_placements()),
{
    reveal(turn_chain);
    lemma_states_extend(def, states, failed, states.len() - 1);
}

/// Each piece's placements come in increasing index order.
pub open spec fn piece_indices_increase(ps: Seq<(u32, PieceId)>) -> bool {
    forall|a: int, b: int| 0 <= a < b < ps.len() && (#[trigger] ps[a]).1 == (#[trigger] ps[b]).1 ==> ps[a].0 < ps[b].0
}

/// Facts a run from a fresh simulation keeps: a cursor per piece, the turn pointer in range,
/// every placement of a piece below its cursor (or both on the last index), and each piece's
/// placements in increasing index order.
spec fn run_order_ok(def: GameDefinition, s: Simulation) -> bool {
    let ps = s.spec_placements();
    let cur = s.spec_cursors();
    &&& cur.len() == def.pieces@.len()
    &&& def.spec_active_turn_order().len() > 0 ==> 0 <= s.spec_turn_index() < def.spec_active_turn_order().len()
    &&& piece_indices_increase(ps)
    &&& forall|k: int| 0 <= k < ps.len() && (#[trigger] ps[k]).1 < cur.len() ==>
        ps[k].0 < cur[ps[k].1 as int] || (ps[k].0 == u32::MAX && cur[ps[k].1 as int] == u32::MAX)
}

/// An index that is free after `ps` was taken by none of its placements.
proof fn lemma_free_not_taken(ps: Seq<(u32, PieceId)>, i: int, k: int)
    requires
        occupant(ps, i) is None,
        0 <= k < ps.len(),
    ensures
        ps[k].0 != i,
{
    lemma_occupant_kept(ps, k, ps.len() as int);
    assert(ps.take(ps.len() as int) == ps);
}

proof fn lemma_step_keeps_run_order(def: GameDefinition, before: Simulation, after: Simulation, ok: bool)
    requires
        run_order_ok(def, before),
        step_outcome(def, before, after, ok),
    ensures
        run_order_ok(def, after),
{
    let ids = def.spec_active_turn_order();
    if ids.len() > 0 {
        lemma_active_ids_bounds(def.pieces@, def.turn_order@);
        let t = before.spec_turn_index();
        let pid = ids[t];
        assert(is_active(def.pieces@, pid));
        let ps = before.spec_placements();
        let cur = before.spec_cursors();
        let c0 = cur[pid as int];
        let ps2 = after.spec_placements();
        let cur2 = after.spec_cursors();
        if ok {
            let c = ps2.last().0;
            assert(ps2 == ps.push((c, pid)));
            assert forall|k: int| 0 <= k < ps.len() && ps[k].1 == pid implies ps[k].0 < c by {
                lemma_free_not_taken(ps, c as int, k);
            }
            assert forall|a: int, b: int| 0 <= a < b < ps2.len() && (#[trigger] ps2[a]).1 == (#[trigger] ps2[b]).1 implies ps2[a].0 < ps2[b].0 by {
                assert(ps2[a] == ps[a]);
                if b < ps.len() {
                    assert(ps2[b] == ps[b]);
                } else {
                    assert(ps2[b] == (c, pid));
                }
            }
            assert forall|k: int| 0 <= k < ps2.len() && (#[trigger] ps2[k]).1 < cur2.len() implies
                ps2[k].0 < cur2[ps2[k].1 as int] || (ps2[k].0 == u32::MAX && cur2[ps2[k].1 as int] == u32::MAX) by {
                if k < ps.len() {
                    assert(ps2[k] == ps[k]);
                    if ps[k].1 == pid {
                        lemma_free_not_taken(ps, c as int, k);
                    }
                }
            }
        } else {
            assert(ps2 == ps);
            assert forall|k: int| 0 <= k < ps2.len() && (#[trigger] ps2[k]).1 < cur2.len() implies
                ps2[k].0 < cur2[ps2[k].1 as int] || (ps2[k].0 == u32::MAX && cur2[ps2[k].1 as int] == u32::MAX) by {
                assert(ps2[k] == ps[k]);
            }
        }
    }
}

proof fn lemma_states_run_order(def: GameDefinition, states: Seq<Simulation>, failed: bool, i: int)
    requires
        states.len() >= 1,
        0 <= i < states.len(),
        run_order_ok(def, states[0]),
        forall|k: int| 0 <= k < states.len() - 1 ==> step_outcome(def, #[trigger] states[k], states[k + 1], !(failed && k == states.len() - 2)),
    ensures
        run_order_ok(def, states[i]),
    decreases i,
{
    if i > 0 {
        lemma_states_run_order(def, states, failed, i - 1);
        lemma_step_keeps_run_order(def, states[i - 1], states[i], !(failed && i - 1 == states.len() - 2));
    }
}

/// In a run of turns from a fresh simulation, each piece's placements come in increasing index
/// order: a piece never takes an index below one it took before.
pub proof fn lemma_run_piece_indices_increase(def: GameDefinition, order: VisitOrder, start: Simulation, states: Seq<Simulation>, end: Simulation, failed: bool)
    requires
        is_fresh(def, order, start),
        turn_chain(def, states, start, end, failed),
    ensures
        piece_indices_increase(end.spec_placements()),
{
    reveal(turn_chain);
    start.lemma_wf_tables(def);
    lemma_states_run_order(def, states, failed, states.len() - 1);
}

/// In a run of turns from a fresh simulation, the tally of piece `p` is zero exactly when `p`
/// placed nothing; otherwise its first index is one `p` took and is the least of them, and its
/// last index is the greatest.
pub proof fn lemma_run_tally_extremes(def: GameDefinition, order: VisitOrder, start: Simulation, states: Seq<Simulation>, end: Simulation, failed: bool, p: PieceId)
    requires
        is_fresh(def, order, start),
        turn_chain(def, states, start, end, failed),
        end.wf(def),
        p < def.pieces@.len(),
        end.spec_placements().len() <= u32::MAX,
    ensures
        ({
            let ps = end.spec_placements();
            let t = end.spec_tally()[p as int];
            &&& (t.placements == 0) == (forall|k: int| 0 <= k < ps.len() ==> (#[trigger] ps[k]).1 != p)
            &&& t.placements > 0 ==> exists|k: int| 0 <= k < ps.len() && (#[trigger] ps[k]).1 == p && ps[k].0 == t.first_index
            &&& forall|k: int| 0 <= k < ps.len() && (#[trigger] ps[k]).1 == p ==> t.first_index <= ps[k].0 <= t.last_index
        }),
{
    lemma_run_piece_indices_increase(def, order, start, states, end, failed);
    end.lemma_wf_facts(def);
    lemma_tally_extremes(end.spec_placements(), p);
}

/// When each piece's placements come in increasing index order, a piece's tally counts its
/// placements, and its first and latest index are the least and greatest index it took.
pub proof fn lemma_tally_extremes(ps: Seq<(u32, PieceId)>, p: PieceId)
    requires
        piece_indices_increase(ps),
        ps.len() <= u32::MAX,
    ensures
        (tally_of(ps, p).placements == 0) == (forall|k: int| 0 <= k < ps.len() ==> (#[trigger] ps[k]).1 != p),
        tally_of(ps, p).placements > 0 ==> exists|k: int| 0 <= k < ps.len() && (#[trigger] ps[k]).1 == p && ps[k].0 == tally_of(ps, p).first_index,
        forall|k: int| 0 <= k < ps.len() && (#[trigger] ps[k]).1 == p
            ==> tally_of(ps, p).first_index <= ps[k].0 <= tally_of(ps, p).last_index,
    decreases ps.len(),
{
    if ps.len() > 0 {
        let q = ps.drop_last();
        assert forall|a: int, b: int| 0 <= a < b < q.len() && (#[trigger] q[a]).1 == (#[trigger] q[b]).1 implies q[a].0 < q[b].0 by {
            assert(q[a] == ps[a] && q[b] == ps[b]);
        }
        lemma_tally_extremes(q, p);
        lemma_tally_count(q, p);
        let e = ps.last();
        let tq = tally_of(q, p);
        let tp = tally_of(ps, p);
        assert forall|k: int| 0 <= k < q.len() implies #[trigger] ps[k] == q[k] by {}
        if e.1 == p {
            if tq.placements > 0 {
                let k0 = choose|k: int| 0 <= k < q.len() && (#[trigger] q[k]).1 == p && q[k].0 == tq.first_index;
                assert(ps[k0] == q[k0]);
                assert(ps[k0].0 < ps[ps.len() - 1].0);
                assert(ps[k0].0 == tp.first_index);
            } else {
                assert(ps[ps.len() - 1].0 == tp.first_index);
            }
            assert forall|k: int| 0 <= k < ps.len() && (#[trigger] ps[k]).1 == p implies tp.first_index <= ps[k].0 <= tp.last_index by {
                if k < q.len() {
                    assert(ps[k] == q[k]);
                    assert(ps[k].0 < ps[ps.len() - 1].0);
                }
            }
        } else {
            assert forall|k: int| 0 <= k < ps.len() && (#[trigger] ps[k]).1 == p implies tp.first_index <= ps[k].0 <= tp.last_index by {
                assert(k < q.len());
                assert(ps[k] == q[k]);
            }
            if tp.placements > 0 {
                let k0 = choose|k: int| 0 <= k < q.len() && (#[trigger] q[k]).1 == p && q[k].0 == tq.first_index;
                assert(ps[k0] == q[k0]);
            }
        }
    }
}

/// No turn taken yet.
pub proof fn lemma_chain_single(def: GameDefinition, s: Simulation)
    ensures
        turn_chain(def, seq![s], s, s, false),
{
    reveal(turn_chain);
}

pub proof fn lemma_chain_push(def: GameDefinition, states: Seq<Simulation>, start: Simulation, before: Simulation, after: Simulation, ok: bool)
    requires
        turn_chain(def, states, start, before, false),
        step_outcome(def, before, after, ok),
    ensures
        turn_chain(def, states.push(after), start, after, !ok),
{
    reveal(turn_chain);
    let s2 = states.push(after);
    assert forall|i: int| 0 <= i < s2.len() - 1 implies step_outcome(def, #[trigger] s2[i], s2[i + 1], !(!ok && i == s2.len() - 2)) by {
        if i < states.len() - 1 {
            assert(s2[i] == states[i] && s2[i + 1] == states[i + 1]);
        } else {
            assert(s2[i] == before && s2[i + 1] == after);
        }
    }
}

pub proof fn lemma_chain_concat(def: GameDefinition, a: Seq<Simulation>, b: Seq<Simulation>, s0: Simulation, s1: Simulation, s2: Simulation, failed: bool)
    requires
        turn_chain(def, a, s0, s1, false),
        turn_chain(def, b, s1, s2, failed),
    ensures
        turn_chain(def, a + b.skip(1), s0, s2, failed),
{
    reveal(turn_chain);
    let c = a + b.skip(1);
    assert forall|i: int| 0 <= i < c.len() - 1 implies step_outcome(def, #[trigger] c[i], c[i + 1], !(failed && i == c.len() - 2)) by {
        if i < a.len() - 1 {
            assert(c[i] == a[i] && c[i + 1] == a[i + 1]);
        } else {
            let j = i - (a.len() - 1);
            assert(c[i] == b[j]);
            assert(c[i + 1] == b[j + 1]);
        }
    }
    if b.len() == 1 {
        assert(c == a);
    } else {
        assert(c.last() == b.last());
    }
}

/// Why an advance may stop without a failed turn: the simulation was already saturated or had
/// nothing to run, no enabled cursor is at or before `target`, or a counter reached its limit.
pub open spec fn stop_reason(def: GameDefinition, before: Simulation, after: Simulation, target: u32) -> bool {
    ||| before.spec_saturated()
    ||| def.pieces@.len() == 0
    ||| def.spec_active_turn_order().len() == 0
    ||| !spec_needs_work(def, after.spec_cursors(), target)
    ||| after.spec_placements().len() >= u32::MAX
    ||| after.spec_turn_step() == usize::MAX
}

/// One round of [`Simulation::advance_to_target`] extends the chain of turns taken so far.
proof fn lemma_round(def: GameDefinition, states: Seq<Simulation>, start: Simulation, before: Simulation, after: Simulation, more: bool, target: u32, n: int) -> (r: (Seq<Simulation>, bool))
    requires
        turn_chain(def, states, start, before, false),
        before.spec_saturated() ==> start.spec_saturated(),
        exists|st2: Seq<Simulation>, failed2: bool| {
            &&& #[trigger] turn_chain(def, st2, before, after, failed2)
            &&& more ==> !failed2 && st2.len() == n + 1
            &&& st2.len() <= n + 1
            &&& !failed2 ==> after.spec_saturated() == before.spec_saturated()
            &&& !more ==> failed2 || stop_reason(def, before, after, target)
        },
    ensures
        !r.1 ==> after.spec_saturated() == before.spec_saturated(),
        turn_chain(def, r.0, start, after, r.1),
        more ==> !r.1,
        !more ==> r.1 || stop_reason(def, start, after, target),
        more ==> r.0.len() == states.len() + n,
        r.0.len() <= states.len() + n,
        forall|i: int| 0 <= i < states.len() ==> #[trigger] r.0[i] == states[i],
{
    let (st2, failed2) = choose|st2: Seq<Simulation>, failed2: bool| {
        &&& #[trigger] turn_chain(def, st2, before, after, failed2)
        &&& more ==> !failed2 && st2.len() == n + 1
        &&& st2.len() <= n + 1
        &&& !failed2 ==> after.spec_saturated() == before.spec_saturated()
        &&& !more ==> failed2 || stop_reason(def, before, after, target)
    };
    reveal(turn_chain);
    assert(st2.len() >= 1);
    lemma_chain_concat(def, states, st2, start, before, after, failed2);
    let all = states + st2.skip(1);
    assert(all.len() == states.len() + st2.len() - 1);
    assert forall|i: int| 0 <= i < states.len() implies #[trigger] all[i] == states[i] by {}
    (all, failed2)
}

/// `forbidden` and `occupied` are the cells the upcoming piece of `sim` skips on its next scan:
/// from its cursor up to the first cell it may take (or through the last index when there is
/// none), the empty-but-attacked ones and the occupied ones, each in increasing order.
pub open spec fn next_scan_skips(def: GameDefinition, sim: Simulation, forbidden: Seq<u32>, occupied: Seq<u32>) -> bool {
    &&& sim.spec_active_ids().len() == 0 ==> forbidden.len() == 0 && occupied.len() == 0
    &&& sim.spec_active_ids().len() > 0 ==> {
        let pid = sim.spec_active_ids()[sim.spec_turn_index()];
        let c0 = sim.spec_cursors()[pid as int] as int;
        let ps = sim.spec_placements();
        exists|end: int| {
            &&& #[trigger] is_scan_end(def, sim.spec_order(), ps, pid, c0, end)
            &&& exact_cells(forbidden, ps, c0, end, false)
            &&& exact_cells(occupied, ps, c0, end, true)
        }
    }
}

/// A simulation of `def` along `order` before its first turn.
pub open spec fn is_fresh(def: GameDefinition, order: VisitOrder, sim: Simulation) -> bool {
    &&& sim.wf(def)
    &&& sim.spec_order() == order
    &&& sim.spec_placements() == Seq::<(u32, PieceId)>::empty()
    &&& sim.spec_cursors() == Seq::new(def.pieces@.len(), |p: int| 0u32)
    &&& sim.spec_turn_index() == 0
    &&& sim.spec_turn_step() == 0
    &&& !sim.spec_saturated()
    &&& sim.spec_budget() == spec_default_budget()
}

/// Two simulations are at the same point of a run: same history, cursors, turn pointer, step
/// count and visit order.
pub open spec fn same_run_state(a: Simulation, b: Simulation) -> bool {
    &&& a.spec_placements() == b.spec_placements()
    &&& a.spec_cursors() == b.spec_cursors()
    &&& a.spec_turn_index() == b.spec_turn_index()
    &&& a.spec_turn_step() == b.spec_turn_step()
    &&& a.spec_order() == b.spec_order()
}

/// A successful turn is determined by the state it starts from: from the same point of a run,
/// two successful turns lead to the same point.
pub proof fn lemma_step_deterministic(def: GameDefinition, a0: Simulation, a1: Simulation, b0: Simulation, b1: Simulation)
    requires
        same_run_state(a0, b0),
        step_outcome(def, a0, a1, true),
        step_outcome(def, b0, b1, true),
    ensures
        same_run_state(a1, b1),
{
    let ids = def.spec_active_turn_order();
    let t = a0.spec_turn_index();
    let pid = ids[t];
    let ps = a0.spec_placements();
    let order = a0.spec_order();
    let ca = a1.spec_placements().last().0 as int;
    let cb = b1.spec_placements().last().0 as int;
    if ca < cb {
        assert(!legal_for(def, order, ps, pid, ca));
    }
    if cb < ca {
        assert(!legal_for(def, order, ps, pid, cb));
    }
    assert(ca == cb);
    assert(a1.spec_cursors() =~= b1.spec_cursors());
}

/// The first `k + 1` states of two chains of successful turns that start at the same point
/// agree pairwise.
proof fn lemma_chains_agree_upto(def: GameDefinition, sa: Seq<Simulation>, sb: Seq<Simulation>, k: int)
    requires
        0 <= k < sa.len(),
        sa.len() == sb.len(),
        same_run_state(sa[0], sb[0]),
        forall|i: int| 0 <= i < sa.len() - 1 ==> step_outcome(def, #[trigger] sa[i], sa[i + 1], true),
        forall|i: int| 0 <= i < sb.len() - 1 ==> step_outcome(def, #[trigger] sb[i], sb[i + 1], true),
    ensures
        same_run_state(sa[k], sb[k]),
    decreases k,
{
    if k > 0 {
        lemma_chains_agree_upto(def, sa, sb, k - 1);
        assert(step_outcome(def, sa[k - 1], sa[k], true));
        assert(step_outcome(def, sb[k - 1], sb[k], true));
        lemma_step_deterministic(def, sa[k - 1], sa[k], sb[k - 1], sb[k]);
    }
}

/// Runs are deterministic: two runs of the same definition from fresh simulations along the
/// same visit order that each took the same number of successful turns reach the same history,
/// cursors, turn pointer and step count.
pub proof fn lemma_runs_agree(def: GameDefinition, order: VisitOrder, a: Simulation, b: Simulation,
    sa: Seq<Simulation>, sb: Seq<Simulation>, x: Simulation, y: Simulation)
    requires
        is_fresh(def, order, a),
        is_fresh(def, order, b),
        turn_chain(def, sa, a, x, false),
        turn_chain(def, sb, b, y, false),
        sa.len() == sb.len(),
    ensures
        same_run_state(x, y),
{
    reveal(turn_chain);
    assert(same_run_state(a, b));
    lemma_chains_agree_upto(def, sa, sb, sa.len() - 1);
}

// ---------------------------------------------------------------------------------------------
// Simulation
// ---------------------------------------------------------------------------------------------

pub struct Simulation {
    pub visit_order: VisitOrder,
    /// Dense by visit index because placement scans are numeric and monotonic.
    pub occupancy: OccupancyGrid,
    /// Cumulative attacked cells in board `(x, y)` space: each cell stores a bitmask of the
    /// attackers that hit it.
    pub attack_grid: AttackGrid,
    /// For each defender piece, a bitmask (one bit per attacker id) of the attackers whose
    /// threats block its placement.
    respected_mask: Vec<u32>,
    /// Per piece, the max Chebyshev move radius — pre-grows the grid once per placement.
    move_radius: Vec<i32>,
    /// Enabled turn order captured with the definition-derived simulation metadata.
    active_turn_order: Vec<PieceId>,
    pub cursors: Vec<u32>,
    pub cursor_positions: Vec<(i32, i32)>,
    /// Rolling cursor into the active turn order.
    turn_order_index: usize,
    pub turn_step: usize,
    pub placements: PlacementsLog,
    /// Per-piece placement counts and reach; updated once per placement.
    piece_tally: Vec<PieceTally>,
    /// Set once a placement could not be admitted within the memory budget or an allocation
    /// failed. While saturated the simulation refuses to advance. Cleared by a reset.
    saturated: bool,
    /// Soft heap budget for the index-scaled structures.
    mem_budget_bytes: usize,
}

impl Simulation {
    /// Placements so far, in turn order.
    pub closed spec fn spec_placements(&self) -> Seq<(u32, PieceId)> {
        self.placements.spec_entries()
    }

    /// Length of the dense occupancy grid.
    pub closed spec fn spec_occupancy_len(&self) -> int {
        self.occupancy.spec_cells().len() as int
    }

    pub closed spec fn spec_cursors(&self) -> Seq<u32> {
        self.cursors@
    }

    pub closed spec fn spec_turn_step(&self) -> int {
        self.turn_step as int
    }

    pub closed spec fn spec_order(&self) -> VisitOrder {
        self.visit_order
    }

    /// Piece on visit index `i` according to the occupancy grid.
    pub closed spec fn spec_occupied(&self, i: int) -> Option<PieceId> {
        self.occupancy.spec_piece_at(i)
    }

    pub closed spec fn spec_turn_index(&self) -> int {
        self.turn_order_index as int
    }

    pub closed spec fn spec_saturated(&self) -> bool {
        self.saturated
    }

    pub closed spec fn spec_budget(&self) -> int {
        self.mem_budget_bytes as int
    }

    pub closed spec fn spec_positions(&self) -> Seq<(i32, i32)> {
        self.cursor_positions@
    }

    pub closed spec fn spec_tally(&self) -> Seq<PieceTally> {
        self.piece_tally@
    }

    /// Attacker bits the attack grid holds on `(x, y)`.
    pub closed spec fn spec_grid_at(&self, x: int, y: int) -> u32 {
        self.attack_grid.spec_at(x, y)
    }

    /// Tables derived from the definition, and the turn pointer.
    pub closed spec fn wf_tables(&self, def: GameDefinition) -> bool {
        let n = def.pieces@.len();
        &&& def_fits(def)
        &&& self.attack_grid.wf()
        &&& self.respected_mask@.len() == n
        &&& forall|d: int| 0 <= d < n ==> #[trigger] self.respected_mask@[d] == respected_mask_of(def, d as PieceId)
        &&& forall|d: int| 0 <= d < n ==> #[trigger] self.respected_mask@[d] & width_mask(self.attack_grid.spec_width()) == self.respected_mask@[d]
        &&& self.move_radius@.len() == n
        &&& forall|p: int| 0 <= p < n ==> #[trigger] self.move_radius@[p] == max_radius(def.pieces@[p].piece.valid_moves@)
        &&& forall|p: int| 0 <= p < n ==> 0 <= #[trigger] self.move_radius@[p] <= move_limit()
        &&& self.active_turn_order@ == def.spec_active_turn_order()
        &&& self.active_turn_order@.len() == 0 ==> self.turn_order_index == 0
        &&& self.active_turn_order@.len() > 0 ==> self.turn_order_index < self.active_turn_order@.len()
        &&& self.active_turn_order@.len() > 0 ==> self.turn_order_index == self.turn_step as int % self.active_turn_order@.len() as int
        &&& self.cursors@.len() == n
        &&& self.cursor_positions@.len() == n
        &&& self.piece_tally@.len() == n
    }

    /// Occupancy, attack grid and tallies agree with the placement history, which is legal.
    pub closed spec fn wf_board(&self, def: GameDefinition) -> bool {
        let ps = self.spec_placements();
        &&& ps.len() <= u32::MAX
        &&& placements_legal(def, self.visit_order, ps)
        &&& forall|i: int| #[trigger] self.occupancy.spec_piece_at(i) == occupant(ps, i)
        &&& forall|x: int, y: int| #[trigger] self.attack_grid.spec_at(x, y) == mask_at(def, self.visit_order, ps, x, y) & width_mask(self.attack_grid.spec_width())
        &&& forall|p: int| 0 <= p < self.piece_tally@.len() ==> #[trigger] self.piece_tally@[p] == tally_of(ps, p as PieceId)
        &&& cursors_passed_illegal(def, self.visit_order, ps, self.cursors@)
    }

    /// Each cursor position is the cell of its cursor (or the cursor is pinned on the last,
    /// occupied index).
    pub closed spec fn wf_cursors(&self) -> bool {
        forall|p: int| 0 <= p < self.cursor_positions@.len()
            ==> cursor_pos_ok(self.visit_order, self.spec_placements(), self.cursors@[p], #[trigger] self.cursor_positions@[p])
    }

    /// The simulation is consistent with `def`.
    pub closed spec fn wf(&self, def: GameDefinition) -> bool {
        &&& self.wf_tables(def)
        &&& self.wf_board(def)
        &&& self.wf_cursors()
    }

    /// The placement history of a consistent simulation is legal, occupancy mirrors it, and
    /// every cursor position is the cell of its cursor unless that cursor is pinned on the last
    /// occupied index.
    pub proof fn lemma_wf_facts(&self, def: GameDefinition)
        requires
            self.wf(def),
        ensures
            placements_legal(def, self.spec_order(), self.spec_placements()),
            forall|i: int| #[trigger] self.spec_occupied(i) == occupant(self.spec_placements(), i),
            self.spec_cursors().len() == def.pieces@.len(),
            self.spec_positions().len() == def.pieces@.len(),
            forall|p: int| 0 <= p < self.spec_cursors().len()
                ==> cursor_pos_ok(self.spec_order(), self.spec_placements(), self.spec_cursors()[p], #[trigger] self.spec_positions()[p]),
            forall|p: int| 0 <= p < self.spec_tally().len() ==> #[trigger] self.spec_tally()[p] == tally_of(self.spec_placements(), p as PieceId),
            self.spec_tally().len() == def.pieces@.len(),
            cursors_passed_illegal(def, self.spec_order(), self.spec_placements(), self.spec_cursors()),
    {
    }

    /// A turn that places takes the least index legal for its piece overall, not only from the
    /// piece's cursor: every index below the one taken was illegal for the piece.
    pub proof fn lemma_step_takes_least_legal(&self, def: GameDefinition, after: Simulation)
        requires
            self.wf(def),
            def.spec_active_turn_order().len() > 0,
            step_outcome(def, *self, after, true),
        ensures
            ({
                let pid = def.spec_active_turn_order()[self.spec_turn_index()];
                let c = after.spec_placements().last().0 as int;
                &&& after.spec_placements() == self.spec_placements().push((c as u32, pid))
                &&& legal_for(def, self.spec_order(), self.spec_placements(), pid, c)
                &&& forall|j: int| 0 <= j < c ==> !#[trigger] legal_for(def, self.spec_order(), self.spec_placements(), pid, j)
            }),
    {
        self.lemma_wf_facts(def);
        self.lemma_wf_tables(def);
        lemma_active_ids_bounds(def.pieces@, def.turn_order@);
        let ids = def.spec_active_turn_order();
        let pid = ids[self.spec_turn_index()];
        assert(is_active(def.pieces@, pid));
        let c0 = self.spec_cursors()[pid as int] as int;
        let c = after.spec_placements().last().0 as int;
        assert forall|j: int| 0 <= j < c implies !#[trigger] legal_for(def, self.spec_order(), self.spec_placements(), pid, j) by {
            if j >= c0 {
                assert(c0 <= j < c);
            }
        }
    }

    pub fn new(def: &GameDefinition, visit_order: VisitOrder) -> (sim: Self)
        requires
            def_fits(*def),
        ensures
            is_fresh(*def, visit_order, sim),
            sim.wf(*def),
            sim.spec_order() == visit_order,
            sim.spec_placements() == Seq::<(u32, PieceId)>::empty(),
            sim.spec_cursors() == Seq::new(def.pieces@.len(), |p: int| 0u32),
            sim.spec_turn_index() == 0,
            sim.spec_turn_step() == 0,
            !sim.spec_saturated(),
            sim.spec_budget() == spec_default_budget(),
    {
        let respected_mask = respected_masks(def);
        let width = cell_width_for(respected_mask.as_slice());
        let attack_grid = AttackGrid::new(width);
        let n = def.pieces.len();
        let mut cursors: Vec<u32> = Vec::new();
        let mut cursor_positions: Vec<(i32, i32)> = Vec::new();
        let mut piece_tally: Vec<PieceTally> = Vec::new();
        let mut p: usize = 0;
        while p < n
            invariant
                p <= n,
                cursors@ == Seq::new(p as nat, |q: int| 0u32),
                cursor_positions@ == Seq::new(p as nat, |q: int| (0i32, 0i32)),
                piece_tally@ == Seq::new(p as nat, |q: int| PieceTally { placements: 0, first_index: 0, last_index: 0 }),
            decreases n - p,
        {
            cursors.push(0);
            cursor_positions.push((0, 0));
            piece_tally.push(PieceTally { placements: 0, first_index: 0, last_index: 0 });
            p += 1;
            assert(cursors@ =~= Seq::new(p as nat, |q: int| 0u32));
            assert(cursor_positions@ =~= Seq::new(p as nat, |q: int| (0i32, 0i32)));
            assert(piece_tally@ =~= Seq::new(p as nat, |q: int| PieceTally { placements: 0, first_index: 0, last_index: 0 }));
        }
        let sim = Self {
            visit_order,
            occupancy: OccupancyGrid::new(),
            attack_grid,
            respected_mask,
            move_radius: move_radii(def),
            active_turn_order: active_turn_order(def),
            cursors,
            cursor_positions,
            turn_order_index: 0,
            turn_step: 0,
            placements: PlacementsLog::new(),
            piece_tally,
            saturated: false,
            mem_budget_bytes: default_budget(),
        };
        proof {
            assert forall|d: int| 0 <= d < n implies #[trigger] sim.respected_mask@[d] & width_mask(sim.attack_grid.spec_width()) == sim.respected_mask@[d] by {
                lemma_union_fits(sim.respected_mask@, d);
            }
            assert forall|x: int, y: int| #[trigger] sim.attack_grid.spec_at(x, y) == mask_at(*def, visit_order, sim.spec_placements(), x, y) & width_mask(sim.attack_grid.spec_width()) by {
                let w = width_mask(sim.attack_grid.spec_width());
                assert(0u32 & w == 0) by (bit_vector);
            }
            assert forall|p: int| 0 <= p < sim.cursor_positions@.len() implies
                cursor_pos_ok(visit_order, sim.spec_placements(), sim.cursors@[p], #[trigger] sim.cursor_positions@[p]) by {
                assert(sim.cursors@[p] == 0);
            }
        }
        sim
    }
    /// Record one successful placement in the per-piece tally.
    fn note_placement_tally(&mut self, index: u32, piece_id: PieceId)
        requires
            piece_id < old(self).piece_tally@.len(),
            old(self).piece_tally@[piece_id as int].placements < u32::MAX,
        ensures
            final(self).piece_tally@ == old(self).piece_tally@.update(piece_id as int, {
                let t = old(self).piece_tally@[piece_id as int];
                PieceTally {
                    placements: (t.placements + 1) as u32,
                    first_index: if t.placements == 0 { index } else { t.first_index },
                    last_index: index,
                }
            }),
            final(self).attack_grid == old(self).attack_grid,
            final(self).occupancy == old(self).occupancy,
            final(self).placements == old(self).placements,
            final(self).respected_mask == old(self).respected_mask,
            final(self).move_radius == old(self).move_radius,
            final(self).active_turn_order == old(self).active_turn_order,
            final(self).cursors == old(self).cursors,
            final(self).cursor_positions == old(self).cursor_positions,
            final(self).turn_order_index == old(self).turn_order_index,
            final(self).turn_step == old(self).turn_step,
            final(self).saturated == old(self).saturated,
            final(self).mem_budget_bytes == old(self).mem_budget_bytes,
            final(self).visit_order == old(self).visit_order,
    {
        let mut t = self.piece_tally[piece_id];
        if t.placements == 0 {
            t.first_index = index;
        }
        t.last_index = index;
        t.placements = t.placements + 1;
        self.piece_tally.set(piece_id, t);
    }

    /// Mark the cells `piece_id` attacks from `xy` with its attacker bit.
    fn record_forbidden(&mut self, def: &GameDefinition, xy: (i32, i32), piece_id: PieceId) -> (ok: bool)
        requires
            old(self).wf_tables(*def),
            piece_id < def.pieces@.len(),
            abs(xy.0 as int) <= 46341,
            abs(xy.1 as int) <= 46341,
        ensures
            ok ==> final(self).attack_grid.wf() && final(self).attack_grid.spec_width() == old(self).attack_grid.spec_width()
                && forall|x: int, y: int| #[trigger] final(self).attack_grid.spec_at(x, y) == old(self).attack_grid.spec_at(x, y)
                | (if hits(xy.0, xy.1, piece_moves(*def, piece_id), x, y) { piece_bit(piece_id) & width_mask(old(self).attack_grid.spec_width()) } else { 0 }),
            !ok ==> final(self).attack_grid == old(self).attack_grid,
            record_reach(xy.0, xy.1, max_radius(piece_moves(*def, piece_id)) as i32) <= old(self).attack_grid.spec_half() ==> ok,
            ({
                let reach = record_reach(xy.0, xy.1, max_radius(piece_moves(*def, piece_id)) as i32);
                reach > old(self).attack_grid.spec_half() && !half_allowed(grown_half(old(self).attack_grid.spec_half(), reach)) ==> !ok
            }),
            final(self).occupancy == old(self).occupancy,
            final(self).placements == old(self).placements,
            final(self).respected_mask == old(self).respected_mask,
            final(self).move_radius == old(self).move_radius,
            final(self).active_turn_order == old(self).active_turn_order,
            final(self).cursors == old(self).cursors,
            final(self).cursor_positions == old(self).cursor_positions,
            final(self).turn_order_index == old(self).turn_order_index,
            final(self).turn_step == old(self).turn_step,
            final(self).piece_tally == old(self).piece_tally,
            final(self).saturated == old(self).saturated,
            final(self).mem_budget_bytes == old(self).mem_budget_bytes,
            final(self).visit_order == old(self).visit_order,
    {
        let moves = &def.pieces[piece_id].piece.valid_moves;
        // One bit per attacker id; mark every attacked cell directly in coordinate space.
        let bit = if piece_id < MAX_PIECES { 1u32 << (piece_id as u32) } else { 0 };
        let radius = self.move_radius[piece_id];
        proof {
            crate::mutate::lemma_max_radius_bounds(moves@);
        }
        self.attack_grid.record(xy.0, xy.1, bit, radius, moves.as_slice())
    }

    /// Commit a placement, all or nothing: the log, occupancy and attack grid grow fallibly, and
    /// if any allocation fails every structure is left as it was and the simulation saturates.
    #[verifier::rlimit(30)]
    fn place(&mut self, def: &GameDefinition, index: u32, xy: (i32, i32), piece_id: PieceId) -> (ok: bool)
        requires
            old(self).wf_tables(*def),
            old(self).wf_board(*def),
            old(self).spec_placements().len() < u32::MAX,
            piece_id < def.pieces@.len(),
            legal_for(*def, old(self).visit_order, old(self).spec_placements(), piece_id, index as int),
            (xy.0 as int, xy.1 as int) == old(self).visit_order.spec_index_to_xy(index as nat),
        ensures
            final(self).wf_tables(*def),
            final(self).wf_board(*def),
            ok ==> final(self).spec_placements() == old(self).spec_placements().push((index, piece_id)),
            !ok ==> final(self).spec_placements() == old(self).spec_placements(),
            ok ==> final(self).saturated == old(self).saturated,
            !ok ==> final(self).saturated,
            forall|i: int| old(self).occupancy.spec_piece_at(i) is Some ==> #[trigger] final(self).occupancy.spec_piece_at(i) is Some,
            final(self).cursors == old(self).cursors,
            final(self).cursor_positions == old(self).cursor_positions,
            final(self).turn_order_index == old(self).turn_order_index,
            final(self).turn_step == old(self).turn_step,
            final(self).mem_budget_bytes == old(self).mem_budget_bytes,
            final(self).visit_order == old(self).visit_order,
            final(self).active_turn_order == old(self).active_turn_order,
    {
        let ghost ps = self.spec_placements();
        let ghost e = (index, piece_id);
        proof {
            lemma_order_xy_bounded(self.visit_order, index as nat);
            assert(ps.push(e).drop_last() == ps);
            lemma_tally_count(ps, piece_id);
        }
        if !self.placements.push(index, piece_id) {
            self.saturated = true;
            return false;
        }
        if !self.occupancy.insert(index, piece_id) {
            self.placements.pop();
            self.saturated = true;
            return false;
        }
        let ghost grid0 = self.attack_grid;
        if !self.record_forbidden(def, xy, piece_id) {
            self.occupancy.remove(index);
            self.placements.pop();
            self.saturated = true;
            return false;
        }
        self.note_placement_tally(index, piece_id);
        proof {
            let ps2 = self.spec_placements();
            assert(ps2 == ps.push(e));
            assert(ps2.last() == e);
            assert(ps2.drop_last() == ps);
            lemma_legal_push(*def, self.visit_order, ps, e);
            let w = width_mask(grid0.spec_width());
            let b = piece_bit(piece_id);
            assert forall|x: int, y: int| #[trigger] self.attack_grid.spec_at(x, y) == mask_at(*def, self.visit_order, ps2, x, y) & width_mask(self.attack_grid.spec_width()) by {
                let m = mask_at(*def, self.visit_order, ps, x, y);
                assert(attacks_cell(*def, self.visit_order, e, x, y) == hits(xy.0, xy.1, piece_moves(*def, piece_id), x, y));
                assert((m | b) & w == (m & w) | (b & w)) by (bit_vector);
                assert((m | 0) & w == (m & w) | 0) by (bit_vector);
            }
            assert forall|p: int| 0 <= p < self.piece_tally@.len() implies #[trigger] self.piece_tally@[p] == tally_of(ps2, p as PieceId) by {
            }
            assert forall|p: PieceId, j: int| p < self.cursors@.len() && p < def.pieces@.len() && 0 <= j < self.cursors@[p as int]
                implies !#[trigger] legal_for(*def, self.visit_order, ps2, p, j) by {
                lemma_illegal_stays(*def, self.visit_order, ps, e, p, j);
            }
        }
        true
    }

    /// Scan from cursor `c0` (standing on `xy0`) for the first index `piece_id` may take. Returns
    /// the index reached, its cell, and whether it is free; when no index is, the scan stops on
    /// the last index.
    fn scan_from(&self, def: &GameDefinition, piece_id: PieceId, c0: u32, xy0: (i32, i32)) -> (r: (u32, (i32, i32), bool))
        requires
            self.wf_tables(*def),
            self.wf_board(*def),
            piece_id < def.pieces@.len(),
            cursor_pos_ok(self.visit_order, self.spec_placements(), c0, xy0),
        ensures
            c0 <= r.0,
            cursor_pos_ok(self.visit_order, self.spec_placements(), r.0, r.1),
            forall|j: int| c0 <= j < r.0 ==> !#[trigger] legal_for(*def, self.visit_order, self.spec_placements(), piece_id, j),
            r.2 ==> legal_for(*def, self.visit_order, self.spec_placements(), piece_id, r.0 as int)
                && (r.1.0 as int, r.1.1 as int) == self.visit_order.spec_index_to_xy(r.0 as nat),
            !r.2 ==> r.0 == u32::MAX && !legal_for(*def, self.visit_order, self.spec_placements(), piece_id, u32::MAX as int),
    {
        let respected_mask = self.respected_mask[piece_id];
        let ghost order = self.visit_order;
        let ghost ps = self.spec_placements();
        let ghost w = width_mask(self.attack_grid.spec_width());
        let mut cursor = c0;
        let mut xy = xy0;
        loop
            invariant
                self.wf_tables(*def),
                self.wf_board(*def),
                order == self.visit_order,
                ps == self.spec_placements(),
                piece_id < def.pieces@.len(),
                respected_mask == respected_mask_of(*def, piece_id),
                respected_mask & w == respected_mask,
                w == width_mask(self.attack_grid.spec_width()),
                c0 <= cursor,
                cursor_pos_ok(order, ps, cursor, xy),
                forall|j: int| c0 <= j < cursor ==> !#[trigger] legal_for(*def, order, ps, piece_id, j),
            decreases u32::MAX - cursor,
        {
            let occupied = self.occupancy.contains_index(cursor);
            let bits = self.attack_grid.at(xy.0, xy.1);
            proof {
                let c = order.spec_index_to_xy(cursor as nat);
                lemma_masked_test(mask_at(*def, order, ps, c.0, c.1), w, respected_mask);
            }
            if !occupied && bits & respected_mask == 0 {
                return (cursor, xy, true);
            }
            if cursor == u32::MAX {
                return (cursor, xy, false);
            }
            proof {
                lemma_order_scan_step(order, cursor);
                lemma_scan_step_bounded(order, cursor, (xy.0 as int, xy.1 as int));
            }
            xy = self.visit_order.scan_step_xy(cursor, xy);
            cursor = cursor + 1;
        }
    }

    /// One piece takes a turn: scan from its cursor for the first legal cell and occupy it.
    #[verifier::rlimit(40)]
    pub fn step_turn(&mut self, def: &GameDefinition) -> (ok: bool)
        requires
            old(self).wf(*def),
            old(self).spec_placements().len() < u32::MAX,
            old(self).spec_turn_step() < usize::MAX,
        ensures
            final(self).wf(*def),
            final(self).spec_order() == old(self).spec_order(),
            final(self).spec_budget() == old(self).spec_budget(),
            ok ==> final(self).spec_saturated() == old(self).spec_saturated(),
            final(self).spec_saturated() ==> old(self).spec_saturated() || !ok,
            step_outcome(*def, *old(self), *final(self), ok),
    {
        let turn_order_len = self.active_turn_order.len();
        if turn_order_len == 0 {
            return false;
        }
        proof {
            lemma_active_ids_bounds(def.pieces@, def.turn_order@);
        }
        let piece_id = self.active_turn_order[self.turn_order_index];
        assert(is_active(def.pieces@, piece_id));
        proof {
            let n = turn_order_len as int;
            let s = self.turn_step as int;
            let t = self.turn_order_index as int;
            vstd::arithmetic::div_mod::lemma_fundamental_div_mod(s, n);
            let q = s / n;
            assert(s == q * n + t) by (nonlinear_arith)
                requires s == n * q + t;
            if t + 1 < n {
                vstd::arithmetic::div_mod::lemma_fundamental_div_mod_converse(s + 1, n, q, t + 1);
            } else {
                assert(s + 1 == (q + 1) * n + 0) by (nonlinear_arith)
                    requires s == q * n + t, t + 1 == n;
                vstd::arithmetic::div_mod::lemma_fundamental_div_mod_converse(s + 1, n, q + 1, 0);
            }
        }
        self.turn_order_index = self.turn_order_index + 1;
        if self.turn_order_index == turn_order_len {
            self.turn_order_index = 0;
        }
        self.turn_step = self.turn_step + 1;

        let ghost ps = self.spec_placements();
        let ghost order = self.visit_order;
        let c0 = self.cursors[piece_id];
        let ghost cur0 = self.cursors@;
        let xy0 = self.cursor_positions[piece_id];
        let (cursor, xy, found) = self.scan_from(def, piece_id, c0, xy0);
        if !found {
            self.cursors.set(piece_id, cursor);
            self.cursor_positions.set(piece_id, xy);
            proof {
                lemma_cursor_passes(*def, order, ps, cur0, piece_id, cursor);
                self.lemma_cursors_kept(ps, piece_id);
                assert(self.spec_cursors()[piece_id as int] == u32::MAX);
                assert forall|j: int| c0 <= j <= u32::MAX implies !#[trigger] legal_for(*def, order, ps, piece_id, j) by {
                    if j < u32::MAX {
                        assert(c0 <= j < cursor);
                    }
                }
            }
            return false;
        }
        proof {
            lemma_order_xy_bounded(order, cursor as nat);
        }
        if !self.place(def, cursor, xy, piece_id) {
            self.cursors.set(piece_id, cursor);
            self.cursor_positions.set(piece_id, xy);
            proof {
                lemma_cursor_passes(*def, order, ps, cur0, piece_id, cursor);
                self.lemma_cursors_kept(ps, piece_id);
            }
            return false;
        }
        self.cursors.set(piece_id, cursor.saturating_add(1));
        proof {
            if cursor < u32::MAX {
                lemma_order_scan_step(order, cursor);
            }
            lemma_scan_step_bounded(order, cursor, (xy.0 as int, xy.1 as int));
        }
        let next_xy = self.visit_order.scan_step_xy(cursor, xy);
        self.cursor_positions.set(piece_id, next_xy);
        proof {
            let ps2 = self.spec_placements();
            assert(ps2.drop_last() == ps);
            assert(ps2.last() == (cursor, piece_id));
            self.lemma_cursors_kept(ps, piece_id);
            let c = ps2.last().0 as int;
            assert(c == cursor);
            assert(ps2 == ps.push((c as u32, piece_id)));
            lemma_cursor_places(*def, order, ps, cur0, piece_id, cursor);
            assert(legal_for(*def, order, ps, piece_id, c));
            assert(self.spec_cursors()[piece_id as int] == if c == u32::MAX { u32::MAX } else { (c + 1) as u32 });
        }
        true
    }

    /// [`Simulation::step_turn`], while `profiler` counts what the turn did (see
    /// [`turn_profiled`]).
    pub fn step_turn_profiled(&mut self, def: &GameDefinition, profiler: &mut PlaceProfiler) -> (ok: bool)
        requires
            old(self).wf(*def),
            old(self).spec_placements().len() < u32::MAX,
            old(self).spec_turn_step() < usize::MAX,
            old(profiler).profiling_enabled ==> profile_room(*old(profiler), *def),
        ensures
            final(self).wf(*def),
            final(self).spec_order() == old(self).spec_order(),
            final(self).spec_budget() == old(self).spec_budget(),
            ok ==> final(self).spec_saturated() == old(self).spec_saturated(),
            final(self).spec_saturated() ==> old(self).spec_saturated() || !ok,
            step_outcome(*def, *old(self), *final(self), ok),
            turn_profiled(*def, *old(self), *final(self), ok, *old(profiler), *final(profiler)),
    {
        if self.active_turn_order.len() == 0 || !profiler.profiling_enabled {
            return self.step_turn(def);
        }
        proof {
            lemma_active_ids_bounds(def.pieces@, def.turn_order@);
        }
        let pid = self.active_turn_order[self.turn_order_index];
        assert(is_active(def.pieces@, pid));
        let c0 = self.cursors[pid];
        let occupied_len = self.occupancy.cells_slice().len();
        let ok = self.step_turn(def);
        let end = if ok {
            let entries = self.placement_entries();
            entries[entries.len() - 1].0
        } else {
            self.cursors[pid]
        };
        let span = end - c0;
        profiler.add_scan_cells(span as u64 + 1);
        profiler.add_scan_single_step_rejects(span as u64);
        if ok {
            profile_placement(def, self.visit_order, pid, end, end as usize >= occupied_len, profiler);
        }
        ok
    }

    /// Take `index` (the cell `xy`) for `piece_id` directly, replaying a recorded placement while
    /// `profiler` counts it as [`placement_profiled`] says. Nothing happens unless `xy` is the
    /// cell of `index` and the piece may legally take it; the placement can still fail when an
    /// allocation does, which saturates the simulation. Cursors and turns are left alone.
    pub fn replay_place_profiled(
        &mut self,
        def: &GameDefinition,
        index: u32,
        xy: (i32, i32),
        piece_id: PieceId,
        profiler: &mut PlaceProfiler,
    ) -> (ok: bool)
        requires
            old(self).wf(*def),
            old(self).spec_placements().len() < u32::MAX,
            old(profiler).profiling_enabled ==> profile_room(*old(profiler), *def),
        ensures
            final(self).wf(*def),
            final(self).spec_order() == old(self).spec_order(),
            final(self).spec_budget() == old(self).spec_budget(),
            final(self).spec_cursors() == old(self).spec_cursors(),
            final(self).spec_positions() == old(self).spec_positions(),
            final(self).spec_turn_index() == old(self).spec_turn_index(),
            final(self).spec_turn_step() == old(self).spec_turn_step(),
            ({
                let legal = piece_id < def.pieces@.len()
                    && (xy.0 as int, xy.1 as int) == old(self).spec_order().spec_index_to_xy(index as nat)
                    && legal_for(*def, old(self).spec_order(), old(self).spec_placements(), piece_id, index as int);
                &&& !legal ==> !ok && *final(self) == *old(self) && profiler_kept(*old(profiler), *final(profiler))
                &&& ok ==> legal && final(self).spec_placements() == old(self).spec_placements().push((index, piece_id))
                    && final(self).spec_saturated() == old(self).spec_saturated()
                    && placement_profiled(*def, old(self).spec_order(), piece_id, index,
                        index >= old(self).spec_occupancy_len(), *old(profiler), *final(profiler))
                &&& legal && !ok ==> final(self).spec_placements() == old(self).spec_placements()
                    && final(self).spec_saturated() && profiler_kept(*old(profiler), *final(profiler))
            }),
    {
        if piece_id >= def.pieces.len() {
            return false;
        }
        let cell = self.visit_order.index_to_xy(index);
        if cell.0 != xy.0 || cell.1 != xy.1 {
            return false;
        }
        let ghost order = self.visit_order;
        let ghost ps = self.spec_placements();
        let occupied = self.occupancy.contains_index(index);
        let bits = self.attack_grid.at(xy.0, xy.1);
        let respected = self.respected_mask[piece_id];
        proof {
            let c = order.spec_index_to_xy(index as nat);
            let w = width_mask(self.attack_grid.spec_width());
            lemma_masked_test(mask_at(*def, order, ps, c.0, c.1), w, respected);
        }
        if occupied || bits & respected != 0 {
            return false;
        }
        let occupied_len = self.occupancy.cells_slice().len();
        if !self.place(def, index, xy, piece_id) {
            proof {
                self.lemma_cursors_after_push(ps);
            }
            return false;
        }
        proof {
            assert(ps.push((index, piece_id)).drop_last() =~= ps);
            self.lemma_cursors_after_push(ps);
        }
        profile_placement(def, self.visit_order, piece_id, index, index as usize >= occupied_len, profiler);
        true
    }

    /// Each placement of a run can be replayed, in order: on a simulation of the same order
    /// that holds the run's first `k` placements, placement `k` is by a piece of the roster
    /// and legal, so [`Simulation::replay_place_profiled`] accepts it.
    pub proof fn lemma_replay_accepts_run(&self, def: GameDefinition, replay: Simulation, k: int)
        requires
            self.wf(def),
            replay.spec_order() == self.spec_order(),
            0 <= k < self.spec_placements().len(),
            replay.spec_placements() == self.spec_placements().take(k),
        ensures
            self.spec_placements()[k].1 < def.pieces@.len(),
            legal_for(def, replay.spec_order(), replay.spec_placements(), self.spec_placements()[k].1, self.spec_placements()[k].0 as int),
    {
        self.lemma_wf_facts(def);
        let e = self.spec_placements()[k];
        assert(e.1 < def.pieces@.len() && legal_for(def, self.spec_order(), self.spec_placements().take(k), e.1, e.0 as int));
    }

    /// The cursors stay consistent when the history `ps` is kept or extended.
    proof fn lemma_cursors_after_push(&self, ps: Seq<(u32, PieceId)>)
        requires
            self.spec_placements() == ps || self.spec_placements().drop_last() == ps && self.spec_placements().len() > 0,
            self.cursors@.len() == self.cursor_positions@.len(),
            forall|p: int| 0 <= p < self.cursor_positions@.len()
                ==> cursor_pos_ok(self.visit_order, ps, self.cursors@[p], #[trigger] self.cursor_positions@[p]),
        ensures
            self.wf_cursors(),
    {
        let ps2 = self.spec_placements();
        assert forall|p: int| 0 <= p < self.cursor_positions@.len() implies
            cursor_pos_ok(self.visit_order, ps2, self.cursors@[p], #[trigger] self.cursor_positions@[p]) by {
            if ps2 != ps {
                assert(ps2 == ps.push(ps2.last()));
            }
        }
    }

    /// After a turn of `piece_id` that kept or extended the history `ps`, the other cursors are
    /// still consistent.
    proof fn lemma_cursors_kept(&self, ps: Seq<(u32, PieceId)>, piece_id: PieceId)
        requires
            self.spec_placements() == ps || self.spec_placements().drop_last() == ps && self.spec_placements().len() > 0,
            cursor_pos_ok(self.visit_order, self.spec_placements(), self.cursors@[piece_id as int], self.cursor_positions@[piece_id as int]),
            piece_id < self.cursor_positions@.len(),
            self.cursors@.len() == self.cursor_positions@.len(),
            forall|p: int| 0 <= p < self.cursor_positions@.len() && p != piece_id
                ==> cursor_pos_ok(self.visit_order, ps, self.cursors@[p], #[trigger] self.cursor_positions@[p]),
        ensures
            self.wf_cursors(),
    {
        let ps2 = self.spec_placements();
        assert forall|p: int| 0 <= p < self.cursor_positions@.len() implies
            cursor_pos_ok(self.visit_order, ps2, self.cursors@[p], #[trigger] self.cursor_positions@[p]) by {
            if p != piece_id && ps2 != ps {
                assert(ps2 == ps.push(ps2.last()));
            }
        }
    }


    /// [`Simulation::with_budget`] and [`Simulation::with_saturated`] change nothing but the
    /// budget or the saturation flag: the board, cursors and turns stay, and so does
    /// consistency with `def`.
    pub proof fn lemma_limits_keep_board(&self, def: GameDefinition, budget: usize, saturated: bool)
        ensures
            self.with_budget(budget).spec_budget() == budget,
            self.with_budget(budget).spec_saturated() == self.spec_saturated(),
            same_board(self.with_budget(budget), *self),
            self.with_saturated(saturated).spec_saturated() == saturated,
            self.with_saturated(saturated).spec_budget() == self.spec_budget(),
            same_board(self.with_saturated(saturated), *self),
            self.wf(def) ==> self.with_budget(budget).wf(def) && self.with_saturated(saturated).wf(def),
    {
    }

    /// This simulation with the budget replaced.
    pub closed spec fn with_budget(self, budget: usize) -> Simulation {
        Simulation { mem_budget_bytes: budget, ..self }
    }

    /// This simulation with the saturation flag replaced.
    pub closed spec fn with_saturated(self, saturated: bool) -> Simulation {
        Simulation { saturated, ..self }
    }

    /// The attack grid is well formed (true of every simulation built by [`Simulation::new`]).
    pub closed spec fn grid_ok(&self) -> bool {
        self.attack_grid.wf()
    }

    /// Enabled turn order the simulation cycles through.
    pub closed spec fn spec_active_ids(&self) -> Seq<PieceId> {
        self.active_turn_order@
    }

    /// Per defender, the attacker bits it respects.
    pub closed spec fn spec_respected(&self) -> Seq<u32> {
        self.respected_mask@
    }

    /// Cells stored in the attack grid.
    pub closed spec fn spec_grid_cells(&self) -> int {
        self.attack_grid.spec_len()
    }

    /// Bytes per cell of the attack grid: one, two or four.
    pub closed spec fn spec_grid_cell_bytes(&self) -> int {
        self.attack_grid.spec_cell_bytes()
    }

    /// The capacities `occ`, `log` and `grid` of the occupancy grid, the placement log and the
    /// attack grid can be what the allocator gave: each at least what its table holds.
    pub open spec fn capacities_fit(&self, occ: int, log: int, grid: int) -> bool {
        &&& occ >= self.spec_occupancy_len()
        &&& log >= self.spec_placements().len()
        &&& grid >= self.spec_grid_cells()
    }

    /// Bytes of the three tables with capacities `occ`, `log` and `grid`: eight per occupancy
    /// cell, sixteen per log entry and the cell size per grid cell, each product and the sum
    /// saturating at `usize::MAX`.
    pub open spec fn footprint_for(&self, occ: int, log: int, grid: int) -> int {
        spec_footprint_of(spec_bytes_of(occ, 8), spec_bytes_of(log, 16), spec_bytes_of(grid, self.spec_grid_cell_bytes()))
    }

    /// Bytes the index-scaled structures need at least for what they hold.
    pub closed spec fn spec_min_footprint(&self) -> int {
        self.occupancy.spec_cells().len() * 8 + self.placements.spec_entries().len() * 16 + self.attack_grid.spec_len()
    }

    /// The derived tables of a consistent simulation follow the definition.
    pub proof fn lemma_wf_tables(&self, def: GameDefinition)
        requires
            self.wf(def),
        ensures
            self.spec_active_ids() == def.spec_active_turn_order(),
            self.spec_active_ids().len() > 0 ==> 0 <= self.spec_turn_index() < self.spec_active_ids().len(),
            self.spec_active_ids().len() > 0 ==> self.spec_turn_index() == self.spec_turn_step() % self.spec_active_ids().len() as int,
            self.spec_active_ids().len() == 0 ==> self.spec_turn_index() == 0,
            self.spec_respected().len() == def.pieces@.len(),
            def.pieces@.len() <= MAX_PIECES,
            self.grid_ok(),
            forall|d: int| 0 <= d < def.pieces@.len() ==> #[trigger] self.spec_respected()[d] == respected_mask_of(def, d as PieceId),
            forall|x: int, y: int, d: int| 0 <= d < def.pieces@.len() ==>
                #[trigger] (self.spec_grid_at(x, y) & self.spec_respected()[d]) == mask_at(def, self.spec_order(), self.spec_placements(), x, y) & respected_mask_of(def, d as PieceId),
    {
        assert forall|x: int, y: int, d: int| 0 <= d < def.pieces@.len() implies
            #[trigger] (self.spec_grid_at(x, y) & self.spec_respected()[d]) == mask_at(def, self.spec_order(), self.spec_placements(), x, y) & respected_mask_of(def, d as PieceId) by {
            let m = mask_at(def, self.visit_order, self.spec_placements(), x, y);
            let w = width_mask(self.attack_grid.spec_width());
            let r = self.respected_mask@[d];
            assert(r & w == r ==> (m & w) & r == m & r) by (bit_vector);
        }
    }

    /// Per-piece placement aggregates.
    pub fn piece_tally(&self) -> (tally: &[PieceTally])
        ensures
            tally@ == self.spec_tally(),
    {
        self.piece_tally.as_slice()
    }

    /// Set once the simulation stops growing (budget reached or an allocation failed).
    pub fn is_saturated(&self) -> (saturated: bool)
        ensures
            saturated == self.spec_saturated(),
    {
        self.saturated
    }

    /// Override the soft heap budget (bytes) used to stop advancing. Does not clear an existing
    /// saturation.
    pub fn set_memory_budget_bytes(&mut self, budget: usize)
        ensures
            final(self).spec_budget() == budget,
            final(self).spec_saturated() == old(self).spec_saturated(),
            same_board(*final(self), *old(self)),
            *final(self) == old(self).with_budget(budget),
    {
        self.mem_budget_bytes = budget;
    }

    pub fn memory_budget_bytes(&self) -> (budget: usize)
        ensures
            budget == self.spec_budget(),
    {
        self.mem_budget_bytes
    }

    /// The footprint of capacities that fit is at least the smallest footprint of what the
    /// tables hold, unless it saturates at `usize::MAX`.
    pub proof fn lemma_footprint_for_covers(&self, occ: int, log: int, grid: int)
        requires
            self.capacities_fit(occ, log, grid),
        ensures
            self.footprint_for(occ, log, grid) >= self.spec_min_footprint() || self.footprint_for(occ, log, grid) == usize::MAX,
    {
        self.attack_grid.lemma_cell_bytes();
        let sz = self.spec_grid_cell_bytes();
        let a = spec_bytes_of(occ, 8);
        let b = spec_bytes_of(log, 16);
        let c = spec_bytes_of(grid, sz);
        let n0 = self.occupancy.spec_cells().len() as int;
        let n1 = self.placements.spec_entries().len() as int;
        let n2 = self.attack_grid.spec_len();
        assert(occ * 8 >= n0 * 8);
        assert(log * 16 >= n1 * 16);
        assert(grid * sz >= n2) by (nonlinear_arith)
            requires grid >= n2, n2 >= 0, sz >= 1;
        assert(a == usize::MAX || a >= n0 * 8);
        assert(b == usize::MAX || b >= n1 * 16);
        assert(c == usize::MAX || c >= n2);
        assert(a >= 0 && b >= 0 && c >= 0);
        assert(self.spec_min_footprint() == n0 * 8 + n1 * 16 + n2);
        assert(self.footprint_for(occ, log, grid) == spec_footprint_of(a, b, c));
    }

    /// Approximate live heap held by the index-scaled structures: [`Simulation::footprint_for`]
    /// of the capacities the allocator gave the three tables.
    pub fn footprint_bytes(&self) -> (bytes: usize)
        ensures
            exists|occ: int, log: int, grid: int| self.capacities_fit(occ, log, grid) && bytes == #[trigger] self.footprint_for(occ, log, grid),
            bytes >= self.spec_min_footprint() || bytes == usize::MAX,
    {
        let a = self.occupancy.byte_capacity();
        let b = self.placements.byte_capacity();
        let c = self.attack_grid.byte_capacity();
        let bytes = footprint_of(a, b, c);
        proof {
            let occ = choose|cap: int| cap >= self.occupancy.spec_cells().len() && a == #[trigger] spec_bytes_of(cap, 8);
            let log = choose|cap: int| cap >= self.placements.spec_entries().len() && b == #[trigger] spec_bytes_of(cap, 16);
            let grid = choose|cap: int| cap >= self.attack_grid.spec_len() && c == #[trigger] spec_bytes_of(cap, self.attack_grid.spec_cell_bytes());
            assert(self.capacities_fit(occ, log, grid));
            assert(bytes == self.footprint_for(occ, log, grid));
            self.lemma_footprint_for_covers(occ, log, grid);
        }
        bytes
    }

    /// Soft-budget checkpoint: returns `true`, latching the saturation, once the footprint
    /// reaches the budget; a saturated simulation answers `true` at once. The answer is
    /// [`budget_reached`] of the footprint that [`Simulation::footprint_bytes`] measures from
    /// the capacities the allocator gave the three tables.
    pub fn mem_saturated(&mut self) -> (saturated: bool)
        ensures
            saturated == final(self).spec_saturated(),
            exists|occ: int, log: int, grid: int| {
                &&& old(self).capacities_fit(occ, log, grid)
                &&& saturated == spec_budget_reached(old(self).spec_saturated(), #[trigger] old(self).footprint_for(occ, log, grid), old(self).spec_budget())
            },
            old(self).spec_saturated() ==> saturated,
            old(self).spec_min_footprint() >= old(self).spec_budget() ==> saturated,
            final(self).spec_budget() == old(self).spec_budget(),
            same_board(*final(self), *old(self)),
            *final(self) == old(self).with_saturated(saturated),
    {
        if self.saturated {
            proof {
                let (o, l, g) = (self.spec_occupancy_len(), self.spec_placements().len() as int, self.spec_grid_cells());
                assert(old(self).capacities_fit(o, l, g));
                assert(spec_budget_reached(old(self).spec_saturated(), old(self).footprint_for(o, l, g), old(self).spec_budget()));
            }
            return true;
        }
        let footprint = self.footprint_bytes();
        let reached = budget_reached(false, footprint, self.mem_budget_bytes);
        proof {
            let (o, l, g) = choose|o: int, l: int, g: int| self.capacities_fit(o, l, g) && footprint == #[trigger] self.footprint_for(o, l, g);
            assert(old(self).capacities_fit(o, l, g));
            assert(reached == spec_budget_reached(old(self).spec_saturated(), old(self).footprint_for(o, l, g), old(self).spec_budget()));
        }
        if reached {
            self.saturated = true;
        }
        reached
    }

    pub fn active_turn_order_len(&self) -> (len: usize)
        ensures
            len == self.spec_active_ids().len(),
    {
        self.active_turn_order.len()
    }

    /// Piece that scans on the next turn.
    pub fn upcoming_piece_id(&self) -> (id: PieceId)
        requires
            0 <= self.spec_turn_index() < self.spec_active_ids().len(),
        ensures
            id == self.spec_active_ids()[self.spec_turn_index()],
    {
        self.active_turn_order[self.turn_order_index]
    }

    /// Whether some enabled piece's cursor has not yet passed `target_index`.
    pub fn needs_work(&self, def: &GameDefinition, target_index: u32) -> (needed: bool)
        ensures
            needed == spec_needs_work(*def, self.spec_cursors(), target_index),
    {
        let n = self.cursors.len();
        let mut id: usize = 0;
        while id < n
            invariant
                n == self.cursors@.len(),
                id <= n,
                forall|q: int| 0 <= q < id ==> !#[trigger] cursor_pending(*def, self.cursors@, target_index, q),
            decreases n - id,
        {
            if id < def.pieces.len() && def.pieces[id].enabled && self.cursors[id] <= target_index {
                assert(cursor_pending(*def, self.cursors@, target_index, id as int));
                return true;
            }
            id += 1;
        }
        false
    }

    /// Start over for `def`: no placements, every cursor back on the origin, tables rebuilt;
    /// the visit order and the memory budget are kept.
    pub fn reset(&mut self, def: &GameDefinition)
        requires
            def_fits(*def),
            old(self).grid_ok(),
        ensures
            final(self).wf(*def),
            final(self).spec_order() == old(self).spec_order(),
            final(self).spec_budget() == old(self).spec_budget(),
            final(self).spec_placements() == Seq::<(u32, PieceId)>::empty(),
            final(self).spec_cursors() == Seq::new(def.pieces@.len(), |p: int| 0u32),
            final(self).spec_turn_index() == 0,
            final(self).spec_turn_step() == 0,
            !final(self).spec_saturated(),
    {
        self.occupancy.clear();
        self.saturated = false;
        let piece_count = def.pieces.len();
        self.respected_mask = respected_masks(def);
        let width = cell_width_for(self.respected_mask.as_slice());
        if self.attack_grid.cell_width() == width {
            self.attack_grid.clear();
        } else {
            self.attack_grid = AttackGrid::new(width);
        }
        self.move_radius = move_radii(def);
        self.active_turn_order = active_turn_order(def);
        resize_piece_vectors(&mut self.cursors, piece_count, 0u32);
        resize_piece_vectors(&mut self.cursor_positions, piece_count, (0i32, 0i32));
        resize_piece_vectors(&mut self.piece_tally, piece_count, PieceTally { placements: 0, first_index: 0, last_index: 0 });
        self.turn_order_index = 0;
        self.turn_step = 0;
        self.placements.clear();
        proof {
            if self.active_turn_order@.len() > 0 {
                vstd::arithmetic::div_mod::lemma_small_mod(0nat, self.active_turn_order@.len() as nat);
            }
            let n = piece_count as int;
            assert forall|d: int| 0 <= d < n implies #[trigger] self.respected_mask@[d] & width_mask(self.attack_grid.spec_width()) == self.respected_mask@[d] by {
                lemma_union_fits(self.respected_mask@, d);
            }
            assert forall|x: int, y: int| #[trigger] self.attack_grid.spec_at(x, y) == mask_at(*def, self.visit_order, self.spec_placements(), x, y) & width_mask(self.attack_grid.spec_width()) by {
                let w = width_mask(self.attack_grid.spec_width());
                assert(0u32 & w == 0) by (bit_vector);
            }
            assert forall|p: int| 0 <= p < self.cursor_positions@.len() implies
                cursor_pos_ok(self.visit_order, self.spec_placements(), self.cursors@[p], #[trigger] self.cursor_positions@[p]) by {
                assert(self.cursors@[p] == 0);
            }
        }
    }


    /// Cells the upcoming piece skips on its next scan: attacked-but-empty vs already occupied.
    /// The scan runs from the piece's cursor up to the first cell it may take (or through the
    /// last index when there is none).
    pub fn scan_skips_on_next_scan(&self, def: &GameDefinition) -> (skips: ScanSkips)
        requires
            self.wf(*def),
        ensures
            next_scan_skips(*def, *self, skips.forbidden@, skips.occupied@),
    {
        let mut forbidden: Vec<u32> = Vec::new();
        let mut occupied: Vec<u32> = Vec::new();
        let turn_order_len = self.active_turn_order.len();
        if turn_order_len == 0 {
            return ScanSkips { forbidden, occupied };
        }
        proof {
            lemma_active_ids_bounds(def.pieces@, def.turn_order@);
        }
        let piece_id = self.active_turn_order[self.turn_order_index];
        assert(is_active(def.pieces@, piece_id));
        let respected_mask = self.respected_mask[piece_id];
        let c0 = self.cursors[piece_id];
        let mut cursor = c0;
        let mut xy = self.cursor_positions[piece_id];
        let ghost order = self.visit_order;
        let ghost ps = self.spec_placements();
        let ghost w = width_mask(self.attack_grid.spec_width());
        loop
            invariant
                self.wf(*def),
                order == self.visit_order,
                ps == self.spec_placements(),
                self.active_turn_order@.len() > 0,
                piece_id == self.active_turn_order@[self.turn_order_index as int],
                c0 == self.cursors@[piece_id as int],
                piece_id < def.pieces@.len(),
                respected_mask == respected_mask_of(*def, piece_id),
                respected_mask & w == respected_mask,
                w == width_mask(self.attack_grid.spec_width()),
                c0 <= cursor,
                cursor_pos_ok(order, ps, cursor, xy),
                forall|j: int| c0 <= j < cursor ==> !#[trigger] legal_for(*def, order, ps, piece_id, j),
                exact_cells(forbidden@, ps, c0 as int, cursor as int, false),
                exact_cells(occupied@, ps, c0 as int, cursor as int, true),
            decreases u32::MAX - cursor,
        {
            let occupied_here = self.occupancy.contains_index(cursor);
            let bits = self.attack_grid.at(xy.0, xy.1);
            proof {
                let c = order.spec_index_to_xy(cursor as nat);
                lemma_masked_test(mask_at(*def, order, ps, c.0, c.1), w, respected_mask);
            }
            if !occupied_here && bits & respected_mask == 0 {
                assert(is_scan_end(*def, order, ps, piece_id, c0 as int, cursor as int));
                let skips = ScanSkips { forbidden, occupied };
                assert(skips.forbidden@ == forbidden@);
                assert(self.spec_active_ids()[self.spec_turn_index()] == piece_id);
                assert(self.spec_cursors()[piece_id as int] == c0);
                assert(exact_cells(skips.forbidden@, ps, c0 as int, cursor as int, false));
                return skips;
            }
            let ghost f0 = forbidden@;
            let ghost o0 = occupied@;
            if occupied_here {
                occupied.push(cursor);
            } else {
                forbidden.push(cursor);
            }
            proof {
                lemma_exact_cells_extend(f0, forbidden@, ps, c0 as int, cursor as int, false);
                lemma_exact_cells_extend(o0, occupied@, ps, c0 as int, cursor as int, true);
            }
            if cursor == u32::MAX {
                assert(is_scan_end(*def, order, ps, piece_id, c0 as int, u32::MAX + 1));
                let skips = ScanSkips { forbidden, occupied };
                assert(skips.forbidden@ == forbidden@);
                assert(skips.occupied@ == occupied@);
                assert(self.spec_active_ids()[self.spec_turn_index()] == piece_id);
                assert(self.spec_cursors()[piece_id as int] == c0);
                return skips;
            }
            proof {
                lemma_order_scan_step(order, cursor);
                lemma_scan_step_bounded(order, cursor, (xy.0 as int, xy.1 as int));
            }
            xy = self.visit_order.scan_step_xy(cursor, xy);
            cursor = cursor + 1;
        }
    }

    /// Cells rejected as attacked (not occupied) on the upcoming piece's next scan.
    pub fn forbidden_skips_on_next_scan(&self, def: &GameDefinition) -> (cells: Vec<u32>)
        requires
            self.wf(*def),
        ensures
            exists|occupied: Seq<u32>| #[trigger] next_scan_skips(*def, *self, cells@, occupied),
    {
        let skips = self.scan_skips_on_next_scan(def);
        assert(next_scan_skips(*def, *self, skips.forbidden@, skips.occupied@));
        skips.forbidden
    }

    /// Respected attackers of `scanning_piece` whose cumulative attacks cover the cell of `index`,
    /// in increasing id order.
    pub fn respected_forbidden_attackers(&self, scanning_piece: PieceId, index: u32) -> (attackers: Vec<PieceId>)
        requires
            self.grid_ok(),
            self.spec_respected().len() <= MAX_PIECES,
        ensures
            scanning_piece >= self.spec_respected().len() ==> attackers@.len() == 0,
            scanning_piece < self.spec_respected().len() ==> {
                let c = self.spec_order().spec_index_to_xy(index as nat);
                attackers@ == bits_below(self.spec_grid_at(c.0, c.1) & self.spec_respected()[scanning_piece as int], self.spec_respected().len() as int)
            },
    {
        if scanning_piece >= self.respected_mask.len() {
            return Vec::new();
        }
        let mask = self.respected_mask[scanning_piece];
        let (x, y) = self.visit_order.index_to_xy(index);
        let hit = self.attack_grid.at(x, y) & mask;
        let n = self.respected_mask.len();
        let mut attackers: Vec<PieceId> = Vec::new();
        if hit == 0 {
            proof {
                lemma_bits_below_zero(n as int);
            }
            return attackers;
        }
        let mut a: usize = 0;
        while a < n
            invariant
                n <= 32,
                a <= n,
                attackers@ == bits_below(hit, a as int),
            decreases n - a,
        {
            if hit & (1u32 << (a as u32)) != 0 {
                attackers.push(a);
            }
            a += 1;
            proof {
                assert(bits_below(hit, a as int) == bits_below(hit, a - 1) + (if hit & (1u32 << ((a - 1) as u32)) != 0 { seq![(a - 1) as PieceId] } else { seq![] }));
            }
        }
        attackers
    }

    /// Latest placement of `attacker` in the history whose moves hit the cell of `target_index`.
    pub fn placement_blocking_attacker(&self, def: &GameDefinition, attacker: PieceId, target_index: u32) -> (from: Option<u32>)
        requires
            self.wf(*def),
        ensures
            match from {
                Some(f) => exists|k: int| #[trigger] blocking_at(*def, self.spec_order(), self.spec_placements(), attacker, target_index, k)
                    && self.spec_placements()[k].0 == f
                    && forall|k2: int| k < k2 < self.spec_placements().len() ==> !#[trigger] blocking_at(*def, self.spec_order(), self.spec_placements(), attacker, target_index, k2),
                None => forall|k: int| !#[trigger] blocking_at(*def, self.spec_order(), self.spec_placements(), attacker, target_index, k),
            },
    {
        let entries = self.placements.as_slice();
        let ghost ps = self.spec_placements();
        let ghost order = self.visit_order;
        assert forall|k: int| 0 <= k < ps.len() implies (#[trigger] ps[k]).1 < def.pieces@.len() by {
            assert(placements_legal(*def, order, ps));
        }
        let mut k: usize = entries.len();
        while k > 0
            invariant
                entries@ == ps,
                ps == self.spec_placements(),
                order == self.visit_order,
                forall|k: int| 0 <= k < ps.len() ==> (#[trigger] ps[k]).1 < def.pieces@.len(),
                k <= ps.len(),
                forall|k2: int| k <= k2 < ps.len() ==> !#[trigger] blocking_at(*def, order, ps, attacker, target_index, k2),
            decreases k,
        {
            k -= 1;
            let (from_index, pid) = entries[k];
            if pid == attacker {
                assert(ps[k as int].1 < def.pieces@.len());
                if placement_attacks_index(def, self.visit_order, from_index, attacker, target_index) {
                    assert(blocking_at(*def, order, ps, attacker, target_index, k as int));
                    return Some(from_index);
                }
            }
        }
        None
    }


    /// Take up to `max_turns` turns toward `target_index`. Returns `true` when all of them were
    /// taken; `false` when it stopped first: the simulation was saturated or has no active
    /// piece, no enabled cursor is still at or before the target, a turn placed nothing, or the
    /// history reached the size of the index space.
    pub fn advance_turns(&mut self, def: &GameDefinition, target_index: u32, max_turns: u32) -> (more: bool)
        requires
            old(self).wf(*def),
        ensures
            final(self).wf(*def),
            final(self).spec_order() == old(self).spec_order(),
            final(self).spec_budget() == old(self).spec_budget(),
            old(self).spec_saturated() || def.pieces@.len() == 0 || def.spec_active_turn_order().len() == 0
                ==> !more && *final(self) == *old(self),
            exists|states: Seq<Simulation>, failed: bool| {
                &&& #[trigger] turn_chain(*def, states, *old(self), *final(self), failed)
                &&& more ==> !failed && states.len() == max_turns + 1
                &&& states.len() <= max_turns + 1
                &&& !failed ==> final(self).spec_saturated() == old(self).spec_saturated()
                &&& !more ==> failed || stop_reason(*def, *old(self), *final(self), target_index)
            },
            more ==> final(self).spec_placements().len() == old(self).spec_placements().len() + max_turns,
            more ==> !final(self).spec_saturated(),
    {
        let ghost start = *self;
        if self.saturated || def.pieces.len() == 0 || self.active_turn_order.len() == 0 {
            proof {
                lemma_chain_single(*def, start);
            }
            return false;
        }
        let ghost mut states: Seq<Simulation> = seq![start];
        proof {
            lemma_chain_single(*def, start);
        }
        let mut turns: u32 = 0;
        while turns < max_turns
            invariant
                self.wf(*def),
                start == *old(self),
                !start.spec_saturated(),
                self.spec_order() == start.spec_order(),
                self.spec_budget() == start.spec_budget(),
                !self.spec_saturated(),
                def.pieces@.len() > 0,
                self.active_turn_order@.len() > 0,
                self.active_turn_order@ == def.spec_active_turn_order(),
                turns <= max_turns,
                states.len() == turns + 1,
                turn_chain(*def, states, start, *self, false),
                self.spec_placements().len() == start.spec_placements().len() + turns,
            decreases max_turns - turns,
        {
            if !self.needs_work(def, target_index) {
                return false;
            }
            if self.placements.len() as u64 >= u32::MAX as u64 || self.turn_step == usize::MAX {
                return false;
            }
            let ghost before = *self;
            let ok = self.step_turn(def);
            proof {
                lemma_chain_push(*def, states, start, before, *self, ok);
                states = states.push(*self);
            }
            if !ok {
                return false;
            }
            turns = turns + 1;
        }
        true
    }

    /// Advance until every enabled piece has scanned past `target_index`, checking the memory
    /// budget after every 4096 turns; stops early when a turn places nothing or the budget is
    /// reached. The turns taken are a chain of steps from the old state; saturation that the
    /// call adds comes from a failed step or from a checkpoint after a whole number of rounds of
    /// 4096 turns, and every earlier checkpoint found the footprint below the budget.
    pub fn advance_to_target(&mut self, def: &GameDefinition, target_index: u32)
        requires
            old(self).wf(*def),
        ensures
            final(self).wf(*def),
            final(self).spec_order() == old(self).spec_order(),
            final(self).spec_budget() == old(self).spec_budget(),
            old(self).spec_saturated() || def.pieces@.len() == 0 || def.spec_active_turn_order().len() == 0
                ==> *final(self) == *old(self),
            old(self).spec_placements().is_prefix_of(final(self).spec_placements()),
            exists|states: Seq<Simulation>, failed: bool, end: Simulation| {
                &&& #[trigger] turn_chain(*def, states, *old(self), end, failed)
                &&& !failed ==> end.spec_saturated() == old(self).spec_saturated()
                &&& if !failed && final(self).spec_saturated() && !old(self).spec_saturated() {
                    &&& states.len() > 1
                    &&& (states.len() - 1) % 4096 == 0
                    &&& *final(self) == end.with_saturated(true)
                } else {
                    *final(self) == end
                }
                &&& forall|i: int| 0 < i < states.len() - 1 && i % 4096 == 0
                    ==> #[trigger] states[i].spec_min_footprint() < old(self).spec_budget()
                &&& failed || final(self).spec_saturated() || stop_reason(*def, *old(self), *final(self), target_index)
            },
    {
        let ghost start = *self;
        let ghost mut states: Seq<Simulation> = seq![start];
        proof {
            lemma_chain_single(*def, start);
        }
        loop
            invariant
                self.wf(*def),
                start == *old(self),
                self.spec_order() == start.spec_order(),
                self.spec_budget() == start.spec_budget(),
                turn_chain(*def, states, start, *self, false),
                start.spec_saturated() || def.pieces@.len() == 0 || def.spec_active_turn_order().len() == 0 ==> *self == start,
                self.spec_saturated() == start.spec_saturated(),
                self.spec_placements().len() <= u32::MAX,
                start.spec_placements().is_prefix_of(self.spec_placements()),
                (states.len() - 1) % 4096 == 0,
                forall|i: int| 0 < i < states.len() && i % 4096 == 0
                    ==> #[trigger] states[i].spec_min_footprint() < start.spec_budget(),
            decreases u32::MAX - self.spec_placements().len(),
        {
            let ghost before = *self;
            let ghost old_states = states;
            let more = self.advance_turns(def, target_index, 4096);
            let ghost r = lemma_round(*def, states, start, before, *self, more, target_index, 4096);
            proof {
                states = r.0;
                lemma_chain_keeps_prefix(*def, states, start, *self, r.1);
                let o = old_states.len() - 1;
                assert forall|i: int| 0 < i < states.len() - 1 && i % 4096 == 0
                    implies #[trigger] states[i].spec_min_footprint() < start.spec_budget() by {
                    if i >= old_states.len() {
                        assert(o < i < o + 4096);
                        assert(false) by (nonlinear_arith)
                            requires o % 4096 == 0, i % 4096 == 0, o < i < o + 4096, o >= 0;
                    }
                    assert(states[i] == old_states[i]);
                }
            }
            if !more {
                proof {
                    assert(turn_chain(*def, states, *old(self), *self, r.1));
                }
                return;
            }
            let ghost end = *self;
            proof {
                assert(turn_chain(*def, states, start, end, false));
                assert(states.len() == old_states.len() + 4096);
            }
            if self.mem_saturated() {
                return;
            }
            proof {
                assert(*self == end) by {
                    assert(end.with_saturated(false) == end);
                }
                assert(end.spec_min_footprint() < end.spec_budget());
                reveal(turn_chain);
                assert(states.last() == end);
                assert((states.len() - 1) % 4096 == 0) by (nonlinear_arith)
                    requires states.len() == old_states.len() + 4096, (old_states.len() - 1) % 4096 == 0;
                assert forall|i: int| 0 < i < states.len() && i % 4096 == 0
                    implies #[trigger] states[i].spec_min_footprint() < start.spec_budget() by {
                    if i == states.len() - 1 {
                        assert(states[i] == end);
                    }
                }
            }
        }
    }


    /// Every attacker reported on a cell of a consistent simulation has a placement in the
    /// history whose moves hit that cell, so [`Simulation::placement_blocking_attacker`] finds one.
    pub proof fn lemma_reported_attacker_has_blocker(&self, def: GameDefinition, scanning_piece: PieceId, index: u32, a: PieceId)
        requires
            self.wf(def),
            scanning_piece < def.pieces@.len(),
            a < def.pieces@.len(),
            ({
                let c = self.spec_order().spec_index_to_xy(index as nat);
                (self.spec_grid_at(c.0, c.1) & self.spec_respected()[scanning_piece as int]) & (1u32 << (a as u32)) != 0
            }),
        ensures
            exists|k: int| #[trigger] blocking_at(def, self.spec_order(), self.spec_placements(), a, index, k),
    {
        self.lemma_wf_tables(def);
        let c = self.visit_order.spec_index_to_xy(index as nat);
        let m = mask_at(def, self.visit_order, self.spec_placements(), c.0, c.1);
        let r = respected_mask_of(def, scanning_piece);
        let au = a as u32;
        assert((m & r) & (1u32 << au) != 0 ==> m & (1u32 << au) != 0) by (bit_vector);
        assert(piece_bit(a) == 1u32 << au);
        lemma_mask_witness(def, self.visit_order, self.spec_placements(), a, c.0, c.1);
        let k = choose|k: int| 0 <= k < self.spec_placements().len() && (#[trigger] self.spec_placements()[k]).1 == a
            && attacks_cell(def, self.visit_order, self.spec_placements()[k], c.0, c.1);
        assert(blocking_at(def, self.spec_order(), self.spec_placements(), a, index, k));
    }


    /// On a consistent simulation, the attackers [`Simulation::respected_forbidden_attackers`]
    /// reports for `scanning_piece` on the cell of `index` are, in increasing id order, exactly
    /// the pieces in its `blocked_by` list that have a placement whose moves hit that cell.
    pub proof fn lemma_forbidden_attackers_are_blockers(&self, def: GameDefinition, scanning_piece: PieceId, index: u32)
        requires
            self.wf(def),
            scanning_piece < def.pieces@.len(),
        ensures
            ({
                let c = self.spec_order().spec_index_to_xy(index as nat);
                let listed = bits_below(self.spec_grid_at(c.0, c.1) & self.spec_respected()[scanning_piece as int], self.spec_respected().len() as int);
                &&& forall|i: int, j: int| 0 <= i < j < listed.len() ==> listed[i] < listed[j]
                &&& forall|a: PieceId| #[trigger] listed.contains(a) <==> a < def.pieces@.len()
                    && def.pieces@[scanning_piece as int].blocked_by@.contains(a)
                    && exists|k: int| #[trigger] blocking_at(def, self.spec_order(), self.spec_placements(), a, index, k)
            }),
    {
        self.lemma_wf_tables(def);
        let n = def.pieces@.len() as int;
        let c = self.spec_order().spec_index_to_xy(index as nat);
        let g = self.spec_grid_at(c.0, c.1);
        let r = self.spec_respected()[scanning_piece as int];
        let hit = g & r;
        lemma_bits_below_members(hit, n);
        let listed = bits_below(hit, n);
        let ps = self.spec_placements();
        let order = self.spec_order();
        let m = mask_at(def, order, ps, c.0, c.1);
        assert forall|a: PieceId| #[trigger] listed.contains(a) <==> a < def.pieces@.len()
            && def.pieces@[scanning_piece as int].blocked_by@.contains(a)
            && exists|k: int| #[trigger] blocking_at(def, order, ps, a, index, k) by {
            if a < n {
                let au = a as u32;
                assert(piece_bit(a) == 1u32 << au);
                lemma_single_bit(g, r, au, 0);
                lemma_respected_bit(def.pieces@[scanning_piece as int].blocked_by@, a);
                // `g` is the mask cut to the cell width, which keeps every respected bit.
                assert(g & r == m & r);
                lemma_single_bit(m, r, au, 0);
                if m & piece_bit(a) != 0 {
                    lemma_mask_witness(def, order, ps, a, c.0, c.1);
                    let k = choose|k: int| 0 <= k < ps.len() && (#[trigger] ps[k]).1 == a && attacks_cell(def, order, ps[k], c.0, c.1);
                    assert(blocking_at(def, order, ps, a, index, k));
                }
                if exists|k: int| #[trigger] blocking_at(def, order, ps, a, index, k) {
                    let k = choose|k: int| #[trigger] blocking_at(def, order, ps, a, index, k);
                    lemma_mask_has_attack(def, order, ps, k, c.0, c.1);
                }
            }
        }
    }

    /// The placement history, in turn order.
    pub fn placement_entries(&self) -> (entries: &[(u32, PieceId)])
        ensures
            entries@ == self.spec_placements(),
    {
        self.placements.as_slice()
    }

    /// Turns taken so far.
    pub fn steps_taken(&self) -> (steps: usize)
        ensures
            steps == self.spec_turn_step(),
    {
        self.turn_step
    }

    /// Each piece's cursor.
    pub fn cursor_slice(&self) -> (cursors: &[u32])
        ensures
            cursors@ == self.spec_cursors(),
    {
        self.cursors.as_slice()
    }

    /// The occupancy grid.
    pub fn occupancy_view(&self) -> (grid: &OccupancyGrid)
        ensures
            forall|i: int| #[trigger] grid.spec_piece_at(i) == self.spec_occupied(i),
    {
        &self.occupancy
    }


    /// Shared snapshot of the placement history.
    pub fn placements_snapshot(&self) -> (snapshot: std::sync::Arc<Vec<(u32, PieceId)>>)
        ensures
            snapshot@ == self.spec_placements(),
    {
        self.placements.arc()
    }

}

} // verus!
