//! Per-piece statistics read off a display snapshot and the game definition, without replaying
//! the simulation: a piece's cursor counts the cells it has examined, and its tally holds its
//! placement count and first and latest visit index. This module computes the integer columns
//! and orders the rows; shares and averages are ratios of these columns.

use vstd::prelude::*;
use crate::model::{GameDefinition, PieceId};
use crate::sim::PieceTally;
use crate::sim_worker::SimDisplay;

verus! {

/// Integer columns of one row of the piece statistics.
#[derive(Clone, Copy, Debug, PartialEq, Eq, Structural)]
pub struct PieceStatCounts {
    pub piece_id: PieceId,
    pub enabled: bool,
    /// Placements committed by this piece.
    pub placements: u64,
    /// Cells this piece has examined (its cursor): its scan workload.
    pub cells_scanned: u64,
    /// Cells it skipped (occupied or forbidden) over all its placements: the cells scanned
    /// beyond one per placement, and zero when there are fewer.
    pub cells_skipped: u64,
    /// Largest visit index it has placed on, once it has placed.
    pub spiral_reach: Option<u32>,
    /// Visit-index distance from its first to its latest placement, once it has placed twice
    /// (zero if the latest lies before the first).
    pub spiral_span: Option<u32>,
}

/// The tally of piece `p`, or an empty one when the snapshot has none for it.
pub open spec fn tally_at(tallies: Seq<PieceTally>, p: int) -> PieceTally {
    if 0 <= p < tallies.len() {
        tallies[p]
    } else {
        PieceTally { placements: 0, first_index: 0, last_index: 0 }
    }
}

/// The cursor of piece `p`, or zero when the snapshot has none for it.
pub open spec fn cursor_at(cursors: Seq<u32>, p: int) -> u32 {
    if 0 <= p < cursors.len() {
        cursors[p]
    } else {
        0
    }
}

/// Piece `p` has a row: it is enabled or has placed something.
pub open spec fn shows_piece(def: GameDefinition, tallies: Seq<PieceTally>, p: int) -> bool {
    def.pieces@[p].enabled || tally_at(tallies, p).placements > 0
}

/// The row of piece `p`.
pub open spec fn stat_counts_of(def: GameDefinition, tallies: Seq<PieceTally>, cursors: Seq<u32>, p: int) -> PieceStatCounts {
    let t = tally_at(tallies, p);
    let placements = t.placements as u64;
    let cells = cursor_at(cursors, p) as u64;
    PieceStatCounts {
        piece_id: p as PieceId,
        enabled: def.pieces@[p].enabled,
        placements,
        cells_scanned: cells,
        cells_skipped: if cells >= placements { (cells - placements) as u64 } else { 0 },
        spiral_reach: if placements > 0 { Some(t.last_index) } else { None },
        spiral_span: if placements > 1 {
            Some(if t.last_index >= t.first_index { (t.last_index - t.first_index) as u32 } else { 0 })
        } else {
            None
        },
    }
}

/// Row `a` is listed before row `b`: more placements first, ties by lower piece id.
pub open spec fn listed_before(a: PieceStatCounts, b: PieceStatCounts) -> bool {
    a.placements > b.placements || (a.placements == b.placements && a.piece_id < b.piece_id)
}

/// Cells scanned by the pieces below `n` that have a row.
pub open spec fn scanned_total(def: GameDefinition, tallies: Seq<PieceTally>, cursors: Seq<u32>, n: int) -> int
    decreases n,
{
    if n <= 0 {
        0
    } else {
        scanned_total(def, tallies, cursors, n - 1) + if shows_piece(def, tallies, n - 1) {
            cursor_at(cursors, n - 1) as int
        } else {
            0
        }
    }
}

proof fn lemma_scanned_total_mono(def: GameDefinition, tallies: Seq<PieceTally>, cursors: Seq<u32>, a: int, b: int)
    requires
        0 <= a <= b,
    ensures
        0 <= scanned_total(def, tallies, cursors, a) <= scanned_total(def, tallies, cursors, b),
    decreases b,
{
    if a < b {
        lemma_scanned_total_mono(def, tallies, cursors, a, b - 1);
    } else if a > 0 {
        lemma_scanned_total_mono(def, tallies, cursors, 0, a - 1);
    }
}

/// Tally of piece `p` in the snapshot, zero placements when it has none.
fn tally_placements(display: &SimDisplay, piece_id: PieceId) -> (n: u32)
    ensures
        n == tally_at(display.piece_tally@, piece_id as int).placements,
{
    if piece_id < display.piece_tally.len() {
        display.piece_tally[piece_id].placements
    } else {
        0
    }
}

fn stat_row(def: &GameDefinition, display: &SimDisplay, piece_id: PieceId) -> (row: PieceStatCounts)
    requires
        piece_id < def.pieces@.len(),
    ensures
        row == stat_counts_of(*def, display.piece_tally@, display.cursors@, piece_id as int),
{
    let t = if piece_id < display.piece_tally.len() {
        display.piece_tally[piece_id]
    } else {
        PieceTally { placements: 0, first_index: 0, last_index: 0 }
    };
    let placements = t.placements as u64;
    let cells = if piece_id < display.cursors.len() { display.cursors[piece_id] as u64 } else { 0 };
    PieceStatCounts {
        piece_id,
        enabled: def.pieces[piece_id].enabled,
        placements,
        cells_scanned: cells,
        cells_skipped: cells.saturating_sub(placements),
        spiral_reach: if placements > 0 { Some(t.last_index) } else { None },
        spiral_span: if placements > 1 { Some(t.last_index.saturating_sub(t.first_index)) } else { None },
    }
}

/// The rows of the piece statistics: one for each enabled piece and each piece that has placed,
/// most placements first and ties by piece id.
pub fn piece_stat_counts(def: &GameDefinition, display: &SimDisplay) -> (rows: Vec<PieceStatCounts>)
    ensures
        forall|i: int| 0 <= i < rows@.len() ==> {
            &&& 0 <= (#[trigger] rows@[i]).piece_id < def.pieces@.len()
            &&& shows_piece(*def, display.piece_tally@, rows@[i].piece_id as int)
            &&& rows@[i] == stat_counts_of(*def, display.piece_tally@, display.cursors@, rows@[i].piece_id as int)
        },
        forall|p: int| 0 <= p < def.pieces@.len() && #[trigger] shows_piece(*def, display.piece_tally@, p)
            ==> exists|i: int| 0 <= i < rows@.len() && (#[trigger] rows@[i]).piece_id == p,
        forall|i: int, j: int| 0 <= i < j < rows@.len() ==> listed_before(#[trigger] rows@[i], #[trigger] rows@[j]),
{
    let ghost tallies = display.piece_tally@;
    let ghost cursors = display.cursors@;
    let n = def.pieces.len();
    let mut rows: Vec<PieceStatCounts> = Vec::new();
    let mut p: usize = 0;
    while p < n
        invariant
            n == def.pieces@.len(),
            p <= n,
            tallies == display.piece_tally@,
            cursors == display.cursors@,
            forall|i: int| 0 <= i < rows@.len() ==> {
                &&& 0 <= (#[trigger] rows@[i]).piece_id < p
                &&& shows_piece(*def, tallies, rows@[i].piece_id as int)
                &&& rows@[i] == stat_counts_of(*def, tallies, cursors, rows@[i].piece_id as int)
            },
            forall|q: int| 0 <= q < p && #[trigger] shows_piece(*def, tallies, q)
                ==> exists|i: int| 0 <= i < rows@.len() && (#[trigger] rows@[i]).piece_id == q,
            forall|i: int, j: int| 0 <= i < j < rows@.len() ==> listed_before(#[trigger] rows@[i], #[trigger] rows@[j]),
        decreases n - p,
    {
        let enabled = def.pieces[p].enabled;
        if enabled || tally_placements(display, p) > 0 {
            let row = stat_row(def, display, p);
            let mut k: usize = 0;
            while k < rows.len() && !(row.placements > rows[k].placements)
                invariant
                    k <= rows@.len(),
                    row.piece_id == p,
                    forall|i: int| 0 <= i < rows@.len() ==> 0 <= (#[trigger] rows@[i]).piece_id < p,
                    forall|i: int| 0 <= i < k ==> listed_before(#[trigger] rows@[i], row),
                decreases rows.len() - k,
            {
                assert(rows@[k as int].piece_id < p);
                k += 1;
            }
            proof {
                if k < rows@.len() {
                    assert(listed_before(row, rows@[k as int]));
                }
            }
            let ghost before = rows@;
            rows.insert(k, row);
            proof {
                assert(rows@ == before.insert(k as int, row));
                assert forall|i: int, j: int| 0 <= i < j < rows@.len() implies listed_before(#[trigger] rows@[i], #[trigger] rows@[j]) by {
                    if j < k {
                        assert(rows@[i] == before[i] && rows@[j] == before[j]);
                    } else if j == k {
                        assert(rows@[i] == before[i]);
                    } else if i < k {
                        assert(rows@[i] == before[i] && rows@[j] == before[j - 1]);
                        assert(listed_before(before[i], row));
                        assert(listed_before(row, before[k as int]));
                        if j - 1 > k {
                            assert(listed_before(before[k as int], before[j - 1]));
                        }
                    } else if i == k {
                        assert(rows@[j] == before[j - 1]);
                        if j - 1 > k {
                            assert(listed_before(before[k as int], before[j - 1]));
                        }
                    } else {
                        assert(rows@[i] == before[i - 1] && rows@[j] == before[j - 1]);
                    }
                }
                assert forall|q: int| 0 <= q < p + 1 && #[trigger] shows_piece(*def, tallies, q)
                    implies exists|i: int| 0 <= i < rows@.len() && (#[trigger] rows@[i]).piece_id == q by {
                    if q == p {
                        assert(rows@[k as int].piece_id == q);
                    } else {
                        let i0 = choose|i: int| 0 <= i < before.len() && (#[trigger] before[i]).piece_id == q;
                        if i0 < k {
                            assert(rows@[i0].piece_id == q);
                        } else {
                            assert(rows@[i0 + 1].piece_id == q);
                        }
                    }
                }
                assert forall|i: int| 0 <= i < rows@.len() implies {
                    &&& 0 <= (#[trigger] rows@[i]).piece_id < p + 1
                    &&& shows_piece(*def, tallies, rows@[i].piece_id as int)
                    &&& rows@[i] == stat_counts_of(*def, tallies, cursors, rows@[i].piece_id as int)
                } by {
                    if i < k {
                        assert(rows@[i] == before[i]);
                    } else if i > k {
                        assert(rows@[i] == before[i - 1]);
                    }
                }
            }
        }
        p += 1;
    }
    rows
}

/// Placements in the snapshot and cells scanned by the pieces that have a row: the
/// denominators of the placement and work shares.
pub fn piece_stat_totals(def: &GameDefinition, display: &SimDisplay) -> (totals: (u64, u64))
    requires
        scanned_total(*def, display.piece_tally@, display.cursors@, def.pieces@.len() as int) <= u64::MAX,
    ensures
        totals.0 == display.placements@.len(),
        totals.1 == scanned_total(*def, display.piece_tally@, display.cursors@, def.pieces@.len() as int),
{
    let n = def.pieces.len();
    let mut sum: u64 = 0;
    let mut p: usize = 0;
    while p < n
        invariant
            n == def.pieces@.len(),
            p <= n,
            sum == scanned_total(*def, display.piece_tally@, display.cursors@, p as int),
            scanned_total(*def, display.piece_tally@, display.cursors@, n as int) <= u64::MAX,
        decreases n - p,
    {
        proof {
            lemma_scanned_total_mono(*def, display.piece_tally@, display.cursors@, p + 1, n as int);
        }
        if def.pieces[p].enabled || tally_placements(display, p) > 0 {
            let c = if p < display.cursors.len() { display.cursors[p] as u64 } else { 0 };
            sum = sum + c;
        }
        p += 1;
    }
    (display.placements.len() as u64, sum)
}

} // verus!
