//! How the attacked cells recorded by placements spread: per placement, how many distinct cells
//! its inserts hit and how many inserts repeated a cell. The records are `(target, visit index)`
//! pairs laid out placement after placement.

use vstd::prelude::*;
use std::collections::HashSet;
use crate::model::{GameDefinition, Piece, PieceId};

verus! {

broadcast use vstd::std_specs::hash::group_hash_axioms;

/// Distinct attacked cells of one placement and how its inserts spread over them.
#[derive(Clone, Copy, Debug, PartialEq, Eq, Structural)]
pub struct PlacementFanoutSample {
    pub unique_attacked_cells: usize,
    pub total_inserts: usize,
    /// Inserts that hit a cell already hit by this placement.
    pub cross_target_duplicates: usize,
}

/// Visit indices of the records `offset .. offset + len`.
pub open spec fn attacked_indices(records: Seq<(usize, u32)>, offset: int, len: int) -> Seq<u32> {
    records.subrange(offset, offset + len).map_values(|r: (usize, u32)| r.1)
}

/// The sample of the records `offset .. offset + len`.
pub open spec fn fanout_of(records: Seq<(usize, u32)>, offset: int, len: int) -> PlacementFanoutSample {
    let unique = attacked_indices(records, offset, len).to_set().len();
    PlacementFanoutSample {
        unique_attacked_cells: unique as usize,
        total_inserts: len as usize,
        cross_target_duplicates: (len - unique) as usize,
    }
}

/// Distinct cells and repeated inserts among the records `offset .. offset + len`.
pub fn analyze_placement_fanout(records: &[(usize, u32)], offset: usize, len: usize) -> (sample: PlacementFanoutSample)
    requires
        offset + len <= records@.len(),
    ensures
        sample == fanout_of(records@, offset as int, len as int),
        sample.unique_attacked_cells <= len,
{
    let ghost cells = attacked_indices(records@, offset as int, len as int);
    let total = records.len();
    let mut unique: HashSet<u32> = HashSet::new();
    let mut k: usize = 0;
    while k < len
        invariant
            total == records@.len(),
            offset + len <= records@.len(),
            k <= len,
            cells == attacked_indices(records@, offset as int, len as int),
            unique@ == cells.subrange(0, k as int).to_set(),
            unique@.len() <= k,
            unique@.finite(),
        decreases len - k,
    {
        let (_, idx) = records[offset + k];
        assert(cells[k as int] == idx);
        proof {
            let a = cells.subrange(0, k as int);
            let b = cells.subrange(0, k + 1);
            assert(b == a.push(idx));
            assert forall|x: u32| b.contains(x) <==> a.contains(x) || x == idx by {
                if b.contains(x) {
                    let j = choose|j: int| 0 <= j < b.len() && b[j] == x;
                    if j < a.len() {
                        assert(a[j] == x);
                    }
                }
                if a.contains(x) {
                    let j = choose|j: int| 0 <= j < a.len() && a[j] == x;
                    assert(b[j] == x);
                }
                if x == idx {
                    assert(b[k as int] == x);
                }
            }
            assert(b.to_set() =~= a.to_set().insert(idx));
        }
        unique.insert(idx);
        k += 1;
    }
    assert(cells.subrange(0, len as int) == cells);
    let n = unique.len();
    PlacementFanoutSample {
        unique_attacked_cells: n,
        total_inserts: len,
        cross_target_duplicates: len - n,
    }
}

/// Records taken by the placements before `k`.
pub open spec fn records_before(sizes: Seq<usize>, k: int) -> int
    decreases k,
{
    if k <= 0 {
        0
    } else {
        records_before(sizes, k - 1) + sizes[k - 1]
    }
}

proof fn lemma_records_before_mono(sizes: Seq<usize>, a: int, b: int)
    requires
        0 <= a <= b,
    ensures
        0 <= records_before(sizes, a) <= records_before(sizes, b),
    decreases b,
{
    if a < b {
        lemma_records_before_mono(sizes, a, b - 1);
    } else if a > 0 {
        lemma_records_before_mono(sizes, 0, a - 1);
    }
}

/// Last placement (exclusive) of a window of `count` placements from `start`, within the log.
pub open spec fn window_end(placements: int, start: int, count: int) -> int {
    if start + count < placements { start + count } else { placements }
}

/// Samples of the placements `start .. start + count` (as far as there are placements), where
/// placement `k` took the next `sizes[k]` records.
pub fn fanout_window(records: &[(usize, u32)], sizes: &[usize], start: usize, count: usize) -> (samples: Vec<PlacementFanoutSample>)
    requires
        start <= sizes@.len(),
        records_before(sizes@, window_end(sizes@.len() as int, start as int, count as int)) <= records@.len(),
    ensures
        samples@.len() == window_end(sizes@.len() as int, start as int, count as int) - start,
        forall|i: int| 0 <= i < samples@.len() ==> #[trigger] samples@[i] == fanout_of(records@, records_before(sizes@, start + i), sizes@[start + i] as int),
{
    let ghost end = window_end(sizes@.len() as int, start as int, count as int);
    let total = records.len();
    let mut offset: usize = 0;
    let mut k: usize = 0;
    while k < start
        invariant
            total == records@.len(),
            start <= sizes@.len(),
            k <= start,
            start <= end,
            end == window_end(sizes@.len() as int, start as int, count as int),
            records_before(sizes@, end) <= records@.len(),
            offset == records_before(sizes@, k as int),
        decreases start - k,
    {
        proof {
            lemma_records_before_mono(sizes@, k + 1, end);
        }
        offset = offset + sizes[k];
        k += 1;
    }
    let last = if count < sizes.len() - start { start + count } else { sizes.len() };
    assert(last == end);
    let mut samples: Vec<PlacementFanoutSample> = Vec::new();
    while k < last
        invariant
            total == records@.len(),
            start <= k <= last,
            last == end,
            end <= sizes@.len(),
            records_before(sizes@, end) <= records@.len(),
            offset == records_before(sizes@, k as int),
            samples@.len() == k - start,
            forall|i: int| 0 <= i < samples@.len() ==> #[trigger] samples@[i] == fanout_of(records@, records_before(sizes@, start + i), sizes@[start + i] as int),
        decreases last - k,
    {
        proof {
            lemma_records_before_mono(sizes@, k + 1, end);
        }
        let sample = analyze_placement_fanout(records, offset, sizes[k]);
        samples.push(sample);
        offset = offset + sizes[k];
        k += 1;
    }
    samples
}

/// Number of pieces among the first `n` that respect `attacker`.
pub open spec fn respecting_count(pieces: Seq<Piece>, attacker: PieceId, n: int) -> int
    decreases n,
{
    if n <= 0 {
        0
    } else {
        respecting_count(pieces, attacker, n - 1) + if pieces[n - 1].blocked_by@.contains(attacker) { 1int } else { 0 }
    }
}

fn respects(piece: &Piece, attacker: PieceId) -> (r: bool)
    ensures
        r == piece.blocked_by@.contains(attacker),
{
    let mut i: usize = 0;
    while i < piece.blocked_by.len()
        invariant
            i <= piece.blocked_by@.len(),
            forall|j: int| 0 <= j < i ==> piece.blocked_by@[j] != attacker,
        decreases piece.blocked_by.len() - i,
    {
        if piece.blocked_by[i] == attacker {
            return true;
        }
        i += 1;
    }
    false
}

/// How many pieces of `def` respect `attacker` (are blocked on the cells it attacks).
pub fn threatened_targets(def: &GameDefinition, attacker: PieceId) -> (n: usize)
    ensures
        n == respecting_count(def.pieces@, attacker, def.pieces@.len() as int),
{
    let mut n: usize = 0;
    let mut p: usize = 0;
    while p < def.pieces.len()
        invariant
            p <= def.pieces@.len(),
            n == respecting_count(def.pieces@, attacker, p as int),
            n <= p,
        decreases def.pieces.len() - p,
    {
        if respects(&def.pieces[p], attacker) {
            n += 1;
        }
        p += 1;
    }
    n
}

} // verus!
