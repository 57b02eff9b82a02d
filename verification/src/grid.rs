//! Storage behind the simulation: dense occupancy by visit index, the append-only placement
//! log, and the attack grid of attacker bitmasks in board coordinates.

use vstd::prelude::*;
use crate::model::PieceId;
use std::collections::TryReserveError;

verus! {

/// Sentinel for unoccupied visit indices.
pub const EMPTY_ARMY: PieceId = usize::MAX;

/// `Vec::capacity`: std documents the capacity as at least the length. What the allocator
/// gave beyond that is not stated.
#[verifier::external_body]
fn vec_capacity<T>(v: &Vec<T>) -> (cap: usize)
    ensures
        cap >= v@.len(),
{
    v.capacity()
}

/// Bytes taken by `cap` elements of `size` bytes each, saturating at `usize::MAX`.
pub open spec fn spec_bytes_of(cap: int, size: int) -> int {
    if cap * size > usize::MAX {
        usize::MAX as int
    } else {
        cap * size
    }
}

/// Bytes taken by `cap` elements of `size` bytes each, saturating at `usize::MAX`.
pub fn bytes_of(cap: usize, size: usize) -> (bytes: usize)
    ensures
        bytes == spec_bytes_of(cap as int, size as int),
{
    if size != 0 && cap > usize::MAX / size {
        proof {
            assert(cap * size > usize::MAX) by (nonlinear_arith)
                requires size > 0, cap > usize::MAX / size;
        }
        usize::MAX
    } else {
        proof {
            if size != 0 {
                assert(cap * size <= usize::MAX) by (nonlinear_arith)
                    requires size > 0, cap <= usize::MAX / size;
            }
        }
        cap * size
    }
}

// ---------------------------------------------------------------------------------------------
// Occupancy
// ---------------------------------------------------------------------------------------------

/// Dense occupancy by visit index: `cells[i]` is the piece on index `i`, or [`EMPTY_ARMY`].
#[derive(Clone, Debug, Default)]
pub struct OccupancyGrid {
    cells: Vec<PieceId>,
}

impl OccupancyGrid {
    /// Piece on index `i`, if any.
    pub open spec fn spec_piece_at(&self, i: int) -> Option<PieceId> {
        if 0 <= i < self.spec_cells().len() && self.spec_cells()[i] != EMPTY_ARMY {
            Some(self.spec_cells()[i])
        } else {
            None
        }
    }

    pub closed spec fn spec_cells(&self) -> Seq<PieceId> {
        self.cells@
    }

    pub fn new() -> (g: Self)
        ensures
            forall|i: int| g.spec_piece_at(i) is None,
            g.spec_cells().len() == 0,
    {
        Self { cells: Vec::new() }
    }

    /// The grid owns its cells outright, so there is never shared storage to split.
    pub fn ensure_unique_for_mutation(&mut self)
        ensures
            *final(self) == *old(self),
    {
    }

    pub fn clear(&mut self)
        ensures
            forall|i: int| final(self).spec_piece_at(i) is None,
            final(self).spec_cells().len() == 0,
    {
        self.cells.clear();
    }

    /// Place `piece_id` at index `index`, growing the dense grid as needed. Returns `false`, with
    /// the grid unchanged, if the grow allocation fails.
    pub fn insert(&mut self, index: u32, piece_id: PieceId) -> (ok: bool)
        requires
            piece_id != EMPTY_ARMY,
        ensures
            ok ==> forall|i: int| #[trigger] final(self).spec_piece_at(i) == if i == index {
                Some(piece_id)
            } else {
                old(self).spec_piece_at(i)
            },
            !ok ==> final(self).spec_cells() == old(self).spec_cells(),
            index < old(self).spec_cells().len() ==> ok && final(self).spec_cells() == old(self).spec_cells().update(index as int, piece_id),
            index as int + 1 > usize::MAX ==> !ok,
    {
        let held = self.cells.len();
        if index as u64 + 1 > usize::MAX as u64 {
            return false;
        }
        let index = index as usize;
        if index >= held {
            let extra = index + 1 - held;
            if self.cells.try_reserve(extra).is_err() {
                return false;
            }
            let ghost before = self.cells@;
            while self.cells.len() < index + 1
                invariant
                    index < usize::MAX,
                    before.len() <= self.cells@.len() <= index + 1,
                    forall|j: int| 0 <= j < before.len() ==> self.cells@[j] == before[j],
                    forall|j: int| before.len() <= j < self.cells@.len() ==> self.cells@[j] == EMPTY_ARMY,
                decreases index + 1 - self.cells.len(),
            {
                self.cells.push(EMPTY_ARMY);
            }
        }
        self.cells.set(index, piece_id);
        true
    }

    /// Empty index `index` again (undoing an [`OccupancyGrid::insert`]).
    pub fn remove(&mut self, index: u32)
        ensures
            forall|i: int| #[trigger] final(self).spec_piece_at(i) == if i == index {
                None
            } else {
                old(self).spec_piece_at(i)
            },
    {
        let i = index as usize;
        if i < self.cells.len() {
            self.cells.set(i, EMPTY_ARMY);
        }
    }

    /// Cells the grid can hold without reallocating.
    pub fn capacity(&self) -> (cap: usize)
        ensures
            cap >= self.spec_cells().len(),
    {
        vec_capacity(&self.cells)
    }

    /// A copy of the grid for display.
    pub fn snapshot(&self) -> (copy: Self)
        ensures
            copy.spec_cells() == self.spec_cells(),
    {
        let mut cells: Vec<PieceId> = Vec::new();
        let mut i: usize = 0;
        while i < self.cells.len()
            invariant
                i <= self.cells@.len(),
                cells@ == self.cells@.subrange(0, i as int),
            decreases self.cells.len() - i,
        {
            cells.push(self.cells[i]);
            i += 1;
            assert(cells@ =~= self.cells@.subrange(0, i as int));
        }
        assert(self.cells@.subrange(0, self.cells@.len() as int) == self.cells@);
        Self { cells }
    }

    /// Bytes allocated for the cells: the capacity, at least the length, times eight.
    pub fn byte_capacity(&self) -> (bytes: usize)
        ensures
            exists|cap: int| cap >= self.spec_cells().len() && bytes == #[trigger] spec_bytes_of(cap, 8),
    {
        let cap = vec_capacity(&self.cells);
        bytes_of(cap, 8)
    }

    pub fn get(&self, index: &u32) -> (piece: Option<&PieceId>)
        ensures
            match piece {
                Some(p) => self.spec_piece_at(*index as int) == Some(*p),
                None => self.spec_piece_at(*index as int) is None,
            },
    {
        let i = *index as usize;
        if i < self.cells.len() && self.cells[i] != EMPTY_ARMY {
            Some(&self.cells[i])
        } else {
            None
        }
    }

    /// Hot-path lookup for rendering (index → piece).
    pub fn piece_id_at(&self, index: u32) -> (piece: Option<PieceId>)
        ensures
            piece == self.spec_piece_at(index as int),
    {
        let i = index as usize;
        if i < self.cells.len() && self.cells[i] != EMPTY_ARMY {
            Some(self.cells[i])
        } else {
            None
        }
    }

    /// Smallest index occupied by `piece_id`.
    pub fn index_of_piece(&self, piece_id: PieceId) -> (index: Option<u32>)
        ensures
            match index {
                Some(i) => (i as int) < self.spec_cells().len() && self.spec_cells()[i as int] == piece_id && forall|j: int|
                    0 <= j < i ==> self.spec_cells()[j] != piece_id,
                None => forall|j: int| 0 <= j < self.spec_cells().len() && j <= u32::MAX ==> self.spec_cells()[j] != piece_id,
            },
    {
        let mut i: usize = 0;
        while i < self.cells.len()
            invariant
                i <= self.cells@.len(),
                forall|j: int| 0 <= j < i && j <= u32::MAX ==> self.cells@[j] != piece_id,
            decreases self.cells.len() - i,
        {
            if i > u32::MAX as usize {
                return None;
            }
            if self.cells[i] == piece_id {
                return Some(i as u32);
            }
            i += 1;
        }
        None
    }

    pub fn cells_slice(&self) -> (cells: &[PieceId])
        ensures
            cells@ == self.spec_cells(),
    {
        self.cells.as_slice()
    }

    pub fn contains_index(&self, index: u32) -> (occupied: bool)
        ensures
            occupied == self.spec_piece_at(index as int) is Some,
    {
        let i = index as usize;
        i < self.cells.len() && self.cells[i] != EMPTY_ARMY
    }
}

// ---------------------------------------------------------------------------------------------
// Placement log
// ---------------------------------------------------------------------------------------------

/// Append-only placement history: `(visit index, piece)` in turn order.
#[derive(Clone, Debug, Default)]
pub struct PlacementsLog {
    entries: Vec<(u32, PieceId)>,
}

impl PlacementsLog {
    pub closed spec fn spec_entries(&self) -> Seq<(u32, PieceId)> {
        self.entries@
    }

    pub fn new() -> (log: Self)
        ensures
            log.spec_entries() == Seq::<(u32, PieceId)>::empty(),
    {
        Self { entries: Vec::new() }
    }

    /// The log owns its entries outright, so there is never shared storage to split.
    pub fn ensure_unique_for_mutation(&mut self)
        ensures
            *final(self) == *old(self),
    {
    }

    pub fn clear(&mut self)
        ensures
            final(self).spec_entries() == Seq::<(u32, PieceId)>::empty(),
    {
        self.entries.clear();
    }

    /// Append an entry, growing fallibly. Returns `false`, with the log unchanged, on allocation
    /// failure.
    pub fn push(&mut self, index: u32, piece_id: PieceId) -> (ok: bool)
        ensures
            ok ==> final(self).spec_entries() == old(self).spec_entries().push((index, piece_id)),
            !ok ==> final(self).spec_entries() == old(self).spec_entries(),
    {
        if self.entries.try_reserve(1).is_err() {
            return false;
        }
        self.entries.push((index, piece_id));
        true
    }

    /// Drop the newest entry (undoing a [`PlacementsLog::push`]).
    pub fn pop(&mut self)
        ensures
            final(self).spec_entries() == if old(self).spec_entries().len() == 0 {
                old(self).spec_entries()
            } else {
                old(self).spec_entries().drop_last()
            },
    {
        let _ = self.entries.pop();
    }

    /// Bytes allocated for the entries: the capacity, at least the length, times sixteen.
    pub fn byte_capacity(&self) -> (bytes: usize)
        ensures
            exists|cap: int| cap >= self.spec_entries().len() && bytes == #[trigger] spec_bytes_of(cap, 16),
    {
        let cap = vec_capacity(&self.entries);
        bytes_of(cap, 16)
    }

    /// Entries the log can hold without reallocating.
    pub fn capacity(&self) -> (cap: usize)
        ensures
            cap >= self.spec_entries().len(),
    {
        vec_capacity(&self.entries)
    }

    pub fn len(&self) -> (n: usize)
        ensures
            n == self.spec_entries().len(),
    {
        self.entries.len()
    }

    pub fn as_slice(&self) -> (s: &[(u32, PieceId)])
        ensures
            s@ == self.spec_entries(),
    {
        self.entries.as_slice()
    }

    /// Shared snapshot of the entries for display.
    pub fn arc(&self) -> (snapshot: std::sync::Arc<Vec<(u32, PieceId)>>)
        ensures
            snapshot@ == self.spec_entries(),
    {
        let mut copy: Vec<(u32, PieceId)> = Vec::new();
        let mut i: usize = 0;
        while i < self.entries.len()
            invariant
                i <= self.entries@.len(),
                copy@ == self.entries@.subrange(0, i as int),
            decreases self.entries.len() - i,
        {
            copy.push(self.entries[i]);
            i += 1;
        }
        assert(self.entries@.subrange(0, self.entries@.len() as int) == self.entries@);
        std::sync::Arc::new(copy)
    }
}

// ---------------------------------------------------------------------------------------------
// Attack grid
// ---------------------------------------------------------------------------------------------

/// Cell width of the attack grid. Chosen from the highest *respected* attacker bit any defender
/// tests, so small rosters store one byte per cell instead of four.
#[derive(Clone, Copy, Debug, PartialEq, Eq, Structural)]
pub enum CellWidth {
    U8,
    U16,
    U32,
}

/// Bits a cell of width `w` can hold.
pub open spec fn width_mask(w: CellWidth) -> u32 {
    match w {
        CellWidth::U8 => 0xff,
        CellWidth::U16 => 0xffff,
        CellWidth::U32 => 0xffff_ffff,
    }
}

/// Union of all masks.
pub open spec fn mask_union(masks: Seq<u32>) -> u32
    decreases masks.len(),
{
    if masks.len() == 0 {
        0
    } else {
        mask_union(masks.drop_last()) | masks.last()
    }
}

/// Smallest width holding `union`.
pub open spec fn width_for_union(union: u32) -> CellWidth {
    if union < 0x100 {
        CellWidth::U8
    } else if union < 0x1_0000 {
        CellWidth::U16
    } else {
        CellWidth::U32
    }
}

/// Smallest cell width that holds every bit a scan might test (`union` of all respected masks).
pub fn cell_width_for(respected_mask: &[u32]) -> (w: CellWidth)
    ensures
        w == width_for_union(mask_union(respected_mask@)),
{
    let mut union: u32 = 0;
    let mut i: usize = 0;
    while i < respected_mask.len()
        invariant
            i <= respected_mask@.len(),
            union == mask_union(respected_mask@.subrange(0, i as int)),
        decreases respected_mask.len() - i,
    {
        proof {
            assert(respected_mask@.subrange(0, i + 1).drop_last() == respected_mask@.subrange(0, i as int));
        }
        union = union | respected_mask[i];
        i += 1;
    }
    assert(respected_mask@.subrange(0, respected_mask@.len() as int) == respected_mask@);
    if union < 0x100 {
        CellWidth::U8
    } else if union < 0x1_0000 {
        CellWidth::U16
    } else {
        CellWidth::U32
    }
}

/// Every mask fits the width of their union.
pub proof fn lemma_union_fits(masks: Seq<u32>, i: int)
    requires
        0 <= i < masks.len(),
    ensures
        masks[i] & width_mask(width_for_union(mask_union(masks))) == masks[i],
    decreases masks.len(),
{
    let u = mask_union(masks);
    let prev = mask_union(masks.drop_last());
    assert(u == prev | masks.last());
    if i == masks.len() - 1 {
        let m = masks[i];
        assert(masks.last() == m);
        assert(forall|p: u32, m: u32| #![auto] p | m < 0x100 ==> m & 0xff == m) by (bit_vector);
        assert(forall|p: u32, m: u32| #![auto] p | m < 0x1_0000 ==> m & 0xffff == m) by (bit_vector);
        assert(forall|m: u32| #![auto] m & 0xffff_ffff == m) by (bit_vector);
    } else {
        lemma_union_fits(masks.drop_last(), i);
        let m = masks[i];
        assert(masks.drop_last()[i] == m);
        let l = masks.last();
        assert(forall|p: u32, l: u32, m: u32| #![auto] p | l < 0x100 && p < 0x100 && m & 0xff == m ==> m & 0xff == m) by (bit_vector);
        assert(forall|p: u32, l: u32| #![auto] p | l < 0x100 ==> p < 0x100) by (bit_vector);
        assert(forall|p: u32, l: u32| #![auto] p | l < 0x1_0000 ==> p < 0x1_0000) by (bit_vector);
        assert(forall|m: u32| #![auto] m & 0xff == m ==> m & 0xffff == m) by (bit_vector);
        assert(forall|m: u32| #![auto] m & 0xffff_ffff == m) by (bit_vector);
    }
}

/// Backing store for the attack grid: a flat row-major grid in one of three integer widths.
#[derive(Clone, Debug)]
pub enum MaskCells {
    U8(Vec<u8>),
    U16(Vec<u16>),
    U32(Vec<u32>),
}

impl MaskCells {
    pub open spec fn spec_len(&self) -> int {
        match self {
            MaskCells::U8(v) => v@.len() as int,
            MaskCells::U16(v) => v@.len() as int,
            MaskCells::U32(v) => v@.len() as int,
        }
    }

    /// Value of cell `i`, widened to `u32`.
    pub open spec fn spec_cell(&self, i: int) -> u32 {
        match self {
            MaskCells::U8(v) => v@[i] as u32,
            MaskCells::U16(v) => v@[i] as u32,
            MaskCells::U32(v) => v@[i],
        }
    }

    pub open spec fn spec_width(&self) -> CellWidth {
        match self {
            MaskCells::U8(_) => CellWidth::U8,
            MaskCells::U16(_) => CellWidth::U16,
            MaskCells::U32(_) => CellWidth::U32,
        }
    }

    pub fn zeros(width: CellWidth, len: usize) -> (cells: Self)
        ensures
            cells.spec_width() == width,
            cells.spec_len() == len,
            forall|i: int| 0 <= i < len ==> #[trigger] cells.spec_cell(i) == 0,
    {
        match width {
            CellWidth::U8 => MaskCells::U8(filled(len, 0u8)),
            CellWidth::U16 => MaskCells::U16(filled(len, 0u16)),
            CellWidth::U32 => MaskCells::U32(filled(len, 0u32)),
        }
    }

    pub fn width(&self) -> (w: CellWidth)
        ensures
            w == self.spec_width(),
    {
        match self {
            MaskCells::U8(_) => CellWidth::U8,
            MaskCells::U16(_) => CellWidth::U16,
            MaskCells::U32(_) => CellWidth::U32,
        }
    }

    pub fn fill_zero(&mut self)
        ensures
            final(self).spec_width() == old(self).spec_width(),
            final(self).spec_len() == old(self).spec_len(),
            forall|i: int| 0 <= i < final(self).spec_len() ==> #[trigger] final(self).spec_cell(i) == 0,
    {
        match self {
            MaskCells::U8(v) => fill_with(v, 0u8),
            MaskCells::U16(v) => fill_with(v, 0u16),
            MaskCells::U32(v) => fill_with(v, 0u32),
        }
    }


    /// Bytes per cell: one, two or four.
    pub open spec fn spec_cell_bytes(&self) -> int {
        match self {
            MaskCells::U8(_) => 1,
            MaskCells::U16(_) => 2,
            MaskCells::U32(_) => 4,
        }
    }

    /// Bytes allocated for the cells: the capacity, at least the length, times the cell size.
    pub fn byte_capacity(&self) -> (bytes: usize)
        ensures
            exists|cap: int| cap >= self.spec_len() && bytes == #[trigger] spec_bytes_of(cap, self.spec_cell_bytes()),
    {
        let (cap, size): (usize, usize) = match self {
            MaskCells::U8(v) => (vec_capacity(v), 1),
            MaskCells::U16(v) => (vec_capacity(v), 2),
            MaskCells::U32(v) => (vec_capacity(v), 4),
        };
        let bytes = bytes_of(cap, size);
        assert(cap >= self.spec_len() && bytes == spec_bytes_of(cap as int, self.spec_cell_bytes()));
        bytes
    }

    pub fn capacity(&self) -> (cap: usize)
        ensures
            cap >= self.spec_len(),
    {
        match self {
            MaskCells::U8(v) => vec_capacity(v),
            MaskCells::U16(v) => vec_capacity(v),
            MaskCells::U32(v) => vec_capacity(v),
        }
    }
}

/// `len` copies of `value`.
fn filled<T: Copy>(len: usize, value: T) -> (v: Vec<T>)
    ensures
        v@.len() == len,
        forall|i: int| 0 <= i < len ==> #[trigger] v@[i] == value,
{
    let mut v: Vec<T> = Vec::new();
    while v.len() < len
        invariant
            v@.len() <= len,
            forall|i: int| 0 <= i < v@.len() ==> #[trigger] v@[i] == value,
        decreases len - v.len(),
    {
        v.push(value);
    }
    v
}

fn fill_with<T: Copy>(v: &mut Vec<T>, value: T)
    ensures
        final(v)@.len() == old(v)@.len(),
        forall|i: int| 0 <= i < final(v)@.len() ==> #[trigger] final(v)@[i] == value,
{
    let mut i: usize = 0;
    while i < v.len()
        invariant
            i <= v@.len(),
            v@.len() == old(v)@.len(),
            forall|k: int| 0 <= k < i ==> #[trigger] v@[k] == value,
        decreases v.len() - i,
    {
        v.set(i, value);
        i += 1;
    }
}

/// Flat index of `(x, y)` in a grid covering `[-half, half]` with row stride `stride`.
pub open spec fn grid_index(half: int, stride: int, x: int, y: int) -> int {
    (y + half) * stride + (x + half)
}

pub open spec fn in_grid(half: int, x: int, y: int) -> bool {
    -half <= x <= half && -half <= y <= half
}

pub proof fn lemma_grid_index(half: int, stride: int, x: int, y: int)
    requires
        half >= 0,
        stride == 2 * half + 1,
        in_grid(half, x, y),
    ensures
        0 <= grid_index(half, stride, x, y) < stride * stride,
        0 <= (y + half) * stride <= grid_index(half, stride, x, y),
{
    let a = y + half;
    let b = x + half;
    assert(0 <= a * stride && a * stride + b < stride * stride) by (nonlinear_arith)
        requires
            0 <= a < stride,
            0 <= b < stride,
    ;
}

pub proof fn lemma_grid_index_injective(half: int, stride: int, x1: int, y1: int, x2: int, y2: int)
    requires
        half >= 0,
        stride == 2 * half + 1,
        in_grid(half, x1, y1),
        in_grid(half, x2, y2),
        grid_index(half, stride, x1, y1) == grid_index(half, stride, x2, y2),
    ensures
        x1 == x2 && y1 == y2,
{
    let a1 = y1 + half;
    let b1 = x1 + half;
    let a2 = y2 + half;
    let b2 = x2 + half;
    assert(a1 == a2 && b1 == b2) by (nonlinear_arith)
        requires
            0 <= a1 < stride,
            0 <= b1 < stride,
            0 <= a2 < stride,
            0 <= b2 < stride,
            a1 * stride + b1 == a2 * stride + b2,
    ;
}


/// Whether a move from `(px, py)` lands on `(x, y)`.
pub open spec fn hits(px: i32, py: i32, moves: Seq<(i32, i32)>, x: int, y: int) -> bool {
    exists|k: int| 0 <= k < moves.len() && px + (#[trigger] moves[k]).0 == x && py + moves[k].1 == y
}

pub proof fn lemma_hits_push(px: i32, py: i32, moves: Seq<(i32, i32)>, k: int, x: int, y: int)
    requires
        0 <= k < moves.len(),
    ensures
        hits(px, py, moves.subrange(0, k + 1), x, y) == (hits(px, py, moves.subrange(0, k), x, y) || (px
            + moves[k].0 == x && py + moves[k].1 == y)),
{
    let s0 = moves.subrange(0, k);
    let s1 = moves.subrange(0, k + 1);
    if hits(px, py, s1, x, y) {
        let j = choose|j: int| 0 <= j < s1.len() && px + (#[trigger] s1[j]).0 == x && py + s1[j].1 == y;
        if j < k {
            assert(s0[j] == s1[j]);
        }
    }
    if hits(px, py, s0, x, y) {
        let j = choose|j: int| 0 <= j < s0.len() && px + (#[trigger] s0[j]).0 == x && py + s0[j].1 == y;
        assert(s1[j] == s0[j]);
    }
    if px + moves[k].0 == x && py + moves[k].1 == y {
        assert(s1[k] == moves[k]);
    }
}

/// Copy of `old` re-laid into a larger square grid, or the allocator's refusal of the buffer.
fn try_regrow_cells<T: Copy>(
    old: &Vec<T>,
    old_half: i32,
    old_stride: usize,
    new_half: i32,
    new_stride: usize,
    zero: T,
) -> (new: Result<Vec<T>, TryReserveError>)
    requires
        0 <= old_half <= new_half <= max_half(),
        old_stride == 2 * old_half + 1,
        new_stride == 2 * new_half + 1,
        old@.len() == old_stride * old_stride,
        new_stride * new_stride <= usize::MAX,
    ensures
        new matches Ok(v) ==> v@.len() == new_stride * new_stride && forall|x: int, y: int|
            in_grid(new_half as int, x, y) ==> #[trigger] v@[grid_index(new_half as int, new_stride as int, x, y)]
            == if in_grid(old_half as int, x, y) {
                old@[grid_index(old_half as int, old_stride as int, x, y)]
            } else {
                zero
            },
{
    let len = new_stride * new_stride;
    let mut new: Vec<T> = Vec::new();
    match new.try_reserve(len) {
        Ok(()) => {},
        Err(e) => {
            return Err(e);
        },
    }
    while new.len() < len
        invariant
            new@.len() <= len,
            forall|i: int| 0 <= i < new@.len() ==> #[trigger] new@[i] == zero,
        decreases len - new.len(),
    {
        new.push(zero);
    }
    let col_shift = (new_half - old_half) as usize;
    proof {
        assert(old_stride * old_stride <= new_stride * new_stride) by {
            crate::spiral::lemma_square_mono(old_stride as int, new_stride as int);
        }
    }
    proof {
        assert forall|x: int, y1: int| in_grid(new_half as int, x, y1) implies #[trigger] new@[grid_index(new_half as int, new_stride as int, x, y1)]
            == zero by {
            lemma_grid_index(new_half as int, new_stride as int, x, y1);
        }
    }
    let mut y: i32 = -old_half;
    while y <= old_half
        invariant
            0 <= old_half <= new_half <= max_half(),
            old_stride == 2 * old_half + 1,
            new_stride == 2 * new_half + 1,
            old@.len() == old_stride * old_stride,
            new_stride * new_stride <= usize::MAX,
            old_stride * old_stride <= new_stride * new_stride,
            col_shift == new_half - old_half,
            len == new_stride * new_stride,
            new@.len() == len,
            -old_half <= y <= old_half + 1,
            forall|x: int, y1: int| in_grid(new_half as int, x, y1) ==> #[trigger] new@[grid_index(new_half as int, new_stride as int, x, y1)]
                == if in_grid(old_half as int, x, y1) && y1 < y {
                    old@[grid_index(old_half as int, old_stride as int, x, y1)]
                } else {
                    zero
                },
        decreases old_half + 1 - y,
    {
        proof {
            lemma_grid_index(old_half as int, old_stride as int, -old_half as int, y as int);
            lemma_grid_index(new_half as int, new_stride as int, -old_half as int, y as int);
        }
        let src_row = (y + old_half) as usize * old_stride;
        let dst_row = (y + new_half) as usize * new_stride + col_shift;
        let mut c: usize = 0;
        while c < old_stride
            invariant
                0 <= old_half <= new_half <= max_half(),
                old_stride == 2 * old_half + 1,
                new_stride == 2 * new_half + 1,
                old@.len() == old_stride * old_stride,
                new_stride * new_stride <= usize::MAX,
                old_stride * old_stride <= new_stride * new_stride,
                col_shift == new_half - old_half,
                len == new_stride * new_stride,
                new@.len() == len,
                -old_half <= y <= old_half,
                src_row == (y + old_half) * old_stride,
                dst_row == (y + new_half) * new_stride + col_shift,
                c <= old_stride,
                forall|x: int, y1: int| in_grid(new_half as int, x, y1) ==> #[trigger] new@[grid_index(new_half as int, new_stride as int, x, y1)]
                    == if in_grid(old_half as int, x, y1) && (y1 < y || (y1 == y && x < c - old_half)) {
                        old@[grid_index(old_half as int, old_stride as int, x, y1)]
                    } else {
                        zero
                    },
            decreases old_stride - c,
        {
            let ghost x0 = c - old_half;
            proof {
                lemma_grid_index(old_half as int, old_stride as int, x0, y as int);
                lemma_grid_index(new_half as int, new_stride as int, x0, y as int);
                assert(src_row + c == grid_index(old_half as int, old_stride as int, x0, y as int));
                assert(dst_row + c == grid_index(new_half as int, new_stride as int, x0, y as int));
            }
            let value = old[src_row + c];
            new.set(dst_row + c, value);
            proof {
                assert forall|x: int, y1: int| in_grid(new_half as int, x, y1) implies #[trigger] new@[grid_index(new_half as int, new_stride as int, x, y1)]
                    == if in_grid(old_half as int, x, y1) && (y1 < y || (y1 == y && x < c + 1 - old_half)) {
                        old@[grid_index(old_half as int, old_stride as int, x, y1)]
                    } else {
                        zero
                    } by {
                    lemma_grid_index(new_half as int, new_stride as int, x, y1);
                    if in_grid(old_half as int, x, y1) {
                        lemma_grid_index(old_half as int, old_stride as int, x, y1);
                    }
                    if grid_index(new_half as int, new_stride as int, x, y1) == dst_row + c {
                        lemma_grid_index_injective(new_half as int, new_stride as int, x, y1, x0, y as int);
                    }
                }
            }
            c += 1;
        }
        y += 1;
    }
    Ok(new)
}

/// OR `b` into every cell hit by `moves` from `(px, py)`.
fn or_cells_u8(v: &mut Vec<u8>, half: i32, stride: usize, px: i32, py: i32, b: u8, moves: &[(i32, i32)])
    requires
        8 <= half <= max_half(),
        stride == 2 * half + 1,
        old(v)@.len() == stride * stride,
        stride * stride <= usize::MAX,
        forall|k: int| 0 <= k < moves@.len() ==> in_grid(half as int, px + (#[trigger] moves@[k]).0, py + moves@[k].1),
    ensures
        final(v)@.len() == old(v)@.len(),
        forall|x: int, y: int| in_grid(half as int, x, y) ==> #[trigger] final(v)@[grid_index(half as int, stride as int, x, y)]
            == old(v)@[grid_index(half as int, stride as int, x, y)] | (if hits(px, py, moves@, x, y) { b } else { 0 }),
{
    let ghost v0 = v@;
    proof {
        assert(forall|a: u8| #![auto] a | 0 == a) by (bit_vector);
        assert forall|x: int, y: int| !hits(px, py, moves@.subrange(0, 0), x, y) by {}
    }
    let mut k: usize = 0;
    while k < moves.len()
        invariant
            8 <= half <= max_half(),
            stride == 2 * half + 1,
            v@.len() == stride * stride,
            stride * stride <= usize::MAX,
            v0.len() == stride * stride,
            k <= moves@.len(),
            forall|k: int| 0 <= k < moves@.len() ==> in_grid(half as int, px + (#[trigger] moves@[k]).0, py + moves@[k].1),
            forall|x: int, y: int| in_grid(half as int, x, y) ==> #[trigger] v@[grid_index(half as int, stride as int, x, y)]
                == v0[grid_index(half as int, stride as int, x, y)] | (if hits(px, py, moves@.subrange(0, k as int), x, y) { b } else { 0 }),
        decreases moves.len() - k,
    {
        let (dx, dy) = moves[k];
        let x = px + dx;
        let y = py + dy;
        proof {
            lemma_grid_index(half as int, stride as int, x as int, y as int);
        }
        let row = (y + half) as usize;
        let col = (x + half) as usize;
        assert(row * stride + col == grid_index(half as int, stride as int, x as int, y as int));
        let i = row * stride + col;
        let ghost before = v@;
        let cur = v[i];
        v.set(i, cur | b);
        proof {
            assert forall|x1: int, y1: int| in_grid(half as int, x1, y1) implies #[trigger] v@[grid_index(half as int, stride as int, x1, y1)]
                == v0[grid_index(half as int, stride as int, x1, y1)] | (if hits(px, py, moves@.subrange(0, k + 1), x1, y1) { b } else { 0 }) by {
                lemma_hits_push(px, py, moves@, k as int, x1, y1);
                lemma_grid_index(half as int, stride as int, x1, y1);
                let j = grid_index(half as int, stride as int, x1, y1);
                let c0 = v0[j];
                if x1 == x && y1 == y {
                    assert(forall|a: u8, b: u8| #![auto] (a | b) | b == a | b) by (bit_vector);
                    assert(forall|a: u8, b: u8| #![auto] (a | 0) | b == a | b) by (bit_vector);
                } else {
                    if j == i {
                        lemma_grid_index_injective(half as int, stride as int, x1, y1, x as int, y as int);
                    }
                }
            }
        }
        k += 1;
    }
    assert(moves@.subrange(0, moves@.len() as int) == moves@);
}

/// OR `b` into every cell hit by `moves` from `(px, py)`.
fn or_cells_u16(v: &mut Vec<u16>, half: i32, stride: usize, px: i32, py: i32, b: u16, moves: &[(i32, i32)])
    requires
        8 <= half <= max_half(),
        stride == 2 * half + 1,
        old(v)@.len() == stride * stride,
        stride * stride <= usize::MAX,
        forall|k: int| 0 <= k < moves@.len() ==> in_grid(half as int, px + (#[trigger] moves@[k]).0, py + moves@[k].1),
    ensures
        final(v)@.len() == old(v)@.len(),
        forall|x: int, y: int| in_grid(half as int, x, y) ==> #[trigger] final(v)@[grid_index(half as int, stride as int, x, y)]
            == old(v)@[grid_index(half as int, stride as int, x, y)] | (if hits(px, py, moves@, x, y) { b } else { 0 }),
{
    let ghost v0 = v@;
    proof {
        assert(forall|a: u16| #![auto] a | 0 == a) by (bit_vector);
        assert forall|x: int, y: int| !hits(px, py, moves@.subrange(0, 0), x, y) by {}
    }
    let mut k: usize = 0;
    while k < moves.len()
        invariant
            8 <= half <= max_half(),
            stride == 2 * half + 1,
            v@.len() == stride * stride,
            stride * stride <= usize::MAX,
            v0.len() == stride * stride,
            k <= moves@.len(),
            forall|k: int| 0 <= k < moves@.len() ==> in_grid(half as int, px + (#[trigger] moves@[k]).0, py + moves@[k].1),
            forall|x: int, y: int| in_grid(half as int, x, y) ==> #[trigger] v@[grid_index(half as int, stride as int, x, y)]
                == v0[grid_index(half as int, stride as int, x, y)] | (if hits(px, py, moves@.subrange(0, k as int), x, y) { b } else { 0 }),
        decreases moves.len() - k,
    {
        let (dx, dy) = moves[k];
        let x = px + dx;
        let y = py + dy;
        proof {
            lemma_grid_index(half as int, stride as int, x as int, y as int);
        }
        let row = (y + half) as usize;
        let col = (x + half) as usize;
        assert(row * stride + col == grid_index(half as int, stride as int, x as int, y as int));
        let i = row * stride + col;
        let ghost before = v@;
        let cur = v[i];
        v.set(i, cur | b);
        proof {
            assert forall|x1: int, y1: int| in_grid(half as int, x1, y1) implies #[trigger] v@[grid_index(half as int, stride as int, x1, y1)]
                == v0[grid_index(half as int, stride as int, x1, y1)] | (if hits(px, py, moves@.subrange(0, k + 1), x1, y1) { b } else { 0 }) by {
                lemma_hits_push(px, py, moves@, k as int, x1, y1);
                lemma_grid_index(half as int, stride as int, x1, y1);
                let j = grid_index(half as int, stride as int, x1, y1);
                let c0 = v0[j];
                if x1 == x && y1 == y {
                    assert(forall|a: u16, b: u16| #![auto] (a | b) | b == a | b) by (bit_vector);
                    assert(forall|a: u16, b: u16| #![auto] (a | 0) | b == a | b) by (bit_vector);
                } else {
                    if j == i {
                        lemma_grid_index_injective(half as int, stride as int, x1, y1, x as int, y as int);
                    }
                }
            }
        }
        k += 1;
    }
    assert(moves@.subrange(0, moves@.len() as int) == moves@);
}

/// OR `b` into every cell hit by `moves` from `(px, py)`.
fn or_cells_u32(v: &mut Vec<u32>, half: i32, stride: usize, px: i32, py: i32, b: u32, moves: &[(i32, i32)])
    requires
        8 <= half <= max_half(),
        stride == 2 * half + 1,
        old(v)@.len() == stride * stride,
        stride * stride <= usize::MAX,
        forall|k: int| 0 <= k < moves@.len() ==> in_grid(half as int, px + (#[trigger] moves@[k]).0, py + moves@[k].1),
    ensures
        final(v)@.len() == old(v)@.len(),
        forall|x: int, y: int| in_grid(half as int, x, y) ==> #[trigger] final(v)@[grid_index(half as int, stride as int, x, y)]
            == old(v)@[grid_index(half as int, stride as int, x, y)] | (if hits(px, py, moves@, x, y) { b } else { 0 }),
{
    let ghost v0 = v@;
    proof {
        assert(forall|a: u32| #![auto] a | 0 == a) by (bit_vector);
        assert forall|x: int, y: int| !hits(px, py, moves@.subrange(0, 0), x, y) by {}
    }
    let mut k: usize = 0;
    while k < moves.len()
        invariant
            8 <= half <= max_half(),
            stride == 2 * half + 1,
            v@.len() == stride * stride,
            stride * stride <= usize::MAX,
            v0.len() == stride * stride,
            k <= moves@.len(),
            forall|k: int| 0 <= k < moves@.len() ==> in_grid(half as int, px + (#[trigger] moves@[k]).0, py + moves@[k].1),
            forall|x: int, y: int| in_grid(half as int, x, y) ==> #[trigger] v@[grid_index(half as int, stride as int, x, y)]
                == v0[grid_index(half as int, stride as int, x, y)] | (if hits(px, py, moves@.subrange(0, k as int), x, y) { b } else { 0 }),
        decreases moves.len() - k,
    {
        let (dx, dy) = moves[k];
        let x = px + dx;
        let y = py + dy;
        proof {
            lemma_grid_index(half as int, stride as int, x as int, y as int);
        }
        let row = (y + half) as usize;
        let col = (x + half) as usize;
        assert(row * stride + col == grid_index(half as int, stride as int, x as int, y as int));
        let i = row * stride + col;
        let ghost before = v@;
        let cur = v[i];
        v.set(i, cur | b);
        proof {
            assert forall|x1: int, y1: int| in_grid(half as int, x1, y1) implies #[trigger] v@[grid_index(half as int, stride as int, x1, y1)]
                == v0[grid_index(half as int, stride as int, x1, y1)] | (if hits(px, py, moves@.subrange(0, k + 1), x1, y1) { b } else { 0 }) by {
                lemma_hits_push(px, py, moves@, k as int, x1, y1);
                lemma_grid_index(half as int, stride as int, x1, y1);
                let j = grid_index(half as int, stride as int, x1, y1);
                let c0 = v0[j];
                if x1 == x && y1 == y {
                    assert(forall|a: u32, b: u32| #![auto] (a | b) | b == a | b) by (bit_vector);
                    assert(forall|a: u32, b: u32| #![auto] (a | 0) | b == a | b) by (bit_vector);
                } else {
                    if j == i {
                        lemma_grid_index_injective(half as int, stride as int, x1, y1, x as int, y as int);
                    }
                }
            }
        }
        k += 1;
    }
    assert(moves@.subrange(0, moves@.len() as int) == moves@);
}

/// Largest half-extent the grid may take: beyond it the cell count no longer fits the address
/// space, so growth reports failure like any other failed allocation.
pub open spec fn max_half() -> int {
    0x3FFF_FFFF
}

/// Half-extent a grid of half-extent `half` grows to when it must cover `need > half`: doubled,
/// or `need + 1` when doubling is not enough.
pub open spec fn grown_half(half: int, need: int) -> int {
    if 2 * half < need + 1 { need + 1 } else { 2 * half }
}

/// A grid of half-extent `h` is within the size the grid may take: `h <= max_half()` and its
/// cell count fits `usize`.
pub open spec fn half_allowed(h: int) -> bool {
    h <= max_half() && (2 * h + 1) * (2 * h + 1) <= usize::MAX
}

/// Chebyshev distance of `(px, py)` from the origin plus `max_radius`: how far a record from
/// there reaches.
pub open spec fn record_reach(px: i32, py: i32, max_radius: i32) -> int {
    let ax = if px < 0 { -px } else { px as int };
    let ay = if py < 0 { -py } else { py as int };
    (if ax < ay { ay } else { ax }) + max_radius
}

/// Growing a grid toward any reach within `16383` of the origin is never too large: the grown
/// half-extent is allowed, so [`AttackGrid::try_grow_to`] can then fail only through the
/// allocator's refusal.
pub proof fn lemma_growth_allowed(half: int, need: int)
    requires
        0 <= half < need <= 16383,
    ensures
        half_allowed(grown_half(half, need)),
{
    let g = grown_half(half, need);
    assert(0 <= g <= 32766);
    assert((2 * g + 1) * (2 * g + 1) <= 65533 * 65533) by (nonlinear_arith)
        requires 0 <= g <= 32766;
}

/// Why the attack grid did not grow.
#[derive(Debug)]
pub enum GrowError {
    /// The grown half-extent is past the size the grid may take ([`half_allowed`]).
    TooLarge,
    /// The allocator refused the larger buffer.
    OutOfMemory(TryReserveError),
}

/// Cumulative attacked cells in board `(x, y)` space. Each cell holds a bitmask of the attacker
/// ids that hit it, so a defender's scan tests `at(x, y) & respected_mask` with a single read.
#[derive(Clone, Debug)]
pub struct AttackGrid {
    /// Grid covers `[-half, half]` on both axes.
    half: i32,
    /// Row stride, `2 * half + 1`.
    stride: usize,
    /// `cells[(y + half) * stride + (x + half)]` = bitmask of attackers hitting `(x, y)`.
    cells: MaskCells,
}

impl AttackGrid {
    pub closed spec fn wf(&self) -> bool {
        &&& 8 <= self.half <= max_half()
        &&& self.stride == 2 * self.half + 1
        &&& self.cells.spec_len() == self.stride * self.stride
        &&& self.stride * self.stride <= usize::MAX
    }

    pub closed spec fn spec_half(&self) -> int {
        self.half as int
    }

    pub closed spec fn spec_width(&self) -> CellWidth {
        self.cells.spec_width()
    }

    /// Number of stored cells.
    pub closed spec fn spec_len(&self) -> int {
        self.cells.spec_len()
    }

    /// Attacker bits recorded at `(x, y)` (zero outside the stored square).
    pub closed spec fn spec_at(&self, x: int, y: int) -> u32 {
        if in_grid(self.half as int, x, y) {
            self.cells.spec_cell(grid_index(self.half as int, self.stride as int, x, y))
        } else {
            0
        }
    }

    /// Stored values never exceed the cell width.
    pub proof fn lemma_at_fits_width(&self, x: int, y: int)
        requires
            self.wf(),
        ensures
            self.spec_at(x, y) & width_mask(self.spec_width()) == self.spec_at(x, y),
    {
        if in_grid(self.half as int, x, y) {
            let i = grid_index(self.half as int, self.stride as int, x, y);
            lemma_grid_index(self.half as int, self.stride as int, x, y);
            match &self.cells {
                MaskCells::U8(v) => {
                    let c = v@[i];
                    assert((c as u32) & 0xff == c as u32) by (bit_vector);
                },
                MaskCells::U16(v) => {
                    let c = v@[i];
                    assert((c as u32) & 0xffff == c as u32) by (bit_vector);
                },
                MaskCells::U32(v) => {
                    let c = v@[i];
                    assert(c & 0xffff_ffff == c) by (bit_vector);
                },
            }
        } else {
            let w = width_mask(self.spec_width());
            assert(0u32 & w == 0) by (bit_vector);
        }
    }

    pub fn new(width: CellWidth) -> (g: Self)
        ensures
            g.wf(),
            g.spec_width() == width,
            g.spec_half() == 8,
            forall|x: int, y: int| #[trigger] g.spec_at(x, y) == 0,
    {
        let half = 8i32;
        let stride = (2 * half + 1) as usize;
        let g = Self { half, stride, cells: MaskCells::zeros(width, stride * stride) };
        proof {
            assert forall|x: int, y: int| #[trigger] g.spec_at(x, y) == 0 by {
                if in_grid(8, x, y) {
                    lemma_grid_index(8, 17, x, y);
                }
            }
        }
        g
    }

    /// Reuse the allocation; clears all attacker bits.
    pub fn clear(&mut self)
        requires
            old(self).wf(),
        ensures
            final(self).wf(),
            final(self).spec_width() == old(self).spec_width(),
            forall|x: int, y: int| #[trigger] final(self).spec_at(x, y) == 0,
    {
        self.cells.fill_zero();
        proof {
            assert forall|x: int, y: int| #[trigger] self.spec_at(x, y) == 0 by {
                if in_grid(self.half as int, x, y) {
                    lemma_grid_index(self.half as int, self.stride as int, x, y);
                }
            }
        }
    }

    pub fn cell_width(&self) -> (w: CellWidth)
        ensures
            w == self.spec_width(),
    {
        self.cells.width()
    }

    pub fn at(&self, x: i32, y: i32) -> (bits: u32)
        requires
            self.wf(),
        ensures
            bits == self.spec_at(x as int, y as int),
    {
        if x > self.half || x < -self.half || y > self.half || y < -self.half {
            return 0;
        }
        proof {
            lemma_grid_index(self.half as int, self.stride as int, x as int, y as int);
        }
        let row = (y + self.half) as usize;
        let col = (x + self.half) as usize;
        assert(row * self.stride + col == grid_index(self.half as int, self.stride as int, x as int, y as int));
        let i = row * self.stride + col;
        match &self.cells {
            MaskCells::U8(v) => v[i] as u32,
            MaskCells::U16(v) => v[i] as u32,
            MaskCells::U32(v) => v[i],
        }
    }


    /// Grow (doubling to amortise) to cover `[-need, need]`. A grid that already covers it is
    /// kept; otherwise the half-extent becomes [`grown_half`]. Growth fails, with the grid
    /// unchanged, only for two reasons: [`GrowError::TooLarge`] exactly when the grown
    /// half-extent is past [`half_allowed`], and [`GrowError::OutOfMemory`], carrying the
    /// allocator's refusal, when the larger buffer cannot be had.
    pub fn try_grow_to(&mut self, need: i32) -> (r: Result<(), GrowError>)
        requires
            old(self).wf(),
            need >= 0,
        ensures
            r is Ok ==> final(self).wf() && final(self).spec_half() >= need && final(self).spec_width() == old(self).spec_width()
                && forall|x: int, y: int| #[trigger] final(self).spec_at(x, y) == old(self).spec_at(x, y),
            r is Err ==> *final(self) == *old(self),
            need <= old(self).spec_half() ==> r is Ok && *final(self) == *old(self),
            need > old(self).spec_half() && r is Ok ==> final(self).spec_half() == grown_half(old(self).spec_half(), need as int),
            (r matches Err(GrowError::TooLarge)) <==> need > old(self).spec_half() && !half_allowed(grown_half(old(self).spec_half(), need as int)),
    {
        if need <= self.half {
            return Ok(());
        }
        let doubled = self.half as i64 * 2;
        let new_half64 = if doubled < need as i64 + 1 { need as i64 + 1 } else { doubled };
        if new_half64 > 0x3FFF_FFFF {
            return Err(GrowError::TooLarge);
        }
        let new_half = new_half64 as i32;
        let new_stride = (2 * new_half + 1) as usize;
        let ns64 = new_stride as u64;
        assert(ns64 * ns64 <= 0x8000_0000u64 * 0x8000_0000u64) by (nonlinear_arith)
            requires
                ns64 <= 0x8000_0000,
        ;
        if ns64 * ns64 > usize::MAX as u64 {
            return Err(GrowError::TooLarge);
        }
        let new_cells = match &self.cells {
            MaskCells::U8(v) => match try_regrow_cells(v, self.half, self.stride, new_half, new_stride, 0u8) {
                Ok(c) => MaskCells::U8(c),
                Err(e) => {
                    return Err(GrowError::OutOfMemory(e));
                },
            },
            MaskCells::U16(v) => match try_regrow_cells(v, self.half, self.stride, new_half, new_stride, 0u16) {
                Ok(c) => MaskCells::U16(c),
                Err(e) => {
                    return Err(GrowError::OutOfMemory(e));
                },
            },
            MaskCells::U32(v) => match try_regrow_cells(v, self.half, self.stride, new_half, new_stride, 0u32) {
                Ok(c) => MaskCells::U32(c),
                Err(e) => {
                    return Err(GrowError::OutOfMemory(e));
                },
            },
        };
        let ghost old_self = *self;
        self.half = new_half;
        self.stride = new_stride;
        self.cells = new_cells;
        proof {
            assert forall|x: int, y: int| #[trigger] self.spec_at(x, y) == old_self.spec_at(x, y) by {
                if in_grid(new_half as int, x, y) {
                    lemma_grid_index(new_half as int, new_stride as int, x, y);
                    if in_grid(old_self.half as int, x, y) {
                        lemma_grid_index(old_self.half as int, old_self.stride as int, x, y);
                    }
                }
            }
        }
        Ok(())
    }

    /// Mark every cell attacked by a piece (bit `bit`, max move radius `max_radius`) placed at
    /// `(px, py)`; the bit is truncated to the cell width. Returns `false`, with the grid
    /// unchanged, if a required grow allocation fails.
    pub fn record(&mut self, px: i32, py: i32, bit: u32, max_radius: i32, moves: &[(i32, i32)]) -> (ok: bool)
        requires
            old(self).wf(),
            -0x2000_0000 <= px <= 0x2000_0000,
            -0x2000_0000 <= py <= 0x2000_0000,
            0 <= max_radius <= 0x1FFF_FFFF,
            forall|k: int| 0 <= k < moves@.len() ==> crate::mutate::move_radius(#[trigger] moves@[k]) <= max_radius,
        ensures
            ok ==> final(self).wf() && final(self).spec_width() == old(self).spec_width()
                && forall|x: int, y: int| #[trigger] final(self).spec_at(x, y) == old(self).spec_at(x, y)
                | (if hits(px, py, moves@, x, y) { bit & width_mask(old(self).spec_width()) } else { 0 }),
            !ok ==> *final(self) == *old(self),
            record_reach(px, py, max_radius) <= old(self).spec_half() ==> ok && final(self).spec_half() == old(self).spec_half(),
            record_reach(px, py, max_radius) > old(self).spec_half() && ok
                ==> final(self).spec_half() == grown_half(old(self).spec_half(), record_reach(px, py, max_radius)),
            record_reach(px, py, max_radius) > old(self).spec_half()
                && !half_allowed(grown_half(old(self).spec_half(), record_reach(px, py, max_radius))) ==> !ok,
    {
        let apx = if px < 0 { -px } else { px };
        let apy = if py < 0 { -py } else { py };
        let reach = (if apx < apy { apy } else { apx }) + max_radius;
        if reach > self.half {
            match self.try_grow_to(reach) {
                Ok(()) => {},
                Err(_) => {
                    return false;
                },
            }
        }
        let ghost grown = *self;
        let half = self.half;
        let stride = self.stride;
        proof {
            assert forall|k: int| 0 <= k < moves@.len() implies in_grid(half as int, px + (#[trigger] moves@[k]).0, py + moves@[k].1) by {
                assert(crate::mutate::move_radius(moves@[k]) <= max_radius);
            }
        }
        match &mut self.cells {
            MaskCells::U8(v) => {
                let b = bit as u8;
                or_cells_u8(v, half, stride, px, py, b, moves);
            },
            MaskCells::U16(v) => {
                let b = bit as u16;
                or_cells_u16(v, half, stride, px, py, b, moves);
            },
            MaskCells::U32(v) => {
                or_cells_u32(v, half, stride, px, py, bit, moves);
            },
        }
        proof {
            assert forall|x: int, y: int| #[trigger] self.spec_at(x, y) == grown.spec_at(x, y)
                | (if hits(px, py, moves@, x, y) { bit & width_mask(grown.spec_width()) } else { 0 }) by {
                if in_grid(half as int, x, y) {
                    lemma_grid_index(half as int, stride as int, x, y);
                    let i = grid_index(half as int, stride as int, x, y);
                    match (&grown.cells, &self.cells) {
                        (MaskCells::U8(g), MaskCells::U8(n)) => {
                            let a = g@[i];
                            assert(((a | (bit as u8)) as u32) == ((a as u32) | (bit & 0xff))) by (bit_vector);
                            assert(((a | 0u8) as u32) == ((a as u32) | 0u32)) by (bit_vector);
                        },
                        (MaskCells::U16(g), MaskCells::U16(n)) => {
                            let a = g@[i];
                            assert(((a | (bit as u16)) as u32) == ((a as u32) | (bit & 0xffff))) by (bit_vector);
                            assert(((a | 0u16) as u32) == ((a as u32) | 0u32)) by (bit_vector);
                        },
                        (MaskCells::U32(g), MaskCells::U32(n)) => {
                            let a = g@[i];
                            assert((a | bit) == (a | (bit & 0xffff_ffff))) by (bit_vector);
                        },
                        _ => {},
                    }
                } else {
                    let w = width_mask(grown.spec_width());
                    assert forall|k: int| 0 <= k < moves@.len() implies !(px + (#[trigger] moves@[k]).0 == x && py + moves@[k].1 == y) by {
                        assert(crate::mutate::move_radius(moves@[k]) <= max_radius);
                    }
                    assert(0u32 | 0u32 == 0u32) by (bit_vector);
                }
            }
        }
        true
    }

    /// Bytes per stored cell: one, two or four.
    pub closed spec fn spec_cell_bytes(&self) -> int {
        self.cells.spec_cell_bytes()
    }

    /// A stored cell takes between one and four bytes.
    pub proof fn lemma_cell_bytes(&self)
        ensures
            1 <= self.spec_cell_bytes() <= 4,
            self.spec_len() >= 0,
    {
    }

    /// Bytes allocated for the cells: the capacity, at least the number of cells, times the
    /// cell size.
    pub fn byte_capacity(&self) -> (bytes: usize)
        ensures
            exists|cap: int| cap >= self.spec_len() && bytes == #[trigger] spec_bytes_of(cap, self.spec_cell_bytes()),
            1 <= self.spec_cell_bytes() <= 4,
    {
        self.cells.byte_capacity()
    }

    pub fn capacity(&self) -> (cap: usize)
        ensures
            cap >= self.spec_len(),
    {
        self.cells.capacity()
    }
}

} // verus!
