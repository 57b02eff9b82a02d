//! Monotonic cell visit order: each `u32` index maps to one board cell `(x, y)`.
//!
//! [`VisitOrder`] selects how the simulation scans the board. Every order is a bijection
//! between indices and cells (proved below as round-trip laws), and its scan step moves from
//! the cell of `i` to the cell of `i + 1`.

use vstd::prelude::*;
use crate::spiral::{
    abs, chebyshev, spiral_step_ok, index_to_ring_offset, index_to_xy_ring_offset, isqrt, isqrt_u64,
    lemma_ring_bound, lemma_ring_of_bounds, lemma_ring_of_unique, lemma_ring_span,
    lemma_square_mono, lemma_square_strict, lemma_xy_ring_offset_inverse,
    lemma_ring_offset_xy_inverse, lemma_spiral_index_of_xy, lemma_spiral_xy_of_index,
    lemma_spiral_step, lemma_isqrt_bounds, ring_of, ring_offset_xy, ring_start, spiral_index,
    spiral_step_spec, spiral_xy, xy_ring_offset, xy_to_ring_offset, RingOffset,
};

verus! {

/// How the simulation scans the board when placing pieces.
#[derive(Clone, Copy, Debug, Default, PartialEq, Eq, Hash, Structural)]
pub enum VisitOrder {
    /// Counterclockwise square spiral from the origin (OEIS A316667 geometry).
    #[default]
    SquareSpiral,
    /// Same rings as the CCW spiral, but cells on each ring are visited in the opposite direction.
    SquareSpiralClockwise,
    /// Chebyshev rings (`max(|x|, |y|)`); within each ring, sort cells by `(y, x)`.
    SquareRingsScanline,
    /// Manhattan rings (`|x| + |y|`); within each ring, sort by `x` then `|y|`.
    DiamondRings,
}

/// Largest coordinate magnitude the scan steps accept.
pub open spec fn coord_bound() -> int {
    0x2000_0000
}

/// Coordinates small enough for every step function to work without overflow.
pub open spec fn coords_bounded(xy: (i32, i32)) -> bool {
    -coord_bound() <= xy.0 <= coord_bound() && -coord_bound() <= xy.1 <= coord_bound()
}

// ---------------------------------------------------------------------------------------------
// Clockwise spiral
// ---------------------------------------------------------------------------------------------

/// Reverse a perimeter offset on a ring of `8r` cells, keeping offset `0` in place.
pub open spec fn cw_offset(r: int, off: int) -> int {
    (8 * r - off) % (8 * r)
}

pub proof fn lemma_cw_offset(r: int, off: int)
    requires
        r >= 1,
        0 <= off < 8 * r,
    ensures
        0 <= cw_offset(r, off) < 8 * r,
        cw_offset(r, cw_offset(r, off)) == off,
        off == 0 ==> cw_offset(r, off) == 0,
        off > 0 ==> cw_offset(r, off) == 8 * r - off,
{
    if off == 0 {
        assert((8 * r) % (8 * r) == 0) by (nonlinear_arith)
            requires
                r >= 1,
        ;
    } else {
        assert((8 * r - off) % (8 * r) == 8 * r - off) by (nonlinear_arith)
            requires
                r >= 1,
                0 < off < 8 * r,
        ;
        assert((8 * r - (8 * r - off)) % (8 * r) == off) by (nonlinear_arith)
            requires
                r >= 1,
                0 < off < 8 * r,
        ;
    }
}

pub open spec fn cw_xy(i: nat) -> (int, int) {
    if i == 0 {
        (0, 0)
    } else {
        let r = ring_of(i) as int;
        ring_offset_xy(r, cw_offset(r, i - ring_start(r)))
    }
}

pub open spec fn cw_index(x: int, y: int) -> int {
    if x == 0 && y == 0 {
        0
    } else {
        let r = chebyshev(x, y);
        ring_start(r) + cw_offset(r, xy_ring_offset(x, y))
    }
}

// ---------------------------------------------------------------------------------------------
// Square rings, scanline order
// ---------------------------------------------------------------------------------------------

/// Cell at offset `o` of Chebyshev ring `r` in scanline order: bottom row, side pairs, top row.
pub open spec fn scanline_offset_xy(r: int, o: int) -> (int, int) {
    let top = 2 * r + 1;
    let mid_end = 6 * r - 1;
    if o < top {
        (-r + o, -r)
    } else if o < mid_end {
        let local = o - top;
        let row = local / 2;
        (if local % 2 == 0 { -r } else { r }, -r + 1 + row)
    } else {
        (-r + (o - mid_end), r)
    }
}

/// Scanline offset of a cell on its Chebyshev ring.
pub open spec fn scanline_xy_offset(x: int, y: int) -> int {
    let r = chebyshev(x, y);
    let top = 2 * r + 1;
    let mid_end = 6 * r - 1;
    if y == -r {
        x + r
    } else if y == r {
        mid_end + x + r
    } else {
        top + 2 * (y + r - 1) + (if x == r { 1int } else { 0int })
    }
}

pub open spec fn scanline_xy(i: nat) -> (int, int) {
    if i == 0 {
        (0, 0)
    } else {
        let r = ring_of(i) as int;
        scanline_offset_xy(r, i - ring_start(r))
    }
}

pub open spec fn scanline_index(x: int, y: int) -> int {
    if x == 0 && y == 0 {
        0
    } else {
        ring_start(chebyshev(x, y)) + scanline_xy_offset(x, y)
    }
}

pub proof fn lemma_scanline_offset_inverse(r: int, o: int)
    requires
        r >= 1,
        0 <= o < 8 * r,
    ensures
        chebyshev(scanline_offset_xy(r, o).0, scanline_offset_xy(r, o).1) == r,
        scanline_xy_offset(scanline_offset_xy(r, o).0, scanline_offset_xy(r, o).1) == o,
{
    let top = 2 * r + 1;
    let mid_end = 6 * r - 1;
    if top <= o < mid_end {
        let local = o - top;
        assert(local == 2 * (local / 2) + local % 2);
        assert(0 <= local % 2 < 2);
    }
}

pub proof fn lemma_scanline_xy_inverse(x: int, y: int)
    requires
        !(x == 0 && y == 0),
    ensures
        chebyshev(x, y) >= 1,
        0 <= scanline_xy_offset(x, y) < 8 * chebyshev(x, y),
        scanline_offset_xy(chebyshev(x, y), scanline_xy_offset(x, y)) == (x, y),
{
    let r = chebyshev(x, y);
    if y != -r && y != r {
        let local = 2 * (y + r - 1) + (if x == r { 1int } else { 0int });
        assert(local / 2 == y + r - 1);
        assert(local % 2 == (if x == r { 1int } else { 0int }));
    }
}

// ---------------------------------------------------------------------------------------------
// Diamond rings
// ---------------------------------------------------------------------------------------------

/// First index on Manhattan ring `d` (`1 + 2d(d-1)`; `0` for the origin).
pub open spec fn diamond_start(d: int) -> int {
    if d <= 0 {
        0
    } else {
        1 + 2 * d * (d - 1)
    }
}

pub proof fn lemma_diamond_span(d: int)
    requires
        d >= 1,
    ensures
        diamond_start(d + 1) == diamond_start(d) + 4 * d,
{
    assert(2 * (d + 1) * d == 2 * d * (d - 1) + 4 * d) by (nonlinear_arith);
}

pub proof fn lemma_diamond_start_mono(d: int, e: int)
    requires
        1 <= d <= e,
    ensures
        diamond_start(d) <= diamond_start(e),
{
    assert(2 * d * (d - 1) <= 2 * e * (e - 1)) by (nonlinear_arith)
        requires
            1 <= d <= e,
    ;
}

/// Whether `d` is the Manhattan ring holding index `i > 0`.
pub open spec fn is_diamond_ring(i: int, d: int) -> bool {
    d >= 1 && diamond_start(d) <= i < diamond_start(d + 1)
}

pub proof fn lemma_diamond_ring_exists(i: nat)
    requires
        i > 0,
    ensures
        exists|d: int| #[trigger] is_diamond_ring(i as int, d),
    decreases i,
{
    if i == 1 {
        lemma_diamond_span(1);
        assert(is_diamond_ring(1, 1));
    } else {
        lemma_diamond_ring_exists((i - 1) as nat);
        let j = i - 1;
        let d = choose|d: int| #[trigger] is_diamond_ring(j, d);
        lemma_diamond_span(d);
        if i < diamond_start(d + 1) {
            assert(is_diamond_ring(i as int, d));
        } else {
            lemma_diamond_span(d + 1);
            assert(is_diamond_ring(i as int, d + 1));
        }
    }
}

pub proof fn lemma_diamond_ring_unique(i: int, d: int, e: int)
    requires
        is_diamond_ring(i, d),
        is_diamond_ring(i, e),
    ensures
        d == e,
{
    if d < e {
        lemma_diamond_start_mono(d + 1, e);
    } else if e < d {
        lemma_diamond_start_mono(e + 1, d);
    }
}

/// Manhattan ring of an index.
pub open spec fn diamond_ring_of(i: nat) -> int {
    if i == 0 {
        0
    } else {
        choose|d: int| #[trigger] is_diamond_ring(i as int, d)
    }
}

pub proof fn lemma_diamond_ring_of(i: nat, d: int)
    requires
        is_diamond_ring(i as int, d),
    ensures
        diamond_ring_of(i) == d,
{
    lemma_diamond_ring_exists(i);
    lemma_diamond_ring_unique(i as int, d, diamond_ring_of(i));
}

/// Cell at offset `off` (`< 4d`) of Manhattan ring `d`.
pub open spec fn diamond_offset_xy(d: int, off: int) -> (int, int) {
    if off == 0 {
        (-d, 0)
    } else if off == 4 * d - 1 {
        (d, 0)
    } else {
        let o = off - 1;
        let x = -d + 1 + o / 2;
        let rem = d - abs(x);
        (x, if o % 2 == 0 { rem } else { -rem })
    }
}

/// Offset of a cell on its Manhattan ring.
pub open spec fn diamond_xy_offset(x: int, y: int) -> int {
    let d = abs(x) + abs(y);
    if y == 0 && x == -d {
        0
    } else if y == 0 && x == d {
        4 * d - 1
    } else {
        let rem = d - abs(x);
        1 + 2 * (x + d - 1) + (if y == rem { 0int } else { 1int })
    }
}

pub open spec fn diamond_xy(i: nat) -> (int, int) {
    if i == 0 {
        (0, 0)
    } else {
        let d = diamond_ring_of(i);
        diamond_offset_xy(d, i - diamond_start(d))
    }
}

pub open spec fn diamond_index(x: int, y: int) -> int {
    if x == 0 && y == 0 {
        0
    } else {
        diamond_start(abs(x) + abs(y)) + diamond_xy_offset(x, y)
    }
}

/// Successor cell in diamond order.
pub open spec fn diamond_step_spec(x: int, y: int) -> (int, int) {
    if x == 0 && y == 0 {
        (-1, 0)
    } else {
        let d = abs(x) + abs(y);
        let rem = d - abs(x);
        if rem > 0 && y == rem {
            (x, -rem)
        } else if x < d {
            let nx = x + 1;
            let nrem = d - abs(nx);
            if nrem == 0 {
                (nx, 0)
            } else {
                (nx, nrem)
            }
        } else {
            (-(d + 1), 0)
        }
    }
}

pub proof fn lemma_diamond_offset_inverse(d: int, off: int)
    requires
        d >= 1,
        0 <= off < 4 * d,
    ensures
        abs(diamond_offset_xy(d, off).0) + abs(diamond_offset_xy(d, off).1) == d,
        diamond_xy_offset(diamond_offset_xy(d, off).0, diamond_offset_xy(d, off).1) == off,
{
    if off != 0 && off != 4 * d - 1 {
        let o = off - 1;
        assert(o == 2 * (o / 2) + o % 2);
        assert(0 <= o % 2 < 2);
    }
}

pub proof fn lemma_diamond_xy_inverse(x: int, y: int)
    requires
        !(x == 0 && y == 0),
    ensures
        abs(x) + abs(y) >= 1,
        0 <= diamond_xy_offset(x, y) < 4 * (abs(x) + abs(y)),
        diamond_offset_xy(abs(x) + abs(y), diamond_xy_offset(x, y)) == (x, y),
{
    let d = abs(x) + abs(y);
    if !(y == 0 && (x == -d || x == d)) {
        let o = 2 * (x + d - 1) + (if y == d - abs(x) { 0int } else { 1int });
        assert(o / 2 == x + d - 1);
        assert(o % 2 == (if y == d - abs(x) { 0int } else { 1int }));
    }
}

// ---------------------------------------------------------------------------------------------
// Orders as a whole
// ---------------------------------------------------------------------------------------------

impl VisitOrder {
    /// Cell visited at index `i`.
    pub open spec fn spec_index_to_xy(self, i: nat) -> (int, int) {
        match self {
            VisitOrder::SquareSpiral => spiral_xy(i),
            VisitOrder::SquareSpiralClockwise => cw_xy(i),
            VisitOrder::SquareRingsScanline => scanline_xy(i),
            VisitOrder::DiamondRings => diamond_xy(i),
        }
    }

    /// Index at which a cell is visited.
    pub open spec fn spec_xy_to_index(self, x: int, y: int) -> int {
        match self {
            VisitOrder::SquareSpiral => spiral_index(x, y),
            VisitOrder::SquareSpiralClockwise => cw_index(x, y),
            VisitOrder::SquareRingsScanline => scanline_index(x, y),
            VisitOrder::DiamondRings => diamond_index(x, y),
        }
    }

    /// What one scan step from `(index, xy)` yields.
    pub open spec fn spec_scan_step(self, index: u32, xy: (int, int)) -> (int, int) {
        let next = if index == u32::MAX { 0nat } else { (index + 1) as nat };
        match self {
            VisitOrder::SquareSpiral => spiral_step_spec(xy.0, xy.1),
            VisitOrder::SquareSpiralClockwise => cw_xy(next),
            VisitOrder::SquareRingsScanline => scanline_xy(next),
            VisitOrder::DiamondRings => diamond_step_spec(xy.0, xy.1),
        }
    }

    /// Position of the order in [`VisitOrder::ALL`].
    pub open spec fn spec_slot(self) -> int {
        match self {
            VisitOrder::SquareSpiral => 0,
            VisitOrder::SquareSpiralClockwise => 1,
            VisitOrder::SquareRingsScanline => 2,
            VisitOrder::DiamondRings => 3,
        }
    }

    pub open spec fn from_slot(slot: int) -> VisitOrder {
        if slot == 0 {
            VisitOrder::SquareSpiral
        } else if slot == 1 {
            VisitOrder::SquareSpiralClockwise
        } else if slot == 2 {
            VisitOrder::SquareRingsScanline
        } else {
            VisitOrder::DiamondRings
        }
    }

    /// What [`VisitOrder::next`] gives.
    pub open spec fn spec_next(self) -> VisitOrder {
        Self::from_slot((self.spec_slot() + 1) % 4)
    }

    /// What [`VisitOrder::prev`] gives.
    pub open spec fn spec_prev(self) -> VisitOrder {
        Self::from_slot((self.spec_slot() + 3) % 4)
    }

    /// Stepping forward and back cancel, and four steps forward visit every order once before
    /// coming back.
    pub proof fn lemma_next_prev_cycle(self)
        ensures
            self.spec_next().spec_prev() == self,
            self.spec_prev().spec_next() == self,
            self.spec_next().spec_next().spec_next().spec_next() == self,
            ({
                let o1 = self.spec_next();
                let o2 = o1.spec_next();
                let o3 = o2.spec_next();
                self != o1 && self != o2 && self != o3 && o1 != o2 && o1 != o3 && o2 != o3
            }),
    {
    }
}

// ---------------------------------------------------------------------------------------------
// Laws
// ---------------------------------------------------------------------------------------------

/// Each order maps an index to a cell that maps back to the same index.
pub proof fn lemma_order_index_of_xy(order: VisitOrder, i: nat)
    ensures
        order.spec_xy_to_index(order.spec_index_to_xy(i).0, order.spec_index_to_xy(i).1) == i,
{
    match order {
        VisitOrder::SquareSpiral => lemma_spiral_index_of_xy(i),
        VisitOrder::SquareSpiralClockwise => {
            if i > 0 {
                lemma_ring_of_bounds(i);
                let r = ring_of(i) as int;
                lemma_ring_span(r);
                let off = i - ring_start(r);
                lemma_cw_offset(r, off);
                lemma_ring_offset_xy_inverse(r, cw_offset(r, off));
            }
        },
        VisitOrder::SquareRingsScanline => {
            if i > 0 {
                lemma_ring_of_bounds(i);
                let r = ring_of(i) as int;
                lemma_ring_span(r);
                lemma_scanline_offset_inverse(r, i - ring_start(r));
            }
        },
        VisitOrder::DiamondRings => {
            if i > 0 {
                lemma_diamond_ring_exists(i);
                let d = diamond_ring_of(i);
                lemma_diamond_span(d);
                lemma_diamond_offset_inverse(d, i - diamond_start(d));
            }
        },
    }
}

/// Each order reaches every cell, at an index that maps back to the cell.
pub proof fn lemma_order_xy_of_index(order: VisitOrder, x: int, y: int)
    ensures
        order.spec_xy_to_index(x, y) >= 0,
        order.spec_index_to_xy(order.spec_xy_to_index(x, y) as nat) == (x, y),
{
    match order {
        VisitOrder::SquareSpiral => lemma_spiral_xy_of_index(x, y),
        VisitOrder::SquareSpiralClockwise => {
            if !(x == 0 && y == 0) {
                lemma_xy_ring_offset_inverse(x, y);
                let r = chebyshev(x, y);
                lemma_ring_span(r);
                lemma_cw_offset(r, xy_ring_offset(x, y));
                lemma_square_mono(1, 2 * r - 1);
                lemma_ring_of_unique(cw_index(x, y) as nat, r);
            }
        },
        VisitOrder::SquareRingsScanline => {
            if !(x == 0 && y == 0) {
                lemma_scanline_xy_inverse(x, y);
                let r = chebyshev(x, y);
                lemma_ring_span(r);
                lemma_square_mono(1, 2 * r - 1);
                lemma_ring_of_unique(scanline_index(x, y) as nat, r);
            }
        },
        VisitOrder::DiamondRings => {
            if !(x == 0 && y == 0) {
                lemma_diamond_xy_inverse(x, y);
                let d = abs(x) + abs(y);
                lemma_diamond_span(d);
                lemma_diamond_start_mono(1, d);
                lemma_diamond_ring_of(diamond_index(x, y) as nat, d);
            }
        },
    }
}

/// No two indices of one order share a cell.
pub proof fn lemma_order_injective(order: VisitOrder, i: nat, j: nat)
    requires
        order.spec_index_to_xy(i) == order.spec_index_to_xy(j),
    ensures
        i == j,
{
    lemma_order_index_of_xy(order, i);
    lemma_order_index_of_xy(order, j);
}

/// A scan step from the cell of `index` lands on the cell of `index + 1`.
pub proof fn lemma_order_scan_step(order: VisitOrder, index: u32)
    requires
        index < u32::MAX,
    ensures
        order.spec_scan_step(index, order.spec_index_to_xy(index as nat))
            == order.spec_index_to_xy((index + 1) as nat),
{
    match order {
        VisitOrder::SquareSpiral => lemma_spiral_step(index as nat),
        VisitOrder::DiamondRings => lemma_diamond_step(index as nat),
        _ => {},
    }
}

pub proof fn lemma_diamond_step(i: nat)
    ensures
        diamond_step_spec(diamond_xy(i).0, diamond_xy(i).1) == diamond_xy(i + 1),
{
    if i == 0 {
        lemma_diamond_span(1);
        lemma_diamond_ring_of(1, 1);
    } else {
        lemma_diamond_ring_exists(i);
        let d = diamond_ring_of(i);
        lemma_diamond_span(d);
        let off = i - diamond_start(d);
        lemma_diamond_offset_inverse(d, off);
        if i + 1 < diamond_start(d + 1) {
            lemma_diamond_ring_of(i + 1, d);
            let off1 = off + 1;
            if off != 0 && off1 != 4 * d - 1 {
                let o = off - 1;
                assert(o == 2 * (o / 2) + o % 2);
                assert(off1 - 1 == 2 * ((off1 - 1) / 2) + (off1 - 1) % 2);
                if o % 2 == 0 {
                    assert((off1 - 1) / 2 == o / 2);
                    assert((off1 - 1) % 2 == 1);
                } else {
                    assert((off1 - 1) / 2 == o / 2 + 1);
                    assert((off1 - 1) % 2 == 0);
                }
            } else if off == 0 {
                assert(0int / 2 == 0);
            } else {
                let o = off - 1;
                assert(o == 2 * (o / 2) + o % 2);
                assert(o == 4 * d - 3);
                assert(o / 2 == 2 * d - 2);
            }
        } else {
            lemma_diamond_span(d + 1);
            lemma_diamond_ring_of(i + 1, d + 1);
        }
    }
}


/// Cells of `u32` indices stay within `46341` of the origin on both axes.
pub proof fn lemma_order_xy_bounded(order: VisitOrder, i: nat)
    requires
        i <= u32::MAX,
    ensures
        abs(order.spec_index_to_xy(i).0) <= 46341,
        abs(order.spec_index_to_xy(i).1) <= 46341,
{
    if i > 0 {
        match order {
            VisitOrder::DiamondRings => {
                lemma_diamond_ring_exists(i);
                let d = diamond_ring_of(i);
                lemma_diamond_span(d);
                lemma_diamond_bound(d);
                lemma_diamond_offset_inverse(d, i - diamond_start(d));
            },
            _ => {
                lemma_ring_of_bounds(i);
                let r = ring_of(i) as int;
                lemma_ring_span(r);
                lemma_ring_bound(r);
                let off = i - ring_start(r);
                match order {
                    VisitOrder::SquareSpiral => lemma_ring_offset_xy_inverse(r, off),
                    VisitOrder::SquareSpiralClockwise => {
                        lemma_cw_offset(r, off);
                        lemma_ring_offset_xy_inverse(r, cw_offset(r, off));
                    },
                    _ => lemma_scanline_offset_inverse(r, off),
                }
            },
        }
    }
}

/// One scan step moves at most one ring out, so it stays within `46342` of the origin.
pub proof fn lemma_scan_step_bounded(order: VisitOrder, index: u32, xy: (int, int))
    requires
        xy == order.spec_index_to_xy(index as nat),
    ensures
        abs(order.spec_scan_step(index, xy).0) <= 46342,
        abs(order.spec_scan_step(index, xy).1) <= 46342,
{
    lemma_order_xy_bounded(order, index as nat);
    let next = if index == u32::MAX { 0nat } else { (index + 1) as nat };
    lemma_order_xy_bounded(order, next);
}

// ---------------------------------------------------------------------------------------------
// Executable orders
// ---------------------------------------------------------------------------------------------

/// First index of Chebyshev ring `ring`, as a `u64` so the next ring's start never overflows.
pub fn chebyshev_ring_start(ring: u32) -> (start: u64)
    requires
        ring <= 0x1_0000,
    ensures
        start as int == ring_start(ring as int),
{
    if ring == 0 {
        0
    } else {
        let inner = 2 * (ring as u64) - 1;
        proof {
            lemma_square_mono(inner as int, 0x2_0000);
        }
        inner * inner
    }
}

/// Chebyshev ring of an index (`0` for the origin).
pub fn chebyshev_ring_for_index(index: u32) -> (ring: u32)
    ensures
        ring as nat == ring_of(index as nat),
        index > 0 ==> 1 <= ring <= 32768 && ring_start(ring as int) <= index < ring_start(
            ring + 1 as int,
        ),
{
    if index == 0 {
        0
    } else {
        proof {
            lemma_ring_of_bounds(index as nat);
        }
        let ring = (crate::spiral::isqrt_u32(index) + 1) / 2;
        proof {
            lemma_ring_bound(ring as int);
        }
        ring
    }
}

pub fn index_to_xy_clockwise(index: u32) -> (xy: (i32, i32))
    ensures
        (xy.0 as int, xy.1 as int) == cw_xy(index as nat),
        -32768 <= xy.0 <= 32768,
        -32768 <= xy.1 <= 32768,
{
    if index == 0 {
        return (0, 0);
    }
    let ro = index_to_ring_offset(index);
    if ro.ring == 0 {
        return (0, 0);
    }
    proof {
        lemma_cw_offset(ro.ring as int, ro.offset as int);
    }
    let ccw_offset = (8 * ro.ring - ro.offset) % (8 * ro.ring);
    proof {
        lemma_ring_offset_xy_inverse(ro.ring as int, ccw_offset as int);
    }
    index_to_xy_ring_offset(ro.ring, ccw_offset)
}

/// Cells whose clockwise index fits in a `u32`.
pub proof fn lemma_cw_domain(x: int, y: int)
    requires
        cw_index(x, y) <= u32::MAX,
        !(x == 0 && y == 0),
    ensures
        chebyshev(x, y) <= 32768,
{
    lemma_xy_ring_offset_inverse(x, y);
    let r = chebyshev(x, y);
    lemma_cw_offset(r, xy_ring_offset(x, y));
    lemma_ring_bound(r);
}

pub fn xy_to_index_clockwise(x: i32, y: i32) -> (index: u32)
    requires
        cw_index(x as int, y as int) <= u32::MAX,
    ensures
        index as int == cw_index(x as int, y as int),
{
    if x == 0 && y == 0 {
        return 0;
    }
    proof {
        lemma_cw_domain(x as int, y as int);
    }
    let ro = xy_to_ring_offset(x, y);
    proof {
        lemma_xy_ring_offset_inverse(x as int, y as int);
        lemma_cw_offset(ro.ring as int, ro.offset as int);
    }
    let cw_offset = (8 * ro.ring - ro.offset) % (8 * ro.ring);
    let start = chebyshev_ring_start(ro.ring);
    (start + cw_offset as u64) as u32
}

/// Scanline order on Chebyshev ring `r`: bottom row, vertical sides, top row.
pub fn index_to_xy_square_rings_scanline(index: u32) -> (xy: (i32, i32))
    ensures
        (xy.0 as int, xy.1 as int) == scanline_xy(index as nat),
        -32768 <= xy.0 <= 32768,
        -32768 <= xy.1 <= 32768,
{
    if index == 0 {
        return (0, 0);
    }
    let r = chebyshev_ring_for_index(index);
    proof {
        lemma_ring_span(r as int);
        lemma_scanline_offset_inverse(r as int, index - ring_start(r as int));
    }
    let ri = r as i32;
    let start = chebyshev_ring_start(r);
    let o = (index as u64 - start) as u32;
    let top = 2 * r + 1;
    if o < top {
        return (-ri + o as i32, -ri);
    }
    let mid_end = 6 * r - 1;
    if o < mid_end {
        let local = o - top;
        let row = local / 2;
        let y = -ri + 1 + row as i32;
        assert(local & 1 == local % 2) by (bit_vector);
        let x = if local & 1 == 0 { -ri } else { ri };
        return (x, y);
    }
    let x = -ri + (o - mid_end) as i32;
    (x, ri)
}

pub proof fn lemma_scanline_domain(x: int, y: int)
    requires
        scanline_index(x, y) <= u32::MAX,
        !(x == 0 && y == 0),
    ensures
        chebyshev(x, y) <= 32768,
{
    lemma_scanline_xy_inverse(x, y);
    lemma_ring_bound(chebyshev(x, y));
}

pub fn xy_to_index_square_rings_scanline(x: i32, y: i32) -> (index: u32)
    requires
        scanline_index(x as int, y as int) <= u32::MAX,
    ensures
        index as int == scanline_index(x as int, y as int),
{
    if x == 0 && y == 0 {
        return 0;
    }
    proof {
        lemma_scanline_domain(x as int, y as int);
        lemma_scanline_xy_inverse(x as int, y as int);
    }
    let ax = if x < 0 { -x } else { x };
    let ay = if y < 0 { -y } else { y };
    let r = (if ax < ay { ay } else { ax }) as u32;
    let ri = r as i32;
    let start = chebyshev_ring_start(r);
    let top = 2 * r + 1;
    let mid_end = 6 * r - 1;
    let offset = if y == -ri {
        (x + ri) as u32
    } else if y == ri {
        mid_end + (x + ri) as u32
    } else {
        let row = (y + ri - 1) as u32;
        top + 2 * row + (if x == ri { 1u32 } else { 0u32 })
    };
    (start + offset as u64) as u32
}

/// First index of Manhattan ring `ring`, as a `u64`.
pub fn diamond_ring_start(ring: u32) -> (start: u64)
    requires
        ring <= 0x1_0000,
    ensures
        start as int == diamond_start(ring as int),
{
    if ring == 0 {
        0
    } else {
        let r = ring as u64;
        assert(2 * r * (r - 1) <= 2 * 0x1_0000 * 0x1_0000) by (nonlinear_arith)
            requires
                1 <= r <= 0x1_0000,
        ;
        1 + 2 * r * (r - 1)
    }
}

/// The Manhattan ring reachable from a `u32` index is at most `46341`.
pub proof fn lemma_diamond_bound(d: int)
    requires
        d >= 1,
        diamond_start(d) <= u32::MAX,
    ensures
        d <= 46341,
{
    if d > 46341 {
        lemma_diamond_start_mono(46342, d);
        assert(1 + 2 * 46342 * (46342 - 1) > u32::MAX) by (nonlinear_arith);
    }
}

/// Square-root estimate of the diamond ring is off by at most one below.
proof fn lemma_diamond_estimate(i: nat, d: int, s: nat)
    requires
        i > 0,
        is_diamond_ring(i as int, d),
        s * s <= 1 + 8 * (i - 1),
        1 + 8 * (i - 1) < (s + 1) * (s + 1),
    ensures
        d - 1 <= (1 + s) / 4 <= d,
{
    let u = i - 1;
    let disc = 1 + 8 * u;
    assert((4 * d - 2) * (4 * d - 2) <= disc + 3) by (nonlinear_arith)
        requires
            d >= 1,
            1 + 2 * d * (d - 1) <= u + 1,
            disc == 1 + 8 * u,
    ;
    assert(disc + 3 < (4 * d + 2) * (4 * d + 2)) by (nonlinear_arith)
        requires
            d >= 1,
            u + 1 < 1 + 2 * (d + 1) * d,
            disc == 1 + 8 * u,
    ;
    if s + 1 < 4 * d - 2 {
        lemma_square_mono(s + 1 as int, 4 * d - 3);
        assert((4 * d - 3) * (4 * d - 3) + 3 < (4 * d - 2) * (4 * d - 2)) by (nonlinear_arith)
            requires
                d >= 2,
        ;
    }
    if s >= 4 * d + 2 {
        lemma_square_mono(4 * d + 2, s as int);
    }
}

/// Manhattan ring of an index (`0` for the origin).
pub fn diamond_ring_for_index(index: u32) -> (ring: u32)
    ensures
        ring as int == diamond_ring_of(index as nat),
        index > 0 ==> is_diamond_ring(index as int, ring as int) && ring <= 46341,
{
    if index == 0 {
        return 0;
    }
    proof {
        lemma_diamond_ring_exists(index as nat);
        lemma_isqrt_bounds((1 + 8 * (index - 1)) as nat);
    }
    let ghost dd = diamond_ring_of(index as nat);
    proof {
        lemma_diamond_span(dd);
        lemma_diamond_bound(dd);
    }
    let u = (index - 1) as u64;
    let disc = 1 + 8 * u;
    let s = isqrt_u64(disc);
    proof {
        lemma_diamond_estimate(index as nat, dd, s as nat);
    }
    let est = (1 + s) / 4;
    let mut d = (if est < 1 { 1 } else { est }) as u32;
    if diamond_ring_start(d) > index as u64 {
        d -= 1;
    } else if index as u64 >= diamond_ring_start(d + 1) {
        d += 1;
    }
    proof {
        if d as int != dd {
            if (d as int) < dd {
                lemma_diamond_start_mono(d + 1 as int, dd);
            } else {
                lemma_diamond_start_mono(dd + 1, d as int);
            }
        }
    }
    d
}

pub fn index_to_xy_diamond_rings(index: u32) -> (xy: (i32, i32))
    ensures
        (xy.0 as int, xy.1 as int) == diamond_xy(index as nat),
        -46341 <= xy.0 <= 46341,
        -46341 <= xy.1 <= 46341,
{
    if index == 0 {
        return (0, 0);
    }
    let d = diamond_ring_for_index(index);
    proof {
        lemma_diamond_span(d as int);
        lemma_diamond_offset_inverse(d as int, index - diamond_start(d as int));
    }
    let di = d as i32;
    let start = diamond_ring_start(d);
    let offset = (index as u64 - start) as u32;
    let last = 4 * d - 1;
    if offset == 0 {
        return (-di, 0);
    }
    if offset == last {
        return (di, 0);
    }
    let o = offset - 1;
    let x_idx = (o / 2) as i32;
    let x = -di + 1 + x_idx;
    let ax = if x < 0 { -x } else { x };
    let rem = di - ax;
    assert(o & 1 == o % 2) by (bit_vector);
    let y = if o & 1 == 0 { rem } else { -rem };
    (x, y)
}

pub proof fn lemma_diamond_domain(x: int, y: int)
    requires
        diamond_index(x, y) <= u32::MAX,
        !(x == 0 && y == 0),
    ensures
        abs(x) + abs(y) <= 46341,
{
    lemma_diamond_xy_inverse(x, y);
    lemma_diamond_bound(abs(x) + abs(y));
}

pub fn xy_to_index_diamond_rings(x: i32, y: i32) -> (index: u32)
    requires
        diamond_index(x as int, y as int) <= u32::MAX,
    ensures
        index as int == diamond_index(x as int, y as int),
{
    if x == 0 && y == 0 {
        return 0;
    }
    proof {
        lemma_diamond_domain(x as int, y as int);
        lemma_diamond_xy_inverse(x as int, y as int);
    }
    let ax = if x < 0 { -x } else { x };
    let ay = if y < 0 { -y } else { y };
    let d = (ax + ay) as u32;
    let di = d as i32;
    let start = diamond_ring_start(d);
    if y == 0 && x == -di {
        return start as u32;
    }
    if y == 0 && x == di {
        return (start + 4 * d as u64 - 1) as u32;
    }
    let rem = di - ax;
    let within: u64 = if y == rem { 0 } else { 1 };
    let before_x = 1 + 2 * (x + di - 1) as u64;
    (start + before_x + within) as u32
}

/// The diamond step from `xy` stays in `i32`: neither coordinate is `i32::MIN`, `|x| + |y|`
/// fits, and `xy` is not `(i32::MAX, 0)`, whose step to the next ring overflows.
pub open spec fn diamond_step_ok(xy: (i32, i32)) -> bool {
    &&& xy.0 != i32::MIN
    &&& xy.1 != i32::MIN
    &&& abs(xy.0 as int) + abs(xy.1 as int) <= i32::MAX
    &&& !(xy.0 == i32::MAX && xy.1 == 0)
}

/// The scan step of `order` from `xy` stays in `i32` (only the spiral and the diamond step
/// from the coordinates; the other orders look the next cell up by index).
pub open spec fn scan_step_ok(order: VisitOrder, xy: (i32, i32)) -> bool {
    match order {
        VisitOrder::SquareSpiral => spiral_step_ok(xy),
        VisitOrder::DiamondRings => diamond_step_ok(xy),
        _ => true,
    }
}

/// O(1) diamond-ring successor (no `index_to_xy`).
pub fn diamond_scan_step(xy: (i32, i32)) -> (next: (i32, i32))
    requires
        diamond_step_ok(xy),
    ensures
        (next.0 as int, next.1 as int) == diamond_step_spec(xy.0 as int, xy.1 as int),
{
    let (x, y) = xy;
    if x == 0 && y == 0 {
        return (-1, 0);
    }
    let ax = if x < 0 { -x } else { x };
    let ay = if y < 0 { -y } else { y };
    let d = ax + ay;
    let rem = d - ax;
    if rem > 0 && y == rem {
        return (x, -rem);
    }
    if x < d {
        let nx = x + 1;
        let anx = if nx < 0 { -nx } else { nx };
        let nrem = d - anx;
        if nrem == 0 {
            return (nx, 0);
        }
        return (nx, nrem);
    }
    (-(d + 1), 0)
}

/// Half-width of the square around the origin whose cells have a `u32` index in every order.
pub open spec fn near_bound() -> int {
    16383
}

/// Whether `(x, y)` lies within [`near_bound`] of the origin on both axes.
pub open spec fn near_cell(x: int, y: int) -> bool {
    -near_bound() <= x <= near_bound() && -near_bound() <= y <= near_bound()
}

/// Every cell near the origin has an index that fits in `u32`, whatever the order.
pub proof fn lemma_near_index_fits(order: VisitOrder, x: int, y: int)
    requires
        near_cell(x, y),
    ensures
        0 <= order.spec_xy_to_index(x, y) <= u32::MAX,
{
    if !(x == 0 && y == 0) {
        let r = chebyshev(x, y);
        lemma_xy_ring_offset_inverse(x, y);
        lemma_ring_span(r);
        assert(1 <= r <= 16383);
        lemma_square_mono(2 * r + 1, 32767);
        assert(32767 * 32767 == 1073676289int);
        assert(ring_start(r) + 8 * r <= 1073676289);
        assert(ring_start(r) >= 0) by {
            lemma_square_mono(1, 2 * r - 1);
        }
        match order {
            VisitOrder::SquareSpiral => {},
            VisitOrder::SquareSpiralClockwise => {
                lemma_cw_offset(r, xy_ring_offset(x, y));
            },
            VisitOrder::SquareRingsScanline => {
                lemma_scanline_xy_inverse(x, y);
            },
            VisitOrder::DiamondRings => {
                lemma_diamond_xy_inverse(x, y);
                let d = abs(x) + abs(y);
                assert(1 <= d <= 32766);
                assert(2 * d * (d - 1) <= 2 * 32766 * 32765) by (nonlinear_arith)
                    requires
                        1 <= d <= 32766,
                ;
            },
        }
    }
}

pub fn cw_scan_step_from_index(index: u32) -> (xy: (i32, i32))
    ensures
        (xy.0 as int, xy.1 as int) == cw_xy(
            if index == u32::MAX { 0nat } else { (index + 1) as nat },
        ),
{
    index_to_xy_clockwise(index.wrapping_add(1))
}

impl VisitOrder {
    pub const ALL: [VisitOrder; 4] = [
        VisitOrder::SquareSpiral,
        VisitOrder::SquareSpiralClockwise,
        VisitOrder::SquareRingsScanline,
        VisitOrder::DiamondRings,
    ];

    pub fn label(self) -> (label: &'static str)
        ensures
            label@ == (match self {
                VisitOrder::SquareSpiral => "Square spiral (CCW)"@,
                VisitOrder::SquareSpiralClockwise => "Square spiral (CW)"@,
                VisitOrder::SquareRingsScanline => "Square rings (scanline)"@,
                VisitOrder::DiamondRings => "Diamond rings (Manhattan)"@,
            }),
    {
        match self {
            VisitOrder::SquareSpiral => "Square spiral (CCW)",
            VisitOrder::SquareSpiralClockwise => "Square spiral (CW)",
            VisitOrder::SquareRingsScanline => "Square rings (scanline)",
            VisitOrder::DiamondRings => "Diamond rings (Manhattan)",
        }
    }

    /// Position in [`VisitOrder::ALL`].
    pub fn slot(self) -> (slot: usize)
        ensures
            slot as int == self.spec_slot(),
            Self::from_slot(slot as int) == self,
    {
        match self {
            VisitOrder::SquareSpiral => 0,
            VisitOrder::SquareSpiralClockwise => 1,
            VisitOrder::SquareRingsScanline => 2,
            VisitOrder::DiamondRings => 3,
        }
    }

    fn at_slot(slot: usize) -> (order: VisitOrder)
        requires
            slot < 4,
        ensures
            order == Self::from_slot(slot as int),
    {
        if slot == 0 {
            VisitOrder::SquareSpiral
        } else if slot == 1 {
            VisitOrder::SquareSpiralClockwise
        } else if slot == 2 {
            VisitOrder::SquareRingsScanline
        } else {
            VisitOrder::DiamondRings
        }
    }

    /// Previous order in [`VisitOrder::ALL`], wrapping around.
    pub fn prev(self) -> (order: Self)
        ensures
            order == Self::from_slot((self.spec_slot() + 3) % 4),
    {
        let n: usize = 4;
        Self::at_slot((self.slot() + n - 1) % n)
    }

    /// Next order in [`VisitOrder::ALL`], wrapping around.
    pub fn next(self) -> (order: Self)
        ensures
            order == Self::from_slot((self.spec_slot() + 1) % 4),
    {
        let n: usize = 4;
        Self::at_slot((self.slot() + 1) % n)
    }

    pub fn index_to_xy(self, index: u32) -> (xy: (i32, i32))
        ensures
            (xy.0 as int, xy.1 as int) == self.spec_index_to_xy(index as nat),
            -46341 <= xy.0 <= 46341,
            -46341 <= xy.1 <= 46341,
    {
        match self {
            VisitOrder::SquareSpiral => crate::spiral::index_to_xy(index),
            VisitOrder::SquareSpiralClockwise => index_to_xy_clockwise(index),
            VisitOrder::SquareRingsScanline => index_to_xy_square_rings_scanline(index),
            VisitOrder::DiamondRings => index_to_xy_diamond_rings(index),
        }
    }

    pub fn xy_to_index(self, x: i32, y: i32) -> (index: u32)
        requires
            self.spec_xy_to_index(x as int, y as int) <= u32::MAX,
        ensures
            index as int == self.spec_xy_to_index(x as int, y as int),
    {
        match self {
            VisitOrder::SquareSpiral => crate::spiral::xy_to_index(x, y),
            VisitOrder::SquareSpiralClockwise => xy_to_index_clockwise(x, y),
            VisitOrder::SquareRingsScanline => xy_to_index_square_rings_scanline(x, y),
            VisitOrder::DiamondRings => xy_to_index_diamond_rings(x, y),
        }
    }

    /// Index of `(x, y)` when the cell lies within [`near_bound`] of the origin on both axes,
    /// where every order's index fits in `u32`; `None` farther out.
    pub fn near_xy_to_index(self, x: i32, y: i32) -> (index: Option<u32>)
        ensures
            index == if near_cell(x as int, y as int) {
                Some(self.spec_xy_to_index(x as int, y as int) as u32)
            } else {
                None::<u32>
            },
    {
        if x < -16383 || x > 16383 || y < -16383 || y > 16383 {
            return None;
        }
        proof {
            lemma_near_index_fits(self, x as int, y as int);
        }
        Some(self.xy_to_index(x, y))
    }

    pub fn scan_step_xy(self, index: u32, xy: (i32, i32)) -> (next: (i32, i32))
        requires
            scan_step_ok(self, xy),
        ensures
            (next.0 as int, next.1 as int) == self.spec_scan_step(
                index,
                (xy.0 as int, xy.1 as int),
            ),
    {
        match self {
            VisitOrder::SquareSpiral => crate::spiral::spiral_step(xy),
            VisitOrder::SquareSpiralClockwise => cw_scan_step_from_index(index),
            VisitOrder::SquareRingsScanline => {
                index_to_xy_square_rings_scanline(index.wrapping_add(1))
            },
            VisitOrder::DiamondRings => diamond_scan_step(xy),
        }
    }
}

/// How spiral indices map to the infinite square grid (type-level experiments).
pub trait IndexOrder: Copy + Sized {
    /// Cell visited at index `i`.
    spec fn spec_index_to_xy(i: nat) -> (int, int);

    /// Index at which a cell is visited.
    spec fn spec_xy_to_index(x: int, y: int) -> int;

    fn name() -> (name: &'static str);

    fn index_to_xy(index: u32) -> (xy: (i32, i32))
        ensures
            (xy.0 as int, xy.1 as int) == Self::spec_index_to_xy(index as nat),
            coords_bounded(xy),
    ;

    fn xy_to_index(x: i32, y: i32) -> (index: u32)
        requires
            Self::spec_xy_to_index(x as int, y as int) <= u32::MAX,
        ensures
            index as int == Self::spec_xy_to_index(x as int, y as int),
    ;

    /// Cell after `xy`, the cell of `index`; by default looked up from `index + 1`.
    fn scan_step_xy(index: u32, xy: (i32, i32)) -> (next: (i32, i32))
        requires
            spiral_step_ok(xy),
        ensures
            index < u32::MAX && (xy.0 as int, xy.1 as int) == Self::spec_index_to_xy(index as nat)
                ==> (next.0 as int, next.1 as int) == Self::spec_index_to_xy((index + 1) as nat),
    {
        Self::index_to_xy(index.wrapping_add(1))
    }
}

/// The counterclockwise square spiral as a type-level order.
#[derive(Clone, Copy, Debug, Default, PartialEq, Eq)]
pub struct SquareSpiral;

impl IndexOrder for SquareSpiral {
    open spec fn spec_index_to_xy(i: nat) -> (int, int) {
        spiral_xy(i)
    }

    open spec fn spec_xy_to_index(x: int, y: int) -> int {
        spiral_index(x, y)
    }

    fn name() -> (name: &'static str)
        ensures
            name@ == "square_spiral"@,
    {
        "square_spiral"
    }

    fn index_to_xy(index: u32) -> (xy: (i32, i32)) {
        VisitOrder::SquareSpiral.index_to_xy(index)
    }

    fn xy_to_index(x: i32, y: i32) -> (index: u32) {
        VisitOrder::SquareSpiral.xy_to_index(x, y)
    }

    fn scan_step_xy(index: u32, xy: (i32, i32)) -> (next: (i32, i32)) {
        proof {
            lemma_spiral_step(index as nat);
        }
        crate::spiral::spiral_step(xy)
    }
}

pub type DefaultIndexOrder = SquareSpiral;

} // verus!
