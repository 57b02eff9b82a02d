//! Square spiral numbering (OEIS A316667 geometry, 0-based).
//!
//! Cell `0` is the origin, index `1` lies east of it and the spiral runs counterclockwise.
//! Ring `r >= 1` is the square of Chebyshev radius `r`; it holds the `8r` indices
//! `(2r-1)^2 .. (2r+1)^2`, visited from `(r, -r+1)` up the east side, then west along the
//! top, down the west side and east along the bottom.

use vstd::prelude::*;

verus! {

// ---------------------------------------------------------------------------------------------
// Arithmetic helpers
// ---------------------------------------------------------------------------------------------

/// Integer square root: the largest `s` with `s * s <= n`.
pub open spec fn isqrt(n: nat) -> nat
    decreases n,
{
    if n == 0 {
        0
    } else {
        let s = isqrt((n - 1) as nat);
        if (s + 1) * (s + 1) <= n {
            s + 1
        } else {
            s
        }
    }
}

pub proof fn lemma_square_mono(a: int, b: int)
    requires
        0 <= a <= b,
    ensures
        a * a <= b * b,
{
    assert(a * a <= a * b) by (nonlinear_arith)
        requires
            0 <= a <= b,
    ;
    assert(a * b <= b * b) by (nonlinear_arith)
        requires
            0 <= a <= b,
    ;
}

pub proof fn lemma_square_strict(a: int, b: int)
    requires
        0 <= a < b,
    ensures
        a * a < b * b,
{
    assert(a * a <= a * b) by (nonlinear_arith)
        requires
            0 <= a <= b,
    ;
    assert(a * b < b * b) by (nonlinear_arith)
        requires
            0 <= a < b,
    ;
}

/// `isqrt(n)` brackets `n` between consecutive squares.
pub proof fn lemma_isqrt_bounds(n: nat)
    ensures
        isqrt(n) * isqrt(n) <= n,
        n < (isqrt(n) + 1) * (isqrt(n) + 1),
    decreases n,
{
    if n == 0 {
        assert(isqrt(0) == 0);
        assert(0 * 0 == 0int && 1 * 1 == 1int);
    } else {
        let m = (n - 1) as nat;
        lemma_isqrt_bounds(m);
        let s = isqrt(m);
        assert(isqrt(n) == if (s + 1) * (s + 1) <= n { s + 1 } else { s });
        if (s + 1) * (s + 1) <= n {
            assert(n <= (s + 1) * (s + 1));
            lemma_square_strict(s + 1 as int, s + 2 as int);
            let t = isqrt(n);
            assert(t == s + 1);
            assert(t * t <= n);
            assert(n < (t + 1) * (t + 1));
        } else {
            let t = isqrt(n);
            assert(t == s);
            assert(t * t <= m);
            assert(n < (t + 1) * (t + 1));
        }
    }
}

/// The bracketing square root is unique.
pub proof fn lemma_isqrt_unique(n: nat, s: nat)
    requires
        s * s <= n,
        n < (s + 1) * (s + 1),
    ensures
        isqrt(n) == s,
{
    lemma_isqrt_bounds(n);
    let t = isqrt(n);
    if t < s {
        lemma_square_mono(t + 1 as int, s as int);
    } else if t > s {
        lemma_square_mono(s + 1 as int, t as int);
    }
}

/// Exact square root of a `u32`.
pub fn isqrt_u32(n: u32) -> (s: u32)
    ensures
        s as nat == isqrt(n as nat),
        s <= 65535,
{
    let mut lo: u64 = 0;
    let mut hi: u64 = 65536;
    assert(65536 * 65536 > u32::MAX);
    while hi - lo > 1
        invariant
            lo < hi <= 65536,
            lo * lo <= n,
            n < hi * hi,
        decreases hi - lo,
    {
        let mid = lo + (hi - lo) / 2;
        assert(mid * mid <= 65536 * 65536) by {
            lemma_square_mono(mid as int, 65536);
        }
        if mid * mid <= n as u64 {
            lo = mid;
        } else {
            hi = mid;
        }
    }
    proof {
        lemma_isqrt_unique(n as nat, lo as nat);
        if lo >= 65536 {
            lemma_square_mono(65536, lo as int);
        }
    }
    lo as u32
}

/// Exact square root of a `u64`.
pub fn isqrt_u64(n: u64) -> (s: u64)
    ensures
        s as nat == isqrt(n as nat),
        s < 0x1_0000_0000,
{
    let mut lo: u128 = 0;
    let mut hi: u128 = 0x1_0000_0000;
    assert(0x1_0000_0000 * 0x1_0000_0000 > u64::MAX);
    while hi - lo > 1
        invariant
            lo < hi <= 0x1_0000_0000,
            lo * lo <= n,
            n < hi * hi,
        decreases hi - lo,
    {
        let mid = lo + (hi - lo) / 2;
        assert(mid * mid <= 0x1_0000_0000 * 0x1_0000_0000) by {
            lemma_square_mono(mid as int, 0x1_0000_0000);
        }
        if mid * mid <= n as u128 {
            lo = mid;
        } else {
            hi = mid;
        }
    }
    proof {
        lemma_isqrt_unique(n as nat, lo as nat);
    }
    lo as u64
}

pub open spec fn abs(x: int) -> int {
    if x < 0 {
        -x
    } else {
        x
    }
}

pub open spec fn max(a: int, b: int) -> int {
    if a < b {
        b
    } else {
        a
    }
}

/// Chebyshev radius `max(|x|, |y|)`.
pub open spec fn chebyshev(x: int, y: int) -> int {
    max(abs(x), abs(y))
}

// ---------------------------------------------------------------------------------------------
// Rings
// ---------------------------------------------------------------------------------------------

/// First index on Chebyshev ring `r` (`(2r - 1)^2`, and `0` for the origin ring).
pub open spec fn ring_start(r: int) -> int {
    if r <= 0 {
        0
    } else {
        (2 * r - 1) * (2 * r - 1)
    }
}

/// Ring of a spiral index: `(isqrt(i) + 1) / 2`.
pub open spec fn ring_of(i: nat) -> nat {
    if i == 0 {
        0
    } else {
        ((isqrt(i) + 1) / 2) as nat
    }
}

/// `ring_start(r + 1) == ring_start(r) + 8r` for `r >= 1`.
pub proof fn lemma_ring_span(r: int)
    requires
        r >= 1,
    ensures
        ring_start(r + 1) == ring_start(r) + 8 * r,
        (2 * r + 1) * (2 * r + 1) == (2 * r - 1) * (2 * r - 1) + 8 * r,
{
    assert((2 * r + 1) * (2 * r + 1) == (2 * r - 1) * (2 * r - 1) + 8 * r) by (nonlinear_arith);
}

/// A positive index lies in its ring: `ring_start(r) <= i < ring_start(r + 1)`.
pub proof fn lemma_ring_of_bounds(i: nat)
    requires
        i > 0,
    ensures
        ring_of(i) >= 1,
        ring_start(ring_of(i) as int) <= i,
        i < ring_start(ring_of(i) + 1 as int),
{
    lemma_isqrt_bounds(i);
    let s = isqrt(i);
    if s == 0 {
        assert((s + 1) * (s + 1) == 1) by (nonlinear_arith)
            requires
                s == 0,
        ;
        assert(i < 1);
    }
    let r = ring_of(i) as int;
    assert(r >= 1);
    lemma_ring_span(r);
    if s == 2 * r - 1 {
        lemma_square_strict(2 * r, 2 * r + 1);
        lemma_square_strict(s as int, 2 * r);
    } else {
        assert(s == 2 * r);
        lemma_square_mono(2 * r - 1, 2 * r);
    }
}

/// The ring bracketing an index is unique.
pub proof fn lemma_ring_of_unique(i: nat, r: int)
    requires
        r >= 1,
        ring_start(r) <= i < ring_start(r + 1),
    ensures
        ring_of(i) == r,
{
    lemma_square_mono(1, 2 * r - 1);
    lemma_ring_of_bounds(i);
    let q = ring_of(i) as int;
    if q < r {
        lemma_square_mono(2 * q + 1, 2 * r - 1);
    } else if q > r {
        lemma_square_mono(2 * r + 1, 2 * q - 1);
    }
}

/// The last ring reachable from a `u32` index is `32768`.
pub proof fn lemma_ring_bound(r: int)
    requires
        r >= 1,
        ring_start(r) <= u32::MAX,
    ensures
        r <= 32768,
{
    if r > 32768 {
        lemma_square_mono(65535, 2 * r - 1);
        assert(65535 * 65535 == 4294836225int);
        assert(2 * r - 1 >= 65537);
        lemma_square_strict(65536, 2 * r - 1);
        assert(65536 * 65536 == 0x1_0000_0000int);
    }
}

/// Grid cell at perimeter offset `off` (`0 <= off < 8r`) of ring `r >= 1`.
pub open spec fn ring_offset_xy(r: int, off: int) -> (int, int) {
    let side = 2 * r;
    if off < side {
        (r, -r + 1 + off)
    } else if off < 2 * side {
        (r - 1 - (off - side), r)
    } else if off < 3 * side {
        (-r, r - 1 - (off - 2 * side))
    } else {
        (-r + 1 + (off - 3 * side), -r)
    }
}

/// Perimeter offset of a cell on its own ring (`r = chebyshev(x, y) >= 1`).
pub open spec fn xy_ring_offset(x: int, y: int) -> int {
    let r = chebyshev(x, y);
    let side = 2 * r;
    if x == r && y >= -r + 1 {
        y + r - 1
    } else if y == r {
        side + (r - 1 - x)
    } else if x == -r {
        2 * side + (r - 1 - y)
    } else {
        3 * side + (x + r - 1)
    }
}

/// Cell of a spiral index.
pub open spec fn spiral_xy(i: nat) -> (int, int) {
    if i == 0 {
        (0, 0)
    } else {
        let r = ring_of(i) as int;
        ring_offset_xy(r, i - ring_start(r))
    }
}

/// Spiral index of a cell.
pub open spec fn spiral_index(x: int, y: int) -> int {
    if x == 0 && y == 0 {
        0
    } else {
        ring_start(chebyshev(x, y)) + xy_ring_offset(x, y)
    }
}

/// Successor cell along the counterclockwise spiral.
pub open spec fn spiral_step_spec(x: int, y: int) -> (int, int) {
    if x == 0 && y == 0 {
        (1, 0)
    } else {
        let w = chebyshev(x, y);
        if y == -w {
            (x + 1, y)
        } else if x == -w {
            (x, y - 1)
        } else if y == w {
            (x - 1, y)
        } else {
            (x, y + 1)
        }
    }
}

/// Ring/offset of every cell: an offset on its ring and the inverse of [`ring_offset_xy`].
pub proof fn lemma_ring_offset_xy_inverse(r: int, off: int)
    requires
        r >= 1,
        0 <= off < 8 * r,
    ensures
        chebyshev(ring_offset_xy(r, off).0, ring_offset_xy(r, off).1) == r,
        xy_ring_offset(ring_offset_xy(r, off).0, ring_offset_xy(r, off).1) == off,
{
}

pub proof fn lemma_xy_ring_offset_inverse(x: int, y: int)
    requires
        !(x == 0 && y == 0),
    ensures
        chebyshev(x, y) >= 1,
        0 <= xy_ring_offset(x, y) < 8 * chebyshev(x, y),
        ring_offset_xy(chebyshev(x, y), xy_ring_offset(x, y)) == (x, y),
{
}

// ---------------------------------------------------------------------------------------------
// Laws
// ---------------------------------------------------------------------------------------------

/// Every index maps to a cell that maps back to the same index.
pub proof fn lemma_spiral_index_of_xy(i: nat)
    ensures
        spiral_index(spiral_xy(i).0, spiral_xy(i).1) == i,
{
    if i > 0 {
        lemma_ring_of_bounds(i);
        let r = ring_of(i) as int;
        lemma_ring_span(r);
        lemma_ring_offset_xy_inverse(r, i - ring_start(r));
    }
}

/// Every cell has an index, and that index maps back to the same cell.
pub proof fn lemma_spiral_xy_of_index(x: int, y: int)
    ensures
        spiral_index(x, y) >= 0,
        spiral_xy(spiral_index(x, y) as nat) == (x, y),
{
    if !(x == 0 && y == 0) {
        lemma_xy_ring_offset_inverse(x, y);
        let r = chebyshev(x, y);
        lemma_ring_span(r);
        let i = spiral_index(x, y);
        assert(i >= ring_start(r));
        assert(ring_start(r) >= 1) by {
            lemma_square_mono(1, 2 * r - 1);
        }
        lemma_ring_of_unique(i as nat, r);
    }
}

/// Distinct indices occupy distinct cells.
pub proof fn lemma_spiral_xy_injective(i: nat, j: nat)
    requires
        spiral_xy(i) == spiral_xy(j),
    ensures
        i == j,
{
    lemma_spiral_index_of_xy(i);
    lemma_spiral_index_of_xy(j);
}

/// Stepping from the cell of `i` reaches the cell of `i + 1`.
pub proof fn lemma_spiral_step(i: nat)
    ensures
        spiral_step_spec(spiral_xy(i).0, spiral_xy(i).1) == spiral_xy(i + 1),
{
    if i == 0 {
        lemma_ring_span(1);
        assert((2 * 1 - 1) * (2 * 1 - 1) == 1) by (nonlinear_arith);
        assert((2 * 2 - 1) * (2 * 2 - 1) == 9) by (nonlinear_arith);
        lemma_ring_of_unique(1, 1);
    } else {
        lemma_ring_of_bounds(i);
        let r = ring_of(i) as int;
        lemma_ring_span(r);
        let off = i - ring_start(r);
        lemma_ring_offset_xy_inverse(r, off);
        if i + 1 < ring_start(r + 1) {
            lemma_ring_of_unique(i + 1, r);
        } else {
            lemma_ring_span(r + 1);
            lemma_ring_of_unique(i + 1, r + 1);
        }
    }
}

// ---------------------------------------------------------------------------------------------
// Executable conversions
// ---------------------------------------------------------------------------------------------

/// Position on the square spiral as ring + offset along that ring's perimeter (index 0 = center).
#[derive(Clone, Copy, Debug, PartialEq, Eq, Structural)]
pub struct RingOffset {
    pub ring: u32,
    /// Offset from `inner_side²` for this ring (`0` at center).
    pub offset: u32,
}

/// Ring/offset of a spiral index (`(0, 0)` for the origin).
pub open spec fn spec_index_ring_offset(i: nat) -> (int, int) {
    if i == 0 {
        (0, 0)
    } else {
        (ring_of(i) as int, i - ring_start(ring_of(i) as int))
    }
}

/// Ring/offset of a cell (`(0, 0)` for the origin).
pub open spec fn spec_xy_ring_offset(x: int, y: int) -> (int, int) {
    if x == 0 && y == 0 {
        (0, 0)
    } else {
        (chebyshev(x, y), xy_ring_offset(x, y))
    }
}

/// Ring of a positive `u32` index, with its bracket.
fn ring_for_index(index: u32) -> (ring: u32)
    requires
        index > 0,
    ensures
        ring as nat == ring_of(index as nat),
        1 <= ring <= 32768,
        ring_start(ring as int) <= index < ring_start(ring + 1 as int),
        (2 * ring - 1) * (2 * ring - 1) <= index,
{
    let s = isqrt_u32(index);
    proof {
        lemma_ring_of_bounds(index as nat);
    }
    let ring = (s + 1) / 2;
    proof {
        lemma_ring_bound(ring as int);
    }
    ring
}

/// Grid cell for ring `ring` and perimeter offset `offset` (`offset < 8 * ring`).
pub fn index_to_xy_ring_offset(ring: u32, offset: u32) -> (xy: (i32, i32))
    requires
        1 <= ring <= 32768,
        offset < 8 * ring,
    ensures
        (xy.0 as int, xy.1 as int) == ring_offset_xy(ring as int, offset as int),
{
    let ring_i = ring as i32;
    let side_len = 2 * ring;
    if offset < side_len {
        return (ring_i, -ring_i + 1 + offset as i32);
    }
    if offset < 2 * side_len {
        return (ring_i - 1 - (offset - side_len) as i32, ring_i);
    }
    if offset < 3 * side_len {
        return (-ring_i, ring_i - 1 - (offset - 2 * side_len) as i32);
    }
    (-ring_i + 1 + (offset - 3 * side_len) as i32, -ring_i)
}

/// Spiral index → grid coordinates (x east, y north).
pub fn index_to_xy(index: u32) -> (xy: (i32, i32))
    ensures
        (xy.0 as int, xy.1 as int) == spiral_xy(index as nat),
        -32768 <= xy.0 <= 32768,
        -32768 <= xy.1 <= 32768,
{
    if index == 0 {
        return (0, 0);
    }
    let ring = ring_for_index(index);
    proof {
        lemma_ring_span(ring as int);
    }
    let inner_side = 2 * ring - 1;
    let start = inner_side * inner_side;
    let offset = index - start;
    index_to_xy_ring_offset(ring, offset)
}

/// Spiral index of a cell, for cells whose index fits in a `u32`.
pub open spec fn xy_in_u32_domain(x: int, y: int) -> bool {
    spiral_index(x, y) <= u32::MAX
}

/// Ring of a cell inside the `u32` domain is at most `32768`.
pub proof fn lemma_xy_domain_ring(x: int, y: int)
    requires
        xy_in_u32_domain(x, y),
    ensures
        chebyshev(x, y) <= 32768,
        -32768 <= x <= 32768,
        -32768 <= y <= 32768,
{
    if !(x == 0 && y == 0) {
        lemma_xy_ring_offset_inverse(x, y);
        lemma_ring_bound(chebyshev(x, y));
    }
}

/// Ring/offset of a cell computed from its coordinates.
fn ring_offset_of_xy(x: i32, y: i32) -> (ro: (u32, u32))
    requires
        !(x == 0 && y == 0),
        chebyshev(x as int, y as int) <= 32768,
    ensures
        ro.0 as int == chebyshev(x as int, y as int),
        ro.1 as int == xy_ring_offset(x as int, y as int),
        1 <= ro.0 <= 32768,
        ro.1 < 8 * ro.0,
{
    proof {
        lemma_xy_ring_offset_inverse(x as int, y as int);
    }
    let ax = if x < 0 { -x } else { x };
    let ay = if y < 0 { -y } else { y };
    let ring_i = if ax < ay { ay } else { ax };
    let ring = ring_i as u32;
    let side_len = 2 * ring;
    let offset = if x == ring_i && y >= -ring_i + 1 {
        (y + ring_i - 1) as u32
    } else if y == ring_i {
        side_len + (ring_i - 1 - x) as u32
    } else if x == -ring_i {
        2 * side_len + (ring_i - 1 - y) as u32
    } else {
        3 * side_len + (x + ring_i - 1) as u32
    };
    (ring, offset)
}

/// Grid coordinates → spiral index.
pub fn xy_to_index(x: i32, y: i32) -> (index: u32)
    requires
        xy_in_u32_domain(x as int, y as int),
    ensures
        index as int == spiral_index(x as int, y as int),
{
    if x == 0 && y == 0 {
        return 0;
    }
    proof {
        lemma_xy_domain_ring(x as int, y as int);
    }
    let (ring, offset) = ring_offset_of_xy(x, y);
    let inner_side = 2 * ring - 1;
    assert(inner_side * inner_side <= u32::MAX) by {
        lemma_square_mono(inner_side as int, 65535);
    }
    let start = inner_side * inner_side;
    start + offset
}

/// Decode a spiral index into ring/offset form (inverse of [`ring_offset_to_index`]).
pub fn index_to_ring_offset(index: u32) -> (ro: RingOffset)
    ensures
        (ro.ring as int, ro.offset as int) == spec_index_ring_offset(index as nat),
        index > 0 ==> 1 <= ro.ring <= 32768 && ro.offset < 8 * ro.ring,
{
    if index == 0 {
        return RingOffset { ring: 0, offset: 0 };
    }
    let ring = ring_for_index(index);
    proof {
        lemma_ring_span(ring as int);
    }
    let inner_side = 2 * ring - 1;
    RingOffset { ring, offset: index - inner_side * inner_side }
}

/// Index encoded by a ring/offset pair (`0` for ring `0`, whatever the offset).
pub open spec fn spec_ring_offset_index(ring: int, offset: int) -> int {
    if ring == 0 {
        0
    } else {
        ring_start(ring) + offset
    }
}

/// Encode ring/offset back to a spiral index.
pub fn ring_offset_to_index(ro: RingOffset) -> (index: u32)
    requires
        spec_ring_offset_index(ro.ring as int, ro.offset as int) <= u32::MAX,
    ensures
        index as int == spec_ring_offset_index(ro.ring as int, ro.offset as int),
{
    if ro.ring == 0 {
        return 0;
    }
    proof {
        lemma_ring_bound(ro.ring as int);
        lemma_square_mono(2 * ro.ring - 1, 65535);
    }
    let inner_side = 2 * ro.ring - 1;
    inner_side * inner_side + ro.offset
}

/// Grid coordinates → ring/offset (same geometry as [`xy_to_index`], without forming the index).
pub fn xy_to_ring_offset(x: i32, y: i32) -> (ro: RingOffset)
    requires
        chebyshev(x as int, y as int) <= 32768,
    ensures
        (ro.ring as int, ro.offset as int) == spec_xy_ring_offset(x as int, y as int),
{
    if x == 0 && y == 0 {
        return RingOffset { ring: 0, offset: 0 };
    }
    let (ring, offset) = ring_offset_of_xy(x, y);
    RingOffset { ring, offset }
}

/// Ring/offset of a cell equals ring/offset of its index.
pub proof fn lemma_ring_offset_agrees(x: int, y: int)
    ensures
        spec_index_ring_offset(spiral_index(x, y) as nat) == spec_xy_ring_offset(x, y),
        spec_ring_offset_index(spec_xy_ring_offset(x, y).0, spec_xy_ring_offset(x, y).1)
            == spiral_index(x, y),
{
    lemma_spiral_xy_of_index(x, y);
    if !(x == 0 && y == 0) {
        lemma_xy_ring_offset_inverse(x, y);
        let r = chebyshev(x, y);
        lemma_ring_span(r);
        assert(ring_start(r) >= 1) by {
            lemma_square_mono(1, 2 * r - 1);
        }
        lemma_ring_of_unique(spiral_index(x, y) as nat, r);
    }
}

/// Encoding the ring/offset of an index gives the index back.
pub proof fn lemma_ring_offset_round_trip(i: nat)
    ensures
        spec_ring_offset_index(spec_index_ring_offset(i).0, spec_index_ring_offset(i).1) == i,
{
    if i > 0 {
        lemma_ring_of_bounds(i);
    }
}

/// The spiral step from `xy` stays in `i32`: neither coordinate is `i32::MIN` (whose absolute
/// value overflows), and `xy` is not `(i32::MAX, -i32::MAX)`, whose step right overflows.
pub open spec fn spiral_step_ok(xy: (i32, i32)) -> bool {
    &&& xy.0 != i32::MIN
    &&& xy.1 != i32::MIN
    &&& !(xy.0 == i32::MAX && xy.1 == -i32::MAX)
}

/// Next cell along the counterclockwise spiral.
pub fn spiral_step(xy: (i32, i32)) -> (next: (i32, i32))
    requires
        spiral_step_ok(xy),
    ensures
        (next.0 as int, next.1 as int) == spiral_step_spec(xy.0 as int, xy.1 as int),
{
    let (x, y) = xy;
    if x == 0 && y == 0 {
        return (1, 0);
    }
    let ax = if x < 0 { -x } else { x };
    let ay = if y < 0 { -y } else { y };
    let w = if ax < ay { ay } else { ax };
    if y == -w {
        (x + 1, y)
    } else if x == -w {
        (x, y - 1)
    } else if y == w {
        (x - 1, y)
    } else {
        (x, y + 1)
    }
}

} // verus!
