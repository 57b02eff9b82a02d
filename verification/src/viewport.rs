//! Board rectangles in cell coordinates: their size, overlap, the rectangle around a placement
//! history, and how far along the visit order a rectangle reaches.

use vstd::prelude::*;
use crate::index_order::VisitOrder;
use crate::model::PieceId;

verus! {

/// Visit indices scanned past the last one visible, so the rectangle's border fills in.
pub const INDEX_MARGIN: u32 = 24;

/// An axis-aligned rectangle of cells, bounds inclusive.
#[derive(Clone, Copy, Debug, PartialEq, Eq, Structural)]
pub struct GridBounds {
    pub min_x: i32,
    pub max_x: i32,
    pub min_y: i32,
    pub max_y: i32,
}

pub open spec fn spec_min(a: int, b: int) -> int {
    if a < b { a } else { b }
}

pub open spec fn spec_max(a: int, b: int) -> int {
    if a < b { b } else { a }
}

impl GridBounds {
    pub open spec fn spec_width(&self) -> int {
        self.max_x - self.min_x + 1
    }

    pub open spec fn spec_height(&self) -> int {
        self.max_y - self.min_y + 1
    }

    /// Width and height fit in `i32`.
    pub open spec fn size_fits(&self) -> bool {
        self.spec_width() <= i32::MAX && self.spec_height() <= i32::MAX
            && self.spec_width() >= i32::MIN && self.spec_height() >= i32::MIN
    }

    pub fn cell_width(&self) -> (w: i32)
        requires
            self.spec_width() <= i32::MAX,
            self.spec_width() >= i32::MIN,
        ensures
            w == self.spec_width(),
    {
        (self.max_x as i64 - self.min_x as i64 + 1) as i32
    }

    pub fn cell_height(&self) -> (h: i32)
        requires
            self.spec_height() <= i32::MAX,
            self.spec_height() >= i32::MIN,
        ensures
            h == self.spec_height(),
    {
        (self.max_y as i64 - self.min_y as i64 + 1) as i32
    }

    /// Cells in the rectangle (zero when it is empty).
    pub fn cell_count(&self) -> (n: u64)
        requires
            self.size_fits(),
        ensures
            n == spec_max(self.spec_width(), 0) * spec_max(self.spec_height(), 0),
    {
        let w = self.cell_width();
        let h = self.cell_height();
        let w = if w < 0 { 0u64 } else { w as u64 };
        let h = if h < 0 { 0u64 } else { h as u64 };
        proof {
            assert(w * h <= 0x7FFF_FFFF * 0x7FFF_FFFF) by (nonlinear_arith)
                requires
                    w <= 0x7FFF_FFFF,
                    h <= 0x7FFF_FFFF,
            ;
        }
        w * h
    }

    /// Overlap of two rectangles, or `None` if they are disjoint.
    pub fn intersect(self, other: Self) -> (overlap: Option<Self>)
        ensures
            ({
                let r = GridBounds {
                    min_x: spec_max(self.min_x as int, other.min_x as int) as i32,
                    max_x: spec_min(self.max_x as int, other.max_x as int) as i32,
                    min_y: spec_max(self.min_y as int, other.min_y as int) as i32,
                    max_y: spec_min(self.max_y as int, other.max_y as int) as i32,
                };
                overlap == if r.min_x > r.max_x || r.min_y > r.max_y { None } else { Some(r) }
            }),
    {
        let min_x = if self.min_x < other.min_x { other.min_x } else { self.min_x };
        let max_x = if self.max_x < other.max_x { self.max_x } else { other.max_x };
        let min_y = if self.min_y < other.min_y { other.min_y } else { self.min_y };
        let max_y = if self.max_y < other.max_y { self.max_y } else { other.max_y };
        if min_x > max_x || min_y > max_y {
            return None;
        }
        Some(Self { min_x, max_x, min_y, max_y })
    }
}

/// Grid size in cells for a texture of `bounds`, at least one each way.
pub fn grid_texture_size(bounds: GridBounds) -> (size: (u32, u32))
    requires
        bounds.size_fits(),
    ensures
        size.0 == spec_max(bounds.spec_width(), 1),
        size.1 == spec_max(bounds.spec_height(), 1),
{
    let w = bounds.cell_width();
    let h = bounds.cell_height();
    let w = if w < 1 { 1 } else { w };
    let h = if h < 1 { 1 } else { h };
    (w as u32, h as u32)
}

/// Smallest and largest x and y over the cells of the placements `ps`.
pub open spec fn cells_extent(ps: Seq<(u32, PieceId)>, order: VisitOrder) -> (int, int, int, int)
    decreases ps.len(),
{
    if ps.len() == 0 {
        (i32::MAX as int, i32::MIN as int, i32::MAX as int, i32::MIN as int)
    } else {
        let e = cells_extent(ps.drop_last(), order);
        let c = order.spec_index_to_xy(ps.last().0 as nat);
        (spec_min(e.0, c.0), spec_max(e.1, c.0), spec_min(e.2, c.1), spec_max(e.3, c.1))
    }
}

/// Rectangle around the cells of `ps`, grown by `padding` on every side; with no placement, the
/// square of half-side `padding` around the origin.
pub open spec fn spec_bounds_of(ps: Seq<(u32, PieceId)>, order: VisitOrder, padding: int) -> (int, int, int, int) {
    if ps.len() == 0 {
        (-padding, padding, -padding, padding)
    } else {
        let e = cells_extent(ps, order);
        (e.0 - padding, e.1 + padding, e.2 - padding, e.3 + padding)
    }
}

proof fn lemma_extent_bounded(ps: Seq<(u32, PieceId)>, order: VisitOrder)
    requires
        ps.len() > 0,
    ensures
        -46341 <= cells_extent(ps, order).0 <= 46341,
        -46341 <= cells_extent(ps, order).1 <= 46341,
        -46341 <= cells_extent(ps, order).2 <= 46341,
        -46341 <= cells_extent(ps, order).3 <= 46341,
    decreases ps.len(),
{
    crate::index_order::lemma_order_xy_bounded(order, ps.last().0 as nat);
    let c = order.spec_index_to_xy(ps.last().0 as nat);
    if ps.len() > 1 {
        lemma_extent_bounded(ps.drop_last(), order);
    } else {
        assert(ps.drop_last().len() == 0);
        assert(cells_extent(ps.drop_last(), order) == (i32::MAX as int, i32::MIN as int, i32::MAX as int, i32::MIN as int));
    }
    assert(crate::spiral::abs(c.0) <= 46341 && crate::spiral::abs(c.1) <= 46341);
}

/// The rectangle around the placements' cells, grown by `padding`.
pub fn grid_bounds_from_placements(placements: &[(u32, PieceId)], order: VisitOrder, padding: i32) -> (bounds: GridBounds)
    requires
        -0x7FFF_0000 <= padding <= 0x7FFF_0000,
    ensures
        (bounds.min_x as int, bounds.max_x as int, bounds.min_y as int, bounds.max_y as int)
            == spec_bounds_of(placements@, order, padding as int),
{
    if placements.len() == 0 {
        return GridBounds { min_x: -padding, max_x: padding, min_y: -padding, max_y: padding };
    }
    let ghost ps = placements@;
    let mut min_x = i32::MAX;
    let mut max_x = i32::MIN;
    let mut min_y = i32::MAX;
    let mut max_y = i32::MIN;
    let mut i: usize = 0;
    while i < placements.len()
        invariant
            ps == placements@,
            i <= ps.len(),
            (min_x as int, max_x as int, min_y as int, max_y as int) == cells_extent(ps.take(i as int), order),
        decreases placements.len() - i,
    {
        let entry = placements[i];
        let (x, y) = order.index_to_xy(entry.0);
        proof {
            assert(ps.take(i + 1).drop_last() == ps.take(i as int));
            assert(ps.take(i + 1).last() == entry);
        }
        if x < min_x {
            min_x = x;
        }
        if x > max_x {
            max_x = x;
        }
        if y < min_y {
            min_y = y;
        }
        if y > max_y {
            max_y = y;
        }
        i += 1;
    }
    proof {
        assert(ps.take(ps.len() as int) == ps);
        lemma_extent_bounded(ps, order);
    }
    GridBounds { min_x: min_x - padding, max_x: max_x + padding, min_y: min_y - padding, max_y: max_y + padding }
}

/// Cell `(x, y)` lies on the border of `b`.
pub open spec fn on_border(b: GridBounds, x: int, y: int) -> bool {
    &&& b.min_x <= x <= b.max_x
    &&& b.min_y <= y <= b.max_y
    &&& (x == b.min_x || x == b.max_x || y == b.min_y || y == b.max_y)
}

/// Every border cell of `b` has a visit index that fits in `u32`.
pub open spec fn border_in_domain(b: GridBounds, order: VisitOrder) -> bool {
    forall|x: int, y: int| on_border(b, x, y) ==> #[trigger] order.spec_xy_to_index(x, y) <= u32::MAX
}

/// `m` is the largest visit index on the border of `b` (zero for an empty rectangle).
pub open spec fn is_border_max(b: GridBounds, order: VisitOrder, m: int) -> bool {
    &&& forall|x: int, y: int| on_border(b, x, y) ==> #[trigger] order.spec_xy_to_index(x, y) <= m
    &&& (m == 0 || exists|x: int, y: int| on_border(b, x, y) && #[trigger] order.spec_xy_to_index(x, y) == m)
}

/// Largest visit index on the border of `bounds` (zero for an empty rectangle).
fn max_visible_index_for_order(bounds: GridBounds, order: VisitOrder) -> (max_index: u32)
    requires
        border_in_domain(bounds, order),
    ensures
        is_border_max(bounds, order, max_index as int),
{
    let mut max_index: u32 = 0;
    if bounds.min_x > bounds.max_x || bounds.min_y > bounds.max_y {
        return 0;
    }
    let mut x: i64 = bounds.min_x as i64;
    while x <= bounds.max_x as i64
        invariant
            border_in_domain(bounds, order),
            bounds.min_x <= x <= bounds.max_x + 1,
            bounds.min_x <= bounds.max_x,
            bounds.min_y <= bounds.max_y,
            forall|u: int, y: int| bounds.min_x <= u < x && (y == bounds.min_y || y == bounds.max_y) ==> #[trigger] order.spec_xy_to_index(u, y) <= max_index,
            max_index == 0 || exists|u: int, y: int| on_border(bounds, u, y) && #[trigger] order.spec_xy_to_index(u, y) == max_index,
        decreases bounds.max_x + 1 - x,
    {
        let xi = x as i32;
        assert(on_border(bounds, xi as int, bounds.min_y as int));
        assert(on_border(bounds, xi as int, bounds.max_y as int));
        let a = order.xy_to_index(xi, bounds.min_y);
        if a > max_index {
            max_index = a;
        }
        let b = order.xy_to_index(xi, bounds.max_y);
        if b > max_index {
            max_index = b;
        }
        x = x + 1;
    }
    let mut y: i64 = bounds.min_y as i64;
    while y <= bounds.max_y as i64
        invariant
            border_in_domain(bounds, order),
            bounds.min_x <= bounds.max_x,
            bounds.min_y <= y <= bounds.max_y + 1,
            forall|u: int, v: int| bounds.min_x <= u <= bounds.max_x && (v == bounds.min_y || v == bounds.max_y) ==> #[trigger] order.spec_xy_to_index(u, v) <= max_index,
            forall|u: int, v: int| bounds.min_y <= v < y && (u == bounds.min_x || u == bounds.max_x) ==> #[trigger] order.spec_xy_to_index(u, v) <= max_index,
            max_index == 0 || exists|u: int, v: int| on_border(bounds, u, v) && #[trigger] order.spec_xy_to_index(u, v) == max_index,
        decreases bounds.max_y + 1 - y,
    {
        let yi = y as i32;
        assert(on_border(bounds, bounds.min_x as int, yi as int));
        assert(on_border(bounds, bounds.max_x as int, yi as int));
        let a = order.xy_to_index(bounds.min_x, yi);
        if a > max_index {
            max_index = a;
        }
        let b = order.xy_to_index(bounds.max_x, yi);
        if b > max_index {
            max_index = b;
        }
        y = y + 1;
    }
    max_index
}

/// Visit index up to which the simulation must run to fill `bounds` along `order`.
pub fn visit_target_index_for_bounds(bounds: GridBounds, order: VisitOrder) -> (target: u32)
    requires
        border_in_domain(bounds, order),
    ensures
        exists|m: int| #[trigger] is_border_max(bounds, order, m) && target == spec_min(m + INDEX_MARGIN, u32::MAX as int),
{
    let m = max_visible_index_for_order(bounds, order);
    assert(is_border_max(bounds, order, m as int));
    m.saturating_add(INDEX_MARGIN)
}

/// [`visit_target_index_for_bounds`] along the square spiral.
pub fn spiral_target_index_for_bounds(bounds: GridBounds) -> (target: u32)
    requires
        border_in_domain(bounds, VisitOrder::SquareSpiral),
    ensures
        exists|m: int| #[trigger] is_border_max(bounds, VisitOrder::SquareSpiral, m) && target == spec_min(m + INDEX_MARGIN, u32::MAX as int),
{
    let t = visit_target_index_for_bounds(bounds, VisitOrder::SquareSpiral);
    t
}

} // verus!
