//! Editing attack patterns: toggling squares, shifting with wrap-around, reflecting and
//! rotating. Every edit leaves the pattern normalised: sorted by `(x, y)` without duplicates.

use vstd::prelude::*;
use crate::model::{Piece, PieceId};
use crate::random_source::{random_i32_inclusive, random_index_below};
use rand::rngs::StdRng;

verus! {

/// Lexicographic order on moves, `(x, y)` as in a sort by key `(x, y)`.
pub open spec fn move_lt(a: (i32, i32), b: (i32, i32)) -> bool {
    a.0 < b.0 || (a.0 == b.0 && a.1 < b.1)
}

/// Strictly increasing: sorted and free of duplicates.
pub open spec fn strictly_sorted(s: Seq<(i32, i32)>) -> bool {
    forall|i: int, j: int| 0 <= i < j < s.len() ==> move_lt(#[trigger] s[i], #[trigger] s[j])
}

/// Two move lists hold the same moves.
pub open spec fn same_moves(a: Seq<(i32, i32)>, b: Seq<(i32, i32)>) -> bool {
    forall|m: (i32, i32)| a.contains(m) <==> b.contains(m)
}

/// A normalised move list: the strictly sorted list of the moves in `s`.
pub open spec fn normalized_of(r: Seq<(i32, i32)>, s: Seq<(i32, i32)>) -> bool {
    strictly_sorted(r) && same_moves(r, s)
}

/// No component is `i32::MIN`, so every move can be negated and measured.
pub open spec fn moves_negatable(s: Seq<(i32, i32)>) -> bool {
    forall|i: int| 0 <= i < s.len() ==> s[i].0 != i32::MIN && s[i].1 != i32::MIN
}

pub open spec fn is_origin(m: (i32, i32)) -> bool {
    m.0 == 0 && m.1 == 0
}

/// Chebyshev length of a move.
pub open spec fn move_radius(m: (i32, i32)) -> int {
    crate::spiral::chebyshev(m.0 as int, m.1 as int)
}

/// Largest Chebyshev length among the moves (`0` for none).
pub open spec fn max_radius(s: Seq<(i32, i32)>) -> int
    decreases s.len(),
{
    if s.len() == 0 {
        0
    } else {
        crate::spiral::max(max_radius(s.drop_last()), move_radius(s.last()))
    }
}

pub proof fn lemma_max_radius_bounds(s: Seq<(i32, i32)>)
    ensures
        max_radius(s) >= 0,
        forall|i: int| 0 <= i < s.len() ==> move_radius(#[trigger] s[i]) <= max_radius(s),
        s.len() > 0 ==> exists|i: int| 0 <= i < s.len() && move_radius(#[trigger] s[i]) == max_radius(s),
    decreases s.len(),
{
    if s.len() > 0 {
        lemma_max_radius_bounds(s.drop_last());
        assert forall|i: int| 0 <= i < s.len() implies move_radius(#[trigger] s[i]) <= max_radius(s) by {
            if i < s.len() - 1 {
                assert(s[i] == s.drop_last()[i]);
            }
        }
        if s.len() > 1 && max_radius(s.drop_last()) >= move_radius(s.last()) {
            let k = choose|k: int| 0 <= k < s.drop_last().len() && move_radius(#[trigger] s.drop_last()[k]) == max_radius(s.drop_last());
            assert(s[k] == s.drop_last()[k]);
        } else {
            assert(s[s.len() - 1] == s.last());
        }
    }
}

/// Extent of a move list: the largest Chebyshev length of its moves, or `1` when there are no
/// moves.
pub open spec fn extent_spec(s: Seq<(i32, i32)>) -> int {
    if s.len() == 0 {
        1
    } else {
        max_radius(s)
    }
}

/// Copy of a move list.
pub fn clone_moves(moves: &Vec<(i32, i32)>) -> (copy: Vec<(i32, i32)>)
    ensures
        copy@ == moves@,
{
    let mut copy: Vec<(i32, i32)> = Vec::new();
    let mut i: usize = 0;
    while i < moves.len()
        invariant
            i <= moves@.len(),
            copy@ == moves@.subrange(0, i as int),
        decreases moves.len() - i,
    {
        copy.push(moves[i]);
        i += 1;
    }
    assert(moves@.subrange(0, moves@.len() as int) == moves@);
    copy
}

/// Insert `m` into a strictly sorted list, keeping it strictly sorted.
fn insert_sorted(v: &mut Vec<(i32, i32)>, m: (i32, i32))
    requires
        strictly_sorted(old(v)@),
    ensures
        strictly_sorted(final(v)@),
        forall|x: (i32, i32)| #[trigger] final(v)@.contains(x) <==> (old(v)@.contains(x) || x == m),
{
    let mut p: usize = 0;
    while p < v.len() && (v[p].0 < m.0 || (v[p].0 == m.0 && v[p].1 < m.1))
        invariant
            p <= v.len(),
            forall|k: int| 0 <= k < p ==> move_lt(#[trigger] v@[k], m),
        decreases v.len() - p,
    {
        p += 1;
    }
    if p < v.len() && v[p].0 == m.0 && v[p].1 == m.1 {
        assert(v@[p as int] == m);
        assert(v@.contains(m));
        return;
    }
    let ghost before = v@;
    v.insert(p, m);
    proof {
        assert(v@ == before.insert(p as int, m));
        assert forall|i: int, j: int| 0 <= i < j < v@.len() implies move_lt(
            #[trigger] v@[i],
            #[trigger] v@[j],
        ) by {
            if j < p {
            } else if j == p {
            } else if i < p {
                assert(v@[j] == before[j - 1]);
                if j - 1 > p {
                    assert(move_lt(before[p as int], before[j - 1]));
                }
            } else if i == p {
                assert(v@[j] == before[j - 1]);
                if j - 1 > p {
                    assert(move_lt(before[p as int], before[j - 1]));
                }
            } else {
                assert(v@[i] == before[i - 1]);
                assert(v@[j] == before[j - 1]);
            }
        }
        assert forall|x: (i32, i32)| #[trigger] v@.contains(x) <==> (before.contains(x) || x == m) by {
            if v@.contains(x) {
                let k = choose|k: int| 0 <= k < v@.len() && v@[k] == x;
                if k < p {
                    assert(before[k] == x);
                } else if k > p {
                    assert(before[k - 1] == x);
                }
            }
            if before.contains(x) {
                let k = choose|k: int| 0 <= k < before.len() && before[k] == x;
                if k < p {
                    assert(v@[k] == x);
                } else {
                    assert(v@[k + 1] == x);
                }
            }
            if x == m {
                assert(v@[p as int] == m);
            }
        }
    }
}

/// Sort moves by `(x, y)` and remove duplicates.
pub fn normalize_moves(moves: &mut Vec<(i32, i32)>)
    ensures
        normalized_of(final(moves)@, old(moves)@),
{
    let mut out: Vec<(i32, i32)> = Vec::new();
    let mut i: usize = 0;
    while i < moves.len()
        invariant
            i <= moves.len(),
            strictly_sorted(out@),
            forall|x: (i32, i32)| out@.contains(x) <==> moves@.subrange(0, i as int).contains(x),
        decreases moves.len() - i,
    {
        let m = moves[i];
        insert_sorted(&mut out, m);
        proof {
            assert forall|x: (i32, i32)| out@.contains(x) <==> moves@.subrange(0, i + 1).contains(x) by {
                let s0 = moves@.subrange(0, i as int);
                let s1 = moves@.subrange(0, i + 1);
                assert(s1 == s0.push(m));
                if s0.contains(x) {
                    let k = choose|k: int| 0 <= k < s0.len() && s0[k] == x;
                    assert(s1[k] == x);
                }
                if s1.contains(x) && x != m {
                    let k = choose|k: int| 0 <= k < s1.len() && s1[k] == x;
                    assert(k < i);
                    assert(s0[k] == x);
                }
                if x == m {
                    assert(s1[i as int] == m);
                }
            }
        }
        i += 1;
    }
    assert(moves@.subrange(0, moves@.len() as int) == moves@);
    *moves = out;
}

/// Largest Chebyshev length among the moves, or `1` for an empty list.
pub fn move_extent(moves: &[(i32, i32)]) -> (extent: i32)
    requires
        moves_negatable(moves@),
    ensures
        extent as int == extent_spec(moves@),
{
    if moves.len() == 0 {
        return 1;
    }
    let mut best: i32 = 0;
    let mut i: usize = 0;
    while i < moves.len()
        invariant
            0 < moves.len(),
            i <= moves.len(),
            moves_negatable(moves@),
            best as int == max_radius(moves@.subrange(0, i as int)),
        decreases moves.len() - i,
    {
        let (x, y) = moves[i];
        let ax = if x < 0 { -x } else { x };
        let ay = if y < 0 { -y } else { y };
        let r = if ax < ay { ay } else { ax };
        proof {
            let s1 = moves@.subrange(0, i + 1);
            assert(s1.drop_last() == moves@.subrange(0, i as int));
            assert(s1.last() == moves@[i as int]);
        }
        if best < r {
            best = r;
        }
        i += 1;
    }
    assert(moves@.subrange(0, moves@.len() as int) == moves@);
    best
}

/// Grid radius used by the attack editor: the move extent, at least `1`.
pub fn attack_extent(moves: &[(i32, i32)]) -> (extent: i32)
    requires
        moves_negatable(moves@),
    ensures
        extent as int == crate::spiral::max(extent_spec(moves@), 1),
{
    let e = move_extent(moves);
    if e < 1 {
        1
    } else {
        e
    }
}

/// Shared editor radius over the pieces `ids`: the largest [`attack_extent`], or `1` for none.
pub open spec fn shared_extent_spec(armies: Seq<Piece>, ids: Seq<usize>) -> int
    decreases ids.len(),
{
    if ids.len() == 0 {
        1
    } else {
        let rest = shared_extent_spec(armies, ids.drop_last());
        let e = crate::spiral::max(extent_spec(armies[ids.last() as int].piece.valid_moves@), 1);
        if ids.len() == 1 {
            e
        } else {
            crate::spiral::max(rest, e)
        }
    }
}

pub fn shared_attack_extent_for_armies(armies: &[Piece], ids: &[usize]) -> (extent: i32)
    requires
        forall|k: int| 0 <= k < ids@.len() ==> #[trigger] ids@[k] < armies@.len(),
        forall|k: int| 0 <= k < ids@.len() ==> moves_negatable(#[trigger] armies@[ids@[k] as int].piece.valid_moves@),
    ensures
        extent as int == shared_extent_spec(armies@, ids@),
{
    let mut best: i32 = 1;
    let mut k: usize = 0;
    while k < ids.len()
        invariant
            k <= ids.len(),
            forall|k: int| 0 <= k < ids@.len() ==> #[trigger] ids@[k] < armies@.len(),
            forall|k: int| 0 <= k < ids@.len() ==> moves_negatable(#[trigger] armies@[ids@[k] as int].piece.valid_moves@),
            best as int == shared_extent_spec(armies@, ids@.subrange(0, k as int)),
        decreases ids.len() - k,
    {
        let id = ids[k];
        let e = attack_extent(armies[id].piece.valid_moves.as_slice());
        proof {
            let s1 = ids@.subrange(0, k + 1);
            assert(s1.drop_last() == ids@.subrange(0, k as int));
            assert(s1.last() == ids@[k as int]);
        }
        if k == 0 || best < e {
            best = e;
        }
        k += 1;
    }
    assert(ids@.subrange(0, ids@.len() as int) == ids@);
    best
}

/// Position of the first occurrence of `m` in `s`.
pub open spec fn is_first_index(s: Seq<(i32, i32)>, k: int, m: (i32, i32)) -> bool {
    0 <= k < s.len() && s[k] == m && forall|j: int| 0 <= j < k ==> s[j] != m
}

/// `after` is `before` with square `(x, y)` toggled: the origin is never toggled; a square not
/// in the list is added; the first occurrence of one in it is removed, unless it is the only
/// move; the result is normalised.
pub open spec fn toggled(before: Seq<(i32, i32)>, x: i32, y: i32, after: Seq<(i32, i32)>) -> bool {
    &&& x == 0 && y == 0 ==> after == before
    &&& !(x == 0 && y == 0) && !before.contains((x, y)) ==> normalized_of(after, before.push((x, y)))
    &&& !(x == 0 && y == 0) && before.contains((x, y)) && before.len() <= 1 ==> normalized_of(after, before)
    &&& !(x == 0 && y == 0) && before.contains((x, y)) && before.len() > 1
        ==> exists|k: int| #![trigger before[k]] is_first_index(before, k, (x, y))
        && normalized_of(after, before.remove(k))
}

/// Toggle one attack square: remove its first occurrence (unless it is the only move) or add
/// it, then normalise. The origin is never toggled.
pub fn toggle_square(moves: &mut Vec<(i32, i32)>, x: i32, y: i32)
    ensures
        toggled(old(moves)@, x, y, final(moves)@),
{
    if x == 0 && y == 0 {
        return;
    }
    let ghost s = moves@;
    let mut found: Option<usize> = None;
    let mut i: usize = 0;
    while i < moves.len()
        invariant
            i <= moves.len(),
            moves@ == s,
            found is None ==> forall|k: int| 0 <= k < i ==> moves@[k] != (x, y),
            found matches Some(p) ==> is_first_index(s, p as int, (x, y)),
        decreases moves.len() - i,
    {
        if found.is_none() && moves[i].0 == x && moves[i].1 == y {
            found = Some(i);
        }
        i += 1;
    }
    match found {
        Some(idx) => {
            if moves.len() > 1 {
                moves.remove(idx);
            }
        },
        None => {
            moves.push((x, y));
            proof {
                assert(!s.contains((x, y)));
            }
        },
    }
    normalize_moves(moves);
}

/// The four rigid transforms of the attack editor.
#[derive(Clone, Copy, Debug, PartialEq, Eq, Structural)]
pub enum MoveTransform {
    ReflectAcrossXAxis,
    ReflectAcrossYAxis,
    RotateCw,
    RotateCcw,
}

pub open spec fn transform_spec(t: MoveTransform, m: (i32, i32)) -> (i32, i32) {
    match t {
        MoveTransform::ReflectAcrossXAxis => (m.0, (-m.1) as i32),
        MoveTransform::ReflectAcrossYAxis => ((-m.0) as i32, m.1),
        MoveTransform::RotateCw => (m.1, (-m.0) as i32),
        MoveTransform::RotateCcw => ((-m.1) as i32, m.0),
    }
}

/// The coordinate that `t` negates: `y` for a reflection across the x axis and a
/// counter-clockwise turn, `x` for a reflection across the y axis and a clockwise turn.
pub open spec fn negated_coord(t: MoveTransform, m: (i32, i32)) -> i32 {
    match t {
        MoveTransform::ReflectAcrossXAxis => m.1,
        MoveTransform::ReflectAcrossYAxis => m.0,
        MoveTransform::RotateCw => m.0,
        MoveTransform::RotateCcw => m.1,
    }
}

/// No move of `s` has `i32::MIN` in the coordinate that `t` negates.
pub open spec fn transform_negatable(s: Seq<(i32, i32)>, t: MoveTransform) -> bool {
    forall|i: int| 0 <= i < s.len() ==> negated_coord(t, #[trigger] s[i]) != i32::MIN
}

/// The transformed pattern: the image of every non-origin result, normalised.
pub open spec fn mapped_moves(s: Seq<(i32, i32)>, t: MoveTransform, m: (i32, i32)) -> bool {
    !is_origin(m) && exists|k: int| 0 <= k < s.len() && transform_spec(t, #[trigger] s[k]) == m
}

fn map_moves(moves: &mut Vec<(i32, i32)>, t: MoveTransform)
    requires
        transform_negatable(old(moves)@, t),
    ensures
        old(moves)@.len() == 0 ==> final(moves)@ == old(moves)@,
        old(moves)@.len() > 0 ==> strictly_sorted(final(moves)@) && forall|m: (i32, i32)|
            #[trigger] final(moves)@.contains(m) <==> mapped_moves(old(moves)@, t, m),
{
    if moves.len() == 0 {
        return;
    }
    let mut out: Vec<(i32, i32)> = Vec::new();
    let mut i: usize = 0;
    while i < moves.len()
        invariant
            i <= moves.len(),
            transform_negatable(moves@, t),
            forall|m: (i32, i32)| #[trigger] out@.contains(m) <==> (!is_origin(m) && exists|k: int|
                0 <= k < i && transform_spec(t, #[trigger] moves@[k]) == m),
        decreases moves.len() - i,
    {
        let (x, y) = moves[i];
        let image = match t {
            MoveTransform::ReflectAcrossXAxis => (x, -y),
            MoveTransform::ReflectAcrossYAxis => (-x, y),
            MoveTransform::RotateCw => (y, -x),
            MoveTransform::RotateCcw => (-y, x),
        };
        assert(image == transform_spec(t, moves@[i as int]));
        let ghost o0 = out@;
        if image.0 != 0 || image.1 != 0 {
            out.push(image);
        }
        proof {
            assert forall|m: (i32, i32)| #[trigger] out@.contains(m) <==> (!is_origin(m) && exists|k: int|
                0 <= k < i + 1 && transform_spec(t, #[trigger] moves@[k]) == m) by {
                if o0.contains(m) {
                    let k = choose|k: int| 0 <= k < o0.len() && o0[k] == m;
                    assert(out@[k] == m);
                }
                if out@.contains(m) {
                    let k = choose|k: int| 0 <= k < out@.len() && out@[k] == m;
                    if k < o0.len() {
                        assert(o0[k] == m);
                        assert(o0.contains(m));
                    } else {
                        assert(m == image);
                    }
                }
                if !is_origin(m) && exists|k: int| 0 <= k < i + 1 && transform_spec(t, #[trigger] moves@[k]) == m {
                    let k = choose|k: int| 0 <= k < i + 1 && transform_spec(t, #[trigger] moves@[k]) == m;
                    if k < i {
                        assert(o0.contains(m));
                    } else {
                        assert(out@[out@.len() - 1] == m);
                    }
                }
            }
        }
        i += 1;
    }
    *moves = out;
    normalize_moves(moves);
}

pub fn reflect_across_x_axis(moves: &mut Vec<(i32, i32)>)
    requires
        transform_negatable(old(moves)@, MoveTransform::ReflectAcrossXAxis),
    ensures
        old(moves)@.len() == 0 ==> final(moves)@ == old(moves)@,
        old(moves)@.len() > 0 ==> strictly_sorted(final(moves)@) && forall|m: (i32, i32)|
            #[trigger] final(moves)@.contains(m) <==> mapped_moves(old(moves)@, MoveTransform::ReflectAcrossXAxis, m),
{
    map_moves(moves, MoveTransform::ReflectAcrossXAxis);
}

pub fn reflect_across_y_axis(moves: &mut Vec<(i32, i32)>)
    requires
        transform_negatable(old(moves)@, MoveTransform::ReflectAcrossYAxis),
    ensures
        old(moves)@.len() == 0 ==> final(moves)@ == old(moves)@,
        old(moves)@.len() > 0 ==> strictly_sorted(final(moves)@) && forall|m: (i32, i32)|
            #[trigger] final(moves)@.contains(m) <==> mapped_moves(old(moves)@, MoveTransform::ReflectAcrossYAxis, m),
{
    map_moves(moves, MoveTransform::ReflectAcrossYAxis);
}

pub fn rotate_cw(moves: &mut Vec<(i32, i32)>)
    requires
        transform_negatable(old(moves)@, MoveTransform::RotateCw),
    ensures
        old(moves)@.len() == 0 ==> final(moves)@ == old(moves)@,
        old(moves)@.len() > 0 ==> strictly_sorted(final(moves)@) && forall|m: (i32, i32)|
            #[trigger] final(moves)@.contains(m) <==> mapped_moves(old(moves)@, MoveTransform::RotateCw, m),
{
    map_moves(moves, MoveTransform::RotateCw);
}

pub fn rotate_ccw(moves: &mut Vec<(i32, i32)>)
    requires
        transform_negatable(old(moves)@, MoveTransform::RotateCcw),
    ensures
        old(moves)@.len() == 0 ==> final(moves)@ == old(moves)@,
        old(moves)@.len() > 0 ==> strictly_sorted(final(moves)@) && forall|m: (i32, i32)|
            #[trigger] final(moves)@.contains(m) <==> mapped_moves(old(moves)@, MoveTransform::RotateCcw, m),
{
    map_moves(moves, MoveTransform::RotateCcw);
}

/// `delta > 0`: index `i` takes from `i - 1`; `delta < 0`: index `i` takes from `i + 1`.
pub open spec fn shifted_source(n: int, i: int, delta: i32) -> int {
    if delta == 0 {
        i
    } else if delta > 0 {
        (i + n - 1) % n
    } else {
        (i + 1) % n
    }
}

pub fn shift_line(old: &[bool], delta: i32) -> (line: Vec<bool>)
    requires
        old@.len() <= usize::MAX / 2,
    ensures
        line@.len() == old@.len(),
        forall|i: int| 0 <= i < old@.len() ==> #[trigger] line@[i] == old@[shifted_source(old@.len() as int, i, delta)],
{
    let n = old.len();
    let mut line: Vec<bool> = Vec::new();
    if n == 0 {
        return line;
    }
    let step = if delta == 0 { 0 } else if delta > 0 { 1 } else { n - 1 };
    let mut i: usize = 0;
    while i < n
        invariant
            n == old@.len(),
            n > 0,
            i <= n,
            n <= usize::MAX / 2,
            step <= n,
            delta == 0 ==> step == 0,
            delta > 0 ==> step == 1,
            delta < 0 ==> step == n - 1,
            line@.len() == i,
            forall|k: int| 0 <= k < i ==> #[trigger] line@[k] == old@[shifted_source(n as int, k, delta)],
        decreases n - i,
    {
        let src = (i + (n - step)) % n;
        proof {
            if delta == 0 {
                assert((i + n) % (n as int) == i) by (nonlinear_arith)
                    requires
                        0 <= i < n,
                ;
            } else if delta < 0 {
                assert((i + (n - (n - 1))) % (n as int) == (i + 1) % (n as int));
            }
        }
        line.push(old[src]);
        i += 1;
    }
    line
}

/// Cell of a `(2r + 1)²` grid stored column-major as `grid[xi][yi]`, centred on the origin.
pub open spec fn grid_cell(grid: Seq<Vec<bool>>, r: int, x: int, y: int) -> bool {
    grid[x + r]@[y + r]
}

/// Non-origin moves read off the grid, row by row (`yi` outer, `xi` inner).
pub fn moves_from_grid(grid: &Vec<Vec<bool>>, r: i32) -> (moves: Vec<(i32, i32)>)
    requires
        0 <= r <= 0x3FFF_FFFF,
        grid@.len() == 2 * r + 1,
        forall|xi: int| 0 <= xi < grid@.len() ==> #[trigger] grid@[xi]@.len() == grid@.len(),
    ensures
        forall|m: (i32, i32)| #[trigger] moves@.contains(m) <==> (!is_origin(m) && -r <= m.0 <= r
            && -r <= m.1 <= r && grid_cell(grid@, r as int, m.0 as int, m.1 as int)),
{
    let size = grid.len();
    let mut moves: Vec<(i32, i32)> = Vec::new();
    let mut yi: usize = 0;
    while yi < size
        invariant
            size == grid@.len(),
            size == 2 * r + 1,
            0 <= r <= 0x3FFF_FFFF,
            yi <= size,
            forall|xi: int| 0 <= xi < grid@.len() ==> #[trigger] grid@[xi]@.len() == grid@.len(),
            forall|m: (i32, i32)| #[trigger] moves@.contains(m) <==> (!is_origin(m) && -r <= m.0 <= r
                && -r <= m.1 < yi - r && grid_cell(grid@, r as int, m.0 as int, m.1 as int)),
        decreases size - yi,
    {
        let mut xi: usize = 0;
        while xi < size
            invariant
                size == grid@.len(),
                size == 2 * r + 1,
                0 <= r <= 0x3FFF_FFFF,
                yi < size,
                xi <= size,
                forall|xi: int| 0 <= xi < grid@.len() ==> #[trigger] grid@[xi]@.len() == grid@.len(),
                forall|m: (i32, i32)| #[trigger] moves@.contains(m) <==> (!is_origin(m) && -r <= m.0 <= r
                    && -r <= m.1 <= r && grid_cell(grid@, r as int, m.0 as int, m.1 as int) && (m.1
                    < yi - r || (m.1 == yi - r && m.0 < xi - r))),
            decreases size - xi,
        {
            let ghost m0 = moves@;
            let cell = grid[xi][yi];
            let x = xi as i32 - r;
            let y = yi as i32 - r;
            if cell && (x != 0 || y != 0) {
                moves.push((x, y));
            }
            proof {
                assert forall|m: (i32, i32)| #[trigger] moves@.contains(m) <==> (!is_origin(m) && -r <= m.0
                    <= r && -r <= m.1 <= r && grid_cell(grid@, r as int, m.0 as int, m.1 as int) && (m.1
                    < yi - r || (m.1 == yi - r && m.0 < xi + 1 - r))) by {
                    if m0.contains(m) {
                        let k = choose|k: int| 0 <= k < m0.len() && m0[k] == m;
                        assert(moves@[k] == m);
                    }
                    if moves@.contains(m) {
                        let k = choose|k: int| 0 <= k < moves@.len() && moves@[k] == m;
                        if k < m0.len() {
                            assert(m0[k] == m);
                            assert(m0.contains(m));
                        }
                    }
                    if m == (x, y) && cell && !is_origin(m) {
                        assert(moves@[moves@.len() - 1] == m);
                    }
                }
            }
            xi += 1;
        }
        yi += 1;
    }
    moves
}

/// Wrap a coordinate into `[-r, r]` on a ring of `2r + 1` cells.
pub open spec fn wrap(v: int, r: int) -> int {
    (v + r) % (2 * r + 1) - r
}

/// Step of a shift direction: `1` for positive, `-1` for negative, `0` for none.
pub open spec fn shift_sign(d: i32) -> int {
    if d > 0 {
        1
    } else if d < 0 {
        -1
    } else {
        0
    }
}

/// Result of [`shift_attacks`]: each non-origin cell of the `(2r+1)²` grid takes the cell one
/// step back along the shift (wrapping around), where origin and out-of-grid moves count as empty.
pub open spec fn shifted_moves(s: Seq<(i32, i32)>, r: int, dx: i32, dy: i32, m: (i32, i32)) -> bool {
    let sx = wrap(m.0 - shift_sign(dx), r);
    let sy = wrap(m.1 - shift_sign(dy), r);
    &&& !is_origin(m)
    &&& -r <= m.0 <= r
    &&& -r <= m.1 <= r
    &&& !(sx == 0 && sy == 0)
    &&& s.contains((sx as i32, sy as i32))
}

pub open spec fn shift_radius(s: Seq<(i32, i32)>, fixed_radius: Option<i32>) -> int {
    let base = match fixed_radius {
        Some(r) => r as int,
        None => extent_spec(s),
    };
    crate::spiral::max(base, 1)
}

/// Grid of `size × size` cells, all clear.
fn empty_grid(size: usize) -> (grid: Vec<Vec<bool>>)
    ensures
        grid@.len() == size,
        forall|xi: int| 0 <= xi < size ==> #[trigger] grid@[xi]@.len() == size,
        forall|xi: int, yi: int| 0 <= xi < size && 0 <= yi < size ==> !#[trigger] grid@[xi]@[yi],
{
    let mut grid: Vec<Vec<bool>> = Vec::new();
    let mut i: usize = 0;
    while i < size
        invariant
            i <= size,
            grid@.len() == i,
            forall|xi: int| 0 <= xi < i ==> #[trigger] grid@[xi]@.len() == size,
            forall|xi: int, yi: int| 0 <= xi < i && 0 <= yi < size ==> !#[trigger] grid@[xi]@[yi],
        decreases size - i,
    {
        let mut col: Vec<bool> = Vec::new();
        let mut j: usize = 0;
        while j < size
            invariant
                j <= size,
                col@.len() == j,
                forall|yi: int| 0 <= yi < j ==> !#[trigger] col@[yi],
            decreases size - j,
        {
            col.push(false);
            j += 1;
        }
        grid.push(col);
        i += 1;
    }
    grid
}

/// Index arithmetic of one wrapped shift step, in grid and in board coordinates.
proof fn lemma_shift_source_coord(n: int, r: int, i: int, d: i32)
    requires
        r >= 1,
        n == 2 * r + 1,
        0 <= i < n,
    ensures
        0 <= shifted_source(n, i, d) < n,
        shifted_source(n, i, d) - r == wrap(i - r - shift_sign(d), r),
{
    if d == 0 {
        assert(i % n == i) by {
            vstd::arithmetic::div_mod::lemma_small_mod(i as nat, n as nat);
        }
    } else if d > 0 {
        vstd::arithmetic::div_mod::lemma_mod_add_multiples_vanish(i - 1, n);
        vstd::arithmetic::div_mod::lemma_mod_bound(i + n - 1, n);
    } else {
        vstd::arithmetic::div_mod::lemma_mod_bound(i + 1, n);
    }
}

/// Shift attack cells on a fixed `(2r+1)²` grid; each row/column wraps like a ring buffer.
/// Pass `dx` or `dy` as `±1` (the other `0`). The result stays on the grid, and keeps the
/// attack count whenever no move lands on the origin ([`lemma_shift_keeps_count`]).
#[verifier::spinoff_prover]
#[verifier::rlimit(40)]
pub fn shift_attacks(moves: &mut Vec<(i32, i32)>, dx: i32, dy: i32, fixed_radius: Option<i32>)
    requires
        moves_negatable(old(moves)@),
        fixed_radius matches Some(r) ==> r <= 0x3FFF_FFFF,
        fixed_radius is None ==> extent_spec(old(moves)@) <= 0x3FFF_FFFF,
    ensures
        old(moves)@.len() == 0 || (dx == 0 && dy == 0) ==> final(moves)@ == old(moves)@,
        !(old(moves)@.len() == 0 || (dx == 0 && dy == 0)) ==> strictly_sorted(final(moves)@)
            && forall|m: (i32, i32)| #[trigger] final(moves)@.contains(m) <==> shifted_moves(
            old(moves)@,
            shift_radius(old(moves)@, fixed_radius),
            dx,
            dy,
            m,
        ),
{
    if moves.len() == 0 || (dx == 0 && dy == 0) {
        return;
    }
    let ghost s = moves@;
    let base = match fixed_radius {
        Some(r) => r,
        None => move_extent(moves.as_slice()),
    };
    let r = if base < 1 { 1 } else { base };
    let size = (2 * r + 1) as usize;
    let origin = r as usize;
    assert(r as int == shift_radius(s, fixed_radius));

    // grid[xi][yi] holds whether the move (xi - r, yi - r) is present (origin cleared).
    let mut grid = empty_grid(size);
    let mut i: usize = 0;
    while i < moves.len()
        invariant
            size == 2 * r + 1,
            1 <= r <= 0x3FFF_FFFF,
            moves@ == s,
            moves_negatable(s),
            i <= moves.len(),
            grid@.len() == size,
            forall|xi: int| 0 <= xi < size ==> #[trigger] grid@[xi]@.len() == size,
            forall|xi: int, yi: int| 0 <= xi < size && 0 <= yi < size ==> (#[trigger] grid@[xi]@[yi]
                <==> s.subrange(0, i as int).contains(((xi - r) as i32, (yi - r) as i32))),
        decreases moves.len() - i,
    {
        let (x, y) = moves[i];
        let ax = if x < 0 { -x } else { x };
        let ay = if y < 0 { -y } else { y };
        let ghost g0 = grid@;
        if !(ax > r || ay > r) {
            let xi = (x + r) as usize;
            let yi = (y + r) as usize;
            grid[xi].set(yi, true);
        }
        proof {
            let s0 = s.subrange(0, i as int);
            let s1 = s.subrange(0, i + 1);
            assert(s1 == s0.push((x, y)));
            assert forall|xi: int, yi: int| 0 <= xi < size && 0 <= yi < size implies (#[trigger] grid@[xi]@[yi]
                <==> s1.contains(((xi - r) as i32, (yi - r) as i32))) by {
                let c = ((xi - r) as i32, (yi - r) as i32);
                if s0.contains(c) {
                    let k = choose|k: int| 0 <= k < s0.len() && s0[k] == c;
                    assert(s1[k] == c);
                }
                if s1.contains(c) && c != (x, y) {
                    let k = choose|k: int| 0 <= k < s1.len() && s1[k] == c;
                    assert(s0[k] == c);
                }
                if c == (x, y) {
                    assert(s1[i as int] == c);
                }
                assert(g0[xi]@[yi] == s0.contains(c));
            }
        }
        i += 1;
    }
    assert(s.subrange(0, s.len() as int) == s);
    grid[origin].set(origin, false);
    let ghost g0 = grid@;
    assert(forall|xi: int, yi: int| 0 <= xi < size && 0 <= yi < size ==> (#[trigger] g0[xi]@[yi]
        <==> (s.contains(((xi - r) as i32, (yi - r) as i32)) && !(xi == r && yi == r))));

    let mut work = grid;
    if dy != 0 {
        let mut next = empty_grid(size);
        let mut xi: usize = 0;
        while xi < size
            invariant
                size == 2 * r + 1,
                1 <= r <= 0x3FFF_FFFF,
                xi <= size,
                work@ == g0,
                work@.len() == size,
                next@.len() == size,
                forall|a: int| 0 <= a < size ==> #[trigger] work@[a]@.len() == size,
                forall|a: int| 0 <= a < size ==> #[trigger] next@[a]@.len() == size,
                forall|a: int, b: int| 0 <= a < xi && 0 <= b < size ==> #[trigger] next@[a]@[b]
                    == g0[a]@[shifted_source(size as int, b, dy)],
            decreases size - xi,
        {
            let shifted = shift_line(work[xi].as_slice(), dy);
            next.set(xi, shifted);
            xi += 1;
        }
        work = next;
    }
    let ghost w1 = work@;
    assert forall|a: int, b: int| 0 <= a < size && 0 <= b < size implies #[trigger] w1[a]@[b]
        == g0[a]@[shifted_source(size as int, b, dy)] by {
        if dy == 0 {
            lemma_shift_source_coord(size as int, r as int, b, dy);
        }
    }
    if dx != 0 {
        let mut next = empty_grid(size);
        let mut yi: usize = 0;
        while yi < size
            invariant
                size == 2 * r + 1,
                1 <= r <= 0x3FFF_FFFF,
                yi <= size,
                work@ == w1,
                work@.len() == size,
                next@.len() == size,
                forall|a: int| 0 <= a < size ==> #[trigger] work@[a]@.len() == size,
                forall|a: int| 0 <= a < size ==> #[trigger] next@[a]@.len() == size,
                forall|a: int, b: int| 0 <= a < size && 0 <= b < yi ==> #[trigger] next@[a]@[b]
                    == w1[shifted_source(size as int, a, dx)]@[b],
            decreases size - yi,
        {
            let mut row: Vec<bool> = Vec::new();
            let mut xi: usize = 0;
            while xi < size
                invariant
                    size == 2 * r + 1,
                    xi <= size,
                    yi < size,
                    work@.len() == size,
                    forall|a: int| 0 <= a < size ==> #[trigger] work@[a]@.len() == size,
                    row@.len() == xi,
                    forall|a: int| 0 <= a < xi ==> #[trigger] row@[a] == work@[a]@[yi as int],
                decreases size - xi,
            {
                row.push(work[xi][yi]);
                xi += 1;
            }
            let shifted = shift_line(row.as_slice(), dx);
            let ghost n0 = next@;
            let mut xi: usize = 0;
            while xi < size
                invariant
                    size == 2 * r + 1,
                    1 <= r <= 0x3FFF_FFFF,
                    xi <= size,
                    yi < size,
                    shifted@.len() == size,
                    next@.len() == size,
                    forall|a: int| 0 <= a < size ==> #[trigger] next@[a]@.len() == size,
                    forall|a: int, b: int| 0 <= a < size && 0 <= b < yi ==> #[trigger] next@[a]@[b]
                        == w1[shifted_source(size as int, a, dx)]@[b],
                    forall|a: int| 0 <= a < xi ==> #[trigger] next@[a]@[yi as int] == shifted@[a],
                decreases size - xi,
            {
                next[xi].set(yi, shifted[xi]);
                xi += 1;
            }
            proof {
                assert forall|a: int, b: int| 0 <= a < size && 0 <= b < yi + 1 implies #[trigger] next@[a]@[b]
                    == w1[shifted_source(size as int, a, dx)]@[b] by {
                    if b == yi {
                        lemma_shift_source_coord(size as int, r as int, a, dx);
                        assert(row@[shifted_source(size as int, a, dx)] == w1[shifted_source(size as int, a, dx)]@[b]);
                    }
                }
            }
            yi += 1;
        }
        work = next;
    }
    let ghost w2 = work@;
    assert forall|a: int, b: int| 0 <= a < size && 0 <= b < size implies #[trigger] w2[a]@[b]
        == w1[shifted_source(size as int, a, dx)]@[b] by {
        if dx == 0 {
            lemma_shift_source_coord(size as int, r as int, a, dx);
        }
    }
    work[origin].set(origin, false);
    let mut out = moves_from_grid(&work, r);
    proof {
        assert forall|m: (i32, i32)| #[trigger] out@.contains(m) <==> shifted_moves(s, r as int, dx, dy, m) by {
            if !is_origin(m) && -r <= m.0 <= r && -r <= m.1 <= r {
                let xi = m.0 + r;
                let yi = m.1 + r;
                lemma_shift_source_coord(size as int, r as int, xi, dx);
                lemma_shift_source_coord(size as int, r as int, yi, dy);
                let sxi = shifted_source(size as int, xi, dx);
                let syi = shifted_source(size as int, yi, dy);
                assert(work@[xi]@[yi] == w2[xi]@[yi]);
                assert(w2[xi]@[yi] == g0[sxi]@[syi]);
            }
        }
    }
    normalize_moves(&mut out);
    *moves = out;
}

/// Toggle a random non-origin square within `max(extent, 2)` of the piece; after 64 draws of
/// the origin nothing changes.
pub fn toggle_random_attack_square(moves: &mut Vec<(i32, i32)>, rng: &mut StdRng)
    requires
        moves_negatable(old(moves)@),
    ensures
        final(moves)@ == old(moves)@ || exists|x: i32, y: i32| {
            let r = if extent_spec(old(moves)@) < 2 { 2 } else { extent_spec(old(moves)@) };
            &&& -r <= x <= r
            &&& -r <= y <= r
            &&& !(x == 0 && y == 0)
            &&& #[trigger] toggled(old(moves)@, x, y, final(moves)@)
        },
{
    let e = move_extent(moves.as_slice());
    let r = if e < 2 { 2 } else { e };
    let mut tries: u32 = 0;
    while tries < 64
        invariant
            2 <= r,
            r as int == if extent_spec(old(moves)@) < 2 { 2 } else { extent_spec(old(moves)@) },
            moves@ == old(moves)@,
        decreases 64 - tries,
    {
        let x = random_i32_inclusive(rng, -r, r);
        let y = random_i32_inclusive(rng, -r, r);
        tries += 1;
        if !(x == 0 && y == 0) {
            toggle_square(moves, x, y);
            return;
        }
    }
}

/// Toggle whether a random other piece blocks `piece` (removing its first occurrence or adding
/// it); after 32 draws of the piece itself nothing changes. Nothing changes with one piece.
pub fn toggle_random_blocked_by(piece: &mut Piece, piece_idx: PieceId, piece_count: usize, rng: &mut StdRng)
    ensures
        final(piece).name == old(piece).name,
        final(piece).piece == old(piece).piece,
        final(piece).enabled == old(piece).enabled,
        piece_count <= 1 ==> final(piece).blocked_by@ == old(piece).blocked_by@,
        final(piece).blocked_by@ == old(piece).blocked_by@ || exists|other: PieceId| {
            &&& other < piece_count
            &&& other != piece_idx
            &&& #[trigger] id_toggled(old(piece).blocked_by@, other, final(piece).blocked_by@)
        },
{
    if piece_count <= 1 {
        return;
    }
    let mut tries: u32 = 0;
    while tries < 32
        invariant
            piece_count > 1,
            piece.blocked_by@ == old(piece).blocked_by@,
            piece.name == old(piece).name,
            piece.piece == old(piece).piece,
            piece.enabled == old(piece).enabled,
        decreases 32 - tries,
    {
        let other = random_index_below(rng, piece_count);
        tries += 1;
        if other != piece_idx {
            let ghost before = piece.blocked_by@;
            let mut found: Option<usize> = None;
            let mut i: usize = 0;
            while i < piece.blocked_by.len()
                invariant
                    i <= piece.blocked_by@.len(),
                    piece.blocked_by@ == before,
                    found is None ==> forall|k: int| 0 <= k < i ==> before[k] != other,
                    found matches Some(p) ==> 0 <= p < before.len() && before[p as int] == other
                        && forall|k: int| 0 <= k < p ==> before[k] != other,
                decreases piece.blocked_by.len() - i,
            {
                if found.is_none() && piece.blocked_by[i] == other {
                    found = Some(i);
                }
                i += 1;
            }
            match found {
                Some(pos) => {
                    piece.blocked_by.remove(pos);
                    assert(before.contains(other));
                    assert(id_toggled(before, other, piece.blocked_by@));
                },
                None => {
                    piece.blocked_by.push(other);
                    assert(!before.contains(other));
                    assert(id_toggled(before, other, piece.blocked_by@));
                },
            }
            return;
        }
    }
}

/// `after` is `before` with id `other` toggled: its first occurrence removed, or appended.
pub open spec fn id_toggled(before: Seq<PieceId>, other: PieceId, after: Seq<PieceId>) -> bool {
    if before.contains(other) {
        exists|k: int| 0 <= k < before.len() && #[trigger] before[k] == other
            && (forall|j: int| 0 <= j < k ==> before[j] != other) && after == before.remove(k)
    } else {
        after == before.push(other)
    }
}

/// Where move `m` lands when the grid of radius `r` is shifted by the signs of `(dx, dy)`,
/// wrapping around.
pub open spec fn shift_target(m: (i32, i32), r: int, dx: i32, dy: i32) -> (i32, i32) {
    (wrap(m.0 + shift_sign(dx), r) as i32, wrap(m.1 + shift_sign(dy), r) as i32)
}

/// One wrapped step from a coordinate of the ring `[-r, r]`.
proof fn lemma_wrap_step(v: int, s: int, r: int)
    requires
        r >= 1,
        -r <= v <= r,
        -1 <= s <= 1,
    ensures
        wrap(v + s, r) == if v + s > r { -r } else if v + s < -r { r } else { v + s },
{
    let n = 2 * r + 1;
    let x = v + s + r;
    if x < 0 {
        vstd::arithmetic::div_mod::lemma_fundamental_div_mod_converse(x, n, -1, n - 1);
    } else if x >= n {
        vstd::arithmetic::div_mod::lemma_fundamental_div_mod_converse(x, n, 1, 0);
    } else {
        vstd::arithmetic::div_mod::lemma_fundamental_div_mod_converse(x, n, 0, x);
    }
}

/// A wrapped step lands on the ring, and stepping back undoes it.
proof fn lemma_wrap_round_trip(v: int, s: int, r: int)
    requires
        r >= 1,
        -r <= v <= r,
        -1 <= s <= 1,
    ensures
        -r <= wrap(v + s, r) <= r,
        wrap(wrap(v + s, r) - s, r) == v,
{
    lemma_wrap_step(v, s, r);
    lemma_wrap_step(wrap(v + s, r), -s, r);
}

/// Distinct coordinates of the ring stay distinct after the same wrapped step.
proof fn lemma_wrap_injective(v: int, w: int, s: int, r: int)
    requires
        r >= 1,
        -r <= v <= r,
        -r <= w <= r,
        -1 <= s <= 1,
        wrap(v + s, r) == wrap(w + s, r),
    ensures
        v == w,
{
    lemma_wrap_round_trip(v, s, r);
    lemma_wrap_round_trip(w, s, r);
}

/// A strictly sorted list holds no move twice.
proof fn lemma_sorted_no_duplicates(s: Seq<(i32, i32)>)
    requires
        strictly_sorted(s),
    ensures
        s.no_duplicates(),
{
    assert forall|i: int, j: int| 0 <= i < s.len() && 0 <= j < s.len() && i != j implies s[i] != s[j] by {
        if i < j {
            assert(move_lt(s[i], s[j]));
        } else {
            assert(move_lt(s[j], s[i]));
        }
    }
}

/// The shift is a bijection of the grid: when every move lies on the grid of radius `r`, none
/// is the origin and none lands on the origin, the shifted pattern has exactly as many moves,
/// and all of them lie on the same grid.
pub proof fn lemma_shift_keeps_count(before: Seq<(i32, i32)>, after: Seq<(i32, i32)>, r: int, dx: i32, dy: i32)
    requires
        1 <= r <= 0x3FFF_FFFF,
        strictly_sorted(before),
        forall|i: int| 0 <= i < before.len() ==> {
            &&& !is_origin(#[trigger] before[i])
            &&& -r <= before[i].0 <= r
            &&& -r <= before[i].1 <= r
            &&& !is_origin(shift_target(before[i], r, dx, dy))
        },
        strictly_sorted(after),
        forall|m: (i32, i32)| #[trigger] after.contains(m) <==> shifted_moves(before, r, dx, dy, m),
    ensures
        after.len() == before.len(),
        forall|i: int| 0 <= i < after.len() ==> -r <= (#[trigger] after[i]).0 <= r && -r <= after[i].1 <= r,
{
    let sx = shift_sign(dx);
    let sy = shift_sign(dy);
    let f = |m: (i32, i32)| shift_target(m, r, dx, dy);
    let x = before.to_set();
    let y = after.to_set();
    assert forall|a: (i32, i32), b: (i32, i32)| x.contains(a) && x.contains(b) && #[trigger] f(a) == #[trigger] f(b) implies a == b by {
        let i = choose|i: int| 0 <= i < before.len() && before[i] == a;
        let j = choose|j: int| 0 <= j < before.len() && before[j] == b;
        lemma_wrap_step(a.0 as int, sx, r);
        lemma_wrap_step(b.0 as int, sx, r);
        lemma_wrap_step(a.1 as int, sy, r);
        lemma_wrap_step(b.1 as int, sy, r);
        lemma_wrap_injective(a.0 as int, b.0 as int, sx, r);
        lemma_wrap_injective(a.1 as int, b.1 as int, sy, r);
    }
    assert forall|m: (i32, i32)| #[trigger] x.map(f).contains(m) <==> y.contains(m) by {
        if x.map(f).contains(m) {
            let a = choose|a: (i32, i32)| x.contains(a) && f(a) == m;
            let i = choose|i: int| 0 <= i < before.len() && before[i] == a;
            lemma_wrap_round_trip(a.0 as int, sx, r);
            lemma_wrap_round_trip(a.1 as int, sy, r);
            assert((wrap(m.0 - sx, r) as i32, wrap(m.1 - sy, r) as i32) == a);
            assert(shifted_moves(before, r, dx, dy, m));
            assert(after.contains(m));
        }
        if y.contains(m) {
            assert(shifted_moves(before, r, dx, dy, m));
            let a = (wrap(m.0 - sx, r) as i32, wrap(m.1 - sy, r) as i32);
            lemma_wrap_round_trip(m.0 as int, -sx, r);
            lemma_wrap_round_trip(m.1 as int, -sy, r);
            assert(f(a) == m);
            assert(x.contains(a));
        }
    }
    assert(x.map(f) =~= y);
    lemma_sorted_no_duplicates(before);
    lemma_sorted_no_duplicates(after);
    before.unique_seq_to_set();
    after.unique_seq_to_set();
    vstd::set_lib::lemma_map_size(x, y, f);
    assert forall|i: int| 0 <= i < after.len() implies -r <= (#[trigger] after[i]).0 <= r && -r <= after[i].1 <= r by {
        assert(after.contains(after[i]));
    }
}

/// Toggling never empties a pattern: a list with a move still has one after any toggle.
pub proof fn lemma_toggle_keeps_pattern_nonempty(before: Seq<(i32, i32)>, x: i32, y: i32, after: Seq<(i32, i32)>)
    requires
        before.len() > 0,
        toggled(before, x, y, after),
    ensures
        after.len() > 0,
{
    if x == 0 && y == 0 {
    } else if !before.contains((x, y)) {
        let b = before.push((x, y));
        assert(b[before.len() as int] == (x, y));
        assert(b.contains((x, y)));
        assert(after.contains((x, y)));
    } else if before.len() <= 1 {
        assert(before.contains(before[0]));
        assert(after.contains(before[0]));
    } else {
        let k = choose|k: int| #![trigger before[k]] is_first_index(before, k, (x, y)) && normalized_of(after, before.remove(k));
        let rest = before.remove(k);
        assert(rest.len() > 0);
        assert(rest.contains(rest[0]));
        assert(after.contains(rest[0]));
    }
}

/// The transform that undoes `t`: each reflection undoes itself, the rotations undo each other.
pub open spec fn inverse_transform(t: MoveTransform) -> MoveTransform {
    match t {
        MoveTransform::ReflectAcrossXAxis => MoveTransform::ReflectAcrossXAxis,
        MoveTransform::ReflectAcrossYAxis => MoveTransform::ReflectAcrossYAxis,
        MoveTransform::RotateCw => MoveTransform::RotateCcw,
        MoveTransform::RotateCcw => MoveTransform::RotateCw,
    }
}

/// Two strictly sorted lists with the same moves are the same list.
pub proof fn lemma_sorted_same_moves_equal(a: Seq<(i32, i32)>, c: Seq<(i32, i32)>)
    requires
        strictly_sorted(a),
        strictly_sorted(c),
        forall|m: (i32, i32)| a.contains(m) <==> c.contains(m),
    ensures
        a == c,
    decreases a.len(),
{
    if a.len() == 0 {
        if c.len() > 0 {
            assert(c.contains(c[0]));
        }
        assert(a =~= c);
    } else {
        assert(a.contains(a[0]));
        assert(c.len() > 0);
        assert(c.contains(c[0]));
        let j = choose|j: int| 0 <= j < c.len() && c[j] == a[0];
        let i = choose|i: int| 0 <= i < a.len() && a[i] == c[0];
        if j > 0 {
            assert(move_lt(c[0], c[j]));
            if i > 0 {
                assert(move_lt(a[0], a[i]));
            }
        }
        assert(a[0] == c[0]);
        let a1 = a.drop_first();
        let c1 = c.drop_first();
        assert forall|m: (i32, i32)| a1.contains(m) <==> c1.contains(m) by {
            if a1.contains(m) {
                let k = choose|k: int| 0 <= k < a1.len() && a1[k] == m;
                assert(a[k + 1] == m);
                assert(move_lt(a[0], a[k + 1]));
                assert(a.contains(m));
                let l = choose|l: int| 0 <= l < c.len() && c[l] == m;
                assert(l != 0);
                assert(c1[l - 1] == m);
            }
            if c1.contains(m) {
                let k = choose|k: int| 0 <= k < c1.len() && c1[k] == m;
                assert(c[k + 1] == m);
                assert(move_lt(c[0], c[k + 1]));
                assert(c.contains(m));
                let l = choose|l: int| 0 <= l < a.len() && a[l] == m;
                assert(l != 0);
                assert(a1[l - 1] == m);
            }
        }
        lemma_sorted_same_moves_equal(a1, c1);
        assert(a =~= c) by {
            assert forall|k: int| 0 <= k < a.len() implies a[k] == c[k] by {
                if k > 0 {
                    assert(a[k] == a1[k - 1]);
                    assert(c[k] == c1[k - 1]);
                }
            }
        }
    }
}

/// Transforming a normalised pattern and then applying the inverse transform gives the pattern
/// back: reflecting twice, or rotating one way and then the other, changes nothing.
pub proof fn lemma_transform_round_trip(a: Seq<(i32, i32)>, b: Seq<(i32, i32)>, c: Seq<(i32, i32)>, t: MoveTransform)
    requires
        strictly_sorted(a),
        transform_negatable(a, t),
        forall|i: int| 0 <= i < a.len() ==> !is_origin(#[trigger] a[i]),
        strictly_sorted(b),
        forall|m: (i32, i32)| #[trigger] b.contains(m) <==> mapped_moves(a, t, m),
        strictly_sorted(c),
        forall|m: (i32, i32)| #[trigger] c.contains(m) <==> mapped_moves(b, inverse_transform(t), m),
    ensures
        c == a,
{
    let u = inverse_transform(t);
    assert forall|m: (i32, i32)| a.contains(m) <==> c.contains(m) by {
        if a.contains(m) {
            let j = choose|j: int| 0 <= j < a.len() && a[j] == m;
            let img = transform_spec(t, m);
            assert(!is_origin(m));
            assert(!is_origin(img));
            assert(mapped_moves(a, t, img));
            assert(b.contains(img));
            let k = choose|k: int| 0 <= k < b.len() && b[k] == img;
            assert(transform_spec(u, b[k]) == m);
            assert(mapped_moves(b, u, m));
        }
        if c.contains(m) {
            assert(mapped_moves(b, u, m));
            let k = choose|k: int| 0 <= k < b.len() && transform_spec(u, #[trigger] b[k]) == m;
            assert(b.contains(b[k]));
            assert(mapped_moves(a, t, b[k]));
            let j = choose|j: int| 0 <= j < a.len() && transform_spec(t, #[trigger] a[j]) == b[k];
            assert(negated_coord(t, a[j]) != i32::MIN);
            assert(transform_spec(u, transform_spec(t, a[j])) == a[j]);
            assert(a[j] == m);
        }
    }
    lemma_sorted_same_moves_equal(a, c);
}

/// In a strictly sorted list, removing the entry at `k` leaves exactly the other moves.
proof fn lemma_sorted_remove_contains(s: Seq<(i32, i32)>, k: int, m: (i32, i32))
    requires
        strictly_sorted(s),
        0 <= k < s.len(),
    ensures
        s.remove(k).contains(m) <==> s.contains(m) && m != s[k],
{
    let r = s.remove(k);
    if r.contains(m) {
        let j = choose|j: int| 0 <= j < r.len() && r[j] == m;
        if j < k {
            assert(s[j] == m);
            assert(move_lt(s[j], s[k]));
        } else {
            assert(s[j + 1] == m);
            assert(move_lt(s[k], s[j + 1]));
        }
    }
    if s.contains(m) && m != s[k] {
        let j = choose|j: int| 0 <= j < s.len() && s[j] == m;
        if j < k {
            assert(r[j] == m);
        } else {
            assert(j != k);
            assert(r[j - 1] == m);
        }
    }
}

/// Toggling the same square twice restores a normalised pattern, unless that square was its
/// only move (which a toggle never removes).
pub proof fn lemma_toggle_twice_restores(before: Seq<(i32, i32)>, x: i32, y: i32, mid: Seq<(i32, i32)>, after: Seq<(i32, i32)>)
    requires
        strictly_sorted(before),
        !(x == 0 && y == 0),
        before.len() >= 2 || (before.len() == 1 && before[0] != (x, y)),
        toggled(before, x, y, mid),
        toggled(mid, x, y, after),
    ensures
        after == before,
{
    let m = (x, y);
    if before.contains(m) {
        let k = choose|k: int| #![trigger before[k]] is_first_index(before, k, m) && normalized_of(mid, before.remove(k));
        let r = before.remove(k);
        assert forall|z: (i32, i32)| mid.contains(z) <==> before.contains(z) && z != m by {
            assert(mid.contains(z) <==> r.contains(z));
            lemma_sorted_remove_contains(before, k, z);
        }
        assert(!mid.contains(m));
        let b2 = mid.push(m);
        assert(normalized_of(after, b2));
        assert forall|z: (i32, i32)| after.contains(z) <==> before.contains(z) by {
            assert(after.contains(z) <==> b2.contains(z));
            if b2.contains(z) && z != m {
                let j = choose|j: int| 0 <= j < b2.len() && b2[j] == z;
                assert(j < mid.len());
                assert(mid[j] == z);
            }
            if mid.contains(z) {
                let j = choose|j: int| 0 <= j < mid.len() && mid[j] == z;
                assert(b2[j] == z);
            }
            assert(b2[mid.len() as int] == m);
        }
        lemma_sorted_same_moves_equal(after, before);
    } else {
        let b1 = before.push(m);
        assert(normalized_of(mid, b1));
        assert(b1[before.len() as int] == m);
        assert(b1[0] == before[0]);
        assert(b1.contains(before[0]));
        assert(b1.contains(m));
        assert(mid.contains(m));
        assert(mid.contains(before[0]));
        let i0 = choose|i: int| 0 <= i < mid.len() && mid[i] == before[0];
        let i1 = choose|i: int| 0 <= i < mid.len() && mid[i] == m;
        assert(i0 != i1);
        assert(mid.len() > 1);
        let k = choose|k: int| #![trigger mid[k]] is_first_index(mid, k, m) && normalized_of(after, mid.remove(k));
        let r = mid.remove(k);
        assert forall|z: (i32, i32)| after.contains(z) <==> before.contains(z) by {
            assert(after.contains(z) <==> r.contains(z));
            lemma_sorted_remove_contains(mid, k, z);
            assert(mid.contains(z) <==> b1.contains(z));
            if b1.contains(z) && z != m {
                let j = choose|j: int| 0 <= j < b1.len() && b1[j] == z;
                assert(j < before.len());
                assert(before[j] == z);
            }
            if before.contains(z) {
                let j = choose|j: int| 0 <= j < before.len() && before[j] == z;
                assert(b1[j] == z);
            }
        }
        lemma_sorted_same_moves_equal(after, before);
    }
}

} // verus!
