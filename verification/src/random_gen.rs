//! Random attack patterns: which cells around a piece may be sampled, how a sampled pattern is
//! mirrored and normalised, and how sampled patterns become a game. The dice themselves (and
//! the colours) are rolled by the caller.

use vstd::prelude::*;
use crate::model::{
    all_but, all_but_spec, decimal, decimal_string, piece, GameDefinition, Piece, PieceDef,
    PieceId,
};
use crate::mutate::{is_origin, moves_negatable, normalize_moves, strictly_sorted};
use crate::random_source::{random_u32_inclusive, shuffle_ids};
use crate::model::id_range;
use rand::rngs::StdRng;

verus! {

/// Mirror attack cells around the piece (vertical = left/right, horizontal = up/down).
#[derive(Clone, Copy, Debug, PartialEq, Eq, Default, Structural)]
pub enum AttackSymmetry {
    /// No mirroring (labelled "None").
    #[default]
    Asymmetric,
    /// Mirror across the vertical axis: `(x, y)` ↔ `(-x, y)`.
    Vertical,
    /// Mirror across the horizontal axis: `(x, y)` ↔ `(x, -y)`.
    Horizontal,
    Both,
}

impl AttackSymmetry {
    pub const ALL: [Self; 4] = [Self::Asymmetric, Self::Vertical, Self::Horizontal, Self::Both];

    pub open spec fn spec_label(self) -> Seq<char> {
        match self {
            AttackSymmetry::Asymmetric => "None"@,
            AttackSymmetry::Vertical => "Vertical"@,
            AttackSymmetry::Horizontal => "Horizontal"@,
            AttackSymmetry::Both => "Both"@,
        }
    }

    pub fn label(self) -> (label: &'static str)
        ensures
            label@ == self.spec_label(),
    {
        proof {
            reveal_strlit("None");
            reveal_strlit("Vertical");
            reveal_strlit("Horizontal");
            reveal_strlit("Both");
        }
        match self {
            Self::Asymmetric => "None",
            Self::Vertical => "Vertical",
            Self::Horizontal => "Horizontal",
            Self::Both => "Both",
        }
    }
}

/// `m` is one of the mirror images of `s` under `sym`.
pub open spec fn mirror_of(sym: AttackSymmetry, m: (i32, i32), s: (i32, i32)) -> bool {
    match sym {
        AttackSymmetry::Asymmetric => false,
        AttackSymmetry::Vertical => m.0 == -s.0 && m.1 == s.1,
        AttackSymmetry::Horizontal => m.0 == s.0 && m.1 == -s.1,
        AttackSymmetry::Both => (m.0 == -s.0 && m.1 == s.1) || (m.0 == s.0 && m.1 == -s.1) || (m.0 == -s.0 && m.1 == -s.1),
    }
}

/// `m` belongs to the symmetric closure of `base`: it is a non-origin cell of `base` or a mirror
/// image of one.
pub open spec fn symmetric_member(base: Seq<(i32, i32)>, sym: AttackSymmetry, m: (i32, i32)) -> bool {
    &&& !is_origin(m)
    &&& (base.contains(m) || exists|s: (i32, i32)| base.contains(s) && !is_origin(s) && #[trigger] mirror_of(sym, m, s))
}

proof fn lemma_push_contains(s: Seq<(i32, i32)>, x: (i32, i32))
    ensures
        forall|m: (i32, i32)| #[trigger] s.push(x).contains(m) <==> s.contains(m) || m == x,
{
    assert forall|m: (i32, i32)| #[trigger] s.push(x).contains(m) <==> s.contains(m) || m == x by {
        if s.contains(m) {
            let k = choose|k: int| 0 <= k < s.len() && s[k] == m;
            assert(s.push(x)[k] == m);
        }
        if m == x {
            assert(s.push(x)[s.len() as int] == x);
        }
        if s.push(x).contains(m) && m != x {
            let k = choose|k: int| 0 <= k < s.len() + 1 && s.push(x)[k] == m;
            assert(s[k] == m);
        }
    }
}

fn push_if_legal(moves: &mut Vec<(i32, i32)>, x: i32, y: i32)
    ensures
        final(moves)@ == if x != 0 || y != 0 { old(moves)@.push((x, y)) } else { old(moves)@ },
{
    if x != 0 || y != 0 {
        moves.push((x, y));
    }
}

/// Drop the origin, sort by `(x, y)` and remove duplicates.
pub fn normalize_nonzero(moves: &mut Vec<(i32, i32)>)
    ensures
        strictly_sorted(final(moves)@),
        forall|m: (i32, i32)| #[trigger] final(moves)@.contains(m) <==> old(moves)@.contains(m) && !is_origin(m),
{
    let mut kept: Vec<(i32, i32)> = Vec::new();
    let mut i: usize = 0;
    while i < moves.len()
        invariant
            i <= moves@.len(),
            forall|m: (i32, i32)| #[trigger] kept@.contains(m) <==> moves@.subrange(0, i as int).contains(m) && !is_origin(m),
        decreases moves.len() - i,
    {
        let m = moves[i];
        proof {
            let s0 = moves@.subrange(0, i as int);
            assert(moves@.subrange(0, i + 1) == s0.push(m));
            lemma_push_contains(s0, m);
            lemma_push_contains(kept@, m);
        }
        if m.0 != 0 || m.1 != 0 {
            kept.push(m);
        }
        i += 1;
    }
    assert(moves@.subrange(0, moves@.len() as int) == moves@);
    normalize_moves(&mut kept);
    *moves = kept;
}

/// Add the mirror images of every non-origin move, then normalise (origin dropped, sorted,
/// deduplicated). With no symmetry the list is left as it is.
pub fn apply_attack_symmetry(moves: &mut Vec<(i32, i32)>, symmetry: AttackSymmetry)
    requires
        moves_negatable(old(moves)@),
    ensures
        symmetry == AttackSymmetry::Asymmetric ==> final(moves)@ == old(moves)@,
        symmetry != AttackSymmetry::Asymmetric ==> strictly_sorted(final(moves)@),
        symmetry != AttackSymmetry::Asymmetric ==> forall|m: (i32, i32)| #[trigger] final(moves)@.contains(m) <==> symmetric_member(old(moves)@, symmetry, m),
{
    if symmetry == AttackSymmetry::Asymmetric {
        return;
    }
    let ghost base = moves@;
    let mut seeds: Vec<(i32, i32)> = Vec::new();
    let mut i: usize = 0;
    while i < moves.len()
        invariant
            moves@ == base,
            moves_negatable(base),
            i <= base.len(),
            forall|k: int| 0 <= k < seeds@.len() ==> seeds@[k].0 != i32::MIN && seeds@[k].1 != i32::MIN,
            forall|m: (i32, i32)| #[trigger] seeds@.contains(m) <==> base.subrange(0, i as int).contains(m) && !is_origin(m),
        decreases moves.len() - i,
    {
        let m = moves[i];
        proof {
            let s0 = base.subrange(0, i as int);
            assert(base.subrange(0, i + 1) == s0.push(m));
            lemma_push_contains(s0, m);
            lemma_push_contains(seeds@, m);
        }
        if m.0 != 0 || m.1 != 0 {
            seeds.push(m);
        }
        i += 1;
    }
    assert(base.subrange(0, base.len() as int) == base);
    let mut j: usize = 0;
    while j < seeds.len()
        invariant
            j <= seeds@.len(),
            symmetry != AttackSymmetry::Asymmetric,
            forall|k: int| 0 <= k < seeds@.len() ==> seeds@[k].0 != i32::MIN && seeds@[k].1 != i32::MIN,
            forall|m: (i32, i32)| #[trigger] seeds@.contains(m) <==> base.contains(m) && !is_origin(m),
            forall|m: (i32, i32)| #[trigger] moves@.contains(m) <==> base.contains(m)
                || exists|k: int| 0 <= k < j && #[trigger] mirror_of(symmetry, m, seeds@[k]),
        decreases seeds.len() - j,
    {
        let (x, y) = seeds[j];
        let ghost before = moves@;
        let ghost s = seeds@[j as int];
        assert(s == (x, y));
        assert(seeds@.contains(s));
        match symmetry {
            AttackSymmetry::Asymmetric => {},
            AttackSymmetry::Vertical => {
                push_if_legal(moves, -x, y);
            },
            AttackSymmetry::Horizontal => {
                push_if_legal(moves, x, -y);
            },
            AttackSymmetry::Both => {
                push_if_legal(moves, -x, y);
                push_if_legal(moves, x, -y);
                push_if_legal(moves, -x, -y);
            },
        }
        proof {
            assert(!is_origin(s));
            let nx = (-x) as i32;
            let ny = (-y) as i32;
            lemma_push_contains(before, (nx, y));
            lemma_push_contains(before, (x, ny));
            lemma_push_contains(before.push((nx, y)), (x, ny));
            lemma_push_contains(before.push((nx, y)).push((x, ny)), (nx, ny));
            assert forall|m: (i32, i32)| #[trigger] moves@.contains(m) <==> base.contains(m)
                || exists|k: int| 0 <= k < j + 1 && #[trigger] mirror_of(symmetry, m, seeds@[k]) by {
                if exists|k: int| 0 <= k < j + 1 && #[trigger] mirror_of(symmetry, m, seeds@[k]) {
                    let k = choose|k: int| 0 <= k < j + 1 && #[trigger] mirror_of(symmetry, m, seeds@[k]);
                    if k < j {
                        assert(before.contains(m));
                    }
                }
                if before.contains(m) && !base.contains(m) {
                    let k = choose|k: int| 0 <= k < j && #[trigger] mirror_of(symmetry, m, seeds@[k]);
                    assert(0 <= k < j + 1 && mirror_of(symmetry, m, seeds@[k]));
                }
                if moves@.contains(m) && !before.contains(m) {
                    assert(mirror_of(symmetry, m, seeds@[j as int]));
                }
            }
        }
        j += 1;
    }
    let ghost grown = moves@;
    normalize_nonzero(moves);
    proof {
        assert forall|m: (i32, i32)| #[trigger] moves@.contains(m) <==> symmetric_member(base, symmetry, m) by {
            if grown.contains(m) && !base.contains(m) {
                let k = choose|k: int| 0 <= k < seeds@.len() && #[trigger] mirror_of(symmetry, m, seeds@[k]);
                assert(seeds@.contains(seeds@[k]));
            }
            if symmetric_member(base, symmetry, m) && !base.contains(m) {
                let s = choose|s: (i32, i32)| base.contains(s) && !is_origin(s) && #[trigger] mirror_of(symmetry, m, s);
                assert(seeds@.contains(s));
                let k = choose|k: int| 0 <= k < seeds@.len() && seeds@[k] == s;
                assert(mirror_of(symmetry, m, seeds@[k]));
            }
        }
    }
}

/// Chebyshev length of `(x, y)`.
pub fn chebyshev(x: i32, y: i32) -> (d: i32)
    requires
        x != i32::MIN,
        y != i32::MIN,
    ensures
        d as int == crate::mutate::move_radius((x, y)),
{
    let ax = if x < 0 { -x } else { x };
    let ay = if y < 0 { -y } else { y };
    if ax < ay { ay } else { ax }
}

/// One representative per symmetry orbit, so that the sampling density is the per-cell rate
/// after mirroring.
pub open spec fn spec_canonical_seed(x: int, y: int, symmetry: AttackSymmetry) -> bool {
    match symmetry {
        AttackSymmetry::Asymmetric => true,
        AttackSymmetry::Vertical => x > 0 || (x == 0 && y != 0),
        AttackSymmetry::Horizontal => y > 0 || (y == 0 && x != 0),
        AttackSymmetry::Both => (x > 0 && y >= 0) || (x == 0 && y > 0),
    }
}

/// `(u, v)` lies in the symmetry orbit of `(x, y)`: the cell and its mirror images.
pub open spec fn in_orbit(symmetry: AttackSymmetry, x: int, y: int, u: int, v: int) -> bool {
    match symmetry {
        AttackSymmetry::Asymmetric => u == x && v == y,
        AttackSymmetry::Vertical => (u == x || u == -x) && v == y,
        AttackSymmetry::Horizontal => u == x && (v == y || v == -y),
        AttackSymmetry::Both => (u == x || u == -x) && (v == y || v == -y),
    }
}

/// Every orbit of a non-origin cell has exactly one canonical representative.
pub proof fn lemma_one_canonical_per_orbit(x: int, y: int, symmetry: AttackSymmetry)
    requires
        !(x == 0 && y == 0),
    ensures
        exists|u: int, v: int| #[trigger] in_orbit(symmetry, x, y, u, v) && spec_canonical_seed(u, v, symmetry),
        forall|u1: int, v1: int, u2: int, v2: int|
            #[trigger] in_orbit(symmetry, x, y, u1, v1) && spec_canonical_seed(u1, v1, symmetry)
            && #[trigger] in_orbit(symmetry, x, y, u2, v2) && spec_canonical_seed(u2, v2, symmetry)
            ==> u1 == u2 && v1 == v2,
{
    let ax = if x < 0 { -x } else { x };
    let ay = if y < 0 { -y } else { y };
    let w = match symmetry {
        AttackSymmetry::Asymmetric => (x, y),
        AttackSymmetry::Vertical => if x != 0 { (ax, y) } else { (x, y) },
        AttackSymmetry::Horizontal => if y != 0 { (x, ay) } else { (x, y) },
        AttackSymmetry::Both => if x != 0 { (ax, ay) } else { (x, ay) },
    };
    assert(in_orbit(symmetry, x, y, w.0, w.1) && spec_canonical_seed(w.0, w.1, symmetry));
}

pub fn is_canonical_attack_seed(x: i32, y: i32, symmetry: AttackSymmetry) -> (canonical: bool)
    ensures
        canonical == spec_canonical_seed(x as int, y as int, symmetry),
{
    match symmetry {
        AttackSymmetry::Asymmetric => true,
        AttackSymmetry::Vertical => x > 0 || (x == 0 && y != 0),
        AttackSymmetry::Horizontal => y > 0 || (y == 0 && x != 0),
        AttackSymmetry::Both => (x > 0 && y >= 0) || (x == 0 && y > 0),
    }
}

/// Cell `(x, y)` may be sampled: not the origin, its ring between the radii, and canonical.
pub open spec fn eligible_seed(x: int, y: int, radius_min: int, radius_max: int, symmetry: AttackSymmetry) -> bool {
    let d = if crate::spiral::abs(x) < crate::spiral::abs(y) { crate::spiral::abs(y) } else { crate::spiral::abs(x) };
    &&& !(x == 0 && y == 0)
    &&& radius_min <= d <= radius_max
    &&& spec_canonical_seed(x, y, symmetry)
}

/// Row-major order of cells: by `y`, then by `x`.
pub open spec fn row_major_lt(a: (i32, i32), b: (i32, i32)) -> bool {
    a.1 < b.1 || (a.1 == b.1 && a.0 < b.0)
}

/// Cells that may be sampled for a pattern, in row-major order over `[-max, max]²`.
pub fn eligible_attack_seeds(radius_min: i32, radius_max: i32, symmetry: AttackSymmetry) -> (seeds: Vec<(i32, i32)>)
    requires
        0 <= radius_max < i32::MAX,
    ensures
        forall|a: int, b: int| 0 <= a < b < seeds@.len() ==> row_major_lt(#[trigger] seeds@[a], #[trigger] seeds@[b]),
        forall|m: (i32, i32)| #[trigger] seeds@.contains(m) <==> eligible_seed(m.0 as int, m.1 as int, radius_min as int, radius_max as int, symmetry),
{
    let mut seeds: Vec<(i32, i32)> = Vec::new();
    let mut y: i32 = -radius_max;
    while y <= radius_max
        invariant
            0 <= radius_max < i32::MAX,
            -radius_max <= y <= radius_max + 1,
            forall|a: int, b: int| 0 <= a < b < seeds@.len() ==> row_major_lt(#[trigger] seeds@[a], #[trigger] seeds@[b]),
            forall|k: int| 0 <= k < seeds@.len() ==> (#[trigger] seeds@[k]).1 < y,
            forall|m: (i32, i32)| #[trigger] seeds@.contains(m) <==> m.1 < y
                && eligible_seed(m.0 as int, m.1 as int, radius_min as int, radius_max as int, symmetry),
        decreases radius_max + 1 - y,
    {
        let mut x: i32 = -radius_max;
        while x <= radius_max
            invariant
                0 <= radius_max < i32::MAX,
                -radius_max <= y <= radius_max,
                -radius_max <= x <= radius_max + 1,
                forall|a: int, b: int| 0 <= a < b < seeds@.len() ==> row_major_lt(#[trigger] seeds@[a], #[trigger] seeds@[b]),
                forall|k: int| 0 <= k < seeds@.len() ==> (#[trigger] seeds@[k]).1 < y || (seeds@[k].1 == y && seeds@[k].0 < x),
                forall|m: (i32, i32)| #[trigger] seeds@.contains(m) <==> (m.1 < y || (m.1 == y && m.0 < x))
                    && eligible_seed(m.0 as int, m.1 as int, radius_min as int, radius_max as int, symmetry),
            decreases radius_max + 1 - x,
        {
            let ghost before = seeds@;
            proof {
                lemma_push_contains(before, (x, y));
            }
            if !(x == 0 && y == 0) {
                let d = chebyshev(x, y);
                if d >= radius_min && d <= radius_max && is_canonical_attack_seed(x, y, symmetry) {
                    seeds.push((x, y));
                }
            }
            proof {
                assert forall|m: (i32, i32)| #[trigger] seeds@.contains(m) <==> (m.1 < y || (m.1 == y && m.0 < x + 1))
                    && eligible_seed(m.0 as int, m.1 as int, radius_min as int, radius_max as int, symmetry) by {
                    if (m.1 < y || (m.1 == y && m.0 < x + 1)) && eligible_seed(m.0 as int, m.1 as int, radius_min as int, radius_max as int, symmetry) && !(m.1 < y || (m.1 == y && m.0 < x)) {
                        assert(m == (x, y));
                    }
                }
            }
            x = x + 1;
        }
        proof {
            assert forall|m: (i32, i32)| #[trigger] seeds@.contains(m) <==> m.1 < y + 1
                && eligible_seed(m.0 as int, m.1 as int, radius_min as int, radius_max as int, symmetry) by {
                if m.1 == y && eligible_seed(m.0 as int, m.1 as int, radius_min as int, radius_max as int, symmetry) {
                    assert(m.0 < radius_max + 1);
                }
            }
        }
        y = y + 1;
    }
    proof {
        assert forall|m: (i32, i32)| #[trigger] seeds@.contains(m) <==> eligible_seed(m.0 as int, m.1 as int, radius_min as int, radius_max as int, symmetry) by {
            if eligible_seed(m.0 as int, m.1 as int, radius_min as int, radius_max as int, symmetry) {
                assert(m.1 < radius_max + 1);
            }
        }
    }
    seeds
}

/// The pattern grown from `base`: its symmetric closure, with the origin dropped.
pub open spec fn pattern_has(base: Seq<(i32, i32)>, sym: AttackSymmetry, m: (i32, i32)) -> bool {
    symmetric_member(base, sym, m)
}

/// What a pattern grows from: the sampled cells, or `(radius_min, 0)` when none was sampled.
pub open spec fn sampled_base(chosen: Seq<(i32, i32)>, radius_min: i32) -> Seq<(i32, i32)> {
    if chosen.len() == 0 {
        seq![(radius_min, 0i32)]
    } else {
        chosen
    }
}

/// Finish a sampled pattern: fall back to `(radius_min, 0)` when nothing was sampled, mirror
/// and normalise; if that leaves nothing, start again from the fallback cell alone.
pub fn finish_attack_pattern(chosen: Vec<(i32, i32)>, radius_min: i32, symmetry: AttackSymmetry) -> (moves: Vec<(i32, i32)>)
    requires
        moves_negatable(chosen@),
        radius_min != i32::MIN,
    ensures
        strictly_sorted(moves@),
        (exists|q: (i32, i32)| #[trigger] pattern_has(sampled_base(chosen@, radius_min), symmetry, q))
            ==> forall|m: (i32, i32)| #[trigger] moves@.contains(m) <==> pattern_has(sampled_base(chosen@, radius_min), symmetry, m),
        !(exists|q: (i32, i32)| #[trigger] pattern_has(sampled_base(chosen@, radius_min), symmetry, q))
            ==> forall|m: (i32, i32)| #[trigger] moves@.contains(m) <==> pattern_has(seq![(radius_min, 0i32)], symmetry, m),
{
    let mut moves = chosen;
    if moves.len() == 0 {
        moves.push((radius_min, 0));
    }
    let ghost base = moves@;
    proof {
        if chosen@.len() == 0 {
            assert(base =~= seq![(radius_min, 0i32)]);
        } else {
            assert(base == chosen@);
        }
        assert(base == sampled_base(chosen@, radius_min));
    }
    assert(moves_negatable(moves@));
    apply_attack_symmetry(&mut moves, symmetry);
    normalize_nonzero(&mut moves);
    proof {
        assert forall|m: (i32, i32)| #[trigger] moves@.contains(m) <==> pattern_has(base, symmetry, m) by {}
    }
    if moves.len() == 0 {
        proof {
            assert forall|q: (i32, i32)| !#[trigger] pattern_has(base, symmetry, q) by {
                assert(!moves@.contains(q));
            }
        }
        let mut again: Vec<(i32, i32)> = Vec::new();
        again.push((radius_min, 0));
        let ghost fb = again@;
        assert(fb =~= seq![(radius_min, 0i32)]);
        apply_attack_symmetry(&mut again, symmetry);
        normalize_nonzero(&mut again);
        proof {
            assert forall|m: (i32, i32)| #[trigger] again@.contains(m) <==> pattern_has(fb, symmetry, m) by {}
        }
        return again;
    }
    proof {
        let q = moves@[0];
        assert(moves@.contains(q));
        assert(pattern_has(base, symmetry, q));
    }
    moves
}

/// Clamp a count or radius range: order the ends, raise the low end to at least one, and keep
/// the high end at least the low end.
pub fn sanitize_count_bounds(min: u32, max: u32) -> (bounds: (u32, u32))
    ensures
        ({
            let (lo, hi) = if max < min { (max, min) } else { (min, max) };
            let lo2 = if lo < 1 { 1u32 } else { lo };
            bounds == (lo2, if hi < lo2 { lo2 } else { hi })
        }),
{
    let (mut lo, mut hi) = if max < min { (max, min) } else { (min, max) };
    if lo < 1 {
        lo = 1;
    }
    if hi < lo {
        hi = lo;
    }
    (lo, hi)
}

/// [`sanitize_count_bounds`] for the attack radii.
pub fn sanitize_radius_bounds(min: i32, max: i32) -> (bounds: (i32, i32))
    ensures
        ({
            let (lo, hi) = if max < min { (max, min) } else { (min, max) };
            let lo2 = if lo < 1 { 1i32 } else { lo };
            bounds == (lo2, if hi < lo2 { lo2 } else { hi })
        }),
{
    let (mut lo, mut hi) = if max < min { (max, min) } else { (min, max) };
    if lo < 1 {
        lo = 1;
    }
    if hi < lo {
        hi = lo;
    }
    (lo, hi)
}

/// Name of a generated piece: `Piece {i}`.
pub open spec fn generated_name(i: nat) -> Seq<char> {
    "Piece "@ + decimal(i)
}

pub fn generated_piece_name(i: usize) -> (name: String)
    ensures
        name@ == generated_name(i as nat),
{
    proof {
        reveal_strlit("Piece ");
    }
    let mut name = String::from_str("Piece ");
    let digits = decimal_string(i);
    name.append(digits.as_str());
    name
}

/// Seat the given pieces, each blocked by all the others, in the given turn order.
pub fn game_from_parts(names: Vec<String>, pieces: Vec<PieceDef>, turn_order: Vec<PieceId>) -> (def: GameDefinition)
    requires
        names@.len() == pieces@.len(),
    ensures
        def.pieces@.len() == names@.len(),
        forall|i: int| 0 <= i < names@.len() ==> {
            let p = #[trigger] def.pieces@[i];
            &&& p.name@ == names@[i]@
            &&& p.piece.valid_moves@ == pieces@[i].valid_moves@
            &&& p.blocked_by@ == all_but_spec(i, names@.len() as int)
            &&& p.enabled
        },
        def.turn_order@ == turn_order@,
{
    let n = names.len();
    let mut out: Vec<Piece> = Vec::new();
    let mut names = names;
    let mut pieces = pieces;
    let ghost names0 = names@;
    let ghost pieces0 = pieces@;
    let mut i: usize = n;
    // Built from the back so each name and piece can be moved out without cloning.
    let mut rev: Vec<Piece> = Vec::new();
    while i > 0
        invariant
            n == names0.len(),
            n == pieces0.len(),
            i <= n,
            names@ == names0.subrange(0, i as int),
            pieces@ == pieces0.subrange(0, i as int),
            rev@.len() == n - i,
            forall|k: int| 0 <= k < n - i ==> {
                let p = #[trigger] rev@[k];
                let j = n - 1 - k;
                &&& p.name@ == names0[j]@
                &&& p.piece.valid_moves@ == pieces0[j].valid_moves@
                &&& p.blocked_by@ == all_but_spec(j, n as int)
                &&& p.enabled
            },
        decreases i,
    {
        i -= 1;
        let name = names.pop().unwrap();
        let pd = pieces.pop().unwrap();
        assert(names0.subrange(0, i + 1).last() == names0[i as int]);
        assert(pieces0.subrange(0, i + 1).last() == pieces0[i as int]);
        assert(names0.subrange(0, i + 1).drop_last() == names0.subrange(0, i as int));
        assert(pieces0.subrange(0, i + 1).drop_last() == pieces0.subrange(0, i as int));
        rev.push(piece(name, pd, all_but(i, n)));
    }
    while rev.len() > 0
        invariant
            n == names0.len(),
            out@.len() + rev@.len() == n,
            forall|k: int| 0 <= k < rev@.len() ==> {
                let p = #[trigger] rev@[k];
                let j = n - 1 - k;
                &&& p.name@ == names0[j]@
                &&& p.piece.valid_moves@ == pieces0[j].valid_moves@
                &&& p.blocked_by@ == all_but_spec(j, n as int)
                &&& p.enabled
            },
            forall|k: int| 0 <= k < out@.len() ==> {
                let p = #[trigger] out@[k];
                &&& p.name@ == names0[k]@
                &&& p.piece.valid_moves@ == pieces0[k].valid_moves@
                &&& p.blocked_by@ == all_but_spec(k, n as int)
                &&& p.enabled
            },
        decreases rev.len(),
    {
        let p = rev.pop().unwrap();
        out.push(p);
    }
    GameDefinition { pieces: out, turn_order }
}

/// Clamp a catalog slot index into the piece catalog.
pub fn clamp_catalog_index(index: usize, catalog_len: usize) -> (clamped: usize)
    ensures
        clamped == if catalog_len <= 1 { 0 } else if index < catalog_len - 1 { index } else { (catalog_len - 1) as usize },
{
    let len = if catalog_len < 1 { 1 } else { catalog_len };
    if index < len - 1 { index } else { len - 1 }
}

/// Number of pieces of a generated game: `min` when the range is a single value, otherwise a
/// random count in `min..=max`.
pub fn random_piece_count(min: u32, max: u32, rng: &mut StdRng) -> (n: usize)
    requires
        min <= max,
    ensures
        min <= n <= max,
        min == max ==> n == min,
{
    if min == max {
        min as usize
    } else {
        random_u32_inclusive(rng, min, max) as usize
    }
}

/// The ids `0..n` in a random order.
pub fn shuffled_turn_order(n: usize, rng: &mut StdRng) -> (order: Vec<PieceId>)
    ensures
        order@.len() == n,
        order@.to_multiset() == id_range(n as int).to_multiset(),
{
    let mut order: Vec<PieceId> = Vec::new();
    let mut i: usize = 0;
    while i < n
        invariant
            i <= n,
            order@ == id_range(i as int),
        decreases n - i,
    {
        order.push(i);
        i += 1;
        assert(order@ =~= id_range(i as int));
    }
    shuffle_ids(&mut order, rng);
    order
}

/// Every mirror image (under `sym`) of a move of `s` is a move of `s`.
pub open spec fn mirror_closed(s: Seq<(i32, i32)>, sym: AttackSymmetry) -> bool {
    forall|m: (i32, i32), n: (i32, i32)| s.contains(m) && #[trigger] mirror_of(sym, n, m) ==> s.contains(n)
}

/// A symmetrised pattern is mirror-symmetric: the mirror of any of its moves is one of its moves.
pub proof fn lemma_symmetry_closed(base: Seq<(i32, i32)>, sym: AttackSymmetry, result: Seq<(i32, i32)>)
    requires
        sym != AttackSymmetry::Asymmetric,
        forall|m: (i32, i32)| #[trigger] result.contains(m) <==> symmetric_member(base, sym, m),
    ensures
        mirror_closed(result, sym),
{
    assert forall|m: (i32, i32), n: (i32, i32)| result.contains(m) && #[trigger] mirror_of(sym, n, m) implies result.contains(n) by {
        assert(symmetric_member(base, sym, m));
        assert(!is_origin(n));
        if base.contains(m) {
            assert(symmetric_member(base, sym, n));
        } else {
            let s0 = choose|s0: (i32, i32)| base.contains(s0) && !is_origin(s0) && #[trigger] mirror_of(sym, m, s0);
            if n == s0 {
                assert(symmetric_member(base, sym, n));
            } else {
                assert(mirror_of(sym, n, s0));
                assert(symmetric_member(base, sym, n));
            }
        }
    }
}

} // verus!
