//! Editing a roster: removing and duplicating pieces (renumbering the ids that refer to them),
//! and switching single attack squares of a piece's pattern on and off.

use vstd::prelude::*;
use crate::model::{GameDefinition, Piece, PieceDef, PieceId};
use crate::mutate::{clone_moves, extent_spec, move_extent, moves_negatable, normalize_moves, normalized_of, strictly_sorted};

verus! {

/// `p` and `q` agree on everything but their blockers.
pub open spec fn same_but_blockers(p: Piece, q: Piece) -> bool {
    &&& p.name@ == q.name@
    &&& p.piece.valid_moves@ == q.piece.valid_moves@
    &&& p.enabled == q.enabled
}

/// `p` and `q` agree on everything but their moves.
pub open spec fn same_but_moves(p: Piece, q: Piece) -> bool {
    &&& p.name@ == q.name@
    &&& p.blocked_by@ == q.blocked_by@
    &&& p.enabled == q.enabled
}

/// `ids` once piece `removed` is gone: its own id dropped, the ids above it shifted down.
pub open spec fn drop_id(ids: Seq<PieceId>, removed: PieceId) -> Seq<PieceId>
    decreases ids.len(),
{
    if ids.len() == 0 {
        ids
    } else {
        let rest = drop_id(ids.drop_last(), removed);
        let last = ids.last();
        if last == removed {
            rest
        } else if last > removed {
            rest.push((last - 1) as PieceId)
        } else {
            rest.push(last)
        }
    }
}

/// Every id in `ids` is below `n`.
pub open spec fn ids_below(ids: Seq<PieceId>, n: int) -> bool {
    forall|i: int| 0 <= i < ids.len() ==> #[trigger] ids[i] < n
}

/// Every id that the roster holds names one of its pieces.
pub open spec fn roster_ids_in_range(def: GameDefinition) -> bool {
    &&& ids_below(def.turn_order@, def.pieces@.len() as int)
    &&& forall|p: int| 0 <= p < def.pieces@.len() ==> ids_below(#[trigger] def.pieces@[p].blocked_by@, def.pieces@.len() as int)
}

/// Dropping a piece keeps the remaining ids within the smaller roster.
pub proof fn lemma_drop_id_in_range(ids: Seq<PieceId>, removed: PieceId, n: int)
    requires
        ids_below(ids, n),
        removed < n,
    ensures
        ids_below(drop_id(ids, removed), n - 1),
    decreases ids.len(),
{
    if ids.len() > 0 {
        lemma_drop_id_in_range(ids.drop_last(), removed, n);
        assert(ids.last() == ids[ids.len() - 1]);
    }
}

fn drop_id_vec(ids: &Vec<PieceId>, removed: PieceId) -> (out: Vec<PieceId>)
    ensures
        out@ == drop_id(ids@, removed),
{
    let mut out: Vec<PieceId> = Vec::new();
    let mut i: usize = 0;
    while i < ids.len()
        invariant
            i <= ids@.len(),
            out@ == drop_id(ids@.take(i as int), removed),
        decreases ids.len() - i,
    {
        let id = ids[i];
        proof {
            assert(ids@.take(i + 1).drop_last() == ids@.take(i as int));
            assert(ids@.take(i + 1).last() == id);
        }
        if id == removed {
        } else if id > removed {
            out.push(id - 1);
        } else {
            out.push(id);
        }
        i += 1;
    }
    assert(ids@.take(ids@.len() as int) == ids@);
    out
}

fn copy_ids(v: &Vec<PieceId>) -> (c: Vec<PieceId>)
    ensures
        c@ == v@,
{
    let mut c: Vec<PieceId> = Vec::new();
    let mut i: usize = 0;
    while i < v.len()
        invariant
            i <= v@.len(),
            c@ == v@.subrange(0, i as int),
        decreases v.len() - i,
    {
        c.push(v[i]);
        i += 1;
        assert(c@ =~= v@.subrange(0, i as int));
    }
    assert(v@.subrange(0, v@.len() as int) == v@);
    c
}

fn contains_id(ids: &Vec<PieceId>, id: PieceId) -> (found: bool)
    ensures
        found == ids@.contains(id),
{
    let mut i: usize = 0;
    while i < ids.len()
        invariant
            i <= ids@.len(),
            forall|k: int| 0 <= k < i ==> ids@[k] != id,
        decreases ids.len() - i,
    {
        if ids[i] == id {
            return true;
        }
        i += 1;
    }
    false
}

/// Remove piece `piece_idx` from the roster: later pieces move down one id, and every blocker
/// list and the turn order forget it and follow the renumbering (the turn order is emptied with
/// the last piece). An id past the roster changes nothing.
pub fn remove_piece(def: &mut GameDefinition, piece_idx: PieceId)
    ensures
        piece_idx >= old(def).pieces@.len() ==> crate::model::same_definition(*old(def), *final(def)),
        piece_idx < old(def).pieces@.len() ==> {
            let n = old(def).pieces@.len() as int;
            &&& final(def).pieces@.len() == n - 1
            &&& forall|k: int| 0 <= k < n - 1 ==> {
                let src = if k < piece_idx { k } else { k + 1 };
                &&& same_but_blockers(#[trigger] final(def).pieces@[k], old(def).pieces@[src])
                &&& final(def).pieces@[k].blocked_by@ == drop_id(old(def).pieces@[src].blocked_by@, piece_idx)
            }
            &&& final(def).turn_order@ == if n == 1 { Seq::<PieceId>::empty() } else { drop_id(old(def).turn_order@, piece_idx) }
        },
{
    let n = def.pieces.len();
    if piece_idx >= n {
        proof {
            assert forall|i: int| 0 <= i < def.pieces@.len() implies {
                let p = #[trigger] def.pieces@[i];
                let q = def.pieces@[i];
                &&& p.name@ == q.name@
                &&& p.piece.valid_moves@ == q.piece.valid_moves@
                &&& p.blocked_by@ == q.blocked_by@
                &&& p.enabled == q.enabled
            } by {}
        }
        return;
    }
    let mut pieces: Vec<Piece> = Vec::new();
    let mut i: usize = 0;
    while i < n
        invariant
            n == def.pieces@.len(),
            piece_idx < n,
            def == old(def),
            i <= n,
            pieces@.len() == if i <= piece_idx { i as int } else { i - 1 },
            forall|k: int| 0 <= k < pieces@.len() ==> {
                let src = if k < piece_idx { k } else { k + 1 };
                &&& same_but_blockers(#[trigger] pieces@[k], def.pieces@[src])
                &&& pieces@[k].blocked_by@ == drop_id(def.pieces@[src].blocked_by@, piece_idx)
            },
        decreases n - i,
    {
        if i != piece_idx {
            let p = &def.pieces[i];
            let q = Piece {
                name: p.name.clone(),
                piece: PieceDef { valid_moves: clone_moves(&p.piece.valid_moves) },
                blocked_by: drop_id_vec(&p.blocked_by, piece_idx),
                enabled: p.enabled,
            };
            pieces.push(q);
        }
        i += 1;
    }
    let turn_order = if n == 1 { Vec::new() } else { drop_id_vec(&def.turn_order, piece_idx) };
    def.pieces = pieces;
    def.turn_order = turn_order;
}

/// The roster-consistency law of [`remove_piece`]: when every id named a piece before, every id
/// names a piece after.
pub proof fn lemma_remove_piece_keeps_ids_in_range(before: GameDefinition, after: GameDefinition, piece_idx: PieceId)
    requires
        roster_ids_in_range(before),
        piece_idx < before.pieces@.len(),
        after.pieces@.len() == before.pieces@.len() - 1,
        forall|k: int| 0 <= k < before.pieces@.len() - 1 ==> (#[trigger] after.pieces@[k]).blocked_by@
            == drop_id(before.pieces@[if k < piece_idx { k } else { k + 1 }].blocked_by@, piece_idx),
        after.turn_order@ == if before.pieces@.len() == 1 { Seq::<PieceId>::empty() } else { drop_id(before.turn_order@, piece_idx) },
    ensures
        roster_ids_in_range(after),
{
    let n = before.pieces@.len() as int;
    if n > 1 {
        lemma_drop_id_in_range(before.turn_order@, piece_idx, n);
    }
    assert forall|p: int| 0 <= p < after.pieces@.len() implies ids_below(#[trigger] after.pieces@[p].blocked_by@, after.pieces@.len() as int) by {
        let src = if p < piece_idx { p } else { p + 1 };
        assert(ids_below(before.pieces@[src].blocked_by@, n));
        lemma_drop_id_in_range(before.pieces@[src].blocked_by@, piece_idx, n);
    }
}

/// Blockers of a piece once piece `new_id` copies piece `source`: whoever respected the source
/// respects the copy too.
pub open spec fn with_copy_blocker(ids: Seq<PieceId>, source: PieceId, new_id: PieceId) -> Seq<PieceId> {
    if ids.contains(source) && !ids.contains(new_id) { ids.push(new_id) } else { ids }
}

/// Append a copy of piece `piece_idx` named `"<name> copy"`, give it a turn at the end of the
/// turn order, and make every piece that respects the copied piece (as the roster stood before the
/// copy) respect the copy as well. Returns the copy's id; an id past the roster changes nothing.
pub fn duplicate_piece(def: &mut GameDefinition, piece_idx: PieceId) -> (new_id: Option<PieceId>)
    ensures
        piece_idx >= old(def).pieces@.len() ==> new_id is None && crate::model::same_definition(*old(def), *final(def)),
        piece_idx < old(def).pieces@.len() ==> {
            let n = old(def).pieces@.len() as int;
            let src = old(def).pieces@[piece_idx as int];
            let copy = final(def).pieces@[n];
            &&& new_id == Some(n as PieceId)
            &&& final(def).pieces@.len() == n + 1
            &&& forall|k: int| 0 <= k < n ==> {
                &&& same_but_blockers(#[trigger] final(def).pieces@[k], old(def).pieces@[k])
                &&& final(def).pieces@[k].blocked_by@ == with_copy_blocker(old(def).pieces@[k].blocked_by@, piece_idx, n as PieceId)
            }
            &&& copy.name@ == src.name@ + " copy"@
            &&& copy.piece.valid_moves@ == src.piece.valid_moves@
            &&& copy.blocked_by@ == src.blocked_by@
            &&& copy.enabled == src.enabled
            &&& final(def).turn_order@ == old(def).turn_order@.push(n as PieceId)
        },
{
    let n = def.pieces.len();
    if piece_idx >= n {
        proof {
            assert forall|i: int| 0 <= i < def.pieces@.len() implies {
                let p = #[trigger] def.pieces@[i];
                let q = def.pieces@[i];
                &&& p.name@ == q.name@
                &&& p.piece.valid_moves@ == q.piece.valid_moves@
                &&& p.blocked_by@ == q.blocked_by@
                &&& p.enabled == q.enabled
            } by {}
        }
        return None;
    }
    let src = &def.pieces[piece_idx];
    let mut name = src.name.clone();
    name.append(" copy");
    let copy = Piece {
        name,
        piece: PieceDef { valid_moves: clone_moves(&src.piece.valid_moves) },
        blocked_by: copy_ids(&src.blocked_by),
        enabled: src.enabled,
    };
    let mut pieces: Vec<Piece> = Vec::new();
    let mut i: usize = 0;
    while i < n
        invariant
            n == def.pieces@.len(),
            def == old(def),
            i <= n,
            pieces@.len() == i,
            forall|k: int| 0 <= k < i ==> {
                &&& same_but_blockers(#[trigger] pieces@[k], def.pieces@[k])
                &&& pieces@[k].blocked_by@ == with_copy_blocker(def.pieces@[k].blocked_by@, piece_idx, n as PieceId)
            },
        decreases n - i,
    {
        let p = &def.pieces[i];
        let mut blocked = copy_ids(&p.blocked_by);
        if contains_id(&p.blocked_by, piece_idx) && !contains_id(&p.blocked_by, n) {
            blocked.push(n);
        }
        let q = Piece {
            name: p.name.clone(),
            piece: PieceDef { valid_moves: clone_moves(&p.piece.valid_moves) },
            blocked_by: blocked,
            enabled: p.enabled,
        };
        pieces.push(q);
        i += 1;
    }
    pieces.push(copy);
    let mut turn_order = copy_ids(&def.turn_order);
    turn_order.push(n);
    def.pieces = pieces;
    def.turn_order = turn_order;
    Some(n)
}

/// A selected piece index clamped to the roster: at most the last id (zero for an empty roster).
pub fn clamp_piece_index(index: usize, piece_count: usize) -> (clamped: usize)
    ensures
        clamped == if piece_count == 0 { 0 } else if index < piece_count { index as int } else { piece_count - 1 },
{
    if piece_count == 0 {
        0
    } else if index < piece_count {
        index
    } else {
        piece_count - 1
    }
}

/// Sort each piece's moves and drop duplicates; nothing else changes.
pub fn dedupe_moves(def: &mut GameDefinition)
    ensures
        final(def).turn_order@ == old(def).turn_order@,
        final(def).pieces@.len() == old(def).pieces@.len(),
        forall|k: int| 0 <= k < old(def).pieces@.len() ==> {
            &&& same_but_moves(#[trigger] final(def).pieces@[k], old(def).pieces@[k])
            &&& normalized_of(final(def).pieces@[k].piece.valid_moves@, old(def).pieces@[k].piece.valid_moves@)
        },
{
    let n = def.pieces.len();
    let mut pieces: Vec<Piece> = Vec::new();
    let mut i: usize = 0;
    while i < n
        invariant
            n == def.pieces@.len(),
            def == old(def),
            i <= n,
            pieces@.len() == i,
            forall|k: int| 0 <= k < i ==> {
                &&& same_but_moves(#[trigger] pieces@[k], def.pieces@[k])
                &&& normalized_of(pieces@[k].piece.valid_moves@, def.pieces@[k].piece.valid_moves@)
            },
        decreases n - i,
    {
        let p = &def.pieces[i];
        let mut moves = clone_moves(&p.piece.valid_moves);
        normalize_moves(&mut moves);
        let q = Piece {
            name: p.name.clone(),
            piece: PieceDef { valid_moves: moves },
            blocked_by: copy_ids(&p.blocked_by),
            enabled: p.enabled,
        };
        pieces.push(q);
        i += 1;
    }
    def.pieces = pieces;
}

/// The moves once square `(x, y)` is switched on (added) or off (removed), sorted and without
/// duplicates.
pub open spec fn square_set(before: Seq<(i32, i32)>, x: i32, y: i32, on: bool, after: Seq<(i32, i32)>) -> bool {
    &&& strictly_sorted(after)
    &&& forall|m: (i32, i32)| #[trigger] after.contains(m) <==> if m == (x, y) { on } else { before.contains(m) }
}

/// Switch attack square `(x, y)` on or off; the moves come back sorted and without duplicates.
pub fn set_attack_square(moves: &mut Vec<(i32, i32)>, x: i32, y: i32, on: bool)
    ensures
        square_set(old(moves)@, x, y, on, final(moves)@),
{
    let ghost before = moves@;
    let mut kept: Vec<(i32, i32)> = Vec::new();
    let mut i: usize = 0;
    while i < moves.len()
        invariant
            moves@ == before,
            i <= before.len(),
            forall|m: (i32, i32)| #[trigger] kept@.contains(m) <==> m != (x, y) && before.subrange(0, i as int).contains(m),
        decreases moves.len() - i,
    {
        let m = moves[i];
        let ghost kept0 = kept@;
        let skip = m.0 == x && m.1 == y;
        assert(skip <==> m == (x, y));
        if !skip {
            kept.push(m);
        }
        proof {
            let s0 = before.subrange(0, i as int);
            let s1 = before.subrange(0, i + 1);
            assert(s1 == s0.push(m));
            assert forall|z: (i32, i32)| #[trigger] kept@.contains(z) <==> z != (x, y) && s1.contains(z) by {
                if s1.contains(z) {
                    let k = choose|k: int| 0 <= k < s1.len() && s1[k] == z;
                    if k < s0.len() {
                        assert(s0[k] == z);
                    }
                }
                if s0.contains(z) {
                    let k = choose|k: int| 0 <= k < s0.len() && s0[k] == z;
                    assert(s1[k] == z);
                }
                if z == m {
                    assert(s1[i as int] == z);
                }
                if kept@.contains(z) {
                    let k = choose|k: int| 0 <= k < kept@.len() && kept@[k] == z;
                    if k < kept0.len() {
                        assert(kept0[k] == z);
                    }
                }
                if kept0.contains(z) {
                    let k = choose|k: int| 0 <= k < kept0.len() && kept0[k] == z;
                    assert(kept@[k] == z);
                }
                if !skip && z == m {
                    assert(kept@[kept0.len() as int] == z);
                }
            }
        }
        i += 1;
    }
    assert(before.subrange(0, before.len() as int) == before);
    let ghost filtered = kept@;
    assert(forall|z: (i32, i32)| #[trigger] filtered.contains(z) <==> z != (x, y) && before.contains(z));
    if on {
        let ghost kept0 = kept@;
        kept.push((x, y));
        proof {
            assert forall|z: (i32, i32)| kept@.contains(z) <==> kept0.contains(z) || z == (x, y) by {
                if kept@.contains(z) {
                    let k = choose|k: int| 0 <= k < kept@.len() && kept@[k] == z;
                    if k < kept0.len() {
                        assert(kept0[k] == z);
                    }
                }
                if kept0.contains(z) {
                    let k = choose|k: int| 0 <= k < kept0.len() && kept0[k] == z;
                    assert(kept@[k] == z);
                }
                if z == (x, y) {
                    assert(kept@[kept0.len() as int] == z);
                }
            }
        }
    }
    let ghost pre = kept@;
    assert forall|z: (i32, i32)| #[trigger] pre.contains(z) <==> if z == (x, y) { on } else { before.contains(z) } by {
        assert(filtered.contains(z) <==> z != (x, y) && before.contains(z));
        if on {
            assert(pre.contains(z) <==> filtered.contains(z) || z == (x, y));
        } else {
            assert(pre == filtered);
        }
    }
    normalize_moves(&mut kept);
    *moves = kept;
    proof {
        assert forall|z: (i32, i32)| #[trigger] moves@.contains(z) <==> if z == (x, y) { on } else { before.contains(z) } by {
            assert(moves@.contains(z) <==> pre.contains(z));
        }
    }
}

/// Whether piece `piece_idx` attacks `(x, y)`.
pub fn attack_square_on(pieces: &Vec<Piece>, piece_idx: usize, x: i32, y: i32) -> (on: bool)
    requires
        piece_idx < pieces@.len(),
    ensures
        on == pieces@[piece_idx as int].piece.valid_moves@.contains((x, y)),
{
    let moves = &pieces[piece_idx].piece.valid_moves;
    let mut i: usize = 0;
    while i < moves.len()
        invariant
            moves@ == pieces@[piece_idx as int].piece.valid_moves@,
            i <= moves@.len(),
            forall|k: int| 0 <= k < i ==> moves@[k] != (x, y),
        decreases moves.len() - i,
    {
        let m = moves[i];
        if m.0 == x && m.1 == y {
            assert(moves@[i as int] == (x, y));
            return true;
        }
        i += 1;
    }
    false
}

fn with_moves(p: &Piece, moves: Vec<(i32, i32)>) -> (q: Piece)
    ensures
        same_but_moves(q, *p),
        q.piece.valid_moves@ == moves@,
{
    Piece {
        name: p.name.clone(),
        piece: PieceDef { valid_moves: moves },
        blocked_by: copy_ids(&p.blocked_by),
        enabled: p.enabled,
    }
}

/// Switch `(x, y)` on or off in piece `piece_idx`'s pattern, or in every piece's when
/// `sync_all`. Returns `false`, changing nothing, when the square of `piece_idx` already is
/// as asked.
pub fn apply_attack_square(pieces: &mut Vec<Piece>, piece_idx: usize, x: i32, y: i32, on: bool, sync_all: bool) -> (changed: bool)
    requires
        piece_idx < old(pieces)@.len(),
    ensures
        changed == (old(pieces)@[piece_idx as int].piece.valid_moves@.contains((x, y)) != on),
        final(pieces)@.len() == old(pieces)@.len(),
        forall|k: int| 0 <= k < old(pieces)@.len() ==> {
            &&& same_but_moves(#[trigger] final(pieces)@[k], old(pieces)@[k])
            &&& if changed && (sync_all || k == piece_idx) {
                square_set(old(pieces)@[k].piece.valid_moves@, x, y, on, final(pieces)@[k].piece.valid_moves@)
            } else {
                final(pieces)@[k].piece.valid_moves@ == old(pieces)@[k].piece.valid_moves@
            }
        },
{
    if attack_square_on(pieces, piece_idx, x, y) == on {
        proof {
            assert forall|k: int| 0 <= k < pieces@.len() implies same_but_moves(#[trigger] pieces@[k], pieces@[k]) by {}
        }
        return false;
    }
    let n = pieces.len();
    let mut out: Vec<Piece> = Vec::new();
    let mut i: usize = 0;
    while i < n
        invariant
            n == pieces@.len(),
            pieces == old(pieces),
            piece_idx < n,
            i <= n,
            out@.len() == i,
            forall|k: int| 0 <= k < i ==> {
                &&& same_but_moves(#[trigger] out@[k], pieces@[k])
                &&& if sync_all || k == piece_idx {
                    square_set(pieces@[k].piece.valid_moves@, x, y, on, out@[k].piece.valid_moves@)
                } else {
                    out@[k].piece.valid_moves@ == pieces@[k].piece.valid_moves@
                }
            },
        decreases n - i,
    {
        let p = &pieces[i];
        let mut moves = clone_moves(&p.piece.valid_moves);
        if sync_all || i == piece_idx {
            set_attack_square(&mut moves, x, y, on);
        }
        out.push(with_moves(p, moves));
        i += 1;
    }
    *pieces = out;
    true
}

/// Remove every attack square of piece `piece_idx`, or of every piece when `sync_all`.
pub fn clear_attack_squares(pieces: &mut Vec<Piece>, piece_idx: usize, sync_all: bool)
    requires
        !sync_all ==> piece_idx < old(pieces)@.len(),
    ensures
        final(pieces)@.len() == old(pieces)@.len(),
        forall|k: int| 0 <= k < old(pieces)@.len() ==> {
            &&& same_but_moves(#[trigger] final(pieces)@[k], old(pieces)@[k])
            &&& final(pieces)@[k].piece.valid_moves@ == if sync_all || k == piece_idx {
                Seq::<(i32, i32)>::empty()
            } else {
                old(pieces)@[k].piece.valid_moves@
            }
        },
{
    let n = pieces.len();
    let mut out: Vec<Piece> = Vec::new();
    let mut i: usize = 0;
    while i < n
        invariant
            n == pieces@.len(),
            pieces == old(pieces),
            i <= n,
            out@.len() == i,
            forall|k: int| 0 <= k < i ==> {
                &&& same_but_moves(#[trigger] out@[k], pieces@[k])
                &&& out@[k].piece.valid_moves@ == if sync_all || k == piece_idx {
                    Seq::<(i32, i32)>::empty()
                } else {
                    pieces@[k].piece.valid_moves@
                }
            },
        decreases n - i,
    {
        let p = &pieces[i];
        let moves = if sync_all || i == piece_idx { Vec::new() } else { clone_moves(&p.piece.valid_moves) };
        out.push(with_moves(p, moves));
        i += 1;
    }
    *pieces = out;
}

/// Radius of the grid that shows `moves`: their largest Chebyshev length (one for no moves), at
/// least `min_radius`.
pub fn move_grid_radius(moves: &[(i32, i32)], min_radius: i32) -> (radius: i32)
    requires
        moves_negatable(moves@),
    ensures
        radius == if extent_spec(moves@) < min_radius { min_radius as int } else { extent_spec(moves@) },
{
    let extent = move_extent(moves);
    if extent < min_radius {
        min_radius
    } else {
        extent
    }
}

} // verus!
