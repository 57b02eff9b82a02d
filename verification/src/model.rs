//! Pieces, their move sets, game definitions and the preset roster.
//!
//! Piece colours are display data (floating point) and are kept by the application beside
//! the definition; everything the placement rules read lives here.

use vstd::prelude::*;
use vstd::string::*;
use crate::mutate::{clone_moves, normalize_moves, normalized_of};

verus! {

pub type PieceId = usize;

/// Upper bound on roster size: attacker sets are `u32` bitmasks.
pub const MAX_PIECES: usize = 32;

/// Attack pattern of a piece: the offsets it threatens from its square.
#[derive(Clone, Debug, PartialEq, Eq)]
pub struct PieceDef {
    pub valid_moves: Vec<(i32, i32)>,
}

pub open spec fn knight_moves() -> Seq<(i32, i32)> {
    seq![(1i32, 2i32), (2i32, 1i32), (2i32, -1i32), (1i32, -2i32), (-1i32, -2i32), (-2i32, -1i32), (-2i32, 1i32), (-1i32, 2i32)]
}

pub open spec fn wazir_moves() -> Seq<(i32, i32)> {
    seq![(1i32, 0i32), (-1i32, 0i32), (0i32, 1i32), (0i32, -1i32)]
}

pub open spec fn dabbaba_moves() -> Seq<(i32, i32)> {
    seq![(2i32, 0i32), (-2i32, 0i32), (0i32, 2i32), (0i32, -2i32)]
}

pub open spec fn ferz_moves() -> Seq<(i32, i32)> {
    seq![(1i32, 1i32), (1i32, -1i32), (-1i32, 1i32), (-1i32, -1i32)]
}

pub open spec fn alfil_moves() -> Seq<(i32, i32)> {
    seq![(2i32, 2i32), (2i32, -2i32), (-2i32, 2i32), (-2i32, -2i32)]
}

pub open spec fn camel_moves() -> Seq<(i32, i32)> {
    seq![(1i32, 3i32), (3i32, 1i32), (3i32, -1i32), (1i32, -3i32), (-1i32, -3i32), (-3i32, -1i32), (-3i32, 1i32), (-1i32, 3i32)]
}

pub open spec fn zebra_moves() -> Seq<(i32, i32)> {
    seq![(2i32, 3i32), (3i32, 2i32), (3i32, -2i32), (2i32, -3i32), (-2i32, -3i32), (-3i32, -2i32), (-3i32, 2i32), (-2i32, 3i32)]
}

pub open spec fn antelope_moves() -> Seq<(i32, i32)> {
    seq![(3i32, 4i32), (4i32, 3i32), (4i32, -3i32), (3i32, -4i32), (-3i32, -4i32), (-4i32, -3i32), (-4i32, 3i32), (-3i32, 4i32)]
}

pub open spec fn tripper_moves() -> Seq<(i32, i32)> {
    seq![(3i32, 3i32), (3i32, -3i32), (-3i32, 3i32), (-3i32, -3i32)]
}

pub open spec fn fourleaper_moves() -> Seq<(i32, i32)> {
    seq![(4i32, 0i32), (-4i32, 0i32), (0i32, 4i32), (0i32, -4i32)]
}

pub open spec fn giraffe_moves() -> Seq<(i32, i32)> {
    seq![(3i32, 1i32), (1i32, 3i32), (3i32, -1i32), (1i32, -3i32), (-3i32, -1i32), (-1i32, -3i32), (-3i32, 1i32), (-1i32, 3i32)]
}

pub open spec fn trebuchet_moves() -> Seq<(i32, i32)> {
    seq![(3i32, 0i32), (-3i32, 0i32), (0i32, 3i32), (0i32, -3i32)]
}

/// Moves of every piece in `pieces`, concatenated in order.
pub open spec fn all_moves(pieces: Seq<PieceDef>) -> Seq<(i32, i32)>
    decreases pieces.len(),
{
    if pieces.len() == 0 {
        seq![]
    } else {
        all_moves(pieces.drop_last()) + pieces.last().valid_moves@
    }
}

impl PieceDef {
    pub fn knight() -> (p: Self)
        ensures
            p.valid_moves@ == knight_moves(),
    {
        Self { valid_moves: vec![(1, 2), (2, 1), (2, -1), (1, -2), (-1, -2), (-2, -1), (-2, 1), (-1, 2)] }
    }

    /// Single-step orthogonal (one-square rook).
    pub fn wazir() -> (p: Self)
        ensures
            p.valid_moves@ == wazir_moves(),
    {
        Self { valid_moves: vec![(1, 0), (-1, 0), (0, 1), (0, -1)] }
    }

    /// Two-step orthogonal jump (dabbaba).
    pub fn dabbaba() -> (p: Self)
        ensures
            p.valid_moves@ == dabbaba_moves(),
    {
        Self { valid_moves: vec![(2, 0), (-2, 0), (0, 2), (0, -2)] }
    }

    /// Single-step diagonal (ferz).
    pub fn ferz() -> (p: Self)
        ensures
            p.valid_moves@ == ferz_moves(),
    {
        Self { valid_moves: vec![(1, 1), (1, -1), (-1, 1), (-1, -1)] }
    }

    /// Two-step diagonal jump (alfil).
    pub fn alfil() -> (p: Self)
        ensures
            p.valid_moves@ == alfil_moves(),
    {
        Self { valid_moves: vec![(2, 2), (2, -2), (-2, 2), (-2, -2)] }
    }

    /// Wazir moves followed by ferz moves.
    pub fn king() -> (p: Self)
        ensures
            p.valid_moves@ == wazir_moves() + ferz_moves(),
    {
        let mut m = Self::wazir().valid_moves;
        let mut f = Self::ferz().valid_moves;
        m.append(&mut f);
        Self { valid_moves: m }
    }

    pub fn camel() -> (p: Self)
        ensures
            p.valid_moves@ == camel_moves(),
    {
        Self { valid_moves: vec![(1, 3), (3, 1), (3, -1), (1, -3), (-1, -3), (-3, -1), (-3, 1), (-1, 3)] }
    }

    pub fn zebra() -> (p: Self)
        ensures
            p.valid_moves@ == zebra_moves(),
    {
        Self { valid_moves: vec![(2, 3), (3, 2), (3, -2), (2, -3), (-2, -3), (-3, -2), (-3, 2), (-2, 3)] }
    }

    /// Knight plus camel (standard fairy-chess **gnu**).
    pub fn gnu() -> (p: Self)
        ensures
            normalized_of(p.valid_moves@, knight_moves() + camel_moves()),
    {
        let v = vec![Self::knight(), Self::camel()];
        let p = Self::merge(v.as_slice());
        proof {
            lemma_all_moves_two(v@);
        }
        p
    }

    /// Knight plus zebra (distinct compound leaper).
    pub fn hippogriff() -> (p: Self)
        ensures
            normalized_of(p.valid_moves@, knight_moves() + zebra_moves()),
    {
        let v = vec![Self::knight(), Self::zebra()];
        let p = Self::merge(v.as_slice());
        proof {
            lemma_all_moves_two(v@);
        }
        p
    }

    /// Knight plus wazir plus alfil (used in chimera presets).
    pub fn chimera() -> (p: Self)
        ensures
            normalized_of(p.valid_moves@, knight_moves() + wazir_moves() + alfil_moves()),
    {
        let v = vec![Self::knight(), Self::wazir(), Self::alfil()];
        let p = Self::merge(v.as_slice());
        proof {
            lemma_all_moves_two(v@.drop_last());
            assert(v@.drop_last().drop_last() == seq![v@[0]]);
        }
        p
    }

    /// (3, 4) leaper.
    pub fn antelope() -> (p: Self)
        ensures
            p.valid_moves@ == antelope_moves(),
    {
        Self { valid_moves: vec![(3, 4), (4, 3), (4, -3), (3, -4), (-3, -4), (-4, -3), (-4, 3), (-3, 4)] }
    }

    /// (3, 3) diagonal leaper.
    pub fn tripper() -> (p: Self)
        ensures
            p.valid_moves@ == tripper_moves(),
    {
        Self { valid_moves: vec![(3, 3), (3, -3), (-3, 3), (-3, -3)] }
    }

    /// (4, 0) orthogonal leaper.
    pub fn fourleaper() -> (p: Self)
        ensures
            p.valid_moves@ == fourleaper_moves(),
    {
        Self { valid_moves: vec![(4, 0), (-4, 0), (0, 4), (0, -4)] }
    }

    /// Wide but short leaper: (±3, ±1) and (±1, ±3) only.
    pub fn giraffe() -> (p: Self)
        ensures
            p.valid_moves@ == giraffe_moves(),
    {
        Self { valid_moves: vec![(3, 1), (1, 3), (3, -1), (1, -3), (-3, -1), (-1, -3), (-3, 1), (-1, 3)] }
    }

    /// Jumps three orthogonally (fictional trebuchet).
    pub fn trebuchet() -> (p: Self)
        ensures
            p.valid_moves@ == trebuchet_moves(),
    {
        Self { valid_moves: vec![(3, 0), (-3, 0), (0, 3), (0, -3)] }
    }

    /// Combines move sets and deduplicates.
    pub fn merge(pieces: &[Self]) -> (p: Self)
        ensures
            normalized_of(p.valid_moves@, all_moves(pieces@)),
    {
        let mut valid_moves: Vec<(i32, i32)> = Vec::new();
        let mut i: usize = 0;
        while i < pieces.len()
            invariant
                i <= pieces.len(),
                valid_moves@ == all_moves(pieces@.subrange(0, i as int)),
            decreases pieces.len() - i,
        {
            let mut more = clone_moves(&pieces[i].valid_moves);
            proof {
                assert(pieces@.subrange(0, i + 1).drop_last() == pieces@.subrange(0, i as int));
            }
            valid_moves.append(&mut more);
            i += 1;
        }
        assert(pieces@.subrange(0, pieces@.len() as int) == pieces@);
        normalize_moves(&mut valid_moves);
        Self { valid_moves }
    }

    /// Named constructors for the piece picker (attack pattern only).
    pub fn piece_catalog() -> (catalog: Vec<(&'static str, PieceDef)>)
        ensures
            catalog@.len() == 16,
            catalog@[0].1.valid_moves@ == knight_moves(),
            catalog@[1].1.valid_moves@ == wazir_moves(),
            catalog@[2].1.valid_moves@ == dabbaba_moves(),
            catalog@[3].1.valid_moves@ == ferz_moves(),
            catalog@[4].1.valid_moves@ == alfil_moves(),
            catalog@[5].1.valid_moves@ == wazir_moves() + ferz_moves(),
            catalog@[6].1.valid_moves@ == camel_moves(),
            catalog@[7].1.valid_moves@ == zebra_moves(),
            catalog@[8].1.valid_moves@ == antelope_moves(),
            normalized_of(catalog@[9].1.valid_moves@, knight_moves() + camel_moves()),
            normalized_of(catalog@[10].1.valid_moves@, knight_moves() + zebra_moves()),
            normalized_of(
                catalog@[11].1.valid_moves@,
                knight_moves() + wazir_moves() + alfil_moves(),
            ),
            catalog@[12].1.valid_moves@ == giraffe_moves(),
            catalog@[13].1.valid_moves@ == trebuchet_moves(),
            catalog@[14].1.valid_moves@ == tripper_moves(),
            catalog@[15].1.valid_moves@ == fourleaper_moves(),
            catalog@[0].0@ == "knight"@,
            catalog@[1].0@ == "wazir"@,
            catalog@[2].0@ == "dabbaba"@,
            catalog@[3].0@ == "ferz"@,
            catalog@[4].0@ == "alfil"@,
            catalog@[5].0@ == "king"@,
            catalog@[6].0@ == "camel"@,
            catalog@[7].0@ == "zebra"@,
            catalog@[8].0@ == "antelope"@,
            catalog@[9].0@ == "gnu"@,
            catalog@[10].0@ == "hippogriff"@,
            catalog@[11].0@ == "chimera"@,
            catalog@[12].0@ == "giraffe"@,
            catalog@[13].0@ == "trebuchet"@,
            catalog@[14].0@ == "tripper"@,
            catalog@[15].0@ == "fourleaper"@,
    {
        vec![
            ("knight", PieceDef::knight()),
            ("wazir", PieceDef::wazir()),
            ("dabbaba", PieceDef::dabbaba()),
            ("ferz", PieceDef::ferz()),
            ("alfil", PieceDef::alfil()),
            ("king", PieceDef::king()),
            ("camel", PieceDef::camel()),
            ("zebra", PieceDef::zebra()),
            ("antelope", PieceDef::antelope()),
            ("gnu", PieceDef::gnu()),
            ("hippogriff", PieceDef::hippogriff()),
            ("chimera", PieceDef::chimera()),
            ("giraffe", PieceDef::giraffe()),
            ("trebuchet", PieceDef::trebuchet()),
            ("tripper", PieceDef::tripper()),
            ("fourleaper", PieceDef::fourleaper()),
        ]
    }
}

pub proof fn lemma_all_moves_two(v: Seq<PieceDef>)
    requires
        v.len() == 2,
    ensures
        all_moves(v) == v[0].valid_moves@ + v[1].valid_moves@,
{
    assert(v.drop_last().drop_last() =~= seq![]);
    assert(all_moves(v.drop_last()) == all_moves(v.drop_last().drop_last()) + v[0].valid_moves@);
    assert(all_moves(v.drop_last()) =~= v[0].valid_moves@);
}

/// One roster entry.
#[derive(Clone, Debug)]
pub struct Piece {
    pub name: String,
    pub piece: PieceDef,
    /// Armies whose pieces block placement on squares they attack.
    pub blocked_by: Vec<PieceId>,
    /// When false, this piece does not take placement turns (definition kept in roster).
    pub enabled: bool,
}

/// Roster and round-robin turn order.
#[derive(Clone, Debug)]
pub struct GameDefinition {
    pub pieces: Vec<Piece>,
    /// Round-robin turn order by piece index.
    pub turn_order: Vec<PieceId>,
}

/// Whether turn-order entry `id` names an enabled piece of the roster.
pub open spec fn is_active(pieces: Seq<Piece>, id: PieceId) -> bool {
    id < pieces.len() && pieces[id as int].enabled
}

/// Enabled entries of `order`, in order.
pub open spec fn active_ids(pieces: Seq<Piece>, order: Seq<PieceId>) -> Seq<PieceId>
    decreases order.len(),
{
    if order.len() == 0 {
        seq![]
    } else {
        let rest = active_ids(pieces, order.drop_last());
        if is_active(pieces, order.last()) {
            rest.push(order.last())
        } else {
            rest
        }
    }
}

pub proof fn lemma_active_ids_all(pieces: Seq<Piece>, order: Seq<PieceId>)
    requires
        forall|k: int| 0 <= k < order.len() ==> is_active(pieces, #[trigger] order[k]),
    ensures
        active_ids(pieces, order) == order,
    decreases order.len(),
{
    if order.len() > 0 {
        lemma_active_ids_all(pieces, order.drop_last());
        assert(order.drop_last().push(order.last()) =~= order);
    }
}

pub proof fn lemma_active_ids_bounds(pieces: Seq<Piece>, order: Seq<PieceId>)
    ensures
        active_ids(pieces, order).len() <= order.len(),
        forall|k: int| 0 <= k < active_ids(pieces, order).len() ==> is_active(pieces, #[trigger] active_ids(pieces, order)[k]),
    decreases order.len(),
{
    if order.len() > 0 {
        lemma_active_ids_bounds(pieces, order.drop_last());
    }
}

impl GameDefinition {
    /// Enabled turn-order entries.
    pub open spec fn spec_active_turn_order(&self) -> Seq<PieceId> {
        active_ids(self.pieces@, self.turn_order@)
    }
}

/// Enabled entries from [`GameDefinition::turn_order`] without building a `Vec` up front.
pub struct ActiveTurnOrder<'a> {
    def: &'a GameDefinition,
    /// Every `turn_order` id is an enabled piece — index directly into `turn_order`.
    dense: bool,
}

impl<'a> ActiveTurnOrder<'a> {
    pub closed spec fn spec_ids(&self) -> Seq<PieceId> {
        self.def.spec_active_turn_order()
    }

    pub closed spec fn wf(&self) -> bool {
        self.dense ==> self.def.turn_order@.len() > 0 && forall|k: int|
            0 <= k < self.def.turn_order@.len() ==> is_active(self.def.pieces@, #[trigger] self.def.turn_order@[k])
    }

    fn new(def: &'a GameDefinition) -> (r: Self)
        ensures
            r.wf(),
            r.spec_ids() == def.spec_active_turn_order(),
    {
        let mut dense = def.turn_order.len() > 0;
        let mut i: usize = 0;
        while i < def.turn_order.len()
            invariant
                i <= def.turn_order@.len(),
                dense ==> def.turn_order@.len() > 0 && forall|k: int| 0 <= k < i ==> is_active(def.pieces@, #[trigger] def.turn_order@[k]),
            decreases def.turn_order.len() - i,
        {
            let id = def.turn_order[i];
            if !(id < def.pieces.len() && def.pieces[id].enabled) {
                dense = false;
            }
            i += 1;
        }
        Self { def, dense }
    }

    /// Enabled ids as a vector, in turn order.
    pub fn iter(&self) -> (ids: Vec<PieceId>)
        ensures
            ids@ == self.spec_ids(),
    {
        let def = self.def;
        let mut ids: Vec<PieceId> = Vec::new();
        let mut i: usize = 0;
        while i < def.turn_order.len()
            invariant
                i <= def.turn_order@.len(),
                ids@ == active_ids(def.pieces@, def.turn_order@.subrange(0, i as int)),
            decreases def.turn_order.len() - i,
        {
            let id = def.turn_order[i];
            proof {
                assert(def.turn_order@.subrange(0, i + 1).drop_last() == def.turn_order@.subrange(0, i as int));
            }
            if id < def.pieces.len() && def.pieces[id].enabled {
                ids.push(id);
            }
            i += 1;
        }
        assert(def.turn_order@.subrange(0, def.turn_order@.len() as int) == def.turn_order@);
        ids
    }

    pub fn is_empty(&self) -> (empty: bool)
        requires
            self.wf(),
        ensures
            empty == (self.spec_ids().len() == 0),
    {
        proof {
            lemma_active_ids_bounds(self.def.pieces@, self.def.turn_order@);
        }
        if self.def.turn_order.len() == 0 {
            return true;
        }
        if self.dense {
            proof {
                lemma_active_ids_all(self.def.pieces@, self.def.turn_order@);
            }
            return false;
        }
        self.iter().len() == 0
    }

    pub fn len(&self) -> (n: usize)
        requires
            self.wf(),
        ensures
            n == self.spec_ids().len(),
    {
        if self.dense {
            proof {
                lemma_active_ids_all(self.def.pieces@, self.def.turn_order@);
            }
            self.def.turn_order.len()
        } else {
            self.iter().len()
        }
    }

    pub fn get(&self, index: usize) -> (id: Option<PieceId>)
        requires
            self.wf(),
        ensures
            index < self.spec_ids().len() ==> id == Some(self.spec_ids()[index as int]),
            index >= self.spec_ids().len() ==> id is None,
    {
        if self.dense {
            proof {
                lemma_active_ids_all(self.def.pieces@, self.def.turn_order@);
            }
            if index < self.def.turn_order.len() {
                Some(self.def.turn_order[index])
            } else {
                None
            }
        } else {
            let ids = self.iter();
            if index < ids.len() {
                Some(ids[index])
            } else {
                None
            }
        }
    }
}

/// Whether the moves of two pieces agree entry by entry.
fn moves_equal(a: &Vec<(i32, i32)>, b: &Vec<(i32, i32)>) -> (eq: bool)
    ensures
        eq == (a@ == b@),
{
    if a.len() != b.len() {
        return false;
    }
    let mut i: usize = 0;
    while i < a.len()
        invariant
            a@.len() == b@.len(),
            i <= a@.len(),
            forall|k: int| 0 <= k < i ==> a@[k] == b@[k],
        decreases a.len() - i,
    {
        if a[i].0 != b[i].0 || a[i].1 != b[i].1 {
            return false;
        }
        i += 1;
    }
    assert(a@ =~= b@);
    true
}

fn ids_equal(a: &Vec<PieceId>, b: &Vec<PieceId>) -> (eq: bool)
    ensures
        eq == (a@ == b@),
{
    if a.len() != b.len() {
        return false;
    }
    let mut i: usize = 0;
    while i < a.len()
        invariant
            a@.len() == b@.len(),
            i <= a@.len(),
            forall|k: int| 0 <= k < i ==> a@[k] == b@[k],
        decreases a.len() - i,
    {
        if a[i] != b[i] {
            return false;
        }
        i += 1;
    }
    assert(a@ =~= b@);
    true
}

/// `b` holds the same roster entries and turn order as `a`.
pub open spec fn same_definition(a: GameDefinition, b: GameDefinition) -> bool {
    &&& a.turn_order@ == b.turn_order@
    &&& a.pieces@.len() == b.pieces@.len()
    &&& forall|i: int| 0 <= i < a.pieces@.len() ==> {
        let p = #[trigger] a.pieces@[i];
        let q = b.pieces@[i];
        &&& p.name@ == q.name@
        &&& p.piece.valid_moves@ == q.piece.valid_moves@
        &&& p.blocked_by@ == q.blocked_by@
        &&& p.enabled == q.enabled
    }
}

fn copy_ids(v: &Vec<PieceId>) -> (c: Vec<PieceId>)
    ensures
        c@ == v@,
{
    let mut c: Vec<PieceId> = Vec::new();
    let mut i: usize = 0;
    while i < v.len()
        invariant
            i <= v@.len(),
            c@ == v@.subrange(0, i as int),
        decreases v.len() - i,
    {
        c.push(v[i]);
        i += 1;
        assert(c@ =~= v@.subrange(0, i as int));
    }
    assert(v@.subrange(0, v@.len() as int) == v@);
    c
}

impl GameDefinition {
    /// A deep copy of the definition.
    pub fn duplicate(&self) -> (copy: Self)
        ensures
            same_definition(*self, copy),
    {
        let mut pieces: Vec<Piece> = Vec::new();
        let mut i: usize = 0;
        while i < self.pieces.len()
            invariant
                i <= self.pieces@.len(),
                pieces@.len() == i,
                forall|k: int| 0 <= k < i ==> {
                    let p = #[trigger] self.pieces@[k];
                    let q = pieces@[k];
                    &&& p.name@ == q.name@
                    &&& p.piece.valid_moves@ == q.piece.valid_moves@
                    &&& p.blocked_by@ == q.blocked_by@
                    &&& p.enabled == q.enabled
                },
            decreases self.pieces.len() - i,
        {
            let p = &self.pieces[i];
            let q = Piece {
                name: p.name.clone(),
                piece: PieceDef { valid_moves: clone_moves(&p.piece.valid_moves) },
                blocked_by: copy_ids(&p.blocked_by),
                enabled: p.enabled,
            };
            pieces.push(q);
            i += 1;
        }
        GameDefinition { pieces, turn_order: copy_ids(&self.turn_order) }
    }
}

/// Two pieces place identically: same moves, same blockers, same enabled flag.
pub open spec fn same_piece_rules(a: Piece, b: Piece) -> bool {
    a.piece.valid_moves@ == b.piece.valid_moves@ && a.blocked_by@ == b.blocked_by@ && a.enabled
        == b.enabled
}

/// Two definitions drive the same placement simulation.
pub open spec fn spec_same_sim_state(a: GameDefinition, b: GameDefinition) -> bool {
    &&& a.turn_order@ == b.turn_order@
    &&& a.pieces@.len() == b.pieces@.len()
    &&& forall|i: int| 0 <= i < a.pieces@.len() ==> same_piece_rules(#[trigger] a.pieces@[i], b.pieces@[i])
}

/// Digit `d` (`0..10`) as a character.
pub open spec fn digit_char(d: nat) -> char {
    if d == 0 {
        '0'
    } else if d == 1 {
        '1'
    } else if d == 2 {
        '2'
    } else if d == 3 {
        '3'
    } else if d == 4 {
        '4'
    } else if d == 5 {
        '5'
    } else if d == 6 {
        '6'
    } else if d == 7 {
        '7'
    } else if d == 8 {
        '8'
    } else {
        '9'
    }
}

/// Decimal representation of a natural number.
pub open spec fn decimal(n: nat) -> Seq<char>
    decreases n,
{
    if n < 10 {
        seq![digit_char(n)]
    } else {
        decimal(n / 10).push(digit_char(n % 10))
    }
}

fn digit_str(d: usize) -> (s: &'static str)
    requires
        d < 10,
    ensures
        s@ == seq![digit_char(d as nat)],
{
    proof {
        reveal_strlit("0");
        reveal_strlit("1");
        reveal_strlit("2");
        reveal_strlit("3");
        reveal_strlit("4");
        reveal_strlit("5");
        reveal_strlit("6");
        reveal_strlit("7");
        reveal_strlit("8");
        reveal_strlit("9");
    }
    if d == 0 {
        "0"
    } else if d == 1 {
        "1"
    } else if d == 2 {
        "2"
    } else if d == 3 {
        "3"
    } else if d == 4 {
        "4"
    } else if d == 5 {
        "5"
    } else if d == 6 {
        "6"
    } else if d == 7 {
        "7"
    } else if d == 8 {
        "8"
    } else {
        "9"
    }
}

/// Decimal text of `n`.
pub fn decimal_string(n: usize) -> (s: String)
    ensures
        s@ == decimal(n as nat),
    decreases n,
{
    if n < 10 {
        String::from_str(digit_str(n))
    } else {
        let mut s = decimal_string(n / 10);
        s.append(digit_str(n % 10));
        s
    }
}

/// `{label}_{i}` piece name.
pub open spec fn indexed_name(label: Seq<char>, i: nat) -> Seq<char> {
    label + seq!['_'] + decimal(i)
}

pub(crate) fn indexed_name_string(label: &str, i: usize) -> (s: String)
    ensures
        s@ == indexed_name(label@, i as nat),
{
    let mut s = String::from_str(label);
    proof {
        reveal_strlit("_");
    }
    s.append("_");
    let d = decimal_string(i);
    s.append(d.as_str());
    s
}

/// Every id but `i` among `0..n`, ascending.
pub open spec fn all_but_spec(i: int, n: int) -> Seq<PieceId> {
    Seq::new((n - 1) as nat, |j: int| (if j < i { j } else { j + 1 }) as PieceId)
}

/// `0..n` as ids.
pub open spec fn id_range(n: int) -> Seq<PieceId> {
    Seq::new(n as nat, |j: int| j as PieceId)
}

pub fn all_but(i: PieceId, n: usize) -> (ids: Vec<PieceId>)
    requires
        i < n,
    ensures
        ids@ == all_but_spec(i as int, n as int),
{
    let mut ids: Vec<PieceId> = Vec::new();
    let mut j: usize = 0;
    while j < n
        invariant
            i < n,
            j <= n,
            ids@.len() == (if j <= i { j as int } else { j - 1 }),
            forall|k: int| 0 <= k < ids@.len() ==> #[trigger] ids@[k] == (if k < i { k } else { k + 1 }) as PieceId,
        decreases n - j,
    {
        if j != i {
            ids.push(j);
        }
        j += 1;
    }
    assert(ids@ =~= all_but_spec(i as int, n as int));
    ids
}

/// Piece with the given name, moves and blockers, enabled.
pub open spec fn piece_is(p: Piece, name: Seq<char>, moves: Seq<(i32, i32)>, blocked_by: Seq<PieceId>) -> bool {
    p.name@ == name && p.piece.valid_moves@ == moves && p.blocked_by@ == blocked_by && p.enabled
}

/// Two pieces, each blocked by the other, taking turns `0, 1`.
pub open spec fn is_pairwise(
    def: GameDefinition,
    name_a: Seq<char>,
    moves_a: Seq<(i32, i32)>,
    name_b: Seq<char>,
    moves_b: Seq<(i32, i32)>,
) -> bool {
    &&& def.pieces@.len() == 2
    &&& piece_is(def.pieces@[0], name_a, moves_a, seq![1])
    &&& piece_is(def.pieces@[1], name_b, moves_b, seq![0])
    &&& def.turn_order@ == seq![0usize, 1usize]
}

/// `n` copies of one piece, named `{label}_{i}`, each blocked by all the others, in order.
pub open spec fn is_clique(def: GameDefinition, label: Seq<char>, moves: Seq<(i32, i32)>, n: int) -> bool {
    &&& def.pieces@.len() == n
    &&& forall|i: int| 0 <= i < n ==> piece_is(#[trigger] def.pieces@[i], indexed_name(label, i as nat), moves, all_but_spec(i, n))
    &&& def.turn_order@ == id_range(n)
}

pub(crate) fn piece(name: String, piece_def: PieceDef, blocked_by: Vec<PieceId>) -> (p: Piece)
    ensures
        p.name == name,
        p.piece == piece_def,
        p.blocked_by == blocked_by,
        p.enabled,
{
    Piece { name, piece: piece_def, blocked_by, enabled: true }
}

fn pairwise(label_a: &str, piece_a: PieceDef, label_b: &str, piece_b: PieceDef) -> (def: GameDefinition)
    ensures
        is_pairwise(def, label_a@, piece_a.valid_moves@, label_b@, piece_b.valid_moves@),
{
    let mut blocked_a: Vec<PieceId> = Vec::new();
    blocked_a.push(1);
    let mut blocked_b: Vec<PieceId> = Vec::new();
    blocked_b.push(0);
    assert(blocked_a@ =~= seq![1usize]);
    assert(blocked_b@ =~= seq![0usize]);
    let a = piece(String::from_str(label_a), piece_a, blocked_a);
    let b = piece(String::from_str(label_b), piece_b, blocked_b);
    let mut pieces: Vec<Piece> = Vec::new();
    pieces.push(a);
    pieces.push(b);
    let mut turn_order: Vec<PieceId> = Vec::new();
    turn_order.push(0);
    turn_order.push(1);
    assert(turn_order@ =~= seq![0usize, 1usize]);
    GameDefinition { pieces, turn_order }
}

fn clique(label: &str, piece_def: PieceDef, n: usize) -> (def: GameDefinition)
    ensures
        is_clique(def, label@, piece_def.valid_moves@, n as int),
{
    let mut pieces: Vec<Piece> = Vec::new();
    let mut turn_order: Vec<PieceId> = Vec::new();
    let mut i: usize = 0;
    while i < n
        invariant
            i <= n,
            pieces@.len() == i,
            turn_order@ == id_range(i as int),
            forall|k: int| 0 <= k < i ==> piece_is(#[trigger] pieces@[k], indexed_name(label@, k as nat), piece_def.valid_moves@, all_but_spec(k, n as int)),
        decreases n - i,
    {
        let moves = clone_moves(&piece_def.valid_moves);
        let p = piece(indexed_name_string(label, i), PieceDef { valid_moves: moves }, all_but(i, n));
        pieces.push(p);
        turn_order.push(i);
        assert(turn_order@ =~= id_range(i + 1));
        i += 1;
    }
    GameDefinition { pieces, turn_order }
}

impl GameDefinition {
    /// Whether two definitions would produce the same placement simulation.
    pub fn same_sim_state(&self, other: &Self) -> (same: bool)
        ensures
            same == spec_same_sim_state(*self, *other),
    {
        if !ids_equal(&self.turn_order, &other.turn_order) {
            return false;
        }
        if self.pieces.len() != other.pieces.len() {
            return false;
        }
        let mut i: usize = 0;
        while i < self.pieces.len()
            invariant
                self.pieces@.len() == other.pieces@.len(),
                i <= self.pieces@.len(),
                forall|k: int| 0 <= k < i ==> same_piece_rules(#[trigger] self.pieces@[k], other.pieces@[k]),
            decreases self.pieces.len() - i,
        {
            let a = &self.pieces[i];
            let b = &other.pieces[i];
            if !moves_equal(&a.piece.valid_moves, &b.piece.valid_moves) || !ids_equal(&a.blocked_by, &b.blocked_by) || a.enabled != b.enabled {
                return false;
            }
            i += 1;
        }
        true
    }

    /// Enabled pieces in turn order (lazy view; no allocation on the hot path).
    pub fn active_turn_order(&self) -> (view: ActiveTurnOrder<'_>)
        ensures
            view.wf(),
            view.spec_ids() == self.spec_active_turn_order(),
    {
        ActiveTurnOrder::new(self)
    }

    pub fn piece(&self, id: PieceId) -> (p: &Piece)
        requires
            id < self.pieces@.len(),
        ensures
            *p == self.pieces@[id as int],
    {
        &self.pieces[id]
    }

    /// Append a new piece using a catalog piece; default name `{label}_{id}`.
    /// `blocked_by` is wired to every other piece (same as clique presets).
    pub fn push_piece_from_piece_preset(&mut self, preset_label: &str, piece_def: PieceDef)
        requires
            old(self).pieces@.len() < usize::MAX,
        ensures
            final(self).pieces@.len() == old(self).pieces@.len() + 1,
            final(self).turn_order@ == old(self).turn_order@.push(old(self).pieces@.len() as usize),
            forall|k: int| 0 <= k < old(self).pieces@.len() ==> {
                let before = #[trigger] old(self).pieces@[k];
                let after = final(self).pieces@[k];
                &&& after.name == before.name
                &&& after.piece == before.piece
                &&& after.enabled == before.enabled
                &&& after.blocked_by@ == if before.blocked_by@.contains(old(self).pieces@.len() as usize) {
                    before.blocked_by@
                } else {
                    before.blocked_by@.push(old(self).pieces@.len() as usize)
                }
            },
            piece_is(
                final(self).pieces@[old(self).pieces@.len() as int],
                indexed_name(preset_label@, old(self).pieces@.len() as nat),
                piece_def.valid_moves@,
                all_but_spec(old(self).pieces@.len() as int, old(self).pieces@.len() + 1int),
            ),
    {
        let id = self.pieces.len();
        let n = id + 1;
        let ghost before = self.pieces@;
        let mut k: usize = 0;
        while k < self.pieces.len()
            invariant
                id == before.len(),
                self.turn_order@ == old(self).turn_order@,
                self.pieces@.len() == before.len(),
                k <= before.len(),
                forall|j: int| k <= j < before.len() ==> #[trigger] self.pieces@[j] == before[j],
                forall|j: int| 0 <= j < k ==> {
                    let b = #[trigger] before[j];
                    let a = self.pieces@[j];
                    &&& a.name == b.name
                    &&& a.piece == b.piece
                    &&& a.enabled == b.enabled
                    &&& a.blocked_by@ == if b.blocked_by@.contains(id) {
                        b.blocked_by@
                    } else {
                        b.blocked_by@.push(id)
                    }
                },
            decreases before.len() - k,
        {
            let mut contains = false;
            let mut j: usize = 0;
            while j < self.pieces[k].blocked_by.len()
                invariant
                    k < self.pieces@.len(),
                    j <= self.pieces@[k as int].blocked_by@.len(),
                    contains == self.pieces@[k as int].blocked_by@.subrange(0, j as int).contains(id),
                decreases self.pieces@[k as int].blocked_by@.len() - j,
            {
                proof {
                    let s = self.pieces@[k as int].blocked_by@;
                    assert(s.subrange(0, j + 1) == s.subrange(0, j as int).push(s[j as int]));
                    if s.subrange(0, j as int).contains(id) {
                        let q = choose|q: int| 0 <= q < j && s.subrange(0, j as int)[q] == id;
                        assert(s.subrange(0, j + 1)[q] == id);
                    }
                    if s[j as int] == id {
                        assert(s.subrange(0, j + 1)[j as int] == id);
                    }
                    if s.subrange(0, j + 1).contains(id) && s[j as int] != id {
                        let t = s.subrange(0, j + 1);
                        let q = choose|q: int| 0 <= q < j + 1 && t[q] == id;
                        assert(s.subrange(0, j as int)[q] == id);
                    }
                }
                if self.pieces[k].blocked_by[j] == id {
                    contains = true;
                }
                j += 1;
            }
            assert(self.pieces@[k as int].blocked_by@.subrange(0, self.pieces@[k as int].blocked_by@.len() as int) == self.pieces@[k as int].blocked_by@);
            if !contains {
                self.pieces[k].blocked_by.push(id);
            }
            k += 1;
        }
        let name = indexed_name_string(preset_label, id);
        self.pieces.push(piece(name, piece_def, all_but(id, n)));
        self.turn_order.push(id);
    }
}


fn mixed_clique(names: Vec<&'static str>, defs: Vec<PieceDef>) -> (def: GameDefinition)
    requires
        names@.len() == defs@.len(),
    ensures
        def.pieces@.len() == names@.len(),
        forall|i: int| 0 <= i < names@.len() ==> piece_is(#[trigger] def.pieces@[i], names@[i]@, defs@[i].valid_moves@, all_but_spec(i, names@.len() as int)),
        def.turn_order@ == id_range(names@.len() as int),
{
    let n = names.len();
    let mut pieces: Vec<Piece> = Vec::new();
    let mut turn_order: Vec<PieceId> = Vec::new();
    let mut i: usize = 0;
    while i < n
        invariant
            n == names@.len(),
            n == defs@.len(),
            i <= n,
            pieces@.len() == i,
            turn_order@ == id_range(i as int),
            forall|k: int| 0 <= k < i ==> piece_is(#[trigger] pieces@[k], names@[k]@, defs@[k].valid_moves@, all_but_spec(k, n as int)),
        decreases n - i,
    {
        let moves = clone_moves(&defs[i].valid_moves);
        let p = piece(String::from_str(names[i]), PieceDef { valid_moves: moves }, all_but(i, n));
        pieces.push(p);
        turn_order.push(i);
        assert(turn_order@ =~= id_range(i + 1));
        i += 1;
    }
    GameDefinition { pieces, turn_order }
}

impl GameDefinition {    pub fn knight_2_pairwise() -> (def: Self)
        ensures
            def.pieces@.len() == 2,
            def.turn_order@ == seq![0usize, 1usize],
            def.pieces@[0].name@ == "knight_0"@,
            def.pieces@[0].piece.valid_moves@ == knight_moves(),
            def.pieces@[0].blocked_by@ == seq![1usize],
            def.pieces@[0].enabled,
            def.pieces@[1].name@ == "knight_1"@,
            def.pieces@[1].piece.valid_moves@ == knight_moves(),
            def.pieces@[1].blocked_by@ == seq![0usize],
            def.pieces@[1].enabled,
    {
        pairwise("knight_0", PieceDef::knight(), "knight_1", PieceDef::knight())
    }

    pub fn knight_3_clique() -> (def: Self)
        ensures
            def.pieces@.len() == 3,
            def.turn_order@ == id_range(3),
            forall|i: int| 0 <= i < 3 ==> #[trigger] def.pieces@[i].name@ == indexed_name("knight"@, i as nat) && def.pieces@[i].piece.valid_moves@ == knight_moves() && def.pieces@[i].blocked_by@ == all_but_spec(i, 3) && def.pieces@[i].enabled,
    {
        let def = clique("knight", PieceDef::knight(), 3);
        proof {
            reveal_strlit("knight");
        }
        def
    }

    pub fn knight_4_clique() -> (def: Self)
        ensures
            def.pieces@.len() == 4,
            def.turn_order@ == id_range(4),
            forall|i: int| 0 <= i < 4 ==> #[trigger] def.pieces@[i].name@ == indexed_name("knight"@, i as nat) && def.pieces@[i].piece.valid_moves@ == knight_moves() && def.pieces@[i].blocked_by@ == all_but_spec(i, 4) && def.pieces@[i].enabled,
    {
        let def = clique("knight", PieceDef::knight(), 4);
        proof {
            reveal_strlit("knight");
        }
        def
    }

    pub fn knight_5_clique() -> (def: Self)
        ensures
            def.pieces@.len() == 5,
            def.turn_order@ == id_range(5),
            forall|i: int| 0 <= i < 5 ==> #[trigger] def.pieces@[i].name@ == indexed_name("knight"@, i as nat) && def.pieces@[i].piece.valid_moves@ == knight_moves() && def.pieces@[i].blocked_by@ == all_but_spec(i, 5) && def.pieces@[i].enabled,
    {
        let def = clique("knight", PieceDef::knight(), 5);
        proof {
            reveal_strlit("knight");
        }
        def
    }

    pub fn knight_6_clique() -> (def: Self)
        ensures
            def.pieces@.len() == 6,
            def.turn_order@ == id_range(6),
            forall|i: int| 0 <= i < 6 ==> #[trigger] def.pieces@[i].name@ == indexed_name("knight"@, i as nat) && def.pieces@[i].piece.valid_moves@ == knight_moves() && def.pieces@[i].blocked_by@ == all_but_spec(i, 6) && def.pieces@[i].enabled,
    {
        let def = clique("knight", PieceDef::knight(), 6);
        proof {
            reveal_strlit("knight");
        }
        def
    }

    pub fn wazir_ferz_2_pairwise() -> (def: Self)
        ensures
            def.pieces@.len() == 2,
            def.turn_order@ == seq![0usize, 1usize],
            def.pieces@[0].name@ == "wazir_0"@,
            def.pieces@[0].piece.valid_moves@ == wazir_moves(),
            def.pieces@[0].blocked_by@ == seq![1usize],
            def.pieces@[0].enabled,
            def.pieces@[1].name@ == "ferz_1"@,
            def.pieces@[1].piece.valid_moves@ == ferz_moves(),
            def.pieces@[1].blocked_by@ == seq![0usize],
            def.pieces@[1].enabled,
    {
        pairwise("wazir_0", PieceDef::wazir(), "ferz_1", PieceDef::ferz())
    }

    pub fn king_knight_2_pairwise() -> (def: Self)
        ensures
            def.pieces@.len() == 2,
            def.turn_order@ == seq![0usize, 1usize],
            def.pieces@[0].name@ == "king_0"@,
            def.pieces@[0].piece.valid_moves@ == wazir_moves() + ferz_moves(),
            def.pieces@[0].blocked_by@ == seq![1usize],
            def.pieces@[0].enabled,
            def.pieces@[1].name@ == "knight_1"@,
            def.pieces@[1].piece.valid_moves@ == knight_moves(),
            def.pieces@[1].blocked_by@ == seq![0usize],
            def.pieces@[1].enabled,
    {
        pairwise("king_0", PieceDef::king(), "knight_1", PieceDef::knight())
    }

    pub fn wazir_ferz_knight_3_clique() -> (def: Self)
        ensures
            def.pieces@.len() == 3,
            def.turn_order@ == id_range(3),
            def.pieces@[0].name@ == "wazir_0"@,
            def.pieces@[0].piece.valid_moves@ == wazir_moves(),
            def.pieces@[0].blocked_by@ == all_but_spec(0, 3),
            def.pieces@[0].enabled,
            def.pieces@[1].name@ == "ferz_1"@,
            def.pieces@[1].piece.valid_moves@ == ferz_moves(),
            def.pieces@[1].blocked_by@ == all_but_spec(1, 3),
            def.pieces@[1].enabled,
            def.pieces@[2].name@ == "knight_2"@,
            def.pieces@[2].piece.valid_moves@ == knight_moves(),
            def.pieces@[2].blocked_by@ == all_but_spec(2, 3),
            def.pieces@[2].enabled,
    {
        mixed_clique(vec!["wazir_0", "ferz_1", "knight_2"], vec![PieceDef::wazir(), PieceDef::ferz(), PieceDef::knight()])
    }

    pub fn leaper_4_mixed_clique() -> (def: Self)
        ensures
            def.pieces@.len() == 4,
            def.turn_order@ == id_range(4),
            def.pieces@[0].name@ == "knight_0"@,
            def.pieces@[0].piece.valid_moves@ == knight_moves(),
            def.pieces@[0].blocked_by@ == all_but_spec(0, 4),
            def.pieces@[0].enabled,
            def.pieces@[1].name@ == "camel_1"@,
            def.pieces@[1].piece.valid_moves@ == camel_moves(),
            def.pieces@[1].blocked_by@ == all_but_spec(1, 4),
            def.pieces@[1].enabled,
            def.pieces@[2].name@ == "zebra_2"@,
            def.pieces@[2].piece.valid_moves@ == zebra_moves(),
            def.pieces@[2].blocked_by@ == all_but_spec(2, 4),
            def.pieces@[2].enabled,
            def.pieces@[3].name@ == "giraffe_3"@,
            def.pieces@[3].piece.valid_moves@ == giraffe_moves(),
            def.pieces@[3].blocked_by@ == all_but_spec(3, 4),
            def.pieces@[3].enabled,
    {
        mixed_clique(vec!["knight_0", "camel_1", "zebra_2", "giraffe_3"], vec![PieceDef::knight(), PieceDef::camel(), PieceDef::zebra(), PieceDef::giraffe()])
    }

    pub fn hippogriff_2_pairwise() -> (def: Self)
        ensures
            def.pieces@.len() == 2,
            def.turn_order@ == seq![0usize, 1usize],
            def.pieces@[0].name@ == "hippogriff_0"@,
            normalized_of(def.pieces@[0].piece.valid_moves@, knight_moves() + zebra_moves()),
            def.pieces@[0].blocked_by@ == seq![1usize],
            def.pieces@[0].enabled,
            def.pieces@[1].name@ == "hippogriff_1"@,
            normalized_of(def.pieces@[1].piece.valid_moves@, knight_moves() + zebra_moves()),
            def.pieces@[1].blocked_by@ == seq![0usize],
            def.pieces@[1].enabled,
    {
        pairwise("hippogriff_0", PieceDef::hippogriff(), "hippogriff_1", PieceDef::hippogriff())
    }

    pub fn hippogriff_3_clique() -> (def: Self)
        ensures
            def.pieces@.len() == 3,
            def.turn_order@ == id_range(3),
            forall|i: int| 0 <= i < 3 ==> #[trigger] def.pieces@[i].name@ == indexed_name("hippogriff"@, i as nat) && normalized_of(def.pieces@[i].piece.valid_moves@, knight_moves() + zebra_moves()) && def.pieces@[i].blocked_by@ == all_but_spec(i, 3) && def.pieces@[i].enabled,
    {
        let def = clique("hippogriff", PieceDef::hippogriff(), 3);
        proof {
            reveal_strlit("hippogriff");
        }
        def
    }

    pub fn trebuchet_dabbaba_2_pairwise() -> (def: Self)
        ensures
            def.pieces@.len() == 2,
            def.turn_order@ == seq![0usize, 1usize],
            def.pieces@[0].name@ == "trebuchet_0"@,
            def.pieces@[0].piece.valid_moves@ == trebuchet_moves(),
            def.pieces@[0].blocked_by@ == seq![1usize],
            def.pieces@[0].enabled,
            def.pieces@[1].name@ == "dabbaba_1"@,
            def.pieces@[1].piece.valid_moves@ == dabbaba_moves(),
            def.pieces@[1].blocked_by@ == seq![0usize],
            def.pieces@[1].enabled,
    {
        pairwise("trebuchet_0", PieceDef::trebuchet(), "dabbaba_1", PieceDef::dabbaba())
    }

    pub fn orthogonal_3_clique() -> (def: Self)
        ensures
            def.pieces@.len() == 3,
            def.turn_order@ == id_range(3),
            def.pieces@[0].name@ == "wazir_0"@,
            def.pieces@[0].piece.valid_moves@ == wazir_moves(),
            def.pieces@[0].blocked_by@ == all_but_spec(0, 3),
            def.pieces@[0].enabled,
            def.pieces@[1].name@ == "dabbaba_1"@,
            def.pieces@[1].piece.valid_moves@ == dabbaba_moves(),
            def.pieces@[1].blocked_by@ == all_but_spec(1, 3),
            def.pieces@[1].enabled,
            def.pieces@[2].name@ == "trebuchet_2"@,
            def.pieces@[2].piece.valid_moves@ == trebuchet_moves(),
            def.pieces@[2].blocked_by@ == all_but_spec(2, 3),
            def.pieces@[2].enabled,
    {
        mixed_clique(vec!["wazir_0", "dabbaba_1", "trebuchet_2"], vec![PieceDef::wazir(), PieceDef::dabbaba(), PieceDef::trebuchet()])
    }

    pub fn ferz_alfil_2_pairwise() -> (def: Self)
        ensures
            def.pieces@.len() == 2,
            def.turn_order@ == seq![0usize, 1usize],
            def.pieces@[0].name@ == "ferz_0"@,
            def.pieces@[0].piece.valid_moves@ == ferz_moves(),
            def.pieces@[0].blocked_by@ == seq![1usize],
            def.pieces@[0].enabled,
            def.pieces@[1].name@ == "alfil_1"@,
            def.pieces@[1].piece.valid_moves@ == alfil_moves(),
            def.pieces@[1].blocked_by@ == seq![0usize],
            def.pieces@[1].enabled,
    {
        pairwise("ferz_0", PieceDef::ferz(), "alfil_1", PieceDef::alfil())
    }

    pub fn king_3_clique() -> (def: Self)
        ensures
            def.pieces@.len() == 3,
            def.turn_order@ == id_range(3),
            forall|i: int| 0 <= i < 3 ==> #[trigger] def.pieces@[i].name@ == indexed_name("king"@, i as nat) && def.pieces@[i].piece.valid_moves@ == wazir_moves() + ferz_moves() && def.pieces@[i].blocked_by@ == all_but_spec(i, 3) && def.pieces@[i].enabled,
    {
        let def = clique("king", PieceDef::king(), 3);
        proof {
            reveal_strlit("king");
        }
        def
    }

    pub fn king_4_clique() -> (def: Self)
        ensures
            def.pieces@.len() == 4,
            def.turn_order@ == id_range(4),
            forall|i: int| 0 <= i < 4 ==> #[trigger] def.pieces@[i].name@ == indexed_name("king"@, i as nat) && def.pieces@[i].piece.valid_moves@ == wazir_moves() + ferz_moves() && def.pieces@[i].blocked_by@ == all_but_spec(i, 4) && def.pieces@[i].enabled,
    {
        let def = clique("king", PieceDef::king(), 4);
        proof {
            reveal_strlit("king");
        }
        def
    }

    pub fn king_6_clique() -> (def: Self)
        ensures
            def.pieces@.len() == 6,
            def.turn_order@ == id_range(6),
            forall|i: int| 0 <= i < 6 ==> #[trigger] def.pieces@[i].name@ == indexed_name("king"@, i as nat) && def.pieces@[i].piece.valid_moves@ == wazir_moves() + ferz_moves() && def.pieces@[i].blocked_by@ == all_but_spec(i, 6) && def.pieces@[i].enabled,
    {
        let def = clique("king", PieceDef::king(), 6);
        proof {
            reveal_strlit("king");
        }
        def
    }

    pub fn camel_2_pairwise() -> (def: Self)
        ensures
            def.pieces@.len() == 2,
            def.turn_order@ == seq![0usize, 1usize],
            def.pieces@[0].name@ == "camel_0"@,
            def.pieces@[0].piece.valid_moves@ == camel_moves(),
            def.pieces@[0].blocked_by@ == seq![1usize],
            def.pieces@[0].enabled,
            def.pieces@[1].name@ == "camel_1"@,
            def.pieces@[1].piece.valid_moves@ == camel_moves(),
            def.pieces@[1].blocked_by@ == seq![0usize],
            def.pieces@[1].enabled,
    {
        pairwise("camel_0", PieceDef::camel(), "camel_1", PieceDef::camel())
    }

    pub fn camel_3_clique() -> (def: Self)
        ensures
            def.pieces@.len() == 3,
            def.turn_order@ == id_range(3),
            forall|i: int| 0 <= i < 3 ==> #[trigger] def.pieces@[i].name@ == indexed_name("camel"@, i as nat) && def.pieces@[i].piece.valid_moves@ == camel_moves() && def.pieces@[i].blocked_by@ == all_but_spec(i, 3) && def.pieces@[i].enabled,
    {
        let def = clique("camel", PieceDef::camel(), 3);
        proof {
            reveal_strlit("camel");
        }
        def
    }

    pub fn zebra_2_pairwise() -> (def: Self)
        ensures
            def.pieces@.len() == 2,
            def.turn_order@ == seq![0usize, 1usize],
            def.pieces@[0].name@ == "zebra_0"@,
            def.pieces@[0].piece.valid_moves@ == zebra_moves(),
            def.pieces@[0].blocked_by@ == seq![1usize],
            def.pieces@[0].enabled,
            def.pieces@[1].name@ == "zebra_1"@,
            def.pieces@[1].piece.valid_moves@ == zebra_moves(),
            def.pieces@[1].blocked_by@ == seq![0usize],
            def.pieces@[1].enabled,
    {
        pairwise("zebra_0", PieceDef::zebra(), "zebra_1", PieceDef::zebra())
    }

    pub fn zebra_4_clique() -> (def: Self)
        ensures
            def.pieces@.len() == 4,
            def.turn_order@ == id_range(4),
            forall|i: int| 0 <= i < 4 ==> #[trigger] def.pieces@[i].name@ == indexed_name("zebra"@, i as nat) && def.pieces@[i].piece.valid_moves@ == zebra_moves() && def.pieces@[i].blocked_by@ == all_but_spec(i, 4) && def.pieces@[i].enabled,
    {
        let def = clique("zebra", PieceDef::zebra(), 4);
        proof {
            reveal_strlit("zebra");
        }
        def
    }

    pub fn dabbaba_2_pairwise() -> (def: Self)
        ensures
            def.pieces@.len() == 2,
            def.turn_order@ == seq![0usize, 1usize],
            def.pieces@[0].name@ == "dabbaba_0"@,
            def.pieces@[0].piece.valid_moves@ == dabbaba_moves(),
            def.pieces@[0].blocked_by@ == seq![1usize],
            def.pieces@[0].enabled,
            def.pieces@[1].name@ == "dabbaba_1"@,
            def.pieces@[1].piece.valid_moves@ == dabbaba_moves(),
            def.pieces@[1].blocked_by@ == seq![0usize],
            def.pieces@[1].enabled,
    {
        pairwise("dabbaba_0", PieceDef::dabbaba(), "dabbaba_1", PieceDef::dabbaba())
    }

    pub fn dabbaba_3_clique() -> (def: Self)
        ensures
            def.pieces@.len() == 3,
            def.turn_order@ == id_range(3),
            forall|i: int| 0 <= i < 3 ==> #[trigger] def.pieces@[i].name@ == indexed_name("dabbaba"@, i as nat) && def.pieces@[i].piece.valid_moves@ == dabbaba_moves() && def.pieces@[i].blocked_by@ == all_but_spec(i, 3) && def.pieces@[i].enabled,
    {
        let def = clique("dabbaba", PieceDef::dabbaba(), 3);
        proof {
            reveal_strlit("dabbaba");
        }
        def
    }

    pub fn alfil_3_clique() -> (def: Self)
        ensures
            def.pieces@.len() == 3,
            def.turn_order@ == id_range(3),
            forall|i: int| 0 <= i < 3 ==> #[trigger] def.pieces@[i].name@ == indexed_name("alfil"@, i as nat) && def.pieces@[i].piece.valid_moves@ == alfil_moves() && def.pieces@[i].blocked_by@ == all_but_spec(i, 3) && def.pieces@[i].enabled,
    {
        let def = clique("alfil", PieceDef::alfil(), 3);
        proof {
            reveal_strlit("alfil");
        }
        def
    }

    pub fn knight_camel_2_pairwise() -> (def: Self)
        ensures
            def.pieces@.len() == 2,
            def.turn_order@ == seq![0usize, 1usize],
            def.pieces@[0].name@ == "knight_0"@,
            def.pieces@[0].piece.valid_moves@ == knight_moves(),
            def.pieces@[0].blocked_by@ == seq![1usize],
            def.pieces@[0].enabled,
            def.pieces@[1].name@ == "camel_1"@,
            def.pieces@[1].piece.valid_moves@ == camel_moves(),
            def.pieces@[1].blocked_by@ == seq![0usize],
            def.pieces@[1].enabled,
    {
        pairwise("knight_0", PieceDef::knight(), "camel_1", PieceDef::camel())
    }

    pub fn king_knight_camel_3_weighted_turns() -> (def: Self)
        ensures
            def.pieces@.len() == 3,
            def.turn_order@ == seq![0usize, 1usize, 2usize, 1usize, 2usize],
            def.pieces@[0].name@ == "king_0"@,
            def.pieces@[0].piece.valid_moves@ == wazir_moves() + ferz_moves(),
            def.pieces@[0].blocked_by@ == seq![1usize, 2usize],
            def.pieces@[0].enabled,
            def.pieces@[1].name@ == "knight_1"@,
            def.pieces@[1].piece.valid_moves@ == knight_moves(),
            def.pieces@[1].blocked_by@ == seq![0usize],
            def.pieces@[1].enabled,
            def.pieces@[2].name@ == "camel_2"@,
            def.pieces@[2].piece.valid_moves@ == camel_moves(),
            def.pieces@[2].blocked_by@ == seq![0usize],
            def.pieces@[2].enabled,
    {
        let mut b0: Vec<PieceId> = Vec::new();
        b0.push(1);
        b0.push(2);
        let mut b1: Vec<PieceId> = Vec::new();
        b1.push(0);
        let mut b2: Vec<PieceId> = Vec::new();
        b2.push(0);
        let mut pieces: Vec<Piece> = Vec::new();
        pieces.push(piece(String::from_str("king_0"), PieceDef::king(), b0));
        pieces.push(piece(String::from_str("knight_1"), PieceDef::knight(), b1));
        pieces.push(piece(String::from_str("camel_2"), PieceDef::camel(), b2));
        let mut turn_order: Vec<PieceId> = Vec::new();
        turn_order.push(0);
        turn_order.push(1);
        turn_order.push(2);
        turn_order.push(1);
        turn_order.push(2);
        assert(turn_order@ =~= seq![0usize, 1usize, 2usize, 1usize, 2usize]);
        GameDefinition { pieces, turn_order }
    }

    pub fn chimera_3_clique() -> (def: Self)
        ensures
            def.pieces@.len() == 3,
            def.turn_order@ == id_range(3),
            forall|i: int| 0 <= i < 3 ==> #[trigger] def.pieces@[i].name@ == indexed_name("chimera"@, i as nat) && normalized_of(def.pieces@[i].piece.valid_moves@, knight_moves() + wazir_moves() + alfil_moves()) && def.pieces@[i].blocked_by@ == all_but_spec(i, 3) && def.pieces@[i].enabled,
    {
        let def = clique("chimera", PieceDef::chimera(), 3);
        proof {
            reveal_strlit("chimera");
        }
        def
    }

    pub fn chimera_4_clique() -> (def: Self)
        ensures
            def.pieces@.len() == 4,
            def.turn_order@ == id_range(4),
            forall|i: int| 0 <= i < 4 ==> #[trigger] def.pieces@[i].name@ == indexed_name("chimera"@, i as nat) && normalized_of(def.pieces@[i].piece.valid_moves@, knight_moves() + wazir_moves() + alfil_moves()) && def.pieces@[i].blocked_by@ == all_but_spec(i, 4) && def.pieces@[i].enabled,
    {
        let def = clique("chimera", PieceDef::chimera(), 4);
        proof {
            reveal_strlit("chimera");
        }
        def
    }

    pub fn giraffe_2_pairwise() -> (def: Self)
        ensures
            def.pieces@.len() == 2,
            def.turn_order@ == seq![0usize, 1usize],
            def.pieces@[0].name@ == "giraffe_0"@,
            def.pieces@[0].piece.valid_moves@ == giraffe_moves(),
            def.pieces@[0].blocked_by@ == seq![1usize],
            def.pieces@[0].enabled,
            def.pieces@[1].name@ == "giraffe_1"@,
            def.pieces@[1].piece.valid_moves@ == giraffe_moves(),
            def.pieces@[1].blocked_by@ == seq![0usize],
            def.pieces@[1].enabled,
    {
        pairwise("giraffe_0", PieceDef::giraffe(), "giraffe_1", PieceDef::giraffe())
    }

    pub fn leaper_5_mixed_clique() -> (def: Self)
        ensures
            def.pieces@.len() == 5,
            def.turn_order@ == id_range(5),
            def.pieces@[0].name@ == "knight_0"@,
            def.pieces@[0].piece.valid_moves@ == knight_moves(),
            def.pieces@[0].blocked_by@ == all_but_spec(0, 5),
            def.pieces@[0].enabled,
            def.pieces@[1].name@ == "camel_1"@,
            def.pieces@[1].piece.valid_moves@ == camel_moves(),
            def.pieces@[1].blocked_by@ == all_but_spec(1, 5),
            def.pieces@[1].enabled,
            def.pieces@[2].name@ == "zebra_2"@,
            def.pieces@[2].piece.valid_moves@ == zebra_moves(),
            def.pieces@[2].blocked_by@ == all_but_spec(2, 5),
            def.pieces@[2].enabled,
            def.pieces@[3].name@ == "giraffe_3"@,
            def.pieces@[3].piece.valid_moves@ == giraffe_moves(),
            def.pieces@[3].blocked_by@ == all_but_spec(3, 5),
            def.pieces@[3].enabled,
            def.pieces@[4].name@ == "hippogriff_4"@,
            normalized_of(def.pieces@[4].piece.valid_moves@, knight_moves() + zebra_moves()),
            def.pieces@[4].blocked_by@ == all_but_spec(4, 5),
            def.pieces@[4].enabled,
    {
        mixed_clique(vec!["knight_0", "camel_1", "zebra_2", "giraffe_3", "hippogriff_4"], vec![PieceDef::knight(), PieceDef::camel(), PieceDef::zebra(), PieceDef::giraffe(), PieceDef::hippogriff()])
    }

    /// Preset label and definition for every built-in preset, in picker order.
    pub fn preset_catalog() -> (catalog: Vec<(&'static str, GameDefinition)>)
        ensures
            catalog@.len() == 30,
            catalog@[0].0@ == "knight_2_pairwise"@,
            catalog@[1].0@ == "knight_3_clique"@,
            catalog@[2].0@ == "knight_4_clique"@,
            catalog@[3].0@ == "knight_5_clique"@,
            catalog@[4].0@ == "knight_6_clique"@,
            catalog@[5].0@ == "wazir_ferz_2_pairwise"@,
            catalog@[6].0@ == "king_knight_2_pairwise"@,
            catalog@[7].0@ == "wazir_ferz_knight_3_clique"@,
            catalog@[8].0@ == "leaper_4_mixed_clique"@,
            catalog@[9].0@ == "leaper_5_mixed_clique"@,
            catalog@[10].0@ == "hippogriff_2_pairwise"@,
            catalog@[11].0@ == "hippogriff_3_clique"@,
            catalog@[12].0@ == "trebuchet_dabbaba_2_pairwise"@,
            catalog@[13].0@ == "orthogonal_3_clique"@,
            catalog@[14].0@ == "ferz_alfil_2_pairwise"@,
            catalog@[15].0@ == "king_3_clique"@,
            catalog@[16].0@ == "king_4_clique"@,
            catalog@[17].0@ == "king_6_clique"@,
            catalog@[18].0@ == "camel_2_pairwise"@,
            catalog@[19].0@ == "camel_3_clique"@,
            catalog@[20].0@ == "zebra_2_pairwise"@,
            catalog@[21].0@ == "zebra_4_clique"@,
            catalog@[22].0@ == "dabbaba_2_pairwise"@,
            catalog@[23].0@ == "dabbaba_3_clique"@,
            catalog@[24].0@ == "alfil_3_clique"@,
            catalog@[25].0@ == "knight_camel_2_pairwise"@,
            catalog@[26].0@ == "giraffe_2_pairwise"@,
            catalog@[27].0@ == "king_knight_camel_3_weighted_turns"@,
            catalog@[28].0@ == "chimera_3_clique"@,
            catalog@[29].0@ == "chimera_4_clique"@,
    {
        vec![
            ("knight_2_pairwise", GameDefinition::knight_2_pairwise()),
            ("knight_3_clique", GameDefinition::knight_3_clique()),
            ("knight_4_clique", GameDefinition::knight_4_clique()),
            ("knight_5_clique", GameDefinition::knight_5_clique()),
            ("knight_6_clique", GameDefinition::knight_6_clique()),
            ("wazir_ferz_2_pairwise", GameDefinition::wazir_ferz_2_pairwise()),
            ("king_knight_2_pairwise", GameDefinition::king_knight_2_pairwise()),
            ("wazir_ferz_knight_3_clique", GameDefinition::wazir_ferz_knight_3_clique()),
            ("leaper_4_mixed_clique", GameDefinition::leaper_4_mixed_clique()),
            ("leaper_5_mixed_clique", GameDefinition::leaper_5_mixed_clique()),
            ("hippogriff_2_pairwise", GameDefinition::hippogriff_2_pairwise()),
            ("hippogriff_3_clique", GameDefinition::hippogriff_3_clique()),
            ("trebuchet_dabbaba_2_pairwise", GameDefinition::trebuchet_dabbaba_2_pairwise()),
            ("orthogonal_3_clique", GameDefinition::orthogonal_3_clique()),
            ("ferz_alfil_2_pairwise", GameDefinition::ferz_alfil_2_pairwise()),
            ("king_3_clique", GameDefinition::king_3_clique()),
            ("king_4_clique", GameDefinition::king_4_clique()),
            ("king_6_clique", GameDefinition::king_6_clique()),
            ("camel_2_pairwise", GameDefinition::camel_2_pairwise()),
            ("camel_3_clique", GameDefinition::camel_3_clique()),
            ("zebra_2_pairwise", GameDefinition::zebra_2_pairwise()),
            ("zebra_4_clique", GameDefinition::zebra_4_clique()),
            ("dabbaba_2_pairwise", GameDefinition::dabbaba_2_pairwise()),
            ("dabbaba_3_clique", GameDefinition::dabbaba_3_clique()),
            ("alfil_3_clique", GameDefinition::alfil_3_clique()),
            ("knight_camel_2_pairwise", GameDefinition::knight_camel_2_pairwise()),
            ("giraffe_2_pairwise", GameDefinition::giraffe_2_pairwise()),
            ("king_knight_camel_3_weighted_turns", GameDefinition::king_knight_camel_3_weighted_turns()),
            ("chimera_3_clique", GameDefinition::chimera_3_clique()),
            ("chimera_4_clique", GameDefinition::chimera_4_clique()),
        ]
    }
}

impl Default for GameDefinition {
    fn default() -> (def: Self)
        ensures
            def.pieces@.len() == 2,
            def.turn_order@ == seq![0usize, 1usize],
            def.pieces@[0].name@ == "knight_0"@,
            def.pieces@[0].piece.valid_moves@ == knight_moves(),
            def.pieces@[0].blocked_by@ == seq![1usize],
            def.pieces@[0].enabled,
            def.pieces@[1].name@ == "knight_1"@,
            def.pieces@[1].piece.valid_moves@ == knight_moves(),
            def.pieces@[1].blocked_by@ == seq![0usize],
            def.pieces@[1].enabled,
    {
        Self::knight_2_pairwise()
    }
}

} // verus!
