//! The discovery catalog: every pairwise game of two simple pieces, every clique of two to
//! five copies of one simple piece, and a fixed list of mixed three-piece cliques, in that
//! order.

use vstd::prelude::*;
use crate::model::{
    alfil_moves, all_but, all_but_spec, camel_moves, dabbaba_moves, decimal, decimal_string,
    ferz_moves, fourleaper_moves, giraffe_moves, id_range, indexed_name, indexed_name_string,
    knight_moves, piece, piece_is, trebuchet_moves, tripper_moves, wazir_moves, zebra_moves,
    antelope_moves, GameDefinition, Piece, PieceDef, PieceId,
};
use crate::mutate::{clone_moves, normalized_of};

verus! {

/// Simple pieces the catalog combines.
pub const N_PIECES: usize = 16;
/// Ordered pairs of simple pieces.
pub const N_PAIRWISE: usize = N_PIECES * N_PIECES;
/// Clique sizes per piece (two to five copies).
pub const N_CLIQUE_SIZES: usize = 4;
/// Same-piece cliques.
pub const N_SAME_CLIQUES: usize = N_PIECES * N_CLIQUE_SIZES;
/// Mixed three-piece cliques.
pub const N_MIXED: usize = 12;

/// Name of simple piece `i`.
pub open spec fn simple_name(i: int) -> Seq<char> {
    if i == 0 {
        "wazir"@
    } else if i == 1 {
        "ferz"@
    } else if i == 2 {
        "dabbaba"@
    } else if i == 3 {
        "alfil"@
    } else if i == 4 {
        "knight"@
    } else if i == 5 {
        "king"@
    } else if i == 6 {
        "camel"@
    } else if i == 7 {
        "zebra"@
    } else if i == 8 {
        "giraffe"@
    } else if i == 9 {
        "trebuchet"@
    } else if i == 10 {
        "antelope"@
    } else if i == 11 {
        "tripper"@
    } else if i == 12 {
        "fourleaper"@
    } else if i == 13 {
        "gnu"@
    } else if i == 14 {
        "hippogriff"@
    } else {
        "chimera"@
    }
}

/// `m` is the move list of simple piece `i` as its constructor builds it.
pub open spec fn simple_moves_ok(i: int, m: Seq<(i32, i32)>) -> bool {
    if i == 0 {
        m == wazir_moves()
    } else if i == 1 {
        m == ferz_moves()
    } else if i == 2 {
        m == dabbaba_moves()
    } else if i == 3 {
        m == alfil_moves()
    } else if i == 4 {
        m == knight_moves()
    } else if i == 5 {
        m == wazir_moves() + ferz_moves()
    } else if i == 6 {
        m == camel_moves()
    } else if i == 7 {
        m == zebra_moves()
    } else if i == 8 {
        m == giraffe_moves()
    } else if i == 9 {
        m == trebuchet_moves()
    } else if i == 10 {
        m == antelope_moves()
    } else if i == 11 {
        m == tripper_moves()
    } else if i == 12 {
        m == fourleaper_moves()
    } else if i == 13 {
        normalized_of(m, knight_moves() + camel_moves())
    } else if i == 14 {
        normalized_of(m, knight_moves() + zebra_moves())
    } else {
        normalized_of(m, knight_moves() + wazir_moves() + alfil_moves())
    }
}

/// Simple piece `i`: its name and its moves.
fn simple_piece(i: usize) -> (p: (&'static str, PieceDef))
    requires
        i < N_PIECES,
    ensures
        p.0@ == simple_name(i as int),
        simple_moves_ok(i as int, p.1.valid_moves@),
{
    proof {
        reveal_strlit("wazir");
        reveal_strlit("ferz");
        reveal_strlit("dabbaba");
        reveal_strlit("alfil");
        reveal_strlit("knight");
        reveal_strlit("king");
        reveal_strlit("camel");
        reveal_strlit("zebra");
        reveal_strlit("giraffe");
        reveal_strlit("trebuchet");
        reveal_strlit("antelope");
        reveal_strlit("tripper");
        reveal_strlit("fourleaper");
        reveal_strlit("gnu");
        reveal_strlit("hippogriff");
        reveal_strlit("chimera");
    }
    if i == 0 {
        ("wazir", PieceDef::wazir())
    } else if i == 1 {
        ("ferz", PieceDef::ferz())
    } else if i == 2 {
        ("dabbaba", PieceDef::dabbaba())
    } else if i == 3 {
        ("alfil", PieceDef::alfil())
    } else if i == 4 {
        ("knight", PieceDef::knight())
    } else if i == 5 {
        ("king", PieceDef::king())
    } else if i == 6 {
        ("camel", PieceDef::camel())
    } else if i == 7 {
        ("zebra", PieceDef::zebra())
    } else if i == 8 {
        ("giraffe", PieceDef::giraffe())
    } else if i == 9 {
        ("trebuchet", PieceDef::trebuchet())
    } else if i == 10 {
        ("antelope", PieceDef::antelope())
    } else if i == 11 {
        ("tripper", PieceDef::tripper())
    } else if i == 12 {
        ("fourleaper", PieceDef::fourleaper())
    } else if i == 13 {
        ("gnu", PieceDef::gnu())
    } else if i == 14 {
        ("hippogriff", PieceDef::hippogriff())
    } else {
        ("chimera", PieceDef::chimera())
    }
}

/// Identifier of mixed clique `m`.
pub open spec fn mixed_id(m: int) -> Seq<char> {
    if m == 0 {
        "mixed_wazir_ferz_knight"@
    } else if m == 1 {
        "mixed_wazir_ferz_dabbaba"@
    } else if m == 2 {
        "mixed_knight_camel_zebra"@
    } else if m == 3 {
        "mixed_king_knight_wazir"@
    } else if m == 4 {
        "mixed_ferz_alfil_dabbaba"@
    } else if m == 5 {
        "mixed_knight_king_camel"@
    } else if m == 6 {
        "mixed_wazir_knight_dabbaba"@
    } else if m == 7 {
        "mixed_ferz_knight_camel"@
    } else if m == 8 {
        "mixed_dabbaba_alfil_knight"@
    } else if m == 9 {
        "mixed_zebra_giraffe_knight"@
    } else if m == 10 {
        "mixed_king_ferz_knight"@
    } else {
        "mixed_trebuchet_wazir_ferz"@
    }
}

/// Description of mixed clique `m`.
pub open spec fn mixed_text(m: int) -> Seq<char> {
    if m == 0 {
        "wazir + ferz + knight"@
    } else if m == 1 {
        "wazir + ferz + dabbaba"@
    } else if m == 2 {
        "knight + camel + zebra"@
    } else if m == 3 {
        "king + knight + wazir"@
    } else if m == 4 {
        "ferz + alfil + dabbaba"@
    } else if m == 5 {
        "knight + king + camel"@
    } else if m == 6 {
        "wazir + knight + dabbaba"@
    } else if m == 7 {
        "ferz + knight + camel"@
    } else if m == 8 {
        "dabbaba + alfil + knight"@
    } else if m == 9 {
        "zebra + giraffe + knight"@
    } else if m == 10 {
        "king + ferz + knight"@
    } else {
        "trebuchet + wazir + ferz"@
    }
}

/// Simple pieces of mixed clique `m`, in turn order.
pub open spec fn mixed_pieces(m: int) -> Seq<int> {
    if m == 0 {
        seq![0int, 1int, 4int]
    } else if m == 1 {
        seq![0int, 1int, 2int]
    } else if m == 2 {
        seq![4int, 6int, 7int]
    } else if m == 3 {
        seq![5int, 4int, 0int]
    } else if m == 4 {
        seq![1int, 3int, 2int]
    } else if m == 5 {
        seq![4int, 5int, 6int]
    } else if m == 6 {
        seq![0int, 4int, 2int]
    } else if m == 7 {
        seq![1int, 4int, 6int]
    } else if m == 8 {
        seq![2int, 3int, 4int]
    } else if m == 9 {
        seq![7int, 8int, 4int]
    } else if m == 10 {
        seq![5int, 1int, 4int]
    } else {
        seq![9int, 0int, 1int]
    }
}

/// Mixed clique `m`: identifier, description and the simple pieces it combines.
fn mixed_entry(m: usize) -> (e: (&'static str, &'static str, [usize; 3]))
    requires
        m < N_MIXED,
    ensures
        e.0@ == mixed_id(m as int),
        e.1@ == mixed_text(m as int),
        e.2@.len() == 3,
        forall|k: int| 0 <= k < 3 ==> e.2@[k] as int == #[trigger] mixed_pieces(m as int)[k],
        forall|k: int| 0 <= k < 3 ==> #[trigger] e.2@[k] < N_PIECES,
{
    proof {
        reveal_strlit("mixed_wazir_ferz_knight");
        reveal_strlit("wazir + ferz + knight");
        reveal_strlit("mixed_wazir_ferz_dabbaba");
        reveal_strlit("wazir + ferz + dabbaba");
        reveal_strlit("mixed_knight_camel_zebra");
        reveal_strlit("knight + camel + zebra");
        reveal_strlit("mixed_king_knight_wazir");
        reveal_strlit("king + knight + wazir");
        reveal_strlit("mixed_ferz_alfil_dabbaba");
        reveal_strlit("ferz + alfil + dabbaba");
        reveal_strlit("mixed_knight_king_camel");
        reveal_strlit("knight + king + camel");
        reveal_strlit("mixed_wazir_knight_dabbaba");
        reveal_strlit("wazir + knight + dabbaba");
        reveal_strlit("mixed_ferz_knight_camel");
        reveal_strlit("ferz + knight + camel");
        reveal_strlit("mixed_dabbaba_alfil_knight");
        reveal_strlit("dabbaba + alfil + knight");
        reveal_strlit("mixed_zebra_giraffe_knight");
        reveal_strlit("zebra + giraffe + knight");
        reveal_strlit("mixed_king_ferz_knight");
        reveal_strlit("king + ferz + knight");
        reveal_strlit("mixed_trebuchet_wazir_ferz");
        reveal_strlit("trebuchet + wazir + ferz");
    }
    if m == 0 {
        ("mixed_wazir_ferz_knight", "wazir + ferz + knight", [0, 1, 4])
    } else if m == 1 {
        ("mixed_wazir_ferz_dabbaba", "wazir + ferz + dabbaba", [0, 1, 2])
    } else if m == 2 {
        ("mixed_knight_camel_zebra", "knight + camel + zebra", [4, 6, 7])
    } else if m == 3 {
        ("mixed_king_knight_wazir", "king + knight + wazir", [5, 4, 0])
    } else if m == 4 {
        ("mixed_ferz_alfil_dabbaba", "ferz + alfil + dabbaba", [1, 3, 2])
    } else if m == 5 {
        ("mixed_knight_king_camel", "knight + king + camel", [4, 5, 6])
    } else if m == 6 {
        ("mixed_wazir_knight_dabbaba", "wazir + knight + dabbaba", [0, 4, 2])
    } else if m == 7 {
        ("mixed_ferz_knight_camel", "ferz + knight + camel", [1, 4, 6])
    } else if m == 8 {
        ("mixed_dabbaba_alfil_knight", "dabbaba + alfil + knight", [2, 3, 4])
    } else if m == 9 {
        ("mixed_zebra_giraffe_knight", "zebra + giraffe + knight", [7, 8, 4])
    } else if m == 10 {
        ("mixed_king_ferz_knight", "king + ferz + knight", [5, 1, 4])
    } else {
        ("mixed_trebuchet_wazir_ferz", "trebuchet + wazir + ferz", [9, 0, 1])
    }
}

/// Entries in the catalog.
pub open spec fn spec_catalog_len() -> int {
    N_PAIRWISE + N_SAME_CLIQUES + N_MIXED
}

/// Identifier of catalog entry `index`.
pub open spec fn recipe_id_text(index: int) -> Seq<char> {
    if index < N_PAIRWISE {
        "pairwise_"@ + simple_name(index / 16) + "_vs_"@ + simple_name(index % 16)
    } else if index < N_PAIRWISE + N_SAME_CLIQUES {
        let i = index - N_PAIRWISE;
        "clique_"@ + decimal((i % 4 + 2) as nat) + "_"@ + simple_name(i / 4)
    } else {
        mixed_id(index - N_PAIRWISE - N_SAME_CLIQUES)
    }
}

/// Display label of catalog entry `index`.
pub open spec fn recipe_label_text(index: int) -> Seq<char> {
    if index < N_PAIRWISE {
        simple_name(index / 16) + " vs "@ + simple_name(index % 16) + " (pairwise)"@
    } else if index < N_PAIRWISE + N_SAME_CLIQUES {
        let i = index - N_PAIRWISE;
        decimal((i % 4 + 2) as nat) + "× "@ + simple_name(i / 4) + " clique"@
    } else {
        mixed_text(index - N_PAIRWISE - N_SAME_CLIQUES) + " clique"@
    }
}

/// Simple pieces of catalog entry `index`, one per roster slot.
pub open spec fn catalog_pieces(index: int) -> Seq<int> {
    if index < N_PAIRWISE {
        seq![index / 16, index % 16]
    } else if index < N_PAIRWISE + N_SAME_CLIQUES {
        let i = index - N_PAIRWISE;
        Seq::new((i % 4 + 2) as nat, |k: int| i / 4)
    } else {
        mixed_pieces(index - N_PAIRWISE - N_SAME_CLIQUES)
    }
}

/// `def` seats the simple pieces `ids` in order: slot `k` is named `{name}_{k}`, is blocked by
/// every other slot, and the turn order visits the slots in order.
pub open spec fn is_roster(def: GameDefinition, ids: Seq<int>) -> bool {
    let n = ids.len() as int;
    &&& def.pieces@.len() == n
    &&& forall|k: int| 0 <= k < n ==> {
        let p = #[trigger] def.pieces@[k];
        &&& p.name@ == indexed_name(simple_name(ids[k]), k as nat)
        &&& simple_moves_ok(ids[k], p.piece.valid_moves@)
        &&& p.blocked_by@ == all_but_spec(k, n)
        &&& p.enabled
    }
    &&& def.turn_order@ == id_range(n)
}

/// Which block of the catalog an index falls in.
enum Section {
    Pairwise { a: usize, b: usize },
    SameClique { piece: usize, size: usize },
    Mixed { m: usize },
}

fn section(index: usize) -> (s: Section)
    requires
        index < spec_catalog_len(),
    ensures
        index < N_PAIRWISE ==> s == (Section::Pairwise { a: index / 16, b: index % 16 }),
        N_PAIRWISE <= index < N_PAIRWISE + N_SAME_CLIQUES ==> s == (Section::SameClique {
            piece: ((index - N_PAIRWISE) / 4) as usize,
            size: ((index - N_PAIRWISE) % 4 + 2) as usize,
        }),
        N_PAIRWISE + N_SAME_CLIQUES <= index ==> s == (Section::Mixed { m: (index - N_PAIRWISE - N_SAME_CLIQUES) as usize }),
{
    if index < N_PAIRWISE {
        return Section::Pairwise { a: index / N_PIECES, b: index % N_PIECES };
    }
    let i = index - N_PAIRWISE;
    if i < N_SAME_CLIQUES {
        let piece = i / N_CLIQUE_SIZES;
        let size = i % N_CLIQUE_SIZES + 2;
        return Section::SameClique { piece, size };
    }
    Section::Mixed { m: i - N_SAME_CLIQUES }
}

pub fn catalog_len() -> (n: usize)
    ensures
        n == spec_catalog_len(),
{
    N_PAIRWISE + N_SAME_CLIQUES + N_MIXED
}

/// `a + b` as a new string.
fn concat(a: &str, b: &str) -> (s: String)
    ensures
        s@ == a@ + b@,
{
    let mut s = String::from_str(a);
    s.append(b);
    s
}

fn recipe_id_string(index: usize) -> (s: String)
    requires
        index < spec_catalog_len(),
    ensures
        s@ == recipe_id_text(index as int),
{
    match section(index) {
        Section::Pairwise { a, b } => {
            let (na, _) = simple_piece(a);
            let (nb, _) = simple_piece(b);
            proof {
                reveal_strlit("pairwise_");
                reveal_strlit("_vs_");
            }
            let mut s = concat("pairwise_", na);
            s.append("_vs_");
            s.append(nb);
            s
        },
        Section::SameClique { piece, size } => {
            let (name, _) = simple_piece(piece);
            proof {
                reveal_strlit("clique_");
                reveal_strlit("_");
            }
            let digits = decimal_string(size);
            let mut s = concat("clique_", digits.as_str());
            s.append("_");
            s.append(name);
            s
        },
        Section::Mixed { m } => {
            let (id, _, _) = mixed_entry(m);
            String::from_str(id)
        },
    }
}

fn recipe_label_string(index: usize) -> (s: String)
    requires
        index < spec_catalog_len(),
    ensures
        s@ == recipe_label_text(index as int),
{
    match section(index) {
        Section::Pairwise { a, b } => {
            let (na, _) = simple_piece(a);
            let (nb, _) = simple_piece(b);
            proof {
                reveal_strlit(" vs ");
                reveal_strlit(" (pairwise)");
            }
            let mut s = concat(na, " vs ");
            s.append(nb);
            s.append(" (pairwise)");
            s
        },
        Section::SameClique { piece, size } => {
            let (name, _) = simple_piece(piece);
            proof {
                reveal_strlit("× ");
                reveal_strlit(" clique");
            }
            let digits = decimal_string(size);
            let mut s = concat(digits.as_str(), "× ");
            s.append(name);
            s.append(" clique");
            s
        },
        Section::Mixed { m } => {
            let (_, text, _) = mixed_entry(m);
            proof {
                reveal_strlit(" clique");
            }
            concat(text, " clique")
        },
    }
}

/// Identifier and label of catalog entry `index`.
pub fn recipe_meta(index: usize) -> (meta: Option<(String, String)>)
    ensures
        index >= spec_catalog_len() ==> meta is None,
        index < spec_catalog_len() ==> (meta matches Some((id, label))
            && id@ == recipe_id_text(index as int) && label@ == recipe_label_text(index as int)),
{
    if index >= catalog_len() {
        return None;
    }
    let id = recipe_id_string(index);
    let label = recipe_label_string(index);
    Some((id, label))
}

/// Fixed identifier of a mixed entry (the others have generated identifiers).
pub fn recipe_id(index: usize) -> (id: Option<&'static str>)
    ensures
        index < N_PAIRWISE + N_SAME_CLIQUES || index >= spec_catalog_len() ==> id is None,
        N_PAIRWISE + N_SAME_CLIQUES <= index < spec_catalog_len() ==> (id matches Some(s)
            && s@ == recipe_id_text(index as int)),
{
    if index >= catalog_len() {
        return None;
    }
    match section(index) {
        Section::Mixed { m } => {
            let (id, _, _) = mixed_entry(m);
            Some(id)
        },
        _ => None,
    }
}

pub fn recipe_label(index: usize) -> (label: Option<String>)
    ensures
        index >= spec_catalog_len() ==> label is None,
        index < spec_catalog_len() ==> (label matches Some(s) && s@ == recipe_label_text(index as int)),
{
    if index >= catalog_len() {
        return None;
    }
    Some(recipe_label_string(index))
}

/// Seat the simple pieces `ids` in order, each blocked by all the others.
fn roster(ids: &Vec<usize>) -> (def: GameDefinition)
    requires
        forall|k: int| 0 <= k < ids@.len() ==> #[trigger] ids@[k] < N_PIECES,
    ensures
        is_roster(def, Seq::new(ids@.len(), |k: int| ids@[k] as int)),
{
    let n = ids.len();
    let ghost spec_ids = Seq::new(ids@.len(), |k: int| ids@[k] as int);
    let mut pieces: Vec<Piece> = Vec::new();
    let mut turn_order: Vec<PieceId> = Vec::new();
    let mut i: usize = 0;
    while i < n
        invariant
            n == ids@.len(),
            spec_ids == Seq::new(ids@.len(), |k: int| ids@[k] as int),
            forall|k: int| 0 <= k < ids@.len() ==> #[trigger] ids@[k] < N_PIECES,
            i <= n,
            pieces@.len() == i,
            turn_order@ == id_range(i as int),
            forall|k: int| 0 <= k < i ==> {
                let p = #[trigger] pieces@[k];
                &&& p.name@ == indexed_name(simple_name(spec_ids[k]), k as nat)
                &&& simple_moves_ok(spec_ids[k], p.piece.valid_moves@)
                &&& p.blocked_by@ == all_but_spec(k, n as int)
                &&& p.enabled
            },
        decreases n - i,
    {
        let (name, def) = simple_piece(ids[i]);
        let p = piece(indexed_name_string(name, i), def, all_but(i, n));
        pieces.push(p);
        turn_order.push(i);
        assert(turn_order@ =~= id_range(i + 1));
        i += 1;
    }
    GameDefinition { pieces, turn_order }
}

/// Game of catalog entry `index`.
pub fn game_at(index: usize) -> (def: Option<GameDefinition>)
    ensures
        index >= spec_catalog_len() ==> def is None,
        index < spec_catalog_len() ==> (def matches Some(d) && is_roster(d, catalog_pieces(index as int))),
{
    if index >= catalog_len() {
        return None;
    }
    let mut ids: Vec<usize> = Vec::new();
    match section(index) {
        Section::Pairwise { a, b } => {
            ids.push(a);
            ids.push(b);
        },
        Section::SameClique { piece, size } => {
            let mut k: usize = 0;
            while k < size
                invariant
                    k <= size,
                    piece < N_PIECES,
                    ids@ == Seq::new(k as nat, |j: int| piece),
                decreases size - k,
            {
                ids.push(piece);
                k += 1;
                assert(ids@ =~= Seq::new(k as nat, |j: int| piece));
            }
        },
        Section::Mixed { m } => {
            let (_, _, trio) = mixed_entry(m);
            ids.push(trio[0]);
            ids.push(trio[1]);
            ids.push(trio[2]);
        },
    }
    let def = roster(&ids);
    assert(Seq::new(ids@.len(), |k: int| ids@[k] as int) =~= catalog_pieces(index as int));
    Some(def)
}

/// Catalog entry used on discovery iteration `iteration` (cycling through the catalog).
pub fn recipe_for_iteration(iteration: u64) -> (index: usize)
    ensures
        index == (iteration as usize) % (spec_catalog_len() as usize),
{
    let n = catalog_len();
    let m = if n == 0 { 1 } else { n };
    (iteration as usize) % m
}

} // verus!
