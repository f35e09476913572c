//! The rules of the game, on a board of 64 squares.
//!
//! No piece has a forward direction, nothing is ever pinned and there is no check:
//! whatever a piece may do, it may do. Pieces of either colour can be captured.
//!
//! * A pawn teleports to any empty square.
//! * A knight leaps, and destroys all three squares of its path.
//! * A rook or bishop that lands on an occupied square detonates: the three-by-three
//!   region goes, and the mover with it.
//! * A queen runs over up to two pieces in a line and destroys them.
//! * A king steps one square.

use vstd::prelude::*;
use crate::bits;
use crate::geom;
use crate::position::GameResult;
use crate::tables;
use crate::types;
use crate::types::{Color, Man, PieceType};

verus! {

/// What the rules know of a game in progress.
#[verifier::ext_equal]
pub struct Game {
    /// What stands on each of the 64 squares.
    pub board: Seq<Option<Man>>,
    pub side: Color,
    /// Plies played since the start of the game.
    pub ply: int,
}

// ---------------------------------------------------------------------------
// The board
// ---------------------------------------------------------------------------

pub open spec fn occupied(g: Game, s: int) -> bool {
    geom::valid(s) && g.board[s] is Some
}

/// The type of the piece on the occupied square `s`.
pub open spec fn kind_on(g: Game, s: int) -> PieceType {
    match g.board[s] {
        Some(m) => m.1,
        None => PieceType::Pawn,
    }
}

/// The piece `m` stands on `s`.
pub open spec fn stands(g: Game, m: Man, s: int) -> bool {
    geom::valid(s) && g.board[s] == Some(m)
}

/// A piece of colour `c` stands on `s`.
pub open spec fn held_by(g: Game, c: Color, s: int) -> bool {
    geom::valid(s) && (g.board[s] matches Some(m) && m.0 == c)
}

/// Number of pieces `m` on the board.
pub open spec fn count(g: Game, m: Man) -> int {
    bits::count_squares(|s: int| stands(g, m, s))
}

/// The lowest square with the king of colour `c`.
pub open spec fn king_square(g: Game, c: Color) -> Option<int> {
    bits::first_from(|s: int| stands(g, (c, PieceType::King), s), 0)
}

/// Neither a king nor a pawn.
pub open spec fn heavy(pt: PieceType) -> bool {
    pt != PieceType::King && pt != PieceType::Pawn
}

/// A piece that is neither king nor pawn stands on `s`.
pub open spec fn heavy_on(g: Game, s: int) -> bool {
    occupied(g, s) && heavy(kind_on(g, s))
}

// ---------------------------------------------------------------------------
// How a game ends
// ---------------------------------------------------------------------------

/// What a piece counts for when a game is adjudicated, in centipawns.
pub open spec fn rule_value(pt: PieceType) -> int {
    match pt {
        PieceType::Pawn => 25,
        PieceType::Knight => 900,
        PieceType::Bishop => 400,
        PieceType::Rook => 450,
        PieceType::Queen => 1000,
        PieceType::King => 0,
    }
}

/// Material of colour `c` in centipawns, kings excluded.
pub open spec fn material(g: Game, c: Color) -> int {
    count(g, (c, PieceType::Pawn)) * 25 + count(g, (c, PieceType::Knight)) * 900 + count(
        g,
        (c, PieceType::Bishop),
    ) * 400 + count(g, (c, PieceType::Rook)) * 450 + count(g, (c, PieceType::Queen)) * 1000
}

/// The result by material: a lead of more than 200 centipawns wins.
pub open spec fn verdict(g: Game) -> GameResult {
    let diff = material(g, Color::White) - material(g, Color::Black);
    if diff > 200 {
        GameResult::Win(Color::White)
    } else if diff < -200 {
        GameResult::Win(Color::Black)
    } else {
        GameResult::Draw
    }
}

pub open spec fn has_king(g: Game, c: Color) -> bool {
    exists|s: int| #[trigger] stands(g, (c, PieceType::King), s)
}

/// The result of a game that has ended: kings first, then bare pawns, then the cap
/// of 200 plies.
pub open spec fn outcome(g: Game) -> Option<GameResult> {
    if !has_king(g, Color::White) && !has_king(g, Color::Black) {
        Some(GameResult::Draw)
    } else if !has_king(g, Color::White) {
        Some(GameResult::Win(Color::Black))
    } else if !has_king(g, Color::Black) {
        Some(GameResult::Win(Color::White))
    } else if !(exists|s: int| #[trigger] heavy_on(g, s)) {
        Some(GameResult::Draw)
    } else if g.ply >= 200 {
        Some(verdict(g))
    } else {
        None
    }
}

// ---------------------------------------------------------------------------
// Moves
// ---------------------------------------------------------------------------

/// Nothing stands strictly between `a` and `b`.
pub open spec fn clear_line(g: Game, a: int, b: int) -> bool {
    forall|x: int| #[trigger] occupied(g, x) ==> !geom::between(a, b, x)
}

/// At most one piece stands strictly between `a` and `b`.
pub open spec fn one_on_line(g: Game, a: int, b: int) -> bool {
    forall|x: int, y: int|
        #[trigger] occupied(g, x) && #[trigger] occupied(g, y) && geom::between(a, b, x)
            && geom::between(a, b, y) ==> x == y
}

/// A piece of type `pt` on `from` may go to `to`.
pub open spec fn reaches(g: Game, pt: PieceType, from: int, to: int) -> bool {
    match pt {
        PieceType::Pawn => !occupied(g, to),
        PieceType::Knight => geom::leap(from, to),
        PieceType::Bishop => geom::diagonal(geom::dir(from, to)) && clear_line(g, from, to),
        PieceType::Rook => geom::straight(geom::dir(from, to)) && clear_line(g, from, to),
        PieceType::Queen => geom::aligned(from, to) && one_on_line(g, from, to),
        PieceType::King => geom::adjacent(from, to),
    }
}

/// The side to move may move from `from` to `to`.
pub open spec fn legal(g: Game, from: int, to: int) -> bool {
    &&& held_by(g, g.side, from)
    &&& geom::valid(to)
    &&& reaches(g, kind_on(g, from), from, to)
}

/// A move that can be carried out, though a slider may jump and a king may fly.
pub open spec fn playable(g: Game, from: int, to: int) -> bool {
    &&& held_by(g, g.side, from)
    &&& geom::valid(to)
    &&& match kind_on(g, from) {
        PieceType::Pawn => !occupied(g, to),
        PieceType::Knight => geom::leap(from, to),
        PieceType::Bishop => true,
        PieceType::Rook => true,
        PieceType::Queen => geom::aligned(from, to),
        PieceType::King => from != to,
    }
}

/// The piece on `from` detonates when it moves to `to`.
pub open spec fn dies(g: Game, from: int, to: int) -> bool {
    &&& occupied(g, from)
    &&& occupied(g, to)
    &&& (kind_on(g, from) == PieceType::Rook || kind_on(g, from) == PieceType::Bishop)
}

/// The move from `from` to `to` destroys what stands on `s`, the mover left aside.
pub open spec fn hits(g: Game, from: int, to: int, s: int) -> bool {
    &&& occupied(g, s)
    &&& occupied(g, from)
    &&& match kind_on(g, from) {
        PieceType::Pawn => false,
        PieceType::Knight => geom::knight_path(from, to, s),
        PieceType::Bishop => occupied(g, to) && geom::blast(to, s) && s != from,
        PieceType::Rook => occupied(g, to) && geom::blast(to, s) && s != from,
        PieceType::Queen => s == to || geom::between(from, to, s),
        PieceType::King => s == to,
    }
}

/// The board after the move from `from` to `to`.
pub open spec fn board_after(g: Game, from: int, to: int) -> Seq<Option<Man>> {
    Seq::new(
        64,
        |s: int|
            if s == to && !dies(g, from, to) {
                g.board[from]
            } else if s == from || hits(g, from, to, s) {
                None
            } else {
                g.board[s]
            },
    )
}

/// The game after the move from `from` to `to`.
pub open spec fn apply(g: Game, from: int, to: int) -> Game {
    Game { board: board_after(g, from, to), side: g.side.other(), ply: g.ply + 1 }
}

/// A legal move can be carried out.
pub proof fn lemma_legal_playable(g: Game, from: int, to: int)
    requires
        legal(g, from, to),
    ensures
        playable(g, from, to),
        from != to,
{
}

// ---------------------------------------------------------------------------
// Hash keys
// ---------------------------------------------------------------------------

/// The numbers `f` gives to the squares below `n`, xored together.
pub open spec fn xor_below(f: spec_fn(int) -> u64, n: nat) -> u64
    decreases n,
{
    if n == 0 {
        0
    } else {
        xor_below(f, (n - 1) as nat) ^ f(n - 1)
    }
}

/// Hash key of what stands on square `s`.
pub open spec fn square_key(x: Option<Man>, s: int) -> u64 {
    match x {
        Some(m) => tables::piece_key(types::man_code(m), s),
        None => 0,
    }
}

/// Hash key of a board.
pub open spec fn board_key(board: Seq<Option<Man>>) -> u64 {
    xor_below(|s: int| square_key(board[s], s), 64)
}

pub open spec fn side_part(c: Color) -> u64 {
    match c {
        Color::White => 0,
        Color::Black => tables::side_key(),
    }
}

/// Hash key of a game: its board and the side to move.
pub open spec fn game_key(g: Game) -> u64 {
    board_key(g.board) ^ side_part(g.side)
}

proof fn lemma_xor_swap(a: u64, x: u64, y: u64)
    ensures
        (a ^ x) ^ y == (a ^ y) ^ x,
        (a ^ x) ^ (x ^ y) == a ^ y,
        (a ^ x) ^ x == a,
{
    assert((a ^ x) ^ y == (a ^ y) ^ x && (a ^ x) ^ (x ^ y) == a ^ y && (a ^ x) ^ x == a)
        by (bit_vector);
}

proof fn lemma_xor_point(f: spec_fn(int) -> u64, g: spec_fn(int) -> u64, at: int, n: nat)
    requires
        forall|s: int| 0 <= s < n && s != at ==> #[trigger] f(s) == g(s),
    ensures
        0 <= at < n ==> xor_below(g, n) == xor_below(f, n) ^ (f(at) ^ g(at)),
        !(0 <= at < n) ==> xor_below(g, n) == xor_below(f, n),
    decreases n,
{
    if n > 0 {
        lemma_xor_point(f, g, at, (n - 1) as nat);
        if at == n - 1 {
            lemma_xor_swap(xor_below(f, (n - 1) as nat), f(at), g(at));
        } else {
            assert(f(n - 1) == g(n - 1));
            lemma_xor_swap(xor_below(f, (n - 1) as nat), f(at) ^ g(at), f(n - 1));
        }
    }
}

/// Changing one square changes the key by what stood there and what stands there.
pub proof fn lemma_board_key_update(board: Seq<Option<Man>>, s: int, x: Option<Man>)
    requires
        board.len() == 64,
        geom::valid(s),
    ensures
        board_key(board.update(s, x)) == board_key(board) ^ (square_key(board[s], s) ^ square_key(
            x,
            s,
        )),
{
    lemma_xor_point(
        |t: int| square_key(board[t], t),
        |t: int| square_key(board.update(s, x)[t], t),
        s,
        64,
    );
}

proof fn lemma_xor_zero(f: spec_fn(int) -> u64, n: nat)
    requires
        forall|s: int| 0 <= s < n ==> #[trigger] f(s) == 0,
    ensures
        xor_below(f, n) == 0,
    decreases n,
{
    if n > 0 {
        lemma_xor_zero(f, (n - 1) as nat);
        assert(f(n - 1) == 0);
        assert(0u64 ^ 0u64 == 0u64) by (bit_vector);
    }
}

/// The empty board has key zero.
pub proof fn lemma_empty_board_key(board: Seq<Option<Man>>)
    requires
        board.len() == 64,
        forall|s: int| geom::valid(s) ==> #[trigger] board[s] is None,
    ensures
        board_key(board) == 0,
{
    lemma_xor_zero(|t: int| square_key(board[t], t), 64);
}

/// A key that takes up the same change as the board's key keeps its distance from it.
pub proof fn lemma_same_drift(key: u64, board: u64, side: u64, change: u64)
    ensures
        (key ^ change) ^ ((board ^ change) ^ side) == key ^ (board ^ side),
{
    assert((key ^ change) ^ ((board ^ change) ^ side) == key ^ (board ^ side)) by (bit_vector);
}

pub proof fn lemma_xor_none(k: u64)
    ensures
        0u64 ^ k == k,
        k ^ 0u64 == k,
        k ^ k == 0,
{
    assert(0u64 ^ k == k && k ^ 0u64 == k && k ^ k == 0) by (bit_vector);
}

/// Passing the turn changes the key by the side key.
pub proof fn lemma_flip_drift(key: u64, board: u64, side: Color)
    ensures
        (key ^ tables::side_key()) ^ (board ^ side_part(side.other())) == key ^ (board
            ^ side_part(side)),
{
    let k = tables::side_key();
    assert((key ^ k) ^ (board ^ k) == key ^ (board ^ 0) && (key ^ k) ^ (board ^ 0) == key ^ (board
        ^ k)) by (bit_vector);
}

/// A key without drift is true.
pub proof fn lemma_drift_zero(key: u64, game: u64)
    ensures
        key ^ game == 0 <==> key == game,
{
    assert(key ^ game == 0 <==> key == game) by (bit_vector);
}

/// Keys tell positions apart that differ in one square, or in whose turn it is.
pub proof fn law_keys_tell_neighbours_apart(g: Game, s: int, x: Option<Man>)
    requires
        g.board.len() == 64,
        geom::valid(s),
        g.board[s] != x,
    ensures
        game_key(Game { board: g.board.update(s, x), ..g }) != game_key(g),
        game_key(Game { side: g.side.other(), ..g }) != game_key(g),
{
    let (a, b) = (square_key(g.board[s], s), square_key(x, s));
    lemma_square_keys(g.board[s], x, s);
    lemma_board_key_update(g.board, s, x);
    let (k, p) = (board_key(g.board), side_part(g.side));
    tables::law_keys_are_distinct(769, 769);
    let side = tables::side_key();
    assert(side != 0);
    assert((k ^ (a ^ b)) ^ p == k ^ p ==> a == b) by (bit_vector);
    tables::lemma_xor_undone(k, side, 0);
    lemma_xor_none(k);
}

proof fn lemma_square_keys(x: Option<Man>, y: Option<Man>, s: int)
    requires
        geom::valid(s),
        x != y,
    ensures
        square_key(x, s) != square_key(y, s),
{
    let i = match x {
        Some(m) => 64 * types::man_code(m) + s + 1,
        None => 0,
    };
    let j = match y {
        Some(m) => 64 * types::man_code(m) + s + 1,
        None => 0,
    };
    tables::law_keys_are_distinct(i as nat, j as nat);
    tables::law_keys_are_distinct(j as nat, i as nat);
    if let Some(m) = x {
        types::lemma_man_of_code(m);
    }
    if let Some(m) = y {
        types::lemma_man_of_code(m);
    }
}

} // verus!
