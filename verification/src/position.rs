//! Board representation and move application.
//!
//! Copy-make: `Position` is `Copy`, so search stores a full snapshot per ply rather
//! than an undo record. In a variant where one move can destroy nine pieces,
//! delta-undo is a bug farm for no measurable gain.

use vstd::prelude::*;
use vstd::string::*;
use crate::bits;
use crate::bits::Bitboard;
use crate::geom;
use crate::rules;
use crate::rules::Game;
use crate::tables;
use crate::tables::{between_mask, blast_mask, knight_path_mask, zobrist_piece, zobrist_side};
use crate::types;
use crate::types::{Color, Man, Move, PieceType, bb, in_board, piece_color, piece_index, piece_type_of};

verus! {

broadcast use {
    crate::bits::group_bits,
    crate::types::lemma_man_of_code,
    crate::types::lemma_man_code_of,
};

/// Hard cap on the length of a game, in plies.
pub const PLY_CAP: u16 = 200;

/// Material margin (centipawns) needed to claim the win at the cap.
pub const ADJUDICATION_THRESHOLD: i32 = 200;

#[derive(Clone, Copy, PartialEq, Eq, Debug, Structural)]
pub enum GameResult {
    Draw,
    Win(Color),
}

/// A result in words.
pub open spec fn result_text(r: GameResult) -> Seq<char> {
    match r {
        GameResult::Draw => "draw"@,
        GameResult::Win(c) => types::color_name(c) + " wins"@,
    }
}

impl GameResult {
    pub fn describe(self) -> (t: String)
        ensures
            t@ == result_text(self),
    {
        let mut out: String = String::new();
        match self {
            GameResult::Draw => {
                out.append("draw");
            },
            GameResult::Win(c) => {
                out.append(c.name());
                out.append(" wins");
            },
        }
        assert(out@ =~= result_text(self));
        out
    }
}

/// What a move destroyed.
#[derive(Clone, Copy, Debug)]
pub struct MoveInfo {
    /// Every square that held a piece before the move and is empty after it.
    /// Includes the mover's origin square.
    pub emptied: Bitboard,
    /// Squares whose occupant was *destroyed* (excludes the mover's origin unless
    /// the mover itself died there).
    pub captured: Bitboard,
    /// True when a rook/bishop detonated and went up with the blast.
    pub mover_died: bool,
    pub piece: usize,
}

impl Default for MoveInfo {
    fn default() -> (r: MoveInfo)
        ensures
            r.emptied == 0 && r.captured == 0 && !r.mover_died && r.piece == 0,
    {
        MoveInfo { emptied: 0, captured: 0, mover_died: false, piece: 0 }
    }
}

#[derive(Clone, Copy, PartialEq, Eq, Debug)]
pub struct Position {
    pub pieces: [Bitboard; 12],
    pub occ_color: [Bitboard; 2],
    pub occ: Bitboard,
    pub side: Color,
    /// Plies played since the start of the game (the ply cap counts these).
    pub ply: u16,
    pub key: u64,
}

impl View for Position {
    type V = Game;

    open spec fn view(&self) -> Game {
        Game { board: self.board(), side: self.side, ply: self.ply as int }
    }
}

impl Position {
    /// The first piece from index `p` on that stands on `s`.
    pub open spec fn man_from(self, s: int, p: int) -> Option<Man>
        decreases 12 - p,
    {
        if p >= 12 {
            None
        } else if bits::bit(self.pieces@[p], s) {
            Some(types::man_of(p))
        } else {
            self.man_from(s, p + 1)
        }
    }

    /// What stands on each square.
    pub open spec fn board(self) -> Seq<Option<Man>> {
        Seq::new(64, |s: int| self.man_from(s, 0))
    }

    /// The piece boards and the occupancies all describe `board`.
    pub open spec fn shows(self, board: Seq<Option<Man>>) -> bool {
        &&& board.len() == 64
        &&& forall|p: int, s: int|
            0 <= p < 12 && geom::valid(s) ==> (#[trigger] bits::bit(self.pieces@[p], s)
                <==> board[s] == Some(types::man_of(p)))
        &&& forall|s: int| geom::valid(s) ==> (#[trigger] bits::bit(self.occ, s) <==> board[s] is Some)
        &&& forall|c: int, s: int|
            0 <= c < 2 && geom::valid(s) ==> (#[trigger] bits::bit(self.occ_color@[c], s) <==> (
            board[s] matches Some(m) && m.0.code() == c))
    }

    /// No square holds two pieces, and the occupancies agree with the pieces.
    pub open spec fn wf(self) -> bool {
        self.shows(self.board())
    }

    /// By how much the stored key differs from the key of the position.
    pub open spec fn drift(self) -> u64 {
        self.key ^ rules::game_key(self@)
    }

    /// The stored key is the key of the position.
    pub open spec fn keyed(self) -> bool {
        self.key == rules::game_key(self@)
    }

    proof fn lemma_man_from(self, board: Seq<Option<Man>>, s: int, p: int)
        requires
            self.shows(board),
            geom::valid(s),
            0 <= p <= 12,
            forall|q: int| 0 <= q < p ==> board[s] != Some(#[trigger] types::man_of(q)),
        ensures
            self.man_from(s, p) == board[s],
        decreases 12 - p,
    {
        if p < 12 {
            if !bits::bit(self.pieces@[p], s) {
                self.lemma_man_from(board, s, p + 1);
            }
        } else if let Some(m) = board[s] {
            assert(types::man_of(types::man_code(m)) == m);
        }
    }

    /// A position shows one board only.
    pub proof fn lemma_shows(self, board: Seq<Option<Man>>)
        requires
            self.shows(board),
        ensures
            self.board() == board,
            self.wf(),
    {
        assert forall|s: int| 0 <= s < 64 implies #[trigger] self.board()[s] == board[s] by {
            self.lemma_man_from(board, s, 0);
        }
        assert(self.board() =~= board);
    }

    pub fn empty() -> (r: Position)
        ensures
            r.wf(),
            r@ == (Game { board: Seq::new(64, |s: int| None), side: Color::White, ply: 0 }),
            r.key == 0,
            r.keyed(),
            r.drift() == 0,
    {
        let r = Position {
            pieces: [0; 12],
            occ_color: [0; 2],
            occ: 0,
            side: Color::White,
            ply: 0,
            key: 0,
        };
        proof {
            let blank: Seq<Option<Man>> = Seq::new(64, |s: int| None);
            r.lemma_shows(blank);
            rules::lemma_empty_board_key(blank);
            rules::lemma_xor_none(0);
        }
        r
    }

    // -----------------------------------------------------------------------
    // Queries
    // -----------------------------------------------------------------------

    /// The index of the piece on `s`.
    pub fn piece_at(&self, s: usize) -> (r: Option<usize>)
        requires
            self.wf(),
            s < 64,
        ensures
            r is None <==> self@.board[s as int] is None,
            r matches Some(p) ==> p < 12 && self@.board[s as int] == Some(types::man_of(p as int)),
    {
        if !in_board(self.occ, s) {
            return None;
        }
        let mut p: usize = 0;
        while p < 12
            invariant
                self.wf(),
                s < 64,
                p <= 12,
                self.man_from(s as int, 0) == self.man_from(s as int, p as int),
                bits::bit(self.occ, s as int),
            decreases 12 - p,
        {
            if in_board(self.pieces[p], s) {
                return Some(p);
            }
            p += 1;
        }
        None
    }

    pub fn bb_of(&self, c: Color, pt: PieceType) -> (b: Bitboard)
        ensures
            b == self.pieces@[types::man_code((c, pt))],
            self.wf() ==> forall|s: int|
                #![trigger bits::bit(b, s)]
                #![trigger rules::stands(self@, (c, pt), s)]
                bits::bit(b, s) <==> rules::stands(self@, (c, pt), s),
    {
        let b: u64 = self.pieces[piece_index(c, pt)];
        proof {
            if self.wf() {
                assert forall|s: int|
                    #![trigger bits::bit(b, s)]
                    #![trigger rules::stands(self@, (c, pt), s)]
                    bits::bit(b, s) <==> rules::stands(self@, (c, pt), s) by {
                    let p = types::man_code((c, pt));
                    assert(types::man_of(p) == (c, pt));
                    if geom::valid(s) {
                        assert(bits::bit(self.pieces@[p], s) <==> self.board()[s] == Some(
                            types::man_of(p),
                        ));
                    }
                }
            }
        }
        b
    }

    /// The square of the king, the lowest where there are several.
    pub fn king_sq(&self, c: Color) -> (r: Option<usize>)
        requires
            self.wf(),
        ensures
            r is None <==> rules::king_square(self@, c) is None,
            r matches Some(k) ==> k < 64 && rules::king_square(self@, c) == Some(k as int)
                && rules::stands(self@, (c, PieceType::King), k as int),
    {
        let b: u64 = self.bb_of(c, PieceType::King);
        let ghost p = |s: int| rules::stands(self@, (c, PieceType::King), s);
        if b == 0 {
            proof {
                bits::lemma_first_none(p, 0);
            }
            None
        } else {
            proof {
                bits::lemma_lowest(b);
                bits::lemma_first_some(p, 0, vstd::std_specs::bits::u64_trailing_zeros(b) as int);
            }
            Some(b.trailing_zeros() as usize)
        }
    }

    pub fn empty_squares(&self) -> (b: Bitboard)
        requires
            self.wf(),
        ensures
            forall|s: int| #[trigger]
                bits::bit(b, s) <==> geom::valid(s) && !rules::occupied(self@, s),
    {
        !self.occ
    }

    /// How often a piece occurs.
    pub(crate) fn count_of(&self, c: Color, pt: PieceType) -> (n: i32)
        requires
            self.wf(),
        ensures
            n == rules::count(self@, (c, pt)),
            0 <= n <= 64,
    {
        let b: u64 = self.bb_of(c, pt);
        proof {
            let p = |s: int| bits::bit(b, s);
            let q = |s: int| rules::stands(self@, (c, pt), s);
            bits::lemma_count_ext(p, q, 64);
            bits::lemma_count_bounds(p, 64);
        }
        b.count_ones() as i32
    }

    /// Material in centipawns for one side, kings excluded.
    pub fn material_cp(&self, c: Color) -> (m: i32)
        requires
            self.wf(),
        ensures
            m == rules::material(self@, c),
            0 <= m <= 64 * 2775,
    {
        self.count_of(c, PieceType::Pawn) * 25 + self.count_of(c, PieceType::Knight) * 900
            + self.count_of(c, PieceType::Bishop) * 400 + self.count_of(c, PieceType::Rook) * 450
            + self.count_of(c, PieceType::Queen) * 1000
    }

    /// Everything that is not a king and not a pawn — the material whose
    /// disappearance triggers the draw.
    pub fn heavy_material_bb(&self) -> (b: Bitboard)
        requires
            self.wf(),
        ensures
            forall|s: int|
                #![trigger bits::bit(b, s)]
                #![trigger rules::heavy_on(self@, s)]
                bits::bit(b, s) <==> rules::heavy_on(self@, s),
    {
        let w: u64 = self.bb_of(Color::White, PieceType::Knight) | self.bb_of(
            Color::White,
            PieceType::Bishop,
        ) | self.bb_of(Color::White, PieceType::Rook) | self.bb_of(Color::White, PieceType::Queen);
        let b: u64 = self.bb_of(Color::Black, PieceType::Knight) | self.bb_of(
            Color::Black,
            PieceType::Bishop,
        ) | self.bb_of(Color::Black, PieceType::Rook) | self.bb_of(Color::Black, PieceType::Queen);
        proof {
            assert forall|s: int|
                #![trigger bits::bit(w | b, s)]
                #![trigger rules::heavy_on(self@, s)]
                bits::bit(w | b, s) <==> rules::heavy_on(self@, s) by {
                if rules::heavy_on(self@, s) {
                    let m = self@.board[s]->0;
                    assert(rules::stands(self@, m, s));
                    assert(m == (m.0, m.1));
                }
            }
        }
        w | b
    }

    // -----------------------------------------------------------------------
    // Terminal conditions, evaluated in order
    // -----------------------------------------------------------------------

    pub fn result(&self) -> (r: Option<GameResult>)
        requires
            self.wf(),
        ensures
            r == rules::outcome(self@),
    {
        let wb: u64 = self.bb_of(Color::White, PieceType::King);
        let kb: u64 = self.bb_of(Color::Black, PieceType::King);
        let hb: u64 = self.heavy_material_bb();
        proof {
            bits::lemma_empty_board(wb);
            bits::lemma_empty_board(kb);
            bits::lemma_empty_board(hb);
        }
        let wk: bool = wb != 0;
        let bk: bool = kb != 0;
        assert(wk == rules::has_king(self@, Color::White));
        assert(bk == rules::has_king(self@, Color::Black));
        // 1. Both kings removed simultaneously -> draw.
        if !wk && !bk {
            return Some(GameResult::Draw);
        }
        // 2. Exactly one king removed -> the surviving king's side wins. This
        //    includes blowing up your own king.
        if !wk {
            return Some(GameResult::Win(Color::Black));
        }
        if !bk {
            return Some(GameResult::Win(Color::White));
        }
        // 3. Only kings and pawns remain -> draw.
        if hb == 0 {
            return Some(GameResult::Draw);
        }
        assert(exists|s: int| #[trigger] rules::heavy_on(self@, s));
        // 4. Ply cap -> adjudicate by material.
        if self.ply >= PLY_CAP {
            return Some(self.adjudicate());
        }
        None
    }

    /// Scores the position by material rather than calling an automatic draw, so
    /// that a losing side gains nothing by shuffling to the cap.
    pub fn adjudicate(&self) -> (r: GameResult)
        requires
            self.wf(),
        ensures
            r == rules::verdict(self@),
    {
        let diff: i32 = self.material_cp(Color::White) - self.material_cp(Color::Black);
        if diff > ADJUDICATION_THRESHOLD {
            GameResult::Win(Color::White)
        } else if diff < -ADJUDICATION_THRESHOLD {
            GameResult::Win(Color::Black)
        } else {
            GameResult::Draw
        }
    }

    // -----------------------------------------------------------------------
    // Mutation primitives
    // -----------------------------------------------------------------------

    /// Puts piece `p` on the empty square `s`.
    pub fn put_piece(&mut self, p: usize, s: usize)
        requires
            old(self).wf(),
            p < 12,
            s < 64,
            !rules::occupied(old(self)@, s as int),
        ensures
            final(self).wf(),
            final(self)@ == (Game {
                board: old(self)@.board.update(s as int, Some(types::man_of(p as int))),
                ..old(self)@
            }),
            final(self).drift() == old(self).drift(),
    {
        let b: u64 = bb(s);
        let c: usize = piece_color(p).index();
        self.pieces[p] = self.pieces[p] | b;
        self.occ_color[c] = self.occ_color[c] | b;
        self.occ = self.occ | b;
        self.key = self.key ^ zobrist_piece(p, s);
        proof {
            let o = *old(self);
            let next = o@.board.update(s as int, Some(types::man_of(p as int)));
            self.lemma_shows(next);
            let k = tables::piece_key(p as int, s as int);
            rules::lemma_board_key_update(o@.board, s as int, Some(types::man_of(p as int)));
            rules::lemma_xor_none(k);
            rules::lemma_same_drift(o.key, rules::board_key(o@.board), rules::side_part(o.side), k);
        }
    }

    /// Takes piece `p` off the square `s`, on which it stands.
    fn remove_known(&mut self, p: usize, s: usize)
        requires
            old(self).wf(),
            p < 12,
            rules::stands(old(self)@, types::man_of(p as int), s as int),
        ensures
            final(self).wf(),
            final(self)@ == (Game {
                board: old(self)@.board.update(s as int, None),
                ..old(self)@
            }),
            final(self).drift() == old(self).drift(),
    {
        let b: u64 = bb(s);
        let c: usize = piece_color(p).index();
        self.pieces[p] = self.pieces[p] & !b;
        self.occ_color[c] = self.occ_color[c] & !b;
        self.occ = self.occ & !b;
        self.key = self.key ^ zobrist_piece(p, s);
        proof {
            let o = *old(self);
            self.lemma_shows(o@.board.update(s as int, None));
            let k = tables::piece_key(p as int, s as int);
            rules::lemma_board_key_update(o@.board, s as int, None);
            rules::lemma_xor_none(k);
            rules::lemma_same_drift(o.key, rules::board_key(o@.board), rules::side_part(o.side), k);
        }
    }

    /// Moves piece `p` from `from` to the empty square `to`.
    fn move_known(&mut self, p: usize, from: usize, to: usize)
        requires
            old(self).wf(),
            p < 12,
            rules::stands(old(self)@, types::man_of(p as int), from as int),
            to < 64,
            !rules::occupied(old(self)@, to as int),
        ensures
            final(self).wf(),
            final(self)@ == (Game {
                board: old(self)@.board.update(from as int, None).update(
                    to as int,
                    Some(types::man_of(p as int)),
                ),
                ..old(self)@
            }),
            final(self).drift() == old(self).drift(),
    {
        let delta: u64 = bb(from) | bb(to);
        let c: usize = piece_color(p).index();
        self.pieces[p] = self.pieces[p] ^ delta;
        self.occ_color[c] = self.occ_color[c] ^ delta;
        self.occ = self.occ ^ delta;
        self.key = self.key ^ (zobrist_piece(p, from) ^ zobrist_piece(p, to));
        proof {
            let o = *old(self);
            let m = types::man_of(p as int);
            let mid = o@.board.update(from as int, None);
            let next = mid.update(to as int, Some(m));
            self.lemma_shows(next);
            let k1 = tables::piece_key(p as int, from as int);
            let k2 = tables::piece_key(p as int, to as int);
            rules::lemma_board_key_update(o@.board, from as int, None);
            rules::lemma_board_key_update(mid, to as int, Some(m));
            rules::lemma_xor_none(k1);
            rules::lemma_xor_none(k2);
            let b0 = rules::board_key(o@.board);
            assert((b0 ^ k1) ^ k2 == b0 ^ (k1 ^ k2)) by (bit_vector);
            rules::lemma_same_drift(o.key, b0, rules::side_part(o.side), k1 ^ k2);
        }
    }

    /// The board without what stands on the squares of `hit`, as far as pieces below
    /// `p`, and piece `p` off the squares of `rest`, are concerned.
    spec fn partly_cleared(board: Seq<Option<Man>>, hit: u64, p: int, rest: u64) -> Seq<
        Option<Man>,
    > {
        Seq::new(
            64,
            |s: int|
                match board[s] {
                    Some(m) if bits::bit(hit, s) && (types::man_code(m) < p || types::man_code(m)
                        == p && !bits::bit(rest, s)) => None,
                    x => x,
                },
        )
    }

    /// Destroys every piece inside `mask`, of either colour and any type.
    /// Idempotent on empty squares.
    fn clear_mask(&mut self, mask: Bitboard)
        requires
            old(self).wf(),
        ensures
            final(self).wf(),
            final(self)@ == (Game {
                board: Seq::new(
                    64,
                    |s: int|
                        if bits::bit(mask, s) {
                            None
                        } else {
                            old(self)@.board[s]
                        },
                ),
                ..old(self)@
            }),
            final(self).drift() == old(self).drift(),
    {
        let hit: u64 = self.occ & mask;
        let ghost board = self@.board;
        let ghost cleared: Seq<Option<Man>> = Seq::new(
            64,
            |s: int|
                if bits::bit(mask, s) {
                    None
                } else {
                    board[s]
                },
        );
        if hit == 0 {
            proof {
                bits::lemma_empty_board(hit);
                assert forall|s: int| geom::valid(s) implies #[trigger] cleared[s] == board[s] by {
                    assert(!bits::bit(hit, s));
                }
                assert(cleared =~= board);
            }
            return;
        }
        let ghost o = *self;
        let mut p: usize = 0;
        proof {
            assert(Self::partly_cleared(board, hit, 0, !0u64) =~= board);
        }
        while p < 12
            invariant
                p <= 12,
                o.wf(),
                board == o@.board,
                hit == o.occ & mask,
                self.occ == o.occ,
                self.occ_color == o.occ_color,
                self.side == o.side,
                self.ply == o.ply,
                forall|q: int| p <= q < 12 ==> #[trigger] self.pieces@[q] == o.pieces@[q],
                forall|q: int, s: int|
                    0 <= q < p ==> (#[trigger] bits::bit(self.pieces@[q], s) <==> bits::bit(
                        o.pieces@[q],
                        s,
                    ) && !bits::bit(hit, s)),
                self.key ^ rules::board_key(
                    Self::partly_cleared(board, hit, p as int, !0u64),
                ) == o.key ^ rules::board_key(board),
            decreases 12 - p,
        {
            let x: u64 = self.pieces[p] & hit;
            proof {
                assert(Self::partly_cleared(board, hit, p as int, !0u64)
                    =~= Self::partly_cleared(board, hit, p as int, x)) by {
                    assert forall|s: int| geom::valid(s) implies Self::partly_cleared(
                        board,
                        hit,
                        p as int,
                        !0u64,
                    )[s] == Self::partly_cleared(board, hit, p as int, x)[s] by {
                        assert(bits::bit(!0u64, s));
                        assert(bits::bit(o.pieces@[p as int], s) <==> board[s] == Some(
                            types::man_of(p as int),
                        ));
                    }
                }
            }
            let ghost o2 = *self;
            let mut it = types::bits(x);
            loop
                invariant
                    p < 12,
                    o.wf(),
                    board == o@.board,
                    hit == o.occ & mask,
                    x == o.pieces@[p as int] & hit,
                    self.pieces@ == o2.pieces@,
                    self.occ == o.occ,
                    self.occ_color == o.occ_color,
                    self.side == o.side,
                    self.ply == o.ply,
                    forall|s: int| #[trigger] bits::bit(it.0, s) ==> bits::bit(x, s),
                    self.key ^ rules::board_key(
                        Self::partly_cleared(board, hit, p as int, it.0),
                    ) == o.key ^ rules::board_key(board),
                ensures
                    it.0 == 0,
                decreases it.0,
            {
                let ghost rest = it.0;
                let ghost before = self.key;
                match it.next() {
                    None => break,
                    Some(s) => {
                        self.key = self.key ^ zobrist_piece(p, s);
                        proof {
                            let b0 = Self::partly_cleared(board, hit, p as int, rest);
                            let b1 = Self::partly_cleared(board, hit, p as int, it.0);
                            assert(bits::bit(x, s as int));
                            assert(bits::bit(o.pieces@[p as int], s as int));
                            assert(board[s as int] == Some(types::man_of(p as int)));
                            assert(b1 =~= b0.update(s as int, None));
                            let k = tables::piece_key(p as int, s as int);
                            rules::lemma_board_key_update(b0, s as int, None);
                            rules::lemma_xor_none(k);
                            let bk = rules::board_key(b0);
                            assert((before ^ k) ^ (bk ^ k) == before ^ bk) by (bit_vector);
                        }
                    },
                }
            }
            self.pieces[p] = self.pieces[p] & !x;
            proof {
                let b0 = Self::partly_cleared(board, hit, p as int, 0);
                let b1 = Self::partly_cleared(board, hit, p + 1, !0u64);
                assert forall|s: int| geom::valid(s) implies b0[s] == b1[s] by {
                    assert(bits::bit(!0u64, s));
                }
                assert(b0 =~= b1);
            }
            p += 1;
        }
        self.occ_color[0] = self.occ_color[0] & !hit;
        self.occ_color[1] = self.occ_color[1] & !hit;
        self.occ = self.occ & !hit;
        proof {
            assert(Self::partly_cleared(board, hit, 12, !0u64) =~= cleared) by {
                assert forall|s: int| geom::valid(s) implies Self::partly_cleared(
                    board,
                    hit,
                    12,
                    !0u64,
                )[s] == cleared[s] by {
                    assert(bits::bit(hit, s) <==> bits::bit(o.occ, s) && bits::bit(mask, s));
                    assert(bits::bit(o.occ, s) <==> board[s] is Some);
                }
            }
            assert(self.shows(cleared)) by {
                assert forall|q: int, s: int| 0 <= q < 12 && geom::valid(s) implies (
                #[trigger] bits::bit(self.pieces@[q], s) <==> cleared[s] == Some(
                    types::man_of(q),
                )) by {
                    assert(bits::bit(o.pieces@[q], s) <==> board[s] == Some(types::man_of(q)));
                    assert(bits::bit(o.occ, s) <==> board[s] is Some);
                }
            }
            self.lemma_shows(cleared);
            let (k, bk, k0, bk0, sp) = (
                self.key,
                rules::board_key(cleared),
                o.key,
                rules::board_key(board),
                rules::side_part(o.side),
            );
            assert(k ^ (bk ^ sp) == k0 ^ (bk0 ^ sp)) by (bit_vector)
                requires
                    k ^ bk == k0 ^ bk0,
            ;
        }
    }

    // -----------------------------------------------------------------------
    // Move application
    // -----------------------------------------------------------------------

    /// Applies `mv` in place. Every pseudo-legal move is legal, so there is no
    /// filtering.
    pub fn make_move(&mut self, mv: Move) -> (info: MoveInfo)
        requires
            old(self).wf(),
            rules::playable(old(self)@, mv.src(), mv.dst()),
            old(self).ply < u16::MAX,
        ensures
            final(self).wf(),
            final(self)@ == rules::apply(old(self)@, mv.src(), mv.dst()),
            final(self).drift() == old(self).drift(),
            info.tells(old(self)@, mv.src(), mv.dst()),
    {
        let from: usize = mv.from();
        let to: usize = mv.to();
        let p: usize = match self.piece_at(from) {
            Some(p) => p,
            None => 0,
        };
        let occ_before: u64 = self.occ;
        let mut mover_died: bool = false;
        // Computed per branch rather than as `occ_before & !occ_after`: a knight,
        // queen or king that lands on the square it just cleared leaves that
        // square occupied afterwards, so set-difference would silently lose the
        // capture.
        let captured: u64;
        let ghost g = self@;
        let ghost after = rules::board_after(g, from as int, to as int);

        match piece_type_of(p) {
            // Teleport to any empty square. Never captures.
            PieceType::Pawn => {
                captured = 0;
                self.move_known(p, from, to);
            },
            // Sweep: destroy both intermediates and the destination, then land.
            // Unblockable; the knight survives.
            PieceType::Knight => {
                let path: u64 = knight_path_mask(from, to);
                captured = path & occ_before;
                proof {
                    geom::lemma_knight_misses(from as int, to as int);
                    assert(bits::bit(path, to as int));
                    assert(!bits::bit(path, from as int));
                }
                self.clear_mask(path);
                self.move_known(p, from, to);
            },
            // One-shot detonator. Landing on an occupied square clears the 3x3
            // centred on it, and takes the mover with it. No chain reactions.
            PieceType::Bishop | PieceType::Rook => {
                if in_board(self.occ, to) {
                    let blast: u64 = blast_mask(to);
                    captured = blast & occ_before & !bb(from);
                    self.remove_known(p, from);
                    self.clear_mask(blast);
                    mover_died = true;
                } else {
                    captured = 0;
                    self.move_known(p, from, to);
                }
            },
            // Forced sweeper. Everything passed over is captured, plus the landing
            // square if occupied. The queen survives.
            PieceType::Queen => {
                let swept: u64 = (between_mask(from, to) | bb(to)) & occ_before;
                captured = swept;
                self.clear_mask(swept);
                self.move_known(p, from, to);
            },
            // Displacement capture only.
            PieceType::King => {
                captured = bb(to) & occ_before;
                self.clear_mask(bb(to));
                self.move_known(p, from, to);
            },
        }
        assert(self@.board =~= after);
        let ghost mid = *self;

        self.side = self.side.flip();
        self.key = self.key ^ zobrist_side();
        self.ply = self.ply + 1;

        proof {
            self.lemma_shows(after);
            rules::lemma_flip_drift(mid.key, rules::board_key(after), mid.side);
        }
        MoveInfo { emptied: occ_before & !self.occ, captured, mover_died, piece: p }
    }

    /// Non-mutating variant: returns the child position alongside the info record.
    pub fn after(&self, mv: Move) -> (r: (Position, MoveInfo))
        requires
            self.wf(),
            rules::playable(self@, mv.src(), mv.dst()),
            self.ply < u16::MAX,
        ensures
            r.0.wf(),
            r.0@ == rules::apply(self@, mv.src(), mv.dst()),
            r.0.drift() == self.drift(),
            r.1.tells(self@, mv.src(), mv.dst()),
    {
        let mut child = *self;
        let info = child.make_move(mv);
        (child, info)
    }

    /// The pieces below `p`, and piece `p` off the squares of `rest`.
    spec fn partly_seen(board: Seq<Option<Man>>, p: int, rest: u64) -> Seq<Option<Man>> {
        Seq::new(
            64,
            |s: int|
                match board[s] {
                    Some(m) if types::man_code(m) < p || types::man_code(m) == p && !bits::bit(
                        rest,
                        s,
                    ) => Some(m),
                    _ => None,
                },
        )
    }

    /// Recomputes the Zobrist key from scratch.
    pub fn recompute_key(&mut self)
        requires
            old(self).wf(),
        ensures
            final(self).wf(),
            final(self)@ == old(self)@,
            final(self).keyed(),
            *final(self) == (Position { key: final(self).key, ..*old(self) }),
    {
        let ghost board = self@.board;
        let mut k: u64 = 0;
        let mut p: usize = 0;
        proof {
            rules::lemma_empty_board_key(Self::partly_seen(board, 0, !0u64));
        }
        while p < 12
            invariant
                p <= 12,
                self.wf(),
                board == self@.board,
                k == rules::board_key(Self::partly_seen(board, p as int, !0u64)),
            decreases 12 - p,
        {
            let x: u64 = self.pieces[p];
            proof {
                let b0 = Self::partly_seen(board, p as int, !0u64);
                let b1 = Self::partly_seen(board, p as int, x);
                assert forall|s: int| geom::valid(s) implies b0[s] == b1[s] by {
                    assert(bits::bit(!0u64, s));
                    assert(bits::bit(x, s) <==> board[s] == Some(types::man_of(p as int)));
                }
                assert(b0 =~= b1);
            }
            let mut it = types::bits(x);
            loop
                invariant
                    p < 12,
                    self.wf(),
                    board == self@.board,
                    x == self.pieces@[p as int],
                    forall|s: int| #[trigger] bits::bit(it.0, s) ==> bits::bit(x, s),
                    k == rules::board_key(Self::partly_seen(board, p as int, it.0)),
                ensures
                    it.0 == 0,
                decreases it.0,
            {
                let ghost rest = it.0;
                match it.next() {
                    None => break,
                    Some(s) => {
                        k = k ^ zobrist_piece(p, s);
                        proof {
                            let b0 = Self::partly_seen(board, p as int, rest);
                            let b1 = Self::partly_seen(board, p as int, it.0);
                            assert(bits::bit(x, s as int));
                            let m = types::man_of(p as int);
                            assert(board[s as int] == Some(m));
                            assert(b1 =~= b0.update(s as int, Some(m)));
                            rules::lemma_board_key_update(b0, s as int, Some(m));
                            rules::lemma_xor_none(tables::piece_key(p as int, s as int));
                        }
                    },
                }
            }
            proof {
                let b0 = Self::partly_seen(board, p as int, 0);
                let b1 = Self::partly_seen(board, p + 1, !0u64);
                assert forall|s: int| geom::valid(s) implies b0[s] == b1[s] by {
                    assert(bits::bit(!0u64, s));
                }
                assert(b0 =~= b1);
            }
            p += 1;
        }
        proof {
            assert(Self::partly_seen(board, 12, !0u64) =~= board);
            rules::lemma_xor_none(k);
        }
        if self.side == Color::Black {
            k = k ^ zobrist_side();
        }
        self.key = k;
        proof {
            self.lemma_shows(board);
        }
    }

    /// The squares on which some piece below `p` stands.
    pub open spec fn union_below(self, p: int) -> u64
        decreases p,
    {
        if p <= 0 {
            0
        } else {
            self.union_below(p - 1) | self.pieces@[p - 1]
        }
    }

    /// The first piece, from `p` on, that shares a square with an earlier one.
    pub open spec fn first_clash(self, p: int) -> Option<int>
        decreases 12 - p,
    {
        if p >= 12 {
            None
        } else if self.union_below(p) & self.pieces@[p] != 0 {
            Some(p)
        } else {
            self.first_clash(p + 1)
        }
    }

    /// The squares of the pieces of one colour.
    pub open spec fn color_union(self, c: Color) -> u64 {
        let i = 6 * c.code();
        self.pieces@[i] | self.pieces@[i + 1] | self.pieces@[i + 2] | self.pieces@[i + 3]
            | self.pieces@[i + 4] | self.pieces@[i + 5]
    }

    /// What is wrong with a position, if anything.
    pub open spec fn complaint(self) -> Option<Seq<char>> {
        if let Some(p) = self.first_clash(0) {
            Some(
                "two pieces on "@ + types::square_names(
                    self.union_below(p) & self.pieces@[p],
                    64,
                ),
            )
        } else if self.union_below(12) != self.occ {
            Some("occupancy disagrees with piece boards"@)
        } else if self.color_union(Color::White) != self.occ_color@[0] || self.color_union(
            Color::Black,
        ) != self.occ_color@[1] {
            Some("colour occupancy disagrees with piece boards"@)
        } else if bits::popcount(self.pieces@[5]) > 1 || bits::popcount(self.pieces@[11]) > 1 {
            Some("more than one king of a colour"@)
        } else {
            None
        }
    }

    /// Neither side has a second king.
    pub open spec fn single_kings(g: Game) -> bool {
        rules::count(g, (Color::White, PieceType::King)) <= 1 && rules::count(
            g,
            (Color::Black, PieceType::King),
        ) <= 1
    }

    proof fn lemma_union_below(self, p: int)
        requires
            0 <= p <= 12,
        ensures
            forall|s: int| #[trigger]
                bits::bit(self.union_below(p), s) <==> exists|q: int|
                    0 <= q < p && #[trigger] bits::bit(self.pieces@[q], s),
        decreases p,
    {
        if p > 0 {
            self.lemma_union_below(p - 1);
            assert forall|s: int| #[trigger]
                bits::bit(self.union_below(p), s) <==> exists|q: int|
                    0 <= q < p && #[trigger] bits::bit(self.pieces@[q], s) by {
                let before = self.union_below(p - 1);
                assert(bits::bit(self.union_below(p), s) <==> bits::bit(before, s) || bits::bit(
                    self.pieces@[p - 1],
                    s,
                ));
                if bits::bit(before, s) {
                    let q = choose|q: int|
                        0 <= q < p - 1 && #[trigger] bits::bit(self.pieces@[q], s);
                    assert(0 <= q < p);
                }
            }
        }
    }

    proof fn lemma_no_clash(self, p: int)
        requires
            0 <= p <= 12,
        ensures
            self.first_clash(p) is None <==> forall|q: int, r: int, s: int|
                p <= r < 12 && 0 <= q < r && #[trigger] bits::bit(self.pieces@[q], s)
                    ==> !(#[trigger] bits::bit(self.pieces@[r], s)),
        decreases 12 - p,
    {
        if p < 12 {
            self.lemma_no_clash(p + 1);
            self.lemma_union_below(p);
            let x = self.union_below(p) & self.pieces@[p];
            bits::lemma_empty_board(x);
            if x != 0 {
                let s = choose|s: int| #[trigger] bits::bit(x, s);
                assert(bits::bit(self.union_below(p), s) && bits::bit(self.pieces@[p], s));
                let q = choose|q: int| 0 <= q < p && #[trigger] bits::bit(self.pieces@[q], s);
                assert(p <= p < 12 && 0 <= q < p);
            } else {
                assert forall|q: int, s: int|
                    0 <= q < p && #[trigger] bits::bit(self.pieces@[q], s) implies !bits::bit(
                    self.pieces@[p],
                    s,
                ) by {
                    assert(bits::bit(self.union_below(p), s));
                    assert(!bits::bit(x, s));
                }
            }
        }
    }

    /// Nothing is wrong exactly when the position is well formed with single kings,
    /// and of a well-formed position only the kings can be wrong.
    pub proof fn lemma_complaint(self)
        ensures
            self.complaint() is None <==> self.wf() && Self::single_kings(self@),
            self.wf() && self.complaint() is Some ==> self.complaint() == Some(
                "more than one king of a colour"@,
            ),
    {
        self.lemma_no_clash(0);
        self.lemma_union_below(12);
        let board = self.board();
        let fits = self.first_clash(0) is None && self.union_below(12) == self.occ
            && self.color_union(Color::White) == self.occ_color@[0] && self.color_union(
            Color::Black,
        ) == self.occ_color@[1];
        if fits {
            assert(self.shows(board)) by {
                assert forall|p: int, s: int| 0 <= p < 12 && geom::valid(s) implies (
                #[trigger] bits::bit(self.pieces@[p], s) <==> board[s] == Some(types::man_of(p)))
                    by {
                    self.lemma_man_found(s, 0, p);
                }
                assert forall|s: int| geom::valid(s) implies (#[trigger] bits::bit(self.occ, s)
                    <==> board[s] is Some) by {
                    self.lemma_man_exists(s, 0);
                }
                assert forall|c: int, s: int| 0 <= c < 2 && geom::valid(s) implies (
                #[trigger] bits::bit(self.occ_color@[c], s) <==> (board[s] matches Some(m)
                    && m.0.code() == c)) by {
                    self.lemma_man_exists(s, 0);
                    self.lemma_color_union(s);
                }
            }
        }
        if self.wf() {
            assert forall|s: int| geom::valid(s) implies #[trigger] bits::bit(
                self.union_below(12),
                s,
            ) == bits::bit(self.occ, s) by {
                self.lemma_man_exists(s, 0);
            }
            bits::lemma_board_ext(self.union_below(12), self.occ);
            assert forall|s: int| geom::valid(s) implies bits::bit(
                self.color_union(Color::White),
                s,
            ) == bits::bit(self.occ_color@[0], s) && bits::bit(self.color_union(Color::Black), s)
                == bits::bit(self.occ_color@[1], s) by {
                self.lemma_man_exists(s, 0);
                self.lemma_color_union(s);
            }
            bits::lemma_board_ext(self.color_union(Color::White), self.occ_color@[0]);
            bits::lemma_board_ext(self.color_union(Color::Black), self.occ_color@[1]);
            assert(fits);
            bits::lemma_count_ext(
                |s: int| bits::bit(self.pieces@[5], s),
                |s: int| rules::stands(self@, (Color::White, PieceType::King), s),
                64,
            );
            bits::lemma_count_ext(
                |s: int| bits::bit(self.pieces@[11], s),
                |s: int| rules::stands(self@, (Color::Black, PieceType::King), s),
                64,
            );
        }
    }

    proof fn lemma_man_exists(self, s: int, p: int)
        requires
            0 <= p <= 12,
        ensures
            self.man_from(s, p) is Some <==> exists|q: int|
                p <= q < 12 && #[trigger] bits::bit(self.pieces@[q], s),
            self.man_from(s, p) matches Some(m) ==> bits::bit(self.pieces@[types::man_code(m)], s)
                && p <= types::man_code(m) < 12,
        decreases 12 - p,
    {
        if p < 12 {
            self.lemma_man_exists(s, p + 1);
        }
    }

    proof fn lemma_man_found(self, s: int, p: int, q: int)
        requires
            0 <= p <= q < 12,
            forall|q: int, r: int, s: int|
                0 <= r < 12 && 0 <= q < r && #[trigger] bits::bit(self.pieces@[q], s)
                    ==> !(#[trigger] bits::bit(self.pieces@[r], s)),
        ensures
            bits::bit(self.pieces@[q], s) <==> self.man_from(s, p) == Some(types::man_of(q)),
        decreases q - p,
    {
        if p < q {
            self.lemma_man_found(s, p + 1, q);
            assert(types::man_code(types::man_of(p)) == p);
            assert(types::man_code(types::man_of(q)) == q);
        } else {
            self.lemma_man_exists(s, p);
        }
    }

    proof fn lemma_color_union(self, s: int)
        ensures
            bits::bit(self.color_union(Color::White), s) <==> exists|q: int|
                0 <= q < 6 && #[trigger] bits::bit(self.pieces@[q], s),
            bits::bit(self.color_union(Color::Black), s) <==> exists|q: int|
                6 <= q < 12 && #[trigger] bits::bit(self.pieces@[q], s),
    {
    }

    /// Internal consistency check — occupancy agrees with the piece boards and no
    /// square holds two pieces.
    pub fn validate(&self) -> (r: Result<(), String>)
        ensures
            r is Ok <==> self.wf() && Self::single_kings(self@),
            r is Ok <==> self.complaint() is None,
            r matches Err(e) ==> self.complaint() == Some(e@),
    {
        proof {
            self.lemma_complaint();
        }
        let mut acc: u64 = 0;
        let mut p: usize = 0;
        while p < 12
            invariant
                p <= 12,
                acc == self.union_below(p as int),
                self.first_clash(0) == self.first_clash(p as int),
                self.complaint() is None <==> self.wf() && Self::single_kings(self@),
            decreases 12 - p,
        {
            if acc & self.pieces[p] != 0 {
                let mut out: String = String::new();
                out.append("two pieces on ");
                out.append(types::square_list(acc & self.pieces[p]).as_str());
                assert(out@ =~= "two pieces on "@ + types::square_names(
                    acc & self.pieces@[p as int],
                    64,
                ));
                return Err(out);
            }
            acc = acc | self.pieces[p];
            p += 1;
        }
        if acc != self.occ {
            return Err("occupancy disagrees with piece boards".to_owned());
        }
        let w: u64 = self.pieces[0] | self.pieces[1] | self.pieces[2] | self.pieces[3]
            | self.pieces[4] | self.pieces[5];
        let b: u64 = self.pieces[6] | self.pieces[7] | self.pieces[8] | self.pieces[9]
            | self.pieces[10] | self.pieces[11];
        if w != self.occ_color[0] || b != self.occ_color[1] {
            return Err("colour occupancy disagrees with piece boards".to_owned());
        }
        if self.bb_of(Color::White, PieceType::King).count_ones() > 1 || self.bb_of(
            Color::Black,
            PieceType::King,
        ).count_ones() > 1 {
            return Err("more than one king of a colour".to_owned());
        }
        Ok(())
    }
}

impl MoveInfo {
    /// The record of the move from `from` to `to`.
    pub open spec fn tells(self, g: Game, from: int, to: int) -> bool {
        &&& forall|s: int| #[trigger]
            bits::bit(self.emptied, s) <==> rules::occupied(g, s) && !rules::occupied(
                rules::apply(g, from, to),
                s,
            )
        &&& forall|s: int| #[trigger] bits::bit(self.captured, s) <==> rules::hits(g, from, to, s)
        &&& self.mover_died == rules::dies(g, from, to)
        &&& g.board[from] == Some(types::man_of(self.piece as int))
        &&& self.piece < 12
    }
}

} // verus!
