//! Positions as text.
//!
//! Six fields, parted by white space: the board from rank 8 down, the side to move,
//! castling and en passant (always `-`, and ignored when read), the ply count and the
//! full-move number (ignored when read). Fields from the second on may be missing.

use vstd::prelude::*;
use vstd::string::*;
use crate::geom;
use crate::position::Position;
use crate::rules;
use crate::rules::Game;
use crate::text;
use crate::text::{digit_char, parse_u16, push_decimal, split_words};
use crate::types;
use crate::types::{Color, Man, PieceType, piece_char, piece_index, sq};

verus! {

/// How far the board field has been read.
#[verifier::ext_equal]
pub enum Scan {
    /// Next comes file `file` of rank `rank`, both counted from zero.
    Next { rank: int, file: int, board: Seq<Option<Man>> },
    Failed { why: Seq<char> },
}

/// One more character of the board field.
pub open spec fn scan_char(s: Scan, c: char) -> Scan {
    match s {
        Scan::Failed { why } => s,
        Scan::Next { rank, file, board } => {
            if c == '/' {
                if file != 8 {
                    Scan::Failed {
                        why: "rank "@ + text::decimal((rank + 1) as nat) + " has "@ + text::decimal(
                            file as nat,
                        ) + " files, expected 8"@,
                    }
                } else if rank == 0 {
                    Scan::Failed { why: "too many ranks in FEN"@ }
                } else {
                    Scan::Next { rank: rank - 1, file: 0, board }
                }
            } else if '1' <= c <= '8' {
                Scan::Next { rank, file: file + (c as int - '0' as int), board }
            } else {
                match types::man_of_char(c) {
                    None => Scan::Failed { why: "bad piece char '"@ + seq![c] + "' in FEN"@ },
                    Some(m) => {
                        if file > 7 {
                            Scan::Failed { why: "rank overflow in FEN"@ }
                        } else {
                            Scan::Next {
                                rank,
                                file: file + 1,
                                board: board.update(geom::square(rank, file), Some(m)),
                            }
                        }
                    },
                }
            }
        },
    }
}

pub open spec fn blank() -> Seq<Option<Man>> {
    Seq::new(64, |s: int| None)
}

/// The board field, read from the left.
pub open spec fn scan(t: Seq<char>) -> Scan
    decreases t.len(),
{
    if t.len() == 0 {
        Scan::Next { rank: 7, file: 0, board: blank() }
    } else {
        scan_char(scan(t.drop_last()), t.last())
    }
}

/// The board that a board field describes, or what is wrong with it.
pub open spec fn board_of(t: Seq<char>) -> Result<Seq<Option<Man>>, Seq<char>> {
    match scan(t) {
        Scan::Failed { why } => Err(why),
        Scan::Next { rank, file, board } => {
            if rank != 0 || file != 8 {
                Err("FEN board section is not 8x8"@)
            } else {
                Ok(board)
            }
        },
    }
}

/// The side to move, from the second field if there is one.
pub open spec fn side_of(w: Seq<Seq<char>>) -> Result<Color, Seq<char>> {
    if w.len() < 2 || w[1] == "w"@ {
        Ok(Color::White)
    } else if w[1] == "b"@ {
        Ok(Color::Black)
    } else {
        Err("bad side-to-move '"@ + w[1] + "'"@)
    }
}

/// The ply count, from the fifth field; zero if that is missing or no number.
pub open spec fn ply_of(w: Seq<Seq<char>>) -> int {
    if w.len() < 5 {
        0
    } else {
        match text::u16_of(w[4]) {
            Some(n) => n,
            None => 0,
        }
    }
}

/// The game that a text describes, or what is wrong with it.
pub open spec fn read_game(t: Seq<char>) -> Result<Game, Seq<char>> {
    let w = text::words(t);
    if w.len() == 0 {
        Err("empty FEN"@)
    } else {
        match board_of(w[0]) {
            Err(e) => Err(e),
            Ok(board) => match side_of(w) {
                Err(e) => Err(e),
                Ok(side) => {
                    let g = Game { board, side, ply: ply_of(w) };
                    if Position::single_kings(g) {
                        Ok(g)
                    } else {
                        Err("more than one king of a colour"@)
                    }
                },
            },
        }
    }
}

// ---------------------------------------------------------------------------
// Reading
// ---------------------------------------------------------------------------

/// The position holds what has been read, and nothing beyond it.
spec fn in_step(p: Position, t: Seq<char>, rank: int, file: int) -> bool {
    &&& p.wf()
    &&& p.keyed()
    &&& scan(t) == (Scan::Next { rank, file, board: p@.board })
    &&& 0 <= rank < 8
    &&& 0 <= file
    &&& p@.side == Color::White
    &&& p@.ply == 0
    &&& forall|s: int|
        geom::valid(s) && (geom::rank(s) < rank || geom::rank(s) == rank && geom::file(s) >= file)
            ==> #[trigger] p@.board[s] is None
}

fn rank_error(rank: usize, file: u128) -> (e: String)
    requires
        rank < 8,
    ensures
        e@ == "rank "@ + text::decimal((rank + 1) as nat) + " has "@ + text::decimal(file as nat)
            + " files, expected 8"@,
{
    let mut e: String = String::new();
    e.append("rank ");
    push_decimal(&mut e, (rank + 1) as u128);
    e.append(" has ");
    push_decimal(&mut e, file);
    e.append(" files, expected 8");
    assert(e@ =~= "rank "@ + text::decimal((rank + 1) as nat) + " has "@ + text::decimal(
        file as nat,
    ) + " files, expected 8"@);
    e
}

fn char_error(c: char) -> (e: String)
    ensures
        e@ == "bad piece char '"@ + seq![c] + "' in FEN"@,
{
    let mut e: String = String::new();
    e.append("bad piece char '");
    e.push(c);
    e.append("' in FEN");
    assert(e@ =~= "bad piece char '"@ + seq![c] + "' in FEN"@);
    e
}

fn side_error(w: &Vec<char>) -> (e: String)
    ensures
        e@ == "bad side-to-move '"@ + w@ + "'"@,
{
    let mut e: String = String::new();
    e.append("bad side-to-move '");
    let mut i: usize = 0;
    while i < w.len()
        invariant
            i <= w.len(),
            e@ == "bad side-to-move '"@ + w@.take(i as int),
        decreases w.len() - i,
    {
        e.push(w[i]);
        i += 1;
        assert(e@ =~= "bad side-to-move '"@ + w@.take(i as int));
    }
    e.append("'");
    assert(e@ =~= "bad side-to-move '"@ + w@ + "'"@);
    e
}

proof fn lemma_scan_failed(t: Seq<char>, i: int)
    requires
        0 <= i <= t.len(),
        scan(t.take(i)) is Failed,
    ensures
        scan(t) == scan(t.take(i)),
    decreases t.len() - i,
{
    if i < t.len() {
        assert(t.take(i + 1).drop_last() =~= t.take(i));
        lemma_scan_failed(t, i + 1);
    } else {
        assert(t.take(i) =~= t);
    }
}

/// Reads the board field.
fn read_board(t: &Vec<char>) -> (r: Result<Position, String>)
    ensures
        r matches Ok(p) ==> {
            &&& p.wf()
            &&& p.keyed()
            &&& board_of(t@) == Ok::<Seq<Option<Man>>, Seq<char>>(p@.board)
            &&& p@.side == Color::White
            &&& p@.ply == 0
        },
        r matches Err(e) ==> board_of(t@) == Err::<Seq<Option<Man>>, Seq<char>>(e@),
{
    let mut pos = Position::empty();
    let mut rank: usize = 7;
    let mut file: u128 = 0;
    let mut i: usize = 0;
    proof {
        assert(t@.take(0) =~= Seq::<char>::empty());
        assert(pos@.board =~= blank());
    }
    while i < t.len()
        invariant
            i <= t.len(),
            file <= 8 * i,
            in_step(pos, t@.take(i as int), rank as int, file as int),
        decreases t.len() - i,
    {
        let c: char = t[i];
        let ghost before = pos@.board;
        proof {
            assert(t@.take(i + 1).drop_last() =~= t@.take(i as int));
            if scan(t@.take(i + 1)) is Failed {
                lemma_scan_failed(t@, i + 1);
            }
        }
        if c == '/' {
            if file != 8 {
                return Err(rank_error(rank, file));
            }
            if rank == 0 {
                return Err("too many ranks in FEN".to_owned());
            }
            rank = rank - 1;
            file = 0;
        } else if '1' <= c && c <= '8' {
            file = file + (c as u8 - 48u8) as u128;
        } else {
            match PieceType::from_char(c) {
                None => {
                    return Err(char_error(c));
                },
                Some(pt) => {
                    let color = if 'A' <= c && c <= 'Z' {
                        Color::White
                    } else {
                        Color::Black
                    };
                    if file > 7 {
                        return Err("rank overflow in FEN".to_owned());
                    }
                    let s: usize = sq(rank, file as usize);
                    proof {
                        geom::lemma_square(rank as int, file as int);
                        types::lemma_man_of_code((color, pt));
                    }
                    proof {
                        rules::lemma_drift_zero(pos.key, rules::game_key(pos@));
                    }
                    pos.put_piece(piece_index(color, pt), s);
                    proof {
                        rules::lemma_drift_zero(pos.key, rules::game_key(pos@));
                    }
                    file = file + 1;
                },
            }
        }
        i += 1;
    }
    assert(t@.take(t.len() as int) =~= t@);
    if rank != 0 || file != 8 {
        return Err("FEN board section is not 8x8".to_owned());
    }
    Ok(pos)
}

impl Position {
    pub fn from_fen(fen: &str) -> (r: Result<Position, String>)
        ensures
            r matches Ok(p) ==> {
                &&& p.wf()
                &&& p.keyed()
                &&& read_game(fen@) == Ok::<Game, Seq<char>>(p@)
            },
            r matches Err(e) ==> read_game(fen@) == Err::<Game, Seq<char>>(e@),
    {
        let parts: Vec<Vec<char>> = split_words(fen);
        let ghost w = text::words(fen@);
        assert(parts@.len() == w.len());
        assert(forall|i: int| 0 <= i < w.len() ==> #[trigger] w[i] == parts@[i]@);
        if parts.len() == 0 {
            return Err("empty FEN".to_owned());
        }
        let mut pos = match read_board(&parts[0]) {
            Ok(p) => p,
            Err(e) => {
                return Err(e);
            },
        };
        let ghost board = pos@.board;
        if parts.len() >= 2 {
            if text::same_text(&parts[1], "w") {
                pos.side = Color::White;
            } else if text::same_text(&parts[1], "b") {
                pos.side = Color::Black;
            } else {
                return Err(side_error(&parts[1]));
            }
        }
        // Castling and en passant are always '-', ignored.
        if parts.len() >= 5 {
            if let Some(n) = parse_u16(&parts[4]) {
                pos.ply = n;
            }
        }
        proof {
            pos.lemma_shows(board);
        }
        pos.recompute_key();
        proof {
            pos.lemma_complaint();
        }
        match pos.validate() {
            Ok(_) => Ok(pos),
            Err(e) => Err(e),
        }
    }
}

// ---------------------------------------------------------------------------
// Writing
// ---------------------------------------------------------------------------

/// Number of empty squares in a row that end just before file `f` of rank `r`.
pub open spec fn gap(board: Seq<Option<Man>>, r: int, f: int) -> int
    decreases f,
{
    if f <= 0 || board[geom::square(r, f - 1)] is Some {
        0
    } else {
        gap(board, r, f - 1) + 1
    }
}

/// How a row of `n` empty squares is written.
pub open spec fn gap_text(n: int) -> Seq<char> {
    if n > 0 {
        text::decimal(n as nat)
    } else {
        Seq::empty()
    }
}

/// The files below `f` of rank `r`, up to the last piece.
pub open spec fn files_text(board: Seq<Option<Man>>, r: int, f: int) -> Seq<char>
    decreases f,
{
    if f <= 0 {
        Seq::empty()
    } else {
        match board[geom::square(r, f - 1)] {
            None => files_text(board, r, f - 1),
            Some(m) => (files_text(board, r, f - 1) + gap_text(gap(board, r, f - 1))).push(
                types::man_char(m),
            ),
        }
    }
}

/// Rank `r`.
pub open spec fn rank_text(board: Seq<Option<Man>>, r: int) -> Seq<char> {
    files_text(board, r, 8) + gap_text(gap(board, r, 8))
}

/// The top `k` ranks, each but the lowest followed by a slash.
pub open spec fn ranks_text(board: Seq<Option<Man>>, k: int) -> Seq<char>
    decreases k,
{
    if k <= 0 {
        Seq::empty()
    } else {
        ranks_text(board, k - 1) + rank_text(board, 8 - k) + if k < 8 {
            seq!['/']
        } else {
            Seq::empty()
        }
    }
}

pub open spec fn side_char(c: Color) -> char {
    match c {
        Color::White => 'w',
        Color::Black => 'b',
    }
}

/// A game as text.
pub open spec fn game_text(g: Game) -> Seq<char> {
    ranks_text(g.board, 8) + seq![' ', side_char(g.side), ' ', '-', ' ', '-', ' '] + text::decimal(
        g.ply as nat,
    ) + seq![' '] + text::decimal((g.ply / 2 + 1) as nat)
}

/// A board as a picture.
pub open spec fn picture_char(x: Option<Man>) -> char {
    match x {
        None => '.',
        Some(m) => types::man_char(m),
    }
}

/// The files below `f` of rank `r`, each followed by a space.
pub open spec fn picture_files(board: Seq<Option<Man>>, r: int, f: int) -> Seq<char>
    decreases f,
{
    if f <= 0 {
        Seq::empty()
    } else {
        picture_files(board, r, f - 1) + seq![picture_char(board[geom::square(r, f - 1)]), ' ']
    }
}

/// The top `k` lines of the picture.
pub open spec fn picture_ranks(board: Seq<Option<Man>>, k: int) -> Seq<char>
    decreases k,
{
    if k <= 0 {
        Seq::empty()
    } else {
        picture_ranks(board, k - 1) + (seq![text::digit(9 - k)] + " | "@ + picture_files(
            board,
            8 - k,
            8,
        ) + "|\n"@)
    }
}

/// The whole picture, framed.
pub open spec fn picture(board: Seq<Option<Man>>) -> Seq<char> {
    "  +-----------------+\n"@ + picture_ranks(board, 8) + "  +-----------------+\n"@
        + "    a b c d e f g h\n"@
}

/// The initial arrangement of the pieces on a side's own rank.
pub open spec fn home_kind(f: int) -> PieceType {
    if f == 0 || f == 7 {
        PieceType::Rook
    } else if f == 1 || f == 6 {
        PieceType::Knight
    } else if f == 2 || f == 5 {
        PieceType::Bishop
    } else if f == 3 {
        PieceType::Queen
    } else {
        PieceType::King
    }
}

/// The board at the start of a game.
pub open spec fn start_board() -> Seq<Option<Man>> {
    Seq::new(
        64,
        |s: int|
            if s / 8 == 0 {
                Some((Color::White, home_kind(s % 8)))
            } else if s / 8 == 1 {
                Some((Color::White, PieceType::Pawn))
            } else if s / 8 == 6 {
                Some((Color::Black, PieceType::Pawn))
            } else if s / 8 == 7 {
                Some((Color::Black, home_kind(s % 8)))
            } else {
                None
            },
    )
}

/// The start of a game.
pub open spec fn start_game() -> Game {
    Game { board: start_board(), side: Color::White, ply: 0 }
}

fn push_gap(out: &mut String, n: usize)
    ensures
        final(out)@ == old(out)@ + gap_text(n as int),
{
    if n > 0 {
        push_decimal(out, n as u128);
    }
    assert(out@ =~= old(out)@ + gap_text(n as int));
}

fn home_piece(f: usize) -> (pt: PieceType)
    ensures
        pt == home_kind(f as int),
{
    if f == 0 || f == 7 {
        PieceType::Rook
    } else if f == 1 || f == 6 {
        PieceType::Knight
    } else if f == 2 || f == 5 {
        PieceType::Bishop
    } else if f == 3 {
        PieceType::Queen
    } else {
        PieceType::King
    }
}

impl Position {
    pub fn startpos() -> (r: Position)
        ensures
            r.wf(),
            r.keyed(),
            r@ == start_game(),
    {
        let mut pos = Position::empty();
        let mut f: usize = 0;
        while f < 8
            invariant
                f <= 8,
                pos.wf(),
                pos.drift() == 0,
                pos@.side == Color::White,
                pos@.ply == 0,
                pos@.board.len() == 64,
                forall|s: int|
                    0 <= s < 64 ==> #[trigger] pos@.board[s] == if s % 8 < f {
                        start_board()[s]
                    } else {
                        None
                    },
            decreases 8 - f,
        {
            proof {
                types::lemma_man_of_code((Color::White, PieceType::Pawn));
                types::lemma_man_of_code((Color::Black, PieceType::Pawn));
                types::lemma_man_of_code((Color::White, home_kind(f as int)));
                types::lemma_man_of_code((Color::Black, home_kind(f as int)));
            }
            pos.put_piece(piece_index(Color::White, home_piece(f)), sq(0, f));
            pos.put_piece(piece_index(Color::White, PieceType::Pawn), sq(1, f));
            pos.put_piece(piece_index(Color::Black, PieceType::Pawn), sq(6, f));
            pos.put_piece(piece_index(Color::Black, home_piece(f)), sq(7, f));
            f += 1;
        }
        proof {
            assert(pos@.board =~= start_board());
            rules::lemma_drift_zero(pos.key, rules::game_key(pos@));
        }
        pos
    }

    pub fn to_fen(&self) -> (r: String)
        requires
            self.wf(),
        ensures
            r@ == game_text(self@),
    {
        let mut out: String = String::new();
        let ghost board = self@.board;
        let mut k: usize = 0;
        while k < 8
            invariant
                k <= 8,
                self.wf(),
                board == self@.board,
                out@ == ranks_text(board, k as int),
            decreases 8 - k,
        {
            let rank: usize = 7 - k;
            let ghost above = out@;
            let mut run: usize = 0;
            let mut file: usize = 0;
            while file < 8
                invariant
                    file <= 8,
                    rank < 8,
                    self.wf(),
                    board == self@.board,
                    run <= file,
                    run == gap(board, rank as int, file as int),
                    out@ == above + files_text(board, rank as int, file as int),
                decreases 8 - file,
            {
                match self.piece_at(sq(rank, file)) {
                    None => {
                        run += 1;
                    },
                    Some(p) => {
                        push_gap(&mut out, run);
                        run = 0;
                        out.push(piece_char(p));
                        assert(out@ =~= above + files_text(board, rank as int, file + 1));
                    },
                }
                file += 1;
            }
            push_gap(&mut out, run);
            assert(out@ =~= above + rank_text(board, rank as int));
            if rank > 0 {
                out.push('/');
            }
            k += 1;
            assert(out@ =~= ranks_text(board, k as int));
        }
        out.push(' ');
        out.push(
            if self.side == Color::White {
                'w'
            } else {
                'b'
            },
        );
        out.push(' ');
        out.push('-');
        out.push(' ');
        out.push('-');
        out.push(' ');
        push_decimal(&mut out, self.ply as u128);
        out.push(' ');
        push_decimal(&mut out, (self.ply / 2) as u128 + 1);
        assert(out@ =~= game_text(self@));
        out
    }

    /// The board as a picture.
    pub fn board_string(&self) -> (r: String)
        requires
            self.wf(),
        ensures
            r@ == picture(self@.board),
    {
        let mut out: String = String::new();
        let ghost board = self@.board;
        out.append("  +-----------------+\n");
        let ghost top = out@;
        assert(top =~= "  +-----------------+\n"@);
        let mut k: usize = 0;
        proof {
            assert(out@ =~= top + picture_ranks(board, 0));
        }
        while k < 8
            invariant
                k <= 8,
                self.wf(),
                board == self@.board,
                out@ == top + picture_ranks(board, k as int),
            decreases 8 - k,
        {
            let rank: usize = 7 - k;
            out.push(digit_char(rank as u8 + 1u8));
            out.append(" | ");
            let ghost above = out@;
            let mut file: usize = 0;
            proof {
                assert(out@ =~= above + picture_files(board, rank as int, 0));
            }
            while file < 8
                invariant
                    file <= 8,
                    rank < 8,
                    self.wf(),
                    board == self@.board,
                    out@ == above + picture_files(board, rank as int, file as int),
                decreases 8 - file,
            {
                let c: char = match self.piece_at(sq(rank, file)) {
                    None => '.',
                    Some(p) => piece_char(p),
                };
                out.push(c);
                out.push(' ');
                file += 1;
                assert(out@ =~= above + picture_files(board, rank as int, file as int));
            }
            out.append("|\n");
            k += 1;
            assert(out@ =~= top + picture_ranks(board, k as int));
        }
        out.append("  +-----------------+\n");
        out.append("    a b c d e f g h\n");
        assert(out@ =~= picture(board));
        out
    }
}

// ---------------------------------------------------------------------------
// What is written reads back
// ---------------------------------------------------------------------------

/// The board down to file `f` of rank `r`, `f` excluded.
spec fn upper_part(board: Seq<Option<Man>>, r: int, f: int) -> Seq<Option<Man>> {
    Seq::new(
        64,
        |s: int|
            if geom::rank(s) > r || geom::rank(s) == r && geom::file(s) < f {
                board[s]
            } else {
                None
            },
    )
}

proof fn lemma_scan_push(t: Seq<char>, c: char)
    ensures
        scan(t.push(c)) == scan_char(scan(t), c),
{
    assert(t.push(c).drop_last() =~= t);
}

proof fn lemma_man_char(m: Man)
    ensures
        types::man_of_char(types::man_char(m)) == Some(m),
        types::man_char(m) != '/',
        !('1' <= types::man_char(m) <= '8'),
        !text::white(types::man_char(m)),
{
}

proof fn lemma_gap(board: Seq<Option<Man>>, r: int, f: int)
    requires
        0 <= f,
    ensures
        0 <= gap(board, r, f) <= f,
    decreases f,
{
    if f > 0 {
        lemma_gap(board, r, f - 1);
    }
}

proof fn lemma_scan_gap(t: Seq<char>, n: int, rank: int, file: int, board: Seq<Option<Man>>)
    requires
        0 <= n <= 8,
        scan(t) == (Scan::Next { rank, file, board }),
    ensures
        scan(t + gap_text(n)) == (Scan::Next { rank, file: file + n, board }),
        text::solid(gap_text(n)),
{
    if n > 0 {
        let c = text::digit(n);
        assert(gap_text(n) =~= seq![c]);
        assert(t + gap_text(n) =~= t.push(c));
        lemma_scan_push(t, c);
    } else {
        assert(t + gap_text(n) =~= t);
    }
}

proof fn lemma_scan_files(t: Seq<char>, board: Seq<Option<Man>>, r: int, f: int)
    requires
        board.len() == 64,
        0 <= r < 8,
        0 <= f <= 8,
        scan(t) == (Scan::Next { rank: r, file: 0, board: upper_part(board, r, 0) }),
    ensures
        scan(t + files_text(board, r, f)) == (Scan::Next {
            rank: r,
            file: f - gap(board, r, f),
            board: upper_part(board, r, f),
        }),
        text::solid(files_text(board, r, f)),
    decreases f,
{
    if f == 0 {
        assert(t + files_text(board, r, f) =~= t);
    } else {
        lemma_scan_files(t, board, r, f - 1);
        lemma_gap(board, r, f - 1);
        geom::lemma_square(r, f - 1);
        let at = geom::square(r, f - 1);
        let before = t + files_text(board, r, f - 1);
        match board[at] {
            None => {
                assert(upper_part(board, r, f) =~= upper_part(board, r, f - 1));
            },
            Some(m) => {
                let n = gap(board, r, f - 1);
                lemma_scan_gap(before, n, r, f - 1 - n, upper_part(board, r, f - 1));
                lemma_man_char(m);
                lemma_scan_push(before + gap_text(n), types::man_char(m));
                assert(t + files_text(board, r, f) =~= (before + gap_text(n)).push(
                    types::man_char(m),
                ));
                assert(upper_part(board, r, f) =~= upper_part(board, r, f - 1).update(
                    at,
                    Some(m),
                ));
            },
        }
    }
}

proof fn lemma_scan_ranks(board: Seq<Option<Man>>, k: int)
    requires
        board.len() == 64,
        0 <= k <= 8,
    ensures
        scan(ranks_text(board, k)) == if k < 8 {
            Scan::Next { rank: 7 - k, file: 0, board: upper_part(board, 7 - k, 0) }
        } else {
            Scan::Next { rank: 0, file: 8, board }
        },
        text::solid(ranks_text(board, k)),
        k > 0 ==> ranks_text(board, k).len() > 0,
    decreases k,
{
    if k == 0 {
        assert(upper_part(board, 7, 0) =~= blank());
    } else {
        lemma_scan_ranks(board, k - 1);
        let r = 8 - k;
        let t = ranks_text(board, k - 1);
        lemma_scan_files(t, board, r, 8);
        lemma_gap(board, r, 8);
        let n = gap(board, r, 8);
        lemma_scan_gap(t + files_text(board, r, 8), n, r, 8 - n, upper_part(board, r, 8));
        let u = t + rank_text(board, r);
        assert(u =~= t + files_text(board, r, 8) + gap_text(n));
        lemma_rank_nonempty(board, r);
        if k < 8 {
            lemma_scan_push(u, '/');
            assert(ranks_text(board, k) =~= u.push('/'));
            assert(upper_part(board, r, 8) =~= upper_part(board, r - 1, 0));
        } else {
            assert(ranks_text(board, k) =~= u);
            assert(upper_part(board, 0, 8) =~= board);
        }
    }
}

proof fn lemma_rank_nonempty(board: Seq<Option<Man>>, r: int)
    ensures
        rank_text(board, r).len() > 0,
{
    if board[geom::square(r, 7)] is None {
        lemma_gap(board, r, 7);
        text::lemma_decimal_reads(gap(board, r, 8) as nat);
    }
}

/// A game written down and read again is the same game.
#[verifier::spinoff_prover]
pub proof fn law_fen_round_trip(g: Game)
    requires
        g.board.len() == 64,
        0 <= g.ply <= u16::MAX,
        Position::single_kings(g),
    ensures
        read_game(game_text(g)) == Ok::<Game, Seq<char>>(g),
{
    let b = ranks_text(g.board, 8);
    let d = text::decimal(g.ply as nat);
    let e = text::decimal((g.ply / 2 + 1) as nat);
    let c = seq![side_char(g.side)];
    let h = seq!['-'];
    lemma_scan_ranks(g.board, 8);
    text::lemma_decimal_reads(g.ply as nat);
    text::lemma_decimal_reads((g.ply / 2 + 1) as nat);
    let t0 = Seq::<char>::empty();
    text::lemma_words_append(t0, b);
    assert(t0 + b =~= b);
    let t1 = b.push(' ');
    text::lemma_words_space(b);
    text::lemma_words_append(t1, c);
    let t2 = (t1 + c).push(' ');
    text::lemma_words_space(t1 + c);
    text::lemma_words_append(t2, h);
    let t3 = (t2 + h).push(' ');
    text::lemma_words_space(t2 + h);
    text::lemma_words_append(t3, h);
    let t4 = (t3 + h).push(' ');
    text::lemma_words_space(t3 + h);
    text::lemma_words_append(t4, d);
    let t5 = (t4 + d).push(' ');
    text::lemma_words_space(t4 + d);
    text::lemma_words_append(t5, e);
    assert(game_text(g) =~= t5 + e);
    let w = text::words(game_text(g));
    assert(w =~= seq![b, c, h, h, d, e]);
    reveal_strlit("w");
    reveal_strlit("b");
    assert("w"@ =~= seq!['w']);
    assert("b"@ =~= seq!['b']);
    assert(c[0] == side_char(g.side));
    assert("w"@[0] == 'w');
    assert("b"@[0] == 'b');
    assert(text::unsigned_part(d) == d);
    assert(read_game(game_text(g))->Ok_0 =~= g);
}

} // verus!
