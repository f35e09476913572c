//! Core scalar types: squares, colours, pieces, moves.
//!
//! Square indexing is `sq = rank * 8 + file`, with rank 0 = rank "1" and file 0 = file "a".
//! So a1 = 0, h1 = 7, a8 = 56, h8 = 63.

use vstd::prelude::*;
use vstd::string::*;
use crate::bits;
use crate::bits::Bitboard;
use crate::text;
use crate::text::{chars_of, digit_char, to_lower, to_upper};

verus! {

pub const NUM_SQUARES: usize = 64;

// ---------------------------------------------------------------------------
// Colour
// ---------------------------------------------------------------------------

#[derive(Clone, Copy, PartialEq, Eq, Debug, Hash, Structural)]
pub enum Color {
    White,
    Black,
}

impl Color {
    /// The other colour.
    pub open spec fn other(self) -> Color {
        match self {
            Color::White => Color::Black,
            Color::Black => Color::White,
        }
    }

    /// 0 for white, 1 for black.
    pub open spec fn code(self) -> int {
        match self {
            Color::White => 0,
            Color::Black => 1,
        }
    }

    pub fn flip(self) -> (r: Color)
        ensures
            r == self.other(),
    {
        match self {
            Color::White => Color::Black,
            Color::Black => Color::White,
        }
    }

    pub fn index(self) -> (r: usize)
        ensures
            r == self.code(),
    {
        match self {
            Color::White => 0,
            Color::Black => 1,
        }
    }

    pub fn from_index(i: usize) -> (r: Color)
        ensures
            r == (if i == 0 {
                Color::White
            } else {
                Color::Black
            }),
    {
        if i == 0 {
            Color::White
        } else {
            Color::Black
        }
    }

    pub fn name(self) -> (r: &'static str)
        ensures
            r@ == color_name(self),
    {
        match self {
            Color::White => "white",
            Color::Black => "black",
        }
    }
}

pub open spec fn color_name(c: Color) -> Seq<char> {
    match c {
        Color::White => "white"@,
        Color::Black => "black"@,
    }
}

// ---------------------------------------------------------------------------
// Piece type
// ---------------------------------------------------------------------------

#[derive(Clone, Copy, PartialEq, Eq, Debug, Hash, Structural)]
pub enum PieceType {
    Pawn,
    Knight,
    Bishop,
    Rook,
    Queen,
    King,
}

pub const NUM_PIECE_TYPES: usize = 6;

pub const ALL_PIECE_TYPES: [PieceType; 6] = [
    PieceType::Pawn,
    PieceType::Knight,
    PieceType::Bishop,
    PieceType::Rook,
    PieceType::Queen,
    PieceType::King,
];

/// The piece type with code `i`.
pub open spec fn kind_of(i: int) -> PieceType {
    if i == 0 {
        PieceType::Pawn
    } else if i == 1 {
        PieceType::Knight
    } else if i == 2 {
        PieceType::Bishop
    } else if i == 3 {
        PieceType::Rook
    } else if i == 4 {
        PieceType::Queen
    } else {
        PieceType::King
    }
}

/// The letter of a piece type, lower case.
pub open spec fn kind_char(pt: PieceType) -> char {
    match pt {
        PieceType::Pawn => 'p',
        PieceType::Knight => 'n',
        PieceType::Bishop => 'b',
        PieceType::Rook => 'r',
        PieceType::Queen => 'q',
        PieceType::King => 'k',
    }
}

/// The piece type that a letter of either case stands for.
pub open spec fn kind_of_char(c: char) -> Option<PieceType> {
    let l = text::ascii_lower(c);
    if l == 'p' {
        Some(PieceType::Pawn)
    } else if l == 'n' {
        Some(PieceType::Knight)
    } else if l == 'b' {
        Some(PieceType::Bishop)
    } else if l == 'r' {
        Some(PieceType::Rook)
    } else if l == 'q' {
        Some(PieceType::Queen)
    } else if l == 'k' {
        Some(PieceType::King)
    } else {
        None
    }
}

impl PieceType {
    /// 0 for a pawn up to 5 for a king.
    pub open spec fn code(self) -> int {
        match self {
            PieceType::Pawn => 0,
            PieceType::Knight => 1,
            PieceType::Bishop => 2,
            PieceType::Rook => 3,
            PieceType::Queen => 4,
            PieceType::King => 5,
        }
    }

    pub fn index(self) -> (r: usize)
        ensures
            r == self.code(),
            r < 6,
    {
        match self {
            PieceType::Pawn => 0,
            PieceType::Knight => 1,
            PieceType::Bishop => 2,
            PieceType::Rook => 3,
            PieceType::Queen => 4,
            PieceType::King => 5,
        }
    }

    pub fn from_index(i: usize) -> (r: PieceType)
        requires
            i < 6,
        ensures
            r == kind_of(i as int),
            r.code() == i,
    {
        match i {
            0 => PieceType::Pawn,
            1 => PieceType::Knight,
            2 => PieceType::Bishop,
            3 => PieceType::Rook,
            4 => PieceType::Queen,
            _ => PieceType::King,
        }
    }

    /// The piece type that a letter of either case stands for.
    pub fn from_char(c: char) -> (r: Option<PieceType>)
        ensures
            r == kind_of_char(c),
    {
        match to_lower(c) {
            'p' => Some(PieceType::Pawn),
            'n' => Some(PieceType::Knight),
            'b' => Some(PieceType::Bishop),
            'r' => Some(PieceType::Rook),
            'q' => Some(PieceType::Queen),
            'k' => Some(PieceType::King),
            _ => None,
        }
    }

    pub fn to_char(self) -> (r: char)
        ensures
            r == kind_char(self),
    {
        match self {
            PieceType::Pawn => 'p',
            PieceType::Knight => 'n',
            PieceType::Bishop => 'b',
            PieceType::Rook => 'r',
            PieceType::Queen => 'q',
            PieceType::King => 'k',
        }
    }
}

/// Combined piece index: `color * 6 + piece_type`, range 0..12.
pub const NUM_PIECES: usize = 12;

/// A piece as the rules see it.
pub type Man = (Color, PieceType);

/// The index of a piece.
pub open spec fn man_code(m: Man) -> int {
    6 * m.0.code() + m.1.code()
}

/// The piece with index `p`.
pub open spec fn man_of(p: int) -> Man {
    (
        if p / 6 == 0 {
            Color::White
        } else {
            Color::Black
        },
        kind_of(p % 6),
    )
}

pub broadcast proof fn lemma_man_of_code(m: Man)
    ensures
        #![trigger man_code(m)]
        0 <= man_code(m) < 12,
        man_of(man_code(m)) == m,
{
}

pub broadcast proof fn lemma_man_code_of(p: int)
    requires
        0 <= p < 12,
    ensures
        man_code(#[trigger] man_of(p)) == p,
{
}

pub fn piece_index(c: Color, pt: PieceType) -> (r: usize)
    ensures
        r == man_code((c, pt)),
        r < 12,
{
    c.index() * NUM_PIECE_TYPES + pt.index()
}

/// The letter of a piece, upper case for white.
pub open spec fn man_char(m: Man) -> char {
    match m.0 {
        Color::White => text::ascii_upper(kind_char(m.1)),
        Color::Black => kind_char(m.1),
    }
}

/// The piece that a letter stands for.
pub open spec fn man_of_char(c: char) -> Option<Man> {
    match kind_of_char(c) {
        Some(pt) => Some(
            (
                if 'A' <= c <= 'Z' {
                    Color::White
                } else {
                    Color::Black
                },
                pt,
            ),
        ),
        None => None,
    }
}

/// The letter of the piece with index `p`.
pub fn piece_char(p: usize) -> (c: char)
    ensures
        c == man_char(man_of(p as int)),
{
    let c: char = piece_type_of(p).to_char();
    if piece_color(p) == Color::White {
        to_upper(c)
    } else {
        c
    }
}

pub fn piece_color(pi: usize) -> (r: Color)
    ensures
        r == man_of(pi as int).0,
{
    Color::from_index(pi / NUM_PIECE_TYPES)
}

pub fn piece_type_of(pi: usize) -> (r: PieceType)
    ensures
        r == man_of(pi as int).1,
{
    PieceType::from_index(pi % NUM_PIECE_TYPES)
}

// ---------------------------------------------------------------------------
// Squares
// ---------------------------------------------------------------------------

pub fn sq(rank: usize, file: usize) -> (r: usize)
    requires
        rank * 8 + file <= usize::MAX,
    ensures
        r == rank * 8 + file,
{
    rank * 8 + file
}

pub fn rank_of(s: usize) -> (r: usize)
    ensures
        r == s / 8,
{
    assert(s >> 3 == s / 8) by (bit_vector);
    s >> 3
}

pub fn file_of(s: usize) -> (r: usize)
    ensures
        r == s % 8,
        r < 8,
{
    assert(s & 7 == s % 8) by (bit_vector);
    s & 7
}

/// The board whose only member is `s`.
pub fn bb(s: usize) -> (r: Bitboard)
    requires
        s < 64,
    ensures
        r == 1u64 << s,
        forall|t: int| #[trigger] bits::bit(r, t) <==> t == s,
{
    broadcast use bits::group_bits;

    1u64 << s
}

/// Whether square `s` is in `b`.
pub fn in_board(b: Bitboard, s: usize) -> (r: bool)
    requires
        s < 64,
    ensures
        r == bits::bit(b, s as int),
{
    broadcast use bits::group_bits;

    let x: u64 = b & bb(s);
    proof {
        bits::lemma_empty_board(x);
        assert(bits::bit(x, s as int) == bits::bit(b, s as int));
    }
    x != 0
}

/// The square that a two-character text names, if it names one.
pub open spec fn square_of_text(t: Seq<char>) -> Option<int> {
    if t.len() == 2 && 'a' <= text::ascii_lower(t[0]) <= 'h' && '1' <= t[1] <= '8' {
        Some(8 * (t[1] as int - '1' as int) + (text::ascii_lower(t[0]) as int - 'a' as int))
    } else {
        None
    }
}

/// The name of a square: file letter, then rank digit.
pub open spec fn name_of_square(s: int) -> Seq<char> {
    seq![file_char(s % 8), text::digit(s / 8 + 1)]
}

pub open spec fn file_char(f: int) -> char {
    (('a' as u32 as int) + f) as u32 as char
}

fn square_of_chars(v: &Vec<char>, at: usize) -> (r: Option<usize>)
    requires
        at + 2 <= v.len(),
    ensures
        r is Some <==> square_of_text(v@.subrange(at as int, at + 2)) is Some,
        r matches Some(s) ==> s < 64 && square_of_text(v@.subrange(at as int, at + 2)) == Some(
            s as int,
        ),
{
    let c: char = to_lower(v[at]);
    let d: char = v[at + 1];
    if 'a' <= c && c <= 'h' && '1' <= d && d <= '8' {
        let file: usize = (c as u8 - 97u8) as usize;
        let rank: usize = (d as u8 - 49u8) as usize;
        Some(sq(rank, file))
    } else {
        None
    }
}

/// `e2` -> 12. Returns `None` for anything that is not two chars in range.
pub fn parse_square(s: &str) -> (r: Option<usize>)
    ensures
        r is Some <==> square_of_text(s@) is Some,
        r matches Some(k) ==> k < 64 && square_of_text(s@) == Some(k as int),
{
    let v: Vec<char> = chars_of(s);
    if v.len() != 2 {
        return None;
    }
    assert(v@.subrange(0, 2) =~= v@);
    square_of_chars(&v, 0)
}

fn push_square(out: &mut String, s: usize)
    requires
        s < 64,
    ensures
        final(out)@ == old(out)@ + name_of_square(s as int),
{
    let f: char = (97u8 + file_of(s) as u8) as char;
    let r: char = digit_char(rank_of(s) as u8 + 1u8);
    out.push(f);
    out.push(r);
    assert(out@ =~= old(out)@ + name_of_square(s as int));
}

pub fn square_name(s: usize) -> (r: String)
    requires
        s < 64,
    ensures
        r@ == name_of_square(s as int),
{
    let mut out: String = String::new();
    push_square(&mut out, s);
    assert(out@ =~= name_of_square(s as int));
    out
}

// ---------------------------------------------------------------------------
// Moves
// ---------------------------------------------------------------------------

/// A move is fully described by `(from, to)`. No promotion, castling
/// or en-passant flags exist, so 12 bits is a complete encoding.
#[derive(Clone, Copy, PartialEq, Eq, Hash, Debug, Structural)]
pub struct Move(pub u16);

/// The move from `from` to `to`.
pub open spec fn move_of(from: int, to: int) -> Move {
    Move((from + 64 * to) as u16)
}

/// A move as text: origin, then destination.
pub open spec fn move_text(m: Move) -> Seq<char> {
    name_of_square(m.src()) + name_of_square(m.dst())
}

/// Where a move's text stands among the texts of all moves, in dictionary order.
pub open spec fn text_order(m: Move) -> int {
    512 * (m.src() % 8) + 64 * (m.src() / 8) + 8 * (m.dst() % 8) + m.dst() / 8
}

/// Moves are ordered by their texts as by `text_order`.
pub proof fn lemma_text_order(a: Move, b: Move)
    ensures
        text::less(move_text(a), move_text(b)) <==> text_order(a) < text_order(b),
        move_text(a) == move_text(b) <==> text_order(a) == text_order(b),
{
    let x = move_text(a);
    let y = move_text(b);
    assert(x.len() == 4 && y.len() == 4);
    assert(x[0] == file_char(a.src() % 8) && y[0] == file_char(b.src() % 8));
    assert(x[1] == text::digit(a.src() / 8 + 1) && y[1] == text::digit(b.src() / 8 + 1));
    assert(x[2] == file_char(a.dst() % 8) && y[2] == file_char(b.dst() % 8));
    assert(x[3] == text::digit(a.dst() / 8 + 1) && y[3] == text::digit(b.dst() / 8 + 1));
    if x[0] != y[0] {
        assert(text::first_difference(x, y, 0));
    } else if x[1] != y[1] {
        assert(text::first_difference(x, y, 1));
    } else if x[2] != y[2] {
        assert(text::first_difference(x, y, 2));
    } else if x[3] != y[3] {
        assert(text::first_difference(x, y, 3));
    } else {
        assert(x =~= y);
    }
    if text::less(x, y) {
        let i = choose|i: int| #[trigger] text::first_difference(x, y, i) && x[i] < y[i];
        assert(text::first_difference(x, y, i));
    }
}

/// The name of a square names that square.
pub proof fn law_square_names_read_back(s: int)
    requires
        0 <= s < 64,
    ensures
        square_of_text(name_of_square(s)) == Some(s),
{
}

/// `(from, to)` is a complete encoding: there are 4096 moves, and each is read back from
/// its number and from its text.
pub proof fn law_moves_are_pairs_of_squares(from: int, to: int)
    requires
        0 <= from < 64,
        0 <= to < 64,
    ensures
        move_of(from, to).0 < 4096,
        move_of(from, to).src() == from,
        move_of(from, to).dst() == to,
        square_of_text(move_text(move_of(from, to)).subrange(0, 2)) == Some(from),
        square_of_text(move_text(move_of(from, to)).subrange(2, 4)) == Some(to),
        move_text(move_of(from, to)).len() == 4,
{
    let m = move_of(from, to);
    assert(m.src() == from && m.dst() == to && m.0 < 4096);
    lemma_text_halves(name_of_square(from), name_of_square(to));
    law_square_names_read_back(from);
    law_square_names_read_back(to);
}

proof fn lemma_text_halves(a: Seq<char>, b: Seq<char>)
    requires
        a.len() == 2,
        b.len() == 2,
    ensures
        (a + b).len() == 4,
        (a + b).subrange(0, 2) == a,
        (a + b).subrange(2, 4) == b,
{
    assert((a + b).subrange(0, 2) =~= a);
    assert((a + b).subrange(2, 4) =~= b);
}

impl Default for Move {
    fn default() -> (r: Move)
        ensures
            r == Move(0),
    {
        Move(0)
    }
}

impl Move {
    /// Origin square.
    pub open spec fn src(self) -> int {
        self.0 as int % 64
    }

    /// Destination square.
    pub open spec fn dst(self) -> int {
        self.0 as int / 64 % 64
    }

    pub fn new(from: usize, to: usize) -> (m: Move)
        requires
            from < 64,
            to < 64,
        ensures
            m == move_of(from as int, to as int),
            m.src() == from,
            m.dst() == to,
    {
        let f: u16 = from as u16;
        let t: u16 = to as u16;
        assert(f | (t << 6) == f + 64 * t) by (bit_vector)
            requires
                f < 64,
                t < 64,
        ;
        Move(f | (t << 6))
    }

    pub fn from(self) -> (r: usize)
        ensures
            r == self.src(),
            r < 64,
    {
        let x: u16 = self.0;
        assert(x & 63 == x % 64) by (bit_vector);
        (self.0 & 63) as usize
    }

    pub fn to(self) -> (r: usize)
        ensures
            r == self.dst(),
            r < 64,
    {
        let x: u16 = self.0;
        assert((x >> 6) & 63 == (x / 64) % 64) by (bit_vector);
        ((self.0 >> 6) & 63) as usize
    }

    /// Sentinel for "no move". `a1a1` is never legal (a pawn may not teleport to
    /// its own square, and no other piece can move zero distance).
    pub fn none() -> (r: Move)
        ensures
            r == Move(0),
    {
        Move(0)
    }

    pub fn is_none(self) -> (r: bool)
        ensures
            r == (self == Move(0)),
    {
        self.0 == 0
    }

    /// Index into a 4096-entry move-indexed table.
    pub fn index(self) -> (r: usize)
        ensures
            r == self.src() + 64 * self.dst(),
            r < 4096,
    {
        let x: u16 = self.0;
        assert(x & 0x0fff == x % 64 + 64 * ((x / 64) % 64)) by (bit_vector);
        (self.0 & 0x0fff) as usize
    }

    /// `e2e4` and the like; `None` for anything else.
    pub fn parse(s: &str) -> (r: Option<Move>)
        ensures
            r is Some <==> s@.len() == 4 && square_of_text(s@.subrange(0, 2)) is Some
                && square_of_text(s@.subrange(2, 4)) is Some,
            r matches Some(m) ==> m == move_of(
                square_of_text(s@.subrange(0, 2))->0,
                square_of_text(s@.subrange(2, 4))->0,
            ),
    {
        let v: Vec<char> = chars_of(s);
        if v.len() != 4 {
            return None;
        }
        match (square_of_chars(&v, 0), square_of_chars(&v, 2)) {
            (Some(from), Some(to)) => Some(Move::new(from, to)),
            _ => None,
        }
    }

    /// The move as text, such as `e2e4`.
    pub fn to_text(self) -> (r: String)
        ensures
            r@ == move_text(self),
    {
        let mut out: String = String::new();
        push_square(&mut out, self.from());
        push_square(&mut out, self.to());
        assert(out@ =~= move_text(self));
        out
    }
}

// ---------------------------------------------------------------------------
// Bitboard helpers
// ---------------------------------------------------------------------------

/// Hands out the set bits of a bitboard, lowest first.
pub struct BitIter(pub Bitboard);

impl BitIter {
    /// Takes the lowest square out of the board.
    pub fn next(&mut self) -> (r: Option<usize>)
        ensures
            r is None <==> old(self).0 == 0,
            r is None ==> final(self).0 == 0,
            r matches Some(s) ==> {
                &&& s < 64
                &&& bits::bit(old(self).0, s as int)
                &&& forall|t: int| #[trigger] bits::bit(old(self).0, t) ==> t >= s
                &&& forall|t: int| #[trigger]
                    bits::bit(final(self).0, t) <==> bits::bit(old(self).0, t) && t != s
                &&& final(self).0 < old(self).0
            },
    {
        if self.0 == 0 {
            None
        } else {
            let b: u64 = self.0;
            proof {
                bits::lemma_lowest(b);
            }
            let s: usize = b.trailing_zeros() as usize;
            self.0 = b & (b - 1);
            Some(s)
        }
    }
}

pub fn bits(b: Bitboard) -> (r: BitIter)
    ensures
        r.0 == b,
{
    BitIter(b)
}

/// The board as eight lines, rank 8 first, `X` for a member and `.` for the rest.
pub open spec fn bitboard_text(b: u64) -> Seq<char> {
    Seq::new(
        72,
        |i: int|
            if i % 9 == 8 {
                '\n'
            } else if bits::bit(b, 8 * (7 - i / 9) + i % 9) {
                'X'
            } else {
                '.'
            },
    )
}

pub fn bitboard_string(b: Bitboard) -> (r: String)
    ensures
        r@ == bitboard_text(b),
{
    let mut out: String = String::new();
    let mut row: usize = 0;
    while row < 8
        invariant
            row <= 8,
            out@ == bitboard_text(b).take(9 * row),
        decreases 8 - row,
    {
        let mut f: usize = 0;
        while f < 8
            invariant
                row < 8,
                f <= 8,
                out@ == bitboard_text(b).take(9 * row + f),
            decreases 8 - f,
        {
            let c: char = if in_board(b, sq(7 - row, f)) {
                'X'
            } else {
                '.'
            };
            out.push(c);
            f += 1;
            assert(out@ =~= bitboard_text(b).take(9 * row + f));
        }
        out.push('\n');
        row += 1;
        assert(out@ =~= bitboard_text(b).take(9 * row));
    }
    assert(bitboard_text(b).take(72) =~= bitboard_text(b));
    out
}

/// The `k`-th square in the order of square names: file first, then rank.
pub open spec fn by_name(k: int) -> int {
    8 * (k % 8) + k / 8
}

/// Names of the squares of `b` among the first `k` in name order, parted by spaces.
pub open spec fn square_names(b: u64, k: nat) -> Seq<char>
    decreases k,
{
    if k == 0 {
        Seq::empty()
    } else {
        let before = square_names(b, (k - 1) as nat);
        if !bits::bit(b, by_name(k - 1)) {
            before
        } else if before.len() == 0 {
            name_of_square(by_name(k - 1))
        } else {
            before + seq![' '] + name_of_square(by_name(k - 1))
        }
    }
}

/// Human-readable, file-then-rank sorted list of squares in a mask.
pub fn square_list(b: Bitboard) -> (r: String)
    ensures
        r@ == square_names(b, 64),
{
    let mut out: String = String::new();
    let mut first: bool = true;
    let mut k: usize = 0;
    while k < 64
        invariant
            k <= 64,
            out@ == square_names(b, k as nat),
            first == (out@.len() == 0),
        decreases 64 - k,
    {
        let s: usize = sq(k % 8, k / 8);
        if in_board(b, s) {
            if !first {
                out.push(' ');
            }
            push_square(&mut out, s);
            first = false;
        }
        k += 1;
        assert(out@ =~= square_names(b, k as nat));
    }
    out
}

} // verus!
