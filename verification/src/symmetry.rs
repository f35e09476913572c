//! Dihedral symmetry.
//!
//! No castling and no directional pawn movement means the rules are fully
//! invariant under the dihedral group of the square. Two consequences:
//!
//! 1. Colour canonicalisation is free — swap piece colours and flip the side to
//!    move. No vertical board flip is needed, because no piece has a forward
//!    direction.
//! 2. Every training position can be augmented 8x (4 rotations x 2 mirrors).
//!
//! A bug in here is nearly invisible downstream: it just makes training
//! mysteriously ineffective. So the laws relate the transforms to the moves, to their
//! application and to the evaluation, not just to each other.

use vstd::prelude::*;
use crate::bits;
use crate::bits::Bitboard;
use crate::eval;
use crate::fen;
use crate::geom;
use crate::laws;
use crate::movegen;
use crate::movegen::GenMode;
use crate::position::{GameResult, Position};
use crate::rules;
use crate::rules::Game;
use crate::types;
use crate::types::{Color, Man, Move, PieceType, bb, file_of, rank_of, sq};

verus! {

broadcast use {
    crate::bits::group_bits,
    crate::types::lemma_man_of_code,
    crate::types::lemma_man_code_of,
};

pub const NUM_SYMMETRIES: usize = 8;

pub const SYMMETRY_NAMES: [&'static str; 8] = [
    "identity",
    "rot90",
    "rot180",
    "rot270",
    "mirror_files",
    "mirror_ranks",
    "diagonal",
    "antidiagonal",
];

/// `COMPOSED[i][j]` is symmetry `i` followed by symmetry `j`.
pub const COMPOSED: [[usize; 8]; 8] = [
    [0, 1, 2, 3, 4, 5, 6, 7],
    [1, 2, 3, 0, 6, 7, 5, 4],
    [2, 3, 0, 1, 5, 4, 7, 6],
    [3, 0, 1, 2, 7, 6, 4, 5],
    [4, 7, 5, 6, 0, 2, 3, 1],
    [5, 6, 4, 7, 2, 0, 1, 3],
    [6, 4, 7, 5, 1, 3, 0, 2],
    [7, 5, 6, 4, 3, 1, 2, 0],
];

/// Where rank `r` and file `c` land under symmetry `i`.
pub open spec fn coords(i: int, r: int, c: int) -> (int, int) {
    if i == 0 {
        (r, c)
    } else if i == 1 {
        (c, 7 - r)
    } else if i == 2 {
        (7 - r, 7 - c)
    } else if i == 3 {
        (7 - c, r)
    } else if i == 4 {
        (r, 7 - c)
    } else if i == 5 {
        (7 - r, c)
    } else if i == 6 {
        (c, r)
    } else {
        (7 - c, 7 - r)
    }
}

/// Where square `s` lands under symmetry `i`.
pub open spec fn image(i: int, s: int) -> int {
    let (r, c) = coords(i, geom::rank(s), geom::file(s));
    geom::square(r, c)
}

/// The symmetry that undoes `i`: the quarter turns undo each other, the rest themselves.
pub open spec fn undo(i: int) -> int {
    if i == 1 {
        3
    } else if i == 3 {
        1
    } else {
        i
    }
}

/// The game seen under symmetry `i`.
pub open spec fn turned(i: int, g: Game) -> Game {
    Game {
        board: Seq::new(64, |s: int| g.board[image(undo(i), s)]),
        side: g.side,
        ply: g.ply,
    }
}

/// A piece of the other colour.
pub open spec fn recolored(x: Option<Man>) -> Option<Man> {
    match x {
        Some(m) => Some((m.0.other(), m.1)),
        None => None,
    }
}

/// The game with the colours exchanged.
pub open spec fn swapped(g: Game) -> Game {
    Game {
        board: Seq::new(64, |s: int| recolored(g.board[s])),
        side: g.side.other(),
        ply: g.ply,
    }
}

/// Images are squares, and `undo` undoes.
pub proof fn law_undo(i: int, s: int)
    requires
        0 <= i < 8,
        geom::valid(s),
    ensures
        geom::valid(image(i, s)),
        0 <= undo(i) < 8,
        undo(undo(i)) == i,
        image(undo(i), image(i, s)) == s,
        image(i, image(undo(i), s)) == s,
{
    let (r, c) = coords(i, geom::rank(s), geom::file(s));
    geom::lemma_square(r, c);
    let (r2, c2) = coords(undo(i), geom::rank(s), geom::file(s));
    geom::lemma_square(r2, c2);
}

/// No two squares share an image, and every square is one.
pub proof fn law_symmetries_are_bijections(i: int, a: int, b: int)
    requires
        0 <= i < 8,
        geom::valid(a),
        geom::valid(b),
    ensures
        image(i, a) == image(i, b) ==> a == b,
        exists|s: int| geom::valid(s) && #[trigger] image(i, s) == b,
{
    law_undo(i, a);
    law_undo(i, b);
    assert(image(i, image(undo(i), b)) == b);
    law_undo(undo(i), b);
}

/// One symmetry after another is a symmetry.
pub proof fn law_symmetries_compose(i: int, j: int, s: int)
    requires
        0 <= i < 8,
        0 <= j < 8,
        geom::valid(s),
    ensures
        0 <= COMPOSED@[i]@[j] < 8,
        image(j, image(i, s)) == image(COMPOSED@[i]@[j] as int, s),
{
    let (r, c) = coords(i, geom::rank(s), geom::file(s));
    geom::lemma_square(r, c);
}

/// `(rank, file) -> (rank, file)` for each group element.
fn apply_coords(i: usize, r: usize, c: usize) -> (p: (usize, usize))
    requires
        i < 8,
        r < 8,
        c < 8,
    ensures
        (p.0 as int, p.1 as int) == coords(i as int, r as int, c as int),
        p.0 < 8,
        p.1 < 8,
{
    match i {
        0 => (r, c),
        1 => (c, 7 - r),
        2 => (7 - r, 7 - c),
        3 => (7 - c, r),
        4 => (r, 7 - c),
        5 => (7 - r, c),
        6 => (c, r),
        _ => (7 - c, 7 - r),
    }
}

pub struct SymmetryTables {
    /// `perm[i][s]` is where square `s` lands under symmetry `i`.
    pub perm: [[u8; 64]; 8],
    /// Index of the symmetry that undoes `i`.
    pub inverse: [usize; 8],
}

/// The tables of all eight symmetries.
pub fn build() -> (t: SymmetryTables)
    ensures
        forall|i: int, s: int|
            0 <= i < 8 && geom::valid(s) ==> #[trigger] t.perm@[i]@[s] == image(i, s),
        forall|i: int| 0 <= i < 8 ==> #[trigger] t.inverse@[i] == undo(i),
{
    let mut perm: [[u8; 64]; 8] = [[0;64];8];
    let mut inverse: [usize; 8] = [0;8];
    let mut i: usize = 0;
    while i < 8
        invariant
            i <= 8,
            forall|x: int, y: int|
                0 <= x < i && 0 <= y < 64 ==> #[trigger] perm@[x]@[y] == image(x, y),
            forall|x: int| 0 <= x < i ==> #[trigger] inverse@[x] == undo(x),
        decreases 8 - i,
    {
        let mut s: usize = 0;
        while s < 64
            invariant
                i < 8,
                s <= 64,
                forall|x: int, y: int|
                    0 <= x < i && 0 <= y < 64 || x == i && 0 <= y < s ==> #[trigger] perm@[x]@[y]
                        == image(x, y),
            decreases 64 - s,
        {
            perm[i][s] = transform_square(i, s) as u8;
            s += 1;
        }
        inverse[i] = inverse_of(i);
        i += 1;
    }
    SymmetryTables { perm, inverse }
}

/// The symmetry that undoes `i`.
pub fn inverse_of(i: usize) -> (j: usize)
    requires
        i < 8,
    ensures
        j == undo(i as int),
        j < 8,
{
    if i == 1 {
        3
    } else if i == 3 {
        1
    } else {
        i
    }
}

pub fn transform_square(i: usize, s: usize) -> (t: usize)
    requires
        i < 8,
        s < 64,
    ensures
        t == image(i as int, s as int),
        t < 64,
{
    let (r, c) = apply_coords(i, rank_of(s), file_of(s));
    sq(r, c)
}

/// Moves every member of a board.
pub fn transform_bb(i: usize, b: Bitboard) -> (m: Bitboard)
    requires
        i < 8,
    ensures
        forall|s: int|
            geom::valid(s) ==> (#[trigger] bits::bit(m, image(i as int, s)) <==> bits::bit(b, s)),
        forall|t: int|
            geom::valid(t) ==> (#[trigger] bits::bit(m, t) <==> bits::bit(
                b,
                image(undo(i as int), t),
            )),
{
    let mut out: u64 = 0;
    let mut it = types::bits(b);
    loop
        invariant
            i < 8,
            forall|s: int| #[trigger] bits::bit(it.0, s) ==> bits::bit(b, s),
            forall|t: int|
                geom::valid(t) ==> (#[trigger] bits::bit(out, t) <==> bits::bit(
                    b,
                    image(undo(i as int), t),
                ) && !bits::bit(it.0, image(undo(i as int), t))),
        ensures
            it.0 == 0,
        decreases it.0,
    {
        match it.next() {
            None => break,
            Some(s) => {
                let x: usize = transform_square(i, s);
                let ghost before = out;
                out = out | bb(x);
                proof {
                    assert forall|t: int| geom::valid(t) implies (#[trigger] bits::bit(out, t)
                        <==> bits::bit(b, image(undo(i as int), t)) && !bits::bit(
                        it.0,
                        image(undo(i as int), t),
                    )) by {
                        law_undo(i as int, s as int);
                        law_undo(i as int, t);
                        assert(bits::bit(out, t) <==> bits::bit(before, t) || t == x);
                    }
                }
            },
        }
    }
    proof {
        assert forall|s: int| geom::valid(s) implies (#[trigger] bits::bit(
            out,
            image(i as int, s),
        ) <==> bits::bit(b, s)) by {
            law_undo(i as int, s);
        }
    }
    out
}

pub fn transform_move(i: usize, m: Move) -> (r: Move)
    requires
        i < 8,
    ensures
        r == types::move_of(image(i as int, m.src()), image(i as int, m.dst())),
        r.src() == image(i as int, m.src()),
        r.dst() == image(i as int, m.dst()),
{
    Move::new(transform_square(i, m.from()), transform_square(i, m.to()))
}

/// The position seen under symmetry `i`. The identity hands the position back as it
/// is; the others compute its key anew.
pub fn transform_position(i: usize, pos: &Position) -> (r: Position)
    requires
        i < 8,
        pos.wf(),
    ensures
        r.wf(),
        r@ == turned(i as int, pos@),
        i == 0 ==> r == *pos,
        i != 0 ==> r.keyed(),
{
    if i == 0 {
        proof {
            let b = turned(0, pos@).board;
            assert forall|s: int| 0 <= s < 64 implies #[trigger] b[s] == pos@.board[s] by {
                law_undo(0, s);
                assert(image(0, s) == s);
            }
            assert(b =~= pos@.board);
        }
        return *pos;
    }
    let mut out = Position::empty();
    let mut p: usize = 0;
    while p < 12
        invariant
            i < 8,
            p <= 12,
            forall|q: int, t: int|
                0 <= q < p && geom::valid(t) ==> (#[trigger] bits::bit(out.pieces@[q], t)
                    <==> bits::bit(pos.pieces@[q], image(undo(i as int), t))),
        decreases 12 - p,
    {
        out.pieces[p] = transform_bb(i, pos.pieces[p]);
        p += 1;
    }
    out.occ_color[0] = transform_bb(i, pos.occ_color[0]);
    out.occ_color[1] = transform_bb(i, pos.occ_color[1]);
    out.occ = transform_bb(i, pos.occ);
    out.side = pos.side;
    out.ply = pos.ply;
    proof {
        let b = turned(i as int, pos@).board;
        assert(out.shows(b)) by {
            assert forall|q: int, t: int| 0 <= q < 12 && geom::valid(t) implies (
            #[trigger] bits::bit(out.pieces@[q], t) <==> b[t] == Some(types::man_of(q))) by {
                law_undo(undo(i as int), t);
                assert(bits::bit(pos.pieces@[q], image(undo(i as int), t)) <==> pos.board()[image(
                    undo(i as int),
                    t,
                )] == Some(types::man_of(q)));
            }
            assert forall|t: int| geom::valid(t) implies (#[trigger] bits::bit(out.occ, t)
                <==> b[t] is Some) by {
                law_undo(undo(i as int), t);
            }
            assert forall|c: int, t: int| 0 <= c < 2 && geom::valid(t) implies (
            #[trigger] bits::bit(out.occ_color@[c], t) <==> (b[t] matches Some(m) && m.0.code()
                == c)) by {
                law_undo(undo(i as int), t);
                let x = image(undo(i as int), t);
                assert(bits::bit(out.occ_color@[c], t) <==> bits::bit(pos.occ_color@[c], x));
            }
        }
        out.lemma_shows(b);
    }
    out.recompute_key();
    out
}

/// Swaps piece colours and the side to move. Because no piece has a forward
/// direction, this alone canonicalises the position — no board flip required.
pub fn swap_colors(pos: &Position) -> (r: Position)
    requires
        pos.wf(),
    ensures
        r.wf(),
        r.keyed(),
        r@ == swapped(pos@),
{
    let mut out = Position::empty();
    let mut p: usize = 0;
    while p < 6
        invariant
            p <= 6,
            forall|q: int| 0 <= q < p ==> #[trigger] out.pieces@[q] == pos.pieces@[q + 6],
            forall|q: int| 6 <= q < p + 6 ==> #[trigger] out.pieces@[q] == pos.pieces@[q - 6],
        decreases 6 - p,
    {
        out.pieces[p] = pos.pieces[p + 6];
        out.pieces[p + 6] = pos.pieces[p];
        p += 1;
    }
    out.occ_color[0] = pos.occ_color[1];
    out.occ_color[1] = pos.occ_color[0];
    out.occ = pos.occ;
    out.side = pos.side.flip();
    out.ply = pos.ply;
    proof {
        let b = swapped(pos@).board;
        assert(out.shows(b)) by {
            assert forall|q: int, t: int| 0 <= q < 12 && geom::valid(t) implies (
            #[trigger] bits::bit(out.pieces@[q], t) <==> b[t] == Some(types::man_of(q))) by {
                let o = if q < 6 {
                    q + 6
                } else {
                    q - 6
                };
                assert(bits::bit(pos.pieces@[o], t) <==> pos.board()[t] == Some(types::man_of(o)));
                assert(types::man_of(o) == (types::man_of(q).0.other(), types::man_of(q).1));
            }
            assert forall|t: int| geom::valid(t) implies (#[trigger] bits::bit(out.occ, t)
                <==> b[t] is Some) by {
                assert(bits::bit(pos.occ, t) <==> pos.board()[t] is Some);
            }
            assert forall|c: int, t: int| 0 <= c < 2 && geom::valid(t) implies (
            #[trigger] bits::bit(out.occ_color@[c], t) <==> (b[t] matches Some(m) && m.0.code()
                == c)) by {
                assert(bits::bit(pos.occ_color@[1 - c], t) <==> (pos.board()[t] matches Some(m)
                    && m.0.code() == 1 - c));
            }
        }
        out.lemma_shows(b);
    }
    out.recompute_key();
    out
}

// ---------------------------------------------------------------------------
// The geometry does not change
// ---------------------------------------------------------------------------

/// The steps `(r, f)` seen under symmetry `i`.
spec fn steps(i: int, r: int, f: int) -> (int, int) {
    if i == 0 {
        (r, f)
    } else if i == 1 {
        (f, -r)
    } else if i == 2 {
        (-r, -f)
    } else if i == 3 {
        (-f, r)
    } else if i == 4 {
        (r, -f)
    } else if i == 5 {
        (-r, f)
    } else if i == 6 {
        (f, r)
    } else {
        (-f, -r)
    }
}

proof fn lemma_steps(i: int, a: int, b: int)
    requires
        0 <= i < 8,
        geom::valid(a),
        geom::valid(b),
    ensures
        (geom::dr(image(i, a), image(i, b)), geom::df(image(i, a), image(i, b))) == steps(
            i,
            geom::dr(a, b),
            geom::df(a, b),
        ),
        image(i, a) == image(i, b) <==> a == b,
{
    let (ra, ca) = coords(i, geom::rank(a), geom::file(a));
    let (rb, cb) = coords(i, geom::rank(b), geom::file(b));
    geom::lemma_square(ra, ca);
    geom::lemma_square(rb, cb);
    law_symmetries_are_bijections(i, a, b);
}

proof fn lemma_geometry(i: int, a: int, b: int)
    requires
        0 <= i < 8,
        geom::valid(a),
        geom::valid(b),
    ensures
        geom::aligned(image(i, a), image(i, b)) == geom::aligned(a, b),
        geom::dist(image(i, a), image(i, b)) == geom::dist(a, b),
        geom::blast(image(i, a), image(i, b)) == geom::blast(a, b),
        geom::adjacent(image(i, a), image(i, b)) == geom::adjacent(a, b),
        geom::leap(image(i, a), image(i, b)) == geom::leap(a, b),
        geom::straight(geom::dir(image(i, a), image(i, b))) == geom::straight(geom::dir(a, b)),
        geom::diagonal(geom::dir(image(i, a), image(i, b))) == geom::diagonal(geom::dir(a, b)),
{
    lemma_steps(i, a, b);
}

/// Two squares lie in the same direction when the signs of the steps agree.
proof fn lemma_same_direction(a: int, b: int, x: int)
    requires
        geom::valid(a),
        geom::valid(b),
        geom::valid(x),
        geom::aligned(a, b),
    ensures
        geom::dir(a, x) == geom::dir(a, b) <==> geom::aligned(a, x) && geom::sign(geom::dr(a, x))
            == geom::sign(geom::dr(a, b)) && geom::sign(geom::df(a, x)) == geom::sign(
            geom::df(a, b),
        ),
{
}

/// The pair `(c, d)` lies as the pair `(a, b)` does, seen under symmetry `i`.
spec fn alike(i: int, a: int, b: int, c: int, d: int) -> bool {
    (geom::dr(c, d), geom::df(c, d)) == steps(i, geom::dr(a, b), geom::df(a, b))
}

proof fn lemma_between_alike(i: int, a: int, b: int, x: int, c: int, d: int, y: int)
    requires
        0 <= i < 8,
        geom::valid(a),
        geom::valid(b),
        geom::valid(x),
        geom::valid(c),
        geom::valid(d),
        geom::valid(y),
        alike(i, a, b, c, d),
        alike(i, a, x, c, y),
        geom::aligned(a, b) == geom::aligned(c, d),
        geom::aligned(a, x) == geom::aligned(c, y),
        geom::dist(a, b) == geom::dist(c, d),
        geom::dist(a, x) == geom::dist(c, y),
    ensures
        geom::between(a, b, x) == geom::between(c, d, y),
{
    if geom::aligned(a, b) {
        lemma_same_direction(a, b, x);
        lemma_same_direction(c, d, y);
        lemma_signs(i, geom::dr(a, b), geom::df(a, b), geom::dr(a, x), geom::df(a, x));
    }
}

proof fn lemma_signs(i: int, r: int, f: int, u: int, v: int)
    requires
        0 <= i < 8,
    ensures
        (geom::sign(steps(i, r, f).0) == geom::sign(steps(i, u, v).0) && geom::sign(
            steps(i, r, f).1,
        ) == geom::sign(steps(i, u, v).1)) == (geom::sign(r) == geom::sign(u) && geom::sign(f)
            == geom::sign(v)),
{
}

proof fn lemma_between_image(i: int, a: int, b: int, x: int)
    requires
        0 <= i < 8,
        geom::valid(a),
        geom::valid(b),
        geom::valid(x),
    ensures
        geom::between(image(i, a), image(i, b), image(i, x)) == geom::between(a, b, x),
{
    lemma_steps(i, a, b);
    lemma_steps(i, a, x);
    lemma_geometry(i, a, b);
    lemma_geometry(i, a, x);
    law_undo(i, a);
    law_undo(i, b);
    law_undo(i, x);
    lemma_between_alike(i, a, b, x, image(i, a), image(i, b), image(i, x));
}

proof fn lemma_path_alike(i: int, a: int, b: int, x: int, c: int, d: int, y: int)
    requires
        0 <= i < 8,
        alike(i, a, b, c, d),
        alike(i, a, x, c, y),
        geom::leap(a, b) == geom::leap(c, d),
        x == b <==> y == d,
    ensures
        geom::knight_path(a, b, x) == geom::knight_path(c, d, y),
{
    let (r, f) = (geom::dr(a, b), geom::df(a, b));
    let (u, v) = (geom::dr(a, x), geom::df(a, x));
    let (r2, f2) = (geom::dr(c, d), geom::df(c, d));
    let (u2, v2) = (geom::dr(c, y), geom::df(c, y));
    lemma_path_steps(i, r, f, u, v);
    assert((r2, f2) == steps(i, r, f));
    assert((u2, v2) == steps(i, u, v));
}

spec fn path_steps(r: int, f: int, u: int, v: int) -> bool {
    ||| geom::abs(r) == 2 && v == 0 && (u == geom::sign(r) || u == r)
    ||| geom::abs(f) == 2 && u == 0 && (v == geom::sign(f) || v == f)
}

proof fn lemma_path_steps(i: int, r: int, f: int, u: int, v: int)
    requires
        0 <= i < 8,
    ensures
        path_steps(steps(i, r, f).0, steps(i, r, f).1, steps(i, u, v).0, steps(i, u, v).1)
            == path_steps(r, f, u, v),
{
}

proof fn lemma_path_image(i: int, a: int, b: int, x: int)
    requires
        0 <= i < 8,
        geom::valid(a),
        geom::valid(b),
        geom::valid(x),
    ensures
        geom::knight_path(image(i, a), image(i, b), image(i, x)) == geom::knight_path(a, b, x),
{
    lemma_steps(i, a, b);
    lemma_steps(i, a, x);
    lemma_steps(i, x, b);
    lemma_geometry(i, a, b);
    lemma_path_alike(i, a, b, x, image(i, a), image(i, b), image(i, x));
}

proof fn lemma_span_image(i: int, a: int, x: int)
    requires
        0 <= i < 8,
        geom::valid(a),
        geom::valid(x),
    ensures
        geom::knight_span(image(i, a), image(i, x)) == geom::knight_span(a, x),
{
    if geom::knight_span(a, x) {
        let b = choose|b: int| geom::valid(b) && #[trigger] geom::knight_path(a, b, x);
        lemma_path_image(i, a, b, x);
        law_undo(i, b);
        assert(geom::knight_path(image(i, a), image(i, b), image(i, x)));
    }
    if geom::knight_span(image(i, a), image(i, x)) {
        let c = choose|c: int|
            geom::valid(c) && #[trigger] geom::knight_path(image(i, a), c, image(i, x));
        law_undo(i, c);
        law_undo(undo(i), c);
        let b = image(undo(i), c);
        lemma_path_image(i, a, b, x);
        assert(geom::knight_path(a, b, x));
    }
}

// ---------------------------------------------------------------------------
// Neither do the rules
// ---------------------------------------------------------------------------

/// What stands on a square stands on its image.
proof fn lemma_turned(i: int, g: Game, s: int)
    requires
        0 <= i < 8,
        geom::valid(s),
    ensures
        geom::valid(image(i, s)),
        turned(i, g).board[image(i, s)] == g.board[s],
        rules::occupied(turned(i, g), image(i, s)) == rules::occupied(g, s),
        rules::kind_on(turned(i, g), image(i, s)) == rules::kind_on(g, s),
        forall|c: Color| #[trigger]
            rules::held_by(turned(i, g), c, image(i, s)) == rules::held_by(g, c, s),
        forall|m: Man| #[trigger]
            rules::stands(turned(i, g), m, image(i, s)) == rules::stands(g, m, s),
{
    law_undo(i, s);
}

proof fn lemma_lines_turned(i: int, g: Game, a: int, b: int)
    requires
        0 <= i < 8,
        geom::valid(a),
        geom::valid(b),
    ensures
        rules::clear_line(turned(i, g), image(i, a), image(i, b)) == rules::clear_line(g, a, b),
        rules::one_on_line(turned(i, g), image(i, a), image(i, b)) == rules::one_on_line(g, a, b),
{
    let t = turned(i, g);
    let (ta, tb) = (image(i, a), image(i, b));
    assert forall|y: int|
        #![trigger rules::occupied(t, y)]
        rules::occupied(t, y) implies rules::occupied(g, image(undo(i), y)) && geom::between(
        ta,
        tb,
        y,
    ) == geom::between(a, b, image(undo(i), y)) && image(i, image(undo(i), y)) == y by {
        law_undo(i, y);
        law_undo(undo(i), y);
        lemma_turned(i, g, image(undo(i), y));
        lemma_between_image(i, a, b, image(undo(i), y));
    }
    assert forall|x: int|
        #![trigger rules::occupied(g, x)]
        rules::occupied(g, x) implies rules::occupied(t, image(i, x)) && geom::between(
        ta,
        tb,
        image(i, x),
    ) == geom::between(a, b, x) && image(undo(i), image(i, x)) == x by {
        law_undo(i, x);
        lemma_turned(i, g, x);
        lemma_between_image(i, a, b, x);
    }
    if rules::clear_line(t, ta, tb) {
        assert forall|x: int| #[trigger] rules::occupied(g, x) implies !geom::between(a, b, x) by {
            assert(rules::occupied(t, image(i, x)));
        }
    }
    if rules::one_on_line(t, ta, tb) {
        assert forall|x: int, y: int|
            #[trigger] rules::occupied(g, x) && #[trigger] rules::occupied(g, y) && geom::between(
                a,
                b,
                x,
            ) && geom::between(a, b, y) implies x == y by {
            assert(rules::occupied(t, image(i, x)));
            assert(rules::occupied(t, image(i, y)));
        }
    }
    if rules::one_on_line(g, a, b) {
        assert forall|x: int, y: int|
            #[trigger] rules::occupied(t, x) && #[trigger] rules::occupied(t, y) && geom::between(
                ta,
                tb,
                x,
            ) && geom::between(ta, tb, y) implies x == y by {
            assert(rules::occupied(g, image(undo(i), x)));
            assert(rules::occupied(g, image(undo(i), y)));
        }
    }
}

/// A move is legal exactly when its image is legal under every symmetry.
pub proof fn law_moves_commute_with_symmetry(i: int, g: Game, from: int, to: int)
    requires
        0 <= i < 8,
        g.board.len() == 64,
        geom::valid(from),
        geom::valid(to),
    ensures
        rules::legal(turned(i, g), image(i, from), image(i, to)) <==> rules::legal(g, from, to),
{
    lemma_turned(i, g, from);
    lemma_turned(i, g, to);
    lemma_geometry(i, from, to);
    lemma_lines_turned(i, g, from, to);
}

proof fn lemma_hits_turned(i: int, g: Game, from: int, to: int, s: int)
    requires
        0 <= i < 8,
        geom::valid(from),
        geom::valid(to),
        geom::valid(s),
    ensures
        rules::hits(turned(i, g), image(i, from), image(i, to), image(i, s)) == rules::hits(
            g,
            from,
            to,
            s,
        ),
        rules::dies(turned(i, g), image(i, from), image(i, to)) == rules::dies(g, from, to),
{
    lemma_turned(i, g, from);
    lemma_turned(i, g, to);
    lemma_turned(i, g, s);
    lemma_geometry(i, to, s);
    lemma_path_image(i, from, to, s);
    lemma_between_image(i, from, to, s);
    lemma_steps(i, s, from);
    lemma_steps(i, s, to);
}

/// Playing a move and turning the board can be done in either order.
pub proof fn law_make_move_commutes_with_symmetry(i: int, g: Game, from: int, to: int)
    requires
        0 <= i < 8,
        g.board.len() == 64,
        geom::valid(from),
        geom::valid(to),
    ensures
        rules::apply(turned(i, g), image(i, from), image(i, to)) == turned(
            i,
            rules::apply(g, from, to),
        ),
{
    let a = rules::apply(turned(i, g), image(i, from), image(i, to));
    let b = turned(i, rules::apply(g, from, to));
    assert forall|t: int| 0 <= t < 64 implies #[trigger] a.board[t] == b.board[t] by {
        let s = image(undo(i), t);
        law_undo(undo(i), t);
        law_undo(i, t);
        lemma_hits_turned(i, g, from, to, s);
        lemma_turned(i, g, from);
        lemma_turned(i, g, s);
        lemma_turned(i, rules::apply(g, from, to), s);
        lemma_steps(i, s, from);
        lemma_steps(i, s, to);
        assert(image(i, s) == t);
    }
    assert(a.board =~= b.board);
}

// ---------------------------------------------------------------------------
// Sums over the board do not depend on how it is turned
// ---------------------------------------------------------------------------

proof fn lemma_sum_image_0(f: spec_fn(int) -> int)
    ensures
        bits::sum_squares(|s: int| f(image(0, s))) == bits::sum_squares(f),
{
    reveal_with_fuel(bits::sum_below, 65);
}

proof fn lemma_sum_image_1(f: spec_fn(int) -> int)
    ensures
        bits::sum_squares(|s: int| f(image(1, s))) == bits::sum_squares(f),
{
    reveal_with_fuel(bits::sum_below, 65);
}

proof fn lemma_sum_image_2(f: spec_fn(int) -> int)
    ensures
        bits::sum_squares(|s: int| f(image(2, s))) == bits::sum_squares(f),
{
    reveal_with_fuel(bits::sum_below, 65);
}

proof fn lemma_sum_image_3(f: spec_fn(int) -> int)
    ensures
        bits::sum_squares(|s: int| f(image(3, s))) == bits::sum_squares(f),
{
    reveal_with_fuel(bits::sum_below, 65);
}

proof fn lemma_sum_image_4(f: spec_fn(int) -> int)
    ensures
        bits::sum_squares(|s: int| f(image(4, s))) == bits::sum_squares(f),
{
    reveal_with_fuel(bits::sum_below, 65);
}

proof fn lemma_sum_image_5(f: spec_fn(int) -> int)
    ensures
        bits::sum_squares(|s: int| f(image(5, s))) == bits::sum_squares(f),
{
    reveal_with_fuel(bits::sum_below, 65);
}

proof fn lemma_sum_image_6(f: spec_fn(int) -> int)
    ensures
        bits::sum_squares(|s: int| f(image(6, s))) == bits::sum_squares(f),
{
    reveal_with_fuel(bits::sum_below, 65);
}

proof fn lemma_sum_image_7(f: spec_fn(int) -> int)
    ensures
        bits::sum_squares(|s: int| f(image(7, s))) == bits::sum_squares(f),
{
    reveal_with_fuel(bits::sum_below, 65);
}

proof fn lemma_sum_image(i: int, f: spec_fn(int) -> int)
    requires
        0 <= i < 8,
    ensures
        bits::sum_squares(|s: int| f(image(i, s))) == bits::sum_squares(f),
{
    lemma_sum_image_0(f);
    lemma_sum_image_1(f);
    lemma_sum_image_2(f);
    lemma_sum_image_3(f);
    lemma_sum_image_4(f);
    lemma_sum_image_5(f);
    lemma_sum_image_6(f);
    lemma_sum_image_7(f);
}

/// Functions that agree up to a symmetry have the same sum.
proof fn lemma_sum_turned(i: int, f: spec_fn(int) -> int, h: spec_fn(int) -> int)
    requires
        0 <= i < 8,
        forall|s: int| geom::valid(s) ==> f(#[trigger] image(i, s)) == h(s),
    ensures
        bits::sum_squares(f) == bits::sum_squares(h),
{
    lemma_sum_image(i, f);
    let fi = |s: int| f(image(i, s));
    assert forall|s: int| 0 <= s < 64 implies #[trigger] fi(s) == h(s) by {
        assert(f(image(i, s)) == h(s));
    }
    bits::lemma_sum_ext(fi, h, 64);
}

/// Predicates that agree up to a symmetry have the same count.
proof fn lemma_count_turned(i: int, p: spec_fn(int) -> bool, q: spec_fn(int) -> bool)
    requires
        0 <= i < 8,
        forall|s: int| geom::valid(s) ==> p(#[trigger] image(i, s)) == q(s),
    ensures
        bits::count_squares(p) == bits::count_squares(q),
{
    let f = |s: int|
        if p(s) {
            1int
        } else {
            0int
        };
    let h = |s: int|
        if q(s) {
            1int
        } else {
            0int
        };
    bits::lemma_count_is_sum(p, 64);
    bits::lemma_count_is_sum(q, 64);
    assert forall|s: int| geom::valid(s) implies f(#[trigger] image(i, s)) == h(s) by {}
    lemma_sum_turned(i, f, h);
}

/// No piece appears or disappears.
proof fn lemma_piece_counts_turned(i: int, g: Game, m: Man)
    requires
        0 <= i < 8,
    ensures
        rules::count(turned(i, g), m) == rules::count(g, m),
{
    let t = turned(i, g);
    assert forall|s: int| geom::valid(s) implies rules::stands(t, m, #[trigger] image(i, s))
        == rules::stands(g, m, s) by {
        lemma_turned(i, g, s);
    }
    lemma_count_turned(i, |s: int| rules::stands(t, m, s), |s: int| rules::stands(g, m, s));
}

/// How a game ends does not depend on how the board is turned.
pub proof fn law_outcome_is_symmetry_invariant(i: int, g: Game)
    requires
        0 <= i < 8,
        g.board.len() == 64,
    ensures
        rules::outcome(turned(i, g)) == rules::outcome(g),
{
    let t = turned(i, g);
    lemma_has_king_turned(i, g, Color::White);
    lemma_has_king_turned(i, g, Color::Black);
    lemma_material_turned(i, g, Color::White);
    lemma_material_turned(i, g, Color::Black);
    if exists|s: int| #[trigger] rules::heavy_on(g, s) {
        let s = choose|s: int| #[trigger] rules::heavy_on(g, s);
        lemma_turned(i, g, s);
        assert(rules::heavy_on(t, image(i, s)));
    }
    if exists|s: int| #[trigger] rules::heavy_on(t, s) {
        let s = choose|s: int| #[trigger] rules::heavy_on(t, s);
        law_undo(i, s);
        law_undo(undo(i), s);
        lemma_turned(i, g, image(undo(i), s));
        assert(rules::heavy_on(g, image(undo(i), s)));
    }
}

proof fn lemma_has_king_turned(i: int, g: Game, c: Color)
    requires
        0 <= i < 8,
    ensures
        rules::has_king(turned(i, g), c) == rules::has_king(g, c),
{
    let t = turned(i, g);
    let m = (c, PieceType::King);
    if rules::has_king(g, c) {
        let s = choose|s: int| #[trigger] rules::stands(g, m, s);
        lemma_turned(i, g, s);
        assert(rules::stands(t, m, image(i, s)));
    }
    if rules::has_king(t, c) {
        let s = choose|s: int| #[trigger] rules::stands(t, m, s);
        law_undo(i, s);
        law_undo(undo(i), s);
        lemma_turned(i, g, image(undo(i), s));
        assert(rules::stands(g, m, image(undo(i), s)));
    }
}

proof fn lemma_material_turned(i: int, g: Game, c: Color)
    requires
        0 <= i < 8,
    ensures
        rules::material(turned(i, g), c) == rules::material(g, c),
        forall|w: Seq<i32>| #[trigger]
            eval::weighted(turned(i, g), c, w) == eval::weighted(g, c, w),
        forall|w: Seq<i32>| #[trigger]
            eval::weighted_heavy(turned(i, g), c, w) == eval::weighted_heavy(g, c, w),
        rules::count(turned(i, g), (c, PieceType::Pawn)) == rules::count(g, (c, PieceType::Pawn)),
{
    lemma_piece_counts_turned(i, g, (c, PieceType::Pawn));
    lemma_piece_counts_turned(i, g, (c, PieceType::Knight));
    lemma_piece_counts_turned(i, g, (c, PieceType::Bishop));
    lemma_piece_counts_turned(i, g, (c, PieceType::Rook));
    lemma_piece_counts_turned(i, g, (c, PieceType::Queen));
}

// ---------------------------------------------------------------------------
// The evaluation does not change either
// ---------------------------------------------------------------------------

proof fn lemma_king_turned(i: int, g: Game, c: Color)
    requires
        0 <= i < 8,
        rules::count(g, (c, PieceType::King)) <= 1,
    ensures
        rules::king_square(turned(i, g), c) == (match rules::king_square(g, c) {
            Some(k) => Some(image(i, k)),
            None => None,
        }),
        rules::king_square(g, c) matches Some(k) ==> geom::valid(k),
{
    let t = turned(i, g);
    let m = (c, PieceType::King);
    let p = |s: int| rules::stands(g, m, s);
    let q = |s: int| rules::stands(t, m, s);
    bits::lemma_first_from(p, 0);
    bits::lemma_first_from(q, 0);
    lemma_piece_counts_turned(i, g, m);
    match rules::king_square(t, c) {
        Some(x) => {
            assert(q(x));
            let y = image(undo(i), x);
            law_undo(i, x);
            law_undo(undo(i), x);
            lemma_turned(i, g, y);
            assert(p(y));
            let k = rules::king_square(g, c)->0;
            assert(p(k));
            bits::lemma_count_unique(p, y, k);
        },
        None => {
            if let Some(k) = rules::king_square(g, c) {
                assert(p(k));
                lemma_turned(i, g, k);
                assert(q(image(i, k)));
            }
        },
    }
}

proof fn lemma_reach_turned(i: int, g: Game, c: Color, x: int, t: int)
    requires
        0 <= i < 8,
        geom::valid(x),
        geom::valid(t),
    ensures
        movegen::slider_reaches(turned(i, g), c, image(i, x), image(i, t))
            == movegen::slider_reaches(g, c, x, t),
{
    lemma_turned(i, g, x);
    lemma_turned(i, g, t);
    lemma_geometry(i, x, t);
    lemma_lines_turned(i, g, x, t);
}

/// Some slider of colour `c` can land on `t`.
spec fn reached(g: Game, c: Color, t: int) -> bool {
    exists|x: int| #[trigger] movegen::slider_reaches(g, c, x, t)
}

proof fn lemma_reached_turned(i: int, g: Game, c: Color, t: int)
    requires
        0 <= i < 8,
        geom::valid(t),
    ensures
        reached(turned(i, g), c, image(i, t)) == reached(g, c, t),
{
    if reached(g, c, t) {
        let x = choose|x: int| #[trigger] movegen::slider_reaches(g, c, x, t);
        lemma_reach_turned(i, g, c, x, t);
        assert(movegen::slider_reaches(turned(i, g), c, image(i, x), image(i, t)));
    }
    if reached(turned(i, g), c, image(i, t)) {
        let y = choose|y: int| #[trigger]
            movegen::slider_reaches(turned(i, g), c, y, image(i, t));
        law_undo(i, y);
        law_undo(undo(i), y);
        lemma_reach_turned(i, g, c, image(undo(i), y), t);
        assert(movegen::slider_reaches(g, c, image(undo(i), y), t));
    }
}

proof fn lemma_safety_turned(i: int, g: Game, c: Color)
    requires
        0 <= i < 8,
        rules::count(g, (c, PieceType::King)) <= 1,
        rules::count(g, (c.other(), PieceType::King)) <= 1,
    ensures
        eval::latent(turned(i, g), c) == eval::latent(g, c),
        eval::live(turned(i, g), c) == eval::live(g, c),
        eval::knights_on_king(turned(i, g), c) == eval::knights_on_king(g, c),
        eval::primers(turned(i, g), c) == eval::primers(g, c),
{
    let t = turned(i, g);
    let o = c.other();
    lemma_king_turned(i, g, c);
    lemma_king_turned(i, g, o);
    if let Some(k) = rules::king_square(g, c) {
        let tk = image(i, k);
        assert forall|s: int| geom::valid(s) implies (geom::adjacent(tk, #[trigger] image(i, s))
            && rules::occupied(t, image(i, s))) == (geom::adjacent(k, s) && rules::occupied(g, s))
            by {
            lemma_turned(i, g, s);
            lemma_geometry(i, k, s);
        }
        lemma_count_turned(
            i,
            |s: int| geom::adjacent(tk, s) && rules::occupied(t, s),
            |s: int| geom::adjacent(k, s) && rules::occupied(g, s),
        );
        assert forall|s: int| geom::valid(s) implies eval::detonation_point(
            t,
            o,
            tk,
            #[trigger] image(i, s),
        ) == eval::detonation_point(g, o, k, s) by {
            lemma_turned(i, g, s);
            lemma_geometry(i, k, s);
            lemma_reached_turned(i, g, o, s);
            assert(eval::detonation_point(g, o, k, s) <==> geom::blast(k, s) && rules::occupied(
                g,
                s,
            ) && reached(g, o, s));
            assert(eval::detonation_point(t, o, tk, image(i, s)) <==> geom::blast(tk, image(i, s))
                && rules::occupied(t, image(i, s)) && reached(t, o, image(i, s)));
        }
        lemma_count_turned(
            i,
            |s: int| eval::detonation_point(t, o, tk, s),
            |s: int| eval::detonation_point(g, o, k, s),
        );
        let m = (o, PieceType::Knight);
        assert forall|x: int| geom::valid(x) implies (rules::stands(t, m, #[trigger] image(i, x))
            && geom::knight_span(image(i, x), tk)) == (rules::stands(g, m, x) && geom::knight_span(
            x,
            k,
        )) by {
            lemma_turned(i, g, x);
            lemma_span_image(i, x, k);
        }
        lemma_count_turned(
            i,
            |x: int| rules::stands(t, m, x) && geom::knight_span(x, tk),
            |x: int| rules::stands(g, m, x) && geom::knight_span(x, k),
        );
    }
    if let Some(k) = rules::king_square(g, o) {
        let tk = image(i, k);
        assert forall|s: int| geom::valid(s) implies (geom::adjacent(tk, #[trigger] image(i, s))
            && rules::held_by(t, c, image(i, s))) == (geom::adjacent(k, s) && rules::held_by(
            g,
            c,
            s,
        )) by {
            lemma_turned(i, g, s);
            lemma_geometry(i, k, s);
        }
        lemma_count_turned(
            i,
            |s: int| geom::adjacent(tk, s) && rules::held_by(t, c, s),
            |s: int| geom::adjacent(k, s) && rules::held_by(g, c, s),
        );
    }
}

proof fn lemma_span_turned(i: int, g: Game, c: Color)
    requires
        0 <= i < 8,
    ensures
        eval::span_total(turned(i, g), c) == eval::span_total(g, c),
{
    let t = turned(i, g);
    let o = c.other();
    assert forall|x: int| geom::valid(x) implies eval::span_yield(t, c, #[trigger] image(i, x))
        == eval::span_yield(g, c, x) by {
        lemma_turned(i, g, x);
        let tx = image(i, x);
        assert forall|s: int| geom::valid(s) implies (geom::knight_span(tx, #[trigger] image(i, s))
            && rules::held_by(t, o, image(i, s))) == (geom::knight_span(x, s) && rules::held_by(
            g,
            o,
            s,
        )) by {
            lemma_turned(i, g, s);
            lemma_span_image(i, x, s);
        }
        lemma_count_turned(
            i,
            |s: int| geom::knight_span(tx, s) && rules::held_by(t, o, s),
            |s: int| geom::knight_span(x, s) && rules::held_by(g, o, s),
        );
    }
    lemma_sum_turned(
        i,
        |x: int| eval::span_yield(t, c, x),
        |x: int| eval::span_yield(g, c, x),
    );
}

proof fn lemma_best_is_most(g: Game, c: Color, n: int)
    requires
        0 <= n,
    ensures
        forall|t: int| 0 <= t < n ==> #[trigger] eval::blast_yield(g, c, t) <= eval::best_blast(
            g,
            c,
            n,
        ),
        eval::best_blast(g, c, n) == 0 || exists|t: int|
            0 <= t < n && #[trigger] eval::blast_yield(g, c, t) == eval::best_blast(g, c, n),
        eval::best_blast(g, c, n) >= 0,
    decreases n,
{
    if n > 0 {
        lemma_best_is_most(g, c, n - 1);
        let y = eval::blast_yield(g, c, n - 1);
        if eval::best_blast(g, c, n - 1) < y {
            assert(eval::best_blast(g, c, n) == y);
        } else if eval::best_blast(g, c, n) != 0 {
            let t = choose|t: int|
                0 <= t < n - 1 && #[trigger] eval::blast_yield(g, c, t) == eval::best_blast(
                    g,
                    c,
                    n - 1,
                );
            assert(0 <= t < n && eval::blast_yield(g, c, t) == eval::best_blast(g, c, n));
        }
    }
}

proof fn lemma_yield_turned(i: int, g: Game, c: Color, s: int)
    requires
        0 <= i < 8,
        geom::valid(s),
    ensures
        eval::blast_yield(turned(i, g), c, image(i, s)) == eval::blast_yield(g, c, s),
{
    let t = turned(i, g);
    let o = c.other();
    let ts = image(i, s);
    lemma_turned(i, g, s);
    lemma_reached_turned(i, g, c, s);
    assert forall|x: int| geom::valid(x) implies (geom::blast(ts, #[trigger] image(i, x))
        && rules::held_by(t, o, image(i, x))) == (geom::blast(s, x) && rules::held_by(g, o, x)) by {
        lemma_turned(i, g, x);
        lemma_geometry(i, s, x);
    }
    lemma_count_turned(
        i,
        |x: int| geom::blast(ts, x) && rules::held_by(t, o, x),
        |x: int| geom::blast(s, x) && rules::held_by(g, o, x),
    );
    assert(reached(g, c, s) <==> exists|x: int| #[trigger] movegen::slider_reaches(g, c, x, s));
    assert(reached(t, c, ts) <==> exists|x: int| #[trigger] movegen::slider_reaches(t, c, x, ts));
}

proof fn lemma_cluster_turned(i: int, g: Game, c: Color)
    requires
        0 <= i < 8,
    ensures
        eval::cluster(turned(i, g), c) == eval::cluster(g, c),
{
    let t = turned(i, g);
    lemma_best_is_most(g, c, 64);
    lemma_best_is_most(t, c, 64);
    let a = eval::best_blast(g, c, 64);
    let b = eval::best_blast(t, c, 64);
    if a != 0 {
        let s = choose|s: int| 0 <= s < 64 && #[trigger] eval::blast_yield(g, c, s) == a;
        lemma_yield_turned(i, g, c, s);
        law_undo(i, s);
        assert(eval::blast_yield(t, c, image(i, s)) <= b);
    }
    if b != 0 {
        let y = choose|y: int| 0 <= y < 64 && #[trigger] eval::blast_yield(t, c, y) == b;
        law_undo(i, y);
        law_undo(undo(i), y);
        lemma_yield_turned(i, g, c, image(undo(i), y));
        assert(eval::blast_yield(g, c, image(undo(i), y)) <= a);
    }
}

proof fn lemma_orbit_image(i: int, s: int)
    requires
        0 <= i < 8,
        geom::valid(s),
    ensures
        eval::orbit_of(image(i, s)) == eval::orbit_of(s),
{
    let (r, c) = coords(i, geom::rank(s), geom::file(s));
    geom::lemma_square(r, c);
}

proof fn lemma_tables_turned(i: int, g: Game, w: Seq<i32>)
    requires
        0 <= i < 8,
    ensures
        eval::tables_value(turned(i, g), w) == eval::tables_value(g, w),
{
    let t = turned(i, g);
    let f = |s: int| eval::square_value(t.board[s], s, w);
    let h = |s: int| eval::square_value(g.board[s], s, w);
    assert forall|s: int| geom::valid(s) implies f(#[trigger] image(i, s)) == h(s) by {
        lemma_turned(i, g, s);
        lemma_orbit_image(i, s);
    }
    lemma_sum_turned(i, f, h);
}

/// The evaluation does not depend on how the board is turned, whatever the weights. This
/// is so of `evaluate_white` and `evaluate_white_with`, which go by White's point of view,
/// and of `evaluate` and `evaluate_with`, which go by the side to move.
pub proof fn law_evaluation_is_symmetry_invariant(i: int, g: Game, w: Seq<i32>)
    requires
        0 <= i < 8,
        g.board.len() == 64,
        Position::single_kings(g),
    ensures
        eval::white_value(turned(i, g), w) == eval::white_value(g, w),
        eval::side_value(turned(i, g), w) == eval::side_value(g, w),
{
    lemma_material_turned(i, g, Color::White);
    lemma_material_turned(i, g, Color::Black);
    lemma_safety_turned(i, g, Color::White);
    lemma_safety_turned(i, g, Color::Black);
    lemma_span_turned(i, g, Color::White);
    lemma_span_turned(i, g, Color::Black);
    lemma_cluster_turned(i, g, Color::White);
    lemma_cluster_turned(i, g, Color::Black);
    lemma_tables_turned(i, g, w);
}

// ---------------------------------------------------------------------------
// Exchanging the colours
// ---------------------------------------------------------------------------

proof fn lemma_swapped(g: Game)
    ensures
        forall|s: int| #[trigger] rules::occupied(swapped(g), s) == rules::occupied(g, s),
        forall|s: int|
            geom::valid(s) ==> #[trigger] rules::kind_on(swapped(g), s) == rules::kind_on(g, s),
        forall|c: Color, s: int| #[trigger]
            rules::held_by(swapped(g), c, s) == rules::held_by(g, c.other(), s),
        forall|m: Man, s: int| #[trigger]
            rules::stands(swapped(g), m, s) == rules::stands(g, (m.0.other(), m.1), s),
{
}

/// Exchanging the colours twice changes nothing.
pub proof fn law_colour_swap_is_an_involution(g: Game)
    requires
        g.board.len() == 64,
    ensures
        swapped(swapped(g)) == g,
{
    assert(swapped(swapped(g)).board =~= g.board);
}

proof fn lemma_lines_swapped(g: Game, a: int, b: int)
    ensures
        rules::clear_line(swapped(g), a, b) == rules::clear_line(g, a, b),
        rules::one_on_line(swapped(g), a, b) == rules::one_on_line(g, a, b),
{
    let t = swapped(g);
    lemma_swapped(g);
    if rules::clear_line(t, a, b) {
        assert forall|x: int| #[trigger] rules::occupied(g, x) implies !geom::between(a, b, x) by {
            assert(rules::occupied(t, x));
        }
    }
    if rules::one_on_line(t, a, b) {
        assert forall|x: int, y: int|
            #[trigger] rules::occupied(g, x) && #[trigger] rules::occupied(g, y) && geom::between(
                a,
                b,
                x,
            ) && geom::between(a, b, y) implies x == y by {
            assert(rules::occupied(t, x) && rules::occupied(t, y));
        }
    }
}

/// The side to move has the same moves when the colours are exchanged.
pub proof fn law_colour_swap_keeps_the_moves(g: Game, from: int, to: int)
    requires
        g.board.len() == 64,
        geom::valid(from),
        geom::valid(to),
    ensures
        rules::legal(swapped(g), from, to) <==> rules::legal(g, from, to),
{
    lemma_swapped(g);
    lemma_lines_swapped(g, from, to);
}

/// Playing a move and exchanging the colours can be done in either order.
pub proof fn law_make_move_commutes_with_colour_swap(g: Game, from: int, to: int)
    requires
        g.board.len() == 64,
        geom::valid(from),
        geom::valid(to),
    ensures
        rules::apply(swapped(g), from, to) == swapped(rules::apply(g, from, to)),
{
    lemma_swapped(g);
    let a = rules::apply(swapped(g), from, to);
    let b = swapped(rules::apply(g, from, to));
    assert forall|s: int| 0 <= s < 64 implies #[trigger] a.board[s] == b.board[s] by {
        assert(rules::hits(swapped(g), from, to, s) == rules::hits(g, from, to, s));
        assert(rules::dies(swapped(g), from, to) == rules::dies(g, from, to));
    }
    assert(a.board =~= b.board);
}

proof fn lemma_counts_swapped(g: Game, m: Man)
    ensures
        rules::count(swapped(g), m) == rules::count(g, (m.0.other(), m.1)),
{
    lemma_swapped(g);
    let o = (m.0.other(), m.1);
    bits::lemma_count_ext(
        |s: int| rules::stands(swapped(g), m, s),
        |s: int| rules::stands(g, o, s),
        64,
    );
}

proof fn lemma_material_swapped(g: Game, c: Color)
    ensures
        rules::material(swapped(g), c) == rules::material(g, c.other()),
        forall|w: Seq<i32>| #[trigger]
            eval::weighted(swapped(g), c, w) == eval::weighted(g, c.other(), w),
        forall|w: Seq<i32>| #[trigger]
            eval::weighted_heavy(swapped(g), c, w) == eval::weighted_heavy(g, c.other(), w),
        rules::count(swapped(g), (c, PieceType::Pawn)) == rules::count(
            g,
            (c.other(), PieceType::Pawn),
        ),
{
    lemma_counts_swapped(g, (c, PieceType::Pawn));
    lemma_counts_swapped(g, (c, PieceType::Knight));
    lemma_counts_swapped(g, (c, PieceType::Bishop));
    lemma_counts_swapped(g, (c, PieceType::Rook));
    lemma_counts_swapped(g, (c, PieceType::Queen));
}

proof fn lemma_king_swapped(g: Game, c: Color)
    ensures
        rules::king_square(swapped(g), c) == rules::king_square(g, c.other()),
{
    lemma_swapped(g);
    lemma_first_ext(
        |s: int| rules::stands(swapped(g), (c, PieceType::King), s),
        |s: int| rules::stands(g, (c.other(), PieceType::King), s),
        0,
    );
}

proof fn lemma_first_ext(p: spec_fn(int) -> bool, q: spec_fn(int) -> bool, n: int)
    requires
        0 <= n,
        forall|s: int| 0 <= s < 64 ==> #[trigger] p(s) == q(s),
    ensures
        bits::first_from(p, n) == bits::first_from(q, n),
    decreases 64 - n,
{
    if n < 64 {
        assert(p(n) == q(n));
        lemma_first_ext(p, q, n + 1);
    }
}

proof fn lemma_reached_swapped(g: Game, c: Color, t: int)
    ensures
        reached(swapped(g), c, t) == reached(g, c.other(), t),
{
    lemma_swapped(g);
    let h = swapped(g);
    let o = c.other();
    if reached(h, c, t) {
        let x = choose|x: int| #[trigger] movegen::slider_reaches(h, c, x, t);
        lemma_lines_swapped(g, x, t);
        assert(rules::held_by(h, c, x));
        assert(movegen::slider_reaches(g, o, x, t));
    }
    if reached(g, o, t) {
        let x = choose|x: int| #[trigger] movegen::slider_reaches(g, o, x, t);
        lemma_lines_swapped(g, x, t);
        assert(rules::held_by(h, c, x));
        assert(movegen::slider_reaches(h, c, x, t));
    }
}

proof fn lemma_terms_swapped(g: Game, c: Color)
    ensures
        eval::latent(swapped(g), c) == eval::latent(g, c.other()),
        eval::live(swapped(g), c) == eval::live(g, c.other()),
        eval::knights_on_king(swapped(g), c) == eval::knights_on_king(g, c.other()),
        eval::primers(swapped(g), c) == eval::primers(g, c.other()),
        eval::span_total(swapped(g), c) == eval::span_total(g, c.other()),
        eval::cluster(swapped(g), c) == eval::cluster(g, c.other()),
{
    let h = swapped(g);
    let o = c.other();
    lemma_swapped(g);
    lemma_king_swapped(g, c);
    lemma_king_swapped(g, o);
    assert(o.other() == c);
    if let Some(k) = rules::king_square(g, o) {
        bits::lemma_count_ext(
            |s: int| geom::adjacent(k, s) && rules::occupied(h, s),
            |s: int| geom::adjacent(k, s) && rules::occupied(g, s),
            64,
        );
        assert forall|s: int| 0 <= s < 64 implies #[trigger] eval::detonation_point(h, o, k, s)
            == eval::detonation_point(g, c, k, s) by {
            lemma_reached_swapped(g, o, s);
            assert(eval::detonation_point(h, o, k, s) <==> geom::blast(k, s) && rules::occupied(
                h,
                s,
            ) && reached(h, o, s));
            assert(eval::detonation_point(g, c, k, s) <==> geom::blast(k, s) && rules::occupied(
                g,
                s,
            ) && reached(g, c, s));
        }
        bits::lemma_count_ext(
            |s: int| eval::detonation_point(h, o, k, s),
            |s: int| eval::detonation_point(g, c, k, s),
            64,
        );
        bits::lemma_count_ext(
            |x: int| rules::stands(h, (o, PieceType::Knight), x) && geom::knight_span(x, k),
            |x: int| rules::stands(g, (c, PieceType::Knight), x) && geom::knight_span(x, k),
            64,
        );
    }
    if let Some(k) = rules::king_square(g, c) {
        bits::lemma_count_ext(
            |s: int| geom::adjacent(k, s) && rules::held_by(h, c, s),
            |s: int| geom::adjacent(k, s) && rules::held_by(g, o, s),
            64,
        );
    }
    assert forall|x: int| 0 <= x < 64 implies #[trigger] eval::span_yield(h, c, x)
        == eval::span_yield(g, o, x) by {
        assert(rules::stands(h, (c, PieceType::Knight), x) == rules::stands(
            g,
            (o, PieceType::Knight),
            x,
        ));
        bits::lemma_count_ext(
            |t: int| geom::knight_span(x, t) && rules::held_by(h, o, t),
            |t: int| geom::knight_span(x, t) && rules::held_by(g, c, t),
            64,
        );
    }
    bits::lemma_sum_ext(
        |x: int| eval::span_yield(h, c, x),
        |x: int| eval::span_yield(g, o, x),
        64,
    );
    lemma_best_swapped(g, c, 64);
}

proof fn lemma_best_swapped(g: Game, c: Color, n: int)
    requires
        0 <= n <= 64,
    ensures
        eval::best_blast(swapped(g), c, n) == eval::best_blast(g, c.other(), n),
    decreases n,
{
    if n > 0 {
        lemma_best_swapped(g, c, n - 1);
        let h = swapped(g);
        let o = c.other();
        let t = n - 1;
        lemma_swapped(g);
        assert(o.other() == c);
        lemma_reached_swapped(g, c, t);
        bits::lemma_count_ext(
            |s: int| geom::blast(t, s) && rules::held_by(h, o, s),
            |s: int| geom::blast(t, s) && rules::held_by(g, c, s),
            64,
        );
        assert(reached(h, c, t) <==> exists|x: int| #[trigger]
            movegen::slider_reaches(h, c, x, t));
        assert(reached(g, o, t) <==> exists|x: int| #[trigger]
            movegen::slider_reaches(g, o, x, t));
        assert(rules::occupied(h, t) == rules::occupied(g, t));
    }
}

proof fn lemma_tables_swapped(g: Game, w: Seq<i32>, n: nat)
    requires
        n <= 64,
    ensures
        bits::sum_below(|s: int| eval::square_value(swapped(g).board[s], s, w), n)
            == -bits::sum_below(|s: int| eval::square_value(g.board[s], s, w), n),
    decreases n,
{
    if n > 0 {
        lemma_tables_swapped(g, w, (n - 1) as nat);
    }
}

proof fn lemma_negate(a: int, b: int, k: int)
    ensures
        (b - a) * k == -((a - b) * k),
        k * (b - a) == -(k * (a - b)),
        eval::tdiv(-((a - b) * k), 100) == -eval::tdiv((a - b) * k, 100),
{
    assert((b - a) * k == -((a - b) * k)) by (nonlinear_arith);
    assert(k * (b - a) == -(k * (a - b))) by (nonlinear_arith);
}

/// Exchanging the colours negates the evaluation from White's point of view
/// (`evaluate_white_with`) exactly, roundings and all, and leaves it as it is from the
/// point of view of the side to move (`evaluate_with`), whatever the weights.
pub proof fn law_colour_swap_negates_the_evaluation(g: Game, w: Seq<i32>)
    requires
        g.board.len() == 64,
    ensures
        eval::white_value(swapped(g), w) == -eval::white_value(g, w),
        eval::side_value(swapped(g), w) == eval::side_value(g, w),
{
    let h = swapped(g);
    let (wh, bl) = (Color::White, Color::Black);
    lemma_material_swapped(g, wh);
    lemma_material_swapped(g, bl);
    lemma_terms_swapped(g, wh);
    lemma_terms_swapped(g, bl);
    lemma_tables_swapped(g, w, 64);
    let sc = eval::scale(g, w);
    assert(eval::scale(h, w) == sc);
    lemma_negate(eval::weighted(g, wh, w), eval::weighted(g, bl, w), sc);
    lemma_negate(eval::latent(g, wh), eval::latent(g, bl), w[5] as int);
    lemma_negate(eval::live(g, wh), eval::live(g, bl), w[6] as int);
    lemma_negate(eval::knights_on_king(g, wh), eval::knights_on_king(g, bl), w[7] as int);
    lemma_negate(eval::cluster(g, wh), eval::cluster(g, bl), w[8] as int);
    lemma_negate(eval::span_total(g, wh), eval::span_total(g, bl), w[70] as int);
    lemma_negate(eval::primers(g, wh), eval::primers(g, bl), w[71] as int);
    lemma_negate(
        rules::count(g, (wh, PieceType::Pawn)),
        rules::count(g, (bl, PieceType::Pawn)),
        100 - sc,
    );
    lemma_negate(eval::pawn_endgame(g, sc), 0, w[72] as int);
}

/// Nobody is ahead at the start, whatever the weights.
pub proof fn law_the_start_is_balanced(w: Seq<i32>)
    ensures
        eval::white_value(fen::start_game(), w) == 0,
{
    let g = fen::start_game();
    let h = swapped(g);
    law_colour_swap_negates_the_evaluation(g, w);
    lemma_counts_swapped(g, (Color::White, PieceType::King));
    lemma_counts_swapped(g, (Color::Black, PieceType::King));
    laws::law_the_start_is_standard(Color::White);
    laws::law_the_start_is_standard(Color::Black);
    law_evaluation_is_symmetry_invariant(5, h, w);
    assert forall|s: int| 0 <= s < 64 implies #[trigger] turned(5, h).board[s] == g.board[s] by {
        law_undo(5, s);
        assert(image(5, s) == 8 * (7 - s / 8) + s % 8);
    }
    assert(turned(5, h).board =~= g.board);
    eval::law_the_board_decides_the_evaluation(turned(5, h), g, w);
}

/// The result with the colours exchanged.
pub open spec fn swapped_result(r: Option<GameResult>) -> Option<GameResult> {
    match r {
        Some(GameResult::Win(c)) => Some(GameResult::Win(c.other())),
        x => x,
    }
}

/// A game ends for the other side when the colours are exchanged.
pub proof fn law_outcome_follows_the_colours(g: Game)
    requires
        g.board.len() == 64,
    ensures
        rules::outcome(swapped(g)) == swapped_result(rules::outcome(g)),
{
    let h = swapped(g);
    lemma_swapped(g);
    lemma_material_swapped(g, Color::White);
    lemma_material_swapped(g, Color::Black);
    lemma_has_king_swapped(g, Color::White);
    lemma_has_king_swapped(g, Color::Black);
    if exists|s: int| #[trigger] rules::heavy_on(g, s) {
        let s = choose|s: int| #[trigger] rules::heavy_on(g, s);
        assert(rules::heavy_on(h, s));
    }
    if exists|s: int| #[trigger] rules::heavy_on(h, s) {
        let s = choose|s: int| #[trigger] rules::heavy_on(h, s);
        assert(rules::heavy_on(g, s));
    }
}

proof fn lemma_has_king_swapped(g: Game, c: Color)
    ensures
        rules::has_king(swapped(g), c) == rules::has_king(g, c.other()),
{
    let h = swapped(g);
    lemma_swapped(g);
    if rules::has_king(h, c) {
        let s = choose|s: int| #[trigger] rules::stands(h, (c, PieceType::King), s);
        assert(rules::stands(g, (c.other(), PieceType::King), s));
    }
    if rules::has_king(g, c.other()) {
        let s = choose|s: int| #[trigger] rules::stands(g, (c.other(), PieceType::King), s);
        assert(rules::stands(h, (c, PieceType::King), s));
    }
}

/// The full move list of the turned board holds the images of the moves, and the list
/// with the colours exchanged holds the moves themselves.
pub proof fn law_full_lists_commute(i: int, g: Game, from: int, to: int)
    requires
        0 <= i < 8,
        g.board.len() == 64,
        geom::valid(from),
        geom::valid(to),
    ensures
        movegen::generated(turned(i, g), GenMode::All).contains(
            types::move_of(image(i, from), image(i, to)),
        ) <==> movegen::generated(g, GenMode::All).contains(types::move_of(from, to)),
        movegen::generated(swapped(g), GenMode::All).contains(types::move_of(from, to))
            <==> movegen::generated(g, GenMode::All).contains(types::move_of(from, to)),
{
    law_undo(i, from);
    law_undo(i, to);
    laws::law_generated_members(turned(i, g), GenMode::All);
    laws::law_generated_members(swapped(g), GenMode::All);
    laws::law_generated_members(g, GenMode::All);
    law_moves_commute_with_symmetry(i, g, from, to);
    law_colour_swap_keeps_the_moves(g, from, to);
    let m = types::move_of(from, to);
    let n = types::move_of(image(i, from), image(i, to));
    assert(m.src() == from && m.dst() == to);
    assert(n.src() == image(i, from) && n.dst() == image(i, to));
}

} // verus!
