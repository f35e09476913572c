//! What holds of the game and of the move lists as a whole.

use vstd::prelude::*;
use crate::bits;
use crate::bits::Bitboard;
use crate::fen;
use crate::geom;
use crate::movegen;
use crate::movegen::GenMode;
use crate::position::{GameResult, MoveInfo, Position};
use crate::rules;
use crate::rules::Game;
use crate::tables;
use crate::types;
use crate::types::{Color, Man, Move, PieceType};

verus! {

// ---------------------------------------------------------------------------
// What the lists hold
// ---------------------------------------------------------------------------

proof fn lemma_move_parts(from: int, to: int)
    requires
        geom::valid(from),
        geom::valid(to),
    ensures
        types::move_of(from, to).src() == from,
        types::move_of(from, to).dst() == to,
{
}

proof fn lemma_candidates(g: Game, pt: PieceType, from: int)
    requires
        geom::valid(from),
    ensures
        forall|i: int, j: int|
            0 <= i < j < movegen::candidates(pt, from).len() && geom::valid(
                #[trigger] movegen::candidates(pt, from)[i],
            ) ==> movegen::candidates(pt, from)[i] != #[trigger] movegen::candidates(pt, from)[j],
        forall|to: int|
            geom::valid(to) && #[trigger] rules::reaches(g, pt, from, to)
                ==> movegen::candidates(pt, from).contains(to),
{
    let c = movegen::candidates(pt, from);
    match pt {
        PieceType::Knight => {
            assert forall|i: int, j: int| 0 <= i < j < c.len() && geom::valid(
                #[trigger] c[i],
            ) implies c[i] != #[trigger] c[j] by {
                tables::lemma_knight_landing(from, i);
                assert(c[j] == tables::knight_landing(from, j));
            }
            assert forall|to: int| geom::valid(to) && #[trigger] rules::reaches(
                g,
                pt,
                from,
                to,
            ) implies c.contains(to) by {
                tables::lemma_knight_kind(from, to);
                assert(c[tables::knight_kind(from, to)] == to);
            }
        },
        PieceType::Queen => {
            assert forall|i: int, j: int| 0 <= i < j < c.len() && geom::valid(
                #[trigger] c[i],
            ) implies c[i] != #[trigger] c[j] by {
                geom::lemma_ray_square(i / 7, from, i % 7 + 1);
                if geom::valid(c[j]) {
                    geom::lemma_ray_square(j / 7, from, j % 7 + 1);
                }
            }
            assert forall|to: int| geom::valid(to) && #[trigger] rules::reaches(
                g,
                pt,
                from,
                to,
            ) implies c.contains(to) by {
                let d = geom::dir(from, to);
                geom::lemma_on_ray(d, from, to);
                let i = 7 * d + geom::dist(from, to) - 1;
                assert(geom::ray_len(d, from) <= 7);
                assert(i / 7 == d && i % 7 == geom::dist(from, to) - 1);
                assert(c[i] == to);
            }
        },
        _ => {
            assert forall|to: int| geom::valid(to) && #[trigger] rules::reaches(
                g,
                pt,
                from,
                to,
            ) implies c.contains(to) by {
                assert(c[to] == to);
            }
        },
    }
}

/// `m` goes from `from` to one of the first `n` candidates and is wanted.
spec fn among(g: Game, mode: GenMode, from: int, c: Seq<int>, n: int, m: Move) -> bool {
    exists|i: int|
        0 <= i < n && movegen::wanted(g, mode, from, #[trigger] c[i]) && m == types::move_of(
            from,
            c[i],
        )
}

proof fn lemma_among(g: Game, mode: GenMode, from: int, c: Seq<int>, n: int)
    requires
        geom::valid(from),
        0 <= n <= c.len(),
        forall|i: int, j: int|
            0 <= i < j < c.len() && geom::valid(#[trigger] c[i]) ==> c[i] != #[trigger] c[j],
    ensures
        forall|m: Move| #[trigger]
            movegen::moves_among(g, mode, from, c, n).contains(m) <==> among(
                g,
                mode,
                from,
                c,
                n,
                m,
            ),
        movegen::moves_among(g, mode, from, c, n).no_duplicates(),
        movegen::moves_among(g, mode, from, c, n).len() <= n,
    decreases n,
{
    let cur = movegen::moves_among(g, mode, from, c, n);
    if n > 0 {
        lemma_among(g, mode, from, c, n - 1);
        let prev = movegen::moves_among(g, mode, from, c, n - 1);
        let to = c[n - 1];
        let last = types::move_of(from, to);
        assert forall|m: Move| #[trigger] cur.contains(m) <==> among(g, mode, from, c, n, m) by {
            if movegen::wanted(g, mode, from, to) {
                assert(cur[prev.len() as int] == last);
                if prev.contains(m) {
                    let i = choose|i: int| 0 <= i < prev.len() && prev[i] == m;
                    assert(cur[i] == m);
                }
                if cur.contains(m) {
                    let i = choose|i: int| 0 <= i < cur.len() && cur[i] == m;
                    if i < prev.len() {
                        assert(prev[i] == m);
                        assert(prev.contains(m));
                    }
                }
            }
            if prev.contains(m) {
                let i = choose|i: int|
                    0 <= i < n - 1 && movegen::wanted(g, mode, from, #[trigger] c[i]) && m
                        == types::move_of(from, c[i]);
                assert(0 <= i < n);
            }
            if among(g, mode, from, c, n, m) {
                let i = choose|i: int|
                    0 <= i < n && movegen::wanted(g, mode, from, #[trigger] c[i]) && m
                        == types::move_of(from, c[i]);
                if i < n - 1 {
                    assert(among(g, mode, from, c, n - 1, m));
                    assert(prev.contains(m));
                }
            }
        }
        if movegen::wanted(g, mode, from, to) {
            lemma_move_parts(from, to);
            assert(!prev.contains(last)) by {
                if prev.contains(last) {
                    let i = choose|i: int|
                        0 <= i < n - 1 && movegen::wanted(g, mode, from, #[trigger] c[i]) && last
                            == types::move_of(from, c[i]);
                    lemma_move_parts(from, c[i]);
                    assert(c[i] != c[n - 1]);
                }
            }
            assert forall|i: int, j: int| 0 <= i < j < cur.len() implies cur[i] != cur[j] by {
                assert(prev.contains(prev[i]));
            }
        }
    }
}

/// `m` is a wanted move of a piece of type `pt` below square `n`.
spec fn kind_wants(g: Game, mode: GenMode, pt: PieceType, n: int, m: Move) -> bool {
    &&& m == types::move_of(m.src(), m.dst())
    &&& m.src() < n
    &&& rules::stands(g, (g.side, pt), m.src())
    &&& movegen::wanted(g, mode, m.src(), m.dst())
}

proof fn lemma_moves_of(g: Game, mode: GenMode, pt: PieceType, n: int)
    requires
        0 <= n <= 64,
    ensures
        forall|m: Move| #[trigger]
            movegen::moves_of(g, mode, pt, n).contains(m) <==> kind_wants(g, mode, pt, n, m),
        movegen::moves_of(g, mode, pt, n).no_duplicates(),
    decreases n,
{
    let cur = movegen::moves_of(g, mode, pt, n);
    if n > 0 {
        lemma_moves_of(g, mode, pt, n - 1);
        let prev = movegen::moves_of(g, mode, pt, n - 1);
        let from = n - 1;
        if rules::stands(g, (g.side, pt), from) {
            let c = movegen::candidates(pt, from);
            lemma_candidates(g, pt, from);
            lemma_among(g, mode, from, c, c.len() as int);
            let add = movegen::moves_from(g, mode, pt, from);
            assert forall|m: Move| #[trigger] add.contains(m) <==> m == types::move_of(
                m.src(),
                m.dst(),
            ) && m.src() == from && movegen::wanted(g, mode, from, m.dst()) by {
                if add.contains(m) {
                    let i = choose|i: int|
                        0 <= i < c.len() && movegen::wanted(g, mode, from, #[trigger] c[i]) && m
                            == types::move_of(from, c[i]);
                    lemma_move_parts(from, c[i]);
                }
                if m == types::move_of(m.src(), m.dst()) && m.src() == from && movegen::wanted(
                    g,
                    mode,
                    from,
                    m.dst(),
                ) {
                    assert(rules::reaches(g, pt, from, m.dst()));
                    assert(c.contains(m.dst()));
                    let i = choose|i: int| 0 <= i < c.len() && c[i] == m.dst();
                    assert(among(g, mode, from, c, c.len() as int, m));
                }
            }
            assert forall|m: Move| #[trigger] cur.contains(m) <==> prev.contains(m)
                || add.contains(m) by {
                lemma_contains_concat(prev, add, m);
            }
            lemma_distinct_concat(prev, add);
        }
    }
}

proof fn lemma_contains_concat(a: Seq<Move>, b: Seq<Move>, m: Move)
    ensures
        (a + b).contains(m) <==> a.contains(m) || b.contains(m),
{
    let c = a + b;
    if a.contains(m) {
        let i = choose|i: int| 0 <= i < a.len() && a[i] == m;
        assert(c[i] == m);
    }
    if b.contains(m) {
        let i = choose|i: int| 0 <= i < b.len() && b[i] == m;
        assert(c[a.len() + i] == m);
    }
    if c.contains(m) {
        let i = choose|i: int| 0 <= i < c.len() && c[i] == m;
        if i < a.len() {
            assert(a[i] == m);
        } else {
            assert(b[i - a.len()] == m);
        }
    }
}

proof fn lemma_distinct_concat(a: Seq<Move>, b: Seq<Move>)
    requires
        a.no_duplicates(),
        b.no_duplicates(),
        forall|m: Move| #[trigger] a.contains(m) ==> !b.contains(m),
    ensures
        (a + b).no_duplicates(),
{
    let c = a + b;
    assert forall|i: int, j: int| 0 <= i < j < c.len() implies c[i] != c[j] by {
        if i < a.len() && j >= a.len() {
            assert(a.contains(a[i]));
            assert(b.contains(b[j - a.len()]));
        }
    }
}

/// The list for a mode holds exactly the wanted moves, each once. For `All` these are
/// the legal moves.
pub proof fn law_generated_members(g: Game, mode: GenMode)
    requires
        g.board.len() == 64,
    ensures
        forall|m: Move| #[trigger]
            movegen::generated(g, mode).contains(m) <==> m == types::move_of(m.src(), m.dst())
                && movegen::wanted(g, mode, m.src(), m.dst()),
        movegen::generated(g, mode).no_duplicates(),
{
    let k = movegen::moves_of(g, mode, PieceType::King, 64);
    let n = movegen::moves_of(g, mode, PieceType::Knight, 64);
    let r = movegen::moves_of(g, mode, PieceType::Rook, 64);
    let b = movegen::moves_of(g, mode, PieceType::Bishop, 64);
    let q = movegen::moves_of(g, mode, PieceType::Queen, 64);
    let p = movegen::moves_of(g, mode, PieceType::Pawn, 64);
    lemma_moves_of(g, mode, PieceType::King, 64);
    lemma_moves_of(g, mode, PieceType::Knight, 64);
    lemma_moves_of(g, mode, PieceType::Rook, 64);
    lemma_moves_of(g, mode, PieceType::Bishop, 64);
    lemma_moves_of(g, mode, PieceType::Queen, 64);
    lemma_moves_of(g, mode, PieceType::Pawn, 64);
    assert forall|m: Move|
        #![trigger (k + n).contains(m)]
        #![trigger (k + n + r).contains(m)]
        #![trigger (k + n + r + b).contains(m)]
        #![trigger (k + n + r + b + q).contains(m)]
        #![trigger (k + n + r + b + q + p).contains(m)]
        {
            &&& (k + n).contains(m) <==> k.contains(m) || n.contains(m)
            &&& (k + n + r).contains(m) <==> k.contains(m) || n.contains(m) || r.contains(m)
            &&& (k + n + r + b).contains(m) <==> k.contains(m) || n.contains(m) || r.contains(m)
                || b.contains(m)
            &&& (k + n + r + b + q).contains(m) <==> k.contains(m) || n.contains(m) || r.contains(m)
                || b.contains(m) || q.contains(m)
            &&& (k + n + r + b + q + p).contains(m) <==> k.contains(m) || n.contains(m)
                || r.contains(m) || b.contains(m) || q.contains(m) || p.contains(m)
        } by {
        lemma_contains_concat(k, n, m);
        lemma_contains_concat(k + n, r, m);
        lemma_contains_concat(k + n + r, b, m);
        lemma_contains_concat(k + n + r + b, q, m);
        lemma_contains_concat(k + n + r + b + q, p, m);
    }
    lemma_distinct_concat(k, n);
    lemma_distinct_concat(k + n, r);
    lemma_distinct_concat(k + n + r, b);
    lemma_distinct_concat(k + n + r + b, q);
    lemma_distinct_concat(k + n + r + b + q, p);
    assert forall|m: Move| #[trigger]
        movegen::generated(g, mode).contains(m) <==> m == types::move_of(m.src(), m.dst())
            && movegen::wanted(g, mode, m.src(), m.dst()) by {
        assert((k + n + r + b + q + p).contains(m) <==> k.contains(m) || n.contains(m)
            || r.contains(m) || b.contains(m) || q.contains(m) || p.contains(m));
        if movegen::wanted(g, mode, m.src(), m.dst()) {
            assert(rules::stands(g, (g.side, rules::kind_on(g, m.src())), m.src()));
        }
    }
}

/// The quiescence list and the search list are parts of the full list.
pub proof fn law_lists_are_parts_of_the_full_list(g: Game, mode: GenMode, m: Move)
    requires
        g.board.len() == 64,
        movegen::generated(g, mode).contains(m),
    ensures
        movegen::generated(g, GenMode::All).contains(m),
        mode == GenMode::Captures ==> movegen::captures(g, m.src(), m.dst()),
{
    law_generated_members(g, mode);
    law_generated_members(g, GenMode::All);
}

/// A move in the full list that destroys something is in the quiescence list.
pub proof fn law_every_capture_is_listed(g: Game, m: Move)
    requires
        g.board.len() == 64,
        movegen::generated(g, GenMode::All).contains(m),
        movegen::captures(g, m.src(), m.dst()),
    ensures
        movegen::generated(g, GenMode::Captures).contains(m),
{
    law_generated_members(g, GenMode::All);
    law_generated_members(g, GenMode::Captures);
}

/// A side with a king has a move, in the full list and in the search list.
pub proof fn law_a_king_always_has_a_move(g: Game)
    requires
        g.board.len() == 64,
        rules::has_king(g, g.side),
    ensures
        movegen::generated(g, GenMode::All).len() > 0,
        movegen::generated(g, GenMode::Search).len() > 0,
{
    let k = choose|s: int| #[trigger] rules::stands(g, (g.side, PieceType::King), s);
    let t = if geom::rank(k) < 7 {
        k + 8
    } else {
        k - 8
    };
    assert(geom::adjacent(k, t));
    let m = types::move_of(k, t);
    lemma_move_parts(k, t);
    law_generated_members(g, GenMode::All);
    law_generated_members(g, GenMode::Search);
    assert(movegen::wanted(g, GenMode::All, k, t));
    assert(movegen::wanted(g, GenMode::Search, k, t));
    assert(movegen::generated(g, GenMode::All).contains(m));
    assert(movegen::generated(g, GenMode::Search).contains(m));
}

/// What ordering sees of a move is what playing it does.
pub proof fn law_capture_effects_agree(g: Game, from: int, to: int, seen: Bitboard, died: bool, info: MoveInfo)
    requires
        forall|s: int| #[trigger] bits::bit(seen, s) <==> rules::hits(g, from, to, s),
        died == rules::dies(g, from, to),
        info.tells(g, from, to),
    ensures
        seen == info.captured,
        died == info.mover_died,
{
    assert forall|s: int| 0 <= s < 64 implies #[trigger] bits::bit(seen, s) == bits::bit(
        info.captured,
        s,
    ) by {
        assert(bits::bit(info.captured, s) <==> rules::hits(g, from, to, s));
    }
    bits::lemma_board_ext(seen, info.captured);
}

// ---------------------------------------------------------------------------
// How many moves there are
// ---------------------------------------------------------------------------

/// Number of empty squares.
pub open spec fn vacancies(g: Game) -> int {
    bits::count_squares(|s: int| !rules::occupied(g, s))
}

proof fn lemma_pawn_row(g: Game, from: int, n: nat)
    requires
        rules::stands(g, (g.side, PieceType::Pawn), from),
        n <= 64,
    ensures
        movegen::moves_among(
            g,
            GenMode::All,
            from,
            movegen::candidates(PieceType::Pawn, from),
            n as int,
        ).len() == bits::count_below(|s: int| !rules::occupied(g, s), n),
    decreases n,
{
    if n > 0 {
        lemma_pawn_row(g, from, (n - 1) as nat);
        assert(movegen::candidates(PieceType::Pawn, from)[n - 1] == n - 1);
    }
}

proof fn lemma_pawn_rows(g: Game, n: nat)
    requires
        n <= 64,
    ensures
        movegen::moves_of(g, GenMode::All, PieceType::Pawn, n as int).len() == bits::count_below(
            |s: int| rules::stands(g, (g.side, PieceType::Pawn), s),
            n,
        ) * vacancies(g),
    decreases n,
{
    let p = |s: int| rules::stands(g, (g.side, PieceType::Pawn), s);
    let v = vacancies(g);
    if n > 0 {
        lemma_pawn_rows(g, (n - 1) as nat);
        let k = bits::count_below(p, (n - 1) as nat);
        if p(n - 1) {
            lemma_pawn_row(g, n - 1, 64);
            assert((k + 1) * v == k * v + v) by (nonlinear_arith);
        }
    } else {
        assert(0 * v == 0);
    }
}

/// The teleports in the full list number pawns times empty squares.
pub proof fn law_teleports_are_pawns_times_vacancies(g: Game)
    requires
        g.board.len() == 64,
    ensures
        movegen::moves_of(g, GenMode::All, PieceType::Pawn, 64).len() == rules::count(
            g,
            (g.side, PieceType::Pawn),
        ) * vacancies(g),
{
    lemma_pawn_rows(g, 64);
}

/// The squares of a ray, outward.
spec fn ray(d: int, s: int) -> Seq<int> {
    Seq::new(geom::ray_len(d, s) as nat, |k: int| geom::ray_square(d, s, k + 1))
}

proof fn lemma_ray_lists(d: int, s: int, t: int)
    requires
        geom::valid(s),
        geom::valid(t),
        0 <= d < 8,
        geom::dir(s, t) == d,
    ensures
        ray(d, s).contains(t),
{
    geom::lemma_on_ray(d, s, t);
    assert(ray(d, s)[geom::dist(s, t) - 1] == t);
}

/// The most moves a piece can have.
pub open spec fn most_moves(pt: PieceType) -> int {
    match pt {
        PieceType::King => 8,
        PieceType::Knight => 8,
        PieceType::Bishop => 13,
        PieceType::Rook => 14,
        PieceType::Queen => 27,
        PieceType::Pawn => 63,
    }
}

proof fn lemma_row_count(g: Game, mode: GenMode, from: int, n: nat)
    requires
        n <= 64,
    ensures
        movegen::moves_among(
            g,
            mode,
            from,
            movegen::candidates(PieceType::King, from),
            n as int,
        ).len() == bits::count_below(|t: int| movegen::wanted(g, mode, from, t), n),
    decreases n,
{
    if n > 0 {
        lemma_row_count(g, mode, from, (n - 1) as nat);
        assert(movegen::candidates(PieceType::King, from)[n - 1] == n - 1);
    }
}

spec fn rays_below(d: int, from: int) -> int
    decreases d,
{
    if d <= 0 {
        0
    } else {
        rays_below(d - 1, from) + geom::ray_len(d - 1, from)
    }
}

proof fn lemma_queen_row(g: Game, mode: GenMode, from: int, d: int, k: int)
    requires
        geom::valid(from),
        0 <= d < 8,
        0 <= k <= 7,
    ensures
        movegen::moves_among(
            g,
            mode,
            from,
            movegen::candidates(PieceType::Queen, from),
            7 * d + k,
        ).len() <= rays_below(d, from) + (if k < geom::ray_len(d, from) {
            k
        } else {
            geom::ray_len(d, from)
        }),
    decreases d, k,
{
    let c = movegen::candidates(PieceType::Queen, from);
    if k > 0 {
        lemma_queen_row(g, mode, from, d, k - 1);
        let i = 7 * d + k - 1;
        assert(i / 7 == d && i % 7 == k - 1);
        if k > geom::ray_len(d, from) {
            assert(c[i] == 64);
        }
    } else if d > 0 {
        lemma_queen_row(g, mode, from, d - 1, 7);
    }
}

proof fn lemma_most_moves(g: Game, mode: GenMode, pt: PieceType, from: int)
    requires
        rules::stands(g, (g.side, pt), from),
        pt != PieceType::Pawn,
    ensures
        movegen::moves_from(g, mode, pt, from).len() <= most_moves(pt),
{
    let p = |t: int| movegen::wanted(g, mode, from, t);
    match pt {
        PieceType::Knight => {
            lemma_candidates(g, pt, from);
            lemma_among(g, mode, from, movegen::candidates(pt, from), 8);
        },
        PieceType::Queen => {
            lemma_queen_row(g, mode, from, 7, 7);
            reveal_with_fuel(rays_below, 9);
        },
        PieceType::King => {
            lemma_row_count(g, mode, from, 64);
            let l = seq![
                from - 9,
                from - 8,
                from - 7,
                from - 1,
                from + 1,
                from + 7,
                from + 8,
                from + 9,
            ];
            assert forall|t: int| 0 <= t < 64 && #[trigger] p(t) implies l.contains(t) by {
                assert(geom::adjacent(from, t));
                assert(l[0] == from - 9 && l[1] == from - 8 && l[2] == from - 7 && l[3] == from - 1
                    && l[4] == from + 1 && l[5] == from + 7 && l[6] == from + 8 && l[7] == from
                    + 9);
            }
            bits::lemma_count_listed(p, l);
        },
        PieceType::Rook => {
            lemma_row_count(g, mode, from, 64);
            let l = ray(0, from) + ray(2, from) + ray(4, from) + ray(6, from);
            lemma_four_rays(p, from, 0, 2, 4, 6);
            assert(l.len() == 14);
        },
        PieceType::Bishop => {
            lemma_row_count(g, mode, from, 64);
            let l = ray(1, from) + ray(3, from) + ray(5, from) + ray(7, from);
            lemma_four_rays(p, from, 1, 3, 5, 7);
            assert(l.len() <= 13);
        },
        _ => {},
    }
}

proof fn lemma_four_rays(p: spec_fn(int) -> bool, from: int, a: int, b: int, c: int, d: int)
    requires
        geom::valid(from),
        0 <= a < 8,
        0 <= b < 8,
        0 <= c < 8,
        0 <= d < 8,
        forall|t: int|
            0 <= t < 64 && #[trigger] p(t) ==> geom::dir(from, t) == a || geom::dir(from, t) == b
                || geom::dir(from, t) == c || geom::dir(from, t) == d,
    ensures
        bits::count_squares(p) <= geom::ray_len(a, from) + geom::ray_len(b, from) + geom::ray_len(
            c,
            from,
        ) + geom::ray_len(d, from),
{
    let l = ray(a, from) + ray(b, from) + ray(c, from) + ray(d, from);
    let (na, nb, nc) = (ray(a, from).len(), ray(b, from).len(), ray(c, from).len());
    assert forall|t: int| 0 <= t < 64 && #[trigger] p(t) implies l.contains(t) by {
        let e = geom::dir(from, t);
        lemma_ray_lists(e, from, t);
        let i = choose|i: int| 0 <= i < ray(e, from).len() && ray(e, from)[i] == t;
        if e == a {
            assert(l[i] == t);
        } else if e == b {
            assert(l[na + i] == t);
        } else if e == c {
            assert(l[na + nb + i] == t);
        } else {
            assert(l[na + nb + nc + i] == t);
        }
    }
    bits::lemma_count_listed(p, l);
}

proof fn lemma_kind_bound(g: Game, mode: GenMode, pt: PieceType, n: nat)
    requires
        pt != PieceType::Pawn,
        n <= 64,
    ensures
        movegen::moves_of(g, mode, pt, n as int).len() <= bits::count_below(
            |s: int| rules::stands(g, (g.side, pt), s),
            n,
        ) * most_moves(pt),
    decreases n,
{
    let p = |s: int| rules::stands(g, (g.side, pt), s);
    if n > 0 {
        lemma_kind_bound(g, mode, pt, (n - 1) as nat);
        let k = bits::count_below(p, (n - 1) as nat);
        let b = most_moves(pt);
        if p(n - 1) {
            lemma_most_moves(g, mode, pt, n - 1);
            assert((k + 1) * b == k * b + b) by (nonlinear_arith);
        }
    }
}

/// No more pieces than a side starts with.
pub open spec fn standard(g: Game, c: Color) -> bool {
    &&& rules::count(g, (c, PieceType::Pawn)) <= 8
    &&& rules::count(g, (c, PieceType::Knight)) <= 2
    &&& rules::count(g, (c, PieceType::Bishop)) <= 2
    &&& rules::count(g, (c, PieceType::Rook)) <= 2
    &&& rules::count(g, (c, PieceType::Queen)) <= 1
    &&& rules::count(g, (c, PieceType::King)) <= 1
}

/// Occupied, but by none of the side's pieces of the first `k` types, nor by the pieces
/// of the type numbered `k`.
spec fn others(g: Game, c: Color, k: int, s: int) -> bool {
    rules::occupied(g, s) && !(rules::held_by(g, c, s) && rules::kind_on(g, s).code() < k)
}

proof fn lemma_others(g: Game, c: Color, k: int)
    requires
        g.board.len() == 64,
        0 <= k <= 6,
    ensures
        bits::count_squares(|s: int| others(g, c, k, s)) + (if k > 0 {
            rules::count(g, (c, PieceType::Pawn))
        } else {
            0
        }) + (if k > 1 {
            rules::count(g, (c, PieceType::Knight))
        } else {
            0
        }) + (if k > 2 {
            rules::count(g, (c, PieceType::Bishop))
        } else {
            0
        }) + (if k > 3 {
            rules::count(g, (c, PieceType::Rook))
        } else {
            0
        }) + (if k > 4 {
            rules::count(g, (c, PieceType::Queen))
        } else {
            0
        }) + (if k > 5 {
            rules::count(g, (c, PieceType::King))
        } else {
            0
        }) <= bits::count_squares(|s: int| rules::occupied(g, s)),
    decreases k,
{
    if k == 0 {
        bits::lemma_count_mono(
            |s: int| others(g, c, 0, s),
            |s: int| rules::occupied(g, s),
            64,
        );
    } else {
        lemma_others(g, c, k - 1);
        bits::lemma_count_disjoint(
            |s: int| others(g, c, k - 1, s),
            |s: int| others(g, c, k, s),
            |s: int| rules::stands(g, (c, types::kind_of(k - 1)), s),
            64,
        );
    }
}

proof fn lemma_count_complement(p: spec_fn(int) -> bool, q: spec_fn(int) -> bool, n: nat)
    requires
        forall|s: int| 0 <= s < n ==> #[trigger] p(s) == !q(s),
    ensures
        bits::count_below(p, n) + bits::count_below(q, n) == n,
    decreases n,
{
    if n > 0 {
        lemma_count_complement(p, q, (n - 1) as nat);
        assert(p(n - 1) == !q(n - 1));
    }
}

/// A side with at most the pieces it started with has at most 481 moves while the
/// other side has anything on the board.
pub proof fn law_at_most_481_moves(g: Game)
    requires
        g.board.len() == 64,
        standard(g, g.side),
        exists|s: int| #[trigger] rules::held_by(g, g.side.other(), s),
    ensures
        movegen::generated(g, GenMode::All).len() <= 481,
{
    let c = g.side;
    lemma_kind_bound(g, GenMode::All, PieceType::King, 64);
    lemma_kind_bound(g, GenMode::All, PieceType::Knight, 64);
    lemma_kind_bound(g, GenMode::All, PieceType::Rook, 64);
    lemma_kind_bound(g, GenMode::All, PieceType::Bishop, 64);
    lemma_kind_bound(g, GenMode::All, PieceType::Queen, 64);
    law_teleports_are_pawns_times_vacancies(g);
    lemma_others(g, c, 6);
    let rest = |s: int| others(g, c, 6, s);
    let e = choose|s: int| #[trigger] rules::held_by(g, g.side.other(), s);
    assert(rest(e));
    assert(bits::count_squares(rest) >= 1) by {
        bits::lemma_count_bounds(rest, 64);
        if bits::count_squares(rest) == 0 {
            bits::lemma_count_zero(rest, 64);
        }
    }
    let occ = |s: int| rules::occupied(g, s);
    let vac = |s: int| !rules::occupied(g, s);
    lemma_count_complement(vac, occ, 64);
    let k = rules::count(g, (c, PieceType::King));
    let n = rules::count(g, (c, PieceType::Knight));
    let b = rules::count(g, (c, PieceType::Bishop));
    let r = rules::count(g, (c, PieceType::Rook));
    let q = rules::count(g, (c, PieceType::Queen));
    let p = rules::count(g, (c, PieceType::Pawn));
    let v = vacancies(g);
    bits::lemma_count_bounds(|s: int| rules::stands(g, (c, PieceType::King), s), 64);
    bits::lemma_count_bounds(|s: int| rules::stands(g, (c, PieceType::Knight), s), 64);
    bits::lemma_count_bounds(|s: int| rules::stands(g, (c, PieceType::Bishop), s), 64);
    bits::lemma_count_bounds(|s: int| rules::stands(g, (c, PieceType::Rook), s), 64);
    bits::lemma_count_bounds(|s: int| rules::stands(g, (c, PieceType::Queen), s), 64);
    bits::lemma_count_bounds(|s: int| rules::stands(g, (c, PieceType::Pawn), s), 64);
    assert(v <= 63 - k - n - b - r - q - p);
    assert(8 * k + 8 * n + 13 * b + 14 * r + 27 * q + p * v <= 481) by (nonlinear_arith)
        requires
            0 <= k <= 1,
            0 <= n <= 2,
            0 <= b <= 2,
            0 <= r <= 2,
            0 <= q <= 1,
            0 <= p <= 8,
            v <= 63 - k - n - b - r - q - p,
    ;
}

proof fn lemma_among_shorter(g: Game, mode: GenMode, from: int, c: Seq<int>, n: int)
    ensures
        movegen::moves_among(g, mode, from, c, n).len() <= movegen::moves_among(
            g,
            GenMode::All,
            from,
            c,
            n,
        ).len(),
    decreases n,
{
    if n > 0 {
        lemma_among_shorter(g, mode, from, c, n - 1);
    }
}

proof fn lemma_kind_shorter(g: Game, mode: GenMode, pt: PieceType, n: int)
    ensures
        movegen::moves_of(g, mode, pt, n).len() <= movegen::moves_of(
            g,
            GenMode::All,
            pt,
            n,
        ).len(),
    decreases n,
{
    if n > 0 {
        lemma_kind_shorter(g, mode, pt, n - 1);
        let c = movegen::candidates(pt, n - 1);
        lemma_among_shorter(g, mode, n - 1, c, c.len() as int);
    }
}

/// While both sides have a king and the mover no more than it started with, a move
/// list drops nothing.
pub proof fn law_no_move_is_dropped(g: Game, mode: GenMode)
    requires
        g.board.len() == 64,
        standard(g, g.side),
        rules::has_king(g, g.side.other()),
    ensures
        movegen::kept(movegen::generated(g, mode)) == movegen::generated(g, mode),
        movegen::generated(g, mode).len() <= 481,
{
    let e = choose|s: int| #[trigger] rules::stands(g, (g.side.other(), PieceType::King), s);
    assert(rules::held_by(g, g.side.other(), e));
    law_at_most_481_moves(g);
    lemma_kind_shorter(g, mode, PieceType::King, 64);
    lemma_kind_shorter(g, mode, PieceType::Knight, 64);
    lemma_kind_shorter(g, mode, PieceType::Rook, 64);
    lemma_kind_shorter(g, mode, PieceType::Bishop, 64);
    lemma_kind_shorter(g, mode, PieceType::Queen, 64);
    lemma_kind_shorter(g, mode, PieceType::Pawn, 64);
}

// ---------------------------------------------------------------------------
// What a move leaves
// ---------------------------------------------------------------------------

/// A move adds no piece: there is no promotion.
pub proof fn law_no_piece_is_gained(g: Game, from: int, to: int, m: Man)
    requires
        g.board.len() == 64,
        rules::playable(g, from, to),
    ensures
        rules::count(rules::apply(g, from, to), m) <= rules::count(g, m),
{
    let h = rules::apply(g, from, to);
    let p = |s: int| rules::stands(g, m, s);
    let q = |s: int| rules::stands(h, m, s);
    if from == to || rules::dies(g, from, to) {
        bits::lemma_count_mono(q, p, 64);
    } else {
        // The board without the mover, before and after.
        let p1 = |s: int| s != from && p(s);
        let q1 = |s: int| s != to && q(s);
        bits::lemma_count_point(p1, p, from, 64);
        bits::lemma_count_point(q1, q, to, 64);
        bits::lemma_count_mono(q1, p1, 64);
    }
}

/// How many pieces are on the board.
pub open spec fn crowd(g: Game) -> int {
    bits::count_squares(|s: int| rules::occupied(g, s))
}

/// A move never leaves more pieces on the board than there were.
pub proof fn law_the_board_only_thins_out(g: Game, from: int, to: int)
    requires
        g.board.len() == 64,
        rules::playable(g, from, to),
    ensures
        crowd(rules::apply(g, from, to)) <= crowd(g),
{
    let h = rules::apply(g, from, to);
    let p = |s: int| rules::occupied(g, s);
    let q = |s: int| rules::occupied(h, s);
    if from == to || rules::dies(g, from, to) {
        bits::lemma_count_mono(q, p, 64);
    } else {
        // The board without the mover, before and after.
        let p1 = |s: int| s != from && p(s);
        let q1 = |s: int| s != to && q(s);
        bits::lemma_count_point(p1, p, from, 64);
        bits::lemma_count_point(q1, q, to, 64);
        bits::lemma_count_mono(q1, p1, 64);
    }
}

/// Hence a side never has more than it started with.
pub proof fn law_moves_keep_material_standard(g: Game, from: int, to: int, c: Color)
    requires
        g.board.len() == 64,
        rules::playable(g, from, to),
        standard(g, c),
    ensures
        standard(rules::apply(g, from, to), c),
{
    law_no_piece_is_gained(g, from, to, (c, PieceType::Pawn));
    law_no_piece_is_gained(g, from, to, (c, PieceType::Knight));
    law_no_piece_is_gained(g, from, to, (c, PieceType::Bishop));
    law_no_piece_is_gained(g, from, to, (c, PieceType::Rook));
    law_no_piece_is_gained(g, from, to, (c, PieceType::Queen));
    law_no_piece_is_gained(g, from, to, (c, PieceType::King));
}

/// Knights, queens and kings survive their own moves, and stand on their destination;
/// a rook or bishop that lands on something is gone, with all of the blast.
pub proof fn law_who_survives(g: Game, from: int, to: int)
    requires
        g.board.len() == 64,
        rules::legal(g, from, to),
    ensures
        rules::apply(g, from, to).board[from] is None,
        rules::dies(g, from, to) <==> rules::occupied(g, to) && (rules::kind_on(g, from)
            == PieceType::Rook || rules::kind_on(g, from) == PieceType::Bishop),
        !rules::dies(g, from, to) ==> rules::apply(g, from, to).board[to] == g.board[from],
        rules::dies(g, from, to) ==> forall|s: int|
            geom::valid(s) && geom::blast(to, s) ==> #[trigger] rules::apply(
                g,
                from,
                to,
            ).board[s] is None,
{
}

/// A rook or bishop can only blow up a king from an occupied square next to it, or on the
/// king's own square: an empty ring is king safety.
pub proof fn law_an_empty_ring_is_king_safety(g: Game, from: int, to: int, k: int)
    requires
        g.board.len() == 64,
        rules::legal(g, from, to),
        geom::valid(k),
        rules::kind_on(g, from) == PieceType::Rook || rules::kind_on(g, from) == PieceType::Bishop,
        forall|s: int| #[trigger] geom::adjacent(k, s) ==> !rules::occupied(g, s),
        to != k,
    ensures
        !rules::hits(g, from, to, k),
{
    if rules::hits(g, from, to, k) {
        assert(geom::adjacent(k, to));
    }
}

/// How many pieces a move destroys, the mover left aside.
pub open spec fn toll(g: Game, from: int, to: int) -> int {
    bits::count_squares(|s: int| rules::hits(g, from, to, s))
}

/// The most that a piece of a type can destroy with one move.
pub open spec fn most_taken(pt: PieceType) -> int {
    match pt {
        PieceType::Pawn => 0,
        PieceType::Knight => 3,
        PieceType::Bishop => 9,
        PieceType::Rook => 9,
        PieceType::Queen => 2,
        PieceType::King => 1,
    }
}

/// A blast takes at most nine pieces, a knight at most three, a queen at most two, a king
/// one and a pawn none.
pub proof fn law_captures_are_limited(g: Game, from: int, to: int)
    requires
        g.board.len() == 64,
        rules::legal(g, from, to),
    ensures
        toll(g, from, to) <= most_taken(rules::kind_on(g, from)),
{
    let p = |s: int| rules::hits(g, from, to, s);
    match rules::kind_on(g, from) {
        PieceType::Pawn => {
            bits::lemma_count_listed(p, Seq::empty());
        },
        PieceType::King => {
            let l = seq![to];
            assert(l[0] == to);
            bits::lemma_count_listed(p, l);
        },
        PieceType::Knight => {
            let (dr, df) = (geom::dr(from, to), geom::df(from, to));
            let l = if geom::abs(dr) == 2 {
                seq![to, from + 8 * geom::sign(dr), from + 8 * dr]
            } else {
                seq![to, from + geom::sign(df), from + df]
            };
            assert forall|s: int| 0 <= s < 64 && #[trigger] p(s) implies l.contains(s) by {
                assert(s == l[0] || s == l[1] || s == l[2]);
            }
            bits::lemma_count_listed(p, l);
        },
        PieceType::Bishop | PieceType::Rook => {
            let l = seq![
                to - 9,
                to - 8,
                to - 7,
                to - 1,
                to,
                to + 1,
                to + 7,
                to + 8,
                to + 9,
            ];
            assert forall|s: int| 0 <= s < 64 && #[trigger] p(s) implies l.contains(s) by {
                let i = 3 * (geom::dr(to, s) + 1) + geom::df(to, s) + 1;
                assert(l[i] == s);
            }
            bits::lemma_count_listed(p, l);
        },
        PieceType::Queen => {
            lemma_queen_toll(g, from, to);
        },
    }
}

proof fn lemma_queen_toll(g: Game, from: int, to: int)
    requires
        g.board.len() == 64,
        rules::legal(g, from, to),
        rules::kind_on(g, from) == PieceType::Queen,
    ensures
        toll(g, from, to) <= 2,
{
    let p = |s: int| rules::hits(g, from, to, s);
    if exists|x: int| geom::between(from, to, x) && #[trigger] rules::occupied(g, x) {
        let x = choose|x: int| geom::between(from, to, x) && #[trigger] rules::occupied(g, x);
        let l = seq![to, x];
        assert forall|s: int| 0 <= s < 64 && #[trigger] p(s) implies l.contains(s) by {
            assert(l[0] == to && l[1] == x);
            assert(s == to || s == x);
        }
        bits::lemma_count_listed(p, l);
    } else {
        let l = seq![to];
        assert forall|s: int| 0 <= s < 64 && #[trigger] p(s) implies l.contains(s) by {
            assert(l[0] == to);
            assert(rules::occupied(g, s));
        }
        bits::lemma_count_listed(p, l);
    }
}

/// A side starts with no more than the standard pieces.
pub proof fn law_the_start_is_standard(c: Color)
    ensures
        standard(fen::start_game(), c),
{
    let g = fen::start_game();
    let (home, pawns): (int, int) = if c == Color::White {
        (0, 8)
    } else {
        (56, 48)
    };
    lemma_listed_men(g, (c, PieceType::Rook), seq![home, home + 7]);
    lemma_listed_men(g, (c, PieceType::Knight), seq![home + 1, home + 6]);
    lemma_listed_men(g, (c, PieceType::Bishop), seq![home + 2, home + 5]);
    let (queen, king) = (seq![home + 3], seq![home + 4]);
    assert(queen[0] == home + 3 && king[0] == home + 4);
    lemma_listed_men(g, (c, PieceType::Queen), queen);
    lemma_listed_men(g, (c, PieceType::King), king);
    let row = Seq::new(8, |i: int| pawns + i);
    assert forall|s: int| #[trigger] rules::stands(g, (c, PieceType::Pawn), s) implies exists|i: int|
        0 <= i < row.len() && #[trigger] row[i] == s by {
        assert(row[s - pawns] == s);
    }
    lemma_listed_men(g, (c, PieceType::Pawn), row);
}

proof fn lemma_listed_men(g: Game, m: Man, l: Seq<int>)
    requires
        forall|s: int| #[trigger]
            rules::stands(g, m, s) ==> exists|i: int| 0 <= i < l.len() && #[trigger] l[i] == s,
    ensures
        rules::count(g, m) <= l.len(),
{
    let p = |s: int| rules::stands(g, m, s);
    assert forall|s: int| 0 <= s < 64 && #[trigger] p(s) implies l.contains(s) by {
        assert(rules::stands(g, m, s));
    }
    bits::lemma_count_listed(p, l);
}

/// A consistent position with at most one king a side stays so.
pub proof fn law_moves_keep_kings_single(g: Game, from: int, to: int)
    requires
        g.board.len() == 64,
        rules::playable(g, from, to),
        Position::single_kings(g),
    ensures
        Position::single_kings(rules::apply(g, from, to)),
{
    law_no_piece_is_gained(g, from, to, (Color::White, PieceType::King));
    law_no_piece_is_gained(g, from, to, (Color::Black, PieceType::King));
}

// ---------------------------------------------------------------------------
// Where the search lets pawns go
// ---------------------------------------------------------------------------

proof fn lemma_teleport_listed(g: Game, p: int, s: int)
    requires
        g.board.len() == 64,
        rules::stands(g, (g.side, PieceType::Pawn), p),
        geom::valid(s),
        !rules::occupied(g, s),
        movegen::teleport_target(g, g.side, s),
    ensures
        movegen::generated(g, GenMode::Search).contains(types::move_of(p, s)),
{
    lemma_move_parts(p, s);
    law_generated_members(g, GenMode::Search);
    assert(movegen::wanted(g, GenMode::Search, p, s));
}

/// The search may put any pawn on any empty square next to the king of either colour:
/// next to the enemy's to make a detonator, next to its own to deny one.
pub proof fn law_pawns_go_next_to_either_king(g: Game, c: Color, k: int, p: int, s: int)
    requires
        g.board.len() == 64,
        rules::stands(g, (c, PieceType::King), k),
        forall|x: int| #[trigger] rules::stands(g, (c, PieceType::King), x) ==> k <= x,
        rules::stands(g, (g.side, PieceType::Pawn), p),
        geom::valid(s),
        s != k,
        -1 <= s / 8 - k / 8 <= 1,
        -1 <= s % 8 - k % 8 <= 1,
        !rules::occupied(g, s),
    ensures
        movegen::generated(g, GenMode::Search).contains(types::move_of(p, s)),
{
    lemma_king_found(g, c, k);
    assert(geom::adjacent(k, s));
    assert(movegen::near_king(g, c, s));
    lemma_teleport_listed(g, p, s);
}

proof fn lemma_king_found(g: Game, c: Color, k: int)
    requires
        rules::stands(g, (c, PieceType::King), k),
        forall|x: int| #[trigger] rules::stands(g, (c, PieceType::King), x) ==> k <= x,
    ensures
        rules::king_square(g, c) == Some(k),
{
    let p = |x: int| rules::stands(g, (c, PieceType::King), x);
    assert forall|x: int| 0 <= x < k implies !#[trigger] p(x) by {
        assert(!rules::stands(g, (c, PieceType::King), x));
    }
    bits::lemma_first_some(p, 0, k);
}

/// A rook of colour `c` on `x` sees `t` along a rank or a file, or a bishop along a
/// diagonal, with nothing in between.
pub open spec fn sees(g: Game, c: Color, x: int, t: int) -> bool {
    &&& geom::valid(t)
    &&& rules::stands(g, (c, PieceType::Rook), x) && geom::straight(geom::dir(x, t))
        || rules::stands(g, (c, PieceType::Bishop), x) && geom::diagonal(geom::dir(x, t))
    &&& forall|y: int| #[trigger] geom::between(x, t, y) ==> !rules::occupied(g, y)
}

/// The search may put any pawn on any square between its own king and an enemy rook or
/// bishop that can land on it.
pub proof fn law_pawns_block_sliders(g: Game, k: int, x: int, p: int, s: int)
    requires
        g.board.len() == 64,
        rules::stands(g, (g.side, PieceType::King), k),
        forall|y: int| #[trigger] rules::stands(g, (g.side, PieceType::King), y) ==> k <= y,
        sees(g, g.side.other(), x, k),
        rules::stands(g, (g.side, PieceType::Pawn), p),
        geom::valid(s),
        geom::between(x, k, s),
    ensures
        movegen::generated(g, GenMode::Search).contains(types::move_of(p, s)),
{
    lemma_king_found(g, g.side, k);
    assert(movegen::slider_reaches(g, g.side.other(), x, k) && geom::between(x, k, s));
    let at = rules::king_square(g, g.side)->0;
    assert(movegen::slider_reaches(g, g.side.other(), x, at) && geom::between(x, at, s));
    assert(movegen::interposes(g, g.side, s));
    lemma_teleport_listed(g, p, s);
}

/// The search may put any pawn where an own rook or bishop could then detonate on it next
/// to an enemy that is no pawn.
pub proof fn law_pawns_make_detonators(g: Game, x: int, y: int, p: int, s: int)
    requires
        g.board.len() == 64,
        sees(g, g.side, x, s),
        !rules::occupied(g, s),
        rules::held_by(g, g.side.other(), y),
        !rules::stands(g, (g.side.other(), PieceType::Pawn), y),
        s != y,
        -1 <= s / 8 - y / 8 <= 1,
        -1 <= s % 8 - y % 8 <= 1,
        rules::stands(g, (g.side, PieceType::Pawn), p),
    ensures
        movegen::generated(g, GenMode::Search).contains(types::move_of(p, s)),
{
    assert(movegen::slider_reaches(g, g.side, x, s));
    assert(movegen::worthwhile(g, g.side.other(), y) && geom::adjacent(s, y));
    assert(movegen::primes(g, g.side, s));
    lemma_teleport_listed(g, p, s);
}

/// The search leaves out no move of a piece that is not a pawn.
pub proof fn law_only_teleports_are_restricted(g: Game, from: int, to: int)
    requires
        g.board.len() == 64,
        rules::legal(g, from, to),
        rules::kind_on(g, from) != PieceType::Pawn,
    ensures
        movegen::generated(g, GenMode::Search).contains(types::move_of(from, to)),
{
    lemma_move_parts(from, to);
    law_generated_members(g, GenMode::Search);
    assert(movegen::wanted(g, GenMode::Search, from, to));
}

/// A square that is neither next to a king, nor between the king of the side to move and
/// a slider that can land on it, nor good for a detonation.
pub open spec fn idle(g: Game, s: int) -> bool {
    &&& geom::valid(s)
    &&& !rules::occupied(g, s)
    &&& forall|c: Color|
        (#[trigger] rules::king_square(g, c)) matches Some(k) ==> !geom::adjacent(k, s)
    &&& rules::king_square(g, g.side) matches Some(k) ==> forall|x: int| #[trigger]
        sees(g, g.side.other(), x, k) ==> !geom::between(x, k, s)
    &&& !((exists|x: int| #[trigger] sees(g, g.side, x, s)) && exists|y: int| #[trigger]
        rules::held_by(g, g.side.other(), y) && !rules::stands(
            g,
            (g.side.other(), PieceType::Pawn),
            y,
        ) && geom::adjacent(s, y))
}

pub proof fn lemma_sees(g: Game, c: Color, x: int, t: int)
    ensures
        sees(g, c, x, t) == movegen::slider_reaches(g, c, x, t),
{
    if sees(g, c, x, t) {
        assert(rules::clear_line(g, x, t));
    }
    if movegen::slider_reaches(g, c, x, t) {
        assert forall|y: int| #[trigger] geom::between(x, t, y) implies !rules::occupied(g, y) by {
            if rules::occupied(g, y) {
                assert(rules::clear_line(g, x, t));
            }
        }
    }
}

proof fn lemma_idle(g: Game, s: int)
    ensures
        idle(g, s) == (geom::valid(s) && !rules::occupied(g, s) && !movegen::useful(g, g.side, s)),
{
    let o = g.side.other();
    assert forall|x: int, t: int| #[trigger]
        movegen::slider_reaches(g, o, x, t) == sees(g, o, x, t) by {
        lemma_sees(g, o, x, t);
    }
    assert forall|x: int| #[trigger] sees(g, g.side, x, s) == movegen::slider_reaches(
        g,
        g.side,
        x,
        s,
    ) by {
        lemma_sees(g, g.side, x, s);
    }
    assert forall|x: int| #[trigger] movegen::slider_reaches(g, g.side, x, s) == sees(
        g,
        g.side,
        x,
        s,
    ) by {
        lemma_sees(g, g.side, x, s);
    }
    if geom::valid(s) && !rules::occupied(g, s) {
        if movegen::useful(g, g.side, s) {
            if movegen::near_king(g, g.side, s) {
                assert(geom::adjacent(rules::king_square(g, g.side)->0, s));
            }
            if movegen::near_king(g, o, s) {
                assert(geom::adjacent(rules::king_square(g, o)->0, s));
            }
            if movegen::interposes(g, g.side, s) {
                let k = rules::king_square(g, g.side)->0;
                let x = choose|x: int| #[trigger]
                    movegen::slider_reaches(g, o, x, k) && geom::between(x, k, s);
                assert(sees(g, o, x, k));
            }
            if movegen::primes(g, g.side, s) {
                let x = choose|x: int| #[trigger] movegen::slider_reaches(g, g.side, x, s);
                assert(sees(g, g.side, x, s));
                let y = choose|y: int| #[trigger]
                    movegen::worthwhile(g, o, y) && geom::adjacent(s, y);
                assert(rules::held_by(g, o, y) && !rules::stands(g, (o, PieceType::Pawn), y));
            }
            assert(!idle(g, s));
        } else {
            assert forall|c: Color|
                (#[trigger] rules::king_square(g, c)) matches Some(k) ==> !geom::adjacent(k, s) by {
                assert(!movegen::near_king(g, c, s));
            }
            if let Some(k) = rules::king_square(g, g.side) {
                assert forall|x: int| #[trigger] sees(g, o, x, k) implies !geom::between(x, k, s) by {
                    assert(movegen::slider_reaches(g, o, x, k));
                }
            }
            if (exists|x: int| #[trigger] sees(g, g.side, x, s)) && exists|y: int| #[trigger]
                rules::held_by(g, o, y) && !rules::stands(g, (o, PieceType::Pawn), y)
                    && geom::adjacent(s, y) {
                let x = choose|x: int| #[trigger] sees(g, g.side, x, s);
                assert(movegen::slider_reaches(g, g.side, x, s));
                let y = choose|y: int| #[trigger]
                    rules::held_by(g, o, y) && !rules::stands(g, (o, PieceType::Pawn), y)
                        && geom::adjacent(s, y);
                assert(movegen::worthwhile(g, o, y));
                assert(movegen::primes(g, g.side, s));
            }
        }
    }
}

proof fn lemma_king_stands(g: Game, c: Color)
    ensures
        rules::king_square(g, c) matches Some(k) ==> rules::stands(g, (c, PieceType::King), k),
{
    bits::lemma_first_from(|x: int| rules::stands(g, (c, PieceType::King), x), 0);
}

/// The square of `p` with `r` others below it.
proof fn lemma_ranked(p: spec_fn(int) -> bool, r: int, n: nat) -> (x: int)
    requires
        0 <= r < bits::count_below(p, n),
    ensures
        0 <= x < n,
        p(x),
        bits::count_below(p, x as nat) == r,
    decreases n,
{
    if r < bits::count_below(p, (n - 1) as nat) {
        lemma_ranked(p, r, (n - 1) as nat)
    } else {
        assert(p(n - 1));
        n - 1
    }
}

proof fn lemma_rank_apart(p: spec_fn(int) -> bool, a: int, b: int)
    requires
        0 <= a < b,
        p(a),
    ensures
        bits::count_below(p, a as nat) < bits::count_below(p, b as nat),
    decreases b,
{
    if a < b - 1 {
        lemma_rank_apart(p, a, b - 1);
    }
}

/// On squares that serve none of these ends the search puts pawns sparingly: at most four
/// of them are in its list. There is one in the list wherever there is one on the board,
/// so a pawn can always get away.
pub proof fn law_parking_is_sparing(g: Game)
    requires
        g.board.len() == 64,
    ensures
        bits::count_squares(
            |s: int| idle(g, s) && movegen::teleport_target(g, g.side, s),
        ) <= 4,
        (exists|s: int| #[trigger] idle(g, s)) ==> exists|s: int| #[trigger]
            idle(g, s) && movegen::teleport_target(g, g.side, s),
{
    let q = |t: int| movegen::quiet(g, g.side, t);
    let p = |s: int| idle(g, s) && movegen::teleport_target(g, g.side, s);
    let total = bits::count_squares(q);
    let step = total / 4;
    assert forall|s: int| #[trigger] p(s) implies movegen::sampled(q, 4, s) by {
        lemma_idle(g, s);
    }
    bits::lemma_count_bounds(q, 64);
    if total <= 4 {
        assert forall|s: int| 0 <= s < 64 && #[trigger] p(s) implies q(s) by {
            assert(movegen::sampled(q, 4, s));
        }
        bits::lemma_count_mono(p, q, 64);
    } else {
        let l = Seq::new(4, |j: int| spot(q, j * step));
        assert forall|s: int| 0 <= s < 64 && #[trigger] p(s) implies l.contains(s) by {
            assert(movegen::sampled(q, 4, s));
            let i = bits::count_below(q, s as nat);
            let j = i / step;
            bits::lemma_count_bounds(q, s as nat);
            assert(i == j * step) by (nonlinear_arith)
                requires
                    i % step == 0,
                    j == i / step,
                    step > 0,
            ;
            assert(0 <= j) by (nonlinear_arith)
                requires
                    i >= 0,
                    step > 0,
                    j == i / step,
            ;
            let x = spot(q, j * step);
            assert(0 <= s < 64 && q(s) && bits::count_below(q, s as nat) == j * step);
            if x < s {
                lemma_rank_apart(q, x, s);
            } else if s < x {
                lemma_rank_apart(q, s, x);
            }
            assert(l[j] == s);
        }
        bits::lemma_count_listed(p, l);
    }
    if exists|s: int| #[trigger] idle(g, s) {
        let s = choose|s: int| #[trigger] idle(g, s);
        lemma_idle(g, s);
        lemma_king_stands(g, g.side);
        lemma_king_stands(g, g.side.other());
        assert(q(s));
        if bits::count_below(q, 64) == 0 {
            bits::lemma_count_zero(q, 64);
            assert(!q(s));
        }
        let x = lemma_ranked(q, 0, 64);
        assert(movegen::quiet(g, g.side, x));
        lemma_idle(g, x);
        if total > 4 {
            assert(0int % step == 0 && 0int / step < 4) by (nonlinear_arith)
                requires
                    step > 0,
            ;
        }
        assert(movegen::sampled(q, 4, x));
        assert(idle(g, x) && movegen::teleport_target(g, g.side, x));
    }
}

/// The list of the search goes by that for every pawn: at most four idle squares, and one
/// where there is one.
pub proof fn law_idle_teleports_are_few(g: Game, p: int)
    requires
        g.board.len() == 64,
        rules::stands(g, (g.side, PieceType::Pawn), p),
    ensures
        bits::count_squares(
            |s: int|
                idle(g, s) && movegen::generated(g, GenMode::Search).contains(
                    types::move_of(p, s),
                ),
        ) <= 4,
        (exists|s: int| #[trigger] idle(g, s)) ==> exists|s: int| #[trigger]
            idle(g, s) && movegen::generated(g, GenMode::Search).contains(types::move_of(p, s)),
{
    let a = |s: int| idle(g, s) && movegen::teleport_target(g, g.side, s);
    let b = |s: int|
        idle(g, s) && movegen::generated(g, GenMode::Search).contains(types::move_of(p, s));
    law_parking_is_sparing(g);
    law_generated_members(g, GenMode::Search);
    assert forall|s: int| idle(g, s) implies a(s) == #[trigger] b(s) by {
        lemma_move_parts(p, s);
        assert(rules::legal(g, p, s));
    }
    bits::lemma_count_ext(a, b, 64);
    if exists|s: int| #[trigger] idle(g, s) {
        let s = choose|s: int| #[trigger] idle(g, s) && movegen::teleport_target(g, g.side, s);
        assert(a(s) == b(s));
    }
}

/// A square of `p` with `r` others below it.
spec fn spot(p: spec_fn(int) -> bool, r: int) -> int {
    choose|x: int| 0 <= x < 64 && #[trigger] p(x) && bits::count_below(p, x as nat) == r
}

// ---------------------------------------------------------------------------
// Lines, moves and ends in plain numbers
// ---------------------------------------------------------------------------

/// Rooks go along ranks and files, bishops along diagonals, and nothing is in line with
/// itself.
pub proof fn law_lines(a: int, b: int)
    requires
        0 <= a < 64,
        0 <= b < 64,
    ensures
        geom::straight(geom::dir(a, b)) <==> a != b && (a / 8 == b / 8 || a % 8 == b % 8),
        geom::diagonal(geom::dir(a, b)) <==> a != b && (a / 8 - b / 8 == a % 8 - b % 8 || a / 8 - b
            / 8 == b % 8 - a % 8),
        geom::aligned(a, b) <==> geom::straight(geom::dir(a, b)) || geom::diagonal(
            geom::dir(a, b),
        ),
{
}

/// A square lies between two others in line just when one can get to it from either of
/// them in their direction, and it is neither of them.
pub proof fn law_between(a: int, b: int, x: int)
    requires
        0 <= a < 64,
        0 <= b < 64,
        0 <= x < 64,
    ensures
        geom::between(a, b, x) <==> geom::aligned(a, b) && x != a && x != b && ({
            let (r, f, u, v) = (b / 8 - a / 8, b % 8 - a % 8, x / 8 - a / 8, x % 8 - a % 8);
            &&& r == 0 ==> u == 0 && (0 < v < f || f < v < 0)
            &&& f == 0 ==> v == 0 && (0 < u < r || r < u < 0)
            &&& r == f ==> u == v && (0 < u < r || r < u < 0)
            &&& r == -f ==> u == -v && (0 < u < r || r < u < 0)
        }),
{
}

/// The full list is all legal moves and nothing else, each once.
pub proof fn law_the_full_list_is_all_legal_moves(g: Game, from: int, to: int)
    requires
        g.board.len() == 64,
        geom::valid(from),
        geom::valid(to),
    ensures
        movegen::generated(g, GenMode::All).contains(types::move_of(from, to)) <==> rules::legal(
            g,
            from,
            to,
        ),
        movegen::generated(g, GenMode::Captures).contains(types::move_of(from, to))
            <==> rules::legal(g, from, to) && exists|s: int| #[trigger]
            rules::hits(g, from, to, s),
        movegen::generated(g, GenMode::All).no_duplicates(),
        movegen::generated(g, GenMode::Search).no_duplicates(),
        movegen::generated(g, GenMode::Captures).no_duplicates(),
{
    lemma_move_parts(from, to);
    law_generated_members(g, GenMode::All);
    law_generated_members(g, GenMode::Captures);
    law_generated_members(g, GenMode::Search);
}

/// What a move destroys is what is gone from the board, or run over by the mover: the
/// mover itself is left aside, and everything else stays where it is.
pub proof fn law_what_is_destroyed_is_gone(g: Game, from: int, to: int, s: int)
    requires
        g.board.len() == 64,
        rules::legal(g, from, to),
        geom::valid(s),
    ensures
        ({
            let h = rules::apply(g, from, to);
            &&& rules::hits(g, from, to, s) <==> s != from && rules::occupied(g, s) && (s == to
                || h.board[s] is None)
            &&& s != from && s != to && !rules::hits(g, from, to, s) ==> h.board[s] == g.board[s]
            &&& h.board[from] is None
            &&& h.board[to] == (if rules::occupied(g, to) && (rules::kind_on(g, from)
                == PieceType::Rook || rules::kind_on(g, from) == PieceType::Bishop) {
                None
            } else {
                g.board[from]
            })
            &&& h.side == g.side.other()
            &&& h.ply == g.ply + 1
        }),
{
    rules::lemma_legal_playable(g, from, to);
}

/// The mask of what was destroyed and the mask of what was emptied are told apart: the
/// squares that were occupied and are empty now are the mover's, and those of what was
/// destroyed but for the one on which the mover stands.
pub proof fn law_the_move_report_is_right(g: Game, from: int, to: int, info: MoveInfo, s: int)
    requires
        g.board.len() == 64,
        rules::legal(g, from, to),
        info.tells(g, from, to),
        geom::valid(s),
    ensures
        bits::bit(info.emptied, s) <==> s == from || bits::bit(info.captured, s) && (s != to
            || info.mover_died),
        info.mover_died ==> bits::bit(info.captured, to),
        bits::bit(info.captured, s) ==> s != from && rules::occupied(g, s),
        g.board[from] == Some(types::man_of(info.piece as int)),
{
    law_what_is_destroyed_is_gone(g, from, to, s);
    law_what_is_destroyed_is_gone(g, from, to, to);
    assert(bits::bit(info.captured, s) <==> rules::hits(g, from, to, s));
    assert(bits::bit(info.captured, to) <==> rules::hits(g, from, to, to));
    assert(bits::bit(info.emptied, s) <==> rules::occupied(g, s) && !rules::occupied(
        rules::apply(g, from, to),
        s,
    ));
    assert(rules::occupied(g, from));
}

/// What colour `c` has on the board, 25 for a pawn, 900 for a knight, 400 for a bishop,
/// 450 for a rook and 1000 for a queen, square by square.
pub open spec fn holdings(g: Game, c: Color) -> int {
    bits::sum_squares(|s: int| rule_worth(g, c, s))
}

/// What the piece of colour `c` on `s` counts.
pub open spec fn rule_worth(g: Game, c: Color, s: int) -> int {
    match g.board[s] {
        Some(m) => if m.0 != c {
            0
        } else {
            match m.1 {
                PieceType::Pawn => 25,
                PieceType::Knight => 900,
                PieceType::Bishop => 400,
                PieceType::Rook => 450,
                PieceType::Queen => 1000,
                PieceType::King => 0,
            }
        },
        None => 0,
    }
}

proof fn lemma_holdings(g: Game, c: Color, n: nat)
    requires
        n <= 64,
    ensures
        bits::sum_below(|s: int| rule_worth(g, c, s), n) == bits::count_below(
            |s: int| rules::stands(g, (c, PieceType::Pawn), s),
            n,
        ) * 25 + bits::count_below(|s: int| rules::stands(g, (c, PieceType::Knight), s), n) * 900
            + bits::count_below(|s: int| rules::stands(g, (c, PieceType::Bishop), s), n) * 400
            + bits::count_below(|s: int| rules::stands(g, (c, PieceType::Rook), s), n) * 450
            + bits::count_below(|s: int| rules::stands(g, (c, PieceType::Queen), s), n) * 1000,
    decreases n,
{
    if n > 0 {
        lemma_holdings(g, c, (n - 1) as nat);
    }
}

/// How a game ends. A side without a king has lost, unless the other has none either,
/// which is a draw; so is a board of kings and pawns alone. At 200 plies the side ahead by
/// more than 200 wins, and otherwise it is a draw. Until then the game is on.
pub proof fn law_how_games_end(g: Game)
    requires
        g.board.len() == 64,
    ensures
        ({
            let (w, b) = (rules::has_king(g, Color::White), rules::has_king(g, Color::Black));
            let bare = forall|s: int|
                #![trigger rules::occupied(g, s)]
                rules::occupied(g, s) ==> rules::kind_on(g, s) == PieceType::King
                    || rules::kind_on(g, s) == PieceType::Pawn;
            let lead = holdings(g, Color::White) - holdings(g, Color::Black);
            &&& rules::material(g, Color::White) == holdings(g, Color::White)
            &&& rules::material(g, Color::Black) == holdings(g, Color::Black)
            &&& !w && !b ==> rules::outcome(g) == Some(GameResult::Draw)
            &&& w && !b ==> rules::outcome(g) == Some(GameResult::Win(Color::White))
            &&& !w && b ==> rules::outcome(g) == Some(GameResult::Win(Color::Black))
            &&& w && b && bare ==> rules::outcome(g) == Some(GameResult::Draw)
            &&& w && b && !bare && g.ply < 200 ==> rules::outcome(g) is None
            &&& w && b && !bare && g.ply >= 200 ==> rules::outcome(g) == Some(
                if lead > 200 {
                    GameResult::Win(Color::White)
                } else if lead < -200 {
                    GameResult::Win(Color::Black)
                } else {
                    GameResult::Draw
                },
            )
        }),
{
    lemma_holdings(g, Color::White, 64);
    lemma_holdings(g, Color::Black, 64);
    let bare = forall|s: int|
        #![trigger rules::occupied(g, s)]
        rules::occupied(g, s) ==> rules::kind_on(g, s) == PieceType::King || rules::kind_on(g, s)
            == PieceType::Pawn;
    if bare {
        assert forall|s: int| !#[trigger] rules::heavy_on(g, s) by {
            assert(rules::occupied(g, s) || !rules::occupied(g, s));
        }
    } else {
        let s = choose|s: int|
            #![trigger rules::occupied(g, s)]
            rules::occupied(g, s) && rules::kind_on(g, s) != PieceType::King && rules::kind_on(
                g,
                s,
            ) != PieceType::Pawn;
        assert(rules::heavy_on(g, s));
    }
}

/// How pieces move. Only the side to move moves, and only its own pieces. A pawn goes to
/// any empty square, a knight leaps two and one, a king steps to a square next to it; a
/// rook goes along its rank or file and a bishop along its diagonals as far as nothing is
/// in the way; a queen goes along all of them past at most one piece. Whatever stands on
/// the square they go to, of either colour, is no obstacle to any of them but the pawn.
pub proof fn law_how_pieces_move(g: Game, from: int, to: int)
    requires
        g.board.len() == 64,
        0 <= from < 64,
        0 <= to < 64,
    ensures
        ({
            let (r, f) = (to / 8 - from / 8, to % 8 - from % 8);
            let clear = forall|x: int| #[trigger]
                rules::occupied(g, x) ==> !geom::between(from, to, x);
            let one = forall|x: int, y: int|
                #[trigger] rules::occupied(g, x) && #[trigger] rules::occupied(g, y)
                    && geom::between(from, to, x) && geom::between(from, to, y) ==> x == y;
            rules::legal(g, from, to) <==> match g.board[from] {
                None => false,
                Some(m) => m.0 == g.side && match m.1 {
                    PieceType::Pawn => g.board[to] is None,
                    PieceType::Knight => (r == 2 || r == -2) && (f == 1 || f == -1) || (f == 2 || f
                        == -2) && (r == 1 || r == -1),
                    PieceType::Bishop => from != to && (r == f || r == -f) && clear,
                    PieceType::Rook => from != to && (r == 0 || f == 0) && clear,
                    PieceType::Queen => from != to && (r == 0 || f == 0 || r == f || r == -f)
                        && one,
                    PieceType::King => from != to && -1 <= r <= 1 && -1 <= f <= 1,
                },
            }
        }),
{
    law_lines(from, to);
}

/// What moves destroy. A pawn destroys nothing; a knight what stands on the three squares
/// of its leap; a king what it steps on; a queen what she runs over and what she lands
/// on; a rook or bishop nothing where it lands on an empty square, and otherwise all of
/// the nine squares around its landing, itself included.
pub proof fn law_what_moves_destroy(g: Game, from: int, to: int, s: int)
    requires
        g.board.len() == 64,
        rules::legal(g, from, to),
        0 <= s < 64,
    ensures
        ({
            let (r, f) = (to / 8 - from / 8, to % 8 - from % 8);
            let near = -1 <= s / 8 - to / 8 <= 1 && -1 <= s % 8 - to % 8 <= 1;
            let kind = rules::kind_on(g, from);
            let leg = if r == 2 || r == -2 {
                s % 8 == from % 8 && (s / 8 == from / 8 + r / 2 || s / 8 == from / 8 + r)
            } else {
                s / 8 == from / 8 && (s % 8 == from % 8 + f / 2 || s % 8 == from % 8 + f)
            };
            &&& rules::hits(g, from, to, s) <==> g.board[s] is Some && match kind {
                PieceType::Pawn => false,
                PieceType::Knight => s == to || leg,
                PieceType::King => s == to,
                PieceType::Queen => s == to || geom::between(from, to, s),
                _ => g.board[to] is Some && near && s != from,
            }
            &&& rules::dies(g, from, to) <==> g.board[to] is Some && (kind == PieceType::Rook
                || kind == PieceType::Bishop)
        }),
{
}

} // verus!
