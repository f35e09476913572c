//! What the terms of the evaluation count, said of the squares of the board.

use vstd::prelude::*;
use crate::bits;
use crate::eval;
use crate::geom;
use crate::laws;
use crate::movegen;
use crate::rules;
use crate::rules::Game;
use crate::types::{Color, Man, PieceType};

verus! {

/// `s` is at most one rank and one file away from `k`.
pub open spec fn close_to(k: int, s: int) -> bool {
    -1 <= s / 8 - k / 8 <= 1 && -1 <= s % 8 - k % 8 <= 1
}

/// A knight that leaps from `x` to `b` passes over `t`, or lands on it: it goes two squares
/// along a rank or a file, over both of them, and one to the side.
pub open spec fn leaps_over(x: int, b: int, t: int) -> bool {
    let (r, f) = (b / 8 - x / 8, b % 8 - x % 8);
    ||| (r == 2 || r == -2) && (f == 1 || f == -1) && (t == b || t % 8 == x % 8 && (t / 8 == x / 8
        + r / 2 || t / 8 == x / 8 + r))
    ||| (f == 2 || f == -2) && (r == 1 || r == -1) && (t == b || t / 8 == x / 8 && (t % 8 == x % 8
        + f / 2 || t % 8 == x % 8 + f))
}

/// A knight on `x` passes over `t`, or lands on it, in one of its leaps.
pub open spec fn sweeps(x: int, t: int) -> bool {
    exists|b: int| 0 <= b < 64 && #[trigger] leaps_over(x, b, t)
}

proof fn lemma_leaps_over(x: int, b: int, t: int)
    requires
        0 <= x < 64,
        0 <= b < 64,
        0 <= t < 64,
    ensures
        leaps_over(x, b, t) == geom::knight_path(x, b, t),
{
}

proof fn lemma_sweeps(x: int, t: int)
    requires
        0 <= x < 64,
        0 <= t < 64,
    ensures
        sweeps(x, t) == geom::knight_span(x, t),
{
    if sweeps(x, t) {
        let b = choose|b: int| 0 <= b < 64 && #[trigger] leaps_over(x, b, t);
        lemma_leaps_over(x, b, t);
        assert(geom::valid(b) && geom::knight_path(x, b, t));
    }
    if geom::knight_span(x, t) {
        let b = choose|b: int| geom::valid(b) && #[trigger] geom::knight_path(x, b, t);
        lemma_leaps_over(x, b, t);
        assert(leaps_over(x, b, t));
    }
}

proof fn lemma_king_at(g: Game, c: Color, k: int)
    requires
        rules::stands(g, (c, PieceType::King), k),
        forall|x: int| #[trigger] rules::stands(g, (c, PieceType::King), x) ==> k <= x,
    ensures
        rules::king_square(g, c) == Some(k),
{
    let p = |x: int| rules::stands(g, (c, PieceType::King), x);
    assert forall|x: int| 0 <= x < k implies !#[trigger] p(x) by {
        assert(!rules::stands(g, (c, PieceType::King), x));
    }
    bits::lemma_first_some(p, 0, k);
}

proof fn lemma_reached(g: Game, c: Color, t: int)
    ensures
        (exists|x: int| #[trigger] movegen::slider_reaches(g, c, x, t)) == (exists|x: int|
            #[trigger] laws::sees(g, c, x, t)),
{
    assert forall|x: int| #[trigger] movegen::slider_reaches(g, c, x, t) == laws::sees(
        g,
        c,
        x,
        t,
    ) by {
        laws::lemma_sees(g, c, x, t);
    }
    assert forall|x: int| #[trigger] laws::sees(g, c, x, t) == movegen::slider_reaches(
        g,
        c,
        x,
        t,
    ) by {
        laws::lemma_sees(g, c, x, t);
    }
    if exists|x: int| #[trigger] movegen::slider_reaches(g, c, x, t) {
        let x = choose|x: int| #[trigger] movegen::slider_reaches(g, c, x, t);
        assert(laws::sees(g, c, x, t));
    }
    if exists|x: int| #[trigger] laws::sees(g, c, x, t) {
        let x = choose|x: int| #[trigger] laws::sees(g, c, x, t);
        assert(movegen::slider_reaches(g, c, x, t));
    }
}

/// Around the king of colour `c` on `k`: the latent detonators are the pieces of either
/// side on the squares next to it; the live ones are the occupied squares of its blast,
/// its own included, that an enemy rook or bishop sees; the knights are the enemy's that
/// sweep over it; and the enemy's primers are the enemy's pieces next to it.
pub proof fn law_what_threatens_a_king(g: Game, c: Color, k: int)
    requires
        rules::stands(g, (c, PieceType::King), k),
        forall|x: int| #[trigger] rules::stands(g, (c, PieceType::King), x) ==> k <= x,
    ensures
        eval::latent(g, c) == bits::count_squares(
            |s: int| s != k && close_to(k, s) && rules::occupied(g, s),
        ),
        eval::live(g, c) == bits::count_squares(
            |s: int|
                close_to(k, s) && rules::occupied(g, s) && exists|x: int| #[trigger]
                    laws::sees(g, c.other(), x, s),
        ),
        eval::knights_on_king(g, c) == bits::count_squares(
            |x: int| rules::stands(g, (c.other(), PieceType::Knight), x) && sweeps(x, k),
        ),
        eval::primers(g, c.other()) == bits::count_squares(
            |s: int| s != k && close_to(k, s) && rules::held_by(g, c.other(), s),
        ),
{
    lemma_king_at(g, c, k);
    let o = c.other();
    assert(o.other() == c);
    bits::lemma_count_ext(
        |s: int| geom::adjacent(k, s) && rules::occupied(g, s),
        |s: int| s != k && close_to(k, s) && rules::occupied(g, s),
        64,
    );
    let p = |s: int| eval::detonation_point(g, o, k, s);
    let q = |s: int|
        close_to(k, s) && rules::occupied(g, s) && exists|x: int| #[trigger]
            laws::sees(g, o, x, s);
    assert forall|s: int| 0 <= s < 64 implies #[trigger] p(s) == q(s) by {
        lemma_reached(g, o, s);
    }
    bits::lemma_count_ext(p, q, 64);
    let a = |x: int| rules::stands(g, (o, PieceType::Knight), x) && geom::knight_span(x, k);
    let b = |x: int| rules::stands(g, (o, PieceType::Knight), x) && sweeps(x, k);
    assert forall|x: int| 0 <= x < 64 implies #[trigger] a(x) == b(x) by {
        lemma_sweeps(x, k);
    }
    bits::lemma_count_ext(a, b, 64);
    bits::lemma_count_ext(
        |s: int| geom::adjacent(k, s) && rules::held_by(g, o, s),
        |s: int| s != k && close_to(k, s) && rules::held_by(g, o, s),
        64,
    );
}

/// Without a king there is nothing to threaten.
pub proof fn law_no_king_no_threat(g: Game, c: Color)
    requires
        !rules::has_king(g, c),
    ensures
        eval::latent(g, c) == 0,
        eval::live(g, c) == 0,
        eval::knights_on_king(g, c) == 0,
        eval::primers(g, c.other()) == 0,
{
    let p = |x: int| rules::stands(g, (c, PieceType::King), x);
    assert forall|x: int| 0 <= x < 64 implies !#[trigger] p(x) by {
        assert(!rules::stands(g, (c, PieceType::King), x));
    }
    bits::lemma_first_none(p, 0);
    assert(c.other().other() == c);
}

/// The knights' prey is counted knight by knight: every enemy piece that a knight sweeps
/// over counts once for each such knight.
pub proof fn law_knights_count_their_prey(g: Game, c: Color)
    ensures
        eval::span_total(g, c) == bits::sum_squares(
            |x: int|
                if rules::stands(g, (c, PieceType::Knight), x) {
                    bits::count_squares(
                        |t: int| rules::held_by(g, c.other(), t) && sweeps(x, t),
                    )
                } else {
                    0
                },
        ),
{
    let f = |x: int| eval::span_yield(g, c, x);
    let h = |x: int|
        if rules::stands(g, (c, PieceType::Knight), x) {
            bits::count_squares(|t: int| rules::held_by(g, c.other(), t) && sweeps(x, t))
        } else {
            0
        };
    assert forall|x: int| 0 <= x < 64 implies #[trigger] f(x) == h(x) by {
        if rules::stands(g, (c, PieceType::Knight), x) {
            let a = |t: int| geom::knight_span(x, t) && rules::held_by(g, c.other(), t);
            let b = |t: int| rules::held_by(g, c.other(), t) && sweeps(x, t);
            assert forall|t: int| 0 <= t < 64 implies #[trigger] a(t) == b(t) by {
                lemma_sweeps(x, t);
            }
            bits::lemma_count_ext(a, b, 64);
        }
    }
    bits::lemma_sum_ext(f, h, 64);
}

/// Enemy pieces of colour `c` in the blast on `t`.
pub open spec fn caught(g: Game, c: Color, t: int) -> int {
    bits::count_squares(|s: int| close_to(t, s) && rules::held_by(g, c.other(), s))
}

/// Colour `c` can detonate on `t`: something stands there, and a rook or bishop sees it.
pub open spec fn can_detonate(g: Game, c: Color, t: int) -> bool {
    rules::occupied(g, t) && exists|x: int| #[trigger] laws::sees(g, c, x, t)
}

proof fn lemma_yield(g: Game, c: Color, t: int)
    requires
        0 <= t < 64,
    ensures
        eval::blast_yield(g, c, t) == (if can_detonate(g, c, t) {
            caught(g, c, t)
        } else {
            0
        }),
        0 <= caught(g, c, t),
{
    lemma_reached(g, c, t);
    let p = |s: int| geom::blast(t, s) && rules::held_by(g, c.other(), s);
    let q = |s: int| close_to(t, s) && rules::held_by(g, c.other(), s);
    bits::lemma_count_ext(p, q, 64);
    bits::lemma_count_bounds(q, 64);
}

proof fn lemma_best(g: Game, c: Color, n: int)
    requires
        0 <= n <= 64,
    ensures
        forall|t: int|
            0 <= t < n && #[trigger] can_detonate(g, c, t) ==> caught(g, c, t) <= eval::best_blast(
                g,
                c,
                n,
            ),
        eval::best_blast(g, c, n) > 0 ==> exists|t: int|
            0 <= t < n && #[trigger] can_detonate(g, c, t) && caught(g, c, t) == eval::best_blast(
                g,
                c,
                n,
            ),
        eval::best_blast(g, c, n) >= 0,
    decreases n,
{
    if n > 0 {
        lemma_best(g, c, n - 1);
        lemma_yield(g, c, n - 1);
        let (old, new) = (eval::best_blast(g, c, n - 1), eval::best_blast(g, c, n));
        if old < eval::blast_yield(g, c, n - 1) {
            assert(can_detonate(g, c, n - 1) && caught(g, c, n - 1) == new);
        } else if new > 0 {
            let t = choose|t: int|
                0 <= t < n - 1 && #[trigger] can_detonate(g, c, t) && caught(g, c, t) == old;
            assert(can_detonate(g, c, t) && caught(g, c, t) == new);
        }
    }
}

/// The cluster term is the best detonation there is, if it catches two pieces or more,
/// and nothing otherwise.
pub proof fn law_clusters_are_the_best_detonation(g: Game, c: Color)
    ensures
        eval::cluster(g, c) == 0 || eval::cluster(g, c) >= 2,
        forall|t: int|
            0 <= t < 64 && #[trigger] can_detonate(g, c, t) && caught(g, c, t) >= 2 ==> caught(
                g,
                c,
                t,
            ) <= eval::cluster(g, c),
        eval::cluster(g, c) > 0 ==> exists|t: int|
            0 <= t < 64 && #[trigger] can_detonate(g, c, t) && caught(g, c, t) == eval::cluster(
                g,
                c,
            ),
{
    lemma_best(g, c, 64);
}

/// The distance of a square from the nearer edge, along its file and along its rank.
pub open spec fn edges(s: int) -> (int, int) {
    let (r, f) = (s / 8, s % 8);
    (
        if r <= 3 {
            r
        } else {
            7 - r
        },
        if f <= 3 {
            f
        } else {
            7 - f
        },
    )
}

/// Two squares share an orbit just when they are as far from the edges as each other, in
/// either order; there are ten orbits.
pub proof fn law_orbits_go_by_the_edges(s: int, t: int)
    requires
        0 <= s < 64,
        0 <= t < 64,
    ensures
        0 <= eval::orbit_of(s) < 10,
        eval::orbit_of(s) == eval::orbit_of(t) <==> (edges(s) == edges(t) || edges(s) == (
            edges(t).1,
            edges(t).0,
        )),
{
}

/// Number of pieces `m` on the squares of orbit `o`.
pub open spec fn count_on_orbit(g: Game, m: Man, o: int) -> int {
    bits::count_squares(|s: int| rules::stands(g, m, s) && eval::orbit_of(s) == o)
}

proof fn lemma_marks(g: Game, pt: PieceType, o: int, n: nat)
    requires
        0 <= o < 10,
        n <= 64,
    ensures
        bits::sum_below(|s: int| eval::table_mark(g.board[s], s, 10 + 10 * pt.code() + o), n)
            == bits::count_below(
            |s: int|
                rules::stands(g, (Color::White, pt), s) && eval::orbit_of(s) == o,
            n,
        ) - bits::count_below(
            |s: int|
                rules::stands(g, (Color::Black, pt), s) && eval::orbit_of(s) == o,
            n,
        ),
    decreases n,
{
    if n > 0 {
        lemma_marks(g, pt, o, (n - 1) as nat);
        let s = n - 1;
        law_orbits_go_by_the_edges(s, s);
        if let Some(m) = g.board[s] {
            assert(0 <= m.1.code() < 6 && 0 <= pt.code() < 6);
            assert(m.1.code() == pt.code() <==> m.1 == pt);
        }
    }
}

/// The features are White's counts less Black's: five for the pieces but the king, then
/// the threats to the kings, the clusters, whose turn it is, one for each type of piece
/// and orbit, the prey of the knights and the primers.
pub proof fn law_features_are_leads(g: Game, w: Seq<i32>, pt: PieceType, o: int)
    requires
        0 <= o < 10,
    ensures
        eval::feature(g, w, 0) == rules::count(g, (Color::White, PieceType::Pawn)) - rules::count(
            g,
            (Color::Black, PieceType::Pawn),
        ),
        eval::feature(g, w, 1) == rules::count(g, (Color::White, PieceType::Knight))
            - rules::count(g, (Color::Black, PieceType::Knight)),
        eval::feature(g, w, 2) == rules::count(g, (Color::White, PieceType::Bishop))
            - rules::count(g, (Color::Black, PieceType::Bishop)),
        eval::feature(g, w, 3) == rules::count(g, (Color::White, PieceType::Rook)) - rules::count(
            g,
            (Color::Black, PieceType::Rook),
        ),
        eval::feature(g, w, 4) == rules::count(g, (Color::White, PieceType::Queen)) - rules::count(
            g,
            (Color::Black, PieceType::Queen),
        ),
        eval::feature(g, w, 5) == eval::latent(g, Color::White) - eval::latent(g, Color::Black),
        eval::feature(g, w, 6) == eval::live(g, Color::White) - eval::live(g, Color::Black),
        eval::feature(g, w, 7) == eval::knights_on_king(g, Color::White) - eval::knights_on_king(
            g,
            Color::Black,
        ),
        eval::feature(g, w, 8) == eval::cluster(g, Color::White) - eval::cluster(g, Color::Black),
        eval::feature(g, w, 9) == (match g.side {
            Color::White => 1int,
            Color::Black => -1,
        }),
        eval::feature(g, w, 10 + 10 * pt.code() + o) == count_on_orbit(
            g,
            (Color::White, pt),
            o,
        ) - count_on_orbit(g, (Color::Black, pt), o),
        eval::feature(g, w, 70) == eval::span_total(g, Color::White) - eval::span_total(
            g,
            Color::Black,
        ),
        eval::feature(g, w, 71) == eval::primers(g, Color::White) - eval::primers(
            g,
            Color::Black,
        ),
{
    assert(0 <= pt.code() < 6);
    lemma_marks(g, pt, o, 64);
}

/// The scale is 35 percent once no heavy piece is left, and 100 percent while the heavy
/// pieces weigh as much as at the start; more weight never makes it less.
pub proof fn law_the_scale_follows_the_heavy_pieces(g: Game, h: Game, w: Seq<i32>)
    ensures
        (forall|s: int| !#[trigger] rules::heavy_on(g, s)) ==> eval::scale(g, w) == 35,
        ({
            let start = 4 * w[1] + 4 * w[2] + 4 * w[3] + 2 * w[4];
            let now = heavy_weight(g, w);
            &&& now >= start && start > 0 ==> eval::scale(g, w) == 100
            &&& now <= heavy_weight(h, w) ==> eval::scale(g, w) <= eval::scale(h, w)
        }),
{
    let start = eval::heavy_at_start(w);
    let (a, b) = (heavy_weight(g, w), heavy_weight(h, w));
    lemma_heavy_weight(g, w);
    lemma_heavy_weight(h, w);
    let (x, y, z) = (
        eval::heavy_part(a, start),
        eval::heavy_part(b, start),
        eval::heavy_whole(start),
    );
    if a <= b {
        assert(65 * x / z <= 65 * y / z) by (nonlinear_arith)
            requires
                x <= y,
                z >= 1,
        ;
    }
    if a >= start && start > 0 {
        assert(65 * x / z == 65) by (nonlinear_arith)
            requires
                x == z,
                z >= 1,
        ;
    }
    if forall|s: int| !#[trigger] rules::heavy_on(g, s) {
        lemma_none_heavy(g, Color::White);
        lemma_none_heavy(g, Color::Black);
        assert(a == 0);
        assert(65 * x / z == 0) by (nonlinear_arith)
            requires
                x == 0,
                z >= 1,
        ;
    }
}

/// What the knights, bishops, rooks and queens of both sides weigh.
pub open spec fn heavy_weight(g: Game, w: Seq<i32>) -> int {
    (rules::count(g, (Color::White, PieceType::Knight)) + rules::count(
        g,
        (Color::Black, PieceType::Knight),
    )) * w[1] + (rules::count(g, (Color::White, PieceType::Bishop)) + rules::count(
        g,
        (Color::Black, PieceType::Bishop),
    )) * w[2] + (rules::count(g, (Color::White, PieceType::Rook)) + rules::count(
        g,
        (Color::Black, PieceType::Rook),
    )) * w[3] + (rules::count(g, (Color::White, PieceType::Queen)) + rules::count(
        g,
        (Color::Black, PieceType::Queen),
    )) * w[4]
}

proof fn lemma_split(a: int, b: int, w: int)
    ensures
        (a + b) * w == a * w + b * w,
{
    assert((a + b) * w == a * w + b * w) by (nonlinear_arith);
}

proof fn lemma_heavy_weight(g: Game, w: Seq<i32>)
    ensures
        heavy_weight(g, w) == eval::weighted_heavy(g, Color::White, w) + eval::weighted_heavy(
            g,
            Color::Black,
            w,
        ),
{
    let (wh, bl) = (Color::White, Color::Black);
    lemma_split(
        rules::count(g, (wh, PieceType::Knight)),
        rules::count(g, (bl, PieceType::Knight)),
        w[1] as int,
    );
    lemma_split(
        rules::count(g, (wh, PieceType::Bishop)),
        rules::count(g, (bl, PieceType::Bishop)),
        w[2] as int,
    );
    lemma_split(
        rules::count(g, (wh, PieceType::Rook)),
        rules::count(g, (bl, PieceType::Rook)),
        w[3] as int,
    );
    lemma_split(
        rules::count(g, (wh, PieceType::Queen)),
        rules::count(g, (bl, PieceType::Queen)),
        w[4] as int,
    );
}

proof fn lemma_none_heavy(g: Game, c: Color)
    requires
        forall|s: int| !#[trigger] rules::heavy_on(g, s),
    ensures
        rules::count(g, (c, PieceType::Knight)) == 0,
        rules::count(g, (c, PieceType::Bishop)) == 0,
        rules::count(g, (c, PieceType::Rook)) == 0,
        rules::count(g, (c, PieceType::Queen)) == 0,
{
    lemma_none_of(g, (c, PieceType::Knight));
    lemma_none_of(g, (c, PieceType::Bishop));
    lemma_none_of(g, (c, PieceType::Rook));
    lemma_none_of(g, (c, PieceType::Queen));
}

proof fn lemma_none_of(g: Game, m: Man)
    requires
        forall|s: int| !#[trigger] rules::heavy_on(g, s),
        rules::heavy(m.1),
    ensures
        rules::count(g, m) == 0,
{
    let p = |s: int| rules::stands(g, m, s);
    assert forall|s: int| 0 <= s < 64 implies !#[trigger] p(s) by {
        assert(!rules::heavy_on(g, s));
    }
    bits::lemma_count_gap(p, 0, 64);
}

/// The evaluation that the engine plays with, in numbers: material by the fitted values,
/// scaled, and the four terms of the kings and clusters.
pub proof fn law_the_fitted_evaluation(g: Game)
    ensures
        eval::white_value(g, eval::TUNED_WEIGHTS@) == eval::tdiv(
            (70 * eval::piece_lead(g, PieceType::Pawn) + 944 * eval::piece_lead(
                g,
                PieceType::Knight,
            ) + 318 * eval::piece_lead(g, PieceType::Bishop) + 456 * eval::piece_lead(
                g,
                PieceType::Rook,
            ) + 1696 * eval::piece_lead(g, PieceType::Queen)) * eval::scale(
                g,
                eval::TUNED_WEIGHTS@,
            ),
            100,
        ) + 48 * (eval::latent(g, Color::White) - eval::latent(g, Color::Black)) - 321 * (
        eval::live(g, Color::White) - eval::live(g, Color::Black)) - 180 * (eval::knights_on_king(
            g,
            Color::White,
        ) - eval::knights_on_king(g, Color::Black)) + 69 * (eval::cluster(g, Color::White)
            - eval::cluster(g, Color::Black)),
        eval::TUNED_WEIGHTS@[9] == 16,
{
    let w = eval::TUNED_WEIGHTS@;
    let f = |s: int| eval::square_value(g.board[s], s, w);
    assert forall|s: int| 0 <= s < 64 implies #[trigger] f(s) == 0 by {
        if let Some(m) = g.board[s] {
            law_orbits_go_by_the_edges(s, s);
            assert(0 <= m.1.code() < 6);
            assert(10 <= 10 + 10 * m.1.code() + eval::orbit_of(s) < 70);
            lemma_no_tables(10 + 10 * m.1.code() + eval::orbit_of(s));
        }
    }
    bits::lemma_sum_gap(f, 0, 64);
    assert(w[70] == 0 && w[71] == 0 && w[72] == 0);
    assert(w[0] == 70 && w[1] == 944 && w[2] == 318 && w[3] == 456 && w[4] == 1696);
    assert(w[5] == 48 && w[6] == -321 && w[7] == -180 && w[8] == 69);
}

/// The evaluation before it was fitted, in numbers.
pub proof fn law_the_first_evaluation(g: Game)
    ensures
        eval::white_value(g, eval::SPEC_WEIGHTS@) == eval::tdiv(
            (25 * eval::piece_lead(g, PieceType::Pawn) + 900 * eval::piece_lead(
                g,
                PieceType::Knight,
            ) + 400 * eval::piece_lead(g, PieceType::Bishop) + 450 * eval::piece_lead(
                g,
                PieceType::Rook,
            ) + 1000 * eval::piece_lead(g, PieceType::Queen)) * eval::scale(
                g,
                eval::SPEC_WEIGHTS@,
            ),
            100,
        ) - 40 * (eval::latent(g, Color::White) - eval::latent(g, Color::Black)) - 300 * (
        eval::live(g, Color::White) - eval::live(g, Color::Black)) - 120 * (eval::knights_on_king(
            g,
            Color::White,
        ) - eval::knights_on_king(g, Color::Black)) + 30 * (eval::cluster(g, Color::White)
            - eval::cluster(g, Color::Black)),
        eval::SPEC_WEIGHTS@[9] == 15,
{
    let w = eval::SPEC_WEIGHTS@;
    let f = |s: int| eval::square_value(g.board[s], s, w);
    assert forall|s: int| 0 <= s < 64 implies #[trigger] f(s) == 0 by {
        if let Some(m) = g.board[s] {
            law_orbits_go_by_the_edges(s, s);
            assert(0 <= m.1.code() < 6);
            assert(10 <= 10 + 10 * m.1.code() + eval::orbit_of(s) < 70);
            lemma_no_tables(10 + 10 * m.1.code() + eval::orbit_of(s));
        }
    }
    bits::lemma_sum_gap(f, 0, 64);
    assert(w[70] == 0 && w[71] == 0 && w[72] == 0);
    assert(w[0] == 25 && w[1] == 900 && w[2] == 400 && w[3] == 450 && w[4] == 1000);
    assert(w[5] == -40 && w[6] == -300 && w[7] == -120 && w[8] == 30);
}

proof fn lemma_no_tables(i: int)
    requires
        10 <= i < 73,
    ensures
        eval::TUNED_WEIGHTS@[i] == 0,
        eval::SPEC_WEIGHTS@[i] == 0,
{
}

} // verus!
