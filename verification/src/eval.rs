//! Hand-written evaluation, with the strategic consequences of the rules baked in as
//! positional terms.
//!
//! All scores are centipawns from White's point of view internally; `evaluate`
//! returns them from the side to move's point of view for negamax.

use vstd::prelude::*;
use vstd::string::*;
use crate::bits;
use crate::bits::Bitboard;
use crate::geom;
use crate::laws;
use crate::movegen;
use crate::movegen::{capture_effects, slider_reach};
use crate::position::Position;
use crate::rules;
use crate::rules::Game;
use crate::tables::{blast_mask, knight_span, ring_mask};
use crate::text;
use crate::text::push_decimal;
use crate::types;
use crate::types::{Color, Man, Move, PieceType, file_of, in_board, piece_color, piece_type_of, rank_of};

verus! {

broadcast use {
    crate::bits::group_bits,
    crate::types::lemma_man_of_code,
    crate::types::lemma_man_code_of,
};

/// Piece values in centipawns.
///
/// **These are rule values, not evaluation preferences — do not tune them.** The
/// ply-cap adjudication is defined in terms of them, so they are part of how a game is
/// *scored*, and two engines that play each other must agree on them.
///
/// The tunable *evaluation* weights live in `TUNED_WEIGHTS` below.
///
/// | Piece  | Value | Why                                     |
/// |--------|-------|-----------------------------------------|
/// | Queen  | 10.0  | survives, 2 captures, long range        |
/// | Knight |  9.0  | survives, 3 captures, unblockable       |
/// | Rook   |  4.5  | consumable: line control + threat       |
/// | Bishop |  4.0  | consumable, lands on one colour only    |
/// | Pawn   |  0.25 | blocker, detonator primer, draw resource|
///
/// The king is terminal and never counted as material.
pub const PIECE_VALUE: [i32; 6] = [25, 900, 400, 450, 1000, 0];

/// Used only for move ordering, so that king captures sort ahead of everything.
pub const KING_ORDER_VALUE: i32 = 20_000;

// Feature layout. Indices are stable; append rather than insert.

/// Five material features, scaled by the endgame factor.
pub const F_MATERIAL: usize = 0;
pub const F_LATENT: usize = 5;
pub const F_LIVE: usize = 6;
pub const F_KNIGHT_ON_KING: usize = 7;
pub const F_CLUSTER: usize = 8;
pub const F_TEMPO: usize = 9;

/// Piece-square tables: 6 piece types x 10 symmetry orbits.
pub const F_PST: usize = 10;

/// Enemy pieces standing on our knights' sweep paths — the offensive counterpart
/// to `F_KNIGHT_ON_KING`.
pub const F_KNIGHT_SPAN: usize = 70;

/// Our own pieces adjacent to the *enemy* king: detonators already manufactured.
pub const F_ATTACK_PRIMER: usize = 71;

/// Extra pawn value as the board empties, since the kings-and-pawns draw makes pawns
/// the trailing side's resource. A single linear pawn term cannot express this.
pub const F_PAWN_ENDGAME: usize = 72;

pub const NUM_EVAL_FEATURES: usize = 73;

/// Number of distinct squares under the board's dihedral symmetry.
///
/// The rules are fully invariant under the dihedral group (no castling, no
/// forward direction), so a piece-square table **must** be too — a1, a8, h1 and
/// h8 cannot have different values. That collapses 64 squares to 10 orbits, so a
/// full six-piece table is 60 parameters rather than 384.
pub const NUM_ORBITS: usize = 10;

/// Weights in feature order.
pub type HandWeights = [i32; 73];

/// The starting guess: ten core weights, everything else zero.
pub const SPEC_WEIGHTS: HandWeights = [
    25, 900, 400, 450, 1000, -40, -300, -120, 30, 15,
    0, 0, 0, 0, 0, 0, 0, 0, 0, 0,
    0, 0, 0, 0, 0, 0, 0, 0, 0, 0,
    0, 0, 0, 0, 0, 0, 0, 0, 0, 0,
    0, 0, 0, 0, 0, 0, 0, 0, 0, 0,
    0, 0, 0, 0, 0, 0, 0, 0, 0, 0,
    0, 0, 0, 0, 0, 0, 0, 0, 0, 0,
    0, 0, 0,
];

/// The core weights fitted to labelled self-play positions. This is the default the
/// engine plays with.
///
/// Three of the changes are worth knowing about:
///
/// * **Queen 10.0 -> 17.0.** She is worth ~1.8 knights, not ~1.1.
/// * **Pawn 0.25 -> 0.70.** Manufacturing a detonator next to the enemy king is worth
///   far more than a quarter-pawn.
/// * **Latent detonator -0.40 -> +0.48, a sign flip.** See the note on
///   `king_safety_counts`.
pub const TUNED_WEIGHTS: HandWeights = [
    70, 944, 318, 456, 1696, 48, -321, -180, 69, 16,
    0, 0, 0, 0, 0, 0, 0, 0, 0, 0,
    0, 0, 0, 0, 0, 0, 0, 0, 0, 0,
    0, 0, 0, 0, 0, 0, 0, 0, 0, 0,
    0, 0, 0, 0, 0, 0, 0, 0, 0, 0,
    0, 0, 0, 0, 0, 0, 0, 0, 0, 0,
    0, 0, 0, 0, 0, 0, 0, 0, 0, 0,
    0, 0, 0,
];

/// A fit that includes the piece-square tables and the three added terms.
///
/// Material and the tables are deliberately collinear (both scale with piece
/// count), so the individual numbers below are not separately meaningful — only
/// the total is.
pub const TUNED_V2_WEIGHTS: HandWeights = [
    33, -157, 11, -112, 760, 8, -173, -12, 46, 9,
    8, -11, -16, -16, 4, 6, 22, 2, -11, -2,
    694, 647, 669, 688, 678, 692, 687, 677, 700, 715,
    278, 257, 267, 309, 340, 305, 418, 326, 458, 358,
    430, 498, 451, 488, 480, 468, 472, 462, 469, 494,
    549, 520, 570, 395, 588, 553, 593, 590, 620, 683,
    -43, -48, -7, 59, -52, -46, -46, -80, -69, -88,
    6, -10, 32,
];

/// Score bounds. Wins are stored as `MATE - ply` so that shorter wins are preferred.
pub const MATE: i32 = 30_000;
pub const MATE_THRESHOLD: i32 = 29_000;
pub const INFINITY: i32 = 32_000;

// ---------------------------------------------------------------------------
// What the terms count
// ---------------------------------------------------------------------------

/// Division that drops the fraction.
pub open spec fn tdiv(a: int, b: int) -> int {
    if a >= 0 {
        a / b
    } else {
        -((-a) / b)
    }
}

/// Piece counts of colour `c` weighted by five weights, king excluded.
pub open spec fn weighted(g: Game, c: Color, w: Seq<i32>) -> int {
    rules::count(g, (c, PieceType::Pawn)) * w[0] + rules::count(g, (c, PieceType::Knight)) * w[1]
        + rules::count(g, (c, PieceType::Bishop)) * w[2] + rules::count(g, (c, PieceType::Rook))
        * w[3] + rules::count(g, (c, PieceType::Queen)) * w[4]
}

/// The same without pawns.
pub open spec fn weighted_heavy(g: Game, c: Color, w: Seq<i32>) -> int {
    rules::count(g, (c, PieceType::Knight)) * w[1] + rules::count(g, (c, PieceType::Bishop)) * w[2]
        + rules::count(g, (c, PieceType::Rook)) * w[3] + rules::count(g, (c, PieceType::Queen))
        * w[4]
}

/// Heavy material of both sides at the start of a game.
pub open spec fn heavy_at_start(w: Seq<i32>) -> int {
    2 * (2 * w[1] + 2 * w[2] + 2 * w[3] + w[4])
}

/// The heavy material `now`, held between nothing and what there was at the start.
pub open spec fn heavy_part(now: int, start: int) -> int {
    if now < 0 || start < 0 {
        0
    } else if now < start {
        now
    } else {
        start
    }
}

/// What the heavy material is a part of.
pub open spec fn heavy_whole(start: int) -> int {
    if start < 1 {
        1
    } else {
        start
    }
}

/// Percentage to which a material lead counts, by the heavy material that is left: 35
/// once it is gone, 100 while it is all there.
pub open spec fn scale(g: Game, w: Seq<i32>) -> int {
    let start = heavy_at_start(w);
    let now = weighted_heavy(g, Color::White, w) + weighted_heavy(g, Color::Black, w);
    35 + 65 * heavy_part(now, start) / heavy_whole(start)
}

/// Pieces next to the king of colour `c`.
pub open spec fn latent(g: Game, c: Color) -> int {
    match rules::king_square(g, c) {
        Some(k) => bits::count_squares(|s: int| geom::adjacent(k, s) && rules::occupied(g, s)),
        None => 0,
    }
}

/// `s` is an occupied square of the three-by-three region around `k` on which a
/// slider of colour `c` can land.
pub open spec fn detonation_point(g: Game, c: Color, k: int, s: int) -> bool {
    &&& geom::blast(k, s)
    &&& rules::occupied(g, s)
    &&& exists|x: int| #[trigger] movegen::slider_reaches(g, c, x, s)
}

/// Squares on which an enemy slider can land and kill the king of colour `c`.
pub open spec fn live(g: Game, c: Color) -> int {
    match rules::king_square(g, c) {
        Some(k) => bits::count_squares(|s: int| detonation_point(g, c.other(), k, s)),
        None => 0,
    }
}

/// Enemy knights with a path across the king of colour `c`.
pub open spec fn knights_on_king(g: Game, c: Color) -> int {
    match rules::king_square(g, c) {
        Some(k) => bits::count_squares(
            |x: int|
                rules::stands(g, (c.other(), PieceType::Knight), x) && geom::knight_span(x, k),
        ),
        None => 0,
    }
}

/// Enemy pieces on the paths of the knight of colour `c` on `x`.
pub open spec fn span_yield(g: Game, c: Color, x: int) -> int {
    if rules::stands(g, (c, PieceType::Knight), x) {
        bits::count_squares(
            |t: int| geom::knight_span(x, t) && rules::held_by(g, c.other(), t),
        )
    } else {
        0
    }
}

/// Enemy pieces on the paths of all knights of colour `c`.
pub open spec fn span_total(g: Game, c: Color) -> int {
    bits::sum_squares(|x: int| span_yield(g, c, x))
}

/// Pieces of colour `c` next to the enemy king.
pub open spec fn primers(g: Game, c: Color) -> int {
    match rules::king_square(g, c.other()) {
        Some(k) => bits::count_squares(|s: int| geom::adjacent(k, s) && rules::held_by(g, c, s)),
        None => 0,
    }
}

/// Enemy pieces that colour `c` would catch by a detonation on `t`, if it has one.
pub open spec fn blast_yield(g: Game, c: Color, t: int) -> int {
    if rules::occupied(g, t) && exists|x: int| #[trigger] movegen::slider_reaches(g, c, x, t) {
        bits::count_squares(|s: int| geom::blast(t, s) && rules::held_by(g, c.other(), s))
    } else {
        0
    }
}

/// The best detonation below square `n`.
pub open spec fn best_blast(g: Game, c: Color, n: int) -> int
    decreases n,
{
    if n <= 0 {
        0
    } else {
        let before = best_blast(g, c, n - 1);
        if before < blast_yield(g, c, n - 1) {
            blast_yield(g, c, n - 1)
        } else {
            before
        }
    }
}

/// The best detonation of colour `c`, if it catches two pieces or more.
pub open spec fn cluster(g: Game, c: Color) -> int {
    if best_blast(g, c, 64) >= 2 {
        best_blast(g, c, 64)
    } else {
        0
    }
}

/// Distance to the nearer edge.
pub open spec fn edge(x: int) -> int {
    if x < 7 - x {
        x
    } else {
        7 - x
    }
}

/// Which of the ten orbits a square belongs to: squares that some symmetry of the board
/// maps to each other share one.
pub open spec fn orbit_of(s: int) -> int {
    let a = edge(geom::rank(s));
    let b = edge(geom::file(s));
    let (lo, hi) = if a < b {
        (a, b)
    } else {
        (b, a)
    };
    if lo == 0 {
        hi
    } else if lo == 1 {
        3 + hi
    } else if lo == 2 {
        5 + hi
    } else {
        6 + hi
    }
}

/// `x` counted for white, or against it.
pub open spec fn signed(c: Color, x: int) -> int {
    match c {
        Color::White => x,
        Color::Black => -x,
    }
}

/// What the piece-square tables say of what stands on `s`.
pub open spec fn square_value(x: Option<Man>, s: int, w: Seq<i32>) -> int {
    match x {
        Some(m) => signed(m.0, w[10 + 10 * m.1.code() + orbit_of(s)] as int),
        None => 0,
    }
}

/// The piece-square tables over the whole board.
pub open spec fn tables_value(g: Game, w: Seq<i32>) -> int {
    bits::sum_squares(|s: int| square_value(g.board[s], s, w))
}

/// Lead in pawns.
pub open spec fn pawn_lead(g: Game) -> int {
    rules::count(g, (Color::White, PieceType::Pawn)) - rules::count(
        g,
        (Color::Black, PieceType::Pawn),
    )
}

/// Lead in pawns, weighted by how far the board has emptied.
pub open spec fn pawn_endgame(g: Game, scale: int) -> int {
    tdiv(pawn_lead(g) * (100 - scale), 100)
}

/// The evaluation from White's point of view, without the tempo.
pub open spec fn white_value(g: Game, w: Seq<i32>) -> int {
    let (wh, bl) = (Color::White, Color::Black);
    let material = tdiv((weighted(g, wh, w) - weighted(g, bl, w)) * scale(g, w), 100);
    let safety = w[5] * (latent(g, wh) - latent(g, bl)) + w[6] * (live(g, wh) - live(g, bl)) + w[7]
        * (knights_on_king(g, wh) - knights_on_king(g, bl));
    let clusters = w[8] * (cluster(g, wh) - cluster(g, bl));
    let extra = w[70] * (span_total(g, wh) - span_total(g, bl)) + w[71] * (primers(g, wh) - primers(
        g,
        bl,
    )) + w[72] * pawn_endgame(g, scale(g, w));
    material + safety + clusters + tables_value(g, w) + extra
}

/// The evaluation from the point of view of the side to move.
pub open spec fn side_value(g: Game, w: Seq<i32>) -> int {
    signed(g.side, white_value(g, w)) + w[9]
}

// ---------------------------------------------------------------------------
// Counting
// ---------------------------------------------------------------------------

/// Counts a board whose members are the squares that satisfy `p`.
fn count_mask(b: Bitboard, Ghost(p): Ghost<spec_fn(int) -> bool>) -> (n: i32)
    requires
        forall|s: int| 0 <= s < 64 ==> #[trigger] bits::bit(b, s) == p(s),
    ensures
        n == bits::count_squares(p),
        0 <= n <= 64,
{
    proof {
        let q = |s: int| bits::bit(b, s);
        assert forall|s: int| 0 <= s < 64 implies #[trigger] q(s) == p(s) by {
            assert(bits::bit(b, s) == p(s));
        }
        bits::lemma_count_ext(q, p, 64);
        bits::lemma_count_bounds(p, 64);
    }
    b.count_ones() as i32
}

/// The pieces of one colour.
fn held(pos: &Position, c: Color) -> (b: Bitboard)
    requires
        pos.wf(),
    ensures
        forall|s: int| #[trigger] bits::bit(b, s) <==> rules::held_by(pos@, c, s),
{
    let b: u64 = pos.occ_color[c.index()];
    proof {
        assert forall|s: int| #[trigger] bits::bit(b, s) <==> rules::held_by(pos@, c, s) by {
            if geom::valid(s) {
                assert(bits::bit(pos.occ_color@[c.code()], s) <==> (pos@.board[s] matches Some(m)
                    && m.0.code() == c.code()));
            }
        }
    }
    b
}

proof fn lemma_occ(pos: Position)
    requires
        pos.wf(),
    ensures
        forall|s: int| #[trigger] bits::bit(pos.occ, s) <==> rules::occupied(pos@, s),
{
    assert forall|s: int| #[trigger] bits::bit(pos.occ, s) <==> rules::occupied(pos@, s) by {
        if geom::valid(s) {
            assert(bits::bit(pos.occ, s) <==> pos@.board[s] is Some);
        }
    }
}

/// The enemy knights with a path across square `k`.
fn knights_across(pos: &Position, them: Color, k: usize) -> (m: Bitboard)
    requires
        pos.wf(),
        k < 64,
    ensures
        forall|x: int| #[trigger]
            bits::bit(m, x) <==> rules::stands(pos@, (them, PieceType::Knight), x)
                && geom::knight_span(x, k as int),
{
    let all: u64 = pos.bb_of(them, PieceType::Knight);
    let mut m: u64 = 0;
    let mut it = types::bits(all);
    loop
        invariant
            k < 64,
            forall|x: int| #[trigger] bits::bit(it.0, x) ==> bits::bit(all, x),
            forall|x: int| #[trigger]
                bits::bit(m, x) <==> bits::bit(all, x) && !bits::bit(it.0, x) && geom::knight_span(
                    x,
                    k as int,
                ),
        ensures
            it.0 == 0,
        decreases it.0,
    {
        match it.next() {
            None => break,
            Some(s) => {
                if in_board(knight_span(s), k) {
                    m = m | types::bb(s);
                }
            },
        }
    }
    m
}

/// The raw counts behind the king-safety terms, kept separate so the tuner can
/// fit the weights without duplicating the logic they multiply.
/// Returns `(latent detonators, live detonators, enemy knights covering the king)`.
///
/// A latent detonator is anything that stands next to the king; fitted against labelled
/// positions it comes out as a mild asset. A live one, an occupied square of the king's
/// 3x3 that an enemy slider can reach, stays strongly negative: being reachable is what
/// kills you, merely having pieces nearby does not.
pub fn king_safety_counts(pos: &Position, us: Color) -> (r: (i32, i32, i32))
    requires
        pos.wf(),
    ensures
        r.0 == latent(pos@, us),
        r.1 == live(pos@, us),
        r.2 == knights_on_king(pos@, us),
        0 <= r.0 <= 64,
        0 <= r.1 <= 64,
        0 <= r.2 <= 64,
{
    let them = us.flip();
    let k: usize = match pos.king_sq(us) {
        Some(k) => k,
        None => {
            return (0, 0, 0);
        },
    };
    proof {
        lemma_occ(*pos);
    }
    // Latent: anything standing next to the king.
    let near: u64 = ring_mask(k) & pos.occ;
    // Live: an enemy rook or bishop that can land on any occupied square of the
    // king's 3x3 — including the king's own square — kills the king outright.
    let points: u64 = blast_mask(k) & pos.occ & slider_reach(pos, them);
    // Unblockable knight sweeps already crossing the king square.
    let knights: u64 = knights_across(pos, them, k);
    (
        count_mask(
            near,
            Ghost(|s: int| geom::adjacent(k as int, s) && rules::occupied(pos@, s)),
        ),
        count_mask(points, Ghost(|s: int| detonation_point(pos@, them, k as int, s))),
        count_mask(
            knights,
            Ghost(
                |x: int|
                    rules::stands(pos@, (them, PieceType::Knight), x) && geom::knight_span(
                        x,
                        k as int,
                    ),
            ),
        ),
    )
}

/// Enemy pieces standing on any square our knights can sweep through.
pub fn knight_span_count(pos: &Position, us: Color) -> (n: i32)
    requires
        pos.wf(),
    ensures
        n == span_total(pos@, us),
        0 <= n <= 4096,
{
    let enemy: u64 = held(pos, us.flip());
    let ghost f = |x: int| span_yield(pos@, us, x);
    let all: u64 = pos.bb_of(us, PieceType::Knight);
    let mut it = types::bits(all);
    let mut n: i32 = 0;
    let ghost mut seen: int = 0;
    loop
        invariant
            pos.wf(),
            f == (|x: int| span_yield(pos@, us, x)),
            forall|s: int| #[trigger]
                bits::bit(enemy, s) <==> rules::held_by(pos@, us.other(), s),
            forall|x: int|
                #![trigger bits::bit(all, x)]
                #![trigger rules::stands(pos@, (us, PieceType::Knight), x)]
                bits::bit(all, x) <==> rules::stands(pos@, (us, PieceType::Knight), x),
            0 <= seen <= 64,
            forall|x: int| #[trigger] bits::bit(it.0, x) <==> bits::bit(all, x) && x >= seen,
            n == bits::sum_below(f, seen as nat),
            0 <= n <= 64 * seen,
        ensures
            it.0 == 0,
        decreases it.0,
    {
        let ghost rest = it.0;
        match it.next() {
            None => break,
            Some(s) => {
                proof {
                    assert(bits::bit(rest, s as int));
                    assert forall|x: int| seen <= x < s implies #[trigger] f(x) == 0 by {
                        if bits::bit(all, x) {
                            assert(bits::bit(rest, x));
                        }
                    }
                    bits::lemma_sum_gap(f, seen as nat, s as nat);
                    assert(bits::bit(all, s as int));
                }
                let k: i32 = count_mask(
                    knight_span(s) & enemy,
                    Ghost(
                        |t: int|
                            geom::knight_span(s as int, t) && rules::held_by(
                                pos@,
                                us.other(),
                                t,
                            ),
                    ),
                );
                n = n + k;
                proof {
                    assert(f(s as int) == k);
                    seen = s + 1;
                }
            },
        }
    }
    proof {
        assert forall|x: int| seen <= x < 64 implies #[trigger] f(x) == 0 by {
            if bits::bit(all, x) {
                assert(bits::bit(it.0, x));
            }
        }
        bits::lemma_sum_gap(f, seen as nat, 64);
    }
    n
}

/// Our pieces adjacent to the enemy king — detonators already in place.
pub fn attack_primer_count(pos: &Position, us: Color) -> (n: i32)
    requires
        pos.wf(),
    ensures
        n == primers(pos@, us),
        0 <= n <= 64,
{
    match pos.king_sq(us.flip()) {
        None => 0,
        Some(k) => {
            let own: u64 = held(pos, us);
            count_mask(
                ring_mask(k) & own,
                Ghost(|s: int| geom::adjacent(k as int, s) && rules::held_by(pos@, us, s)),
            )
        },
    }
}

/// Enemy pieces caught by the single best detonation available to `us`, or 0 if
/// the best one nets fewer than two.
pub fn cluster_count(pos: &Position, us: Color) -> (n: i32)
    requires
        pos.wf(),
    ensures
        n == cluster(pos@, us),
        0 <= n <= 64,
{
    let enemy: u64 = held(pos, us.flip());
    proof {
        lemma_occ(*pos);
    }
    // Detonation requires landing on an occupied square.
    let points: u64 = slider_reach(pos, us) & pos.occ;
    let mut it = types::bits(points);
    let mut best: i32 = 0;
    let ghost mut seen: int = 0;
    loop
        invariant
            forall|s: int| #[trigger]
                bits::bit(enemy, s) <==> rules::held_by(pos@, us.other(), s),
            forall|t: int| #[trigger]
                bits::bit(points, t) <==> rules::occupied(pos@, t) && exists|x: int| #[trigger]
                    movegen::slider_reaches(pos@, us, x, t),
            0 <= seen <= 64,
            forall|t: int| #[trigger] bits::bit(it.0, t) <==> bits::bit(points, t) && t >= seen,
            best == best_blast(pos@, us, seen),
            0 <= best <= 64,
        ensures
            it.0 == 0,
        decreases it.0,
    {
        let ghost rest = it.0;
        match it.next() {
            None => break,
            Some(to) => {
                proof {
                    assert(bits::bit(rest, to as int));
                    assert forall|t: int| seen <= t < to implies #[trigger] blast_yield(
                        pos@,
                        us,
                        t,
                    ) == 0 by {
                        if bits::bit(points, t) {
                            assert(bits::bit(rest, t));
                        }
                    }
                    lemma_best_gap(pos@, us, seen, to as int);
                    assert(bits::bit(points, to as int));
                }
                let k: i32 = count_mask(
                    blast_mask(to) & enemy,
                    Ghost(
                        |s: int|
                            geom::blast(to as int, s) && rules::held_by(pos@, us.other(), s),
                    ),
                );
                assert(blast_yield(pos@, us, to as int) == k);
                if best < k {
                    best = k;
                }
                proof {
                    seen = to + 1;
                }
            },
        }
    }
    proof {
        assert forall|t: int| seen <= t < 64 implies #[trigger] blast_yield(pos@, us, t) == 0 by {
            if bits::bit(points, t) {
                assert(bits::bit(it.0, t));
            }
        }
        lemma_best_gap(pos@, us, seen, 64);
    }
    if best >= 2 {
        best
    } else {
        0
    }
}

proof fn lemma_best_nonneg(g: Game, c: Color, n: int)
    ensures
        best_blast(g, c, n) >= 0,
    decreases n,
{
    if n > 0 {
        lemma_best_nonneg(g, c, n - 1);
    }
}

proof fn lemma_best_gap(g: Game, c: Color, lo: int, hi: int)
    requires
        0 <= lo <= hi,
        forall|t: int| lo <= t < hi ==> #[trigger] blast_yield(g, c, t) == 0,
    ensures
        best_blast(g, c, hi) == best_blast(g, c, lo),
    decreases hi - lo,
{
    if lo < hi {
        lemma_best_gap(g, c, lo, hi - 1);
        assert(blast_yield(g, c, hi - 1) == 0);
        lemma_best_nonneg(g, c, hi - 1);
    }
}

/// The orbit of a square, in `0..10`.
pub fn orbit(s: usize) -> (o: usize)
    requires
        s < 64,
    ensures
        o == orbit_of(s as int),
        o < 10,
{
    let r: usize = rank_of(s);
    let c: usize = file_of(s);
    let a: usize = if r < 7 - r {
        r
    } else {
        7 - r
    };
    let b: usize = if c < 7 - c {
        c
    } else {
        7 - c
    };
    let (lo, hi) = if a < b {
        (a, b)
    } else {
        (b, a)
    };
    if lo == 0 {
        hi
    } else if lo == 1 {
        3 + hi
    } else if lo == 2 {
        5 + hi
    } else {
        6 + hi
    }
}

// ---------------------------------------------------------------------------
// Hand evaluation
// ---------------------------------------------------------------------------

fn divide(a: i128, b: i128) -> (r: i128)
    requires
        b > 0,
        a > i128::MIN,
    ensures
        r == tdiv(a as int, b as int),
{
    if a >= 0 {
        a / b
    } else {
        -((-a) / b)
    }
}

/// The product of a count and a weight.
fn times(n: i32, w: i32) -> (r: i128)
    requires
        -4096 <= n <= 4096,
    ensures
        r == n * w,
        -0x800_0000_0000 <= r <= 0x800_0000_0000,
{
    assert(-0x800_0000_0000 <= n * w <= 0x800_0000_0000) by (nonlinear_arith)
        requires
            -4096 <= n <= 4096,
            -0x8000_0000 <= w <= 0x7fff_ffff,
    ;
    n as i128 * w as i128
}

fn weighted_of(pos: &Position, c: Color, w: &HandWeights) -> (r: i128)
    requires
        pos.wf(),
    ensures
        r == weighted(pos@, c, w@),
        -0x4000_0000_0000 <= r <= 0x4000_0000_0000,
{
    times(pos.count_of(c, PieceType::Pawn), w[0]) + times(
        pos.count_of(c, PieceType::Knight),
        w[1],
    ) + times(pos.count_of(c, PieceType::Bishop), w[2]) + times(
        pos.count_of(c, PieceType::Rook),
        w[3],
    ) + times(pos.count_of(c, PieceType::Queen), w[4])
}

fn weighted_heavy_of(pos: &Position, c: Color, w: &HandWeights) -> (r: i128)
    requires
        pos.wf(),
    ensures
        r == weighted_heavy(pos@, c, w@),
        -0x4000_0000_0000 <= r <= 0x4000_0000_0000,
{
    times(pos.count_of(c, PieceType::Knight), w[1]) + times(
        pos.count_of(c, PieceType::Bishop),
        w[2],
    ) + times(pos.count_of(c, PieceType::Rook), w[3]) + times(
        pos.count_of(c, PieceType::Queen),
        w[4],
    )
}

/// Scales the material advantage down as heavy material drains away, because the
/// kings-and-pawns draw becomes the trailing side's live resource. Returned as a
/// percentage in `[35, 100]`.
///
/// Shared by `evaluate_white_with` and `eval_feature_counts` so the tuner cannot end up
/// optimising a slightly different function from the one the engine plays.
pub fn endgame_scale(pos: &Position, w: &HandWeights) -> (r: i32)
    requires
        pos.wf(),
    ensures
        r == scale(pos@, w@),
        35 <= r <= 100,
{
    let start: i128 = 2 * (2 * w[1] as i128 + 2 * w[2] as i128 + 2 * w[3] as i128 + w[4] as i128);
    let now: i128 = weighted_heavy_of(pos, Color::White, w) + weighted_heavy_of(
        pos,
        Color::Black,
        w,
    );
    let part: i128 = if now < 0 || start < 0 {
        0
    } else if now < start {
        now
    } else {
        start
    };
    let whole: i128 = if start < 1 {
        1
    } else {
        start
    };
    proof {
        law_scale_is_a_percentage(pos@, w@);
    }
    (35 + 65 * part / whole) as i32
}

/// Pawn-count difference weighted by how far the position has drained toward the
/// kings-and-pawns draw. Zero in the opening, largest in the endgame.
fn pawn_endgame_term(pos: &Position, scale: i32) -> (r: i32)
    requires
        pos.wf(),
        35 <= scale <= 100,
    ensures
        r == pawn_endgame(pos@, scale as int),
        -64 <= r <= 64,
{
    let diff: i32 = pos.count_of(Color::White, PieceType::Pawn) - pos.count_of(
        Color::Black,
        PieceType::Pawn,
    );
    let left: i32 = 100 - scale;
    assert(-6400 <= diff * left <= 6400) by (nonlinear_arith)
        requires
            -64 <= diff <= 64,
            0 <= left <= 100,
    ;
    divide((diff * left) as i128, 100) as i32
}

/// The piece-square tables over the whole board.
fn tables_of(pos: &Position, w: &HandWeights) -> (r: i128)
    requires
        pos.wf(),
    ensures
        r == tables_value(pos@, w@),
        -0x20_0000_0000 <= r <= 0x20_0000_0000,
{
    let ghost f = |s: int| square_value(pos@.board[s], s, w@);
    proof {
        lemma_occ(*pos);
    }
    let mut it = types::bits(pos.occ);
    let mut n: i128 = 0;
    let ghost mut seen: int = 0;
    loop
        invariant
            pos.wf(),
            f == (|s: int| square_value(pos@.board[s], s, w@)),
            forall|s: int| #[trigger] bits::bit(pos.occ, s) <==> rules::occupied(pos@, s),
            0 <= seen <= 64,
            forall|x: int| #[trigger] bits::bit(it.0, x) <==> bits::bit(pos.occ, x) && x >= seen,
            n == bits::sum_below(f, seen as nat),
            -0x8000_0000 * seen <= n <= 0x8000_0000 * seen,
        ensures
            it.0 == 0,
        decreases it.0,
    {
        let ghost rest = it.0;
        match it.next() {
            None => break,
            Some(s) => {
                proof {
                    assert(bits::bit(rest, s as int));
                    assert forall|x: int| seen <= x < s implies #[trigger] f(x) == 0 by {
                        if bits::bit(pos.occ, x) {
                            assert(bits::bit(rest, x));
                        }
                    }
                    bits::lemma_sum_gap(f, seen as nat, s as nat);
                    assert(bits::bit(pos.occ, s as int));
                }
                if let Some(p) = pos.piece_at(s) {
                    let v: i128 = w[10 + 10 * piece_type_of(p).index() + orbit(s)] as i128;
                    n = if piece_color(p) == Color::White {
                        n + v
                    } else {
                        n - v
                    };
                    assert(f(s as int) == signed(types::man_of(p as int).0, v as int));
                }
                proof {
                    seen = s + 1;
                }
            },
        }
    }
    proof {
        assert forall|x: int| seen <= x < 64 implies #[trigger] f(x) == 0 by {
            if bits::bit(pos.occ, x) {
                assert(bits::bit(it.0, x));
            }
        }
        bits::lemma_sum_gap(f, seen as nat, 64);
    }
    n
}

/// The evaluation from White's point of view, in a type that holds it whatever the
/// weights are.
fn white_wide(pos: &Position, w: &HandWeights) -> (r: i128)
    requires
        pos.wf(),
    ensures
        r == white_value(pos@, w@),
        -0x1000_0000_0000_0000_0000_0000_0000 <= r <= 0x1000_0000_0000_0000_0000_0000_0000,
{
    let lead: i128 = weighted_of(pos, Color::White, w) - weighted_of(pos, Color::Black, w);
    let scale: i32 = endgame_scale(pos, w);
    assert(-0x40_0000_0000_0000 <= lead * scale <= 0x40_0000_0000_0000) by (nonlinear_arith)
        requires
            -0x8000_0000_0000 <= lead <= 0x8000_0000_0000,
            0 <= scale <= 100,
    ;
    let material: i128 = divide(lead * scale as i128, 100);

    let (lw, vw, kw) = king_safety_counts(pos, Color::White);
    let (lb, vb, kb) = king_safety_counts(pos, Color::Black);
    let safety: i128 = times(lw - lb, w[F_LATENT]) + times(vw - vb, w[F_LIVE]) + times(
        kw - kb,
        w[F_KNIGHT_ON_KING],
    );
    let clusters: i128 = times(
        cluster_count(pos, Color::White) - cluster_count(pos, Color::Black),
        w[F_CLUSTER],
    );
    let tables: i128 = tables_of(pos, w);
    let pawns: i128 = pawn_endgame_term(pos, scale) as i128;
    let v: i128 = w[F_PAWN_ENDGAME] as i128;
    assert(-0x20_0000_0000 <= v * pawns <= 0x20_0000_0000) by (nonlinear_arith)
        requires
            -0x8000_0000 <= v <= 0x8000_0000,
            -64 <= pawns <= 64,
    ;
    let extra: i128 = times(
        knight_span_count(pos, Color::White) - knight_span_count(pos, Color::Black),
        w[F_KNIGHT_SPAN],
    ) + times(
        attack_primer_count(pos, Color::White) - attack_primer_count(pos, Color::Black),
        w[F_ATTACK_PRIMER],
    ) + v * pawns;
    proof {
        let g = pos@;
        let (wh, bl) = (Color::White, Color::Black);
        lemma_commute(w[5] as int, latent(g, wh) - latent(g, bl));
        lemma_commute(w[6] as int, live(g, wh) - live(g, bl));
        lemma_commute(w[7] as int, knights_on_king(g, wh) - knights_on_king(g, bl));
        lemma_commute(w[8] as int, cluster(g, wh) - cluster(g, bl));
        lemma_commute(w[70] as int, span_total(g, wh) - span_total(g, bl));
        lemma_commute(w[71] as int, primers(g, wh) - primers(g, bl));
    }
    material + safety + clusters + tables + extra
}

proof fn lemma_commute(a: int, b: int)
    ensures
        a * b == b * a,
{
    assert(a * b == b * a) by (nonlinear_arith);
}

/// The value fits the type of a score.
pub open spec fn fits(v: int) -> bool {
    i32::MIN <= v <= i32::MAX
}

/// Same arithmetic as the compiled-in evaluation, with the weights supplied.
/// All weight sets go through this one path, so an A/B between them compares the
/// numbers rather than two different code paths.
pub fn evaluate_white_with(pos: &Position, w: &HandWeights) -> (v: i32)
    requires
        pos.wf(),
        fits(white_value(pos@, w@)),
    ensures
        v == white_value(pos@, w@),
{
    white_wide(pos, w) as i32
}

/// Centipawns from the side to move's point of view, with the weights supplied.
pub fn evaluate_with(pos: &Position, w: &HandWeights) -> (v: i32)
    requires
        pos.wf(),
        fits(side_value(pos@, w@)),
    ensures
        v == side_value(pos@, w@),
{
    let white: i128 = white_wide(pos, w);
    if pos.side == Color::White {
        (white + w[F_TEMPO] as i128) as i32
    } else {
        (-white + w[F_TEMPO] as i128) as i32
    }
}

/// The endgame scale is a percentage of at least 35, whatever the weights.
pub proof fn law_scale_is_a_percentage(g: Game, w: Seq<i32>)
    ensures
        35 <= scale(g, w) <= 100,
{
    let start = heavy_at_start(w);
    let now = weighted_heavy(g, Color::White, w) + weighted_heavy(g, Color::Black, w);
    let (part, whole) = (heavy_part(now, start), heavy_whole(start));
    assert(0 <= (65 * part) / whole <= 65) by (nonlinear_arith)
        requires
            0 <= part <= whole,
            whole >= 1,
    ;
}

proof fn lemma_product_bound(a: int, b: int, n: int, m: int)
    requires
        -n <= a <= n,
        -m <= b <= m,
    ensures
        -(n * m) <= a * b <= n * m,
{
    assert(-(n * m) <= a * b <= n * m) by (nonlinear_arith)
        requires
            -n <= a <= n,
            -m <= b <= m,
    ;
}

/// A board holds at most 64 of anything.
proof fn lemma_counts(g: Game, c: Color)
    ensures
        forall|pt: PieceType| 0 <= #[trigger] rules::count(g, (c, pt)) <= 64,
{
    assert forall|pt: PieceType| 0 <= #[trigger] rules::count(g, (c, pt)) <= 64 by {
        bits::lemma_count_bounds(|s: int| rules::stands(g, (c, pt), s), 64);
    }
}

proof fn lemma_terms(g: Game, c: Color)
    ensures
        0 <= latent(g, c) <= 64,
        0 <= live(g, c) <= 64,
        0 <= knights_on_king(g, c) <= 64,
        0 <= primers(g, c) <= 64,
        0 <= cluster(g, c) <= 64,
        -4096 <= span_total(g, c) <= 4096,
{
    if let Some(k) = rules::king_square(g, c) {
        bits::lemma_count_bounds(|s: int| geom::adjacent(k, s) && rules::occupied(g, s), 64);
        bits::lemma_count_bounds(|s: int| detonation_point(g, c.other(), k, s), 64);
        bits::lemma_count_bounds(
            |x: int|
                rules::stands(g, (c.other(), PieceType::Knight), x) && geom::knight_span(x, k),
            64,
        );
    }
    if let Some(k) = rules::king_square(g, c.other()) {
        bits::lemma_count_bounds(|s: int| geom::adjacent(k, s) && rules::held_by(g, c, s), 64);
    }
    lemma_best_bounds(g, c, 64);
    let f = |x: int| span_yield(g, c, x);
    assert forall|x: int| 0 <= x < 64 implies -64 <= #[trigger] f(x) <= 64 by {
        bits::lemma_count_bounds(
            |t: int| geom::knight_span(x, t) && rules::held_by(g, c.other(), t),
            64,
        );
    }
    bits::lemma_sum_bounds(f, 64, 64);
}

proof fn lemma_best_bounds(g: Game, c: Color, n: int)
    ensures
        0 <= best_blast(g, c, n) <= 64,
    decreases n,
{
    if n > 0 {
        lemma_best_bounds(g, c, n - 1);
        bits::lemma_count_bounds(
            |s: int| geom::blast(n - 1, s) && rules::held_by(g, c.other(), s),
            64,
        );
    }
}

/// All weights are between -2000 and 2000.
pub open spec fn modest(w: Seq<i32>) -> bool {
    w.len() == 73 && forall|i: int| 0 <= i < 73 ==> -2000 <= #[trigger] w[i] <= 2000
}

proof fn lemma_modest_value(g: Game, w: Seq<i32>)
    requires
        modest(w),
    ensures
        -100_000_000 <= white_value(g, w) <= 100_000_000,
{
    let (wh, bl) = (Color::White, Color::Black);
    lemma_counts(g, wh);
    lemma_counts(g, bl);
    lemma_terms(g, wh);
    lemma_terms(g, bl);
    lemma_weighted_bound(g, wh, w);
    lemma_weighted_bound(g, bl, w);
    let lead = weighted(g, wh, w) - weighted(g, bl, w);
    let sc = scale(g, w);
    law_scale_is_a_percentage(g, w);
    lemma_product_bound(lead, sc, 1_280_000, 100);
    assert(-1_280_000 <= tdiv(lead * sc, 100) <= 1_280_000);
    lemma_product_bound(w[5] as int, latent(g, wh) - latent(g, bl), 2000, 64);
    lemma_product_bound(w[6] as int, live(g, wh) - live(g, bl), 2000, 64);
    lemma_product_bound(w[7] as int, knights_on_king(g, wh) - knights_on_king(g, bl), 2000, 64);
    lemma_product_bound(w[8] as int, cluster(g, wh) - cluster(g, bl), 2000, 64);
    lemma_product_bound(w[70] as int, span_total(g, wh) - span_total(g, bl), 2000, 8192);
    lemma_product_bound(w[71] as int, primers(g, wh) - primers(g, bl), 2000, 64);
    lemma_product_bound(pawn_lead(g), 100 - sc, 64, 100);
    let pe = pawn_endgame(g, sc);
    assert(-64 <= pe <= 64);
    lemma_product_bound(w[72] as int, pe, 2000, 64);
    let f = |s: int| square_value(g.board[s], s, w);
    assert forall|s: int| 0 <= s < 64 implies -2000 <= #[trigger] f(s) <= 2000 by {
        if let Some(m) = g.board[s] {
            let v = w[10 + 10 * m.1.code() + orbit_of(s)];
            assert(-2000 <= v <= 2000);
        }
    }
    bits::lemma_sum_bounds(f, 2000, 64);
}

proof fn lemma_weighted_bound(g: Game, c: Color, w: Seq<i32>)
    requires
        modest(w),
    ensures
        -640_000 <= weighted(g, c, w) <= 640_000,
{
    lemma_counts(g, c);
    lemma_product_bound(rules::count(g, (c, PieceType::Pawn)), w[0] as int, 64, 2000);
    lemma_product_bound(rules::count(g, (c, PieceType::Knight)), w[1] as int, 64, 2000);
    lemma_product_bound(rules::count(g, (c, PieceType::Bishop)), w[2] as int, 64, 2000);
    lemma_product_bound(rules::count(g, (c, PieceType::Rook)), w[3] as int, 64, 2000);
    lemma_product_bound(rules::count(g, (c, PieceType::Queen)), w[4] as int, 64, 2000);
}

/// The tuned evaluation stays within a hundred million centipawns.
pub proof fn lemma_tuned_fits(g: Game)
    ensures
        -100_000_000 <= white_value(g, TUNED_WEIGHTS@) <= 100_000_000,
        -2000 <= TUNED_WEIGHTS@[9] <= 2000,
{
    assert(modest(TUNED_WEIGHTS@));
    lemma_modest_value(g, TUNED_WEIGHTS@);
}

pub proof fn lemma_spec_fits(g: Game)
    ensures
        -100_000_000 <= white_value(g, SPEC_WEIGHTS@) <= 100_000_000,
        -2000 <= SPEC_WEIGHTS@[9] <= 2000,
{
    assert(modest(SPEC_WEIGHTS@));
    lemma_modest_value(g, SPEC_WEIGHTS@);
}

pub proof fn lemma_v2_fits(g: Game)
    ensures
        -100_000_000 <= white_value(g, TUNED_V2_WEIGHTS@) <= 100_000_000,
        -2000 <= TUNED_V2_WEIGHTS@[9] <= 2000,
{
    assert(modest(TUNED_V2_WEIGHTS@));
    lemma_modest_value(g, TUNED_V2_WEIGHTS@);
}

/// Centipawns from the side to move's point of view, using the tuned weights.
pub fn evaluate(pos: &Position) -> (v: i32)
    requires
        pos.wf(),
    ensures
        v == side_value(pos@, TUNED_WEIGHTS@),
{
    proof {
        lemma_tuned_fits(pos@);
    }
    evaluate_with(pos, &TUNED_WEIGHTS)
}

pub fn evaluate_white(pos: &Position) -> (v: i32)
    requires
        pos.wf(),
    ensures
        v == white_value(pos@, TUNED_WEIGHTS@),
{
    proof {
        lemma_tuned_fits(pos@);
    }
    evaluate_white_with(pos, &TUNED_WEIGHTS)
}

/// The terms of colour `c` depend on the board alone.
proof fn lemma_terms_by_board(g: Game, h: Game, c: Color)
    requires
        g.board == h.board,
    ensures
        forall|pt: PieceType| #[trigger] rules::count(g, (c, pt)) == rules::count(h, (c, pt)),
        latent(g, c) == latent(h, c),
        live(g, c) == live(h, c),
        knights_on_king(g, c) == knights_on_king(h, c),
        primers(g, c) == primers(h, c),
        cluster(g, c) == cluster(h, c),
        span_total(g, c) == span_total(h, c),
{
    let o = c.other();
    assert forall|pt: PieceType| #[trigger] rules::count(g, (c, pt)) == rules::count(h, (c, pt)) by {
        assert((|s: int| rules::stands(g, (c, pt), s)) =~= (|s: int|
            rules::stands(h, (c, pt), s)));
    }
    assert forall|x: Color| #[trigger] rules::king_square(g, x) == rules::king_square(h, x) by {
        assert((|s: int| rules::stands(g, (x, PieceType::King), s)) =~= (|s: int|
            rules::stands(h, (x, PieceType::King), s)));
    }
    if let Some(k) = rules::king_square(g, c) {
        assert((|s: int| geom::adjacent(k, s) && rules::occupied(g, s)) =~= (|s: int|
            geom::adjacent(k, s) && rules::occupied(h, s)));
        assert forall|s: int| detonation_point(g, o, k, s) == detonation_point(h, o, k, s) by {
            lemma_reach_by_board(g, h, o, s);
        }
        assert((|s: int| detonation_point(g, o, k, s)) =~= (|s: int|
            detonation_point(h, o, k, s)));
        assert((|x: int| rules::stands(g, (o, PieceType::Knight), x) && geom::knight_span(x, k))
            =~= (|x: int| rules::stands(h, (o, PieceType::Knight), x) && geom::knight_span(x, k)));
    }
    if let Some(k) = rules::king_square(g, o) {
        assert((|s: int| geom::adjacent(k, s) && rules::held_by(g, c, s)) =~= (|s: int|
            geom::adjacent(k, s) && rules::held_by(h, c, s)));
    }
    assert forall|x: int| #[trigger] span_yield(g, c, x) == span_yield(h, c, x) by {
        assert((|t: int| geom::knight_span(x, t) && rules::held_by(g, o, t)) =~= (|t: int|
            geom::knight_span(x, t) && rules::held_by(h, o, t)));
    }
    assert((|x: int| span_yield(g, c, x)) =~= (|x: int| span_yield(h, c, x)));
    lemma_best_by_board(g, h, c, 64);
}

proof fn lemma_reach_by_board(g: Game, h: Game, c: Color, t: int)
    requires
        g.board == h.board,
    ensures
        (exists|x: int| #[trigger] movegen::slider_reaches(g, c, x, t)) == (exists|x: int|
            #[trigger] movegen::slider_reaches(h, c, x, t)),
{
    assert forall|x: int|
        movegen::slider_reaches(g, c, x, t) == #[trigger] movegen::slider_reaches(h, c, x, t) by {
        assert(forall|y: int| #[trigger] rules::occupied(g, y) == rules::occupied(h, y));
        assert(forall|y: int| #[trigger] rules::occupied(h, y) == rules::occupied(g, y));
    }
    if exists|x: int| #[trigger] movegen::slider_reaches(g, c, x, t) {
        let x = choose|x: int| #[trigger] movegen::slider_reaches(g, c, x, t);
        assert(movegen::slider_reaches(h, c, x, t));
    }
}

proof fn lemma_best_by_board(g: Game, h: Game, c: Color, n: int)
    requires
        g.board == h.board,
    ensures
        best_blast(g, c, n) == best_blast(h, c, n),
    decreases n,
{
    if n > 0 {
        let t = n - 1;
        lemma_best_by_board(g, h, c, t);
        lemma_reach_by_board(g, h, c, t);
        assert((|s: int| geom::blast(t, s) && rules::held_by(g, c.other(), s)) =~= (|s: int|
            geom::blast(t, s) && rules::held_by(h, c.other(), s)));
    }
}

/// The evaluation from White's point of view depends on the board alone: neither on
/// whose turn it is nor on how many plies have been played.
pub proof fn law_the_board_decides_the_evaluation(g: Game, h: Game, w: Seq<i32>)
    requires
        g.board == h.board,
    ensures
        white_value(g, w) == white_value(h, w),
        scale(g, w) == scale(h, w),
{
    lemma_terms_by_board(g, h, Color::White);
    lemma_terms_by_board(g, h, Color::Black);
    assert((|s: int| square_value(g.board[s], s, w)) =~= (|s: int|
        square_value(h.board[s], s, w)));
}

/// The score is relative to the side to move, and whoever moves gets the tempo: the
/// scores of both sides on one board add up to two tempi.
pub proof fn law_the_mover_gets_the_tempo(g: Game, w: Seq<i32>)
    ensures
        side_value(g, w) + side_value((Game { side: g.side.other(), ..g }), w) == 2 * w[9],
{
    law_the_board_decides_the_evaluation(g, (Game { side: g.side.other(), ..g }), w);
}

// ---------------------------------------------------------------------------
// Evaluator
// ---------------------------------------------------------------------------

/// An evaluation that needs nothing but the position.
#[derive(Clone, Copy, PartialEq, Eq, Debug, Structural)]
pub enum Evaluator {
    /// The hand evaluation with tuned weights. This is what the engine plays.
    Hand,
    /// Candidate: the same evaluation refit with piece-square tables and three
    /// added terms.
    HandV2,
    /// The same evaluation with the starting guesses, kept as the baseline the tuned
    /// set is measured against.
    HandSpec,
}

impl Default for Evaluator {
    fn default() -> (r: Evaluator)
        ensures
            r == Evaluator::Hand,
    {
        Evaluator::Hand
    }
}

impl Evaluator {
    /// The weights behind an evaluator.
    pub open spec fn weights(self) -> Seq<i32> {
        match self {
            Evaluator::Hand => TUNED_WEIGHTS@,
            Evaluator::HandV2 => TUNED_V2_WEIGHTS@,
            Evaluator::HandSpec => SPEC_WEIGHTS@,
        }
    }

    /// The name of an evaluator.
    pub open spec fn title(self) -> Seq<char> {
        match self {
            Evaluator::Hand => "hand-tuned"@,
            Evaluator::HandV2 => "hand-v2"@,
            Evaluator::HandSpec => "hand-spec"@,
        }
    }

    pub fn eval(&self, pos: &Position) -> (v: i32)
        requires
            pos.wf(),
        ensures
            v == side_value(pos@, self.weights()),
    {
        proof {
            lemma_tuned_fits(pos@);
            lemma_v2_fits(pos@);
            lemma_spec_fits(pos@);
        }
        match self {
            Evaluator::Hand => evaluate_with(pos, &TUNED_WEIGHTS),
            Evaluator::HandV2 => evaluate_with(pos, &TUNED_V2_WEIGHTS),
            Evaluator::HandSpec => evaluate_with(pos, &SPEC_WEIGHTS),
        }
    }

    pub fn name(&self) -> (n: &'static str)
        ensures
            n@ == self.title(),
    {
        match self {
            Evaluator::Hand => "hand-tuned",
            Evaluator::HandV2 => "hand-v2",
            Evaluator::HandSpec => "hand-spec",
        }
    }
}

// ---------------------------------------------------------------------------
// Exact move delta, used for move ordering
// ---------------------------------------------------------------------------

/// What a piece counts for in move ordering.
pub open spec fn order_worth(pt: PieceType) -> int {
    if pt == PieceType::King {
        20_000
    } else {
        rules::rule_value(pt)
    }
}

/// What the move from `from` to `to` gains at `s`: an enemy piece, or the loss of an own
/// one.
pub open spec fn swing_at(g: Game, from: int, to: int, s: int) -> int {
    if rules::hits(g, from, to, s) {
        if rules::held_by(g, g.side, s) {
            -order_worth(rules::kind_on(g, s))
        } else {
            order_worth(rules::kind_on(g, s))
        }
    } else {
        0
    }
}

/// The material swing of a move, from the mover's point of view.
pub open spec fn swing(g: Game, from: int, to: int) -> int {
    bits::sum_squares(|s: int| swing_at(g, from, to, s)) - if rules::dies(g, from, to) {
        order_worth(rules::kind_on(g, from))
    } else {
        0
    }
}

/// What colour `c` has on the board by the values of move ordering: its material, and
/// 20000 for its king.
pub open spec fn stake(g: Game, c: Color) -> int {
    rules::material(g, c) + 20_000 * rules::count(g, (c, PieceType::King))
}

/// How far the side `c` is ahead by those values.
pub open spec fn stake_lead(g: Game, c: Color) -> int {
    stake(g, c) - stake(g, c.other())
}

/// What stands on a square, counted for colour `c` or against it.
spec fn holding(x: Option<Man>, c: Color) -> int {
    match x {
        Some(m) => if m.0 == c {
            order_worth(m.1)
        } else {
            -order_worth(m.1)
        },
        None => 0,
    }
}

/// The lead is what the squares hold.
proof fn lemma_lead_by_squares(g: Game, c: Color, n: nat)
    requires
        n <= 64,
    ensures
        bits::sum_below(|s: int| holding(g.board[s], c), n) == tally(g, c, n) - tally(
            g,
            c.other(),
            n,
        ),
    decreases n,
{
    if n > 0 {
        lemma_lead_by_squares(g, c, (n - 1) as nat);
        lemma_tally(g, c, n);
        lemma_tally(g, c.other(), n);
    }
}

/// The stake on the squares below `n`.
spec fn tally(g: Game, c: Color, n: nat) -> int {
    bits::count_below(|s: int| rules::stands(g, (c, PieceType::Pawn), s), n) * 25
        + bits::count_below(|s: int| rules::stands(g, (c, PieceType::Knight), s), n) * 900
        + bits::count_below(|s: int| rules::stands(g, (c, PieceType::Bishop), s), n) * 400
        + bits::count_below(|s: int| rules::stands(g, (c, PieceType::Rook), s), n) * 450
        + bits::count_below(|s: int| rules::stands(g, (c, PieceType::Queen), s), n) * 1000
        + bits::count_below(|s: int| rules::stands(g, (c, PieceType::King), s), n) * 20_000
}

proof fn lemma_tally(g: Game, c: Color, n: nat)
    requires
        0 < n <= 64,
    ensures
        tally(g, c, n) == tally(g, c, (n - 1) as nat) + if rules::held_by(g, c, n - 1) {
            order_worth(rules::kind_on(g, n - 1))
        } else {
            0
        },
{
}

/// The squares together change by the swing: the mover leaves `from`, and unless it dies
/// arrives on `to`.
proof fn lemma_swing_by_squares(g: Game, from: int, to: int, n: nat)
    requires
        g.board.len() == 64,
        rules::legal(g, from, to),
        n <= 64,
    ensures
        bits::sum_below(|s: int| holding(rules::board_after(g, from, to)[s], g.side), n)
            == bits::sum_below(|s: int| holding(g.board[s], g.side), n) + bits::sum_below(
            |s: int| swing_at(g, from, to, s),
            n,
        ) + (if to < n && !rules::dies(g, from, to) {
            order_worth(rules::kind_on(g, from))
        } else {
            0
        }) - (if from < n {
            order_worth(rules::kind_on(g, from))
        } else {
            0
        }),
    decreases n,
{
    if n > 0 {
        lemma_swing_by_squares(g, from, to, (n - 1) as nat);
        let s = n - 1;
        rules::lemma_legal_playable(g, from, to);
        if s == from {
            assert(!rules::hits(g, from, to, s));
        }
        if s == to && rules::occupied(g, to) {
            assert(rules::hits(g, from, to, s));
        }
    }
}

proof fn lemma_stake_by_kings(g: Game, c: Color)
    requires
        Position::single_kings(g),
    ensures
        stake(g, c) == rules::material(g, c) + if rules::has_king(g, c) {
            20_000int
        } else {
            0
        },
{
    let p = |s: int| rules::stands(g, (c, PieceType::King), s);
    bits::lemma_count_bounds(p, 64);
    if rules::has_king(g, c) {
        let s = choose|s: int| #[trigger] rules::stands(g, (c, PieceType::King), s);
        if bits::count_below(p, 64) == 0 {
            bits::lemma_count_zero(p, 64);
            assert(!p(s));
        }
    } else {
        assert forall|s: int| 0 <= s < 64 implies !#[trigger] p(s) by {
            assert(!rules::stands(g, (c, PieceType::King), s));
        }
        bits::lemma_count_gap(p, 0, 64);
    }
}

/// The swing of a legal move is exact: it is how much the lead of the mover grows, own
/// losses and a mover lost in its own blast counted. With no more than one king a side,
/// a side's stake is its material and 20000 while its king stands. A move that destroys
/// nothing swings nothing.
pub proof fn law_swings_are_exact(g: Game, from: int, to: int)
    requires
        g.board.len() == 64,
        rules::legal(g, from, to),
    ensures
        swing(g, from, to) == stake_lead(rules::apply(g, from, to), g.side) - stake_lead(g, g.side),
        Position::single_kings(g) ==> forall|c: Color|
            {
                &&& #[trigger] stake(g, c) == rules::material(g, c) + if rules::has_king(g, c) {
                    20_000int
                } else {
                    0
                }
                &&& stake(rules::apply(g, from, to), c) == rules::material(
                    rules::apply(g, from, to),
                    c,
                ) + if rules::has_king(rules::apply(g, from, to), c) {
                    20_000int
                } else {
                    0
                }
            },
        !rules::dies(g, from, to) && (forall|s: int| !#[trigger] rules::hits(g, from, to, s))
            ==> swing(g, from, to) == 0,
{
    let h = rules::apply(g, from, to);
    lemma_lead_by_squares(g, g.side, 64);
    lemma_lead_by_squares(h, g.side, 64);
    lemma_swing_by_squares(g, from, to, 64);
    if Position::single_kings(g) {
        rules::lemma_legal_playable(g, from, to);
        laws::law_moves_keep_kings_single(g, from, to);
        assert forall|c: Color| true implies {
            &&& #[trigger] stake(g, c) == rules::material(g, c) + if rules::has_king(g, c) {
                20_000int
            } else {
                0
            }
            &&& stake(h, c) == rules::material(h, c) + if rules::has_king(h, c) {
                20_000int
            } else {
                0
            }
        } by {
            lemma_stake_by_kings(g, c);
            lemma_stake_by_kings(h, c);
        }
    }
    if !rules::dies(g, from, to) && (forall|s: int| !#[trigger] rules::hits(g, from, to, s)) {
        bits::lemma_sum_gap(|s: int| swing_at(g, from, to, s), 0, 64);
    }
}

fn order_value(p: usize) -> (v: i32)
    ensures
        v == order_worth(types::man_of(p as int).1),
        0 <= v <= 20_000,
{
    let pt = piece_type_of(p);
    if pt == PieceType::King {
        KING_ORDER_VALUE
    } else {
        PIECE_VALUE[pt.index()]
    }
}

/// True material swing of `mv` in centipawns, from the mover's point of view.
///
/// There is no recapture sequence in this variant, so this single mask
/// intersection *is* the exact exchange value — not a static approximation.
pub fn move_delta(pos: &Position, mv: Move) -> (v: i32)
    requires
        pos.wf(),
    ensures
        v == swing(pos@, mv.src(), mv.dst()),
        -1_300_000 <= v <= 1_300_000,
{
    let (captured, mover_died) = capture_effects(pos, mv);
    let us = pos.side;
    let ghost g = pos@;
    let ghost (from, to) = (mv.src(), mv.dst());
    let ghost f = |s: int| swing_at(g, from, to, s);
    let mut it = types::bits(captured);
    let mut delta: i32 = 0;
    let ghost mut seen: int = 0;
    loop
        invariant
            pos.wf(),
            g == pos@,
            us == g.side,
            f == (|s: int| swing_at(g, from, to, s)),
            forall|s: int| #[trigger] bits::bit(captured, s) <==> rules::hits(g, from, to, s),
            0 <= seen <= 64,
            forall|x: int| #[trigger] bits::bit(it.0, x) <==> bits::bit(captured, x) && x >= seen,
            delta == bits::sum_below(f, seen as nat),
            -20_000 * seen <= delta <= 20_000 * seen,
        ensures
            it.0 == 0,
        decreases it.0,
    {
        let ghost rest = it.0;
        match it.next() {
            None => break,
            Some(s) => {
                proof {
                    assert(bits::bit(rest, s as int));
                    assert forall|x: int| seen <= x < s implies #[trigger] f(x) == 0 by {
                        if bits::bit(captured, x) {
                            assert(bits::bit(rest, x));
                        }
                    }
                    bits::lemma_sum_gap(f, seen as nat, s as nat);
                    assert(bits::bit(captured, s as int));
                }
                if let Some(p) = pos.piece_at(s) {
                    let v: i32 = order_value(p);
                    if piece_color(p) == us {
                        delta = delta - v;
                    } else {
                        delta = delta + v;
                    }
                }
                proof {
                    assert(f(s as int) == swing_at(g, from, to, s as int));
                    seen = s + 1;
                }
            },
        }
    }
    proof {
        assert forall|x: int| seen <= x < 64 implies #[trigger] f(x) == 0 by {
            if bits::bit(captured, x) {
                assert(bits::bit(it.0, x));
            }
        }
        bits::lemma_sum_gap(f, seen as nat, 64);
    }
    if mover_died {
        if let Some(p) = pos.piece_at(mv.from()) {
            delta = delta - order_value(p);
        }
    }
    delta
}

// ---------------------------------------------------------------------------
// Tuning interface
// ---------------------------------------------------------------------------
//
// The evaluation is linear in its weights, so it can be written as a dot product
// of a per-position feature vector with the weight vector. That makes the weights
// fittable against labelled self-play positions.

/// The name of a feature.
pub open spec fn feature_text(i: int) -> Seq<char> {
    if i == 0 {
        "pawn"@
    } else if i == 1 {
        "knight"@
    } else if i == 2 {
        "bishop"@
    } else if i == 3 {
        "rook"@
    } else if i == 4 {
        "queen"@
    } else if i == 5 {
        "latent_detonator"@
    } else if i == 6 {
        "live_detonator"@
    } else if i == 7 {
        "knight_on_king"@
    } else if i == 8 {
        "cluster"@
    } else if i == 9 {
        "tempo"@
    } else if i < 70 {
        "pst_"@ + seq![types::kind_char(types::kind_of((i - 10) / 10))] + "_orbit"@
            + text::decimal(((i - 10) % 10) as nat)
    } else if i == 70 {
        "knight_span"@
    } else if i == 71 {
        "attack_primer"@
    } else if i == 72 {
        "pawn_endgame"@
    } else {
        "feature"@ + text::decimal(i as nat)
    }
}

/// What tells a feature's name apart.
proof fn lemma_feature_text(i: int)
    requires
        0 <= i < 73,
    ensures
        ({
            let n = feature_text(i);
            if i < 10 || i >= 70 {
                &&& n.len() == (if i == 0 || i == 3 {
                    4
                } else if i == 1 || i == 2 {
                    6
                } else if i == 4 || i == 9 {
                    5
                } else if i == 5 {
                    16
                } else if i == 6 || i == 7 {
                    14
                } else if i == 8 {
                    7
                } else if i == 70 {
                    11
                } else if i == 71 {
                    13
                } else {
                    12int
                })
                &&& n[0] == (if i == 0 || i == 72 {
                    'p'
                } else if i == 1 || i == 7 || i == 70 {
                    'k'
                } else if i == 2 {
                    'b'
                } else if i == 3 {
                    'r'
                } else if i == 4 {
                    'q'
                } else if i == 5 || i == 6 {
                    'l'
                } else if i == 8 {
                    'c'
                } else if i == 9 {
                    't'
                } else {
                    'a'
                })
                &&& i == 72 ==> n[1] == 'a'
            } else {
                &&& n.len() == 12
                &&& n[1] == 's'
                &&& n[4] == types::kind_char(types::kind_of((i - 10) / 10))
                &&& n[11] == text::digit((i - 10) % 10)
            }
        }),
{
    reveal_strlit("pawn");
    reveal_strlit("knight");
    reveal_strlit("bishop");
    reveal_strlit("rook");
    reveal_strlit("queen");
    reveal_strlit("latent_detonator");
    reveal_strlit("live_detonator");
    reveal_strlit("knight_on_king");
    reveal_strlit("cluster");
    reveal_strlit("tempo");
    reveal_strlit("pst_");
    reveal_strlit("_orbit");
    reveal_strlit("knight_span");
    reveal_strlit("attack_primer");
    reveal_strlit("pawn_endgame");
}

/// No two features share a name.
pub proof fn law_feature_names_are_distinct(i: int, j: int)
    requires
        0 <= i < 73,
        0 <= j < 73,
        i != j,
    ensures
        feature_text(i) != feature_text(j),
{
    lemma_feature_text(i);
    lemma_feature_text(j);
}

pub fn eval_feature_name(i: usize) -> (r: String)
    ensures
        r@ == feature_text(i as int),
{
    let mut out: String = String::new();
    if i < F_PST {
        out.append(
            match i {
                0 => "pawn",
                1 => "knight",
                2 => "bishop",
                3 => "rook",
                4 => "queen",
                5 => "latent_detonator",
                6 => "live_detonator",
                7 => "knight_on_king",
                8 => "cluster",
                _ => "tempo",
            },
        );
    } else if i < F_KNIGHT_SPAN {
        let k: usize = i - F_PST;
        out.append("pst_");
        out.push(PieceType::from_index(k / NUM_ORBITS).to_char());
        out.append("_orbit");
        push_decimal(&mut out, (k % NUM_ORBITS) as u128);
    } else if i == F_KNIGHT_SPAN {
        out.append("knight_span");
    } else if i == F_ATTACK_PRIMER {
        out.append("attack_primer");
    } else if i == F_PAWN_ENDGAME {
        out.append("pawn_endgame");
    } else {
        out.append("feature");
        push_decimal(&mut out, i as u128);
    }
    assert(out@ =~= feature_text(i as int));
    out
}

/// What stands on `s` counts for the piece-square feature `i`.
pub open spec fn table_mark(x: Option<Man>, s: int, i: int) -> int {
    match x {
        Some(m) => if i == 10 + 10 * m.1.code() + orbit_of(s) {
            signed(m.0, 1)
        } else {
            0
        },
        None => 0,
    }
}

/// White's lead in pieces of a type.
pub open spec fn piece_lead(g: Game, pt: PieceType) -> int {
    rules::count(g, (Color::White, pt)) - rules::count(g, (Color::Black, pt))
}

/// Feature `i` of a position, from White's point of view. The material features are plain
/// piece counts; `w` fixes the endgame scale of the last feature.
pub open spec fn feature(g: Game, w: Seq<i32>, i: int) -> int {
    let (wh, bl) = (Color::White, Color::Black);
    if i < 5 {
        piece_lead(g, types::kind_of(i))
    } else if i == 5 {
        latent(g, wh) - latent(g, bl)
    } else if i == 6 {
        live(g, wh) - live(g, bl)
    } else if i == 7 {
        knights_on_king(g, wh) - knights_on_king(g, bl)
    } else if i == 8 {
        cluster(g, wh) - cluster(g, bl)
    } else if i == 9 {
        signed(g.side, 1)
    } else if i < 70 {
        bits::sum_squares(|s: int| table_mark(g.board[s], s, i))
    } else if i == 70 {
        span_total(g, wh) - span_total(g, bl)
    } else if i == 71 {
        primers(g, wh) - primers(g, bl)
    } else {
        pawn_endgame(g, scale(g, w))
    }
}

/// Feature vector from **White's** point of view, in whole numbers. The material
/// features still have to be scaled by `endgame_scale`, which depends on the piece values
/// being fitted: it is frozen at `scale_weights`, and that is what makes the model linear
/// and fittable.
pub fn eval_feature_counts(pos: &Position, scale_weights: &HandWeights) -> (f: [i64; 73])
    requires
        pos.wf(),
    ensures
        forall|i: int| 0 <= i < 73 ==> #[trigger] f@[i] == feature(pos@, scale_weights@, i),
{
    let ghost g = pos@;
    let mut f: [i64; 73] = [0;73];
    table_counts(pos, &mut f);
    let (wh, bl) = (Color::White, Color::Black);
    f[0] = (pos.count_of(wh, PieceType::Pawn) - pos.count_of(bl, PieceType::Pawn)) as i64;
    f[1] = (pos.count_of(wh, PieceType::Knight) - pos.count_of(bl, PieceType::Knight)) as i64;
    f[2] = (pos.count_of(wh, PieceType::Bishop) - pos.count_of(bl, PieceType::Bishop)) as i64;
    f[3] = (pos.count_of(wh, PieceType::Rook) - pos.count_of(bl, PieceType::Rook)) as i64;
    f[4] = (pos.count_of(wh, PieceType::Queen) - pos.count_of(bl, PieceType::Queen)) as i64;
    let (lw, vw, kw) = king_safety_counts(pos, wh);
    let (lb, vb, kb) = king_safety_counts(pos, bl);
    f[F_LATENT] = (lw - lb) as i64;
    f[F_LIVE] = (vw - vb) as i64;
    f[F_KNIGHT_ON_KING] = (kw - kb) as i64;
    f[F_CLUSTER] = (cluster_count(pos, wh) - cluster_count(pos, bl)) as i64;
    f[F_TEMPO] = if pos.side == Color::White {
        1
    } else {
        -1
    };
    f[F_KNIGHT_SPAN] = (knight_span_count(pos, wh) - knight_span_count(pos, bl)) as i64;
    f[F_ATTACK_PRIMER] = (attack_primer_count(pos, wh) - attack_primer_count(pos, bl)) as i64;
    f[F_PAWN_ENDGAME] = pawn_endgame_term(pos, endgame_scale(pos, scale_weights)) as i64;
    f
}

/// Counts the piece-square features into `f`.
fn table_counts(pos: &Position, f: &mut [i64; 73])
    requires
        pos.wf(),
        forall|i: int| 0 <= i < 73 ==> #[trigger] old(f)@[i] == 0,
    ensures
        forall|i: int|
            10 <= i < 70 ==> #[trigger] final(f)@[i] == bits::sum_squares(
                |s: int| table_mark(pos@.board[s], s, i),
            ),
{
    proof {
        lemma_occ(*pos);
    }
    let mut it = types::bits(pos.occ);
    let ghost mut seen: int = 0;
    loop
        invariant
            pos.wf(),
            forall|s: int| #[trigger] bits::bit(pos.occ, s) <==> rules::occupied(pos@, s),
            0 <= seen <= 64,
            forall|x: int| #[trigger] bits::bit(it.0, x) <==> bits::bit(pos.occ, x) && x >= seen,
            forall|i: int|
                10 <= i < 70 ==> #[trigger] f@[i] == bits::sum_below(
                    |s: int| table_mark(pos@.board[s], s, i),
                    seen as nat,
                ),
            forall|i: int| 10 <= i < 70 ==> -seen <= #[trigger] f@[i] <= seen,
        ensures
            it.0 == 0,
        decreases it.0,
    {
        let ghost rest = it.0;
        match it.next() {
            None => break,
            Some(s) => {
                let ghost before = f@;
                proof {
                    assert(bits::bit(rest, s as int));
                    assert(bits::bit(pos.occ, s as int));
                    assert forall|i: int| 10 <= i < 70 implies before[i] == bits::sum_below(
                        |t: int| table_mark(pos@.board[t], t, i),
                        s as nat,
                    ) by {
                        lemma_no_marks(*pos, rest, seen, s as int, i);
                    }
                }
                if let Some(p) = pos.piece_at(s) {
                    let at: usize = 10 + 10 * piece_type_of(p).index() + orbit(s);
                    let v: i64 = f[at];
                    f[at] = if piece_color(p) == Color::White {
                        v + 1
                    } else {
                        v - 1
                    };
                }
                proof {
                    assert forall|i: int| 10 <= i < 70 implies #[trigger] f@[i] == bits::sum_below(
                        |t: int| table_mark(pos@.board[t], t, i),
                        (s + 1) as nat,
                    ) by {
                        assert(before[i] == bits::sum_below(
                            |t: int| table_mark(pos@.board[t], t, i),
                            s as nat,
                        ));
                    }
                    seen = s + 1;
                }
            },
        }
    }
    proof {
        assert forall|i: int| 10 <= i < 70 implies #[trigger] f@[i] == bits::sum_squares(
            |s: int| table_mark(pos@.board[s], s, i),
        ) by {
            lemma_no_marks(*pos, it.0, seen, 64, i);
        }
    }
}

proof fn lemma_no_marks(pos: Position, rest: u64, lo: int, hi: int, i: int)
    requires
        pos.wf(),
        0 <= lo <= hi <= 64,
        forall|s: int| #[trigger] bits::bit(pos.occ, s) <==> rules::occupied(pos@, s),
        forall|x: int| #[trigger] bits::bit(rest, x) <==> bits::bit(pos.occ, x) && x >= lo,
        forall|x: int| #[trigger] bits::bit(rest, x) ==> x >= hi,
    ensures
        bits::sum_below(|s: int| table_mark(pos@.board[s], s, i), hi as nat) == bits::sum_below(
            |s: int| table_mark(pos@.board[s], s, i),
            lo as nat,
        ),
{
    let f = |s: int| table_mark(pos@.board[s], s, i);
    assert forall|x: int| lo <= x < hi implies #[trigger] f(x) == 0 by {
        if bits::bit(pos.occ, x) {
            assert(bits::bit(rest, x));
        }
    }
    bits::lemma_sum_gap(f, lo as nat, hi as nat);
}

/// Features times weights, from feature `lo` up to `hi`.
pub open spec fn dot(g: Game, w: Seq<i32>, lo: int, hi: int) -> int
    decreases hi - lo,
{
    if hi <= lo {
        0
    } else {
        dot(g, w, lo, hi - 1) + feature(g, w, hi - 1) * w[hi - 1]
    }
}

/// The piece-square part of the dot product, over the squares below `n`.
spec fn table_dot(g: Game, w: Seq<i32>, n: nat, hi: int) -> int
    decreases hi,
{
    if hi <= 10 {
        0
    } else {
        table_dot(g, w, n, hi - 1) + bits::sum_below(
            |s: int| table_mark(g.board[s], s, hi - 1),
            n,
        ) * w[hi - 1]
    }
}

proof fn lemma_table_dot_zero(g: Game, w: Seq<i32>, hi: int)
    ensures
        table_dot(g, w, 0, hi) == 0,
    decreases hi,
{
    if hi > 10 {
        lemma_table_dot_zero(g, w, hi - 1);
        assert(0 * w[hi - 1] == 0);
    }
}

proof fn lemma_table_dot_step(g: Game, w: Seq<i32>, n: nat, hi: int)
    requires
        0 < n <= 64,
        10 <= hi <= 70,
    ensures
        table_dot(g, w, n, hi) == table_dot(g, w, (n - 1) as nat, hi) + (match g.board[n - 1] {
            Some(m) => if 10 + 10 * m.1.code() + orbit_of(n - 1) < hi {
                square_value(g.board[n - 1], n - 1, w)
            } else {
                0
            },
            None => 0,
        }),
    decreases hi,
{
    if hi > 10 {
        lemma_table_dot_step(g, w, n, hi - 1);
        let a = bits::sum_below(|s: int| table_mark(g.board[s], s, hi - 1), (n - 1) as nat);
        let d = table_mark(g.board[n - 1], n - 1, hi - 1);
        assert((a + d) * w[hi - 1] == a * w[hi - 1] + d * w[hi - 1]) by (nonlinear_arith);
        let x = w[hi - 1] as int;
        lemma_unit_product(d, x);
    }
}

proof fn lemma_unit_product(d: int, x: int)
    ensures
        d == 0 ==> d * x == 0,
        d == 1 ==> d * x == x,
        d == -1 ==> d * x == -x,
{
}

proof fn lemma_table_dot(g: Game, w: Seq<i32>, n: nat)
    requires
        n <= 64,
    ensures
        table_dot(g, w, n, 70) == bits::sum_below(
            |s: int| square_value(g.board[s], s, w),
            n,
        ),
    decreases n,
{
    if n == 0 {
        lemma_table_dot_zero(g, w, 70);
    } else {
        lemma_table_dot(g, w, (n - 1) as nat);
        lemma_table_dot_step(g, w, n, 70);
    }
}

proof fn lemma_dot_tables(g: Game, w: Seq<i32>, hi: int)
    requires
        10 <= hi <= 70,
    ensures
        dot(g, w, 5, hi) == dot(g, w, 5, 10) + table_dot(g, w, 64, hi),
    decreases hi,
{
    if hi > 10 {
        lemma_dot_tables(g, w, hi - 1);
    }
}

proof fn lemma_distribute(a: int, b: int, w: int)
    ensures
        (a - b) * w == a * w - b * w,
        w * (a - b) == (a - b) * w,
{
    assert((a - b) * w == a * w - b * w) by (nonlinear_arith);
    assert(w * (a - b) == (a - b) * w) by (nonlinear_arith);
}

/// The feature model is the evaluation: the weighted material features scaled by the
/// endgame factor, plus all other features times their weights, give the evaluation from
/// White's point of view with the tempo counted for the side to move.
pub proof fn law_feature_model_is_the_evaluation(g: Game, w: Seq<i32>)
    ensures
        white_value(g, w) + signed(g.side, w[9] as int) == tdiv(
            dot(g, w, 0, 5) * scale(g, w),
            100,
        ) + dot(g, w, 5, 73),
{
    let (wh, bl) = (Color::White, Color::Black);
    lemma_distribute(
        rules::count(g, (wh, PieceType::Pawn)),
        rules::count(g, (bl, PieceType::Pawn)),
        w[0] as int,
    );
    lemma_distribute(
        rules::count(g, (wh, PieceType::Knight)),
        rules::count(g, (bl, PieceType::Knight)),
        w[1] as int,
    );
    lemma_distribute(
        rules::count(g, (wh, PieceType::Bishop)),
        rules::count(g, (bl, PieceType::Bishop)),
        w[2] as int,
    );
    lemma_distribute(
        rules::count(g, (wh, PieceType::Rook)),
        rules::count(g, (bl, PieceType::Rook)),
        w[3] as int,
    );
    lemma_distribute(
        rules::count(g, (wh, PieceType::Queen)),
        rules::count(g, (bl, PieceType::Queen)),
        w[4] as int,
    );
    reveal_with_fuel(dot, 6);
    assert(dot(g, w, 0, 5) == weighted(g, wh, w) - weighted(g, bl, w));
    lemma_dot_tables(g, w, 70);
    lemma_table_dot(g, w, 64);
    lemma_distribute(latent(g, wh), latent(g, bl), w[5] as int);
    lemma_distribute(live(g, wh), live(g, bl), w[6] as int);
    lemma_distribute(knights_on_king(g, wh), knights_on_king(g, bl), w[7] as int);
    lemma_distribute(cluster(g, wh), cluster(g, bl), w[8] as int);
    lemma_distribute(span_total(g, wh), span_total(g, bl), w[70] as int);
    lemma_distribute(primers(g, wh), primers(g, bl), w[71] as int);
    lemma_distribute(pawn_endgame(g, scale(g, w)), 0, w[72] as int);
    lemma_unit_product(signed(g.side, 1), w[9] as int);
}

} // verus!
