//! What a search is worth, by minimax: no window, no table, no order of moves.
//!
//! Captures are followed until a position is quiet. A side may always stand on the static
//! value instead. A capture that loses material may be left out of the account: how much
//! that matters is seen by counting it once for the one side only and once for the other,
//! which gives two values with the search between them.

use vstd::prelude::*;
use crate::bits;
use crate::eval;
use crate::laws;
use crate::movegen;
use crate::movegen::GenMode;
use crate::plan;
use crate::plan::{Best, Bound, Deepening, Mind, Queue, Run, Setup, TtEntry};
use crate::position::{GameResult, Position};
use crate::rules;
use crate::rules::Game;
use crate::types;
use crate::types::{Color, Move, PieceType};

verus! {

// ---------------------------------------------------------------------------
// Values
// ---------------------------------------------------------------------------

/// A finished game, `ply` plies below the root: 30000 for a win, less one for each ply,
/// as much the other way for a loss, and nothing for a draw.
pub open spec fn ended(r: GameResult, side: Color, ply: int) -> int {
    match r {
        GameResult::Win(c) => if c == side {
            30_000 - ply
        } else {
            ply - 30_000
        },
        GameResult::Draw => 0,
    }
}

/// A legal move that destroys something.
pub open spec fn strikes(g: Game, from: int, to: int) -> bool {
    rules::legal(g, from, to) && exists|s: int| #[trigger] rules::hits(g, from, to, s)
}

/// The move does not set its side back in material and kings.
pub open spec fn pays(g: Game, from: int, to: int) -> bool {
    eval::stake_lead(rules::apply(g, from, to), g.side) >= eval::stake_lead(g, g.side)
}

/// The value of a position for the side to move when captures are followed to the end.
/// The side to move counts its losing captures where it hopes, and leaves them out where
/// it does not; its opponent does the opposite.
#[verifier::opaque]
pub open spec fn settle(worth: spec_fn(Game) -> int, g: Game, ply: int, hopes: bool) -> int
    decreases 128 - ply, 5000int,
{
    match rules::outcome(g) {
        Some(r) => ended(r, g.side, ply),
        None => if ply >= 127 {
            worth(g)
        } else {
            settle_among(worth, g, ply, hopes, 4096)
        },
    }
}

/// The best of standing on the static value and of the first `n` pairs of squares.
#[verifier::opaque]
pub open spec fn settle_among(
    worth: spec_fn(Game) -> int,
    g: Game,
    ply: int,
    hopes: bool,
    n: int,
) -> int
    decreases 128 - ply, n,
{
    if n <= 0 || ply >= 127 {
        worth(g)
    } else {
        let best = settle_among(worth, g, ply, hopes, n - 1);
        let (from, to) = ((n - 1) % 64, (n - 1) / 64);
        let x = -settle(worth, rules::apply(g, from, to), ply + 1, !hopes);
        if strikes(g, from, to) && (hopes || pays(g, from, to)) && x > best {
            x
        } else {
            best
        }
    }
}

/// At least what every capture that counts leads to, and at least the static value.
pub proof fn law_settling_is_maximal(
    worth: spec_fn(Game) -> int,
    g: Game,
    ply: int,
    hopes: bool,
    from: int,
    to: int,
)
    requires
        rules::outcome(g) is None,
        ply < 127,
        strikes(g, from, to),
        hopes || pays(g, from, to),
    ensures
        settle(worth, g, ply, hopes) >= worth(g),
        settle(worth, g, ply, hopes) >= -settle(
            worth,
            rules::apply(g, from, to),
            ply + 1,
            !hopes,
        ),
{
    reveal(settle);
    reveal(settle_among);
    assert(0 <= from < 64 && 0 <= to < 64);
    lemma_among_covers(worth, g, ply, hopes, 4096, from, to);
}

proof fn lemma_among_covers(
    worth: spec_fn(Game) -> int,
    g: Game,
    ply: int,
    hopes: bool,
    n: int,
    from: int,
    to: int,
)
    requires
        ply < 127,
        0 <= from < 64,
        0 <= to < 64,
    ensures
        settle_among(worth, g, ply, hopes, n) >= worth(g),
        strikes(g, from, to) && (hopes || pays(g, from, to)) && from + 64 * to < n
            ==> settle_among(worth, g, ply, hopes, n) >= -settle(
            worth,
            rules::apply(g, from, to),
            ply + 1,
            !hopes,
        ),
    decreases n,
{
    reveal(settle_among);
    reveal(settle);
    if n > 0 {
        lemma_among_covers(worth, g, ply, hopes, n - 1, from, to);
        if from + 64 * to == n - 1 {
            assert((n - 1) % 64 == from && (n - 1) / 64 == to);
        }
    }
}

/// And no more than that: a bound on the static value and on every capture that counts
/// bounds the value.
pub proof fn law_settling_is_attained(
    worth: spec_fn(Game) -> int,
    g: Game,
    ply: int,
    hopes: bool,
    v: int,
)
    requires
        rules::outcome(g) is None,
        worth(g) <= v,
        forall|from: int, to: int|
            strikes(g, from, to) && (hopes || pays(g, from, to)) ==> -settle(
                worth,
                #[trigger] rules::apply(g, from, to),
                ply + 1,
                !hopes,
            ) <= v,
    ensures
        settle(worth, g, ply, hopes) <= v,
{
    reveal(settle);
    reveal(settle_among);
    if ply < 127 {
        lemma_among_bounded(worth, g, ply, hopes, 4096, v);
    }
}

proof fn lemma_among_bounded(
    worth: spec_fn(Game) -> int,
    g: Game,
    ply: int,
    hopes: bool,
    n: int,
    v: int,
)
    requires
        worth(g) <= v,
        forall|from: int, to: int|
            strikes(g, from, to) && (hopes || pays(g, from, to)) ==> -settle(
                worth,
                #[trigger] rules::apply(g, from, to),
                ply + 1,
                !hopes,
            ) <= v,
    ensures
        settle_among(worth, g, ply, hopes, n) <= v,
    decreases n,
{
    reveal(settle_among);
    reveal(settle);
    if n > 0 && ply < 127 {
        lemma_among_bounded(worth, g, ply, hopes, n - 1, v);
        let h = rules::apply(g, (n - 1) % 64, (n - 1) / 64);
    }
}

// ---------------------------------------------------------------------------
// Quiescence
// ---------------------------------------------------------------------------

/// A board with no more than the standard pieces.
pub open spec fn ordinary(g: Game) -> bool {
    &&& g.board.len() == 64
    &&& laws::standard(g, Color::White)
    &&& laws::standard(g, Color::Black)
}

proof fn lemma_stays_ordinary(g: Game, from: int, to: int)
    requires
        ordinary(g),
        rules::legal(g, from, to),
    ensures
        ordinary(rules::apply(g, from, to)),
{
    rules::lemma_legal_playable(g, from, to);
    laws::law_moves_keep_material_standard(g, from, to, Color::White);
    laws::law_moves_keep_material_standard(g, from, to, Color::Black);
}

/// The lists of an ordinary board in play are whole.
proof fn lemma_whole_list(g: Game, mode: GenMode)
    requires
        ordinary(g),
        rules::outcome(g) is None,
    ensures
        plan::considered(g, mode) == movegen::generated(g, mode),
        forall|m: Move| #[trigger]
            plan::considered(g, mode).contains(m) <==> m == types::move_of(m.src(), m.dst())
                && movegen::wanted(g, mode, m.src(), m.dst()),
{
    laws::law_no_move_is_dropped(g, mode);
    laws::law_generated_members(g, mode);
}

proof fn lemma_swing_fits(g: Game, from: int, to: int)
    ensures
        -1_300_000 <= eval::swing(g, from, to) <= 1_300_000,
{
    let f = |s: int| eval::swing_at(g, from, to, s);
    assert forall|s: int| 0 <= s < 64 implies -20_000 <= #[trigger] f(s) <= 20_000 by {}
    bits::lemma_sum_bounds(f, 20_000, 64);
}

/// The queue from `i` on holds captures with their swings.
spec fn captures_left(g: Game, q: Queue, i: int) -> bool {
    &&& q.moves.len() == q.scores.len()
    &&& forall|k: int|
        #![trigger q.moves[k]]
        i <= k < q.moves.len() ==> {
            &&& q.moves[k] == types::move_of(q.moves[k].src(), q.moves[k].dst())
            &&& strikes(g, q.moves[k].src(), q.moves[k].dst())
            &&& q.scores[k] == eval::swing(g, q.moves[k].src(), q.moves[k].dst())
        }
}

/// The move from `from` to `to` is in the queue from `i` on.
spec fn waits(q: Queue, i: int, from: int, to: int) -> bool {
    exists|k: int|
        i <= k < q.moves.len() && #[trigger] q.moves[k] == types::move_of(from, to)
}

/// Where the move at place `k` comes from.
proof fn lemma_picked_from(q: Queue, i: int, k: int) -> (j: int)
    requires
        0 <= i <= k < q.moves.len(),
        q.moves.len() == q.scores.len(),
    ensures
        i <= j < q.moves.len(),
        plan::picked(q, i).moves[k] == q.moves[j],
        plan::picked(q, i).scores[k] == q.scores[j],
{
    let b = plan::best_place(q.scores, i, q.scores.len() as int);
    plan::lemma_best_place(q.scores, i, q.scores.len() as int);
    if k == i {
        b
    } else if k == b {
        i
    } else {
        k
    }
}

/// Where the move at place `j` goes.
proof fn lemma_picked_to(q: Queue, i: int, j: int) -> (k: int)
    requires
        0 <= i <= j < q.moves.len(),
        q.moves.len() == q.scores.len(),
    ensures
        i <= k < q.moves.len(),
        plan::picked(q, i).moves[k] == q.moves[j],
{
    let b = plan::best_place(q.scores, i, q.scores.len() as int);
    plan::lemma_best_place(q.scores, i, q.scores.len() as int);
    if j == b {
        i
    } else if j == i {
        b
    } else {
        j
    }
}

/// A move that waits after a pick is the picked one or waits behind it.
proof fn lemma_waits(q: Queue, i: int, from: int, to: int)
    requires
        0 <= i < q.moves.len(),
        q.moves.len() == q.scores.len(),
        waits(q, i, from, to),
    ensures
        plan::picked(q, i).moves[i] == types::move_of(from, to) || waits(
            plan::picked(q, i),
            i + 1,
            from,
            to,
        ),
{
    let p = plan::picked(q, i);
    let j = choose|j: int|
        i <= j < q.moves.len() && #[trigger] q.moves[j] == types::move_of(from, to);
    let k = lemma_picked_to(q, i, j);
    if k > i {
        assert(i + 1 <= k < p.moves.len() && p.moves[k] == types::move_of(from, to));
    }
}

proof fn lemma_captures_left(g: Game, q: Queue, i: int)
    requires
        0 <= i < q.moves.len(),
        captures_left(g, q, i),
    ensures
        captures_left(g, plan::picked(q, i), i),
        captures_left(g, plan::picked(q, i), i + 1),
        plan::picked(q, i).moves.len() == q.moves.len(),
{
    let p = plan::picked(q, i);
    assert forall|k: int|
        #![trigger p.moves[k]]
        i <= k < p.moves.len() implies {
        &&& p.moves[k] == types::move_of(p.moves[k].src(), p.moves[k].dst())
        &&& strikes(g, p.moves[k].src(), p.moves[k].dst())
        &&& p.scores[k] == eval::swing(g, p.moves[k].src(), p.moves[k].dst())
    } by {
        let j = lemma_picked_from(q, i, k);
        assert(q.moves[j] == types::move_of(q.moves[j].src(), q.moves[j].dst()));
    }
}

/// A score `v` from a search within a window agrees with the two values: it is no less
/// than the lower one unless it reached `beta`, and no more than the upper one unless it
/// stayed at `alpha`.
pub open spec fn agrees(v: int, lower: int, upper: int, alpha: int, beta: int) -> bool {
    &&& v < beta ==> lower <= v
    &&& v > alpha ==> v <= upper
}

/// What the move changes in the lead of its side, in material and kings.
pub open spec fn gain(g: Game, from: int, to: int) -> int {
    eval::stake_lead(rules::apply(g, from, to), g.side) - eval::stake_lead(g, g.side)
}

/// The capture from `from` to `to` says no more than `best`, if it counts: it does not
/// lose material, or could still come within 200 of `lim`.
spec fn within(
    worth: spec_fn(Game) -> int,
    g: Game,
    ply: int,
    from: int,
    to: int,
    best: int,
    lim: int,
) -> bool {
    strikes(g, from, to) && (pays(g, from, to) || worth(g) + gain(g, from, to) + 200 > lim)
        ==> -settle(
        worth,
        rules::apply(g, from, to),
        ply + 1,
        true,
    ) <= best
}

/// The captures that are settled already say no more than `best`.
spec fn counted(
    worth: spec_fn(Game) -> int,
    g: Game,
    ply: int,
    q: Queue,
    i: int,
    best: int,
    lim: int,
) -> bool {
    forall|from: int, to: int|
        0 <= from < 64 && 0 <= to < 64 && !waits(q, i, from, to) ==> #[trigger] within(
            worth,
            g,
            ply,
            from,
            to,
            best,
            lim,
        )
}

proof fn lemma_parts(from: int, to: int)
    requires
        0 <= from < 64,
        0 <= to < 64,
    ensures
        types::move_of(from, to).src() == from,
        types::move_of(from, to).dst() == to,
{
}

/// All captures together.
proof fn lemma_counted_all(
    worth: spec_fn(Game) -> int,
    g: Game,
    ply: int,
    q: Queue,
    i: int,
    best: int,
    lim: int,
)
    requires
        rules::outcome(g) is None,
        counted(worth, g, ply, q, i, best, lim),
        i >= q.moves.len(),
        worth(g) <= best,
    ensures
        settle(worth, g, ply, false) <= best,
        all_tried(worth, g, ply, best, lim),
{
    assert forall|from: int, to: int|
        strikes(g, from, to) && (pays(g, from, to) || worth(g) + gain(g, from, to) + 200
            > lim) implies -settle(
        worth,
        #[trigger] rules::apply(g, from, to),
        ply + 1,
        true,
    ) <= best by {
        assert(!waits(q, i, from, to));
        assert(within(worth, g, ply, from, to, best, lim));
    }
    law_settling_is_attained(worth, g, ply, false, best);
}

/// Every capture that does not lose material, or that could still come within 200 of
/// `lim` by what it loses, has been tried, and says no more than `v`.
pub open spec fn all_tried(worth: spec_fn(Game) -> int, g: Game, ply: int, v: int, lim: int) -> bool {
    forall|from: int, to: int|
        strikes(g, from, to) && (pays(g, from, to) || worth(g) + gain(g, from, to) + 200 > lim)
            ==> -settle(worth, #[trigger] rules::apply(g, from, to), ply + 1, true) <= v
}

/// Once the picked move is settled too, or need not be, the rest is as before.
proof fn lemma_counted_on(
    worth: spec_fn(Game) -> int,
    g: Game,
    ply: int,
    q: Queue,
    i: int,
    best: int,
    b: int,
    lim: int,
    l: int,
)
    requires
        0 <= i < q.moves.len(),
        q.moves.len() == q.scores.len(),
        counted(worth, g, ply, q, i, best, lim),
        best <= b,
        lim <= l,
        ({
            let mv = plan::picked(q, i).moves[i];
            within(worth, g, ply, mv.src(), mv.dst(), b, l)
        }),
    ensures
        counted(worth, g, ply, plan::picked(q, i), i + 1, b, l),
{
    let p = plan::picked(q, i);
    assert forall|f: int, t: int|
        0 <= f < 64 && 0 <= t < 64 && !waits(p, i + 1, f, t) implies #[trigger] within(
        worth,
        g,
        ply,
        f,
        t,
        b,
        l,
    ) by {
        if waits(q, i, f, t) {
            lemma_waits(q, i, f, t);
            lemma_parts(f, t);
        } else {
            assert(within(worth, g, ply, f, t, best, lim));
        }
    }
}

proof fn lemma_quiesce_settles(s: Setup, m: Mind, g: Game, alpha: int, beta: int, ply: int)
    requires
        ordinary(g),
        alpha < beta,
    ensures
        ({
            let (n, v) = plan::quiesce(s, m, g, alpha, beta, ply);
            &&& n.entries == m.entries
            &&& n.generation == m.generation
            &&& !n.aborted ==> agrees(
                v,
                settle(s.worth, g, ply, false),
                settle(s.worth, g, ply, true),
                alpha,
                beta,
            )
            &&& !n.aborted && v < beta && rules::outcome(g) is None && ply < 127 ==> all_tried(
                s.worth,
                g,
                ply,
                v,
                if v > alpha {
                    v
                } else {
                    alpha
                },
            )
        }),
    decreases 128 - ply, 2int, 0int,
{
    reveal(plan::quiesce);
    reveal(plan::quiesce_moves);
    reveal(settle);
    reveal(settle_among);
    let m1 = plan::enter(s, m);
    let m2 = plan::at_ply(m1, ply);
    let worth = (s.worth)(g);
    let ms = plan::considered(g, GenMode::Captures);
    if !m1.aborted && rules::outcome(g) is None && ply < 127 {
        lemma_whole_list(g, GenMode::Captures);
        lemma_among_covers(s.worth, g, ply, true, 4096, 0, 0);
        let q = Queue { moves: ms, scores: plan::swings(g, ms) };
        let a = if worth > alpha {
            worth
        } else {
            alpha
        };
        assert forall|from: int, to: int| strikes(g, from, to) && !waits(
            q,
            0,
            from,
            to,
        ) implies false by {
            let mv = types::move_of(from, to);
            lemma_parts(from, to);
            assert(movegen::wanted(g, GenMode::Captures, from, to));
            assert(ms.contains(mv));
            let k = choose|k: int| 0 <= k < ms.len() && ms[k] == mv;
            assert(q.moves[k] == types::move_of(from, to));
        }
        assert(counted(s.worth, g, ply, q, 0, worth, a)) by {
            assert forall|from: int, to: int|
                0 <= from < 64 && 0 <= to < 64 && !waits(
                    q,
                    0,
                    from,
                    to,
                ) implies #[trigger] within(s.worth, g, ply, from, to, worth, a) by {
                assert(!strikes(g, from, to));
            }
        }
        if ms.len() == 0 {
            lemma_counted_all(s.worth, g, ply, q, 0, worth, a);
        } else if worth < beta {
            assert(captures_left(g, q, 0)) by {
                assert forall|k: int|
                    #![trigger q.moves[k]]
                    0 <= k < q.moves.len() implies {
                    &&& q.moves[k] == types::move_of(q.moves[k].src(), q.moves[k].dst())
                    &&& strikes(g, q.moves[k].src(), q.moves[k].dst())
                    &&& q.scores[k] == eval::swing(g, q.moves[k].src(), q.moves[k].dst())
                } by {
                    assert(ms.contains(ms[k]));
                    lemma_swing_fits(g, ms[k].src(), ms[k].dst());
                }
            }
            lemma_captures_settle(s, m2, g, q, 0, worth, worth, alpha, a, beta, ply);
        }
    }
}

proof fn lemma_captures_settle(
    s: Setup,
    m: Mind,
    g: Game,
    q: Queue,
    i: int,
    worth: int,
    best: int,
    low: int,
    alpha: int,
    beta: int,
    ply: int,
)
    requires
        ordinary(g),
        rules::outcome(g) is None,
        ply < 127,
        worth == (s.worth)(g),
        0 <= i <= q.moves.len(),
        captures_left(g, q, i),
        alpha == (if best > low {
            best
        } else {
            low
        }),
        alpha < beta,
        worth <= best,
        best > low ==> best <= settle(s.worth, g, ply, true),
        counted(s.worth, g, ply, q, i, best, alpha),
    ensures
        ({
            let (n, v) = plan::quiesce_moves(s, m, g, q, i, worth, best, alpha, beta, ply);
            &&& n.entries == m.entries
            &&& n.generation == m.generation
            &&& !n.aborted ==> agrees(
                v,
                settle(s.worth, g, ply, false),
                settle(s.worth, g, ply, true),
                low,
                beta,
            )
            &&& !n.aborted && v < beta ==> all_tried(
                s.worth,
                g,
                ply,
                v,
                if v > low {
                    v
                } else {
                    low
                },
            )
        }),
    decreases 128 - ply, 1int, q.moves.len() - i,
{
    reveal(plan::quiesce_moves);
    reveal(plan::quiesce);
    if i >= q.moves.len() {
        lemma_counted_all(s.worth, g, ply, q, i, best, alpha);
    } else {
        let q1 = plan::picked(q, i);
        lemma_captures_left(g, q, i);
        let mv = q1.moves[i];
        let (from, to) = (mv.src(), mv.dst());
        assert(mv == types::move_of(from, to));
        let delta = q1.scores[i] as int;
        eval::law_swings_are_exact(g, from, to);
        assert(pays(g, from, to) == (delta >= 0));
        let child = rules::apply(g, from, to);
        if delta < 0 && worth + delta + 200 <= alpha {
            lemma_counted_on(s.worth, g, ply, q, i, best, best, alpha, alpha);
            lemma_captures_settle(s, m, g, q1, i + 1, worth, best, low, alpha, beta, ply);
        } else {
            lemma_stays_ordinary(g, from, to);
            reveal(plan::next);
            assert(plan::next(g, mv) == child);
            let (m1, r) = plan::quiesce(s, m, child, -beta, -alpha, ply + 1);
            lemma_quiesce_settles(s, m, child, -beta, -alpha, ply + 1);
            let score = -r;
            let b = if score > best {
                score
            } else {
                best
            };
            let a = if score > alpha {
                score
            } else {
                alpha
            };
            if !m1.aborted {
                law_settling_is_maximal(s.worth, g, ply, true, from, to);
                if a < beta {
                    lemma_counted_on(s.worth, g, ply, q, i, best, b, alpha, a);
                    lemma_captures_settle(s, m1, g, q1, i + 1, worth, b, low, a, beta, ply);
                }
            }
        }
    }
}

/// Quiescence follows the captures: its score lies between the two minimax values, as far
/// as its window lets it.
pub proof fn law_quiescence_is_minimax(
    s: Setup,
    m: Mind,
    g: Game,
    alpha: int,
    beta: int,
    ply: int,
)
    requires
        ordinary(g),
        alpha < beta,
        !plan::quiesce(s, m, g, alpha, beta, ply).0.aborted,
    ensures
        agrees(
            plan::quiesce(s, m, g, alpha, beta, ply).1,
            settle(s.worth, g, ply, false),
            settle(s.worth, g, ply, true),
            alpha,
            beta,
        ),
{
    lemma_quiesce_settles(s, m, g, alpha, beta, ply);
}

/// Quiescence leaves out hopeless captures only: one that loses so much that it could not
/// come within 200 of the score, or of `alpha`, even if nothing came of it. All others
/// have been tried, and none of them is sure of more than the score.
pub proof fn law_only_hopeless_captures_are_left_out(
    s: Setup,
    m: Mind,
    g: Game,
    alpha: int,
    beta: int,
    ply: int,
)
    requires
        ordinary(g),
        alpha < beta,
        ply < 127,
        rules::outcome(g) is None,
        !plan::quiesce(s, m, g, alpha, beta, ply).0.aborted,
        plan::quiesce(s, m, g, alpha, beta, ply).1 < beta,
    ensures
        ({
            let v = plan::quiesce(s, m, g, alpha, beta, ply).1;
            all_tried(
                s.worth,
                g,
                ply,
                v,
                if v > alpha {
                    v
                } else {
                    alpha
                },
            )
        }),
{
    lemma_quiesce_settles(s, m, g, alpha, beta, ply);
}

/// A position in play in which nothing can be captured has its static value.
pub proof fn law_quiet_positions_stand(worth: spec_fn(Game) -> int, g: Game, ply: int, hopes: bool)
    requires
        rules::outcome(g) is None,
        forall|from: int, to: int| !#[trigger] strikes(g, from, to),
    ensures
        settle(worth, g, ply, hopes) == worth(g),
{
    reveal(settle);
    reveal(settle_among);
    if ply < 127 {
        lemma_among_covers(worth, g, ply, hopes, 4096, 0, 0);
    }
    law_settling_is_attained(worth, g, ply, hopes, worth(g));
}

/// Taking the enemy king while the own one stays is never a losing capture.
proof fn lemma_king_pays(g: Game, from: int, to: int)
    requires
        ordinary(g),
        rules::legal(g, from, to),
        rules::outcome(g) is None,
        rules::has_king(rules::apply(g, from, to), g.side),
        !rules::has_king(rules::apply(g, from, to), g.side.other()),
    ensures
        pays(g, from, to),
        strikes(g, from, to),
{
    let h = rules::apply(g, from, to);
    let (us, them) = (g.side, g.side.other());
    rules::lemma_legal_playable(g, from, to);
    laws::law_no_piece_is_gained(g, from, to, (them, PieceType::Pawn));
    laws::law_no_piece_is_gained(g, from, to, (them, PieceType::Knight));
    laws::law_no_piece_is_gained(g, from, to, (them, PieceType::Bishop));
    laws::law_no_piece_is_gained(g, from, to, (them, PieceType::Rook));
    laws::law_no_piece_is_gained(g, from, to, (them, PieceType::Queen));
    lemma_stays_ordinary(g, from, to);
    lemma_men(g, us);
    lemma_men(h, us);
    lemma_men(g, them);
    lemma_men(h, them);
    lemma_king_count(g, us);
    lemma_king_count(h, us);
    lemma_king_count(g, them);
    lemma_king_count(h, them);
    let k = choose|x: int| #[trigger] rules::stands(g, (them, PieceType::King), x);
    assert(!rules::stands(h, (them, PieceType::King), k));
    assert(rules::hits(g, from, to, k));
}

proof fn lemma_men(g: Game, c: Color)
    ensures
        forall|pt: PieceType| #[trigger] rules::count(g, (c, pt)) >= 0,
{
    assert forall|pt: PieceType| #[trigger] rules::count(g, (c, pt)) >= 0 by {
        bits::lemma_count_bounds(|x: int| rules::stands(g, (c, pt), x), 64);
    }
}

proof fn lemma_king_count(g: Game, c: Color)
    requires
        laws::standard(g, c),
    ensures
        rules::count(g, (c, PieceType::King)) == (if rules::has_king(g, c) {
            1int
        } else {
            0
        }),
{
    let p = |x: int| rules::stands(g, (c, PieceType::King), x);
    bits::lemma_count_bounds(p, 64);
    if rules::has_king(g, c) {
        let x = choose|x: int| #[trigger] rules::stands(g, (c, PieceType::King), x);
        if bits::count_below(p, 64) == 0 {
            bits::lemma_count_zero(p, 64);
            assert(!p(x));
        }
    } else {
        assert forall|x: int| 0 <= x < 64 implies !#[trigger] p(x) by {
            assert(!rules::stands(g, (c, PieceType::King), x));
        }
        bits::lemma_count_gap(p, 0, 64);
    }
}

/// A king that can be taken, with the own king left standing, is taken: quiescence scores
/// such a position as a win on the next ply, unless it reached `beta` before.
pub proof fn law_a_king_that_hangs_is_taken(
    s: Setup,
    m: Mind,
    g: Game,
    alpha: int,
    beta: int,
    ply: int,
    from: int,
    to: int,
)
    requires
        ordinary(g),
        alpha < beta,
        ply < 127,
        rules::outcome(g) is None,
        rules::legal(g, from, to),
        rules::has_king(rules::apply(g, from, to), g.side),
        !rules::has_king(rules::apply(g, from, to), g.side.other()),
        !plan::quiesce(s, m, g, alpha, beta, ply).0.aborted,
    ensures
        plan::quiesce(s, m, g, alpha, beta, ply).1 >= beta || plan::quiesce(
            s,
            m,
            g,
            alpha,
            beta,
            ply,
        ).1 >= 30_000 - (ply + 1),
{
    let h = rules::apply(g, from, to);
    lemma_king_pays(g, from, to);
    law_quiescence_is_minimax(s, m, g, alpha, beta, ply);
    law_settling_is_maximal(s.worth, g, ply, false, from, to);
    reveal(settle);
    reveal(settle_among);
    assert(rules::outcome(h) == Some(GameResult::Win(g.side)));
    assert(settle(s.worth, h, ply + 1, true) == ply + 1 - 30_000);
}

// ---------------------------------------------------------------------------
// One ply and the captures after it
// ---------------------------------------------------------------------------

/// The best of the moves that the search considers, each followed by captures alone, out
/// of the first `n` pairs of squares; -32000 where there is none.
#[verifier::opaque]
pub open spec fn one_ply(
    worth: spec_fn(Game) -> int,
    g: Game,
    ply: int,
    hopes: bool,
    n: int,
) -> int
    decreases n,
{
    if n <= 0 {
        -32_000
    } else {
        let best = one_ply(worth, g, ply, hopes, n - 1);
        let (from, to) = ((n - 1) % 64, (n - 1) / 64);
        let x = -settle(worth, rules::apply(g, from, to), ply + 1, !hopes);
        if plan::considered(g, GenMode::Search).contains(types::move_of(from, to)) && x > best {
            x
        } else {
            best
        }
    }
}

proof fn lemma_one_ply_covers(
    worth: spec_fn(Game) -> int,
    g: Game,
    ply: int,
    hopes: bool,
    n: int,
    from: int,
    to: int,
)
    requires
        0 <= from < 64,
        0 <= to < 64,
        plan::considered(g, GenMode::Search).contains(types::move_of(from, to)),
    ensures
        from + 64 * to < n ==> one_ply(worth, g, ply, hopes, n) >= -settle(
            worth,
            rules::apply(g, from, to),
            ply + 1,
            !hopes,
        ),
    decreases n,
{
    reveal(one_ply);
    if n > 0 {
        lemma_one_ply_covers(worth, g, ply, hopes, n - 1, from, to);
        if from + 64 * to == n - 1 {
            assert((n - 1) % 64 == from && (n - 1) / 64 == to);
        }
    }
}

/// The move says no more than `best` for its side.
spec fn placed(worth: spec_fn(Game) -> int, g: Game, ply: int, mv: Move, best: int) -> bool {
    -settle(worth, rules::apply(g, mv.src(), mv.dst()), ply + 1, true) <= best
}

proof fn lemma_one_ply_bounded(
    worth: spec_fn(Game) -> int,
    g: Game,
    ply: int,
    n: int,
    v: int,
)
    requires
        n <= 4096,
        -32_000 <= v,
        forall|mv: Move|
            plan::considered(g, GenMode::Search).contains(mv) ==> #[trigger] placed(
                worth,
                g,
                ply,
                mv,
                v,
            ),
    ensures
        one_ply(worth, g, ply, false, n) <= v,
    decreases n,
{
    reveal(one_ply);
    if n > 0 {
        lemma_one_ply_bounded(worth, g, ply, n - 1, v);
        let (from, to) = ((n - 1) % 64, (n - 1) / 64);
        lemma_parts(from, to);
        if plan::considered(g, GenMode::Search).contains(types::move_of(from, to)) {
            assert(placed(worth, g, ply, types::move_of(from, to), v));
        }
    }
}

/// A node with no depth left is settled by captures.
proof fn lemma_leaf_settles(
    s: Setup,
    m: Mind,
    g: Game,
    drift: u64,
    depth: int,
    alpha: int,
    beta: int,
    ply: int,
    pv: bool,
)
    requires
        ordinary(g),
        alpha < beta,
        depth <= 0,
    ensures
        ({
            let (n, v) = plan::negamax(s, m, g, drift, depth, alpha, beta, ply, pv);
            &&& n.entries == m.entries
            &&& n.generation == m.generation
            &&& !n.aborted ==> agrees(
                v,
                settle(s.worth, g, ply, false),
                settle(s.worth, g, ply, true),
                alpha,
                beta,
            )
        }),
{
    reveal(plan::negamax);
    reveal(plan::negamax_open);
    let m2 = plan::at_ply(plan::enter(s, m), ply);
    lemma_quiesce_settles(s, m2, g, alpha, beta, ply);
    assert((rules::outcome(g) is Some || ply >= 127) ==> settle(s.worth, g, ply, false) == settle(
        s.worth,
        g,
        ply,
        true,
    ) && settle(s.worth, g, ply, false) == (match rules::outcome(g) {
        Some(r) => ended(r, g.side, ply),
        None => (s.worth)(g),
    })) by {
        reveal(settle);
        reveal(settle_among);
    }
}

/// A look at a move with one ply left agrees with what captures settle after it.
proof fn lemma_look_settles(
    s: Setup,
    m: Mind,
    child: Game,
    drift: u64,
    i: int,
    alpha: int,
    beta: int,
    ply: int,
    pv: bool,
)
    requires
        ordinary(child),
        alpha < beta,
        ply < 127,
    ensures
        ({
            let (n, v) = plan::look(s, m, child, drift, i, 1, 0, alpha, beta, ply, pv);
            &&& n.entries == m.entries
            &&& n.generation == m.generation
            &&& !n.aborted ==> agrees(
                v,
                -settle(s.worth, child, ply + 1, true),
                -settle(s.worth, child, ply + 1, false),
                alpha,
                beta,
            )
        }),
{
    reveal(plan::look);
    reveal(plan::negamax);
    if i == 0 {
        lemma_leaf_settles(s, m, child, drift, 0, -beta, -alpha, ply + 1, pv);
    } else {
        let (m1, r) = plan::negamax(s, m, child, drift, 0, -alpha - 1, -alpha, ply + 1, false);
        lemma_leaf_settles(s, m, child, drift, 0, -alpha - 1, -alpha, ply + 1, false);
        if -r > alpha && -r < beta {
            lemma_leaf_settles(s, m1, child, drift, 0, -beta, -alpha, ply + 1, pv);
            lemma_aborted_stays(s, m1, child, drift, 0, -beta, -alpha, ply + 1, pv);
        }
    }
}

/// An aborted search stays aborted.
proof fn lemma_aborted_stays(
    s: Setup,
    m: Mind,
    g: Game,
    drift: u64,
    depth: int,
    alpha: int,
    beta: int,
    ply: int,
    pv: bool,
)
    ensures
        m.aborted ==> plan::negamax(s, m, g, drift, depth, alpha, beta, ply, pv).0.aborted,
{
    reveal(plan::negamax);
    reveal(plan::negamax_open);
}

/// The queue from `i` on holds moves that the search considers.
spec fn moves_left(g: Game, q: Queue, i: int) -> bool {
    &&& q.moves.len() == q.scores.len()
    &&& forall|k: int|
        i <= k < q.moves.len() ==> plan::considered(g, GenMode::Search).contains(
            #[trigger] q.moves[k],
        )
}

/// `mv` is in the queue from `i` on.
spec fn awaits(q: Queue, i: int, mv: Move) -> bool {
    exists|k: int| i <= k < q.moves.len() && #[trigger] q.moves[k] == mv
}

proof fn lemma_moves_left(g: Game, q: Queue, i: int)
    requires
        0 <= i < q.moves.len(),
        moves_left(g, q, i),
    ensures
        moves_left(g, plan::picked(q, i), i + 1),
        plan::considered(g, GenMode::Search).contains(plan::picked(q, i).moves[i]),
        plan::picked(q, i).moves.len() == q.moves.len(),
{
    let p = plan::picked(q, i);
    assert forall|k: int| i <= k < p.moves.len() implies plan::considered(
        g,
        GenMode::Search,
    ).contains(#[trigger] p.moves[k]) by {
        let j = lemma_picked_from(q, i, k);
        assert(plan::considered(g, GenMode::Search).contains(q.moves[j]));
    }
}

proof fn lemma_awaits(q: Queue, i: int, mv: Move)
    requires
        0 <= i < q.moves.len(),
        q.moves.len() == q.scores.len(),
        awaits(q, i, mv),
    ensures
        plan::picked(q, i).moves[i] == mv || awaits(plan::picked(q, i), i + 1, mv),
{
    let p = plan::picked(q, i);
    let j = choose|j: int| i <= j < q.moves.len() && #[trigger] q.moves[j] == mv;
    let k = lemma_picked_to(q, i, j);
    if k > i {
        assert(i + 1 <= k < p.moves.len() && p.moves[k] == mv);
    }
}

/// The moves that have been looked at say no more than `best`.
spec fn ranked(worth: spec_fn(Game) -> int, g: Game, ply: int, q: Queue, i: int, best: int) -> bool {
    forall|mv: Move|
        plan::considered(g, GenMode::Search).contains(mv) && !awaits(q, i, mv)
            ==> #[trigger] placed(worth, g, ply, mv, best)
}

proof fn lemma_ranked_on(
    worth: spec_fn(Game) -> int,
    g: Game,
    ply: int,
    q: Queue,
    i: int,
    best: int,
    b: int,
)
    requires
        0 <= i < q.moves.len(),
        q.moves.len() == q.scores.len(),
        ranked(worth, g, ply, q, i, best),
        best <= b,
        placed(worth, g, ply, plan::picked(q, i).moves[i], b),
    ensures
        ranked(worth, g, ply, plan::picked(q, i), i + 1, b),
{
    let p = plan::picked(q, i);
    assert forall|mv: Move|
        plan::considered(g, GenMode::Search).contains(mv) && !awaits(
            p,
            i + 1,
            mv,
        ) implies #[trigger] placed(worth, g, ply, mv, b) by {
        if awaits(q, i, mv) {
            lemma_awaits(q, i, mv);
        } else {
            assert(placed(worth, g, ply, mv, best));
        }
    }
}

/// The move named is as good as its score: captures after it settle for no more than
/// that.
pub open spec fn justified(worth: spec_fn(Game) -> int, g: Game, ply: int, mv: Move, v: int) -> bool {
    &&& plan::considered(g, GenMode::Search).contains(mv)
    &&& v <= -settle(worth, rules::apply(g, mv.src(), mv.dst()), ply + 1, false)
}

/// What the table says of a score from a window: exactly, at least or at most.
pub open spec fn bound_for(v: int, alpha: int, beta: int) -> Bound {
    if v >= beta {
        Bound::Lower
    } else if v > alpha {
        Bound::Exact
    } else {
        Bound::Upper
    }
}

proof fn lemma_moves_settle(
    s: Setup,
    m: Mind,
    g: Game,
    drift: u64,
    q: Queue,
    i: int,
    low: int,
    alpha: int,
    beta: int,
    ply: int,
    pv: bool,
    best: Best,
) -> (mv: Move)
    requires
        ordinary(g),
        rules::outcome(g) is None,
        ply < 127,
        0 <= i <= q.moves.len(),
        moves_left(g, q, i),
        low >= -32_000,
        alpha == (if best.score > low {
            best.score
        } else {
            low
        }),
        alpha < beta,
        best.score >= -32_000,
        best.bound == bound_for(best.score, low, beta),
        best.score > low ==> justified(s.worth, g, ply, best.mv, best.score),
        ranked(s.worth, g, ply, q, i, best.score),
    ensures
        ({
            let (n, v) = plan::negamax_moves(
                s,
                m,
                g,
                drift,
                q,
                i,
                1,
                alpha,
                beta,
                ply,
                pv,
                best,
            );
            &&& n.generation == m.generation
            &&& !n.aborted ==> {
                &&& v < beta ==> one_ply(s.worth, g, ply, false, 4096) <= v
                &&& v > low ==> justified(s.worth, g, ply, mv, v)
                &&& n.entries == plan::stored(
                    m.entries,
                    m.generation,
                    plan::table_key(plan::key_of(g, drift), g.ply),
                    mv,
                    plan::stored_score(v, ply),
                    1,
                    bound_for(v, low, beta),
                )
            }
        }),
    decreases q.moves.len() - i,
{
    reveal(plan::negamax_moves);
    reveal(plan::look);
    if i >= q.moves.len() {
        assert forall|mv: Move|
            plan::considered(g, GenMode::Search).contains(mv) implies #[trigger] placed(
            s.worth,
            g,
            ply,
            mv,
            best.score,
        ) by {
            assert(!awaits(q, i, mv));
        }
        lemma_one_ply_bounded(s.worth, g, ply, 4096, best.score);
        best.mv
    } else {
        let q1 = plan::picked(q, i);
        lemma_moves_left(g, q, i);
        let mv = q1.moves[i];
        lemma_whole_list(g, GenMode::Search);
        assert(rules::legal(g, mv.src(), mv.dst()));
        let child = rules::apply(g, mv.src(), mv.dst());
        lemma_stays_ordinary(g, mv.src(), mv.dst());
        assert(plan::next(g, mv) == child) by {
            reveal(plan::next);
        }
        let first = plan::first_depth(s, 1, i, !plan::loud(g, mv), pv);
        assert(first == 0);
        let (m1, score) = plan::look(s, m, child, drift, i, 1, first, alpha, beta, ply, pv);
        lemma_look_settles(s, m, child, drift, i, alpha, beta, ply, pv);
        let b = plan::improved(best, score, mv, alpha);
        let a = plan::larger(alpha, score);
        if m1.aborted {
            mv
        } else if a >= beta {
            b.mv
        } else {
            lemma_ranked_on(s.worth, g, ply, q, i, best.score, b.score);
            lemma_moves_settle(s, m1, g, drift, q1, i + 1, low, a, beta, ply, pv, b)
        }
    }
}

proof fn lemma_root_settles(
    s: Setup,
    m: Mind,
    g: Game,
    drift: u64,
    alpha: int,
    beta: int,
    ply: int,
) -> (mv: Move)
    requires
        ordinary(g),
        rules::outcome(g) is None,
        ply < 127,
        -32_000 <= alpha < beta,
    ensures
        ({
            let (n, v) = plan::negamax(s, m, g, drift, 1, alpha, beta, ply, true);
            &&& n.generation == m.generation
            &&& !n.aborted ==> {
                &&& v < beta ==> one_ply(s.worth, g, ply, false, 4096) <= v
                &&& v > alpha ==> justified(s.worth, g, ply, mv, v)
                &&& n.entries == plan::stored(
                    m.entries,
                    m.generation,
                    plan::table_key(plan::key_of(g, drift), g.ply),
                    mv,
                    plan::stored_score(v, ply),
                    1,
                    bound_for(v, alpha, beta),
                )
            }
        }),
{
    reveal(plan::negamax);
    reveal(plan::negamax_open);
    let m2 = plan::at_ply(plan::enter(s, m), ply);
    let e = plan::recall(m2.entries, plan::table_key(plan::key_of(g, drift), g.ply));
    let ms = plan::considered(g, GenMode::Search);
    laws::law_a_king_always_has_a_move(g);
    lemma_whole_list(g, GenMode::Search);
    let q = Queue {
        moves: ms,
        scores: plan::ratings(g, ms, plan::remembered(e), m2.killers[ply], m2.history),
    };
    let best = Best { score: -32_000, mv: ms[0], bound: Bound::Upper };
    assert(moves_left(g, q, 0)) by {
        assert forall|k: int| 0 <= k < q.moves.len() implies ms.contains(#[trigger] q.moves[k]) by {
            assert(ms[k] == q.moves[k]);
        }
    }
    assert(ranked(s.worth, g, ply, q, 0, -32_000)) by {
        assert forall|mv: Move| ms.contains(mv) && !awaits(q, 0, mv) implies #[trigger] placed(
            s.worth,
            g,
            ply,
            mv,
            -32_000,
        ) by {
            let k = choose|k: int| 0 <= k < ms.len() && ms[k] == mv;
            assert(q.moves[k] == mv);
        }
    }
    if plan::enter(s, m).aborted {
        ms[0]
    } else {
        let tt_move = plan::remembered(e);
        plan::lemma_open_plain(s, m2, g, drift, 1, alpha, beta, ply, true, tt_move);
        plan::lemma_all(s, m2, g, drift, 1, alpha, beta, ply, true, tt_move);
        assert(plan::negamax(s, m, g, drift, 1, alpha, beta, ply, true) == plan::negamax_moves(
            s,
            m2,
            g,
            drift,
            q,
            0,
            1,
            alpha,
            beta,
            ply,
            true,
            best,
        ));
        lemma_moves_settle(s, m2, g, drift, q, 0, alpha, alpha, beta, ply, true, best)
    }
}

/// A look one ply ahead is minimax: its score is no less than the best move is sure of
/// when captures follow, unless it reached `beta`; and where it is above `alpha`, some
/// move that the search considers is as good as that.
pub proof fn law_one_ply_is_minimax(
    s: Setup,
    m: Mind,
    g: Game,
    drift: u64,
    alpha: int,
    beta: int,
    ply: int,
)
    requires
        ordinary(g),
        rules::outcome(g) is None,
        ply < 127,
        -32_000 <= alpha < beta,
        !plan::negamax(s, m, g, drift, 1, alpha, beta, ply, true).0.aborted,
    ensures
        ({
            let v = plan::negamax(s, m, g, drift, 1, alpha, beta, ply, true).1;
            &&& v < beta ==> one_ply(s.worth, g, ply, false, 4096) <= v
            &&& v > alpha ==> v <= one_ply(s.worth, g, ply, true, 4096)
            &&& v > alpha ==> exists|mv: Move| #[trigger] justified(s.worth, g, ply, mv, v)
        }),
{
    let v = plan::negamax(s, m, g, drift, 1, alpha, beta, ply, true).1;
    let mv = lemma_root_settles(s, m, g, drift, alpha, beta, ply);
    if v > alpha {
        assert(justified(s.worth, g, ply, mv, v));
        lemma_whole_list(g, GenMode::Search);
        lemma_one_ply_covers(s.worth, g, ply, true, 4096, mv.src(), mv.dst());
    }
}

/// A search to depth one by a searcher that remembers nothing names a move that is as
/// good as the score, and the score is no less than any considered move is sure of when
/// captures follow: it neither overlooks a better move nor believes in a worse one.
pub proof fn law_a_first_search_is_minimax(s: Setup, m: Mind, g: Game, drift: u64, size: int)
    requires
        ordinary(g),
        rules::outcome(g) is None,
        plan::fresh(m, size),
        0 < size <= usize::MAX,
        plan::search(s, m, g, drift, 1).1.depth == 1,
    ensures
        ({
            let run = plan::search(s, m, g, drift, 1).1;
            &&& one_ply(s.worth, g, 0, false, 4096) <= run.score
            &&& run.score <= one_ply(s.worth, g, 0, true, 4096)
            &&& justified(s.worth, g, 0, run.best, run.score)
        }),
{
    let (key, mask) = (plan::table_key(plan::key_of(g, drift), g.ply), (size - 1) as u64);
    assert(key & mask <= mask) by (bit_vector);
    lemma_whole_list(g, GenMode::Search);
    laws::law_a_king_always_has_a_move(g);
    lemma_first_depth(s, plan::begun(m), g, drift, plan::first_window(g));
}

proof fn lemma_first_depth(s: Setup, m: Mind, g: Game, drift: u64, d: Deepening)
    requires
        ordinary(g),
        rules::outcome(g) is None,
        d.depth == 1,
        plan::full(d),
        !d.done,
        d.run.depth == 0,
        plan::deepen_all(s, m, g, drift, d, 1).1.run.depth == 1,
        0 <= plan::slot(
            plan::table_key(plan::key_of(g, drift), g.ply),
            m.entries.len() as int,
        ) < m.entries.len(),
        ({
            let key = plan::table_key(plan::key_of(g, drift), g.ply);
            let e = m.entries[plan::slot(key, m.entries.len() as int)];
            e.generation != m.generation || e.key == key && e.depth <= 1
        }),
    ensures
        ({
            let run = plan::deepen_all(s, m, g, drift, d, 1).1.run;
            &&& one_ply(s.worth, g, 0, false, 4096) <= run.score
            &&& run.score <= one_ply(s.worth, g, 0, true, 4096)
            &&& justified(s.worth, g, 0, run.best, run.score)
        }),
    decreases d.tries,
{
    let key = plan::table_key(plan::key_of(g, drift), g.ply);
    let (m1, v) = plan::negamax(s, m, g, drift, 1, -32_000, 32_000, 0, true);
    let (m2, d1) = plan::deepen(s, m, g, drift, d, 1);
    let mv = lemma_root_settles(s, m, g, drift, -32_000, 32_000, 0);
    if !m1.aborted {
        let at = plan::slot(key, m.entries.len() as int);
        assert(plan::gives_way(m.entries[at], m.generation, key, 1));
        assert(m1.entries[at].key == key && m1.entries[at].depth == 1 && m1.entries[at].mv == mv);
        if v <= -32_000 || v >= 32_000 {
            if !d1.done {
                assert(plan::further(d, d1));
                lemma_first_depth(s, m1, g, drift, d1);
            } else {
                assert(plan::deepen_all(s, m, g, drift, d, 1) == (m2, d1));
            }
        } else {
            law_one_ply_is_minimax(s, m, g, drift, -32_000, 32_000, 0);
            lemma_whole_list(g, GenMode::Search);
            assert(mv.0 != 0) by {
                if mv.0 == 0 {
                    assert(mv.src() == 0 && mv.dst() == 0);
                    rules::lemma_legal_playable(g, 0, 0);
                }
            }
            let pv = plan::line(m1.entries, g, drift, 1, Seq::empty());
            assert(plan::recall(m1.entries, key) == Some(m1.entries[at]));
            assert(pv.len() > 0 && pv[0] == mv);
            assert(d1.run.best == mv && d1.run.score == v);
            assert(d1.done);
            assert(plan::deepen_all(s, m, g, drift, d, 1) == (m2, d1));
        }
    } else {
        assert(plan::deepen_all(s, m, g, drift, d, 1) == (m2, d1));
    }
}

// ---------------------------------------------------------------------------
// Any depth
// ---------------------------------------------------------------------------

/// The search of the position after `mv`, to depth `e` within a window.
pub open spec fn reply(
    s: Setup,
    n: Mind,
    g: Game,
    drift: u64,
    mv: Move,
    e: int,
    lo: int,
    hi: int,
    ply: int,
    pv: bool,
) -> (Mind, int) {
    plan::negamax(s, n, rules::apply(g, mv.src(), mv.dst()), drift, e, lo, hi, ply + 1, pv)
}

/// The answer to `mv` has been heard out, and holds the move to `v`: one ply less deep,
/// or up to four for a late move that destroys nothing off the principal variation.
pub open spec fn heard(
    s: Setup,
    g: Game,
    drift: u64,
    depth: int,
    alpha: int,
    ply: int,
    pv: bool,
    mv: Move,
    v: int,
) -> bool {
    exists|n: Mind, e: int, lo: int, hi: int, b: bool|
        {
            let (n1, r) = #[trigger] reply(s, n, g, drift, mv, e, lo, hi, ply, b);
            &&& !n1.aborted
            &&& lo < hi
            &&& -r <= v
            &&& -hi <= v || -hi <= alpha
            &&& e == depth - 1 || {
                &&& s.lmr && !pv && depth >= 3
                &&& 1 <= e && depth - 4 <= e <= depth - 1
                &&& !rules::dies(g, mv.src(), mv.dst())
                &&& forall|x: int| !#[trigger] rules::hits(g, mv.src(), mv.dst(), x)
            }
        }
}

/// The answer to `mv`, at full depth, comes to `v` and has not been cut short.
pub open spec fn earned(
    s: Setup,
    g: Game,
    drift: u64,
    depth: int,
    ply: int,
    mv: Move,
    v: int,
) -> bool {
    &&& plan::considered(g, GenMode::Search).contains(mv)
    &&& exists|n: Mind, lo: int, hi: int, b: bool|
        {
            let (n1, r) = #[trigger] reply(s, n, g, drift, mv, depth - 1, lo, hi, ply, b);
            !n1.aborted && lo < hi && -r == v && -hi < v
        }
}

proof fn lemma_heard_more(
    s: Setup,
    g: Game,
    drift: u64,
    depth: int,
    alpha: int,
    ply: int,
    pv: bool,
    mv: Move,
    v: int,
    w: int,
)
    requires
        heard(s, g, drift, depth, alpha, ply, pv, mv, v),
        v <= w,
    ensures
        heard(s, g, drift, depth, alpha, ply, pv, mv, w),
{
    let (n, e, lo, hi, b) = choose|n: Mind, e: int, lo: int, hi: int, b: bool|
        {
            let (n1, r) = #[trigger] reply(s, n, g, drift, mv, e, lo, hi, ply, b);
            &&& !n1.aborted
            &&& lo < hi
            &&& -r <= v
            &&& -hi <= v || -hi <= alpha
            &&& e == depth - 1 || {
                &&& s.lmr && !pv && depth >= 3
                &&& 1 <= e && depth - 4 <= e <= depth - 1
                &&& !rules::dies(g, mv.src(), mv.dst())
                &&& forall|x: int| !#[trigger] rules::hits(g, mv.src(), mv.dst(), x)
            }
        };
    let (n1, r) = reply(s, n, g, drift, mv, e, lo, hi, ply, b);
    assert(-r <= w);
}

proof fn lemma_look_heard(
    s: Setup,
    m: Mind,
    g: Game,
    drift: u64,
    mv: Move,
    i: int,
    depth: int,
    low: int,
    alpha: int,
    beta: int,
    ply: int,
    pv: bool,
    best: int,
)
    requires
        ply < 127,
        depth >= 1,
        0 <= i,
        alpha == (if best > low {
            best
        } else {
            low
        }),
        alpha < beta,
        plan::considered(g, GenMode::Search).contains(mv),
    ensures
        ({
            let quiet = !plan::loud(g, mv);
            let (n, v) = plan::look(
                s,
                m,
                plan::next(g, mv),
                drift,
                i,
                depth,
                plan::first_depth(s, depth, i, quiet, pv),
                alpha,
                beta,
                ply,
                pv,
            );
            !n.aborted ==> {
                &&& heard(
                    s,
                    g,
                    drift,
                    depth,
                    low,
                    ply,
                    pv,
                    mv,
                    if v > best {
                        v
                    } else {
                        best
                    },
                )
                &&& v > alpha ==> earned(s, g, drift, depth, ply, mv, v)
            }
        }),
{
    reveal(plan::look);
    reveal(plan::negamax);
    let child = rules::apply(g, mv.src(), mv.dst());
    assert(plan::next(g, mv) == child) by {
        reveal(plan::next);
    }
    let quiet = !plan::loud(g, mv);
    let e = plan::first_depth(s, depth, i, quiet, pv);
    let (n, v) = plan::look(s, m, child, drift, i, depth, e, alpha, beta, ply, pv);
    if i == 0 {
        let (n1, r) = reply(s, m, g, drift, mv, e, -beta, -alpha, ply, pv);
        assert((n, v) == (n1, -r));
    } else {
        let (m1, r) = reply(s, m, g, drift, mv, e, -alpha - 1, -alpha, ply, false);
        if -r > alpha && (e < depth - 1 || -r < beta) {
            let (m2, r2) = reply(s, m1, g, drift, mv, depth - 1, -beta, -alpha, ply, pv);
            assert((n, v) == (m2, -r2));
        } else {
            assert((n, v) == (m1, -r));
        }
    }
}

/// All moves that have been looked at have been heard out.
spec fn all_heard(
    s: Setup,
    g: Game,
    drift: u64,
    depth: int,
    alpha: int,
    ply: int,
    pv: bool,
    q: Queue,
    i: int,
    v: int,
) -> bool {
    forall|mv: Move|
        plan::considered(g, GenMode::Search).contains(mv) && !awaits(q, i, mv)
            ==> #[trigger] heard(s, g, drift, depth, alpha, ply, pv, mv, v)
}

proof fn lemma_all_heard_on(
    s: Setup,
    g: Game,
    drift: u64,
    depth: int,
    alpha: int,
    ply: int,
    pv: bool,
    q: Queue,
    i: int,
    v: int,
    w: int,
)
    requires
        0 <= i < q.moves.len(),
        q.moves.len() == q.scores.len(),
        all_heard(s, g, drift, depth, alpha, ply, pv, q, i, v),
        v <= w,
        heard(s, g, drift, depth, alpha, ply, pv, plan::picked(q, i).moves[i], w),
    ensures
        all_heard(s, g, drift, depth, alpha, ply, pv, plan::picked(q, i), i + 1, w),
{
    let p = plan::picked(q, i);
    assert forall|mv: Move|
        plan::considered(g, GenMode::Search).contains(mv) && !awaits(
            p,
            i + 1,
            mv,
        ) implies #[trigger] heard(s, g, drift, depth, alpha, ply, pv, mv, w) by {
        if awaits(q, i, mv) {
            lemma_awaits(q, i, mv);
        } else {
            assert(heard(s, g, drift, depth, alpha, ply, pv, mv, v));
            lemma_heard_more(s, g, drift, depth, alpha, ply, pv, mv, v, w);
        }
    }
}

proof fn lemma_node(
    s: Setup,
    m: Mind,
    g: Game,
    drift: u64,
    q: Queue,
    i: int,
    depth: int,
    low: int,
    alpha: int,
    beta: int,
    ply: int,
    pv: bool,
    best: Best,
) -> (r: (Seq<TtEntry>, u8, Move))
    requires
        ply < 127,
        depth >= 1,
        0 <= i <= q.moves.len(),
        moves_left(g, q, i),
        low >= -32_000,
        alpha == (if best.score > low {
            best.score
        } else {
            low
        }),
        alpha < beta,
        best.score >= -32_000,
        best.bound == bound_for(best.score, low, beta),
        best.score > low ==> earned(s, g, drift, depth, ply, best.mv, best.score),
        all_heard(s, g, drift, depth, low, ply, pv, q, i, best.score),
    ensures
        ({
            let (n, v) = plan::negamax_moves(
                s,
                m,
                g,
                drift,
                q,
                i,
                depth,
                alpha,
                beta,
                ply,
                pv,
                best,
            );
            !n.aborted ==> {
                &&& v < beta ==> forall|mv: Move|
                    plan::considered(g, GenMode::Search).contains(mv) ==> #[trigger] heard(
                        s,
                        g,
                        drift,
                        depth,
                        low,
                        ply,
                        pv,
                        mv,
                        v,
                    )
                &&& v > low ==> earned(s, g, drift, depth, ply, r.2, v)
                &&& n.entries == plan::stored(
                    r.0,
                    r.1,
                    plan::table_key(plan::key_of(g, drift), g.ply),
                    r.2,
                    plan::stored_score(v, ply),
                    depth,
                    bound_for(v, low, beta),
                )
            }
        }),
    decreases q.moves.len() - i,
{
    reveal(plan::negamax_moves);
    reveal(plan::look);
    if i >= q.moves.len() {
        assert forall|mv: Move|
            plan::considered(g, GenMode::Search).contains(mv) implies #[trigger] heard(
            s,
            g,
            drift,
            depth,
            low,
            ply,
            pv,
            mv,
            best.score,
        ) by {
            assert(!awaits(q, i, mv));
        }
        (m.entries, m.generation, best.mv)
    } else {
        let q1 = plan::picked(q, i);
        lemma_moves_left(g, q, i);
        let mv = q1.moves[i];
        let first = plan::first_depth(s, depth, i, !plan::loud(g, mv), pv);
        let (m1, score) = plan::look(
            s,
            m,
            plan::next(g, mv),
            drift,
            i,
            depth,
            first,
            alpha,
            beta,
            ply,
            pv,
        );
        lemma_look_heard(s, m, g, drift, mv, i, depth, low, alpha, beta, ply, pv, best.score);
        let b = plan::improved(best, score, mv, alpha);
        let a = plan::larger(alpha, score);
        if m1.aborted {
            (m.entries, m.generation, mv)
        } else if a >= beta {
            let m2 = plan::credited(m1, g, mv, depth, ply);
            (m2.entries, m2.generation, b.mv)
        } else {
            lemma_all_heard_on(s, g, drift, depth, low, ply, pv, q, i, best.score, b.score);
            lemma_node(s, m1, g, drift, q1, i + 1, depth, low, a, beta, ply, pv, b)
        }
    }
}

/// At every depth a node that looks at its moves is worth the best of them. Its score, if
/// it stays below `beta`, is no less than what the answer to any move considered leaves;
/// if it is above `alpha`, it is what the answer to one of them leaves at full depth. The
/// table is told that move, and whether the score is exact or a bound.
pub proof fn law_a_node_is_worth_its_best_move(
    s: Setup,
    m: Mind,
    g: Game,
    drift: u64,
    depth: int,
    alpha: int,
    beta: int,
    ply: int,
    pv: bool,
    tt_move: Move,
)
    requires
        plan::considered(g, GenMode::Search).len() > 0,
        0 <= ply < 127,
        depth >= 1,
        -32_000 <= alpha < beta,
        !plan::negamax_all(s, m, g, drift, depth, alpha, beta, ply, pv, tt_move).0.aborted,
    ensures
        ({
            let (n, v) = plan::negamax_all(
                s,
                m,
                g,
                drift,
                depth,
                alpha,
                beta,
                ply,
                pv,
                tt_move,
            );
            &&& v < beta ==> forall|mv: Move|
                plan::considered(g, GenMode::Search).contains(mv) ==> #[trigger] heard(
                    s,
                    g,
                    drift,
                    depth,
                    alpha,
                    ply,
                    pv,
                    mv,
                    v,
                )
            &&& exists|entries: Seq<TtEntry>, generation: u8, mv: Move|
                n.entries == #[trigger] plan::stored(
                    entries,
                    generation,
                    plan::table_key(plan::key_of(g, drift), g.ply),
                    mv,
                    plan::stored_score(v, ply),
                    depth,
                    bound_for(v, alpha, beta),
                ) && (v > alpha ==> earned(s, g, drift, depth, ply, mv, v))
        }),
{
    plan::lemma_all(s, m, g, drift, depth, alpha, beta, ply, pv, tt_move);
    let ms = plan::considered(g, GenMode::Search);
    let q = Queue {
        moves: ms,
        scores: plan::ratings(g, ms, tt_move, m.killers[ply], m.history),
    };
    let best = Best { score: -32_000, mv: ms[0], bound: Bound::Upper };
    assert(moves_left(g, q, 0)) by {
        assert forall|k: int| 0 <= k < q.moves.len() implies ms.contains(#[trigger] q.moves[k]) by {
            assert(ms[k] == q.moves[k]);
        }
    }
    assert(all_heard(s, g, drift, depth, alpha, ply, pv, q, 0, -32_000)) by {
        assert forall|mv: Move| ms.contains(mv) && !awaits(q, 0, mv) implies #[trigger] heard(
            s,
            g,
            drift,
            depth,
            alpha,
            ply,
            pv,
            mv,
            -32_000,
        ) by {
            let k = choose|k: int| 0 <= k < ms.len() && ms[k] == mv;
            assert(q.moves[k] == mv);
        }
    }
    let r = lemma_node(s, m, g, drift, q, 0, depth, alpha, alpha, beta, ply, pv, best);
    let v = plan::negamax_all(s, m, g, drift, depth, alpha, beta, ply, pv, tt_move).1;
    assert(plan::negamax_all(s, m, g, drift, depth, alpha, beta, ply, pv, tt_move).0.entries
        == plan::stored(
        r.0,
        r.1,
        plan::table_key(plan::key_of(g, drift), g.ply),
        r.2,
        plan::stored_score(v, ply),
        depth,
        bound_for(v, alpha, beta),
    ));
}

/// What else a node can be: over, out of plies, out of depth and left to quiescence, or
/// settled by the table. On the principal variation the table settles nothing.
pub proof fn law_what_a_node_is(
    s: Setup,
    m: Mind,
    g: Game,
    drift: u64,
    depth: int,
    alpha: int,
    beta: int,
    ply: int,
    pv: bool,
)
    requires
        !plan::negamax(s, m, g, drift, depth, alpha, beta, ply, pv).0.aborted,
    ensures
        ({
            let (n, v) = plan::negamax(s, m, g, drift, depth, alpha, beta, ply, pv);
            &&& rules::outcome(g) matches Some(r) ==> v == ended(r, g.side, ply)
            &&& rules::outcome(g) is None && ply >= 127 ==> v == (s.worth)(g)
            &&& rules::outcome(g) is None && ply < 127 && depth <= 0 ==> exists|k: Mind|
                (n, v) == #[trigger] plan::quiesce(s, k, g, alpha, beta, ply)
            &&& rules::outcome(g) is None && ply < 127 && depth > 0 && pv ==> exists|
                k: Mind,
                mv: Move,
            |
                (n, v) == #[trigger] plan::negamax_all(
                    s,
                    k,
                    g,
                    drift,
                    depth,
                    alpha,
                    beta,
                    ply,
                    pv,
                    mv,
                )
            &&& rules::outcome(g) is None && ply < 127 && depth > 0 && !pv && !s.null_move ==> (
            exists|k: Mind, mv: Move|
                (n, v) == #[trigger] plan::negamax_all(
                    s,
                    k,
                    g,
                    drift,
                    depth,
                    alpha,
                    beta,
                    ply,
                    pv,
                    mv,
                )) || (exists|e: TtEntry| #[trigger]
                m.entries.contains(e) && e.key == plan::table_key(plan::key_of(g, drift), g.ply)
                    && e.depth >= depth && v == plan::recalled_score(e.score as int, ply) && (
                e.bound == 0 || e.bound == 1 && v >= beta || e.bound == 2 && v <= alpha))
                || m.entries.len() == 0 || plan::slot(
                plan::table_key(plan::key_of(g, drift), g.ply),
                m.entries.len() as int,
            ) >= m.entries.len()
        }),
{
    reveal(plan::negamax);
    reveal(plan::negamax_open);
    let m2 = plan::at_ply(plan::enter(s, m), ply);
    let key = plan::table_key(plan::key_of(g, drift), g.ply);
    let e = plan::recall(m2.entries, key);
    if rules::outcome(g) is None && ply < 127 {
        if depth <= 0 {
            assert(plan::negamax(s, m, g, drift, depth, alpha, beta, ply, pv) == plan::quiesce(
                s,
                m2,
                g,
                alpha,
                beta,
                ply,
            ));
        } else if plan::settled(e, depth, alpha, beta, ply, pv) is None && !plan::tries_pass(
            s,
            g,
            depth,
            beta,
            pv,
        ) {
            plan::lemma_open_plain(
                s,
                m2,
                g,
                drift,
                depth,
                alpha,
                beta,
                ply,
                pv,
                plan::remembered(e),
            );
        } else if !pv && !s.null_move {
            let at = plan::slot(key, m.entries.len() as int);
            if m.entries.len() > 0 && at < m.entries.len() {
                assert(m.entries[at] == m2.entries[at]);
                assert(m.entries.contains(m.entries[at]));
            }
        }
    }
}

/// What a search comes back with is the score of a search of the root to the depth it
/// names, within a window that holds it; and its line is what the table remembers then.
pub proof fn law_results_are_root_scores(s: Setup, m: Mind, g: Game, drift: u64, max_depth: int)
    requires
        plan::search(s, m, g, drift, max_depth).1.depth > 0,
    ensures
        ({
            let run = plan::search(s, m, g, drift, max_depth).1;
            &&& run.depth <= max_depth
            &&& exists|n: Mind, lo: int, hi: int|
                {
                    let (n1, v) = #[trigger] plan::negamax(
                        s,
                        n,
                        g,
                        drift,
                        run.depth,
                        lo,
                        hi,
                        0,
                        true,
                    );
                    &&& !n1.aborted
                    &&& lo < v < hi
                    &&& v == run.score
                    &&& run.pv == plan::line(
                        n1.entries,
                        g,
                        drift,
                        (if run.depth < 32 {
                            run.depth
                        } else {
                            32
                        }) as nat,
                        Seq::empty(),
                    )
                }
        }),
{
    lemma_result_found(s, plan::begun(m), g, drift, plan::first_window(g), max_depth);
}

/// The run is the score of a search of the root.
spec fn from_root(s: Setup, g: Game, drift: u64, run: Run) -> bool {
    exists|n: Mind, lo: int, hi: int|
        {
            let (n1, v) = #[trigger] plan::negamax(s, n, g, drift, run.depth, lo, hi, 0, true);
            &&& !n1.aborted
            &&& lo < v < hi
            &&& v == run.score
            &&& run.pv == plan::line(
                n1.entries,
                g,
                drift,
                (if run.depth < 32 {
                    run.depth
                } else {
                    32
                }) as nat,
                Seq::empty(),
            )
        }
}

proof fn lemma_result_found(
    s: Setup,
    m: Mind,
    g: Game,
    drift: u64,
    d: Deepening,
    max_depth: int,
)
    requires
        d.run.depth > 0 ==> from_root(s, g, drift, d.run) && d.run.depth <= max_depth,
    ensures
        ({
            let run = plan::deepen_all(s, m, g, drift, d, max_depth).1.run;
            run.depth > 0 ==> from_root(s, g, drift, run) && run.depth <= max_depth
        }),
    decreases max_depth - d.depth, if plan::full(d) { 0int } else { 1int }, d.tries,
{
    if !(d.done || d.depth > max_depth) {
        let (m1, d1) = plan::deepen(s, m, g, drift, d, max_depth);
        let (n1, v) = plan::negamax(s, m, g, drift, d.depth, d.alpha, d.beta, 0, true);
        if !n1.aborted && d.alpha < v < d.beta {
            let run = d1.run;
            assert(run.depth == d.depth && run.score == v);
            assert(run.pv == plan::line(
                n1.entries,
                g,
                drift,
                (if run.depth < 32 {
                    run.depth
                } else {
                    32
                }) as nat,
                Seq::empty(),
            ));
            assert(plan::negamax(s, m, g, drift, run.depth, d.alpha, d.beta, 0, true) == (n1, v));
            assert(from_root(s, g, drift, run));
        }
        if !d1.done && plan::further(d, d1) {
            lemma_result_found(s, m1, g, drift, d1, max_depth);
        }
    }
}

// ---------------------------------------------------------------------------
// The table
// ---------------------------------------------------------------------------

/// A win or loss is kept by its distance from the node: stored at one ply and recalled at
/// another, a game that ends `k` plies on from the node ends `k` plies on from there.
/// Other scores are kept as they are.
pub proof fn law_mates_are_counted_from_the_node(p: int, q: int, k: int, score: int)
    requires
        0 <= p,
        0 <= q,
        0 <= k,
        p + k <= 1000,
        q + k <= 1000,
    ensures
        plan::recalled_score(plan::stored_score(30_000 - (p + k), p), q) == 30_000 - (q + k),
        plan::recalled_score(plan::stored_score(-(30_000 - (p + k)), p), q) == -(30_000 - (q + k)),
        -29_000 < score < 29_000 ==> plan::recalled_score(plan::stored_score(score, p), q) == score,
{
}

/// What is found goes into the table over what an older search left, and over anything for
/// the same position that is no deeper; it never pushes out something deeper for the same
/// position, nor something more than three plies deeper for another, in the same search.
pub proof fn law_the_table_keeps_the_deeper(
    entries: Seq<TtEntry>,
    generation: u8,
    key: u64,
    mv: Move,
    score: int,
    depth: int,
    bound: Bound,
)
    requires
        0 <= plan::slot(key, entries.len() as int) < entries.len(),
        0 <= depth <= 127,
        -32767 <= score <= 32767,
    ensures
        ({
            let i = plan::slot(key, entries.len() as int);
            let e = entries[i];
            let after = plan::stored(entries, generation, key, mv, score, depth, bound);
            let new = TtEntry {
                key,
                mv,
                score: score as i16,
                depth: depth as i8,
                bound: match bound {
                    Bound::Exact => 0,
                    Bound::Lower => 1,
                    Bound::Upper => 2,
                },
                generation,
            };
            &&& after.len() == entries.len()
            &&& forall|j: int|
                0 <= j < entries.len() && j != i ==> #[trigger] after[j] == entries[j]
            &&& e.generation != generation ==> after[i] == new
            &&& e.key == key && e.depth <= depth ==> after[i] == new
            &&& e.generation == generation && e.key == key && e.depth > depth ==> after[i] == e
            &&& e.generation == generation && e.key != key && e.depth > depth + 3 ==> after[i] == e
            &&& e.key != key && e.depth <= depth + 3 ==> after[i] == new
        }),
{
}

/// The table answers a node off the principal variation only with an entry at least as
/// deep, and only where the score settles it: exactly, as a lower bound that reaches
/// `beta`, or as an upper bound that stays at `alpha`.
pub proof fn law_the_table_settles_with_care(
    e: TtEntry,
    depth: int,
    alpha: int,
    beta: int,
    ply: int,
    pv: bool,
)
    ensures
        plan::settled(Some(e), depth, alpha, beta, ply, true) is None,
        plan::settled(None, depth, alpha, beta, ply, pv) is None,
        plan::settled(Some(e), depth, alpha, beta, ply, pv) matches Some(v) ==> {
            &&& e.depth >= depth
            &&& v == plan::recalled_score(e.score as int, ply)
            &&& e.bound == 0 || e.bound == 1 && v >= beta || e.bound == 2 && v <= alpha
        },
        !pv && e.depth >= depth && e.bound == 0 ==> plan::settled(
            Some(e),
            depth,
            alpha,
            beta,
            ply,
            pv,
        ) is Some,
{
}

/// A pass is believed only where it may be tried and where the search after it, two plies
/// and a quarter of the depth shallower than after a move, still reaches `beta`: a side
/// with a piece besides king and pawns, well enough off as it stands, off the principal
/// variation.
pub proof fn law_a_pass_must_hold(
    s: Setup,
    m: Mind,
    g: Game,
    drift: u64,
    depth: int,
    alpha: int,
    beta: int,
    ply: int,
    pv: bool,
    tt_move: Move,
)
    requires
        !plan::negamax_open(s, m, g, drift, depth, alpha, beta, ply, pv, tt_move).0.aborted,
    ensures
        (exists|n: Mind|
            plan::negamax_open(s, m, g, drift, depth, alpha, beta, ply, pv, tt_move)
                == #[trigger] plan::negamax_all(
                s,
                n,
                g,
                drift,
                depth,
                alpha,
                beta,
                ply,
                pv,
                tt_move,
            )) || {
            &&& plan::negamax_open(s, m, g, drift, depth, alpha, beta, ply, pv, tt_move).1 == beta
            &&& s.null_move && !pv && depth >= 3 && (s.worth)(g) >= beta
            &&& exists|x: int| #[trigger]
                rules::held_by(g, g.side, x) && rules::kind_on(g, x) != PieceType::King
                    && rules::kind_on(g, x) != PieceType::Pawn
            &&& -plan::negamax(
                s,
                m,
                (Game { side: g.side.other(), ply: g.ply + 1, ..g }),
                drift,
                depth - 3 - depth / 4,
                -beta,
                1 - beta,
                ply + 1,
                false,
            ).1 >= beta
        },
{
    reveal(plan::negamax_open);
    reveal(plan::negamax_all);
    reveal(plan::negamax);
    if ply < 127 && plan::tries_pass(s, g, depth, beta, pv) {
        let x = choose|x: int| #[trigger]
            rules::heavy_on(g, x) && rules::held_by(g, g.side, x);
        assert(rules::held_by(g, g.side, x));
        let (m1, r) = plan::negamax(
            s,
            m,
            plan::passed(g),
            drift,
            depth - (2 + depth / 4) - 1,
            -beta,
            -beta + 1,
            ply + 1,
            false,
        );
        if !m1.aborted && -r < beta {
            assert(plan::negamax_open(s, m, g, drift, depth, alpha, beta, ply, pv, tt_move)
                == plan::negamax_all(
                s,
                m1,
                g,
                drift,
                depth,
                alpha,
                beta,
                ply,
                pv,
                tt_move,
            ));
        }
    } else {
        assert(plan::negamax_open(s, m, g, drift, depth, alpha, beta, ply, pv, tt_move)
            == plan::negamax_all(s, m, g, drift, depth, alpha, beta, ply, pv, tt_move));
    }
}

/// The remembered move is rated first; of two moves that change the material balance the
/// better one; and one that gains material before one that changes nothing.
pub proof fn law_promising_moves_come_first(
    g: Game,
    a: Move,
    b: Move,
    tt_move: Move,
    killers: (Move, Move),
    history: Seq<i32>,
)
    requires
        a != b,
        b != tt_move,
    ensures
        a == tt_move && eval::swing(g, b.src(), b.dst()) <= 1_300_000 ==> plan::rating(
            g,
            a,
            tt_move,
            killers,
            history,
        ) > plan::rating(g, b, tt_move, killers, history),
        a != tt_move && eval::swing(g, a.src(), a.dst()) > eval::swing(g, b.src(), b.dst())
            && eval::swing(g, b.src(), b.dst()) != 0 && eval::swing(g, a.src(), a.dst()) != 0
            ==> plan::rating(g, a, tt_move, killers, history) > plan::rating(
            g,
            b,
            tt_move,
            killers,
            history,
        ),
        a != tt_move && eval::swing(g, a.src(), a.dst()) > 0 && eval::swing(g, b.src(), b.dst())
            == 0 ==> plan::rating(g, a, tt_move, killers, history) > plan::rating(
            g,
            b,
            tt_move,
            killers,
            history,
        ),
{
}

proof fn lemma_best_place_is_best(scores: Seq<i32>, from: int, to: int, j: int)
    requires
        0 <= from <= j < to <= scores.len(),
    ensures
        scores[plan::best_place(scores, from, to)] >= scores[j],
    decreases to - from,
{
    plan::lemma_best_place(scores, from, to);
    if to > from + 1 {
        plan::lemma_best_place(scores, from, to - 1);
        if j < to - 1 {
            lemma_best_place_is_best(scores, from, to - 1, j);
        }
    }
}

/// Picking brings the best-rated of the moves from `i` on to place `i`, and no move is lost
/// or doubled on the way.
pub proof fn law_the_best_rated_is_picked(q: Queue, i: int, j: int)
    requires
        0 <= i <= j < q.moves.len(),
        q.moves.len() == q.scores.len(),
    ensures
        plan::picked(q, i).scores[i] >= q.scores[j],
        plan::picked(q, i).moves.to_multiset() == q.moves.to_multiset(),
{
    let n = q.scores.len() as int;
    let b = plan::best_place(q.scores, i, n);
    plan::lemma_best_place(q.scores, i, n);
    lemma_best_place_is_best(q.scores, i, n, j);
    let p = plan::picked(q, i);
    vstd::seq_lib::to_multiset_update(q.moves, i, q.moves[b]);
    let half = q.moves.update(i, q.moves[b]);
    vstd::seq_lib::to_multiset_update(half, b, q.moves[i]);
    assert(half.update(b, q.moves[i]) =~= p.moves);
    if i == b {
        assert(p.moves =~= q.moves);
    } else {
        assert(half[b] == q.moves[b]);
        vstd::seq_lib::to_multiset_contains(q.moves, q.moves[i]);
        vstd::seq_lib::to_multiset_contains(q.moves, q.moves[b]);
        assert(p.moves.to_multiset() =~= q.moves.to_multiset());
    }
}

} // verus!
