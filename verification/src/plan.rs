//! What a search finds, as a function of what it remembers and of the answers that the
//! clock and the stop flag give it.
//!
//! A searcher keeps a transposition table, killer moves and history scores across the
//! nodes it visits. Now and then it asks whether to stop, or weighs whether the time
//! will do for another iteration. Given what the flag and the clock show it, in order,
//! everything it does is determined: which moves it looks at, what it remembers, and
//! the score it comes back with.

use vstd::prelude::*;
use crate::eval;
use crate::laws;
use crate::movegen;
use crate::movegen::GenMode;
use crate::position::GameResult;
use crate::rules;
use crate::rules::Game;
use crate::tables;
use crate::types::{Color, Move};

verus! {

// ---------------------------------------------------------------------------
// Scores
// ---------------------------------------------------------------------------

/// The score of a finished game for the side to move, `ply` plies below the root. Wins
/// are discounted by ply so the search prefers the quicker one.
pub open spec fn final_score(r: GameResult, side: Color, ply: int) -> int {
    match r {
        GameResult::Draw => 0,
        GameResult::Win(w) => if w == side {
            30_000 - ply
        } else {
            -(30_000 - ply)
        },
    }
}

/// A score as the table keeps it: wins and losses counted from the node itself.
pub open spec fn stored_score(score: int, ply: int) -> int {
    if score >= 29_000 {
        score + ply
    } else if score <= -29_000 {
        score - ply
    } else {
        score
    }
}

/// A score out of the table: wins and losses counted from the root.
pub open spec fn recalled_score(score: int, ply: int) -> int {
    if score >= 29_000 {
        score - ply
    } else if score <= -29_000 {
        score + ply
    } else {
        score
    }
}

/// Key of a position in the table. Near the ply cap the ply is part of it.
pub open spec fn table_key(key: u64, ply: int) -> u64 {
    if ply >= 168 {
        key ^ tables::ply_key(ply % 256)
    } else {
        key
    }
}

// ---------------------------------------------------------------------------
// Memory
// ---------------------------------------------------------------------------

#[derive(Clone, Copy, PartialEq, Eq, Debug, Structural)]
pub struct TtEntry {
    pub key: u64,
    pub mv: Move,
    pub score: i16,
    pub depth: i8,
    pub bound: u8,
    pub generation: u8,
}

/// The score is the value itself, at least it, or at most it.
#[derive(Clone, Copy, PartialEq, Eq, Debug, Structural)]
pub enum Bound {
    Exact,
    Lower,
    Upper,
}

impl Bound {
    pub open spec fn code(self) -> u8 {
        match self {
            Bound::Exact => 0,
            Bound::Lower => 1,
            Bound::Upper => 2,
        }
    }
}

/// An entry that holds nothing.
pub open spec fn blank_entry() -> TtEntry {
    TtEntry { key: 0, mv: Move(0), score: 0, depth: -1i8, bound: 0, generation: 0 }
}

/// What a searcher carries from node to node.
#[verifier::ext_equal]
pub struct Mind {
    /// The transposition table.
    pub entries: Seq<TtEntry>,
    pub generation: u8,
    /// Two quiet moves for each ply that refuted something there.
    pub killers: Seq<(Move, Move)>,
    /// A score for each of the 4096 moves.
    pub history: Seq<i32>,
    pub nodes: u64,
    pub seldepth: int,
    pub aborted: bool,
    /// How often the current search has asked whether to stop.
    pub asked: int,
    /// How often it has weighed whether the time will do for another iteration.
    pub weighed: int,
}

/// Nothing is remembered, in a table of `n` entries.
pub open spec fn fresh(m: Mind, n: int) -> bool {
    &&& m.entries.len() == n
    &&& forall|i: int| 0 <= i < n ==> #[trigger] m.entries[i] == blank_entry()
    &&& m.generation == 0
    &&& m.killers.len() == 128
    &&& forall|i: int| 0 <= i < 128 ==> #[trigger] m.killers[i] == (Move(0), Move(0))
    &&& m.history.len() == 4096
    &&& forall|i: int| 0 <= i < 4096 ==> #[trigger] m.history[i] == 0
}

/// What a search is shown when it asks whether to stop.
pub struct Answer {
    /// The stop flag is up. It counts only where somebody else may hold the flag.
    pub raised: bool,
    /// The time since the search began, in nanoseconds. It counts only where there is a
    /// time limit and the flag is down: nobody looks at the clock otherwise.
    pub used: u128,
}

/// What a search is given.
pub struct Setup {
    /// The static evaluation, for the side to move.
    pub worth: spec_fn(Game) -> int,
    pub null_move: bool,
    pub lmr: bool,
    pub node_limit: Option<u64>,
    /// Nobody else holds the stop flag, so it is not looked at.
    pub alone: bool,
    /// How long the search may take, in nanoseconds.
    pub deadline: Option<u128>,
    /// What it is shown whenever it asks whether to stop, in order.
    pub answers: Seq<Answer>,
    /// The time since the search began, in nanoseconds, whenever it weighs whether that
    /// will do for another iteration, in order.
    pub spent: Seq<u128>,
}

/// The time limit is reached.
pub open spec fn time_is_up(deadline: Option<u128>, used: u128) -> bool {
    deadline matches Some(d) && used >= d
}

/// Half as much time again as has been used would go past the time limit.
pub open spec fn time_is_short(deadline: Option<u128>, used: u128) -> bool {
    deadline matches Some(d) && used + used / 2 > d
}

/// The answer to question `i` is to stop.
pub open spec fn told_to_stop(s: Setup, i: int) -> bool {
    !s.alone && s.answers[i].raised || time_is_up(s.deadline, s.answers[i].used)
}

/// At the weighing numbered `i` the time will not do.
pub open spec fn found_short(s: Setup, i: int) -> bool {
    time_is_short(s.deadline, s.spent[i])
}

/// `s` is the setup `t` with perhaps more answers to come.
pub open spec fn extends(s: Setup, t: Setup) -> bool {
    &&& s.worth == t.worth
    &&& s.null_move == t.null_move
    &&& s.lmr == t.lmr
    &&& s.node_limit == t.node_limit
    &&& s.alone == t.alone
    &&& s.deadline == t.deadline
    &&& t.answers.len() <= s.answers.len()
    &&& forall|i: int| 0 <= i < t.answers.len() ==> #[trigger] s.answers[i] == t.answers[i]
    &&& t.spent.len() <= s.spent.len()
    &&& forall|i: int| 0 <= i < t.spent.len() ==> #[trigger] s.spent[i] == t.spent[i]
}

/// Which entry a key goes to in a table of `n` entries.
pub open spec fn slot(key: u64, n: int) -> int {
    (key & (n - 1) as u64) as int
}

/// The entry for a key, if there is one.
pub open spec fn recall(entries: Seq<TtEntry>, key: u64) -> Option<TtEntry> {
    let e = entries[slot(key, entries.len() as int)];
    if e.key == key && e.depth >= 0 {
        Some(e)
    } else {
        None
    }
}

pub open spec fn clamp(x: int, lo: int, hi: int) -> int {
    if x < lo {
        lo
    } else if x > hi {
        hi
    } else {
        x
    }
}

/// The old entry `e` gives way to a new one for `key` at `depth`: always when it is of
/// an older search, else unless it is deeper (by more than three for another key).
pub open spec fn gives_way(e: TtEntry, generation: u8, key: u64, depth: int) -> bool {
    ||| e.generation != generation
    ||| e.key == key && depth as i8 >= e.depth
    ||| e.key != key && depth as i8 >= e.depth - 3
}

/// The table after a result has been stored.
pub open spec fn stored(
    entries: Seq<TtEntry>,
    generation: u8,
    key: u64,
    mv: Move,
    score: int,
    depth: int,
    bound: Bound,
) -> Seq<TtEntry> {
    let i = slot(key, entries.len() as int);
    if gives_way(entries[i], generation, key, depth) {
        entries.update(
            i,
            TtEntry {
                key,
                mv,
                score: clamp(score, -32767, 32767) as i16,
                depth: clamp(depth, 0, 127) as i8,
                bound: bound.code(),
                generation,
            },
        )
    } else {
        entries
    }
}

/// The killers after `mv` has refuted something at `ply`.
pub open spec fn with_killer(k: Seq<(Move, Move)>, mv: Move, ply: int) -> Seq<(Move, Move)> {
    let p = if ply < 127 {
        ply
    } else {
        127
    };
    if k[p].0 != mv {
        k.update(p, (mv, k[p].0))
    } else {
        k
    }
}

/// Index of a move in the history.
pub open spec fn history_index(mv: Move) -> int {
    mv.src() + 64 * mv.dst()
}

/// The history after `mv` has caused a cutoff at `depth`.
pub open spec fn with_history(h: Seq<i32>, mv: Move, depth: int) -> Seq<i32> {
    let i = history_index(mv);
    h.update(i, h[i].wrapping_add((depth as i32).wrapping_mul(depth as i32)))
}

// ---------------------------------------------------------------------------
// Ordering
// ---------------------------------------------------------------------------

/// How promising a move looks: the remembered move first, then by material swing, then
/// the killers, then by history.
pub open spec fn rating(
    g: Game,
    mv: Move,
    tt_move: Move,
    killers: (Move, Move),
    history: Seq<i32>,
) -> int {
    let delta = eval::swing(g, mv.src(), mv.dst());
    let h = history[history_index(mv)] as int;
    if mv == tt_move {
        0x100_0000
    } else if delta != 0 {
        0x10_0000 + delta * 8
    } else if mv == killers.0 {
        0x4_0000
    } else if mv == killers.1 {
        0x3_ffff
    } else if h < 0x1_ffff {
        h
    } else {
        0x1_ffff
    }
}

/// The ratings of a list of moves.
pub open spec fn ratings(
    g: Game,
    ms: Seq<Move>,
    tt_move: Move,
    killers: (Move, Move),
    history: Seq<i32>,
) -> Seq<i32> {
    Seq::new(ms.len(), |i: int| rating(g, ms[i], tt_move, killers, history) as i32)
}

/// The material swings of a list of moves.
pub open spec fn swings(g: Game, ms: Seq<Move>) -> Seq<i32> {
    Seq::new(ms.len(), |i: int| eval::swing(g, ms[i].src(), ms[i].dst()) as i32)
}

/// The first of the best-rated places from `from` up to `to`.
pub open spec fn best_place(scores: Seq<i32>, from: int, to: int) -> int
    decreases to - from,
{
    if to <= from + 1 {
        from
    } else {
        let b = best_place(scores, from, to - 1);
        if scores[to - 1] > scores[b] {
            to - 1
        } else {
            b
        }
    }
}

/// Two elements exchanged.
pub open spec fn exchanged<T>(s: Seq<T>, i: int, j: int) -> Seq<T> {
    Seq::new(
        s.len(),
        |k: int|
            if k == j {
                s[i]
            } else if k == i {
                s[j]
            } else {
                s[k]
            },
    )
}

/// Moves with their ratings, in the order in which they will be looked at.
#[verifier::ext_equal]
pub struct Queue {
    pub moves: Seq<Move>,
    pub scores: Seq<i32>,
}

/// The queue with the best of the moves from `i` on brought to place `i`.
pub open spec fn picked(q: Queue, i: int) -> Queue {
    let b = best_place(q.scores, i, q.scores.len() as int);
    Queue { moves: exchanged(q.moves, i, b), scores: exchanged(q.scores, i, b) }
}

// ---------------------------------------------------------------------------
// Nodes
// ---------------------------------------------------------------------------

/// Asks whether to stop: the outside may say so, or the node limit is reached.
pub open spec fn ask(s: Setup, m: Mind) -> (Mind, bool) {
    (
        Mind { asked: m.asked + 1, ..m },
        told_to_stop(s, m.asked) || (s.node_limit matches Some(n) && m.nodes >= n),
    )
}

/// Enters a node: counts it, and asks whether to stop every 2048 nodes.
pub open spec fn enter(s: Setup, m: Mind) -> Mind {
    let m1 = Mind { nodes: m.nodes.wrapping_add(1), ..m };
    if m1.aborted || m1.nodes % 2048 != 0 {
        m1
    } else {
        let (m2, stop) = ask(s, m1);
        Mind { aborted: stop, ..m2 }
    }
}

/// Remembers the deepest ply.
pub open spec fn at_ply(m: Mind, ply: int) -> Mind {
    Mind {
        seldepth: if m.seldepth < ply {
            ply
        } else {
            m.seldepth
        },
        ..m
    }
}

/// The game after `mv`.
#[verifier::opaque]
pub open spec fn next(g: Game, mv: Move) -> Game {
    rules::apply(g, mv.src(), mv.dst())
}

/// The game after a pass.
pub open spec fn passed(g: Game) -> Game {
    Game { side: g.side.other(), ply: g.ply + 1, ..g }
}

/// The moves that the search considers.
pub open spec fn considered(g: Game, mode: GenMode) -> Seq<Move> {
    movegen::kept(movegen::generated(g, mode))
}

/// A stored key, given its distance from the true key.
pub open spec fn key_of(g: Game, drift: u64) -> u64 {
    drift ^ rules::game_key(g)
}

/// A capture, or a detonation.
pub open spec fn loud(g: Game, mv: Move) -> bool {
    movegen::captures(g, mv.src(), mv.dst()) || rules::dies(g, mv.src(), mv.dst())
}

/// What the table settles at once about a node off the principal variation.
pub open spec fn settled(
    e: Option<TtEntry>,
    depth: int,
    alpha: int,
    beta: int,
    ply: int,
    pv: bool,
) -> Option<int> {
    match e {
        Some(e) if !pv && e.depth >= depth => {
            let v = recalled_score(e.score as int, ply);
            if e.bound == 0 || e.bound == 1 && v >= beta || e.bound == 2 && v <= alpha {
                Some(v)
            } else {
                None
            }
        },
        _ => None,
    }
}

/// The move that the table remembers, or none.
pub open spec fn remembered(e: Option<TtEntry>) -> Move {
    match e {
        Some(e) => e.mv,
        None => Move(0),
    }
}

/// Depth for the `i`-th move: late quiet moves off the principal variation get a
/// shallower look first.
pub open spec fn first_depth(s: Setup, depth: int, i: int, quiet: bool, pv: bool) -> int {
    if s.lmr && depth >= 3 && i >= 4 && quiet && !pv {
        let r = 1 + if i / 12 < 2 {
            i / 12
        } else {
            2
        };
        if depth - 1 - r < 1 {
            1
        } else {
            depth - 1 - r
        }
    } else {
        depth - 1
    }
}

/// A pass is tried first: off the principal variation, with depth to spare, a static
/// score that suffices, and a heavy piece on the side to move.
pub open spec fn tries_pass(s: Setup, g: Game, depth: int, beta: int, pv: bool) -> bool {
    &&& s.null_move
    &&& !pv
    &&& depth >= 3
    &&& (s.worth)(g) >= beta
    &&& exists|x: int| #[trigger] rules::heavy_on(g, x) && rules::held_by(g, g.side, x)
}

/// The best line so far at a node.
pub struct Best {
    pub score: int,
    pub mv: Move,
    pub bound: Bound,
}

/// The move can be carried out.
#[verifier::opaque]
pub open spec fn can_play(g: Game, mv: Move) -> bool {
    rules::playable(g, mv.src(), mv.dst())
}

/// Every move of a list can be carried out.
pub open spec fn all_playable(g: Game, ms: Seq<Move>) -> bool {
    forall|i: int| 0 <= i < ms.len() ==> can_play(g, #[trigger] ms[i])
}

pub open spec fn larger(a: int, b: int) -> int {
    if b > a {
        b
    } else {
        a
    }
}

/// The best line after a move with a score.
pub open spec fn improved(best: Best, score: int, mv: Move, alpha: int) -> Best {
    Best {
        score: larger(best.score, score),
        mv: if score > best.score {
            mv
        } else {
            best.mv
        },
        bound: if score > alpha {
            Bound::Exact
        } else {
            best.bound
        },
    }
}

/// A quiet move that causes a cutoff becomes a killer and gains history.
pub open spec fn credited(m: Mind, g: Game, mv: Move, depth: int, ply: int) -> Mind {
    if loud(g, mv) {
        m
    } else {
        Mind {
            killers: with_killer(m.killers, mv, ply),
            history: with_history(m.history, mv, depth),
            ..m
        }
    }
}

/// Captures only, until the position is quiet.
#[verifier::opaque]
pub open spec fn quiesce(s: Setup, m: Mind, g: Game, alpha: int, beta: int, ply: int) -> (Mind, int)
    decreases 128 - ply, 2int, 0int,
{
    let m1 = enter(s, m);
    let m2 = at_ply(m1, ply);
    let worth = (s.worth)(g);
    let ms = considered(g, GenMode::Captures);
    if m1.aborted {
        (m1, 0)
    } else if let Some(r) = rules::outcome(g) {
        (m2, final_score(r, g.side, ply))
    } else if ply >= 127 || worth >= beta || ms.len() == 0 {
        (m2, worth)
    } else {
        quiesce_moves(
            s,
            m2,
            g,
            Queue { moves: ms, scores: swings(g, ms) },
            0,
            worth,
            worth,
            if worth > alpha {
                worth
            } else {
                alpha
            },
            beta,
            ply,
        )
    }
}

/// The captures from the `i`-th on. One that loses material outright is skipped when the
/// static score leaves too little room.
#[verifier::opaque]
pub open spec fn quiesce_moves(
    s: Setup,
    m: Mind,
    g: Game,
    q: Queue,
    i: int,
    worth: int,
    best: int,
    alpha: int,
    beta: int,
    ply: int,
) -> (Mind, int)
    decreases 128 - ply, 1int, q.moves.len() - i,
{
    if i >= q.moves.len() || ply >= 127 {
        (m, best)
    } else {
        let q1 = picked(q, i);
        let delta = q1.scores[i] as int;
        if delta < 0 && worth + delta + 200 <= alpha {
            quiesce_moves(s, m, g, q1, i + 1, worth, best, alpha, beta, ply)
        } else {
            let (m1, r) = quiesce(s, m, next(g, q1.moves[i]), -beta, -alpha, ply + 1);
            let score = -r;
            let b = if score > best {
                score
            } else {
                best
            };
            let a = if score > alpha {
                score
            } else {
                alpha
            };
            if m1.aborted {
                (m1, 0)
            } else if a >= beta {
                (m1, b)
            } else {
                quiesce_moves(s, m1, g, q1, i + 1, worth, b, a, beta, ply)
            }
        }
    }
}

/// The score of a node for the side to move, searched to `depth` within a window.
#[verifier::opaque]
pub open spec fn negamax(
    s: Setup,
    m: Mind,
    g: Game,
    drift: u64,
    depth: int,
    alpha: int,
    beta: int,
    ply: int,
    pv: bool,
) -> (Mind, int)
    decreases 128 - ply, 7int, 0int,
{
    let m1 = enter(s, m);
    let m2 = at_ply(m1, ply);
    let e = recall(m2.entries, table_key(key_of(g, drift), g.ply));
    if m1.aborted {
        (m1, 0)
    } else if let Some(r) = rules::outcome(g) {
        (m2, final_score(r, g.side, ply))
    } else if ply >= 127 {
        (m2, (s.worth)(g))
    } else if depth <= 0 {
        quiesce(s, m2, g, alpha, beta, ply)
    } else if let Some(v) = settled(e, depth, alpha, beta, ply, pv) {
        (m2, v)
    } else {
        negamax_open(s, m2, g, drift, depth, alpha, beta, ply, pv, remembered(e))
    }
}

/// A node that the table does not settle: perhaps a pass, then the moves.
#[verifier::opaque]
pub open spec fn negamax_open(
    s: Setup,
    m: Mind,
    g: Game,
    drift: u64,
    depth: int,
    alpha: int,
    beta: int,
    ply: int,
    pv: bool,
    tt_move: Move,
) -> (Mind, int)
    decreases 128 - ply, 6int, 0int,
{
    if ply < 127 && tries_pass(s, g, depth, beta, pv) {
        let (m1, r) = negamax(
            s,
            m,
            passed(g),
            drift,
            depth - (2 + depth / 4) - 1,
            -beta,
            -beta + 1,
            ply + 1,
            false,
        );
        if m1.aborted {
            (m1, 0)
        } else if -r >= beta {
            (m1, beta)
        } else {
            negamax_all(s, m1, g, drift, depth, alpha, beta, ply, pv, tt_move)
        }
    } else {
        negamax_all(s, m, g, drift, depth, alpha, beta, ply, pv, tt_move)
    }
}

/// All moves of a node, in the order of their ratings.
#[verifier::opaque]
pub open spec fn negamax_all(
    s: Setup,
    m: Mind,
    g: Game,
    drift: u64,
    depth: int,
    alpha: int,
    beta: int,
    ply: int,
    pv: bool,
    tt_move: Move,
) -> (Mind, int)
    decreases 128 - ply, 5int, 0int,
{
    let ms = considered(g, GenMode::Search);
    if ms.len() == 0 {
        (m, (s.worth)(g))
    } else {
        let k = m.killers[if ply < 127 {
            ply
        } else {
            127
        }];
        negamax_moves(
            s,
            m,
            g,
            drift,
            Queue { moves: ms, scores: ratings(g, ms, tt_move, k, m.history) },
            0,
            depth,
            alpha,
            beta,
            ply,
            pv,
            Best { score: -32_000, mv: ms[0], bound: Bound::Upper },
        )
    }
}

/// The moves from the `i`-th on. The result is stored in the table in the end.
#[verifier::opaque]
pub open spec fn negamax_moves(
    s: Setup,
    m: Mind,
    g: Game,
    drift: u64,
    q: Queue,
    i: int,
    depth: int,
    alpha: int,
    beta: int,
    ply: int,
    pv: bool,
    best: Best,
) -> (Mind, int)
    decreases 128 - ply, 4int, q.moves.len() - i,
{
    if i >= q.moves.len() {
        (remember(m, g, drift, best, depth, ply), best.score)
    } else {
        let q1 = picked(q, i);
        let mv = q1.moves[i];
        let quiet = !loud(g, mv);
        let (m1, score) = look(
            s,
            m,
            next(g, mv),
            drift,
            i,
            depth,
            first_depth(s, depth, i, quiet, pv),
            alpha,
            beta,
            ply,
            pv,
        );
        let b = improved(best, score, mv, alpha);
        let a = larger(alpha, score);
        if m1.aborted {
            (m1, 0)
        } else if a >= beta {
            (
                remember(
                    credited(m1, g, mv, depth, ply),
                    g,
                    drift,
                    Best { bound: Bound::Lower, ..b },
                    depth,
                    ply,
                ),
                b.score,
            )
        } else {
            negamax_moves(s, m1, g, drift, q1, i + 1, depth, a, beta, ply, pv, b)
        }
    }
}

/// Stores the best line of a node in the table.
pub open spec fn remember(m: Mind, g: Game, drift: u64, best: Best, depth: int, ply: int) -> Mind {
    Mind {
        entries: stored(
            m.entries,
            m.generation,
            table_key(key_of(g, drift), g.ply),
            best.mv,
            stored_score(best.score, ply),
            depth,
            best.bound,
        ),
        ..m
    }
}

/// The score of the `i`-th move, which leads to `g`: the first with the full window, the
/// others with an empty one first and again in full if that is not conclusive.
#[verifier::opaque]
pub open spec fn look(
    s: Setup,
    m: Mind,
    g: Game,
    drift: u64,
    i: int,
    depth: int,
    new_depth: int,
    alpha: int,
    beta: int,
    ply: int,
    pv: bool,
) -> (Mind, int)
    decreases 128 - ply, 3int, 0int,
{
    if ply >= 127 {
        (m, 0)
    } else if i == 0 {
        let (m1, r) = negamax(s, m, g, drift, new_depth, -beta, -alpha, ply + 1, pv);
        (m1, -r)
    } else {
        let (m1, r) = negamax(s, m, g, drift, new_depth, -alpha - 1, -alpha, ply + 1, false);
        if -r > alpha && (new_depth < depth - 1 || -r < beta) {
            let (m2, r2) = negamax(s, m1, g, drift, depth - 1, -beta, -alpha, ply + 1, pv);
            (m2, -r2)
        } else {
            (m1, -r)
        }
    }
}

// ---------------------------------------------------------------------------
// Iterative deepening
// ---------------------------------------------------------------------------

/// The line that the table remembers from a position on, at most `n` moves of it. It ends
/// where the game ends, where nothing is remembered, where what is remembered is no move,
/// and where a position repeats.
pub open spec fn line(
    entries: Seq<TtEntry>,
    g: Game,
    drift: u64,
    n: nat,
    seen: Seq<u64>,
) -> Seq<Move>
    decreases n,
{
    let mv = remembered(recall(entries, table_key(key_of(g, drift), g.ply)));
    if n == 0 || rules::outcome(g) is Some || mv == Move(0) || !considered(
        g,
        GenMode::Search,
    ).contains(mv) || seen.contains(key_of(g, drift)) {
        Seq::empty()
    } else {
        seq![mv] + line(
            entries,
            next(g, mv),
            drift,
            (n - 1) as nat,
            seen.push(key_of(g, drift)),
        )
    }
}

/// What has been found so far.
#[verifier::ext_equal]
pub struct Run {
    pub best: Move,
    pub score: int,
    pub depth: int,
    pub seldepth: int,
    pub nodes: u64,
    pub pv: Seq<Move>,
}

/// Nothing found yet but a move to fall back on.
pub open spec fn no_run(best: Move) -> Run {
    Run { best, score: 0, depth: 0, seldepth: 0, nodes: 0, pv: Seq::empty() }
}

/// Nothing can stop a search before its last depth.
pub open spec fn unstoppable(s: Setup) -> bool {
    s.alone && s.deadline is None && s.node_limit is None
}

/// Where iterative deepening stands.
#[verifier::ext_equal]
pub struct Deepening {
    pub run: Run,
    pub alpha: int,
    pub beta: int,
    pub depth: int,
    /// How often the root may still be searched again within the full window. It starts
    /// out so large that no search lives to use it up.
    pub tries: u64,
    pub done: bool,
}

/// The window is the full one.
pub open spec fn full(d: Deepening) -> bool {
    d.alpha == -32_000 && d.beta == 32_000
}

/// One search of the root within the current window. A score outside the window widens
/// it; a score inside is a result, after which the next depth follows unless the game is
/// decided, the depth is the last, or time is short. A score outside the full window has
/// the root searched again, until something stops the search; where nothing can, it is
/// over.
pub open spec fn deepen(
    s: Setup,
    m: Mind,
    g: Game,
    drift: u64,
    d: Deepening,
    max_depth: int,
) -> (Mind, Deepening) {
    let (m1, score) = negamax(s, m, g, drift, d.depth, d.alpha, d.beta, 0, true);
    if m1.aborted {
        (m1, Deepening { done: true, ..d })
    } else if score <= d.alpha || score >= d.beta {
        (
            m1,
            Deepening {
                alpha: -32_000,
                beta: 32_000,
                tries: if full(d) && d.tries > 0 {
                    (d.tries - 1) as u64
                } else {
                    d.tries
                },
                done: full(d) && (unstoppable(s) || d.tries == 0),
                ..d
            },
        )
    } else {
        let n = if d.depth < 32 {
            d.depth
        } else {
            32
        };
        let pv = line(m1.entries, g, drift, n as nat, Seq::empty());
        let run = Run {
            best: if pv.len() > 0 {
                pv[0]
            } else {
                d.run.best
            },
            score,
            depth: d.depth,
            seldepth: m1.seldepth,
            nodes: m1.nodes,
            pv,
        };
        if score >= 29_000 || score <= -29_000 {
            (m1, Deepening { run, done: true, ..d })
        } else {
            let (m2, stop) = ask(s, m1);
            let late = !stop && s.deadline is Some && d.depth >= 4;
            let m3 = if late {
                Mind { weighed: m2.weighed + 1, ..m2 }
            } else {
                m2
            };
            if stop || late && found_short(s, m2.weighed) || d.depth >= max_depth {
                (m3, Deepening { run, done: true, ..d })
            } else {
                (
                    m3,
                    Deepening {
                        run,
                        alpha: score - 40,
                        beta: score + 40,
                        depth: d.depth + 1,
                        done: false,
                        ..d
                    },
                )
            }
        }
    }
}

/// Iterative deepening has come further: a depth is done, the window is wider, or the
/// full window has been tried once more.
pub open spec fn further(d: Deepening, d1: Deepening) -> bool {
    ||| d1.depth > d.depth
    ||| d1.depth == d.depth && full(d1) && !full(d)
    ||| d1.depth == d.depth && full(d1) && full(d) && d1.tries < d.tries
}

/// Iterative deepening to the end.
pub open spec fn deepen_all(
    s: Setup,
    m: Mind,
    g: Game,
    drift: u64,
    d: Deepening,
    max_depth: int,
) -> (Mind, Deepening)
    decreases max_depth - d.depth, if full(d) { 0int } else { 1int }, d.tries,
{
    if d.done || d.depth > max_depth {
        (m, d)
    } else {
        let (m1, d1) = deepen(s, m, g, drift, d, max_depth);
        if d1.done {
            (m1, d1)
        } else if further(d, d1) {
            deepen_all(s, m1, g, drift, d1, max_depth)
        } else {
            (m1, d1)
        }
    }
}

/// A quarter, towards zero.
pub open spec fn quarter(x: int) -> int {
    if x < 0 {
        -((-x) / 4)
    } else {
        x / 4
    }
}

/// The memory at the start of a search. History from the previous move is useful but
/// stale, so it decays.
pub open spec fn begun(m: Mind) -> Mind {
    Mind {
        generation: m.generation.wrapping_add(1),
        history: Seq::new(m.history.len(), |i: int| quarter(m.history[i] as int) as i32),
        nodes: 0,
        seldepth: 0,
        aborted: false,
        asked: 0,
        weighed: 0,
        ..m
    }
}

/// Where iterative deepening starts: with the first move to fall back on.
pub open spec fn first_window(g: Game) -> Deepening {
    let ms = considered(g, GenMode::Search);
    Deepening {
        run: no_run(
            if ms.len() == 0 {
                Move(0)
            } else {
                ms[0]
            },
        ),
        alpha: -32_000,
        beta: 32_000,
        depth: 1,
        tries: u64::MAX,
        done: ms.len() == 0,
    }
}

/// A whole search.
pub open spec fn search(s: Setup, m: Mind, g: Game, drift: u64, max_depth: int) -> (Mind, Run) {
    let (m1, d) = deepen_all(s, begun(m), g, drift, first_window(g), max_depth);
    (m1, Run { nodes: m1.nodes, ..d.run })
}

// ---------------------------------------------------------------------------
// What a search promises
// ---------------------------------------------------------------------------

/// Each move of the line is one that the search considers where it is made.
pub open spec fn sound_line(g: Game, pv: Seq<Move>) -> bool
    decreases pv.len(),
{
    pv.len() == 0 || {
        &&& considered(g, GenMode::Search).contains(pv[0])
        &&& sound_line(next(g, pv[0]), pv.skip(1))
    }
}

/// The result names a move of the position, and a line that starts with it.
pub open spec fn sound(g: Game, run: Run) -> bool {
    &&& considered(g, GenMode::Search).contains(run.best)
    &&& sound_line(g, run.pv)
    &&& run.pv.len() > 0 ==> run.pv[0] == run.best
}

proof fn lemma_line(entries: Seq<TtEntry>, g: Game, drift: u64, n: nat, seen: Seq<u64>)
    ensures
        sound_line(g, line(entries, g, drift, n, seen)),
        line(entries, g, drift, n, seen).len() <= n,
    decreases n,
{
    let pv = line(entries, g, drift, n, seen);
    if pv.len() > 0 {
        let mv = remembered(recall(entries, table_key(key_of(g, drift), g.ply)));
        let rest = line(
            entries,
            next(g, mv),
            drift,
            (n - 1) as nat,
            seen.push(key_of(g, drift)),
        );
        lemma_line(entries, next(g, mv), drift, (n - 1) as nat, seen.push(key_of(g, drift)));
        assert(pv.skip(1) =~= rest);
    }
}

proof fn lemma_deepen_sound(
    s: Setup,
    m: Mind,
    g: Game,
    drift: u64,
    d: Deepening,
    max_depth: int,
)
    requires
        sound(g, d.run),
    ensures
        sound(g, deepen_all(s, m, g, drift, d, max_depth).1.run),
    decreases max_depth - d.depth, if full(d) { 0int } else { 1int }, d.tries,
{
    if !(d.done || d.depth > max_depth) {
        let (m1, d1) = deepen(s, m, g, drift, d, max_depth);
        let (m0, _) = negamax(s, m, g, drift, d.depth, d.alpha, d.beta, 0, true);
        let n = (if d.depth < 32 {
            d.depth
        } else {
            32
        }) as nat;
        lemma_line(m0.entries, g, drift, n, Seq::empty());
        assert(sound(g, d1.run));
        if !d1.done && further(d, d1) {
            lemma_deepen_sound(s, m1, g, drift, d1, max_depth);
        }
    }
}

/// A search never comes back without a move where there is one, however early it is
/// stopped: what it names is a move of the position, and its line can be played out.
pub proof fn law_a_search_finds_a_move(s: Setup, m: Mind, g: Game, drift: u64, max_depth: int)
    requires
        considered(g, GenMode::Search).len() > 0,
    ensures
        sound(g, search(s, m, g, drift, max_depth).1),
{
    let d = first_window(g);
    assert(considered(g, GenMode::Search).contains(d.run.best));
    lemma_deepen_sound(s, begun(m), g, drift, d, max_depth);
}

/// The move ends the game in favour of the side that makes it.
pub open spec fn wins_at_once(g: Game, mv: Move) -> bool {
    rules::outcome(next(g, mv)) == Some(GameResult::Win(g.side))
}

/// A game that is lost for the side to move scores so, unless the search is over.
proof fn lemma_lost_node(
    s: Setup,
    m: Mind,
    g: Game,
    drift: u64,
    depth: int,
    alpha: int,
    beta: int,
    ply: int,
    pv: bool,
)
    requires
        rules::outcome(g) == Some(GameResult::Win(g.side.other())),
    ensures
        ({
            let r = negamax(s, m, g, drift, depth, alpha, beta, ply, pv);
            r.0.aborted || r.1 == -(30_000 - ply) && !m.aborted
        }),
{
    reveal(negamax);
}

proof fn lemma_won_look(
    s: Setup,
    m: Mind,
    g: Game,
    drift: u64,
    i: int,
    depth: int,
    new_depth: int,
    alpha: int,
    beta: int,
    ply: int,
    pv: bool,
)
    requires
        rules::outcome(g) == Some(GameResult::Win(g.side.other())),
        ply < 127,
    ensures
        ({
            let r = look(s, m, g, drift, i, depth, new_depth, alpha, beta, ply, pv);
            r.0.aborted || r.1 == 29_999 - ply
        }),
{
    reveal(look);
    reveal(negamax);
    if i == 0 {
        lemma_lost_node(s, m, g, drift, new_depth, -beta, -alpha, ply + 1, pv);
    } else {
        let m1 = negamax(s, m, g, drift, new_depth, -alpha - 1, -alpha, ply + 1, false).0;
        lemma_lost_node(s, m, g, drift, new_depth, -alpha - 1, -alpha, ply + 1, false);
        lemma_lost_node(s, m1, g, drift, depth - 1, -beta, -alpha, ply + 1, pv);
    }
}

/// Of moves with a win among them, or after one, the best score is no less than the win's.
proof fn lemma_win_among(
    s: Setup,
    m: Mind,
    g: Game,
    drift: u64,
    q: Queue,
    i: int,
    depth: int,
    alpha: int,
    beta: int,
    ply: int,
    pv: bool,
    best: Best,
    k: int,
)
    requires
        0 <= i,
        q.moves.len() == q.scores.len(),
        ply < 127,
        alpha < beta,
        beta >= 29_999 - ply,
        best.score >= 29_999 - ply || i <= k < q.moves.len() && wins_at_once(g, q.moves[k]),
    ensures
        ({
            let r = negamax_moves(s, m, g, drift, q, i, depth, alpha, beta, ply, pv, best);
            r.0.aborted || r.1 >= 29_999 - ply
        }),
    decreases q.moves.len() - i,
{
    reveal(negamax_moves);
    reveal(look);
    if i < q.moves.len() {
        let q1 = picked(q, i);
        let mv = q1.moves[i];
        let first = first_depth(s, depth, i, !loud(g, mv), pv);
        let child = next(g, mv);
        let (m1, score) = look(s, m, child, drift, i, depth, first, alpha, beta, ply, pv);
        let b = improved(best, score, mv, alpha);
        let a = larger(alpha, score);
        lemma_best_place(q.scores, i, q.scores.len() as int);
        let place = best_place(q.scores, i, q.scores.len() as int);
        let k1 = if k == i {
            place
        } else {
            k
        };
        if wins_at_once(g, mv) {
            reveal(next);
            lemma_won_look(s, m, child, drift, i, depth, first, alpha, beta, ply, pv);
        }
        if !m1.aborted && a < beta {
            lemma_win_among(s, m1, g, drift, q1, i + 1, depth, a, beta, ply, pv, b, k1);
        }
    }
}

proof fn lemma_first_depth_wins(
    s: Setup,
    m: Mind,
    g: Game,
    drift: u64,
    d: Deepening,
    max_depth: int,
    mv: Move,
)
    requires
        rules::outcome(g) is None,
        considered(g, GenMode::Search).contains(mv),
        wins_at_once(g, mv),
        full(d),
        d.depth == 1,
        d.run.depth == 0,
        !d.done,
        max_depth >= 1,
    ensures
        deepen_all(s, m, g, drift, d, max_depth).1.run.depth > 0 ==> deepen_all(
            s,
            m,
            g,
            drift,
            d,
            max_depth,
        ).1.run.score >= 29_999,
    decreases d.tries,
{
    let ms = considered(g, GenMode::Search);
    let k = choose|k: int| 0 <= k < ms.len() && ms[k] == mv;
    let r = negamax(s, m, g, drift, 1, -32_000, 32_000, 0, true);
    let m1 = at_ply(enter(s, m), 0);
    let e = recall(m1.entries, table_key(key_of(g, drift), g.ply));
    assert(!r.0.aborted ==> r.1 >= 29_999) by {
        reveal(negamax);
        reveal(negamax_open);
        lemma_open_plain(s, m1, g, drift, 1, -32_000, 32_000, 0, true, remembered(e));
        lemma_all(s, m1, g, drift, 1, -32_000, 32_000, 0, true, remembered(e));
        lemma_win_among(
            s,
            m1,
            g,
            drift,
            Queue {
                moves: ms,
                scores: ratings(g, ms, remembered(e), m1.killers[0], m1.history),
            },
            0,
            1,
            -32_000,
            32_000,
            0,
            true,
            Best { score: -32_000, mv: ms[0], bound: Bound::Upper },
            k,
        );
    }
    let (m2, d1) = deepen(s, m, g, drift, d, max_depth);
    if d1.done {
        assert(deepen_all(s, m, g, drift, d, max_depth) == (m2, d1));
    } else {
        assert(further(d, d1));
        lemma_first_depth_wins(s, m2, g, drift, d1, max_depth, mv);
    }
}

/// A move that wins at once does not escape a search: the score of what it finds is no
/// less than that of such a win, unless it was stopped before it looked at all moves.
pub proof fn law_a_win_in_one_is_found(
    s: Setup,
    m: Mind,
    g: Game,
    drift: u64,
    max_depth: int,
    mv: Move,
)
    requires
        rules::outcome(g) is None,
        considered(g, GenMode::Search).contains(mv),
        wins_at_once(g, mv),
    ensures
        search(s, m, g, drift, max_depth).1.depth > 0 ==> search(
            s,
            m,
            g,
            drift,
            max_depth,
        ).1.score >= 29_999,
{
    if max_depth >= 1 {
        lemma_first_depth_wins(s, begun(m), g, drift, first_window(g), max_depth, mv);
    }
}

/// The quicker win scores higher, and so does the slower loss.
pub proof fn law_quicker_wins_score_higher(side: Color, winner: Color, p: int, q: int)
    requires
        0 <= p < q,
    ensures
        winner == side ==> final_score(GameResult::Win(winner), side, p) > final_score(
            GameResult::Win(winner),
            side,
            q,
        ),
        winner != side ==> final_score(GameResult::Win(winner), side, p) < final_score(
            GameResult::Win(winner),
            side,
            q,
        ),
{
}

/// The score of a finished game for one side is the negative of that for the other.
pub proof fn law_final_scores_are_opposite(r: GameResult, side: Color, ply: int)
    ensures
        final_score(r, side.other(), ply) == -final_score(r, side, ply),
{
}

/// What the table keeps of a score at a ply gives that score back at that ply.
pub proof fn law_table_scores_come_back(score: int, ply: int)
    requires
        ply >= 0,
    ensures
        recalled_score(stored_score(score, ply), ply) == score,
{
}

/// A result that the table has taken is what it remembers for that key.
pub proof fn law_what_is_stored_is_recalled(
    entries: Seq<TtEntry>,
    generation: u8,
    key: u64,
    mv: Move,
    score: int,
    depth: int,
    bound: Bound,
)
    requires
        0 <= slot(key, entries.len() as int) < entries.len(),
        gives_way(entries[slot(key, entries.len() as int)], generation, key, depth),
        -32767 <= score <= 32767,
        0 <= depth <= 127,
    ensures
        recall(stored(entries, generation, key, mv, score, depth, bound), key) == Some(
            TtEntry {
                key,
                mv,
                score: score as i16,
                depth: depth as i8,
                bound: bound.code(),
                generation,
            },
        ),
{
}

/// Near the ply cap a position has another key at each ply, and none of them is its own.
pub proof fn law_keys_separate_plies_near_the_cap(key: u64, p: int, q: int)
    requires
        168 <= p < 256,
        168 <= q < 256,
    ensures
        p != q ==> table_key(key, p) != table_key(key, q),
        table_key(key, p) != key,
{
    tables::law_keys_are_distinct((770 + p) as nat, (770 + q) as nat);
    let (a, b) = (tables::ply_key(p), tables::ply_key(q));
    assert(key ^ a == key ^ b ==> a == b) by (bit_vector);
    assert(key ^ a == key ==> a == 0) by (bit_vector);
}

/// Far from the ply cap the table is shared across plies.
pub proof fn law_keys_are_shared_far_from_the_cap(key: u64, p: int, q: int)
    requires
        p < 168,
        q < 168,
    ensures
        table_key(key, p) == table_key(key, q),
        table_key(key, p) == key,
{
}

// ---------------------------------------------------------------------------
// Reproducibility
// ---------------------------------------------------------------------------

/// The same setup, as far as the questions numbered from `lo` up to `hi` go: they are
/// told to stop at the same ones.
pub open spec fn agree(s: Setup, t: Setup, lo: int, hi: int) -> bool {
    &&& s.worth == t.worth
    &&& s.null_move == t.null_move
    &&& s.lmr == t.lmr
    &&& s.node_limit == t.node_limit
    &&& (s.deadline is Some) == (t.deadline is Some)
    &&& forall|i: int| lo <= i < hi ==> #[trigger] told_to_stop(s, i) == told_to_stop(t, i)
}

/// A search that is not told to stop between `m` and `n`, and has no node limit, is not
/// aborted on the way.
spec fn stays(s: Setup, m: Mind, n: Mind) -> bool {
    !m.aborted && s.node_limit is None && (forall|i: int|
        m.asked <= i < n.asked ==> !#[trigger] told_to_stop(s, i)) ==> !n.aborted
}

proof fn lemma_agree_part(s: Setup, t: Setup, lo: int, hi: int, a: int, b: int)
    requires
        agree(s, t, lo, hi),
        lo <= a,
        b <= hi,
    ensures
        agree(s, t, a, b),
{
}

proof fn lemma_enter_agrees(s: Setup, t: Setup, m: Mind)
    requires
        agree(s, t, m.asked, enter(s, m).asked),
    ensures
        enter(t, m) == enter(s, m),
{
    if enter(s, m).asked > m.asked {
        assert(told_to_stop(s, m.asked) == told_to_stop(t, m.asked));
    }
}

proof fn lemma_quiesce_agrees(s: Setup, m: Mind, g: Game, alpha: int, beta: int, ply: int)
    ensures
        m.asked <= quiesce(s, m, g, alpha, beta, ply).0.asked,
        quiesce(s, m, g, alpha, beta, ply).0.weighed == m.weighed,
        stays(s, m, quiesce(s, m, g, alpha, beta, ply).0),
        forall|t: Setup| #[trigger]
            agree(
                s,
                t,
                m.asked,
                quiesce(s, m, g, alpha, beta, ply).0.asked,
            ) ==> quiesce(t, m, g, alpha, beta, ply) == quiesce(
                s,
                m,
                g,
                alpha,
                beta,
                ply,
            ),
    decreases 128 - ply, 2int, 0int,
{
    reveal(quiesce);
    reveal(quiesce_moves);
    let r = quiesce(s, m, g, alpha, beta, ply);
    let m1 = enter(s, m);
    let m2 = at_ply(m1, ply);
    let worth = (s.worth)(g);
    let ms = considered(g, GenMode::Captures);
    let floor = if worth > alpha {
        worth
    } else {
        alpha
    };
    let q = Queue { moves: ms, scores: swings(g, ms) };
    let goes_on = !(m1.aborted || rules::outcome(g) is Some || ply >= 127 || worth >= beta
        || ms.len() == 0);
    if goes_on {
        lemma_quiesce_moves_agrees(s, m2, g, q, 0, worth, worth, floor, beta, ply);
    }
    assert forall|t: Setup| #[trigger] agree(s, t, m.asked, r.0.asked) implies quiesce(
        t,
        m,
        g,
        alpha,
        beta,
        ply,
    ) == r by {
        lemma_agree_part(s, t, m.asked, r.0.asked, m.asked, m1.asked);
        lemma_enter_agrees(s, t, m);
        if goes_on {
            lemma_agree_part(s, t, m.asked, r.0.asked, m2.asked, r.0.asked);
        }
    }
}

proof fn lemma_quiesce_moves_agrees(
    s: Setup,
    m: Mind,
    g: Game,
    q: Queue,
    i: int,
    worth: int,
    best: int,
    alpha: int,
    beta: int,
    ply: int,
)
    ensures
        m.asked <= quiesce_moves(s, m, g, q, i, worth, best, alpha, beta, ply).0.asked,
        quiesce_moves(s, m, g, q, i, worth, best, alpha, beta, ply).0.weighed == m.weighed,
        stays(s, m, quiesce_moves(s, m, g, q, i, worth, best, alpha, beta, ply).0),
        forall|t: Setup| #[trigger]
            agree(
                s,
                t,
                m.asked,
                quiesce_moves(s, m, g, q, i, worth, best, alpha, beta, ply).0.asked,
            ) ==> quiesce_moves(t, m, g, q, i, worth, best, alpha, beta, ply) == quiesce_moves(
                s,
                m,
                g,
                q,
                i,
                worth,
                best,
                alpha,
                beta,
                ply,
            ),
    decreases 128 - ply, 1int, q.moves.len() - i,
{
    reveal(quiesce_moves);
    reveal(quiesce);
    let r = quiesce_moves(s, m, g, q, i, worth, best, alpha, beta, ply);
    if !(i >= q.moves.len() || ply >= 127) {
        let q1 = picked(q, i);
        let delta = q1.scores[i] as int;
        if delta < 0 && worth + delta + 200 <= alpha {
            lemma_quiesce_moves_agrees(s, m, g, q1, i + 1, worth, best, alpha, beta, ply);
        } else {
            let child = next(g, q1.moves[i]);
            let (m1, x) = quiesce(s, m, child, -beta, -alpha, ply + 1);
            lemma_quiesce_agrees(s, m, child, -beta, -alpha, ply + 1);
            let b = if -x > best {
                -x
            } else {
                best
            };
            let a = if -x > alpha {
                -x
            } else {
                alpha
            };
            if !m1.aborted && a < beta {
                lemma_quiesce_moves_agrees(s, m1, g, q1, i + 1, worth, b, a, beta, ply);
            }
            assert forall|t: Setup| #[trigger] agree(s, t, m.asked, r.0.asked) implies quiesce_moves(
                t,
                m,
                g,
                q,
                i,
                worth,
                best,
                alpha,
                beta,
                ply,
            ) == r by {
                lemma_agree_part(s, t, m.asked, r.0.asked, m.asked, m1.asked);
                lemma_agree_part(s, t, m.asked, r.0.asked, m1.asked, r.0.asked);
            }
        }
    }
}

proof fn lemma_negamax_agrees(
    s: Setup,
    m: Mind,
    g: Game,
    drift: u64,
    depth: int,
    alpha: int,
    beta: int,
    ply: int,
    pv: bool,
)
    ensures
        m.asked <= negamax(s, m, g, drift, depth, alpha, beta, ply, pv).0.asked,
        negamax(s, m, g, drift, depth, alpha, beta, ply, pv).0.weighed == m.weighed,
        stays(s, m, negamax(s, m, g, drift, depth, alpha, beta, ply, pv).0),
        forall|t: Setup| #[trigger]
            agree(
                s,
                t,
                m.asked,
                negamax(s, m, g, drift, depth, alpha, beta, ply, pv).0.asked,
            ) ==> negamax(t, m, g, drift, depth, alpha, beta, ply, pv) == negamax(
                s,
                m,
                g,
                drift,
                depth,
                alpha,
                beta,
                ply,
                pv,
            ),
    decreases 128 - ply, 7int, 0int,
{
    reveal(negamax);
    reveal(negamax_open);
    let r = negamax(s, m, g, drift, depth, alpha, beta, ply, pv);
    let m1 = enter(s, m);
    let m2 = at_ply(m1, ply);
    let e = recall(m2.entries, table_key(key_of(g, drift), g.ply));
    let over = m1.aborted || rules::outcome(g) is Some || ply >= 127;
    if !over {
        if depth <= 0 {
            lemma_quiesce_agrees(s, m2, g, alpha, beta, ply);
        } else if settled(e, depth, alpha, beta, ply, pv) is None {
            lemma_negamax_open_agrees(
                s,
                m2,
                g,
                drift,
                depth,
                alpha,
                beta,
                ply,
                pv,
                remembered(e),
            );
        }
    }
    assert forall|t: Setup| #[trigger] agree(s, t, m.asked, r.0.asked) implies negamax(
        t,
        m,
        g,
        drift,
        depth,
        alpha,
        beta,
        ply,
        pv,
    ) == r by {
        lemma_agree_part(s, t, m.asked, r.0.asked, m.asked, m1.asked);
        lemma_enter_agrees(s, t, m);
        lemma_agree_part(s, t, m.asked, r.0.asked, m2.asked, r.0.asked);
    }
}

proof fn lemma_negamax_open_agrees(
    s: Setup,
    m: Mind,
    g: Game,
    drift: u64,
    depth: int,
    alpha: int,
    beta: int,
    ply: int,
    pv: bool,
    tt_move: Move,
)
    ensures
        m.asked <= negamax_open(s, m, g, drift, depth, alpha, beta, ply, pv, tt_move).0.asked,
        negamax_open(s, m, g, drift, depth, alpha, beta, ply, pv, tt_move).0.weighed == m.weighed,
        stays(s, m, negamax_open(s, m, g, drift, depth, alpha, beta, ply, pv, tt_move).0),
        forall|t: Setup| #[trigger]
            agree(
                s,
                t,
                m.asked,
                negamax_open(s, m, g, drift, depth, alpha, beta, ply, pv, tt_move).0.asked,
            ) ==> negamax_open(t, m, g, drift, depth, alpha, beta, ply, pv, tt_move) == negamax_open(
                s,
                m,
                g,
                drift,
                depth,
                alpha,
                beta,
                ply,
                pv,
                tt_move,
            ),
    decreases 128 - ply, 6int, 0int,
{
    reveal(negamax_open);
    reveal(negamax_all);
    reveal(negamax);
    let r = negamax_open(s, m, g, drift, depth, alpha, beta, ply, pv, tt_move);
    if ply < 127 && tries_pass(s, g, depth, beta, pv) {
        let less = depth - (2 + depth / 4) - 1;
        let (m1, x) = negamax(s, m, passed(g), drift, less, -beta, -beta + 1, ply + 1, false);
        lemma_negamax_agrees(s, m, passed(g), drift, less, -beta, -beta + 1, ply + 1, false);
        if !m1.aborted && -x < beta {
            lemma_negamax_all_agrees(s, m1, g, drift, depth, alpha, beta, ply, pv, tt_move);
        }
        assert forall|t: Setup| #[trigger] agree(s, t, m.asked, r.0.asked) implies negamax_open(
            t,
            m,
            g,
            drift,
            depth,
            alpha,
            beta,
            ply,
            pv,
            tt_move,
        ) == r by {
            lemma_agree_part(s, t, m.asked, r.0.asked, m.asked, m1.asked);
            lemma_agree_part(s, t, m.asked, r.0.asked, m1.asked, r.0.asked);
        }
    } else {
        lemma_negamax_all_agrees(s, m, g, drift, depth, alpha, beta, ply, pv, tt_move);
    }
}

proof fn lemma_negamax_all_agrees(
    s: Setup,
    m: Mind,
    g: Game,
    drift: u64,
    depth: int,
    alpha: int,
    beta: int,
    ply: int,
    pv: bool,
    tt_move: Move,
)
    ensures
        m.asked <= negamax_all(s, m, g, drift, depth, alpha, beta, ply, pv, tt_move).0.asked,
        negamax_all(s, m, g, drift, depth, alpha, beta, ply, pv, tt_move).0.weighed == m.weighed,
        stays(s, m, negamax_all(s, m, g, drift, depth, alpha, beta, ply, pv, tt_move).0),
        forall|t: Setup| #[trigger]
            agree(
                s,
                t,
                m.asked,
                negamax_all(s, m, g, drift, depth, alpha, beta, ply, pv, tt_move).0.asked,
            ) ==> negamax_all(t, m, g, drift, depth, alpha, beta, ply, pv, tt_move) == negamax_all(
                s,
                m,
                g,
                drift,
                depth,
                alpha,
                beta,
                ply,
                pv,
                tt_move,
            ),
    decreases 128 - ply, 5int, 0int,
{
    reveal(negamax_all);
    reveal(negamax_moves);
    let r = negamax_all(s, m, g, drift, depth, alpha, beta, ply, pv, tt_move);
    let ms = considered(g, GenMode::Search);
    if ms.len() > 0 {
        let k = m.killers[if ply < 127 {
            ply
        } else {
            127
        }];
        lemma_negamax_moves_agrees(
            s,
            m,
            g,
            drift,
            Queue { moves: ms, scores: ratings(g, ms, tt_move, k, m.history) },
            0,
            depth,
            alpha,
            beta,
            ply,
            pv,
            Best { score: -32_000, mv: ms[0], bound: Bound::Upper },
        );
    }
}

proof fn lemma_negamax_moves_agrees(
    s: Setup,
    m: Mind,
    g: Game,
    drift: u64,
    q: Queue,
    i: int,
    depth: int,
    alpha: int,
    beta: int,
    ply: int,
    pv: bool,
    best: Best,
)
    ensures
        m.asked <= negamax_moves(s, m, g, drift, q, i, depth, alpha, beta, ply, pv, best).0.asked,
        negamax_moves(s, m, g, drift, q, i, depth, alpha, beta, ply, pv, best).0.weighed == m.weighed,
        stays(s, m, negamax_moves(s, m, g, drift, q, i, depth, alpha, beta, ply, pv, best).0),
        forall|t: Setup| #[trigger]
            agree(
                s,
                t,
                m.asked,
                negamax_moves(s, m, g, drift, q, i, depth, alpha, beta, ply, pv, best).0.asked,
            ) ==> negamax_moves(t, m, g, drift, q, i, depth, alpha, beta, ply, pv, best) == negamax_moves(
                s,
                m,
                g,
                drift,
                q,
                i,
                depth,
                alpha,
                beta,
                ply,
                pv,
                best,
            ),
    decreases 128 - ply, 4int, q.moves.len() - i,
{
    reveal(negamax_moves);
    reveal(look);
    let r = negamax_moves(s, m, g, drift, q, i, depth, alpha, beta, ply, pv, best);
    if i < q.moves.len() {
        let q1 = picked(q, i);
        let mv = q1.moves[i];
        let first = first_depth(s, depth, i, !loud(g, mv), pv);
        let child = next(g, mv);
        let (m1, score) = look(s, m, child, drift, i, depth, first, alpha, beta, ply, pv);
        lemma_look_agrees(s, m, child, drift, i, depth, first, alpha, beta, ply, pv);
        let b = improved(best, score, mv, alpha);
        let a = larger(alpha, score);
        if !m1.aborted && a < beta {
            lemma_negamax_moves_agrees(s, m1, g, drift, q1, i + 1, depth, a, beta, ply, pv, b);
        }
        assert forall|t: Setup| #[trigger] agree(s, t, m.asked, r.0.asked) implies negamax_moves(
            t,
            m,
            g,
            drift,
            q,
            i,
            depth,
            alpha,
            beta,
            ply,
            pv,
            best,
        ) == r by {
            lemma_agree_part(s, t, m.asked, r.0.asked, m.asked, m1.asked);
            lemma_agree_part(s, t, m.asked, r.0.asked, m1.asked, r.0.asked);
            assert(first_depth(t, depth, i, !loud(g, mv), pv) == first);
        }
    }
}

proof fn lemma_look_agrees(
    s: Setup,
    m: Mind,
    g: Game,
    drift: u64,
    i: int,
    depth: int,
    new_depth: int,
    alpha: int,
    beta: int,
    ply: int,
    pv: bool,
)
    ensures
        m.asked <= look(s, m, g, drift, i, depth, new_depth, alpha, beta, ply, pv).0.asked,
        look(s, m, g, drift, i, depth, new_depth, alpha, beta, ply, pv).0.weighed == m.weighed,
        stays(s, m, look(s, m, g, drift, i, depth, new_depth, alpha, beta, ply, pv).0),
        forall|t: Setup| #[trigger]
            agree(
                s,
                t,
                m.asked,
                look(s, m, g, drift, i, depth, new_depth, alpha, beta, ply, pv).0.asked,
            ) ==> look(t, m, g, drift, i, depth, new_depth, alpha, beta, ply, pv) == look(
                s,
                m,
                g,
                drift,
                i,
                depth,
                new_depth,
                alpha,
                beta,
                ply,
                pv,
            ),
    decreases 128 - ply, 3int, 0int,
{
    reveal(look);
    reveal(negamax);
    let r = look(s, m, g, drift, i, depth, new_depth, alpha, beta, ply, pv);
    if ply < 127 {
        if i == 0 {
            lemma_negamax_agrees(s, m, g, drift, new_depth, -beta, -alpha, ply + 1, pv);
        } else {
            let (m1, x) = negamax(s, m, g, drift, new_depth, -alpha - 1, -alpha, ply + 1, false);
            lemma_negamax_agrees(s, m, g, drift, new_depth, -alpha - 1, -alpha, ply + 1, false);
            if -x > alpha && (new_depth < depth - 1 || -x < beta) {
                lemma_negamax_agrees(s, m1, g, drift, depth - 1, -beta, -alpha, ply + 1, pv);
            }
            assert forall|t: Setup| #[trigger] agree(s, t, m.asked, r.0.asked) implies look(
                t,
                m,
                g,
                drift,
                i,
                depth,
                new_depth,
                alpha,
                beta,
                ply,
                pv,
            ) == r by {
                lemma_agree_part(s, t, m.asked, r.0.asked, m.asked, m1.asked);
                lemma_agree_part(s, t, m.asked, r.0.asked, m1.asked, r.0.asked);
            }
        }
    }
}

/// On the way from `m` to `n` nobody says stop, and the time always does.
pub open spec fn undisturbed(s: Setup, m: Mind, n: Mind) -> bool {
    &&& forall|i: int| m.asked <= i < n.asked ==> !#[trigger] told_to_stop(s, i)
    &&& forall|i: int| m.weighed <= i < n.weighed ==> !#[trigger] found_short(s, i)
}

/// The setups are alike, but for what the flag and the clock show.
spec fn alike(s: Setup, t: Setup) -> bool {
    &&& s.worth == t.worth
    &&& s.null_move == t.null_move
    &&& s.lmr == t.lmr
    &&& s.node_limit == t.node_limit
    &&& (s.deadline is Some) == (t.deadline is Some)
    &&& unstoppable(s) == unstoppable(t)
}

proof fn lemma_deepen_reproducible(
    s: Setup,
    t: Setup,
    m: Mind,
    g: Game,
    drift: u64,
    d: Deepening,
    max_depth: int,
)
    requires
        alike(s, t),
        undisturbed(s, m, deepen(s, m, g, drift, d, max_depth).0),
        undisturbed(t, m, deepen(t, m, g, drift, d, max_depth).0),
    ensures
        deepen(s, m, g, drift, d, max_depth) == deepen(t, m, g, drift, d, max_depth),
        m.asked <= deepen(s, m, g, drift, d, max_depth).0.asked,
        m.weighed <= deepen(s, m, g, drift, d, max_depth).0.weighed,
{
    let (a, b) = (
        deepen(s, m, g, drift, d, max_depth).0,
        deepen(t, m, g, drift, d, max_depth).0,
    );
    let a1 = negamax(s, m, g, drift, d.depth, d.alpha, d.beta, 0, true).0;
    let b1 = negamax(t, m, g, drift, d.depth, d.alpha, d.beta, 0, true).0;
    lemma_negamax_agrees(s, m, g, drift, d.depth, d.alpha, d.beta, 0, true);
    lemma_negamax_agrees(t, m, g, drift, d.depth, d.alpha, d.beta, 0, true);
    if a1.asked <= b1.asked {
        assert(agree(s, t, m.asked, a1.asked));
    } else {
        assert(agree(t, s, m.asked, b1.asked));
    }
    if a.asked > a1.asked {
        assert(!told_to_stop(s, a1.asked));
    }
    if b.asked > b1.asked {
        assert(!told_to_stop(t, b1.asked));
    }
    if a.weighed > a1.weighed {
        assert(!found_short(s, a1.weighed));
    }
    if b.weighed > b1.weighed {
        assert(!found_short(t, b1.weighed));
    }
}

/// Questions are only ever added.
proof fn lemma_deepen_all_asks_on(
    s: Setup,
    m: Mind,
    g: Game,
    drift: u64,
    d: Deepening,
    max_depth: int,
)
    ensures
        m.asked <= deepen_all(s, m, g, drift, d, max_depth).0.asked,
        m.weighed <= deepen_all(s, m, g, drift, d, max_depth).0.weighed,
    decreases max_depth - d.depth, if full(d) { 0int } else { 1int }, d.tries,
{
    if !(d.done || d.depth > max_depth) {
        let (m1, d1) = deepen(s, m, g, drift, d, max_depth);
        lemma_negamax_agrees(s, m, g, drift, d.depth, d.alpha, d.beta, 0, true);
        if !d1.done && further(d, d1) {
            lemma_deepen_all_asks_on(s, m1, g, drift, d1, max_depth);
        }
    }
}

proof fn lemma_deepen_all_reproducible(
    s: Setup,
    t: Setup,
    m: Mind,
    g: Game,
    drift: u64,
    d: Deepening,
    max_depth: int,
)
    requires
        alike(s, t),
        undisturbed(s, m, deepen_all(s, m, g, drift, d, max_depth).0),
        undisturbed(t, m, deepen_all(t, m, g, drift, d, max_depth).0),
    ensures
        deepen_all(s, m, g, drift, d, max_depth) == deepen_all(t, m, g, drift, d, max_depth),
    decreases max_depth - d.depth, if full(d) { 0int } else { 1int }, d.tries,
{
    if !(d.done || d.depth > max_depth) {
        let (m1, d1) = deepen(s, m, g, drift, d, max_depth);
        let (n1, e1) = deepen(t, m, g, drift, d, max_depth);
        lemma_deepen_all_asks_on(s, m1, g, drift, d1, max_depth);
        lemma_deepen_all_asks_on(t, n1, g, drift, e1, max_depth);
        lemma_deepen_reproducible(s, t, m, g, drift, d, max_depth);
        if !d1.done && further(d, d1) {
            lemma_deepen_all_reproducible(s, t, m1, g, drift, d1, max_depth);
        }
    }
}

/// The engine is reproducible: a search that nobody stops depends on nothing but the
/// position, what is remembered, the evaluation, the options and the limits.
pub proof fn law_searches_are_reproducible(
    s: Setup,
    t: Setup,
    m: Mind,
    g: Game,
    drift: u64,
    max_depth: int,
)
    requires
        s.worth == t.worth,
        s.null_move == t.null_move,
        s.lmr == t.lmr,
        s.node_limit == t.node_limit,
        (s.deadline is Some) == (t.deadline is Some),
        unstoppable(s) == unstoppable(t),
        undisturbed(s, begun(m), search(s, m, g, drift, max_depth).0),
        undisturbed(t, begun(m), search(t, m, g, drift, max_depth).0),
    ensures
        search(s, m, g, drift, max_depth) == search(t, m, g, drift, max_depth),
{
    lemma_deepen_all_reproducible(s, t, begun(m), g, drift, first_window(g), max_depth);
}

/// A search on its own that has no time limit is never disturbed.
pub proof fn law_lone_searches_are_undisturbed(s: Setup, m: Mind, n: Mind)
    requires
        s.alone,
        s.deadline is None,
    ensures
        undisturbed(s, m, n),
{
}

/// Searches that start with nothing remembered start alike.
pub proof fn lemma_fresh_starts(m: Mind, n: Mind, size: int)
    requires
        fresh(m, size),
        fresh(n, size),
    ensures
        begun(m) == begun(n),
{
    assert(m.entries =~= n.entries);
    assert(m.killers =~= n.killers);
    assert(m.history =~= n.history);
    assert(begun(m).history =~= begun(n).history);
}

/// A root score that lies outside the full window.
pub open spec fn outside_the_window(score: int) -> bool {
    score <= -32_000 || score >= 32_000
}

proof fn lemma_depth_is_reached(
    s: Setup,
    m: Mind,
    g: Game,
    drift: u64,
    d: Deepening,
    max_depth: int,
)
    requires
        !m.aborted,
        s.node_limit is None,
        undisturbed(s, m, deepen_all(s, m, g, drift, d, max_depth).0),
        !d.done,
        1 <= d.depth <= max_depth,
        d.run.depth == d.depth - 1,
    ensures
        ({
            let run = deepen_all(s, m, g, drift, d, max_depth).1.run;
            ||| run.depth == max_depth
            ||| run.score >= 29_000
            ||| run.score <= -29_000
            ||| exists|n: Mind|
                outside_the_window(
                    (#[trigger] negamax(
                        s,
                        n,
                        g,
                        drift,
                        run.depth + 1,
                        -32_000,
                        32_000,
                        0,
                        true,
                    )).1,
                )
        }),
    decreases max_depth - d.depth, if full(d) { 0int } else { 1int }, d.tries,
{
    let (m1, d1) = deepen(s, m, g, drift, d, max_depth);
    let (m0, score) = negamax(s, m, g, drift, d.depth, d.alpha, d.beta, 0, true);
    lemma_negamax_agrees(s, m, g, drift, d.depth, d.alpha, d.beta, 0, true);
    lemma_deepen_all_asks_on(s, m1, g, drift, d1, max_depth);
    assert(m0.asked <= m1.asked <= deepen_all(s, m, g, drift, d, max_depth).0.asked);
    assert(m0.weighed <= m1.weighed <= deepen_all(s, m, g, drift, d, max_depth).0.weighed);
    assert(!m0.aborted);
    if m1.asked > m0.asked {
        assert(!told_to_stop(s, m0.asked));
    }
    if m1.weighed > m0.weighed {
        assert(!found_short(s, m0.weighed));
    }
    if full(d) && outside_the_window(score) {
        assert(negamax(s, m, g, drift, d.run.depth + 1, -32_000, 32_000, 0, true).1 == score);
    }
    if !d1.done {
        assert(further(d, d1));
        lemma_depth_is_reached(s, m1, g, drift, d1, max_depth);
    }
}

/// A search without a node limit that nobody stops goes to its last depth, unless the
/// game is decided before, or the root scores outside the full window at the depth after
/// the one it came back with.
pub proof fn law_the_last_depth_is_reached(
    s: Setup,
    m: Mind,
    g: Game,
    drift: u64,
    max_depth: int,
)
    requires
        considered(g, GenMode::Search).len() > 0,
        max_depth >= 1,
        s.node_limit is None,
        undisturbed(s, begun(m), search(s, m, g, drift, max_depth).0),
    ensures
        ({
            let run = search(s, m, g, drift, max_depth).1;
            ||| run.depth == max_depth
            ||| run.score >= 29_000
            ||| run.score <= -29_000
            ||| exists|n: Mind|
                outside_the_window(
                    (#[trigger] negamax(
                        s,
                        n,
                        g,
                        drift,
                        run.depth + 1,
                        -32_000,
                        32_000,
                        0,
                        true,
                    )).1,
                )
        }),
{
    lemma_depth_is_reached(s, begun(m), g, drift, first_window(g), max_depth);
}

// ---------------------------------------------------------------------------
// Single steps
// ---------------------------------------------------------------------------

/// The listed moves can be carried out.
pub proof fn lemma_considered_playable(g: Game, mode: GenMode)
    requires
        g.board.len() == 64,
    ensures
        all_playable(g, considered(g, mode)),
        considered(g, mode).len() <= 512,
{
    reveal(can_play);
    laws::law_generated_members(g, mode);
    let all = movegen::generated(g, mode);
    let ms = considered(g, mode);
    assert forall|i: int| 0 <= i < ms.len() implies can_play(g, #[trigger] ms[i]) by {
        assert(all[i] == ms[i]);
        assert(all.contains(ms[i]));
        rules::lemma_legal_playable(g, ms[i].src(), ms[i].dst());
    }
}

pub proof fn lemma_best_place(scores: Seq<i32>, from: int, to: int)
    requires
        0 <= from < to,
    ensures
        from <= best_place(scores, from, to) < to,
    decreases to - from,
{
    if to > from + 1 {
        lemma_best_place(scores, from, to - 1);
    }
}

/// Picking exchanges two moves.
pub proof fn lemma_picked(g: Game, q: Queue, i: int)
    requires
        all_playable(g, q.moves),
        q.moves.len() == q.scores.len(),
        0 <= i < q.moves.len(),
    ensures
        all_playable(g, picked(q, i).moves),
        picked(q, i).moves.len() == q.moves.len(),
        picked(q, i).scores.len() == q.scores.len(),
        can_play(g, picked(q, i).moves[i]),
        forall|k: int| #![trigger picked(q, i).scores[k]] 0 <= k < q.scores.len() ==> exists|j: int|
            0 <= j < q.scores.len() && #[trigger] q.scores[j] == picked(q, i).scores[k],
{
    lemma_best_place(q.scores, i, q.scores.len() as int);
    let b = best_place(q.scores, i, q.scores.len() as int);
    let p = picked(q, i);
    assert forall|k: int| 0 <= k < p.moves.len() implies can_play(g, #[trigger] p.moves[k]) by {
        assert(can_play(g, q.moves[k]));
        assert(can_play(g, q.moves[i]));
        assert(can_play(g, q.moves[b]));
    }
    assert forall|k: int|
        #![trigger p.scores[k]]
        0 <= k < q.scores.len() implies exists|j: int|
        0 <= j < q.scores.len() && #[trigger] q.scores[j] == p.scores[k] by {
        let j = if k == b {
            i
        } else if k == i {
            b
        } else {
            k
        };
        assert(q.scores[j] == p.scores[k]);
    }
}

/// A capture that quiescence skips.
pub open spec fn skips(q: Queue, i: int, worth: int, alpha: int) -> bool {
    q.scores[i] < 0 && worth + q.scores[i] + 200 <= alpha
}

pub proof fn lemma_quiesce_skip(
    s: Setup,
    m: Mind,
    g: Game,
    q: Queue,
    i: int,
    worth: int,
    best: int,
    alpha: int,
    beta: int,
    ply: int,
)
    requires
        0 <= i < q.moves.len(),
        ply < 127,
        skips(picked(q, i), i, worth, alpha),
    ensures
        quiesce_moves(s, m, g, q, i, worth, best, alpha, beta, ply) == quiesce_moves(
            s,
            m,
            g,
            picked(q, i),
            i + 1,
            worth,
            best,
            alpha,
            beta,
            ply,
        ),
{
    reveal(quiesce_moves);
}

pub proof fn lemma_quiesce_try(
    s: Setup,
    m: Mind,
    g: Game,
    q: Queue,
    i: int,
    worth: int,
    best: int,
    alpha: int,
    beta: int,
    ply: int,
    m1: Mind,
    r: int,
)
    requires
        0 <= i < q.moves.len(),
        ply < 127,
        !skips(picked(q, i), i, worth, alpha),
        (m1, r) == quiesce(s, m, next(g, picked(q, i).moves[i]), -beta, -alpha, ply + 1),
    ensures
        ({
            let b = if -r > best {
                -r
            } else {
                best
            };
            let a = if -r > alpha {
                -r
            } else {
                alpha
            };
            quiesce_moves(s, m, g, q, i, worth, best, alpha, beta, ply) == if m1.aborted {
                (m1, 0int)
            } else if a >= beta {
                (m1, b)
            } else {
                quiesce_moves(s, m1, g, picked(q, i), i + 1, worth, b, a, beta, ply)
            }
        }),
{
    reveal(quiesce_moves);
    reveal(quiesce);
}

pub proof fn lemma_negamax_step(
    s: Setup,
    m: Mind,
    g: Game,
    drift: u64,
    q: Queue,
    i: int,
    depth: int,
    alpha: int,
    beta: int,
    ply: int,
    pv: bool,
    best: Best,
    m1: Mind,
    score: int,
)
    requires
        0 <= i < q.moves.len(),
        (m1, score) == look(
            s,
            m,
            next(g, picked(q, i).moves[i]),
            drift,
            i,
            depth,
            first_depth(s, depth, i, !loud(g, picked(q, i).moves[i]), pv),
            alpha,
            beta,
            ply,
            pv,
        ),
    ensures
        negamax_moves(s, m, g, drift, q, i, depth, alpha, beta, ply, pv, best) == (if m1.aborted {
            (m1, 0int)
        } else if larger(alpha, score) >= beta {
            (
                remember(
                    credited(m1, g, picked(q, i).moves[i], depth, ply),
                    g,
                    drift,
                    Best {
                        bound: Bound::Lower,
                        ..improved(best, score, picked(q, i).moves[i], alpha)
                    },
                    depth,
                    ply,
                ),
                improved(best, score, picked(q, i).moves[i], alpha).score,
            )
        } else {
            negamax_moves(
                s,
                m1,
                g,
                drift,
                picked(q, i),
                i + 1,
                depth,
                larger(alpha, score),
                beta,
                ply,
                pv,
                improved(best, score, picked(q, i).moves[i], alpha),
            )
        }),
{
    reveal(negamax_moves);
    reveal(look);
}

/// The last move has been looked at.
pub proof fn lemma_negamax_end(
    s: Setup,
    m: Mind,
    g: Game,
    drift: u64,
    q: Queue,
    i: int,
    depth: int,
    alpha: int,
    beta: int,
    ply: int,
    pv: bool,
    best: Best,
)
    requires
        i >= q.moves.len(),
    ensures
        negamax_moves(s, m, g, drift, q, i, depth, alpha, beta, ply, pv, best) == (
            remember(m, g, drift, best, depth, ply),
            best.score,
        ),
{
    reveal(negamax_moves);
}

/// The first move is looked at with the full window.
pub proof fn lemma_look_first(
    s: Setup,
    m: Mind,
    g: Game,
    drift: u64,
    depth: int,
    new_depth: int,
    alpha: int,
    beta: int,
    ply: int,
    pv: bool,
    m1: Mind,
    r: int,
)
    requires
        ply < 127,
        (m1, r) == negamax(s, m, g, drift, new_depth, -beta, -alpha, ply + 1, pv),
    ensures
        look(s, m, g, drift, 0, depth, new_depth, alpha, beta, ply, pv) == (m1, -r),
{
    reveal(look);
    reveal(negamax);
}

/// A later move that the empty window settles.
pub proof fn lemma_look_once(
    s: Setup,
    m: Mind,
    g: Game,
    drift: u64,
    i: int,
    depth: int,
    new_depth: int,
    alpha: int,
    beta: int,
    ply: int,
    pv: bool,
    m1: Mind,
    r: int,
)
    requires
        i != 0,
        ply < 127,
        (m1, r) == negamax(s, m, g, drift, new_depth, -alpha - 1, -alpha, ply + 1, false),
        !(-r > alpha && (new_depth < depth - 1 || -r < beta)),
    ensures
        look(s, m, g, drift, i, depth, new_depth, alpha, beta, ply, pv) == (m1, -r),
{
    reveal(look);
    reveal(negamax);
}

/// A later move that has to be looked at again.
pub proof fn lemma_look_twice(
    s: Setup,
    m: Mind,
    g: Game,
    drift: u64,
    i: int,
    depth: int,
    new_depth: int,
    alpha: int,
    beta: int,
    ply: int,
    pv: bool,
    m1: Mind,
    r: int,
    m2: Mind,
    r2: int,
)
    requires
        i != 0,
        ply < 127,
        (m1, r) == negamax(s, m, g, drift, new_depth, -alpha - 1, -alpha, ply + 1, false),
        -r > alpha && (new_depth < depth - 1 || -r < beta),
        (m2, r2) == negamax(s, m1, g, drift, depth - 1, -beta, -alpha, ply + 1, pv),
    ensures
        look(s, m, g, drift, i, depth, new_depth, alpha, beta, ply, pv) == (m2, -r2),
{
    reveal(look);
    reveal(negamax);
}

/// A node without a pass goes on to its moves.
pub proof fn lemma_open_plain(
    s: Setup,
    m: Mind,
    g: Game,
    drift: u64,
    depth: int,
    alpha: int,
    beta: int,
    ply: int,
    pv: bool,
    tt_move: Move,
)
    requires
        !tries_pass(s, g, depth, beta, pv),
    ensures
        negamax_open(s, m, g, drift, depth, alpha, beta, ply, pv, tt_move) == negamax_all(
            s,
            m,
            g,
            drift,
            depth,
            alpha,
            beta,
            ply,
            pv,
            tt_move,
        ),
{
    reveal(negamax_open);
    reveal(negamax_all);
}

/// A node with a pass.
pub proof fn lemma_open_pass(
    s: Setup,
    m: Mind,
    g: Game,
    drift: u64,
    depth: int,
    alpha: int,
    beta: int,
    ply: int,
    pv: bool,
    tt_move: Move,
    m1: Mind,
    r: int,
)
    requires
        tries_pass(s, g, depth, beta, pv),
        ply < 127,
        (m1, r) == negamax(
            s,
            m,
            passed(g),
            drift,
            depth - (2 + depth / 4) - 1,
            -beta,
            -beta + 1,
            ply + 1,
            false,
        ),
    ensures
        negamax_open(s, m, g, drift, depth, alpha, beta, ply, pv, tt_move) == (if m1.aborted {
            (m1, 0int)
        } else if -r >= beta {
            (m1, beta)
        } else {
            negamax_all(s, m1, g, drift, depth, alpha, beta, ply, pv, tt_move)
        }),
{
    reveal(negamax_open);
    reveal(negamax_all);
    reveal(negamax);
}

/// The moves of a node.
pub proof fn lemma_all(
    s: Setup,
    m: Mind,
    g: Game,
    drift: u64,
    depth: int,
    alpha: int,
    beta: int,
    ply: int,
    pv: bool,
    tt_move: Move,
)
    requires
        ply < 127,
    ensures
        ({
            let ms = considered(g, GenMode::Search);
            negamax_all(s, m, g, drift, depth, alpha, beta, ply, pv, tt_move) == if ms.len() == 0 {
                (m, (s.worth)(g))
            } else {
                negamax_moves(
                    s,
                    m,
                    g,
                    drift,
                    Queue {
                        moves: ms,
                        scores: ratings(g, ms, tt_move, m.killers[ply], m.history),
                    },
                    0,
                    depth,
                    alpha,
                    beta,
                    ply,
                    pv,
                    Best { score: -32_000, mv: ms[0], bound: Bound::Upper },
                )
            }
        }),
{
    reveal(negamax_all);
    reveal(negamax_moves);
}

} // verus!
