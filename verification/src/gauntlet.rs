//! Measuring progress.
//!
//! Self-play win rate will lie to you — a net can improve against itself while
//! getting worse against a different playing style. Everything here plays engines
//! against *other* engines over randomised openings, with each opening played twice so
//! both sides get it.

use rayon::iter::{IndexedParallelIterator, IntoParallelRefIterator, ParallelIterator};
use vstd::prelude::*;
use crate::laws;
use crate::movegen::GenMode;
use crate::plan;
use crate::plan::{Mind, Setup};
use crate::position::{GameResult, Position};
use crate::rules;
use crate::rules::Game;
use crate::search;
use crate::search::{Judge, SearchLimits, SearchOptions, Searcher};
use crate::selfplay;
use crate::selfplay::{SelfPlayConfig, random_opening};
use crate::tables::SplitMix64;
use crate::types::Color;

verus! {

pub struct Participant<E> {
    pub name: String,
    pub evaluator: E,
    pub limits: SearchLimits,
    pub options: SearchOptions<E>,
}

impl<E: Judge + Copy> Participant<E> {
    pub fn new(name: String, evaluator: E, limits: SearchLimits) -> (r: Participant<E>)
        ensures
            r.wf(),
            r.name == name,
            r.evaluator == evaluator,
            r.limits == limits,
            r.options == (SearchOptions {
                evaluator,
                tt_megabytes: 16,
                use_null_move: false,
                use_lmr: true,
                verbose: false,
            }),
    {
        let mut options = SearchOptions::with_evaluator(evaluator);
        options.tt_megabytes = 16;
        Participant { name, evaluator, limits, options }
    }

    /// The table fits the machine.
    pub open spec fn wf(self) -> bool {
        self.options.tt_megabytes * 1024 * 1024 <= usize::MAX
    }

    fn searcher(&self) -> (s: Searcher<E>)
        requires
            self.wf(),
        ensures
            s.wf(),
            s.choices() == self.options,
            s.alone(),
            plan::fresh(s.mind(), search::table_size(self.options.tt_megabytes as int)),
    {
        Searcher::unshared(self.options)
    }
}

// ---------------------------------------------------------------------------
// Scores
// ---------------------------------------------------------------------------

#[derive(Clone, Copy, Debug, PartialEq, Eq, Structural)]
pub struct MatchScore {
    pub wins: u32,
    pub losses: u32,
    pub draws: u32,
}

impl Default for MatchScore {
    fn default() -> (r: MatchScore)
        ensures
            r == (MatchScore { wins: 0, losses: 0, draws: 0 }),
    {
        MatchScore { wins: 0, losses: 0, draws: 0 }
    }
}

impl MatchScore {
    /// How many games the score is about.
    pub open spec fn total(self) -> int {
        self.wins + self.losses + self.draws
    }

    /// The score of two matches together.
    pub open spec fn plus(self, o: MatchScore) -> MatchScore {
        MatchScore {
            wins: (self.wins + o.wins) as u32,
            losses: (self.losses + o.losses) as u32,
            draws: (self.draws + o.draws) as u32,
        }
    }

    /// The same match from the other side.
    pub open spec fn turned(self) -> MatchScore {
        MatchScore { wins: self.losses, losses: self.wins, draws: self.draws }
    }

    pub fn games(&self) -> (n: u32)
        requires
            self.total() <= u32::MAX,
        ensures
            n == self.total(),
    {
        self.wins + self.losses + self.draws
    }

    pub fn merge(&mut self, o: &MatchScore)
        requires
            old(self).wins + o.wins <= u32::MAX,
            old(self).losses + o.losses <= u32::MAX,
            old(self).draws + o.draws <= u32::MAX,
        ensures
            *final(self) == old(self).plus(*o),
            final(self).total() == old(self).total() + o.total(),
    {
        self.wins += o.wins;
        self.losses += o.losses;
        self.draws += o.draws;
    }

    /// The score from the point of view of the other side.
    pub fn reversed(&self) -> (r: MatchScore)
        ensures
            r == self.turned(),
    {
        MatchScore { wins: self.losses, losses: self.wins, draws: self.draws }
    }
}

/// The score of one game for the side that had colour `c`.
pub open spec fn scored(r: GameResult, c: Color) -> MatchScore {
    match r {
        GameResult::Draw => MatchScore { wins: 0, losses: 0, draws: 1 },
        GameResult::Win(w) => if w == c {
            MatchScore { wins: 1, losses: 0, draws: 0 }
        } else {
            MatchScore { wins: 0, losses: 1, draws: 0 }
        },
    }
}

/// Scores one game for the side that had colour `c`.
pub fn score_game(r: GameResult, c: Color) -> (s: MatchScore)
    ensures
        s == scored(r, c),
        s.total() == 1,
{
    match r {
        GameResult::Draw => MatchScore { wins: 0, losses: 0, draws: 1 },
        GameResult::Win(w) => {
            if w == c {
                MatchScore { wins: 1, losses: 0, draws: 0 }
            } else {
                MatchScore { wins: 0, losses: 1, draws: 0 }
            }
        },
    }
}

/// What one side wins the other loses.
pub proof fn law_scores_are_opposite(r: GameResult, c: Color)
    ensures
        scored(r, c.other()) == scored(r, c).turned(),
{
}

// ---------------------------------------------------------------------------
// Games
// ---------------------------------------------------------------------------

/// The setup suits a participant, whose search nobody else can stop.
pub open spec fn suits<E: Judge>(s: Setup, p: Participant<E>) -> bool {
    search::suits(
        s,
        search::worth_of(p.options.evaluator),
        p.options.use_null_move,
        p.options.use_lmr,
        p.limits,
        true,
    )
}

/// From `g` on a game goes like this: each side plays what its own search finds, with what
/// it remembers from its earlier moves, until the game has a result.
pub open spec fn game_goes<E: Judge>(
    white: Participant<E>,
    black: Participant<E>,
    setups: Seq<Setup>,
    mw: Mind,
    mb: Mind,
    g: Game,
    drift: u64,
    result: GameResult,
) -> bool
    decreases setups.len(),
{
    match rules::outcome(g) {
        Some(r) => setups.len() == 0 && result == r,
        None => {
            &&& setups.len() > 0
            &&& if g.side == Color::White {
                let (m, run) = plan::search(
                    setups[0],
                    mw,
                    g,
                    drift,
                    search::last_depth(white.limits),
                );
                &&& suits(setups[0], white)
                &&& game_goes(
                    white,
                    black,
                    setups.skip(1),
                    m,
                    mb,
                    plan::next(g, run.best),
                    drift,
                    result,
                )
            } else {
                let (m, run) = plan::search(
                    setups[0],
                    mb,
                    g,
                    drift,
                    search::last_depth(black.limits),
                );
                &&& suits(setups[0], black)
                &&& game_goes(
                    white,
                    black,
                    setups.skip(1),
                    mw,
                    m,
                    plan::next(g, run.best),
                    drift,
                    result,
                )
            }
        },
    }
}

/// How a game between two participants can end.
pub open spec fn ends<E: Judge>(
    white: Participant<E>,
    black: Participant<E>,
    g: Game,
    drift: u64,
    result: GameResult,
) -> bool {
    exists|setups: Seq<Setup>, mw: Mind, mb: Mind|
        plan::fresh(mw, search::table_size(white.options.tt_megabytes as int)) && plan::fresh(
            mb,
            search::table_size(black.options.tt_megabytes as int),
        ) && #[trigger] game_goes(white, black, setups, mw, mb, g, drift, result)
}

proof fn lemma_game_repeats<E: Judge>(
    white: Participant<E>,
    black: Participant<E>,
    s: Seq<Setup>,
    t: Seq<Setup>,
    mw: Mind,
    mb: Mind,
    nw: Mind,
    nb: Mind,
    g: Game,
    drift: u64,
    a: GameResult,
    b: GameResult,
)
    requires
        white.limits.movetime is None,
        black.limits.movetime is None,
        plan::begun(mw) == plan::begun(nw),
        plan::begun(mb) == plan::begun(nb),
        game_goes(white, black, s, mw, mb, g, drift, a),
        game_goes(white, black, t, nw, nb, g, drift, b),
    ensures
        a == b,
    decreases s.len(),
{
    if rules::outcome(g) is None {
        let (p, m, n) = if g.side == Color::White {
            (white, mw, nw)
        } else {
            (black, mb, nb)
        };
        search::law_lone_searches_are_repeatable(
            s[0],
            t[0],
            m,
            n,
            search::worth_of(p.options.evaluator),
            p.options.use_null_move,
            p.options.use_lmr,
            p.limits,
            g,
            drift,
        );
        let (after, run) = plan::search(s[0], m, g, drift, search::last_depth(p.limits));
        let h = plan::next(g, run.best);
        if g.side == Color::White {
            lemma_game_repeats(
                white,
                black,
                s.skip(1),
                t.skip(1),
                after,
                mb,
                after,
                nb,
                h,
                drift,
                a,
                b,
            );
        } else {
            lemma_game_repeats(
                white,
                black,
                s.skip(1),
                t.skip(1),
                mw,
                after,
                nw,
                after,
                h,
                drift,
                a,
                b,
            );
        }
    }
}

/// In `g` the player whose turn it is searches with its own evaluation, its own limits and
/// its own memory, and plays what it finds; the other one remembers what it did.
#[verifier::opaque]
pub open spec fn takes_turn<E: Judge>(
    white: Participant<E>,
    black: Participant<E>,
    setup: Setup,
    drift: u64,
    g: Game,
    mw: Mind,
    mb: Mind,
    g1: Game,
    mw1: Mind,
    mb1: Mind,
) -> bool {
    let (p, memory) = match g.side {
        Color::White => (white, mw),
        Color::Black => (black, mb),
    };
    let (m, run) = plan::search(setup, memory, g, drift, search::last_depth(p.limits));
    &&& rules::outcome(g) is None
    &&& setup.worth == search::worth_of(p.options.evaluator)
    &&& setup.node_limit == p.limits.nodes
    &&& setup.deadline == search::time_limit(p.limits)
    &&& setup.alone
    &&& g1 == rules::apply(g, run.best.src(), run.best.dst())
    &&& match g.side {
        Color::White => mw1 == m && mb1 == mb,
        Color::Black => mw1 == mw && mb1 == m,
    }
}

/// A game is a chain of turns, until a position has a result, which is that of the game.
pub proof fn law_players_move_in_turn<E: Judge>(
    white: Participant<E>,
    black: Participant<E>,
    setups: Seq<Setup>,
    mw: Mind,
    mb: Mind,
    g: Game,
    drift: u64,
    result: GameResult,
) -> (r: (Seq<Game>, Seq<Mind>, Seq<Mind>))
    requires
        game_goes(white, black, setups, mw, mb, g, drift, result),
    ensures
        r.0.len() == setups.len() + 1,
        r.1.len() == setups.len() + 1,
        r.2.len() == setups.len() + 1,
        r.0[0] == g,
        r.1[0] == mw,
        r.2[0] == mb,
        rules::outcome(r.0.last()) == Some(result),
        forall|k: int|
            #![trigger setups[k]]
            0 <= k < setups.len() ==> takes_turn(
                white,
                black,
                setups[k],
                drift,
                r.0[k],
                r.1[k],
                r.2[k],
                r.0[k + 1],
                r.1[k + 1],
                r.2[k + 1],
            ),
    decreases setups.len(),
{
    if rules::outcome(g) is Some {
        (seq![g], seq![mw], seq![mb])
    } else {
        let (p, memory) = match g.side {
            Color::White => (white, mw),
            Color::Black => (black, mb),
        };
        let (m, run) = plan::search(setups[0], memory, g, drift, search::last_depth(p.limits));
        let (w1, b1) = match g.side {
            Color::White => (m, mb),
            Color::Black => (mw, m),
        };
        let h = plan::next(g, run.best);
        let rest = setups.skip(1);
        assert(game_goes(white, black, rest, w1, b1, h, drift, result));
        assert(takes_turn(white, black, setups[0], drift, g, mw, mb, h, w1, b1)) by {
            reveal(takes_turn);
            reveal(plan::next);
        }
        let (gs, ws, bs) = law_players_move_in_turn(white, black, rest, w1, b1, h, drift, result);
        lemma_turns_joined(white, black, setups, drift, g, mw, mb, gs, ws, bs);
        (seq![g] + gs, seq![mw] + ws, seq![mb] + bs)
    }
}

proof fn lemma_turns_joined<E: Judge>(
    white: Participant<E>,
    black: Participant<E>,
    setups: Seq<Setup>,
    drift: u64,
    g: Game,
    mw: Mind,
    mb: Mind,
    gs: Seq<Game>,
    ws: Seq<Mind>,
    bs: Seq<Mind>,
)
    requires
        setups.len() > 0,
        gs.len() == setups.len(),
        ws.len() == setups.len(),
        bs.len() == setups.len(),
        takes_turn(white, black, setups[0], drift, g, mw, mb, gs[0], ws[0], bs[0]),
        forall|k: int|
            #![trigger setups.skip(1)[k]]
            0 <= k < setups.len() - 1 ==> takes_turn(
                white,
                black,
                setups.skip(1)[k],
                drift,
                gs[k],
                ws[k],
                bs[k],
                gs[k + 1],
                ws[k + 1],
                bs[k + 1],
            ),
    ensures
        forall|k: int|
            #![trigger setups[k]]
            0 <= k < setups.len() ==> takes_turn(
                white,
                black,
                setups[k],
                drift,
                (seq![g] + gs)[k],
                (seq![mw] + ws)[k],
                (seq![mb] + bs)[k],
                (seq![g] + gs)[k + 1],
                (seq![mw] + ws)[k + 1],
                (seq![mb] + bs)[k + 1],
            ),
{
    assert forall|k: int|
        #![trigger setups[k]]
        0 <= k < setups.len() implies takes_turn(
        white,
        black,
        setups[k],
        drift,
        (seq![g] + gs)[k],
        (seq![mw] + ws)[k],
        (seq![mb] + bs)[k],
        (seq![g] + gs)[k + 1],
        (seq![mw] + ws)[k + 1],
        (seq![mb] + bs)[k + 1],
    ) by {
        if k > 0 {
            assert(setups.skip(1)[k - 1] == setups[k]);
        }
    }
}

/// Without time limits a game between two participants can end in one way only.
pub proof fn law_games_are_repeatable<E: Judge>(
    white: Participant<E>,
    black: Participant<E>,
    g: Game,
    drift: u64,
    a: GameResult,
    b: GameResult,
)
    requires
        white.limits.movetime is None,
        black.limits.movetime is None,
        ends(white, black, g, drift, a),
        ends(white, black, g, drift, b),
    ensures
        a == b,
{
    let (kw, kb) = (
        search::table_size(white.options.tt_megabytes as int),
        search::table_size(black.options.tt_megabytes as int),
    );
    let (s, mw, mb) = choose|s: Seq<Setup>, mw: Mind, mb: Mind|
        plan::fresh(mw, kw) && plan::fresh(mb, kb) && #[trigger] game_goes(
            white,
            black,
            s,
            mw,
            mb,
            g,
            drift,
            a,
        );
    let (t, nw, nb) = choose|t: Seq<Setup>, nw: Mind, nb: Mind|
        plan::fresh(nw, kw) && plan::fresh(nb, kb) && #[trigger] game_goes(
            white,
            black,
            t,
            nw,
            nb,
            g,
            drift,
            b,
        );
    plan::lemma_fresh_starts(mw, nw, kw);
    plan::lemma_fresh_starts(mb, nb, kb);
    lemma_game_repeats(white, black, s, t, mw, mb, nw, nb, g, drift, a, b);
}

/// One side's search for a move, and the position after it.
fn reply<E: Judge>(searcher: &mut Searcher<E>, limits: &SearchLimits, pos: &Position) -> (child:
    Position)
    requires
        old(searcher).wf(),
        pos.wf(),
        rules::outcome(pos@) is None,
    ensures
        final(searcher).wf(),
        final(searcher).choices() == old(searcher).choices(),
        final(searcher).flag() == old(searcher).flag(),
        final(searcher).alone() == old(searcher).alone(),
        final(searcher).given(*limits),
        child.wf(),
        child.drift() == pos.drift(),
        child.ply == pos.ply + 1,
        ({
            let (m, run) = plan::search(
                final(searcher).setup(),
                old(searcher).mind(),
                pos@,
                pos.drift(),
                search::last_depth(*limits),
            );
            final(searcher).mind() == m && child@ == plan::next(pos@, run.best)
        }),
{
    proof {
        // Both kings stand, so the side to move has a move.
        laws::law_a_king_always_has_a_move(pos@);
    }
    let r = searcher.search(pos, limits);
    proof {
        plan::lemma_considered_playable(pos@, GenMode::Search);
        let ms = plan::considered(pos@, GenMode::Search);
        let k = choose|k: int| 0 <= k < ms.len() && ms[k] == r.best;
        assert(plan::can_play(pos@, ms[k]));
        reveal(plan::can_play);
        reveal(plan::next);
    }
    let (child, _) = pos.after(r.best);
    child
}

/// Plays one game between two participants from a given opening.
pub fn play_game<E: Judge + Copy>(
    white: &Participant<E>,
    black: &Participant<E>,
    opening: &Position,
) -> (r: GameResult)
    requires
        white.wf(),
        black.wf(),
        opening.wf(),
    ensures
        ends(*white, *black, opening@, opening.drift(), r),
{
    let mut pos: Position = *opening;
    let mut sw = white.searcher();
    let mut sb = black.searcher();
    let ghost (mw, mb, drift) = (sw.mind(), sb.mind(), pos.drift());
    let ghost mut setups: Seq<Setup> = Seq::empty();
    proof {
        assert forall|rest: Seq<Setup>| #[trigger] (setups + rest) == rest by {
            assert(setups + rest =~= rest);
        }
    }
    loop
        invariant
            pos.wf(),
            pos.drift() == drift,
            drift == opening.drift(),
            sw.wf(),
            sb.wf(),
            sw.choices() == white.options,
            sb.choices() == black.options,
            sw.alone(),
            sb.alone(),
            plan::fresh(mw, search::table_size(white.options.tt_megabytes as int)),
            plan::fresh(mb, search::table_size(black.options.tt_megabytes as int)),
            forall|rest: Seq<Setup>, result: GameResult|
                game_goes(*white, *black, rest, sw.mind(), sb.mind(), pos@, drift, result)
                    ==> #[trigger] game_goes(
                    *white,
                    *black,
                    setups + rest,
                    mw,
                    mb,
                    opening@,
                    drift,
                    result,
                ),
        decreases 200 - pos.ply,
    {
        if let Some(r) = pos.result() {
            let ghost none = Seq::<Setup>::empty();
            assert(game_goes(*white, *black, none, sw.mind(), sb.mind(), pos@, drift, r));
            assert(game_goes(*white, *black, setups + none, mw, mb, opening@, drift, r));
            return r;
        }
        let ghost (g, w0, b0) = (pos@, sw.mind(), sb.mind());
        let white_moves: bool = pos.side == Color::White;
        if white_moves {
            pos = reply(&mut sw, &white.limits, &pos);
        } else {
            pos = reply(&mut sb, &black.limits, &pos);
        }
        proof {
            let setup = if white_moves {
                sw.setup()
            } else {
                sb.setup()
            };
            let done = setups;
            setups = done.push(setup);
            assert forall|rest: Seq<Setup>, result: GameResult|
                game_goes(
                    *white,
                    *black,
                    rest,
                    sw.mind(),
                    sb.mind(),
                    pos@,
                    drift,
                    result,
                ) implies #[trigger] game_goes(
                *white,
                *black,
                setups + rest,
                mw,
                mb,
                opening@,
                drift,
                result,
            ) by {
                let longer = seq![setup] + rest;
                assert(done + longer =~= setups + rest);
                assert(longer.skip(1) =~= rest);
                assert(longer[0] == setup);
                assert(game_goes(*white, *black, longer, w0, b0, g, drift, result));
            }
        }
    }
}

// ---------------------------------------------------------------------------
// Matches
// ---------------------------------------------------------------------------

/// What `a` can score against `b` in two games from one opening, one with each colour.
#[verifier::opaque]
pub open spec fn pair_ends<E: Judge>(
    a: Participant<E>,
    b: Participant<E>,
    g: Game,
    drift: u64,
    s: MatchScore,
) -> bool {
    exists|r1: GameResult, r2: GameResult|
        #![trigger ends(a, b, g, drift, r1), ends(b, a, g, drift, r2)]
        ends(a, b, g, drift, r1) && ends(b, a, g, drift, r2) && s == scored(r1, Color::White).plus(
            scored(r2, Color::Black),
        )
}

/// Both games of a pair start from the same opening, and each player has each colour
/// once: a win is a game won with the colour of that game.
pub proof fn law_a_pair_is_two_games<E: Judge>(
    a: Participant<E>,
    b: Participant<E>,
    g: Game,
    drift: u64,
    s: MatchScore,
)
    requires
        pair_ends(a, b, g, drift, s),
    ensures
        exists|r1: GameResult, r2: GameResult|
            #![trigger ends(a, b, g, drift, r1), ends(b, a, g, drift, r2)]
            {
                &&& ends(a, b, g, drift, r1)
                &&& ends(b, a, g, drift, r2)
                &&& s.wins == (if r1 == GameResult::Win(Color::White) {
                    1int
                } else {
                    0
                }) + (if r2 == GameResult::Win(Color::Black) {
                    1int
                } else {
                    0
                })
                &&& s.losses == (if r1 == GameResult::Win(Color::Black) {
                    1int
                } else {
                    0
                }) + (if r2 == GameResult::Win(Color::White) {
                    1int
                } else {
                    0
                })
                &&& s.draws == (if r1 == GameResult::Draw {
                    1int
                } else {
                    0
                }) + (if r2 == GameResult::Draw {
                    1int
                } else {
                    0
                })
            },
{
    reveal(pair_ends);
}

/// Plays an opening twice, once from each side. The score is from `a`'s point of view.
pub fn play_pair<E: Judge + Copy>(
    a: &Participant<E>,
    b: &Participant<E>,
    opening: &Position,
) -> (s: MatchScore)
    requires
        a.wf(),
        b.wf(),
        opening.wf(),
    ensures
        pair_ends(*a, *b, opening@, opening.drift(), s),
        s.total() == 2,
{
    let r1 = play_game(a, b, opening);
    let r2 = play_game(b, a, opening);
    let mut s = score_game(r1, Color::White);
    s.merge(&score_game(r2, Color::Black));
    proof {
        reveal(pair_ends);
    }
    s
}

/// `rayon`'s `par_iter`, `with_max_len`, `map` and `collect`: applies a function to each
/// element of a vector on some thread, and gathers the results in the order of the
/// elements. Here the function is `play_pair`. One pair per work item: game lengths vary
/// by an order of magnitude, and a chunk of long games would hold up the whole match.
#[verifier::external_body]
fn play_each<E: Judge + Copy + Sync>(
    a: &Participant<E>,
    b: &Participant<E>,
    openings: &Vec<Position>,
) -> (r: Vec<MatchScore>)
    requires
        a.wf(),
        b.wf(),
        forall|i: int| 0 <= i < openings@.len() ==> (#[trigger] openings@[i]).wf(),
    ensures
        r@.len() == openings@.len(),
        forall|i: int|
            0 <= i < openings@.len() ==> pair_ends(
                *a,
                *b,
                openings@[i]@,
                openings@[i].drift(),
                #[trigger] r@[i],
            ) && r@[i].total() == 2,
{
    openings.par_iter().with_max_len(1).map(|p| play_pair(a, b, p)).collect()
}

/// Seed of the `i`-th opening of a match.
pub open spec fn opening_seed(seed: u64, i: u64) -> u64 {
    seed ^ i.wrapping_mul(0xA24BAED4963EE407)
}

/// The `i`-th opening of a match.
#[verifier::opaque]
pub open spec fn match_opening<E: Judge>(ev: E, seed: u64, i: u64, g: Game) -> bool {
    exists|scores: Seq<int>, after: u64| #[trigger]
        selfplay::opens(
            selfplay::usual(ev),
            opening_seed(seed, i),
            scores,
            g,
            after,
        )
}

/// `g` is an opening that the random numbers from `state` on lead to, judged by the
/// evaluation `ev`.
pub open spec fn drawn_from<E: Judge>(ev: E, state: u64, g: Game) -> bool {
    exists|scores: Seq<int>, after: u64| #[trigger]
        selfplay::opens(selfplay::usual(ev), state, scores, g, after)
}

/// The random numbers of opening `i` start from the seed, xored with `i` times an odd
/// number.
pub proof fn law_each_opening_has_its_stream<E: Judge>(ev: E, seed: u64, i: u64, g: Game)
    requires
        match_opening(ev, seed, i, g),
    ensures
        exists|state: u64| #[trigger]
            drawn_from(ev, state, g) && (state ^ seed) as int == (i * 0xA24BAED4963EE407)
                % 0x1_0000_0000_0000_0000,
{
    reveal(match_opening);
    let x = i.wrapping_mul(0xA24BAED4963EE407);
    let state = opening_seed(seed, i);
    crate::tables::lemma_xor_undone(seed, x, x);
    assert(drawn_from(ev, state, g));
}

/// An opening of a match is the start of the game or four to eight legal moves from it,
/// still in play, and within 400 by a quick search.
pub proof fn law_match_openings_are_fair<E: Judge>(ev: E, seed: u64, i: u64, g: Game)
    requires
        match_opening(ev, seed, i, g),
    ensures
        g == crate::fen::start_game() || {
            &&& rules::outcome(g) is None
            &&& exists|score: int| #[trigger]
                selfplay::balance(search::worth_of(ev), g, score) && -400 <= score <= 400
            &&& exists|ms: Seq<crate::types::Move>| #[trigger]
                selfplay::leads_to(crate::fen::start_game(), ms, g) && 4 <= ms.len() <= 8
        },
{
    reveal(match_opening);
    let cfg = selfplay::usual(ev);
    let (scores, after) = choose|scores: Seq<int>, after: u64| #[trigger]
        selfplay::opens(cfg, opening_seed(seed, i), scores, g, after);
    selfplay::law_openings_are_fair(cfg, opening_seed(seed, i), scores, g, after);
}

/// No two openings of a match come from the same random numbers.
pub proof fn law_openings_have_separate_streams<E: Judge>(
    ev: E,
    seed: u64,
    i: u64,
    j: u64,
    g: Game,
    h: Game,
)
    requires
        i != j,
        match_opening(ev, seed, i, g),
        match_opening(ev, seed, j, h),
    ensures
        opening_seed(seed, i) != opening_seed(seed, j),
        exists|a: u64, b: u64|
            a != b && #[trigger] drawn_from(ev, a, g) && #[trigger] drawn_from(ev, b, h),
{
    reveal(match_opening);
    let (c, inv) = (0xA24BAED4963EE407u64, 0x8b951323f69349b7u64);
    assert((c * inv) % 0x1_0000_0000_0000_0000 == 1);
    crate::tables::lemma_wrapping_mul_undone(i, c, inv);
    crate::tables::lemma_wrapping_mul_undone(j, c, inv);
    let (x, y) = (i.wrapping_mul(c), j.wrapping_mul(c));
    crate::tables::lemma_xor_undone(seed, x, y);
    assert(drawn_from(ev, opening_seed(seed, i), g));
    assert(drawn_from(ev, opening_seed(seed, j), h));
}

/// The openings of a match, judged by the evaluation `ev`.
pub fn match_openings<E: Judge + Copy>(ev: E, pairs: usize, seed: u64) -> (v: Vec<Position>)
    ensures
        v@.len() == pairs,
        forall|i: int|
            0 <= i < pairs ==> selfplay::in_play(#[trigger] v@[i]) && match_opening(
                ev,
                seed,
                i as u64,
                v@[i]@,
            ),
{
    let cfg = SelfPlayConfig::with_evaluator(ev);
    let mut v: Vec<Position> = Vec::new();
    let mut i: usize = 0;
    while i < pairs
        invariant
            i <= pairs,
            cfg == selfplay::usual(ev),
            v@.len() == i,
            forall|k: int|
                0 <= k < i ==> selfplay::in_play(#[trigger] v@[k]) && match_opening(
                    ev,
                    seed,
                    k as u64,
                    v@[k]@,
                ),
        decreases pairs - i,
    {
        let mut rng = SplitMix64::new(seed ^ (i as u64).wrapping_mul(0xA24BAED4963EE407));
        let pos = random_opening(&cfg, &mut rng);
        proof {
            reveal(match_opening);
            let st = opening_seed(seed, i as u64);
            let scores = choose|scores: Seq<int>| #[trigger]
                selfplay::opens(cfg, st, scores, pos@, rng.state());
            assert(selfplay::opens(selfplay::usual(ev), st, scores, pos@, rng.state()));
            assert(match_opening(ev, seed, i as u64, pos@));
        }
        v.push(pos);
        i += 1;
    }
    v
}

/// The score of many matches together.
pub open spec fn sum(scores: Seq<MatchScore>) -> MatchScore
    decreases scores.len(),
{
    if scores.len() == 0 {
        MatchScore { wins: 0, losses: 0, draws: 0 }
    } else {
        sum(scores.drop_last()).plus(scores.last())
    }
}

/// Wins, losses and draws add up each on their own, whatever the order.
pub proof fn law_sums_count_every_game(scores: Seq<MatchScore>)
    requires
        2 * scores.len() <= u32::MAX,
        forall|i: int| 0 <= i < scores.len() ==> (#[trigger] scores[i]).total() == 2,
    ensures
        sum(scores).wins == scores.fold_right(|s: MatchScore, n: int| s.wins + n, 0int),
        sum(scores).losses == scores.fold_right(|s: MatchScore, n: int| s.losses + n, 0int),
        sum(scores).draws == scores.fold_right(|s: MatchScore, n: int| s.draws + n, 0int),
        sum(scores).total() == 2 * scores.len(),
    decreases scores.len(),
{
    let w = |s: MatchScore, n: int| s.wins + n;
    let l = |s: MatchScore, n: int| s.losses + n;
    let d = |s: MatchScore, n: int| s.draws + n;
    if scores.len() > 0 {
        let rest = scores.drop_last();
        let last = scores.last();
        assert forall|i: int| 0 <= i < rest.len() implies (#[trigger] rest[i]).total() == 2 by {
            assert(scores[i].total() == 2);
        }
        assert(scores[scores.len() - 1].total() == 2);
        law_sums_count_every_game(rest);
        lemma_fold_shift(rest, w, last.wins as int);
        lemma_fold_shift(rest, l, last.losses as int);
        lemma_fold_shift(rest, d, last.draws as int);
    }
}

proof fn lemma_fold_shift(s: Seq<MatchScore>, f: spec_fn(MatchScore, int) -> int, x: int)
    requires
        forall|m: MatchScore, a: int, b: int| #[trigger] f(m, a + b) == f(m, a) + b,
    ensures
        s.fold_right(f, x) == s.fold_right(f, 0) + x,
    decreases s.len(),
{
    if s.len() > 0 {
        let y = f(s.last(), x);
        assert(f(s.last(), 0 + x) == f(s.last(), 0) + x);
        lemma_fold_shift(s.drop_last(), f, y);
        lemma_fold_shift(s.drop_last(), f, f(s.last(), 0));
    }
}

/// Adds up the scores of pairs of games.
pub fn add_pairs(scores: &Vec<MatchScore>) -> (total: MatchScore)
    requires
        2 * scores@.len() <= u32::MAX,
        forall|i: int| 0 <= i < scores@.len() ==> (#[trigger] scores@[i]).total() == 2,
    ensures
        total == sum(scores@),
        total.total() == 2 * scores@.len(),
{
    let mut total = MatchScore::default();
    let mut i: usize = 0;
    proof {
        assert(scores@.take(0) =~= Seq::<MatchScore>::empty());
    }
    while i < scores.len()
        invariant
            i <= scores@.len(),
            2 * scores@.len() <= u32::MAX,
            forall|k: int| 0 <= k < scores@.len() ==> (#[trigger] scores@[k]).total() == 2,
            total == sum(scores@.take(i as int)),
            total.total() == 2 * i,
        decreases scores.len() - i,
    {
        proof {
            assert(scores@.take(i + 1).drop_last() =~= scores@.take(i as int));
            assert(scores@[i as int].total() == 2);
        }
        total.merge(&scores[i]);
        i += 1;
    }
    assert(scores@.take(scores@.len() as int) =~= scores@);
    total
}

/// A match over openings, with the score of each.
#[verifier::opaque]
pub open spec fn match_goes<E: Judge>(
    a: Participant<E>,
    b: Participant<E>,
    pairs: int,
    seed: u64,
    openings: Seq<Game>,
    scores: Seq<MatchScore>,
) -> bool {
    &&& openings.len() == pairs
    &&& scores.len() == pairs
    &&& forall|i: int|
        0 <= i < pairs ==> match_opening(a.evaluator, seed, i as u64, #[trigger] openings[i])
            && pair_ends(a, b, openings[i], 0, scores[i])
}

/// What `a` can score against `b` in a match.
pub open spec fn match_ends<E: Judge>(
    a: Participant<E>,
    b: Participant<E>,
    pairs: int,
    seed: u64,
    total: MatchScore,
) -> bool {
    exists|openings: Seq<Game>, scores: Seq<MatchScore>| #[trigger]
        match_goes(a, b, pairs, seed, openings, scores) && total == sum(scores)
}

/// Without time limits a match can end in one way only.
pub proof fn law_matches_are_repeatable<E: Judge>(
    a: Participant<E>,
    b: Participant<E>,
    pairs: int,
    seed: u64,
    x: MatchScore,
    y: MatchScore,
)
    requires
        a.limits.movetime is None,
        b.limits.movetime is None,
        match_ends(a, b, pairs, seed, x),
        match_ends(a, b, pairs, seed, y),
    ensures
        x == y,
{
    reveal(match_goes);
    let (os, xs) = choose|os: Seq<Game>, xs: Seq<MatchScore>| #[trigger]
        match_goes(a, b, pairs, seed, os, xs) && x == sum(xs);
    let (ps, ys) = choose|ps: Seq<Game>, ys: Seq<MatchScore>| #[trigger]
        match_goes(a, b, pairs, seed, ps, ys) && y == sum(ys);
    assert forall|i: int| 0 <= i < pairs implies #[trigger] xs[i] == ys[i] by {
        let (g, h) = (os[i], ps[i]);
        assert(match_opening(a.evaluator, seed, i as u64, g));
        assert(match_opening(a.evaluator, seed, i as u64, h));
        lemma_opening_repeats(a.evaluator, seed, i as u64, g, h);
        assert(pair_ends(a, b, g, 0, xs[i]));
        assert(pair_ends(a, b, g, 0, ys[i]));
        lemma_pair_repeats(a, b, g, 0, xs[i], ys[i]);
    }
    assert(xs =~= ys);
}

proof fn lemma_opening_repeats<E: Judge>(ev: E, seed: u64, i: u64, g: Game, h: Game)
    requires
        match_opening(ev, seed, i, g),
        match_opening(ev, seed, i, h),
    ensures
        g == h,
{
    reveal(match_opening);
    let cfg = selfplay::usual(ev);
    let st = opening_seed(seed, i);
    let (s, x) = choose|s: Seq<int>, x: u64| #[trigger] selfplay::opens(cfg, st, s, g, x);
    let (t, y) = choose|t: Seq<int>, y: u64| #[trigger] selfplay::opens(cfg, st, t, h, y);
    selfplay::law_openings_are_repeatable(cfg, st, s, g, x, t, h, y);
}

proof fn lemma_pair_repeats<E: Judge>(
    a: Participant<E>,
    b: Participant<E>,
    g: Game,
    drift: u64,
    x: MatchScore,
    y: MatchScore,
)
    requires
        a.limits.movetime is None,
        b.limits.movetime is None,
        pair_ends(a, b, g, drift, x),
        pair_ends(a, b, g, drift, y),
    ensures
        x == y,
{
    reveal(pair_ends);
    let (x1, x2) = choose|r1: GameResult, r2: GameResult|
        #![trigger ends(a, b, g, drift, r1), ends(b, a, g, drift, r2)]
        ends(a, b, g, drift, r1) && ends(b, a, g, drift, r2) && x == scored(r1, Color::White).plus(
            scored(r2, Color::Black),
        );
    let (y1, y2) = choose|r1: GameResult, r2: GameResult|
        #![trigger ends(a, b, g, drift, r1), ends(b, a, g, drift, r2)]
        ends(a, b, g, drift, r1) && ends(b, a, g, drift, r2) && y == scored(r1, Color::White).plus(
            scored(r2, Color::Black),
        );
    law_games_are_repeatable(a, b, g, drift, x1, y1);
    law_games_are_repeatable(b, a, g, drift, x2, y2);
}

/// Plays `pairs * 2` games — every opening once from each side — in parallel.
/// Returns the score from `a`'s point of view.
pub fn play_match<E: Judge + Copy + Sync>(
    a: &Participant<E>,
    b: &Participant<E>,
    pairs: usize,
    seed: u64,
) -> (total: MatchScore)
    requires
        a.wf(),
        b.wf(),
        2 * pairs <= u32::MAX,
    ensures
        match_ends(*a, *b, pairs as int, seed, total),
        total.total() == 2 * pairs,
{
    let openings: Vec<Position> = match_openings(a.evaluator, pairs, seed);
    let scores: Vec<MatchScore> = play_each(a, b, &openings);
    let total = add_pairs(&scores);
    proof {
        reveal(match_goes);
        let games = Seq::new(openings@.len(), |i: int| openings@[i]@);
        assert forall|i: int| 0 <= i < pairs implies match_opening(
            a.evaluator,
            seed,
            i as u64,
            #[trigger] games[i],
        ) && pair_ends(*a, *b, games[i], 0, scores@[i]) by {
            assert(selfplay::in_play(openings@[i]));
            assert(games[i] == openings@[i]@);
        }
        assert(match_goes(*a, *b, pairs as int, seed, games, scores@));
    }
    total
}

// ---------------------------------------------------------------------------
// Round robin
// ---------------------------------------------------------------------------

/// Seed of the match between the `i`-th and the `j`-th participant.
pub fn pairing_seed(seed: u64, i: usize, j: usize) -> (s: u64)
    requires
        i * 31 + j <= u64::MAX,
        i * 31 + j <= usize::MAX,
    ensures
        s == seed ^ (i * 31 + j) as u64,
{
    seed ^ ((i * 31 + j) as u64)
}

/// In a pool of up to 31, no two matches have the same seed.
pub proof fn law_pairings_have_separate_seeds(seed: u64, i: int, j: int, k: int, m: int)
    requires
        0 <= i < j <= 30,
        0 <= k < m <= 30,
        (i, j) != (k, m),
    ensures
        seed ^ (i * 31 + j) as u64 != seed ^ (k * 31 + m) as u64,
{
    let (x, y) = ((i * 31 + j) as u64, (k * 31 + m) as u64);
    crate::tables::lemma_xor_undone(seed, x, y);
}

/// What the `k`-th participant scored against the `m`-th.
pub open spec fn against(results: Map<(int, int), MatchScore>, k: int, m: int) -> MatchScore {
    if k < m {
        results[(k, m)]
    } else {
        results[(m, k)].turned()
    }
}

/// What the `k`-th participant scored against the first `m` others.
pub open spec fn standing(results: Map<(int, int), MatchScore>, k: int, m: nat) -> MatchScore
    decreases m,
{
    if m == 0 {
        MatchScore { wins: 0, losses: 0, draws: 0 }
    } else if m - 1 == k {
        standing(results, k, (m - 1) as nat)
    } else {
        standing(results, k, (m - 1) as nat).plus(against(results, k, m - 1))
    }
}

/// A standing counts every match of a participant, and none of the others': its wins are
/// those as the first named of a pairing, and the other's losses as the second; and so on.
pub proof fn law_standings_count_own_matches(
    results: Map<(int, int), MatchScore>,
    k: int,
    m: nat,
    n: int,
)
    requires
        0 <= k,
        0 <= n,
        m * n <= u32::MAX,
        forall|i: int, j: int|
            0 <= i < j && (i == k || j == k) && j < m + k + 1 ==> (#[trigger] results[(i, j)]).total()
                == n,
    ensures
        ({
            let s = standing(results, k, m);
            &&& s.total() == n * (if k < m {
                m - 1
            } else {
                m as int
            })
            &&& s.wins == gathered(results, k, m, |x: MatchScore| x.wins as int, |x: MatchScore| x.losses as int)
            &&& s.losses == gathered(results, k, m, |x: MatchScore| x.losses as int, |x: MatchScore| x.wins as int)
            &&& s.draws == gathered(results, k, m, |x: MatchScore| x.draws as int, |x: MatchScore| x.draws as int)
        }),
    decreases m,
{
    if m > 0 {
        assert((m - 1) * n <= m * n) by (nonlinear_arith)
            requires
                n >= 0,
                m >= 1,
        ;
        law_standings_count_own_matches(results, k, (m - 1) as nat, n);
        let j = m - 1;
        if j != k {
            let x = if k < j {
                results[(k, j)]
            } else {
                results[(j, k)]
            };
            assert(x.total() == n);
            assert(n * (if k < m - 1 {
                m - 2
            } else {
                m - 1
            }) + n == n * (if k < m {
                m - 1
            } else {
                m as int
            })) by (nonlinear_arith)
                requires
                    k != m - 1,
                    m >= 1,
            ;
            assert(n * (if k < m {
                m - 1
            } else {
                m as int
            }) <= m * n) by (nonlinear_arith)
                requires
                    n >= 0,
                    m >= 1,
            ;
        }
    }
}

/// What the matches of the `k`-th participant against the first `m` others add up to,
/// read one way where it is named first and the other way where it is named second.
pub open spec fn gathered(
    results: Map<(int, int), MatchScore>,
    k: int,
    m: nat,
    first: spec_fn(MatchScore) -> int,
    second: spec_fn(MatchScore) -> int,
) -> int
    decreases m,
{
    if m == 0 {
        0
    } else {
        let j = m - 1;
        gathered(results, k, (m - 1) as nat, first, second) + if j == k {
            0
        } else if k < j {
            first(results[(k, j)])
        } else {
            second(results[(j, k)])
        }
    }
}

/// The totals after a match between two participants.
pub open spec fn tallied(
    totals: Seq<MatchScore>,
    i: int,
    j: int,
    s: MatchScore,
) -> Seq<MatchScore> {
    totals.update(i, totals[i].plus(s)).update(j, totals[j].plus(s.turned()))
}

/// Enters the score of a match, seen from the `i`-th participant, in the totals.
pub fn add_pairing(totals: &mut Vec<MatchScore>, i: usize, j: usize, s: &MatchScore)
    requires
        i < j < old(totals)@.len(),
        old(totals)@[i as int].total() + s.total() <= u32::MAX,
        old(totals)@[j as int].total() + s.total() <= u32::MAX,
    ensures
        final(totals)@ == tallied(old(totals)@, i as int, j as int, *s),
        final(totals)@[i as int].total() == old(totals)@[i as int].total() + s.total(),
        final(totals)@[j as int].total() == old(totals)@[j as int].total() + s.total(),
{
    let mut a: MatchScore = totals[i];
    let mut b: MatchScore = totals[j];
    a.merge(s);
    b.merge(&s.reversed());
    totals[i] = a;
    totals[j] = b;
    assert(totals@ =~= tallied(old(totals)@, i as int, j as int, *s));
}

/// How many others the `k`-th participant has met before the `j`-th pairing of the `i`-th.
spec fn met(n: int, k: int, i: int, j: int) -> int {
    if k < i {
        n
    } else if k == i {
        j
    } else if k < j {
        i + 1
    } else {
        i
    }
}

/// How many matches that is.
spec fn faced(n: int, k: int, i: int, j: int) -> int {
    if k <= i {
        met(n, k, i, j) - 1
    } else {
        met(n, k, i, j)
    }
}

proof fn lemma_standing(
    r1: Map<(int, int), MatchScore>,
    r2: Map<(int, int), MatchScore>,
    k: int,
    m: nat,
)
    requires
        forall|x: int| 0 <= x < m && x != k ==> #[trigger] against(r1, k, x) == against(r2, k, x),
    ensures
        standing(r1, k, m) == standing(r2, k, m),
    decreases m,
{
    if m > 0 {
        lemma_standing(r1, r2, k, (m - 1) as nat);
        if m - 1 != k {
            assert(against(r1, k, m - 1) == against(r2, k, m - 1));
        }
    }
}

/// The results are what the matches of a pool can end in.
pub open spec fn pool_plays<E: Judge>(
    pool: Seq<Participant<E>>,
    pairs: int,
    seed: u64,
    results: Map<(int, int), MatchScore>,
) -> bool {
    forall|i: int, j: int|
        0 <= i < j < pool.len() ==> match_ends(
            pool[i],
            pool[j],
            pairs,
            seed ^ (i * 31 + j) as u64,
            #[trigger] results[(i, j)],
        )
}

/// Round-robin over a pool: everyone meets everyone else once, and the result lists the
/// names with their totals.
pub fn round_robin<E: Judge + Copy + Sync>(
    pool: &Vec<Participant<E>>,
    pairs: usize,
    seed: u64,
) -> (table: Vec<(String, MatchScore)>)
    requires
        forall|i: int| 0 <= i < pool@.len() ==> (#[trigger] pool@[i]).wf(),
        pool@.len() * 32 <= u32::MAX,
        2 * pairs * pool@.len() <= u32::MAX,
        2 * pairs <= u32::MAX,
    ensures
        table@.len() == pool@.len(),
        forall|k: int| 0 <= k < pool@.len() ==> (#[trigger] table@[k]).0@ == pool@[k].name@,
        exists|results: Map<(int, int), MatchScore>| #[trigger]
            pool_plays(pool@, pairs as int, seed, results) && forall|k: int|
                0 <= k < pool@.len() ==> (#[trigger] table@[k]).1 == standing(
                    results,
                    k,
                    pool@.len() as nat,
                ),
{
    let n: usize = pool.len();
    let mut totals: Vec<MatchScore> = vec![MatchScore::default(); n];
    let ghost mut results: Map<(int, int), MatchScore> = Map::empty();
    let mut i: usize = 0;
    proof {
        reveal_with_fuel(standing, 3);
    }
    while i < n
        invariant
            n == pool@.len(),
            i <= n,
            forall|x: int| 0 <= x < n ==> (#[trigger] pool@[x]).wf(),
            n * 32 <= u32::MAX,
            2 * pairs * n <= u32::MAX,
            2 * pairs <= u32::MAX,
            totals@.len() == n,
            forall|x: int, y: int|
                0 <= x < i && x < y < n ==> match_ends(
                    pool@[x],
                    pool@[y],
                    pairs as int,
                    seed ^ (x * 31 + y) as u64,
                    #[trigger] results[(x, y)],
                ),
            forall|k: int|
                0 <= k < n ==> (#[trigger] totals@[k]) == standing(
                    results,
                    k,
                    met(n as int, k, i as int, i + 1) as nat,
                ),
            forall|k: int|
                0 <= k < n ==> (#[trigger] totals@[k]).total() <= 2 * pairs * faced(
                    n as int,
                    k,
                    i as int,
                    i + 1,
                ),
        decreases n - i,
    {
        let mut j: usize = i + 1;
        while j < n
            invariant
                n == pool@.len(),
                i < j <= n,
                forall|x: int| 0 <= x < n ==> (#[trigger] pool@[x]).wf(),
                n * 32 <= u32::MAX,
                2 * pairs * n <= u32::MAX,
                2 * pairs <= u32::MAX,
                totals@.len() == n,
                forall|x: int, y: int|
                    0 <= x < y < n && (x < i || x == i && y < j) ==> match_ends(
                        pool@[x],
                        pool@[y],
                        pairs as int,
                        seed ^ (x * 31 + y) as u64,
                        #[trigger] results[(x, y)],
                    ),
                forall|k: int|
                    0 <= k < n ==> (#[trigger] totals@[k]) == standing(
                        results,
                        k,
                        met(n as int, k, i as int, j as int) as nat,
                    ),
                forall|k: int|
                    0 <= k < n ==> (#[trigger] totals@[k]).total() <= 2 * pairs * faced(
                        n as int,
                        k,
                        i as int,
                        j as int,
                    ),
            decreases n - j,
        {
            let s = play_match(&pool[i], &pool[j], pairs, pairing_seed(seed, i, j));
            let ghost (t0, r0) = (totals@, results);
            proof {
                lemma_room(2 * pairs as int, j - 1, n as int);
                lemma_room(2 * pairs as int, i as int, n as int);
            }
            add_pairing(&mut totals, i, j, &s);
            proof {
                results = r0.insert((i as int, j as int), s);
                assert forall|k: int| 0 <= k < n implies (#[trigger] totals@[k]) == standing(
                    results,
                    k,
                    met(n as int, k, i as int, j + 1) as nat,
                ) by {
                    let m = met(n as int, k, i as int, j as int);
                    assert forall|x: int| 0 <= x < m && x != k implies #[trigger] against(
                        r0,
                        k,
                        x,
                    ) == against(results, k, x) by {}
                    lemma_standing(r0, results, k, m as nat);
                    assert(t0[k] == standing(r0, k, m as nat));
                }
                assert forall|k: int| 0 <= k < n implies (#[trigger] totals@[k]).total() <= 2
                    * pairs * faced(n as int, k, i as int, j + 1) by {
                    let m0 = faced(n as int, k, i as int, j as int);
                    let m1 = faced(n as int, k, i as int, j + 1);
                    assert(t0[k].total() <= 2 * pairs * m0);
                    lemma_rise(2 * pairs as int, m0, m1);
                }
            }
            j += 1;
        }
        proof {
            assert forall|k: int| 0 <= k < n implies (#[trigger] totals@[k]) == standing(
                results,
                k,
                met(n as int, k, i + 1, i + 2) as nat,
            ) by {
                assert(totals@[k] == standing(
                    results,
                    k,
                    met(n as int, k, i as int, n as int) as nat,
                ));
            }
            assert forall|k: int| 0 <= k < n implies (#[trigger] totals@[k]).total() <= 2 * pairs
                * faced(n as int, k, i + 1, i + 2) by {
                let m0 = faced(n as int, k, i as int, n as int);
                let m1 = faced(n as int, k, i + 1, i + 2);
                assert(totals@[k].total() <= 2 * pairs * m0);
                lemma_rise(2 * pairs as int, m0, m1);
            }
        }
        i += 1;
    }
    let mut table: Vec<(String, MatchScore)> = Vec::new();
    let mut k: usize = 0;
    while k < n
        invariant
            n == pool@.len(),
            totals@.len() == n,
            k <= n,
            table@.len() == k,
            forall|x: int|
                0 <= x < k ==> (#[trigger] table@[x]).0@ == pool@[x].name@ && table@[x].1
                    == totals@[x],
        decreases n - k,
    {
        table.push((pool[k].name.clone(), totals[k]));
        k += 1;
    }
    assert(pool_plays(pool@, pairs as int, seed, results));
    table
}

proof fn lemma_room(a: int, m: int, n: int)
    requires
        0 <= a,
        m < n,
    ensures
        a * m + a <= a * n,
{
    assert(a * m + a <= a * n) by (nonlinear_arith)
        requires
            0 <= a,
            m < n,
    ;
}

proof fn lemma_rise(a: int, m: int, n: int)
    requires
        0 <= a,
        m <= n,
    ensures
        a * m <= a * n,
        m < n ==> a * m + a <= a * n,
{
    assert(a * m <= a * n) by (nonlinear_arith)
        requires
            0 <= a,
            m <= n,
    ;
    if m < n {
        lemma_room(a, m, n);
    }
}

} // verus!
